use vstd::prelude::*;

verus! {

broadcast use vstd::string::group_string_axioms;

/// The characters of `s`, in order.
pub(crate) fn chars_of(s: &str) -> (res: Vec<char>)
    ensures
        res@ == s@,
{
    let mut res: Vec<char> = Vec::new();
    for c in it: s.chars()
        invariant
            res@ == it.history(),
    {
        res.push(c);
    }
    assert(res@ =~= s@);
    res
}


/// `line` without a final carriage return, if it has one.
pub open spec fn strip_cr(line: Seq<char>) -> Seq<char> {
    if line.len() > 0 && line.last() == '\r' {
        line.drop_last()
    } else {
        line
    }
}

/// The lines of `s` from position `i` on, where the current line began at
/// `start`: a line ends at each `'\n'`, which it does not include, nor a `'\r'`
/// just before it; a last line without a final `'\n'` is kept whole.
pub open spec fn lines_from(s: Seq<char>, start: int, i: int) -> Seq<Seq<char>>
    decreases s.len() - i,
{
    if i >= s.len() {
        if start < s.len() {
            seq![s.subrange(start, s.len() as int)]
        } else {
            seq![]
        }
    } else if s[i] == '\n' {
        seq![strip_cr(s.subrange(start, i))].add(lines_from(s, i + 1, i + 1))
    } else {
        lines_from(s, start, i + 1)
    }
}

/// The lines of `s`, as `str::lines` splits them.
pub open spec fn spec_lines(s: Seq<char>) -> Seq<Seq<char>> {
    lines_from(s, 0, 0)
}

/// The views of a sequence of string slices.
pub open spec fn views(v: Seq<&str>) -> Seq<Seq<char>> {
    v.map_values(|l: &str| l@)
}

/// Splits `contents` into its lines: at each `"\n"` or `"\r\n"`, without the line
/// endings, and without an empty line after a final line ending.
pub fn lines<'a>(contents: &'a str) -> (res: Vec<&'a str>)
    ensures
        views(res@) == spec_lines(contents@),
{
    let cs = chars_of(contents);
    let n = cs.len();
    let ghost s = contents@;
    let mut res: Vec<&'a str> = Vec::new();
    let mut start: usize = 0;
    let mut i: usize = 0;
    while i < n
        invariant
            cs@ == s,
            s == contents@,
            n == s.len(),
            0 <= start <= i <= n,
            spec_lines(s) == views(res@).add(lines_from(s, start as int, i as int)),
        decreases n - i,
    {
        if cs[i] == '\n' {
            let end = if i > start && cs[i - 1] == '\r' {
                i - 1
            } else {
                i
            };
            let line = contents.substring_char(start, end);
            proof {
                assert(line@ == strip_cr(s.subrange(start as int, i as int))) by {
                    if i > start && s[i - 1] == '\r' {
                        assert(s.subrange(start as int, i as int).drop_last() =~= s.subrange(start as int, i - 1));
                    }
                }
            }
            let ghost before = res@;
            res.push(line);
            proof {
                assert(views(res@) =~= views(before).push(line@));
                assert(views(before).add(lines_from(s, start as int, i as int)) =~= views(res@).add(
                    lines_from(s, i + 1, i + 1),
                ));
            }
            start = i + 1;
        }
        i = i + 1;
    }
    if start < n {
        let line = contents.substring_char(start, n);
        let ghost before = res@;
        res.push(line);
        proof {
            assert(views(res@) =~= views(before).push(line@));
            assert(views(before).add(lines_from(s, start as int, n as int)) =~= views(res@));
        }
    } else {
        assert(views(res@).add(lines_from(s, start as int, n as int)) =~= views(res@));
    }
    res
}

/// `needle` occurs in `haystack` at position `i`.
pub open spec fn occurs_at(haystack: Seq<char>, needle: Seq<char>, i: int) -> bool {
    0 <= i && i + needle.len() <= haystack.len() && haystack.subrange(i, i + needle.len()) == needle
}

/// `needle` occurs somewhere in `haystack`.
pub open spec fn spec_contains(haystack: Seq<char>, needle: Seq<char>) -> bool {
    exists|i: int| #[trigger] occurs_at(haystack, needle, i)
}

/// Whether `needle` occurs in `haystack` at position `i`.
fn occurs_at_exec(haystack: &Vec<char>, needle: &Vec<char>, i: usize) -> (res: bool)
    requires
        i + needle.len() <= haystack.len(),
    ensures
        res == occurs_at(haystack@, needle@, i as int),
{
    let mut j: usize = 0;
    while j < needle.len()
        invariant
            i + needle.len() <= haystack.len(),
            j <= needle@.len(),
            forall|k: int| 0 <= k < j ==> haystack@[i + k] == needle@[k],
        decreases needle@.len() - j,
    {
        if haystack[i + j] != needle[j] {
            assert(haystack@.subrange(i as int, i + needle@.len())[j as int] != needle@[j as int]);
            return false;
        }
        j = j + 1;
    }
    assert(haystack@.subrange(i as int, i + needle@.len()) =~= needle@);
    true
}

/// Whether `needle` occurs somewhere in `haystack`.
fn contains_chars(haystack: &Vec<char>, needle: &Vec<char>) -> (res: bool)
    ensures
        res == spec_contains(haystack@, needle@),
{
    if needle.len() > haystack.len() {
        return false;
    }
    if needle.len() == 0 {
        assert(haystack@.subrange(0, 0) =~= needle@);
        assert(occurs_at(haystack@, needle@, 0));
        return true;
    }
    let last = haystack.len() - needle.len();
    let mut i: usize = 0;
    while i <= last
        invariant
            last + needle.len() == haystack.len(),
            needle.len() > 0,
            i <= last + 1,
            forall|j: int| 0 <= j < i ==> !#[trigger] occurs_at(haystack@, needle@, j),
        decreases last + 1 - i,
    {
        if occurs_at_exec(haystack, needle, i) {
            return true;
        }
        i = i + 1;
    }
    false
}

/// Whether `needle` occurs somewhere in `haystack`, character for character.
pub fn contains(haystack: &str, needle: &str) -> (res: bool)
    ensures
        res == spec_contains(haystack@, needle@),
{
    contains_chars(&chars_of(haystack), &chars_of(needle))
}

/// The lines whose key contains `query`, in order; `keys[i]` is the key of `lines[i]`.
pub open spec fn select(lines: Seq<Seq<char>>, keys: Seq<Seq<char>>, query: Seq<char>) -> Seq<Seq<char>>
    decreases lines.len(),
{
    if lines.len() == 0 {
        seq![]
    } else {
        let rest = select(lines.drop_last(), keys.take(lines.len() - 1), query);
        if spec_contains(keys[lines.len() - 1], query) {
            rest.push(lines.last())
        } else {
            rest
        }
    }
}

/// The lines of `contents` that contain `query`.
pub open spec fn spec_search(query: Seq<char>, contents: Seq<char>) -> Seq<Seq<char>> {
    select(spec_lines(contents), spec_lines(contents), query)
}

proof fn lemma_select_step(lines: Seq<Seq<char>>, keys: Seq<Seq<char>>, query: Seq<char>, i: int)
    requires
        0 <= i < lines.len(),
        lines.len() <= keys.len(),
    ensures
        select(lines.take(i + 1), keys.take(i + 1), query) == (if spec_contains(keys[i], query) {
            select(lines.take(i), keys.take(i), query).push(lines[i])
        } else {
            select(lines.take(i), keys.take(i), query)
        }),
{
    assert(lines.take(i + 1).drop_last() =~= lines.take(i));
    assert(keys.take(i + 1).take(i) =~= keys.take(i));
}

/// `line` is one of `lines` whose key contains the query.
pub open spec fn is_matching_line(
    lines: Seq<Seq<char>>,
    keys: Seq<Seq<char>>,
    query: Seq<char>,
    line: Seq<char>,
) -> bool {
    exists|j: int| #![trigger lines[j]] 0 <= j < lines.len() && line == lines[j] && spec_contains(keys[j], query)
}

/// Each selected line is a line whose key contains the query.
proof fn lemma_select_sound(lines: Seq<Seq<char>>, keys: Seq<Seq<char>>, query: Seq<char>)
    requires
        lines.len() <= keys.len(),
    ensures
        forall|k: int|
            0 <= k < select(lines, keys, query).len() ==> is_matching_line(
                lines,
                keys,
                query,
                #[trigger] select(lines, keys, query)[k],
            ),
    decreases lines.len(),
{
    if lines.len() > 0 {
        let n = lines.len() - 1;
        let rest = select(lines.drop_last(), keys.take(n), query);
        lemma_select_sound(lines.drop_last(), keys.take(n), query);
        assert forall|k: int| 0 <= k < select(lines, keys, query).len() implies is_matching_line(
            lines,
            keys,
            query,
            #[trigger] select(lines, keys, query)[k],
        ) by {
            if k < rest.len() {
                assert(is_matching_line(lines.drop_last(), keys.take(n), query, rest[k]));
                let j = choose|j: int|
                    #![trigger lines.drop_last()[j]]
                    0 <= j < n && rest[k] == lines.drop_last()[j] && spec_contains(keys.take(n)[j], query);
                assert(select(lines, keys, query)[k] == lines[j]);
                assert(keys.take(n)[j] == keys[j]);
            } else {
                assert(select(lines, keys, query)[k] == lines[n]);
            }
        }
    }
}

/// Each line whose key contains the query is selected.
proof fn lemma_select_complete(lines: Seq<Seq<char>>, keys: Seq<Seq<char>>, query: Seq<char>)
    requires
        lines.len() <= keys.len(),
    ensures
        forall|j: int|
            0 <= j < lines.len() && spec_contains(keys[j], query) ==> select(
                lines,
                keys,
                query,
            ).contains(#[trigger] lines[j]),
    decreases lines.len(),
{
    if lines.len() > 0 {
        let n = lines.len() - 1;
        let rest = select(lines.drop_last(), keys.take(n), query);
        lemma_select_complete(lines.drop_last(), keys.take(n), query);
        assert forall|j: int| 0 <= j < lines.len() && spec_contains(keys[j], query) implies select(
            lines,
            keys,
            query,
        ).contains(#[trigger] lines[j]) by {
            if j < n {
                assert(keys.take(n)[j] == keys[j]);
                assert(lines.drop_last()[j] == lines[j]);
                assert(rest.contains(lines[j]));
                let k = choose|k: int| 0 <= k < rest.len() && rest[k] == lines[j];
                assert(select(lines, keys, query)[k] == lines[j]);
            } else {
                let sel = select(lines, keys, query);
                assert(sel[sel.len() - 1] == lines[j]);
            }
        }
    }
}

/// With an empty query every line is selected.
proof fn lemma_select_all(lines: Seq<Seq<char>>, keys: Seq<Seq<char>>)
    requires
        lines.len() <= keys.len(),
    ensures
        select(lines, keys, Seq::empty()) == lines,
    decreases lines.len(),
{
    if lines.len() > 0 {
        let n = lines.len() - 1;
        lemma_select_all(lines.drop_last(), keys.take(n));
        assert(keys[n].subrange(0, 0) =~= Seq::<char>::empty());
        assert(occurs_at(keys[n], Seq::empty(), 0));
        assert(select(lines, keys, Seq::empty()) =~= lines);
    }
}

/// Every line that `search` returns is a line of the contents that contains the
/// query.
pub proof fn search_returns_only_matching_lines(query: Seq<char>, contents: Seq<char>)
    ensures
        forall|k: int|
            0 <= k < spec_search(query, contents).len() ==> spec_contains(
                #[trigger] spec_search(query, contents)[k],
                query,
            ) && spec_lines(contents).contains(spec_search(query, contents)[k]),
{
    let ls = spec_lines(contents);
    lemma_select_sound(ls, ls, query);
    assert forall|k: int| 0 <= k < spec_search(query, contents).len() implies spec_contains(
        #[trigger] spec_search(query, contents)[k],
        query,
    ) && ls.contains(spec_search(query, contents)[k]) by {
        assert(is_matching_line(ls, ls, query, select(ls, ls, query)[k]));
        let j = choose|j: int|
            #![trigger ls[j]]
            0 <= j < ls.len() && select(ls, ls, query)[k] == ls[j] && spec_contains(ls[j], query);
    }
}

/// Every line of the contents that contains the query is among the lines that
/// `search` returns.
pub proof fn search_returns_every_matching_line(query: Seq<char>, contents: Seq<char>)
    ensures
        forall|j: int|
            0 <= j < spec_lines(contents).len() && spec_contains(spec_lines(contents)[j], query)
                ==> spec_search(query, contents).contains(#[trigger] spec_lines(contents)[j]),
{
    let ls = spec_lines(contents);
    lemma_select_complete(ls, ls, query);
}

/// `search` with an empty query returns every line of the contents.
pub proof fn search_with_empty_query_returns_every_line(contents: Seq<char>)
    ensures
        spec_search(Seq::empty(), contents) == spec_lines(contents),
{
    lemma_select_all(spec_lines(contents), spec_lines(contents));
}

/// A string that contains `mid` contains whatever `mid` contains.
proof fn lemma_contains_transitive(outer: Seq<char>, mid: Seq<char>, inner: Seq<char>)
    requires
        spec_contains(outer, mid),
        spec_contains(mid, inner),
    ensures
        spec_contains(outer, inner),
{
    let i = choose|i: int| #[trigger] occurs_at(outer, mid, i);
    let j = choose|j: int| #[trigger] occurs_at(mid, inner, j);
    assert(outer.subrange(i + j, i + j + inner.len()) =~= inner) by {
        assert forall|t: int| 0 <= t < inner.len() implies outer.subrange(i + j, i + j + inner.len())[t]
            == inner[t] by {
            assert(outer.subrange(i, i + mid.len())[j + t] == mid[j + t]);
            assert(mid.subrange(j, j + inner.len())[t] == inner[t]);
        }
    }
    assert(occurs_at(outer, inner, i + j));
}

/// Selecting by `outer`, among the lines already selected by `inner`, selects
/// what selecting by `outer` selects among all lines, when `outer` contains `inner`.
proof fn lemma_select_nested(lines: Seq<Seq<char>>, inner: Seq<char>, outer: Seq<char>)
    requires
        spec_contains(outer, inner),
    ensures
        select(lines, lines, outer) == select(
            select(lines, lines, inner),
            select(lines, lines, inner),
            outer,
        ),
    decreases lines.len(),
{
    if lines.len() > 0 {
        let n = lines.len() - 1;
        let rest = lines.drop_last();
        assert(lines.take(n) =~= rest);
        lemma_select_nested(rest, inner, outer);
        let x = lines.last();
        let s1 = select(rest, rest, inner);
        if spec_contains(x, inner) {
            let sel = s1.push(x);
            assert(sel.drop_last() =~= s1);
            assert(sel.take(sel.len() - 1) =~= s1);
        } else {
            if spec_contains(x, outer) {
                lemma_contains_transitive(x, outer, inner);
            }
        }
    }
}

/// Selecting among a line put in front of other lines: that line first, if its
/// key matches, then the selection among the others.
proof fn lemma_select_prepend(
    x: Seq<char>,
    k: Seq<char>,
    lines: Seq<Seq<char>>,
    keys: Seq<Seq<char>>,
    query: Seq<char>,
)
    requires
        lines.len() == keys.len(),
    ensures
        select(seq![x] + lines, seq![k] + keys, query) == (if spec_contains(k, query) {
            seq![x]
        } else {
            Seq::empty()
        }) + select(lines, keys, query),
    decreases lines.len(),
{
    let m = seq![x] + lines;
    let mk = seq![k] + keys;
    let first: Seq<Seq<char>> = if spec_contains(k, query) {
        seq![x]
    } else {
        Seq::empty()
    };
    if lines.len() == 0 {
        assert(m.drop_last() =~= Seq::<Seq<char>>::empty());
        assert(m.len() == 1 && m[0] == x && m.last() == x && mk[0] == k);
        assert(select(m.drop_last(), mk.take(0), query) == Seq::<Seq<char>>::empty());
        assert(select(lines, keys, query) == Seq::<Seq<char>>::empty());
        assert(select(m, mk, query) =~= first + select(lines, keys, query));
    } else {
        let n = lines.len() - 1;
        let rest = lines.drop_last();
        let krest = keys.drop_last();
        lemma_select_prepend(x, k, rest, krest, query);
        assert(m.drop_last() =~= seq![x] + rest);
        assert(mk.take(m.len() - 1) =~= seq![k] + krest);
        assert(keys.take(n) =~= krest);
        assert(m[m.len() - 1] == lines[n]);
        assert(mk[m.len() - 1] == keys[n]);
        let tail = select(rest, krest, query);
        if spec_contains(keys[n], query) {
            assert((first + tail).push(lines[n]) =~= first + tail.push(lines[n]));
        }
    }
}

/// The lines of `a + "\n" + b` from a position in `b` on are those of `b`.
proof fn lemma_lines_after_newline(a: Seq<char>, b: Seq<char>, start: int, i: int)
    requires
        0 <= start <= i <= b.len(),
    ensures
        lines_from(a + seq!['\n'] + b, a.len() + 1 + start, a.len() + 1 + i) == lines_from(b, start, i),
    decreases b.len() - i,
{
    let s = a + seq!['\n'] + b;
    let k = a.len() + 1;
    assert(s.len() == k + b.len());
    if i < b.len() {
        assert(s[k + i] == b[i]);
        if b[i] == '\n' {
            assert(s.subrange(k + start, k + i) =~= b.subrange(start, i));
            lemma_lines_after_newline(a, b, i + 1, i + 1);
        } else {
            lemma_lines_after_newline(a, b, start, i + 1);
        }
    } else {
        assert(s.subrange(k + start, s.len() as int) =~= b.subrange(start, b.len() as int));
    }
}

/// Scanning the first line `a` of `a + "\n" + b` yields `a`, then the lines of `b`.
proof fn lemma_lines_of_first_line(a: Seq<char>, b: Seq<char>, i: int)
    requires
        0 <= i <= a.len(),
        !a.contains('\n'),
        a.len() == 0 || a.last() != '\r',
    ensures
        lines_from(a + seq!['\n'] + b, 0, i) == seq![a] + spec_lines(b),
    decreases a.len() - i,
{
    let s = a + seq!['\n'] + b;
    if i < a.len() {
        assert(s[i] == a[i]);
        assert(a[i] != '\n');
        lemma_lines_of_first_line(a, b, i + 1);
    } else {
        assert(s[i] == '\n');
        assert(s.subrange(0, i) =~= a);
        lemma_lines_after_newline(a, b, 0, 0);
    }
}

/// The lines of `a + "\n" + b`, where `a` holds no `'\n'` and does not end in
/// `'\r'`, are `a` followed by the lines of `b`.
pub proof fn lines_of_line_then_rest(a: Seq<char>, b: Seq<char>)
    requires
        !a.contains('\n'),
        a.len() == 0 || a.last() != '\r',
    ensures
        spec_lines(a + seq!['\n'] + b) == seq![a] + spec_lines(b),
{
    lemma_lines_of_first_line(a, b, 0);
}

/// `search` in `a + "\n" + b`, where `a` holds no `'\n'` and does not end in
/// `'\r'`, returns `a` if it contains the query, then what `search` returns in `b`:
/// every matching line, in order, each as often as it occurs.  In an empty text it
/// returns nothing, and in a single line `a` it returns `a` exactly when `a`
/// contains the query.
pub proof fn search_line_then_rest(query: Seq<char>, a: Seq<char>, b: Seq<char>)
    requires
        !a.contains('\n'),
        a.len() == 0 || a.last() != '\r',
    ensures
        spec_search(query, a + seq!['\n'] + b) == (if spec_contains(a, query) {
            seq![a]
        } else {
            Seq::empty()
        }) + spec_search(query, b),
        spec_search(query, Seq::empty()) == Seq::<Seq<char>>::empty(),
        a.len() > 0 ==> spec_search(query, a) == (if spec_contains(a, query) {
            seq![a]
        } else {
            Seq::empty()
        }),
{
    lines_of_line_then_rest(a, b);
    lemma_select_prepend(a, a, spec_lines(b), spec_lines(b), query);
    lines_of_single_line(Seq::<char>::empty());
    if a.len() > 0 {
        lines_of_single_line(a);
        lemma_select_prepend(a, a, Seq::empty(), Seq::empty(), query);
        assert(seq![a] + Seq::<Seq<char>>::empty() =~= seq![a]);
    }
}

/// A text without a `'\n'` is one line, kept whole; an empty text has no lines.
pub proof fn lines_of_single_line(a: Seq<char>)
    requires
        !a.contains('\n'),
    ensures
        a.len() > 0 ==> spec_lines(a) == seq![a],
        a.len() == 0 ==> spec_lines(a) == Seq::<Seq<char>>::empty(),
{
    lemma_lines_without_newline(a, 0);
    assert(a.subrange(0, a.len() as int) =~= a);
}

/// Scanning a text without a `'\n'` from position `i` on reaches its end within
/// the current line.
proof fn lemma_lines_without_newline(a: Seq<char>, i: int)
    requires
        !a.contains('\n'),
        0 <= i <= a.len(),
    ensures
        lines_from(a, 0, i) == lines_from(a, 0, a.len() as int),
    decreases a.len() - i,
{
    if i < a.len() {
        assert(a[i] != '\n');
        lemma_lines_without_newline(a, i + 1);
    }
}

/// `search_case_insensitive` in `a + "\n" + b`, where `a` holds no `'\n'` and does
/// not end in `'\r'`, returns `a` if its lowercase form contains the lowercase
/// query, then what it returns in `b`: every matching line, in order, each as
/// often as it occurs.  In an empty text it returns nothing, and in a single line
/// `a` it returns `a` exactly when `a` matches.
pub proof fn search_case_insensitive_line_then_rest(query: Seq<char>, a: Seq<char>, b: Seq<char>)
    requires
        !a.contains('\n'),
        a.len() == 0 || a.last() != '\r',
    ensures
        spec_search_case_insensitive(query, a + seq!['\n'] + b) == (if spec_contains(
            spec_to_lowercase(a),
            spec_to_lowercase(query),
        ) {
            seq![a]
        } else {
            Seq::empty()
        }) + spec_search_case_insensitive(query, b),
        spec_search_case_insensitive(query, Seq::empty()) == Seq::<Seq<char>>::empty(),
        a.len() > 0 ==> spec_search_case_insensitive(query, a) == (if spec_contains(
            spec_to_lowercase(a),
            spec_to_lowercase(query),
        ) {
            seq![a]
        } else {
            Seq::empty()
        }),
{
    let lb = spec_lines(b);
    lines_of_line_then_rest(a, b);
    assert(lowercase_all(seq![a] + lb) =~= seq![spec_to_lowercase(a)] + lowercase_all(lb));
    lemma_select_prepend(a, spec_to_lowercase(a), lb, lowercase_all(lb), spec_to_lowercase(query));
    lines_of_single_line(Seq::<char>::empty());
    assert(select(Seq::empty(), Seq::empty(), spec_to_lowercase(query)) == Seq::<Seq<char>>::empty());
    assert(lowercase_all(Seq::<Seq<char>>::empty()) =~= Seq::<Seq<char>>::empty());
    if a.len() > 0 {
        lines_of_single_line(a);
        assert(lowercase_all(seq![a]) =~= seq![spec_to_lowercase(a)]);
        lemma_select_prepend(
            a,
            spec_to_lowercase(a),
            Seq::empty(),
            Seq::empty(),
            spec_to_lowercase(query),
        );
        assert(seq![a] + Seq::<Seq<char>>::empty() =~= seq![a]);
        assert(seq![spec_to_lowercase(a)] + Seq::<Seq<char>>::empty() =~= seq![spec_to_lowercase(a)]);
    }
}

/// When `outer` contains `inner`, `search` for `outer` returns the lines, among
/// those that `search` for `inner` returns, that contain `outer`: a subsequence of
/// them, in the same order.
pub proof fn search_for_longer_query_refines(inner: Seq<char>, outer: Seq<char>, contents: Seq<char>)
    requires
        spec_contains(outer, inner),
    ensures
        spec_search(outer, contents) == select(
            spec_search(inner, contents),
            spec_search(inner, contents),
            outer,
        ),
{
    lemma_select_nested(spec_lines(contents), inner, outer);
}

/// Returns the lines of `contents` that contain `query`, in order.
pub fn search<'a>(query: &str, contents: &'a str) -> (res: Vec<&'a str>)
    ensures
        views(res@) == spec_search(query@, contents@),
{
    let all = lines(contents);
    let q = chars_of(query);
    let ghost ls = views(all@);
    let mut results: Vec<&'a str> = Vec::new();
    let mut i: usize = 0;
    while i < all.len()
        invariant
            ls == views(all@),
            q@ == query@,
            i <= all@.len(),
            views(results@) == select(ls.take(i as int), ls.take(i as int), query@),
        decreases all@.len() - i,
    {
        let line = all[i];
        proof {
            lemma_select_step(ls, ls, query@, i as int);
        }
        let ghost before = results@;
        if contains_chars(&chars_of(line), &q) {
            results.push(line);
            assert(views(results@) =~= views(before).push(line@));
        }
        i = i + 1;
    }
    assert(ls.take(all@.len() as int) =~= ls);
    results
}

/// The lowercase equivalent of a string, as `str::to_lowercase` computes it.
pub uninterp spec fn spec_to_lowercase(s: Seq<char>) -> Seq<char>;

/// Calls `str::to_lowercase`, which maps the characters of `s` to their lowercase
/// forms by the Unicode tables of the standard library (one character may become
/// several, and a final sigma is handled by its context).  The contract claims only
/// that the result is a function of `s` alone, named `spec_to_lowercase`; how the
/// tables map characters is left unsaid.
#[verifier::external_body]
fn to_lowercase(s: &str) -> (res: String)
    ensures
        res@ == spec_to_lowercase(s@),
{
    s.to_lowercase()
}

/// The views of a sequence of strings.
pub open spec fn string_views(v: Seq<String>) -> Seq<Seq<char>> {
    v.map_values(|k: String| k@)
}

/// The lowercase forms of a sequence of lines.
pub open spec fn lowercase_all(lines: Seq<Seq<char>>) -> Seq<Seq<char>> {
    lines.map_values(|l: Seq<char>| spec_to_lowercase(l))
}

/// The lines of `contents` whose lowercase form contains the lowercase form of `query`.
pub open spec fn spec_search_case_insensitive(query: Seq<char>, contents: Seq<char>) -> Seq<Seq<char>> {
    select(spec_lines(contents), lowercase_all(spec_lines(contents)), spec_to_lowercase(query))
}

/// Every line that `search_case_insensitive` returns is a line of the contents
/// whose lowercase form contains the lowercase form of the query; every such line
/// is returned.  (`lowercase_all(lines)[j]` is the lowercase form of `lines[j]`.)
pub proof fn search_case_insensitive_returns_the_matching_lines(query: Seq<char>, contents: Seq<char>)
    ensures
        forall|k: int|
            0 <= k < spec_search_case_insensitive(query, contents).len() ==> is_matching_line(
                spec_lines(contents),
                lowercase_all(spec_lines(contents)),
                spec_to_lowercase(query),
                #[trigger] spec_search_case_insensitive(query, contents)[k],
            ),
        forall|j: int|
            0 <= j < spec_lines(contents).len() && spec_contains(
                spec_to_lowercase(spec_lines(contents)[j]),
                spec_to_lowercase(query),
            ) ==> spec_search_case_insensitive(query, contents).contains(
                #[trigger] spec_lines(contents)[j],
            ),
{
    let ls = spec_lines(contents);
    let ks = lowercase_all(ls);
    let q = spec_to_lowercase(query);
    lemma_select_sound(ls, ks, q);
    lemma_select_complete(ls, ks, q);
    assert forall|j: int| 0 <= j < ls.len() implies #[trigger] ks[j] == spec_to_lowercase(ls[j]) by {}
}

/// Returns, in order, the lines whose key contains `query`; `keys[i]` is the key
/// of `lines[i]`.
pub fn select_matching<'a>(lines: &Vec<&'a str>, keys: &Vec<String>, query: &str) -> (res: Vec<&'a str>)
    requires
        lines@.len() == keys@.len(),
    ensures
        views(res@) == select(views(lines@), string_views(keys@), query@),
{
    let q = chars_of(query);
    let ghost ls = views(lines@);
    let ghost ks = string_views(keys@);
    let mut results: Vec<&'a str> = Vec::new();
    let mut i: usize = 0;
    while i < lines.len()
        invariant
            ls == views(lines@),
            ks == string_views(keys@),
            lines@.len() == keys@.len(),
            q@ == query@,
            i <= lines@.len(),
            views(results@) == select(ls.take(i as int), ks.take(i as int), query@),
        decreases lines@.len() - i,
    {
        let line = lines[i];
        proof {
            lemma_select_step(ls, ks, query@, i as int);
        }
        let ghost before = results@;
        if contains_chars(&chars_of(keys[i].as_str()), &q) {
            results.push(line);
            assert(views(results@) =~= views(before).push(line@));
        }
        i = i + 1;
    }
    assert(ls.take(lines@.len() as int) =~= ls);
    assert(ks.take(lines@.len() as int) =~= ks);
    results
}

/// Returns the lines of `contents` that contain `query`, ignoring case: both are
/// compared in their lowercase forms.
pub fn search_case_insensitive<'a>(query: &str, contents: &'a str) -> (res: Vec<&'a str>)
    ensures
        views(res@) == spec_search_case_insensitive(query@, contents@),
{
    let query = to_lowercase(query);
    let all = lines(contents);
    let ghost ls = views(all@);
    let mut keys: Vec<String> = Vec::new();
    let mut i: usize = 0;
    while i < all.len()
        invariant
            ls == views(all@),
            i <= all@.len(),
            string_views(keys@) == lowercase_all(ls.take(i as int)),
        decreases all@.len() - i,
    {
        let ghost before = keys@;
        keys.push(to_lowercase(all[i]));
        assert(string_views(keys@) =~= lowercase_all(ls.take(i + 1))) by {
            assert(string_views(keys@) =~= string_views(before).push(spec_to_lowercase(all@[i as int]@)));
        }
        i = i + 1;
    }
    assert(ls.take(all@.len() as int) =~= ls);
    select_matching(&all, &keys, query.as_str())
}

/// What to search for, where, and whether case matters.
pub struct Config {
    pub query: String,
    pub file_path: String,
    pub ignore_case: bool,
}

impl Config {
    /// Builds a configuration from the command-line arguments, whose first one is
    /// the program's name: the second is the query and the third the file path.
    /// `ignore_case` says whether the search ignores case.
    pub fn build(args: &[String], ignore_case: bool) -> (res: Result<Config, &'static str>)
        ensures
            args@.len() < 2 ==> (res matches Err(e) && e@ == "Didn't get a query string"@),
            args@.len() == 2 ==> (res matches Err(e) && e@ == "Didn't get a file name"@),
            args@.len() > 2 ==> (res matches Ok(cnf) && cnf.query@ == args@[1]@ && cnf.file_path@
                == args@[2]@ && cnf.ignore_case == ignore_case),
    {
        if args.len() < 2 {
            return Err("Didn't get a query string");
        }
        if args.len() < 3 {
            return Err("Didn't get a file name");
        }
        let query = args[1].clone();
        let file_path = args[2].clone();
        Ok(Config { query, file_path, ignore_case })
    }
}

/// The lines of `contents` that the configuration's search selects.
pub open spec fn spec_run_search(cnf: Config, contents: Seq<char>) -> Seq<Seq<char>> {
    if cnf.ignore_case {
        spec_search_case_insensitive(cnf.query@, contents)
    } else {
        spec_search(cnf.query@, contents)
    }
}

/// Searches `contents` for the configuration's query, ignoring case when the
/// configuration says so.
pub fn run_search<'a>(cnf: &Config, contents: &'a str) -> (res: Vec<&'a str>)
    ensures
        views(res@) == spec_run_search(*cnf, contents@),
        cnf.ignore_case ==> views(res@) == spec_search_case_insensitive(cnf.query@, contents@),
        !cnf.ignore_case ==> views(res@) == spec_search(cnf.query@, contents@),
{
    if cnf.ignore_case {
        search_case_insensitive(cnf.query.as_str(), contents)
    } else {
        search(cnf.query.as_str(), contents)
    }
}
/// With `ignore_case` set, the configured search is the case-insensitive search
/// for the query, whatever the query; with it unset, the case-sensitive search.
pub proof fn run_search_follows_ignore_case(cnf: Config, contents: Seq<char>)
    ensures
        cnf.ignore_case ==> spec_run_search(cnf, contents) == spec_search_case_insensitive(
            cnf.query@,
            contents,
        ),
        !cnf.ignore_case ==> spec_run_search(cnf, contents) == spec_search(cnf.query@, contents),
{
}

/// `needle` occurs in `haystack` exactly when `haystack` is some text, then
/// `needle`, then some more text.
pub proof fn contains_is_a_split(haystack: Seq<char>, needle: Seq<char>)
    ensures
        spec_contains(haystack, needle) <==> exists|x: Seq<char>, y: Seq<char>|
            haystack == x + needle + y,
{
    if spec_contains(haystack, needle) {
        let i = choose|i: int| #[trigger] occurs_at(haystack, needle, i);
        let x = haystack.take(i);
        let y = haystack.skip(i + needle.len());
        assert(haystack =~= x + needle + y);
    }
    if exists|x: Seq<char>, y: Seq<char>| haystack == x + needle + y {
        let (x, y) = choose|x: Seq<char>, y: Seq<char>| haystack == x + needle + y;
        assert(haystack.subrange(x.len() as int, (x.len() + needle.len()) as int) =~= needle);
        assert(occurs_at(haystack, needle, x.len() as int));
    }
}

} // verus!

use vstd::prelude::*;

use crate::minigrep::{chars_of, lines, spec_lines};

verus! {

/// `c` has the Unicode `White_Space` property.
pub open spec fn is_white_space(c: char) -> bool {
    let u = c as u32;
    ||| 0x09 <= u <= 0x0d
    ||| u == 0x20
    ||| u == 0x85
    ||| u == 0xa0
    ||| u == 0x1680
    ||| 0x2000 <= u <= 0x200a
    ||| u == 0x2028
    ||| u == 0x2029
    ||| u == 0x202f
    ||| u == 0x205f
    ||| u == 0x3000
}

/// Whether `c` has the Unicode `White_Space` property.
pub fn is_whitespace(c: char) -> (res: bool)
    ensures
        res == is_white_space(c),
{
    let u = c as u32;
    (0x09 <= u && u <= 0x0d) || u == 0x20 || u == 0x85 || u == 0xa0 || u == 0x1680 || (0x2000
        <= u && u <= 0x200a) || u == 0x2028 || u == 0x2029 || u == 0x202f || u == 0x205f || u
        == 0x3000
}

/// `s` without its leading white space.
pub open spec fn trim_start(s: Seq<char>) -> Seq<char>
    decreases s.len(),
{
    if s.len() > 0 && is_white_space(s[0]) {
        trim_start(s.drop_first())
    } else {
        s
    }
}

/// `s` without its trailing white space.
pub open spec fn trim_end(s: Seq<char>) -> Seq<char>
    decreases s.len(),
{
    if s.len() > 0 && is_white_space(s.last()) {
        trim_end(s.drop_last())
    } else {
        s
    }
}

/// `s` without its leading and trailing white space.
pub open spec fn spec_trim(s: Seq<char>) -> Seq<char> {
    trim_end(trim_start(s))
}

/// Returns `s` without its leading and trailing white space.
pub fn trim<'a>(s: &'a str) -> (res: &'a str)
    ensures
        res@ == spec_trim(s@),
{
    let cs = chars_of(s);
    let n = cs.len();
    let ghost t = s@;
    let mut lo: usize = 0;
    assert(t.subrange(0, n as int) =~= t);
    while lo < n && is_whitespace(cs[lo])
        invariant
            cs@ == t,
            t == s@,
            n == t.len(),
            lo <= n,
            trim_start(t) == trim_start(t.subrange(lo as int, n as int)),
        decreases n - lo,
    {
        assert(t.subrange(lo as int, n as int).drop_first() =~= t.subrange(lo + 1, n as int));
        lo = lo + 1;
    }
    assert(trim_start(t) == t.subrange(lo as int, n as int));
    let mut hi: usize = n;
    while hi > lo && is_whitespace(cs[hi - 1])
        invariant
            cs@ == t,
            n == t.len(),
            lo <= hi <= n,
            spec_trim(t) == trim_end(t.subrange(lo as int, hi as int)),
        decreases hi - lo,
    {
        assert(t.subrange(lo as int, hi as int).drop_last() =~= t.subrange(lo as int, hi - 1));
        hi = hi - 1;
    }
    s.substring_char(lo, hi)
}

/// The pieces of `s` from position `i` on, where the current piece began at
/// `start`: a piece ends at each `sep`, which it does not include; the last piece
/// runs to the end of `s`, and may be empty.
pub open spec fn split_from(s: Seq<char>, sep: char, start: int, i: int) -> Seq<Seq<char>>
    decreases s.len() - i,
{
    if i >= s.len() {
        seq![s.subrange(start, s.len() as int)]
    } else if s[i] == sep {
        seq![s.subrange(start, i)].add(split_from(s, sep, i + 1, i + 1))
    } else {
        split_from(s, sep, start, i + 1)
    }
}

/// The pieces of `s` between the occurrences of `sep`, as `str::split` gives them.
pub open spec fn spec_split(s: Seq<char>, sep: char) -> Seq<Seq<char>> {
    split_from(s, sep, 0, 0)
}

/// Splits `s` at each occurrence of `sep`.
pub fn split<'a>(s: &'a str, sep: char) -> (res: Vec<&'a str>)
    ensures
        res@.map_values(|p: &str| p@) == spec_split(s@, sep),
{
    let cs = chars_of(s);
    let n = cs.len();
    let ghost t = s@;
    let mut res: Vec<&'a str> = Vec::new();
    let mut start: usize = 0;
    let mut i: usize = 0;
    while i < n
        invariant
            cs@ == t,
            t == s@,
            n == t.len(),
            0 <= start <= i <= n,
            spec_split(t, sep) == res@.map_values(|p: &str| p@).add(split_from(t, sep, start as int, i as int)),
        decreases n - i,
    {
        if cs[i] == sep {
            let piece = s.substring_char(start, i);
            let ghost before = res@;
            res.push(piece);
            proof {
                assert(res@.map_values(|p: &str| p@) =~= before.map_values(|p: &str| p@).push(piece@));
                assert(before.map_values(|p: &str| p@).add(split_from(t, sep, start as int, i as int))
                    =~= res@.map_values(|p: &str| p@).add(split_from(t, sep, i + 1, i + 1)));
            }
            start = i + 1;
        }
        i = i + 1;
    }
    let piece = s.substring_char(start, n);
    let ghost before = res@;
    res.push(piece);
    proof {
        assert(res@.map_values(|p: &str| p@) =~= before.map_values(|p: &str| p@).push(piece@));
        assert(before.map_values(|p: &str| p@).add(split_from(t, sep, start as int, n as int))
            =~= res@.map_values(|p: &str| p@));
    }
    res
}

/// What a record line gives: `None` for a blank line; otherwise its first two
/// comma-separated fields, trimmed, or `None` inside when it has only one field.
pub open spec fn record_of(record: Seq<char>) -> Option<Option<(Seq<char>, Seq<char>)>> {
    if spec_trim(record).len() == 0 {
        None
    } else {
        let fields = spec_split(record, ',');
        if fields.len() >= 2 {
            Some(Some((spec_trim(fields[0]), spec_trim(fields[1]))))
        } else {
            Some(None)
        }
    }
}

/// What the record lines give, blank lines left out.
pub open spec fn records_of(records: Seq<Seq<char>>) -> Seq<Option<(Seq<char>, Seq<char>)>>
    decreases records.len(),
{
    if records.len() == 0 {
        seq![]
    } else {
        let rest = records_of(records.drop_last());
        match record_of(records.last()) {
            Some(r) => rest.push(r),
            None => rest,
        }
    }
}

/// The record lines of `data`: its lines after the first, which is the header.
pub open spec fn record_lines(data: Seq<char>) -> Seq<Seq<char>> {
    let ls = spec_lines(data);
    if ls.len() == 0 {
        ls
    } else {
        ls.drop_first()
    }
}

/// The view of a record's fields.
pub open spec fn fields_view(r: Option<(&str, &str)>) -> Option<(Seq<char>, Seq<char>)> {
    match r {
        Some((name, length)) => Some((name@, length@)),
        None => None,
    }
}

/// Reads the records of a table of penguins whose first line is a header: for
/// each record line that is not blank, its name and length fields, trimmed, or
/// `None` when the line has no second field.
pub fn penguin_records<'a>(data: &'a str) -> (res: Vec<Option<(&'a str, &'a str)>>)
    ensures
        res@.map_values(|r: Option<(&str, &str)>| fields_view(r)) == records_of(record_lines(data@)),
{
    let all = lines(data);
    let ghost ls = spec_lines(data@);
    assert(all@.map_values(|l: &str| l@) == ls);
    let mut res: Vec<Option<(&'a str, &'a str)>> = Vec::new();
    if all.len() == 0 {
        assert(res@.map_values(|r: Option<(&str, &str)>| fields_view(r)) =~= records_of(
            record_lines(data@),
        ));
        return res;
    }
    let ghost recs = ls.drop_first();
    let mut i: usize = 1;
    while i < all.len()
        invariant
            ls == spec_lines(data@),
            all@.map_values(|l: &str| l@) == ls,
            all@.len() > 0,
            recs == ls.drop_first(),
            1 <= i <= all@.len(),
            res@.map_values(|r: Option<(&str, &str)>| fields_view(r)) == records_of(recs.take(i - 1)),
        decreases all@.len() - i,
    {
        let record = all[i];
        assert(recs.take(i as int).drop_last() =~= recs.take(i - 1));
        assert(recs.take(i as int).last() == record@);
        let ghost before = res@;
        if !trim(record).is_empty() {
            let fields = split(record, ',');
            proof {
                let fv = fields@.map_values(|p: &str| p@);
                assert(fv.len() == fields@.len());
                if fields@.len() >= 2 {
                    assert(fv[0] == fields@[0]@);
                    assert(fv[1] == fields@[1]@);
                }
            }
            if fields.len() >= 2 {
                res.push(Some((trim(fields[0]), trim(fields[1]))));
            } else {
                res.push(None);
            }
            assert(res@.map_values(|r: Option<(&str, &str)>| fields_view(r)) =~= before.map_values(
                |r: Option<(&str, &str)>| fields_view(r),
            ).push(record_of(record@)->0));
        }
        i = i + 1;
    }
    assert(recs.take(all@.len() - 1) =~= recs);
    res
}

/// Scanning past a stretch without `sep` up to the end keeps one last piece.
proof fn lemma_split_to_end(s: Seq<char>, sep: char, start: int, i: int)
    requires
        0 <= start <= i <= s.len(),
        forall|t: int| i <= t < s.len() ==> s[t] != sep,
    ensures
        split_from(s, sep, start, i) == seq![s.subrange(start, s.len() as int)],
    decreases s.len() - i,
{
    if i < s.len() {
        lemma_split_to_end(s, sep, start, i + 1);
    }
}

/// Scanning past a stretch without `sep` up to the `sep` at `q` ends the current
/// piece there.
proof fn lemma_split_to_sep(s: Seq<char>, sep: char, start: int, i: int, q: int)
    requires
        0 <= start <= i <= q < s.len(),
        s[q] == sep,
        forall|t: int| i <= t < q ==> s[t] != sep,
    ensures
        split_from(s, sep, start, i) == seq![s.subrange(start, q)] + split_from(s, sep, q + 1, q + 1),
    decreases q - i,
{
    if i < q {
        lemma_split_to_sep(s, sep, start, i + 1, q);
    }
}

/// A blank record line gives no entry.  A record line that is not blank gives
/// `None` exactly when it holds no comma; otherwise its name is the trimmed text
/// before its first comma, at `p`, and its length is the trimmed text from there
/// to the next comma or the end, at `q`, whatever that text is, empty included.
pub proof fn record_fields_are_the_first_two(r: Seq<char>, p: int, q: int)
    ensures
        spec_trim(r).len() == 0 ==> record_of(r) is None,
        spec_trim(r).len() != 0 ==> (record_of(r) == Some(None::<(Seq<char>, Seq<char>)>)
            <==> !r.contains(',')),
        spec_trim(r).len() != 0 && 0 <= p < q <= r.len() && r[p] == ',' && (forall|t: int|
            0 <= t < p ==> r[t] != ',') && (q == r.len() || r[q] == ',') && (forall|t: int|
            p < t < q ==> r[t] != ',') ==> record_of(r) == Some(
            Some((spec_trim(r.take(p)), spec_trim(r.subrange(p + 1, q)))),
        ),
{
    if !r.contains(',') {
        lemma_split_to_end(r, ',', 0, 0);
    } else {
        let p0 = choose|t: int| 0 <= t < r.len() && r[t] == ',';
        let p1 = choose|t: int| 0 <= t < r.len() && r[t] == ',' && forall|u: int| 0 <= u < t ==> r[u] != ',';
        // the first comma exists
        assert(exists|t: int| 0 <= t < r.len() && r[t] == ',' && forall|u: int| 0 <= u < t ==> r[u] != ',') by {
            lemma_first_comma(r, p0);
        }
        lemma_split_to_sep(r, ',', 0, 0, p1);
        let rest = split_from(r, ',', p1 + 1, p1 + 1);
        assert(rest.len() >= 1) by {
            lemma_split_nonempty(r, ',', p1 + 1, p1 + 1);
        }
    }
    if spec_trim(r).len() != 0 && 0 <= p < q <= r.len() && r[p] == ',' && (forall|t: int|
        0 <= t < p ==> r[t] != ',') && (q == r.len() || r[q] == ',') && (forall|t: int|
        p < t < q ==> r[t] != ',') {
        lemma_split_to_sep(r, ',', 0, 0, p);
        if q == r.len() {
            lemma_split_to_end(r, ',', p + 1, p + 1);
        } else {
            lemma_split_to_sep(r, ',', p + 1, p + 1, q);
        }
        assert(r.subrange(0, p) =~= r.take(p));
    }
}

/// Before any comma there is a first one.
proof fn lemma_first_comma(r: Seq<char>, t: int)
    requires
        0 <= t < r.len(),
        r[t] == ',',
    ensures
        exists|f: int| 0 <= f < r.len() && r[f] == ',' && forall|u: int| 0 <= u < f ==> r[u] != ',',
    decreases t,
{
    if exists|u: int| 0 <= u < t && r[u] == ',' {
        let u = choose|u: int| 0 <= u < t && r[u] == ',';
        lemma_first_comma(r, u);
    } else {
        assert(forall|u: int| 0 <= u < t ==> r[u] != ',');
    }
}

/// Splitting always yields at least one piece.
proof fn lemma_split_nonempty(s: Seq<char>, sep: char, start: int, i: int)
    ensures
        split_from(s, sep, start, i).len() >= 1,
    decreases s.len() - i,
{
    if i < s.len() {
        if s[i] != sep {
            lemma_split_nonempty(s, sep, start, i + 1);
        }
    }
}

/// The entries of a record line put in front of other record lines: that line's
/// entry first, if it is not blank, then the entries of the others, each line
/// giving its own entry, in order.
pub proof fn records_of_prepend(r: Seq<char>, recs: Seq<Seq<char>>)
    ensures
        records_of(seq![r] + recs) == (match record_of(r) {
            Some(x) => seq![x],
            None => Seq::empty(),
        }) + records_of(recs),
    decreases recs.len(),
{
    let m = seq![r] + recs;
    let first: Seq<Option<(Seq<char>, Seq<char>)>> = match record_of(r) {
        Some(x) => seq![x],
        None => Seq::empty(),
    };
    if recs.len() == 0 {
        assert(m.drop_last() =~= Seq::<Seq<char>>::empty());
        assert(m.last() == r);
        assert(records_of(m.drop_last()) == Seq::<Option<(Seq<char>, Seq<char>)>>::empty());
        assert(records_of(m) =~= first + records_of(recs));
    } else {
        let rest = recs.drop_last();
        records_of_prepend(r, rest);
        assert(m.drop_last() =~= seq![r] + rest);
        assert(m.last() == recs.last());
        let tail = records_of(rest);
        match record_of(recs.last()) {
            Some(x) => {
                assert((first + tail).push(x) =~= first + tail.push(x));
            },
            None => {},
        }
    }
}

/// The record lines of a table are the lines after its header line `h`.
pub proof fn record_lines_follow_the_header(h: Seq<char>, body: Seq<char>)
    requires
        !h.contains('\n'),
        h.len() == 0 || h.last() != '\r',
    ensures
        record_lines(h + seq!['\n'] + body) == spec_lines(body),
{
    crate::minigrep::lines_of_line_then_rest(h, body);
    assert((seq![h] + spec_lines(body)).drop_first() =~= spec_lines(body));
}

/// The pieces joined back together, with `sep` between each two.
pub open spec fn join(pieces: Seq<Seq<char>>, sep: char) -> Seq<char>
    decreases pieces.len(),
{
    if pieces.len() <= 1 {
        if pieces.len() == 1 {
            pieces[0]
        } else {
            Seq::empty()
        }
    } else {
        join(pieces.drop_last(), sep) + seq![sep] + pieces.last()
    }
}

/// Joining a piece in front of other pieces.
proof fn lemma_join_prepend(p: Seq<char>, pieces: Seq<Seq<char>>, sep: char)
    requires
        pieces.len() >= 1,
    ensures
        join(seq![p] + pieces, sep) == p + seq![sep] + join(pieces, sep),
    decreases pieces.len(),
{
    let m = seq![p] + pieces;
    if pieces.len() == 1 {
        assert(m.drop_last() =~= seq![p]);
        assert(m.last() == pieces[0]);
        assert(join(seq![p], sep) == p);
        assert(join(pieces, sep) == pieces[0]);
    } else {
        lemma_join_prepend(p, pieces.drop_last(), sep);
        assert(m.drop_last() =~= seq![p] + pieces.drop_last());
        assert(m.last() == pieces.last());
        assert(p + seq![sep] + join(pieces.drop_last(), sep) + seq![sep] + pieces.last() =~= p + seq![sep]
            + (join(pieces.drop_last(), sep) + seq![sep] + pieces.last()));
    }
}

/// The pieces of `s` from `start` on, joined with `sep`, give back `s` from
/// `start` on, and no piece holds `sep`.
proof fn lemma_split_from_joins(s: Seq<char>, sep: char, start: int, i: int)
    requires
        0 <= start <= i <= s.len(),
        forall|t: int| start <= t < i ==> s[t] != sep,
    ensures
        join(split_from(s, sep, start, i), sep) == s.subrange(start, s.len() as int),
        split_from(s, sep, start, i).len() >= 1,
        forall|k: int|
            0 <= k < split_from(s, sep, start, i).len() ==> !(#[trigger] split_from(s, sep, start, i)[k]).contains(sep),
    decreases s.len() - i,
{
    if i >= s.len() {
        let piece = s.subrange(start, s.len() as int);
        assert forall|k: int| 0 <= k < 1 implies !(#[trigger] seq![piece][k]).contains(sep) by {
            if piece.contains(sep) {
                let t = choose|t: int| 0 <= t < piece.len() && piece[t] == sep;
                assert(s[start + t] == sep);
            }
        }
    } else if s[i] == sep {
        lemma_split_from_joins(s, sep, i + 1, i + 1);
        let piece = s.subrange(start, i);
        let rest = split_from(s, sep, i + 1, i + 1);
        lemma_join_prepend(piece, rest, sep);
        assert(piece + seq![sep] + s.subrange(i + 1, s.len() as int) =~= s.subrange(start, s.len() as int));
        assert forall|k: int| 0 <= k < (seq![piece] + rest).len() implies !(#[trigger] (seq![piece]
            + rest)[k]).contains(sep) by {
            if k == 0 {
                if piece.contains(sep) {
                    let t = choose|t: int| 0 <= t < piece.len() && piece[t] == sep;
                    assert(s[start + t] == sep);
                }
            } else {
                assert((seq![piece] + rest)[k] == rest[k - 1]);
            }
        }
    } else {
        lemma_split_from_joins(s, sep, start, i + 1);
    }
}

/// `split` cuts `s` into pieces that hold no `sep` and that, joined back with
/// `sep` between each two, give `s`.
pub proof fn split_pieces_join_back(s: Seq<char>, sep: char)
    ensures
        spec_split(s, sep).len() >= 1,
        join(spec_split(s, sep), sep) == s,
        forall|k: int| 0 <= k < spec_split(s, sep).len() ==> !(#[trigger] spec_split(s, sep)[k]).contains(sep),
{
    lemma_split_from_joins(s, sep, 0, 0);
    assert(s.subrange(0, s.len() as int) =~= s);
}

/// Trimming the start removes exactly the leading white space.
proof fn lemma_trim_start(s: Seq<char>)
    ensures
        exists|lo: int|
            0 <= lo <= s.len() && trim_start(s) == s.skip(lo) && (forall|t: int|
                0 <= t < lo ==> is_white_space(#[trigger] s[t])) && (lo < s.len() ==> !is_white_space(s[lo])),
    decreases s.len(),
{
    if s.len() > 0 && is_white_space(s[0]) {
        lemma_trim_start(s.drop_first());
        let lo = choose|lo: int|
            0 <= lo <= s.drop_first().len() && trim_start(s.drop_first()) == s.drop_first().skip(lo)
                && (forall|t: int| 0 <= t < lo ==> is_white_space(#[trigger] s.drop_first()[t])) && (lo
                < s.drop_first().len() ==> !is_white_space(s.drop_first()[lo]));
        assert(s.drop_first().skip(lo) =~= s.skip(lo + 1));
        assert forall|t: int| 0 <= t < lo + 1 implies is_white_space(#[trigger] s[t]) by {
            if t > 0 {
                assert(s[t] == s.drop_first()[t - 1]);
            }
        }
        if lo + 1 < s.len() {
            assert(s[lo + 1] == s.drop_first()[lo]);
        }
    } else {
        assert(s.skip(0) =~= s);
    }
}

/// Trimming the end removes exactly the trailing white space.
proof fn lemma_trim_end(s: Seq<char>)
    ensures
        exists|hi: int|
            0 <= hi <= s.len() && trim_end(s) == s.take(hi) && (forall|t: int|
                hi <= t < s.len() ==> is_white_space(#[trigger] s[t])) && (hi > 0 ==> !is_white_space(s[hi - 1])),
    decreases s.len(),
{
    if s.len() > 0 && is_white_space(s.last()) {
        lemma_trim_end(s.drop_last());
        let hi = choose|hi: int|
            0 <= hi <= s.drop_last().len() && trim_end(s.drop_last()) == s.drop_last().take(hi)
                && (forall|t: int| hi <= t < s.drop_last().len() ==> is_white_space(#[trigger] s.drop_last()[t]))
                && (hi > 0 ==> !is_white_space(s.drop_last()[hi - 1]));
        assert(s.drop_last().take(hi) =~= s.take(hi));
        assert forall|t: int| hi <= t < s.len() implies is_white_space(#[trigger] s[t]) by {
            if t < s.len() - 1 {
                assert(s[t] == s.drop_last()[t]);
            }
        }
        if hi > 0 {
            assert(s[hi - 1] == s.drop_last()[hi - 1]);
        }
    } else {
        assert(s.take(s.len() as int) =~= s);
    }
}

/// Trimming keeps the stretch of `s` from its first to its last character that is
/// not white space, and removes only white space around it.
pub proof fn trim_removes_only_surrounding_white_space(s: Seq<char>)
    ensures
        exists|lo: int, hi: int|
            0 <= lo <= hi <= s.len() && spec_trim(s) == s.subrange(lo, hi) && (forall|t: int|
                0 <= t < lo ==> is_white_space(#[trigger] s[t])) && (forall|t: int|
                hi <= t < s.len() ==> is_white_space(#[trigger] s[t])) && (lo < hi ==> !is_white_space(s[lo])
                && !is_white_space(s[hi - 1])),
{
    lemma_trim_start(s);
    let lo = choose|lo: int|
        0 <= lo <= s.len() && trim_start(s) == s.skip(lo) && (forall|t: int|
            0 <= t < lo ==> is_white_space(#[trigger] s[t])) && (lo < s.len() ==> !is_white_space(s[lo]));
    let u = s.skip(lo);
    lemma_trim_end(u);
    let h = choose|hi: int|
        0 <= hi <= u.len() && trim_end(u) == u.take(hi) && (forall|t: int|
            hi <= t < u.len() ==> is_white_space(#[trigger] u[t])) && (hi > 0 ==> !is_white_space(u[hi - 1]));
    let hi = lo + h;
    assert(u.take(h) =~= s.subrange(lo, hi));
    assert forall|t: int| hi <= t < s.len() implies is_white_space(#[trigger] s[t]) by {
        assert(s[t] == u[t - lo]);
    }
    if lo < hi {
        assert(s[hi - 1] == u[h - 1]);
    }
    assert(0 <= lo <= hi <= s.len() && spec_trim(s) == s.subrange(lo, hi) && (forall|t: int|
        0 <= t < lo ==> is_white_space(#[trigger] s[t])) && (forall|t: int|
        hi <= t < s.len() ==> is_white_space(#[trigger] s[t])) && (lo < hi ==> !is_white_space(s[lo])
        && !is_white_space(s[hi - 1])));
}

} // verus!

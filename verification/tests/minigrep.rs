use rust_study::minigrep::{contains, lines, run_search, search, search_case_insensitive, select_matching, Config};

#[test]
fn case_sensitive() {
    let query = "duct";
    let contents = "\
Rust:
safe, fast, productive.
Pick three.
Duct tape.";

    assert_eq!(vec!["safe, fast, productive."], search(query, contents));
}

#[test]
fn case_insensitive() {
    let query = "rUsT";
    let contents = "\
Rust:
safe, fast, productive.
Pick three.
Trust me.";

    assert_eq!(
        vec!["Rust:", "Trust me."],
        search_case_insensitive(query, contents)
    );
}

#[test]
fn one_result() {
    let query = "fast";
    let contents = "\
Rust:
safe, fast, productive.
Pick three.";

    assert_eq!(vec!["safe, fast, productive."], search(query, contents));
}

#[test]
fn lines_split_at_line_endings() {
    assert_eq!(lines("a\nb\r\nc"), vec!["a", "b", "c"]);
    assert_eq!(lines("a\nb\n"), vec!["a", "b"]);
    assert_eq!(lines("\n\nx"), vec!["", "", "x"]);
    assert_eq!(lines("a\rb\r"), vec!["a\rb\r"]);
    assert_eq!(lines("\r\n"), vec![""]);
    assert!(lines("").is_empty());
    assert_eq!(lines("世界\n你好"), vec!["世界", "你好"]);
}

#[test]
fn contains_matches_substrings() {
    assert!(contains("safe, fast, productive.", "fast"));
    assert!(contains("abc", ""));
    assert!(contains("", ""));
    assert!(!contains("", "a"));
    assert!(!contains("ab", "abc"));
    assert!(contains("aaab", "aab"));
    assert!(!contains("Duct tape.", "duct"));
    assert!(contains("世界，你好", "你好"));
}

#[test]
fn search_keeps_order_and_duplicates() {
    let contents = "b x\na\nx\nx";
    assert_eq!(search("x", contents), vec!["b x", "x", "x"]);
    assert!(search("zzz", contents).is_empty());
    assert_eq!(search("", contents), vec!["b x", "a", "x", "x"]);
    assert_eq!(search("x", "x\r\ny\r\n"), vec!["x"]);
}

#[test]
fn search_case_insensitive_lowers_both_sides() {
    assert_eq!(search_case_insensitive("DUCT", "Duct tape.\nduct\nnone"), vec!["Duct tape.", "duct"]);
    assert_eq!(search_case_insensitive("ÄB", "xäbx\nAB"), vec!["xäbx"]);
    assert!(search_case_insensitive("q", "").is_empty());
}

#[test]
fn select_matching_uses_keys() {
    let ls = vec!["one", "two", "three"];
    let keys = vec![String::from("xa"), String::from("b"), String::from("ab")];
    assert_eq!(select_matching(&ls, &keys, "a"), vec!["one", "three"]);
}

#[test]
fn build_reports_missing_arguments() {
    let args = vec![String::from("minigrep")];
    assert_eq!(Config::build(&args, false).err(), Some("Didn't get a query string"));
    let args: Vec<String> = vec![];
    assert_eq!(Config::build(&args, false).err(), Some("Didn't get a query string"));
    let args = vec![String::from("minigrep"), String::from("to")];
    assert_eq!(Config::build(&args, true).err(), Some("Didn't get a file name"));
}

#[test]
fn build_takes_query_and_path() {
    let args = vec![
        String::from("minigrep"),
        String::from("to"),
        String::from("poem.txt"),
        String::from("extra"),
    ];
    let cnf = Config::build(&args, true).ok().unwrap();
    assert_eq!(cnf.query, "to");
    assert_eq!(cnf.file_path, "poem.txt");
    assert!(cnf.ignore_case);
}

#[test]
fn run_search_follows_ignore_case() {
    let contents = "Rust:\nTrust me.\nno";
    let sensitive = Config { query: String::from("rUsT"), file_path: String::new(), ignore_case: false };
    assert!(run_search(&sensitive, contents).is_empty());
    let insensitive = Config { query: String::from("rUsT"), file_path: String::new(), ignore_case: true };
    assert_eq!(run_search(&insensitive, contents), vec!["Rust:", "Trust me."]);
}

#[test]
fn lines_agree_with_str_lines() {
    let samples = [
        "", "\n", "\r", "\r\n", "a", "a\n", "a\r\n", "a\r", "a\n\nb", "a\r\r\nb\n", "\n\r\n\r", "x\ny\r\nz\r",
        "Grüß\r\nGott\n世界",
    ];
    for s in samples {
        assert_eq!(lines(s), s.lines().collect::<Vec<_>>(), "input {:?}", s);
    }
}

#[test]
fn contains_agrees_with_str_contains() {
    let samples = ["", "a", "ab", "aab", "ba", "abab", "Grüß", "üß", "世界你好"];
    for h in samples {
        for n in samples {
            assert_eq!(contains(h, n), h.contains(n), "{:?} {:?}", h, n);
        }
    }
}

#[test]
fn case_insensitive_agrees_with_lowercasing_each_line() {
    let contents = "Rust:\nΣΑΣ\nσας\nTrust me.\nGRÜSS\ngrüß";
    for query in ["rUsT", "σας", "ΣΑΣ", "grü", "", "me."] {
        let lowered = query.to_lowercase();
        let expected: Vec<&str> =
            contents.lines().filter(|l| l.to_lowercase().contains(&lowered)).collect();
        assert_eq!(search_case_insensitive(query, contents), expected, "query {:?}", query);
    }
}

#[test]
fn search_line_then_rest_splits_off_the_first_line() {
    let b = "fast lane\nslow\nbreakfast";
    for a in ["fast", "slow", ""] {
        let joined = format!("{}\n{}", a, b);
        let mut expected: Vec<&str> = if a.contains("fast") { vec![a] } else { vec![] };
        expected.extend(search("fast", b));
        assert_eq!(search("fast", &joined), expected);
    }
}

#[test]
fn longer_query_refines_results() {
    let contents = "breakfast\nfast\nfastest\nslow";
    let broad = search("fast", contents);
    let narrow = search("fastest", contents);
    let refined: Vec<&str> = broad.iter().copied().filter(|l| contains(l, "fastest")).collect();
    assert_eq!(narrow, refined);
    assert_eq!(narrow, vec!["fastest"]);
}

use rust_study::penguins::{is_whitespace, penguin_records, split, trim};

#[test]
fn is_whitespace_agrees_with_char() {
    for u in 0u32..0x11_0000 {
        if let Some(c) = char::from_u32(u) {
            assert_eq!(is_whitespace(c), c.is_whitespace(), "{:#x}", u);
        }
    }
}

#[test]
fn trim_agrees_with_str_trim() {
    let samples = ["", " ", "  a ", "a", "\t\n a b \r\n", "\u{3000}x\u{a0}", " 世界 ", "a  ", "  a"];
    for s in samples {
        assert_eq!(trim(s), s.trim(), "{:?}", s);
    }
}

#[test]
fn split_agrees_with_str_split() {
    let samples = ["", ",", "a", "a,b", ",a,", "a,,b", "Little penguin,33", "世,界,"];
    for s in samples {
        assert_eq!(split(s, ','), s.split(',').collect::<Vec<_>>(), "{:?}", s);
    }
}

#[test]
fn penguin_records_skip_header_and_blank_lines() {
    let data = "\
    common name,length (cm)
    Little penguin,33
    Yellow-eyed penguin,65
    Fiordland penguin,60
    Invalid,data
    ";
    assert_eq!(
        penguin_records(data),
        vec![
            Some(("Little penguin", "33")),
            Some(("Yellow-eyed penguin", "65")),
            Some(("Fiordland penguin", "60")),
            Some(("Invalid", "data")),
        ]
    );
}

#[test]
fn penguin_records_mark_lines_without_a_second_field() {
    assert_eq!(penguin_records("header\n\n  \nlonely\na , b , c"), vec![None, Some(("a", "b"))]);
    assert!(penguin_records("").is_empty());
    assert!(penguin_records("only a header").is_empty());
}

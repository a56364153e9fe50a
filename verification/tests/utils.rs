use wordvector::utils::{doc_parse, is_white_space};

#[test]
fn test_doc_parse() {
    let exists = doc_parse("намело сугробы у нашего двора");
    let expected = vec!["намело", "сугробы", "у", "нашего", "двора"];

    assert_eq!(exists, expected);
}

#[test]
fn doc_parse_skips_runs_of_white_space() {
    assert_eq!(doc_parse("  a \t\tbc\n d  "), vec!["a", "bc", "d"]);
    assert_eq!(doc_parse("one"), vec!["one"]);
    assert_eq!(doc_parse("x\u{3000}y\u{a0}z\u{2003}w"), vec!["x", "y", "z", "w"]);
}

#[test]
fn doc_parse_of_no_words_is_empty() {
    assert_eq!(doc_parse(""), Vec::<&str>::new());
    assert_eq!(doc_parse(" \t\r\n"), Vec::<&str>::new());
}

#[test]
fn doc_parse_splits_as_std_does() {
    let text = " намело\tсугробы\u{2028}у  нашего\u{85}двора \u{1680}x\u{200b}y ";
    let expected: Vec<&str> = text.split_whitespace().collect();

    assert_eq!(doc_parse(text), expected);
}

#[test]
fn white_space_is_what_std_takes_for_it() {
    for code in 0u32..0x11000 {
        if let Some(c) = char::from_u32(code) {
            assert_eq!(is_white_space(c), c.is_whitespace(), "U+{:04X}", code);
        }
    }
}

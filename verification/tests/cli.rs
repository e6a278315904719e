use shellquote::cli::parse_char;

#[test]
fn parse_char_accepts_single_ascii() {
    assert_eq!(parse_char(","), Ok(','));
    assert_eq!(parse_char("\n"), Ok('\n'));
    assert_eq!(parse_char("a"), Ok('a'));
    assert_eq!(parse_char("\0"), Ok('\0'));
}

#[test]
fn parse_char_rejects_multiple_characters() {
    let err = parse_char("ab").unwrap_err();
    assert_eq!(err, "Separator must be a single character");
    assert!(parse_char("").is_err());
}

#[test]
fn parse_char_rejects_non_ascii() {
    assert!(parse_char("é").is_err());
    assert!(parse_char("日").is_err());
}

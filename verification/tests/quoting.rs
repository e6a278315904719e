use shellquote::quoting::{quote, quote_line, strip_nul, QuoteError};

#[test]
fn quote_space_needs_quotes() {
    assert_eq!(quote("hello world"), "'hello world'");
}

#[test]
fn quote_apostrophe() {
    assert_eq!(quote("it's"), "'it'\\''s'");
}

#[test]
fn quote_empty_line() {
    assert_eq!(quote(""), "''");
}

#[test]
fn quote_safe_chars_pass_through() {
    assert_eq!(quote("abc123"), "abc123");
    assert_eq!(quote("a/b.c:d@e_f-g+h"), "a/b.c:d@e_f-g+h");
}

#[test]
fn quote_metacharacters() {
    assert_eq!(quote("$HOME"), "'$HOME'");
    assert_eq!(quote("a\"b"), "'a\"b'");
    assert_eq!(quote("`cmd`"), "'`cmd`'");
    assert_eq!(quote("a\\b"), "'a\\b'");
    assert_eq!(quote("a\nb"), "'a\nb'");
}

#[test]
fn quote_strips_nul_and_retries() {
    assert_eq!(quote("a\0b"), "ab");
    assert_eq!(quote("hello\0 world"), "'hello world'");
    assert_eq!(quote("\0"), "''");
}

#[test]
fn quote_line_rejects_nul() {
    assert_eq!(quote_line("a\0b"), Err(QuoteError::Nul));
    assert_eq!(quote_line("\0"), Err(QuoteError::Nul));
}

#[test]
fn quote_line_accepts_nul_free() {
    assert_eq!(quote_line("ab").unwrap(), "ab");
    assert_eq!(quote_line("a b").unwrap(), "'a b'");
    assert_eq!(quote_line("").unwrap(), "''");
}

#[test]
fn quote_is_deterministic() {
    let inputs = ["", "abc", "a b", "it's", "a\0b", "héllo wörld"];
    for s in inputs {
        assert_eq!(quote(s), quote(s));
    }
}

#[test]
fn strip_nul_removes_only_nul() {
    assert_eq!(strip_nul("a\0b\0c"), "abc");
    assert_eq!(strip_nul("abc"), "abc");
    assert_eq!(strip_nul("\0\0"), "");
}

#[test]
fn shlex_reads_back_quoted_words() {
    // an independent POSIX-style lexer must read each quoted line back as
    // exactly one word equal to the original (NUL characters removed)
    let inputs = ["hello world", "it's", "", "a\"b", "$HOME", "`cmd`", "a\\b", "new\nline",
        "tab\tx", "*?[]", "~user", "a=b", "100%", "héllo", "日本語", "-n", "--flag=x",
        "semi;colon", "pipe|pipe", "&&", "(sub)", "{brace}", "!bang", "^caret", " ", "''''",
        "a'b'c", "\\", "?", "done"];
    for s in inputs {
        let quoted = quote(s);
        assert_eq!(shlex::split(&quoted), Some(vec![s.to_string()]), "input: {:?}", s);
    }
}

#[test]
fn shlex_reads_back_nul_lines_stripped() {
    let quoted = quote("a\0 b");
    assert_eq!(shlex::split(&quoted), Some(vec!["a b".to_string()]));
}

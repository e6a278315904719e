use shellquote::lines::{escape_lines, escape_stream, quote_segment, split_stream, DecodeError};

#[test]
fn split_stream_cuts_at_separator() {
    let three = vec![b"a".to_vec(), b"b".to_vec(), b"c".to_vec()];
    assert_eq!(split_stream(&b"a,b,c".to_vec(), b','), three);
    assert_eq!(split_stream(&b"a,b,".to_vec(), b','), vec![b"a".to_vec(), b"b".to_vec()]);
    assert_eq!(split_stream(&b",".to_vec(), b','), vec![Vec::new()]);
    assert_eq!(split_stream(&Vec::new(), b','), Vec::<Vec<u8>>::new());
    assert_eq!(
        split_stream(&b"a,,b".to_vec(), b','),
        vec![b"a".to_vec(), Vec::new(), b"b".to_vec()]
    );
}

#[test]
fn escape_stream_comma_fields() {
    let (out, err) = escape_stream(&b"a,b,c".to_vec(), ',');
    assert_eq!(out, "a,b,c,");
    assert!(err.is_none());
}

#[test]
fn escape_stream_quotes_each_segment() {
    let input = "x y\nz's\n".as_bytes().to_vec();
    let (out, err) = escape_stream(&input, '\n');
    assert_eq!(out, "'x y'\n'z'\\''s'\n");
    assert!(err.is_none());
}

#[test]
fn escape_stream_keeps_output_before_invalid_segment() {
    let mut input = b"ok,".to_vec();
    input.extend([0xff, 0xff]);
    input.extend(b",later");
    let (out, err) = escape_stream(&input, ',');
    assert_eq!(out, "ok,");
    assert_eq!(err, Some(DecodeError));
}

#[test]
fn escape_lines_keeps_order() {
    let lines = vec!["hello world".to_string(), "it's".to_string()];
    assert_eq!(escape_lines(&lines, '\n'), "'hello world'\n'it'\\''s'\n");
}

#[test]
fn escape_lines_empty_line_scenario() {
    let lines = vec![String::new()];
    assert_eq!(escape_lines(&lines, '\n'), "''\n");
}

#[test]
fn escape_lines_comma_separator() {
    let lines = vec!["a".to_string(), "b".to_string(), "c".to_string()];
    assert_eq!(escape_lines(&lines, ','), "a,b,c,");
}

#[test]
fn escape_lines_no_lines() {
    let lines: Vec<String> = Vec::new();
    assert_eq!(escape_lines(&lines, '\n'), "");
}

#[test]
fn escape_lines_many_in_order() {
    let lines = vec!["one".to_string(), "two two".to_string(), "three".to_string(),
        "4".to_string()];
    assert_eq!(escape_lines(&lines, ';'), "one;'two two';three;4;");
}

#[test]
fn quote_segment_decodes_and_quotes() {
    assert_eq!(quote_segment(&b"a b".to_vec()).unwrap(), "'a b'");
    assert_eq!(quote_segment(&b"abc".to_vec()).unwrap(), "abc");
    assert_eq!(quote_segment(&Vec::new()).unwrap(), "''");
}

#[test]
fn quote_segment_multibyte_utf8() {
    let bytes = "héllo".as_bytes().to_vec();
    assert_eq!(quote_segment(&bytes).unwrap(), "'héllo'");
}

#[test]
fn quote_segment_rejects_invalid_utf8() {
    assert_eq!(quote_segment(&vec![0xff, 0xfe]), Err(DecodeError));
    assert_eq!(quote_segment(&vec![b'a', 0x80]), Err(DecodeError));
}

#[test]
fn quote_segment_strips_nul() {
    assert_eq!(quote_segment(&b"a\0b".to_vec()).unwrap(), "ab");
}

#[test]
fn separator_round_trip_segment_count() {
    // splitting the input "a b,c,d" at ',' gives three segments; the
    // emitted output falls apart at ',' into three segments again
    let segments = vec!["a b".to_string(), "c".to_string(), "d".to_string()];
    let out = escape_lines(&segments, ',');
    assert_eq!(out, "'a b',c,d,");
    let pieces: Vec<&str> = out.split_terminator(',').collect();
    assert_eq!(pieces.len(), segments.len());
}

#[test]
fn stream_scenario_comma_fields() {
    // stdin "a,b,c" with separator ',' : each field quoted, comma after each
    let input = b"a,b,c".to_vec();
    let mut out = String::new();
    for segment in input.split(|&b| b == b',') {
        out.push_str(&quote_segment(&segment.to_vec()).unwrap());
        out.push(',');
    }
    assert_eq!(out, "a,b,c,");
}

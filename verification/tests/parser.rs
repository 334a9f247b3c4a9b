use rpsl_reader::Noop;
use rpsl_reader::ParseError;
use rpsl_reader::Printer;
use rpsl_reader::RpslParser;
use rpsl_reader::SyntaxErrorKind;
use rpsl_reader::TraceEntry;
use rpsl_reader::read_rpsl;

#[test]
fn test_parse_empty() {
    let input = b"";
    let mut parser = RpslParser::new(Noop::new());
    parser.parse(&input[..]).unwrap();
}

#[test]
fn test_parse_single_object() {
    let input = b"route: 192.0.2.0/24\norigin: AS65000\n\n";
    let mut parser = RpslParser::new(Noop::new());
    parser.parse(&input[..]).unwrap();
}

#[test]
fn single_object_rows() {
    let rows = read_rpsl(b"route: 192.0.2.0/24\norigin: AS65000\n\n").unwrap();
    assert_eq!(rows.len(), 1);
    let expected = vec![
        ("route".to_string(), "192.0.2.0/24".to_string()),
        ("origin".to_string(), "AS65000".to_string()),
    ];
    assert_eq!(rows[0], expected);
}

#[test]
fn empty_input_yields_no_objects() {
    let rows = read_rpsl(b"").unwrap();
    assert_eq!(rows.len(), 0);
}

#[test]
fn two_objects_do_not_share_attributes() {
    let rows = read_rpsl(b"a: 1\nb: 2\n\nc: 3\n\n").unwrap();
    assert_eq!(rows.len(), 2);
    assert_eq!(
        rows[0],
        vec![("a".to_string(), "1".to_string()), ("b".to_string(), "2".to_string())]
    );
    assert_eq!(rows[1], vec![("c".to_string(), "3".to_string())]);
}

#[test]
fn leading_continuation_fails_at_line_one() {
    let err = read_rpsl(b"+more\n").unwrap_err();
    match err {
        ParseError::InvalidSyntax { line_number, kind, line } => {
            assert_eq!(line_number, 1);
            assert_eq!(kind, SyntaxErrorKind::UnexpectedContinuation);
            assert_eq!(line, "+more");
        }
        other => panic!("unexpected error: {:?}", other),
    }
}

#[test]
fn line_without_colon_fails() {
    let err = read_rpsl(b"a: 1\nnocolon\n").unwrap_err();
    match err {
        ParseError::InvalidSyntax { line_number, kind, line } => {
            assert_eq!(line_number, 2);
            assert_eq!(kind, SyntaxErrorKind::ExpectedAttribute);
            assert_eq!(line, "nocolon");
        }
        other => panic!("unexpected error: {:?}", other),
    }
}

#[test]
fn empty_attribute_name_fails() {
    let err = read_rpsl(b": v\n").unwrap_err();
    match err {
        ParseError::InvalidSyntax { line_number, kind, .. } => {
            assert_eq!(line_number, 1);
            assert_eq!(kind, SyntaxErrorKind::EmptyAttributeName);
        }
        other => panic!("unexpected error: {:?}", other),
    }
}

#[test]
fn eof_token_ends_parsing_and_ignores_the_rest() {
    let rows = read_rpsl(b"a: 1\n\nEOF\n+ even bad syntax after it\n").unwrap();
    assert_eq!(rows.len(), 1);
    assert_eq!(rows[0], vec![("a".to_string(), "1".to_string())]);
}

#[test]
fn eof_token_closes_an_open_object() {
    let rows = read_rpsl(b"a: 1\nEOF\n").unwrap();
    assert_eq!(rows.len(), 1);
    assert_eq!(rows[0], vec![("a".to_string(), "1".to_string())]);
}

#[test]
fn comment_line_neither_attribute_nor_separator() {
    let rows = read_rpsl(b"a: 1\n% note\nb: 2\n\n").unwrap();
    assert_eq!(rows.len(), 1);
    assert_eq!(
        rows[0],
        vec![("a".to_string(), "1".to_string()), ("b".to_string(), "2".to_string())]
    );
    let rows = read_rpsl(b"% note\n").unwrap();
    assert_eq!(rows.len(), 0);
}

#[test]
fn comment_truncates_a_line() {
    let rows = read_rpsl(b"a: 1 # trailing\n\n").unwrap();
    assert_eq!(rows[0], vec![("a".to_string(), "1 ".to_string())]);
}

#[test]
fn final_line_without_terminator_is_read() {
    let rows = read_rpsl(b"route: 10.0.0.0/8").unwrap();
    assert_eq!(rows.len(), 1);
    assert_eq!(rows[0], vec![("route".to_string(), "10.0.0.0/8".to_string())]);
    let mut parser = RpslParser::new(Printer::new());
    parser.parse(b"route: 10.0.0.0/8").unwrap();
    let trace = parser.into_callbacks().into_trace();
    assert_eq!(trace.len(), 3);
    assert!(matches!(trace[0], TraceEntry::Start));
    match &trace[1] {
        TraceEntry::Attribute(name, value) => {
            assert_eq!(name, "route");
            assert_eq!(value, "10.0.0.0/8");
        }
        other => panic!("unexpected entry: {:?}", other),
    }
    assert!(matches!(trace[2], TraceEntry::End));
}

#[test]
fn continuation_fragments_join_with_single_spaces() {
    let rows = read_rpsl(b"a: x\n+ y\n+\n+ z\n\n").unwrap();
    assert_eq!(rows[0], vec![("a".to_string(), "x y z".to_string())]);
}

#[test]
fn continuation_marker_variants() {
    let rows = read_rpsl(b"a: x\n\tone\n two\n\n").unwrap();
    assert_eq!(rows[0], vec![("a".to_string(), "x one two".to_string())]);
}

#[test]
fn commented_out_continuation_contributes_nothing() {
    let rows = read_rpsl(b"a: x\n+%gone\n+ y\n\n").unwrap();
    assert_eq!(rows[0], vec![("a".to_string(), "x y".to_string())]);
}

#[test]
fn crlf_line_endings_are_normalized() {
    let rows = read_rpsl(b"a: 1\r\n\r\nb: 2\r\n\r\n").unwrap();
    assert_eq!(rows.len(), 2);
    assert_eq!(rows[0], vec![("a".to_string(), "1".to_string())]);
    assert_eq!(rows[1], vec![("b".to_string(), "2".to_string())]);
}

#[test]
fn invalid_encoding_is_replaced_not_rejected() {
    let rows = read_rpsl(b"a: \xff\n\n").unwrap();
    assert_eq!(rows[0], vec![("a".to_string(), "\u{FFFD}".to_string())]);
}

#[test]
fn syntax_kind_messages() {
    assert_eq!(
        SyntaxErrorKind::UnexpectedContinuation.message(),
        "unexpected continuation line"
    );
    assert_eq!(SyntaxErrorKind::ExpectedAttribute.message(), "expected an attribute");
    assert_eq!(SyntaxErrorKind::EmptyAttributeName.message(), "empty attribute name");
}

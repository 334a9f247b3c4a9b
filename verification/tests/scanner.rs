use rpsl_reader::is_continuation;
use rpsl_reader::next_is_continuation;
use rpsl_reader::peek;
use rpsl_reader::read_line;
use rpsl_reader::strip_comment;
use rpsl_reader::trim;

#[test]
fn continuation_markers() {
    assert!(is_continuation(b'+'));
    assert!(is_continuation(b' '));
    assert!(is_continuation(b'\t'));
    assert!(!is_continuation(b'a'));
    assert!(!is_continuation(b'%'));
}

#[test]
fn trim_strips_leading_whitespace_only() {
    assert_eq!(trim(b"  x "), b"x ");
    assert_eq!(trim(b"\t\r\nx"), b"x");
    assert_eq!(trim(b"   "), b"");
    assert_eq!(trim(b""), b"");
}

#[test]
fn strip_comment_rules() {
    assert_eq!(strip_comment(b"a: 1 % c"), Some(&b"a: 1 "[..]));
    assert_eq!(strip_comment(b"a: 1 # c"), Some(&b"a: 1 "[..]));
    assert_eq!(strip_comment(b"% whole line"), None);
    assert_eq!(strip_comment(b"plain"), Some(&b"plain"[..]));
}

#[test]
fn read_line_normalizes_endings() {
    let input = b"ab\r\ncd\nef\r";
    let (l1, p1) = read_line(input, 0).unwrap();
    assert_eq!(l1, b"ab");
    let (l2, p2) = read_line(input, p1).unwrap();
    assert_eq!(l2, b"cd");
    let (l3, p3) = read_line(input, p2).unwrap();
    assert_eq!(l3, b"ef\r");
    assert_eq!(p3, input.len());
    assert!(read_line(input, p3).is_none());
}

#[test]
fn peek_and_lookahead() {
    let input = b"x\n+y";
    assert_eq!(peek(input, 0), Some(b'x'));
    assert_eq!(peek(input, 4), None);
    assert!(next_is_continuation(input, 2));
    assert!(!next_is_continuation(input, 0));
    assert!(!next_is_continuation(input, 4));
}

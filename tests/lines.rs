use hj::grammar::{is_noise_line, match_header_line, match_status_line, parse_length};

fn pair(a: &str, b: &str) -> Option<(Vec<u8>, Vec<u8>)> {
    Some((a.as_bytes().to_vec(), b.as_bytes().to_vec()))
}

#[test]
fn noise_lines() {
    assert!(is_noise_line(b"* Connected to example.com\r\n"));
    assert!(is_noise_line(b"> GET / HTTP/1.1\r\n"));
    assert!(is_noise_line(b"{ [5 bytes data]\n"));
    assert!(is_noise_line(b"} [5 bytes data]\n"));
    assert!(is_noise_line(b"/src/lib/file.c:80:34: runtime error: shift\n"));
    assert!(is_noise_line(b"SUMMARY: UndefinedBehaviorSanitizer: undefined-behavior x\n"));
    assert!(!is_noise_line(b"HTTP/1.1 200 OK\r\n"));
    assert!(!is_noise_line(b"< HTTP/1.1 200 OK\r\n"));
    assert!(!is_noise_line(b"file.c:80: runtime error: x\n"));
    assert!(!is_noise_line(b"SUMMARY: : x\n"));
    assert!(!is_noise_line(b"*x\n"));
    assert!(!is_noise_line(b""));
}

#[test]
fn status_lines() {
    assert_eq!(match_status_line(b"HTTP/1.1 200 OK\r\n"), pair("HTTP/1.1", "200"));
    assert_eq!(match_status_line(b"< HTTP/2 404\r\n"), pair("HTTP/2", "404"));
    assert_eq!(match_status_line(b"HTTP/3 200\n"), pair("HTTP/3", "200"));
    assert_eq!(match_status_line(b"HTTP/1. 200\n"), None);
    assert_eq!(match_status_line(b"HTTP/ 200\n"), None);
    assert_eq!(match_status_line(b"HTTP/1.1 OK\n"), None);
    assert_eq!(match_status_line(b"hello\n"), None);
}

#[test]
fn header_lines() {
    assert_eq!(match_header_line(b"Content-Type: text/html\r\n"), pair("Content-Type", " text/html\r"));
    assert_eq!(match_header_line(b"< date: today\r\n"), pair("date", " today\r"));
    assert_eq!(match_header_line(b"< :x\n"), pair("< ", "x"));
    assert_eq!(match_header_line(b"a:b:c\n"), pair("a", "b:c"));
    assert_eq!(match_header_line(b"no colon\n"), None);
    assert_eq!(match_header_line(b":value\n"), None);
    assert_eq!(match_header_line(b"name:\n"), None);
}

#[test]
fn lengths() {
    assert_eq!(parse_length(b"5"), Some(5));
    assert_eq!(parse_length(b"+12"), Some(12));
    assert_eq!(parse_length(b"007"), Some(7));
    assert_eq!(parse_length(b"-5"), None);
    assert_eq!(parse_length(b""), None);
    assert_eq!(parse_length(b"+"), None);
    assert_eq!(parse_length(b"5a"), None);
    assert_eq!(parse_length(b"99999999999999999999999"), None);
    assert_eq!(parse_length(usize::MAX.to_string().as_bytes()), Some(usize::MAX));
}

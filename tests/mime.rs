use hj::grammar::{is_content_type_json, parse_mime_type, MimeType};

fn mime(t1: &str, t2: &str, t3: &str) -> MimeType {
    MimeType { t1: t1.as_bytes().to_vec(), t2: t2.as_bytes().to_vec(), t3: t3.as_bytes().to_vec() }
}

fn is_json(ct: &str) -> bool {
    is_content_type_json(&Some(ct.as_bytes().to_vec()))
}

#[test]
fn test_parse_mime_type() {
    assert_eq!(parse_mime_type(b"application/json"), mime("application", "json", ""));
    assert_eq!(
        parse_mime_type(b"application/vnd.github+json; charset=utf-8"),
        mime("application", "json", "vnd.github")
    );
}

#[test]
fn mime_without_slash_is_empty() {
    assert_eq!(parse_mime_type(b"json"), mime("", "", ""));
    assert_eq!(parse_mime_type(b""), mime("", "", ""));
    assert_eq!(parse_mime_type(b"/json"), mime("", "", ""));
    assert_eq!(parse_mime_type(b"text/"), mime("", "", ""));
    assert_eq!(parse_mime_type(b"text/;x"), mime("", "", ""));
}

#[test]
fn mime_parts_are_trimmed() {
    assert_eq!(parse_mime_type(b" text / html ; charset=utf-8"), mime("text", "html", ""));
    assert_eq!(parse_mime_type(b"a/+json"), mime("a", "+json", ""));
    assert_eq!(parse_mime_type(b"a/x+"), mime("a", "x+", ""));
}

#[test]
fn json_decision_ignores_case() {
    assert!(is_json("application/json"));
    assert!(is_json("APPLICATION/JSON"));
    assert!(is_json("Application/Json; charset=utf-8"));
    assert!(is_json("application/vnd.github+json"));
    assert!(!is_json("text/json"));
    assert!(!is_json("application/xml"));
    assert!(!is_content_type_json(&None));
}

#[test]
fn parameters_after_semicolon_are_ignored() {
    assert_eq!(parse_mime_type(b"text/plain;a+b"), mime("text", "plain", ""));
    assert_eq!(parse_mime_type(b"text/plain"), mime("text", "plain", ""));
    assert_eq!(parse_mime_type(b"application/x; q=a+json"), mime("application", "x", ""));
    assert!(!is_json("application/x; q=a+json"));
    assert!(is_json("application/problem+json;q=a+b"));
}

#[test]
fn unicode_whitespace_is_trimmed() {
    assert_eq!(parse_mime_type("\u{a0}a/json".as_bytes()), mime("a", "json", ""));
    assert_eq!(parse_mime_type("text\u{3000}/html\u{2009};x".as_bytes()), mime("text", "html", ""));
    assert!(is_json("\u{85}application/json\u{a0}"));
}

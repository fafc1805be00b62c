use hj::json::quote_bytes;
use hj::response::{error_message, HjError};
use hj::run::convert;
use tinyjson::JsonValue;

fn run(input: &str, raw: bool, array: bool) -> (String, Option<HjError>) {
    let c = convert(input.as_bytes().to_vec(), raw, array);
    (String::from_utf8(c.output).unwrap(), c.error)
}

fn parse(text: &str) -> JsonValue {
    text.parse().unwrap()
}

fn text_of(v: &JsonValue) -> String {
    v.get::<String>().unwrap().clone()
}

fn html_response() -> String {
    let body = "<!DOCTYPE html>\n<html><body>hi</body></html>\n";
    format!(
        "HTTP/3 200\r\ncontent-type: text/html\r\ncontent-length: {}\r\n\r\n{}",
        body.len(),
        body
    )
}

fn httpbin_capture() -> String {
    let body = "{\n  \"args\": {},\n  \"url\": \"https://httpbin.org/get\"\n}\n";
    format!(
        "*   Trying 1.2.3.4:443...\n* Connected to httpbin.org (1.2.3.4) port 443\n\
         > GET /get HTTP/1.1\r\n> Host: httpbin.org\r\n> Accept: */*\r\n> \r\n\
         < HTTP/1.1 200 OK\r\n< Date: Mon, 01 Jan 2024 00:00:00 GMT\r\n\
         < Content-Type: application/json\r\n< Content-Length: {}\r\n< \r\n\
         {}* Connection #0 to host httpbin.org left intact\n",
        body.len(),
        body
    )
}

#[test]
fn parse_single_response() {
    let (out, err) = run(&html_response(), false, false);
    assert!(err.is_none());
    let v = parse(&out);
    assert_eq!(text_of(&v["protocol"]), "HTTP/3");
    assert_eq!(*v["status_code"].get::<f64>().unwrap(), 200.0);
    assert_eq!(text_of(&v["headers"]["content-type"]), "text/html");
    assert!(text_of(&v["content"]).contains("<!DOCTYPE html>"));
}

#[test]
fn parse_multi_responses() {
    let input = format!("{}{}{}", html_response(), html_response(), html_response());
    let (out, err) = run(&input, false, true);
    assert!(err.is_none());
    let v = parse(&out);
    let items = v.get::<Vec<JsonValue>>().unwrap();
    assert_eq!(items.len(), 3);
    for r in items {
        assert_eq!(text_of(&r["protocol"]), "HTTP/3");
        assert_eq!(*r["status_code"].get::<f64>().unwrap(), 200.0);
        assert_eq!(text_of(&r["headers"]["content-type"]), "text/html");
        assert!(text_of(&r["content"]).contains("<!DOCTYPE html>"));
    }
}

#[test]
fn parse_curl_sv_as_raw() {
    let (out, err) = run(&httpbin_capture(), true, false);
    assert!(err.is_none());
    let v = parse(&out);
    assert_eq!(text_of(&v["protocol"]), "HTTP/1.1");
    assert_eq!(*v["status_code"].get::<f64>().unwrap(), 200.0);
    assert_eq!(text_of(&v["headers"]["content-type"]), "application/json");
    assert!(text_of(&v["content"]).contains("httpbin.org/get"));
}

#[test]
fn parse_curl_sv_as_json() {
    let (out, err) = run(&httpbin_capture(), false, false);
    assert!(err.is_none());
    let v = parse(&out);
    assert_eq!(text_of(&v["protocol"]), "HTTP/1.1");
    assert_eq!(*v["status_code"].get::<f64>().unwrap(), 200.0);
    assert_eq!(text_of(&v["headers"]["content-type"]), "application/json");
    assert_eq!(text_of(&v["content"]["url"]), "https://httpbin.org/get");
}

#[test]
fn parse_curl_sv_as_json_jsonplaceholder() {
    let body = "{\n  \"userId\": 1,\n  \"id\": 1,\n  \"title\": \"t\",\n  \"completed\": false\n}";
    let input = format!(
        "* Connected\n> GET /todos/1 HTTP/1.1\r\n> \r\n< HTTP/1.1 200 OK\r\n\
         < Content-Type: application/json; charset=utf-8\r\n< Content-Length: {}\r\n< \r\n{}\
         * Connection #0 left intact\n",
        body.len(),
        body
    );
    let (out, err) = run(&input, false, false);
    assert!(err.is_none());
    let v = parse(&out);
    assert_eq!(text_of(&v["protocol"]), "HTTP/1.1");
    assert_eq!(*v["status_code"].get::<f64>().unwrap(), 200.0);
    assert_eq!(text_of(&v["headers"]["content-type"]), "application/json; charset=utf-8");
    assert_eq!(*v["content"]["id"].get::<f64>().unwrap(), 1.0);
}

#[test]
fn plain_text_response_exact_output() {
    let input = "HTTP/1.1 200 OK\r\nContent-Type: text/plain\r\nContent-Length: 5\r\n\r\nhello";
    let (out, err) = run(input, false, false);
    assert!(err.is_none());
    assert_eq!(
        out,
        "{\"protocol\":\"HTTP/1.1\",\"status_code\":200,\"headers\":{\"content-type\":\"text/plain\",\"content-length\":\"5\"},\"content\":\"hello\"}\n"
    );
}

#[test]
fn json_response_content_is_structured() {
    let input = "HTTP/1.1 200 OK\r\nContent-Type: application/json\r\nContent-Length: 7\r\n\r\n{\"a\":1}";
    let (out, err) = run(input, false, false);
    assert!(err.is_none());
    assert_eq!(
        out,
        "{\"protocol\":\"HTTP/1.1\",\"status_code\":200,\"headers\":{\"content-type\":\"application/json\",\"content-length\":\"7\"},\"content\":{\"a\":1}}\n"
    );
}

#[test]
fn raw_mode_keeps_json_body_as_string() {
    let input = "HTTP/1.1 200 OK\r\nContent-Type: application/json\r\nContent-Length: 7\r\n\r\n{\"a\":1}";
    let (out, err) = run(input, true, false);
    assert!(err.is_none());
    assert!(out.ends_with(",\"content\":\"{\\\"a\\\":1}\"}\n"));
}

#[test]
fn upper_case_json_type_is_structured() {
    let input = "HTTP/1.1 200 OK\r\nCONTENT-TYPE: APPLICATION/JSON\r\nCONTENT-LENGTH: 7\r\n\r\n[1,2]  ";
    let (out, err) = run(input, false, false);
    assert!(err.is_none());
    assert!(out.contains("\"content-type\":\"APPLICATION/JSON\""));
    assert!(out.contains("\"content-length\":\"7\""));
    assert!(out.ends_with(",\"content\":[1,2]}\n"));
}

#[test]
fn lengths_bound_back_to_back_responses() {
    let input = "HTTP/1.1 200 OK\r\nContent-Length: 4\r\n\r\nabc\nHTTP/1.1 404 Not Found\r\nContent-Length: 3\r\n\r\nxy\n";
    let (out, err) = run(input, false, true);
    assert!(err.is_none());
    assert_eq!(
        out,
        "[{\"protocol\":\"HTTP/1.1\",\"status_code\":200,\"headers\":{\"content-length\":\"4\"},\"content\":\"abc\\n\"},{\"protocol\":\"HTTP/1.1\",\"status_code\":404,\"headers\":{\"content-length\":\"3\"},\"content\":\"xy\\n\"}]\n"
    );
}

#[test]
fn bad_status_line_stops_the_run() {
    let (out, err) = run("* noise\nGET / HTTP/1.1\r\n\r\n", false, true);
    assert_eq!(out, "[]\n");
    let err = err.unwrap();
    assert!(matches!(err, HjError::InvalidStatusLine(ref l) if l == b"GET / HTTP/1.1\r\n"));
    let msg = String::from_utf8(error_message(&err)).unwrap();
    assert_eq!(msg, "Invalid status line: \"GET / HTTP/1.1\\r\\n\"");
}

#[test]
fn error_after_first_response_keeps_earlier_objects() {
    let input = "HTTP/1.1 200 OK\r\nContent-Length: 2\r\n\r\na\noops\n";
    let (out, err) = run(input, false, false);
    assert!(out.starts_with("{\"protocol\":\"HTTP/1.1\""));
    assert_eq!(out.matches('\n').count(), 1);
    assert!(matches!(err, Some(HjError::InvalidStatusLine(_))));
}

#[test]
fn length_shorter_than_looked_ahead_line_is_an_error() {
    let input = "HTTP/1.1 200 OK\r\nContent-Length: 1\r\n\r\nabc\n";
    let (out, err) = run(input, false, false);
    assert_eq!(out, "");
    let msg = String::from_utf8(error_message(&err.unwrap())).unwrap();
    assert_eq!(msg, "content length is shorter than the lines already read");
}

#[test]
fn empty_input_has_no_status_line() {
    let (out, err) = run("", false, false);
    assert_eq!(out, "");
    assert!(matches!(err, Some(HjError::InvalidStatusLine(ref l)) if l.is_empty()));
}

#[test]
fn invalid_header_field_is_an_error() {
    let (out, err) = run("HTTP/1.1 200 OK\r\nnot a header\r\n\r\n", false, false);
    assert_eq!(out, "");
    let err = err.unwrap();
    assert!(matches!(err, HjError::InvalidHeaderField(ref l) if l == b"not a header\r\n"));
    let msg = String::from_utf8(error_message(&err)).unwrap();
    assert_eq!(msg, "Invalid header field: \"not a header\\r\\n\"");
}

#[test]
fn invalid_json_body_is_an_error() {
    let input = "HTTP/1.1 200 OK\r\nContent-Type: application/json\r\n\r\n{oops";
    let (out, err) = run(input, false, false);
    assert_eq!(out, "");
    assert!(matches!(err, Some(HjError::InvalidJsonBody)));
}

#[test]
fn body_shorter_than_length_is_an_error() {
    let input = "HTTP/1.1 200 OK\r\nContent-Length: 10\r\n\r\nabc";
    let (_, err) = run(input, false, false);
    let err = err.unwrap();
    let msg = String::from_utf8(error_message(&err)).unwrap();
    assert_eq!(msg, "failed to fill whole buffer");
}

#[test]
fn bad_length_is_ignored_and_body_runs_to_end() {
    let input = "HTTP/1.1 200 OK\r\nContent-Length: many\r\n\r\nall of it\n";
    let (out, err) = run(input, false, false);
    assert!(err.is_none());
    assert!(out.ends_with(",\"content\":\"all of it\\n\"}\n"));
}

#[test]
fn sanitizer_noise_and_prefixed_headers() {
    let input = "x.c:1:2: runtime error: boom\nSUMMARY: UndefinedBehaviorSanitizer: x\n< HTTP/2 204\r\n< server: test\r\n<\r\n";
    let (out, err) = run(input, false, false);
    assert!(err.is_none());
    assert_eq!(
        out,
        "{\"protocol\":\"HTTP/2\",\"status_code\":204,\"headers\":{\"server\":\"test\"},\"content\":\"\"}\n"
    );
}

#[test]
fn quoting_escapes_text() {
    assert_eq!(quote_bytes(b"a\"b\\c\n"), b"\"a\\\"b\\\\c\\n\"".to_vec());
    assert_eq!(quote_bytes(b"\xff"), "\"\u{fffd}\"".as_bytes().to_vec());
}

#[test]
fn unicode_spaces_around_header_parts_are_trimmed() {
    let input = "HTTP/1.1 200 OK\r\nServer:\u{a0}test\u{3000}\r\n\r\n";
    let (out, err) = run(input, false, false);
    assert!(err.is_none());
    assert!(out.contains("\"headers\":{\"server\":\"test\"}"));
}

#[test]
fn deeply_nested_json_body_is_refused() {
    let body = "[".repeat(1_000_000);
    let input = format!("HTTP/1.1 200 OK\r\nContent-Type: application/json\r\n\r\n{}", body);
    let (out, err) = run(&input, false, false);
    assert_eq!(out, "");
    assert!(matches!(err, Some(HjError::InvalidJsonBody)));
}

#[test]
fn nesting_at_the_bound_is_accepted() {
    let body = format!("{}{}", "[".repeat(512), "]".repeat(512));
    let input = format!("HTTP/1.1 200 OK\r\nContent-Type: application/json\r\n\r\n{}", body);
    let (out, err) = run(&input, false, false);
    assert!(err.is_none());
    assert!(out.ends_with(&format!(",\"content\":{}}}\n", body)));
    let deeper = format!("{}{}", "[".repeat(513), "]".repeat(513));
    let input = format!("HTTP/1.1 200 OK\r\nContent-Type: application/json\r\n\r\n{}", deeper);
    let (_, err) = run(&input, false, false);
    assert!(matches!(err, Some(HjError::InvalidJsonBody)));
}

#[test]
fn brackets_inside_strings_do_not_count() {
    let body = format!("[\"{}\\\"\"]", "[".repeat(500));
    let input = format!("HTTP/1.1 200 OK\r\nContent-Type: application/json\r\n\r\n{}", body);
    let (out, err) = run(&input, false, false);
    assert!(err.is_none());
    assert!(out.contains(&body));
}

#[test]
fn non_finite_number_is_an_invalid_body() {
    let input = "HTTP/1.1 200 OK\r\nContent-Type: application/json\r\n\r\n1e400";
    let (out, err) = run(input, false, false);
    assert_eq!(out, "");
    assert!(matches!(err, Some(HjError::InvalidJsonBody)));
}

#[test]
fn objects_nested_to_the_bound_are_written() {
    let body = format!("{}1{}", "{\"a\":".repeat(512), "}".repeat(512));
    let input = format!("HTTP/1.1 200 OK\r\nContent-Type: application/json\r\n\r\n{}", body);
    let (out, err) = run(&input, false, false);
    assert!(err.is_none());
    assert!(out.ends_with(&format!(",\"content\":{}}}\n", body)));
}

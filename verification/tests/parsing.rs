use http_load_balancer::headers::{
    get_session_id, parse_request_header, parse_response_header, ParseOutcome,
};

fn headers(pairs: &[(&str, &str)]) -> Vec<(Vec<u8>, Vec<u8>)> {
    pairs
        .iter()
        .map(|(n, v)| (n.as_bytes().to_vec(), v.as_bytes().to_vec()))
        .collect()
}

#[test]
fn parses_request_line_and_headers() {
    let raw = b"GET /index.html HTTP/1.1\r\nHost: example.com\r\nCookie: sessionID=z\r\n\r\n";
    match parse_request_header(raw) {
        ParseOutcome::Done(h) => {
            assert_eq!(h.method, b"GET".to_vec());
            assert_eq!(h.path, b"/index.html".to_vec());
            assert_eq!(h.headers.len(), 2);
            assert_eq!(h.headers[0].0, b"Host".to_vec());
            assert_eq!(h.headers[0].1, b"example.com".to_vec());
            assert_eq!(h.headers[1].0, b"Cookie".to_vec());
            assert_eq!(h.headers[1].1, b"sessionID=z".to_vec());
        }
        _ => panic!("should parse"),
    }
}

#[test]
fn path_stops_at_query_string() {
    let raw = b"GET /session?next=/home HTTP/1.1\r\n\r\n";
    match parse_request_header(raw) {
        ParseOutcome::Done(h) => assert_eq!(h.path, b"/session".to_vec()),
        _ => panic!("should parse"),
    }
}

#[test]
fn header_values_are_trimmed() {
    let raw = b"GET / HTTP/1.1\r\nHost:   spaced.example   \r\n\r\n";
    match parse_request_header(raw) {
        ParseOutcome::Done(h) => assert_eq!(h.headers[0].1, b"spaced.example".to_vec()),
        _ => panic!("should parse"),
    }
}

#[test]
fn incomplete_until_blank_line() {
    assert!(matches!(
        parse_request_header(b"GET / HTTP/1.1\r\nHost: x\r\n"),
        ParseOutcome::Incomplete
    ));
    assert!(matches!(parse_request_header(b""), ParseOutcome::Incomplete));
    assert!(matches!(
        parse_request_header(b"GET / HTTP/1.1\r\nHost: x\r\n\r\n"),
        ParseOutcome::Done(_)
    ));
}

#[test]
fn malformed_request_line_is_rejected() {
    // No version part at all.
    assert!(matches!(parse_request_header(b"GET /\r\n\r\n"), ParseOutcome::Malformed));
    // Empty request line.
    assert!(matches!(parse_request_header(b"\r\n\r\n"), ParseOutcome::Malformed));
}

#[test]
fn malformed_header_line_is_rejected() {
    assert!(matches!(
        parse_request_header(b"GET / HTTP/1.1\r\nno colon here\r\n\r\n"),
        ParseOutcome::Malformed
    ));
}

#[test]
fn response_header_parses_and_keeps_set_cookie() {
    let raw = b"HTTP/1.1 200 OK\r\nSet-Cookie: sessionID=abc\r\nContent-Type: text/html\r\n\r\n";
    match parse_response_header(raw) {
        ParseOutcome::Done(h) => {
            assert_eq!(h.headers.len(), 2);
            assert_eq!(get_session_id(&h.headers, "Set-Cookie"), Some(b"abc".to_vec()));
        }
        _ => panic!("should parse"),
    }
}

#[test]
fn session_id_found_among_cookies() {
    let h = headers(&[("Cookie", "a=1; sessionID=xyz; b=2")]);
    assert_eq!(get_session_id(&h, "Cookie"), Some(b"xyz".to_vec()));
}

#[test]
fn session_id_absent() {
    let h = headers(&[("Cookie", "a=1; b=2"), ("Host", "example")]);
    assert_eq!(get_session_id(&h, "Cookie"), None);
}

#[test]
fn session_id_requires_exact_cookie_name() {
    let h = headers(&[("Cookie", "xsessionID=1; sessionid=2")]);
    assert_eq!(get_session_id(&h, "Cookie"), None);
}

#[test]
fn session_id_value_is_trimmed() {
    let h = headers(&[("Cookie", "  sessionID=  padded  ; other=1")]);
    assert_eq!(get_session_id(&h, "Cookie"), Some(b"padded".to_vec()));
}

#[test]
fn session_id_searches_all_header_occurrences() {
    let h = headers(&[("Cookie", "a=1"), ("Cookie", "sessionID=second")]);
    assert_eq!(get_session_id(&h, "Cookie"), Some(b"second".to_vec()));
}

#[test]
fn header_name_is_case_insensitive() {
    let h = headers(&[("cOOkIE", "sessionID=v")]);
    assert_eq!(get_session_id(&h, "Cookie"), Some(b"v".to_vec()));
}

#[test]
fn first_matching_cookie_wins() {
    let h = headers(&[("Cookie", "sessionID=first; sessionID=later")]);
    assert_eq!(get_session_id(&h, "Cookie"), Some(b"first".to_vec()));
}

#[test]
fn empty_session_id_value_is_returned() {
    let h = headers(&[("Cookie", "sessionID=")]);
    assert_eq!(get_session_id(&h, "Cookie"), Some(Vec::new()));
}

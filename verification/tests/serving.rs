use http_load_balancer::headers::{parse_request_header, ParseOutcome, RequestHeader};
use http_load_balancer::server::{format_session_id, Server};

const ADDR: &str = "127.0.0.1:8081";

fn request(raw: &[u8]) -> RequestHeader {
    match parse_request_header(raw) {
        ParseOutcome::Done(h) => h,
        _ => panic!("request header should parse"),
    }
}

#[test]
fn new_keeps_address() {
    let s = Server::new(ADDR, true);
    assert_eq!(s.address(), ADDR);
    assert!(s.verbose());
}

#[test]
fn session_id_is_zero_padded_to_34_digits() {
    assert_eq!(format_session_id(0), b"0000000000000000000000000000000000".to_vec());
    assert_eq!(format_session_id(5), b"0000000000000000000000000000000005".to_vec());
    assert_eq!(format_session_id(407), b"0000000000000000000000000000000407".to_vec());
    assert_eq!(
        format_session_id(u32::MAX),
        b"0000000000000000000000004294967295".to_vec()
    );
}

#[test]
fn index_page_response() {
    let req = request(b"GET / HTTP/1.1\r\nHost: x\r\n\r\n");
    let out = Server::handle_request(ADDR, &req, 7);
    let expected = format!(
        "HTTP/1.1 200 OK\r\n\r\n<html>\n<head>\n<title>{a}</title>\n</head>\n<body>\nHello from {a}.\n</body>\n</html>\n",
        a = ADDR
    );
    assert_eq!(out, expected.into_bytes());
}

#[test]
fn index_html_is_the_same_page() {
    let req1 = request(b"GET / HTTP/1.1\r\n\r\n");
    let req2 = request(b"GET /index.html HTTP/1.1\r\n\r\n");
    assert_eq!(Server::handle_request(ADDR, &req1, 1), Server::handle_request(ADDR, &req2, 2));
}

#[test]
fn session_page_without_cookie_sets_one() {
    let req = request(b"GET /session HTTP/1.1\r\nHost: x\r\n\r\n");
    let out = Server::handle_request(ADDR, &req, 5);
    let sid = "0000000000000000000000000000000005";
    let expected = format!(
        "HTTP/1.1 200 OK\r\nSet-Cookie: sessionID={sid}\r\n\r\n<html>\n<head>\n<title>{a}</title>\n</head>\n<body>\nHello from {a}.<br>\nA new session has been created.<br>\nYour session ID is: {sid}.\n</body>\n</html>\n",
        a = ADDR,
        sid = sid
    );
    assert_eq!(out, expected.into_bytes());
}

#[test]
fn session_page_with_cookie_keeps_it() {
    let req = request(b"GET /session HTTP/1.1\r\nCookie: sessionID=abc\r\n\r\n");
    let out = Server::handle_request(ADDR, &req, 99);
    let expected = format!(
        "HTTP/1.1 200 OK\r\n\r\n<html>\n<head>\n<title>{a}</title>\n</head>\n<body>\nHello from {a}.<br>\nYour session ID is: abc.\n</body>\n</html>\n",
        a = ADDR
    );
    assert_eq!(out, expected.into_bytes());
}

#[test]
fn unknown_path_is_not_found() {
    let req = request(b"GET /missing HTTP/1.1\r\n\r\n");
    let out = Server::handle_request(ADDR, &req, 0);
    let expected = format!(
        "HTTP/1.1 404 Not Found\r\n\r\n<html>\n<head>\n<title>{a}</title>\n</head>\n<body>\n<img alt=\"404 NOT FOUND\" src=\"https://http.cat/images/404.jpg\">\n</body>\n</html>\n",
        a = ADDR
    );
    assert_eq!(out, expected.into_bytes());
}

#[test]
fn query_string_does_not_change_the_route() {
    let req = request(b"GET /session?x=1 HTTP/1.1\r\nCookie: sessionID=abc\r\n\r\n");
    let out = Server::handle_request(ADDR, &req, 0);
    assert!(out.starts_with(b"HTTP/1.1 200 OK\r\n\r\n"));
}

#[test]
fn respond_draws_some_session_id() {
    // `respond` uses a random draw; the shape of the response is still
    // fixed: a Set-Cookie header with a 34-digit id.
    let req = request(b"GET /session HTTP/1.1\r\n\r\n");
    let out = Server::respond(ADDR, &req);
    let text = String::from_utf8(out).unwrap();
    let marker = "Set-Cookie: sessionID=";
    let at = text.find(marker).expect("fresh session sets a cookie");
    let sid = &text[at + marker.len()..at + marker.len() + 34];
    assert!(sid.bytes().all(|b| b.is_ascii_digit()));
}

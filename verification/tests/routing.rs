use http_load_balancer::balancer::LoadBalancer;
use http_load_balancer::headers::{parse_request_header, parse_response_header, ParseOutcome, RequestHeader, ResponseHeader};

fn pool(n: usize) -> Vec<String> {
    (0..n).map(|i| format!("127.0.0.1:{}", 9000 + i)).collect()
}

fn request(raw: &[u8]) -> RequestHeader {
    match parse_request_header(raw) {
        ParseOutcome::Done(h) => h,
        _ => panic!("request header should parse"),
    }
}

fn response(raw: &[u8]) -> ResponseHeader {
    match parse_response_header(raw) {
        ParseOutcome::Done(h) => h,
        _ => panic!("response header should parse"),
    }
}

#[test]
fn new_rejects_empty_pool() {
    let lb = LoadBalancer::new("127.0.0.1:8080", &Vec::new(), false);
    assert!(lb.is_none());
}

#[test]
fn new_accepts_single_backend() {
    let lb = LoadBalancer::new("127.0.0.1:8080", &pool(1), true);
    assert!(lb.is_some());
    assert_eq!(lb.unwrap().backend_count(), 1);
}

#[test]
fn round_robin_cycles_with_wraparound() {
    // Three backends, no cookie ever: four picks come out 0, 1, 2, 0.
    let mut lb = LoadBalancer::new("127.0.0.1:8080", &pool(3), false).unwrap();
    let picks: Vec<usize> = (0..4).map(|_| lb.choose_backend(None)).collect();
    assert_eq!(picks, vec![0, 1, 2, 0]);
}

#[test]
fn round_robin_n_plus_one_sequential_connections() {
    let n = 5;
    let mut lb = LoadBalancer::new("127.0.0.1:8080", &pool(n), false).unwrap();
    let req = request(b"GET / HTTP/1.1\r\nHost: example\r\n\r\n");
    let mut picks = Vec::new();
    for _ in 0..n + 1 {
        picks.push(lb.route_request(&req));
    }
    assert_eq!(picks, vec![0, 1, 2, 3, 4, 0]);
}

#[test]
fn set_cookie_makes_session_sticky() {
    let mut lb = LoadBalancer::new("127.0.0.1:8080", &pool(3), false).unwrap();
    // Backend 2 issues a session id in its response.
    let resp = response(b"HTTP/1.1 200 OK\r\nSet-Cookie: sessionID=X\r\n\r\n");
    lb.note_response(&resp, 2);
    let with_cookie = request(b"GET / HTTP/1.1\r\nCookie: sessionID=X\r\n\r\n");
    let without = request(b"GET / HTTP/1.1\r\n\r\n");
    // Sticky regardless of the cursor position: move the cursor around and
    // keep asking.
    for _ in 0..7 {
        assert_eq!(lb.route_request(&with_cookie), 2);
        lb.route_request(&without);
    }
}

#[test]
fn unknown_session_id_binds_to_round_robin_pick() {
    let mut lb = LoadBalancer::new("127.0.0.1:8080", &pool(3), false).unwrap();
    let req = request(b"GET / HTTP/1.1\r\nCookie: sessionID=Y\r\n\r\n");
    // The unrecognized id is routed by round robin (cursor 0) and bound.
    assert_eq!(lb.route_request(&req), 0);
    // Immediately afterward, no intervening response: sticky to backend 0.
    assert_eq!(lb.route_request(&req), 0);
    // The cursor advanced exactly once for the binding pick.
    assert_eq!(lb.choose_backend(None), 1);
    // And the binding is in the table.
    assert_eq!(lb.session_backend(&b"Y".to_vec()), Some(0));
}

#[test]
fn cookieless_request_creates_no_table_entry() {
    let mut lb = LoadBalancer::new("127.0.0.1:8080", &pool(2), false).unwrap();
    let req = request(b"GET / HTTP/1.1\r\nHost: example\r\n\r\n");
    // Routing a cookieless request mutates only the cursor; if connecting to
    // the chosen backend then fails, no affinity entry exists for any id.
    lb.route_request(&req);
    assert_eq!(lb.session_backend(&b"anything".to_vec()), None);
}

#[test]
fn round_trip_two_clients() {
    let mut lb = LoadBalancer::new("127.0.0.1:8080", &pool(2), false).unwrap();
    // Client A, no cookie: round robin picks backend 0.
    let a_first = request(b"GET /session HTTP/1.1\r\nHost: example\r\n\r\n");
    assert_eq!(lb.route_request(&a_first), 0);
    // Backend 0 replies with a fresh session id.
    let resp = response(b"HTTP/1.1 200 OK\r\nSet-Cookie: sessionID=abc\r\n\r\n");
    lb.note_response(&resp, 0);
    // Client B arrives in between, no cookie: the cursor has moved to 1.
    let b_first = request(b"GET / HTTP/1.1\r\nHost: example\r\n\r\n");
    assert_eq!(lb.route_request(&b_first), 1);
    // Client A returns with its cookie: sticky to backend 0.
    let a_second = request(b"GET /session HTTP/1.1\r\nCookie: sessionID=abc\r\n\r\n");
    assert_eq!(lb.route_request(&a_second), 0);
}

#[test]
fn last_write_wins_on_rebinding() {
    let mut lb = LoadBalancer::new("127.0.0.1:8080", &pool(3), false).unwrap();
    let resp0 = response(b"HTTP/1.1 200 OK\r\nSet-Cookie: sessionID=k\r\n\r\n");
    lb.note_response(&resp0, 1);
    assert_eq!(lb.session_backend(&b"k".to_vec()), Some(1));
    lb.note_response(&resp0, 2);
    assert_eq!(lb.session_backend(&b"k".to_vec()), Some(2));
    let req = request(b"GET / HTTP/1.1\r\nCookie: sessionID=k\r\n\r\n");
    assert_eq!(lb.route_request(&req), 2);
}

#[test]
fn session_id_found_in_second_cookie_header() {
    let mut lb = LoadBalancer::new("127.0.0.1:8080", &pool(3), false).unwrap();
    let resp = response(b"HTTP/1.1 200 OK\r\nSet-Cookie: sessionID=m\r\n\r\n");
    lb.note_response(&resp, 1);
    let req = request(b"GET / HTTP/1.1\r\nCookie: theme=dark\r\nCookie: lang=en; sessionID=m\r\n\r\n");
    assert_eq!(lb.route_request(&req), 1);
}

#[test]
fn backend_addresses_are_kept_in_order() {
    let addrs = pool(3);
    let lb = LoadBalancer::new("127.0.0.1:8080", &addrs, false).unwrap();
    for i in 0..3 {
        assert_eq!(lb.backend_address(i), &addrs[i]);
    }
}

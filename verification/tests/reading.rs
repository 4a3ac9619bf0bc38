use http_load_balancer::reader::{HeaderReader, ReadStep};
use http_load_balancer::LbError;

// Note on timeouts: the reader accepts chunks whenever they arrive and
// never gives up on a slow peer. That a stalled connection ties up its task
// indefinitely is intentional in this design, not a missing timeout.

const REQUEST: &[u8] = b"POST /upload HTTP/1.1\r\nHost: example\r\nCookie: sessionID=q\r\n\r\n";

#[test]
fn zero_length_read_reports_closed() {
    let mut r = HeaderReader::new();
    assert!(matches!(r.on_read(b""), ReadStep::Closed));
    assert!(matches!(r.on_read(b"GET"), ReadStep::NeedMore));
    assert!(matches!(r.on_read(b""), ReadStep::Closed));
}

#[test]
fn single_chunk_completes() {
    let mut r = HeaderReader::new();
    assert!(matches!(r.on_read(REQUEST), ReadStep::Complete));
    let (h, bytes) = r.finish_request().unwrap();
    assert_eq!(h.method, b"POST".to_vec());
    assert_eq!(h.path, b"/upload".to_vec());
    assert_eq!(bytes, REQUEST.to_vec());
}

#[test]
fn one_byte_chunks_yield_identical_header_and_bytes() {
    // Transport fragmentation independence: byte-at-a-time delivery gives
    // the same parsed header and the same forwarded byte sequence as one
    // single delivery.
    let mut whole = HeaderReader::new();
    assert!(matches!(whole.on_read(REQUEST), ReadStep::Complete));
    let (h1, b1) = whole.finish_request().unwrap();

    let mut split = HeaderReader::new();
    let mut done = false;
    for (i, byte) in REQUEST.iter().enumerate() {
        match split.on_read(&[*byte]) {
            ReadStep::Complete => {
                assert_eq!(i, REQUEST.len() - 1);
                done = true;
            }
            ReadStep::NeedMore => assert!(i < REQUEST.len() - 1),
            ReadStep::Closed => panic!("no chunk was empty"),
        }
    }
    assert!(done);
    let (h2, b2) = split.finish_request().unwrap();
    assert_eq!(h1.method, h2.method);
    assert_eq!(h1.path, h2.path);
    assert_eq!(h1.headers, h2.headers);
    assert_eq!(b1, b2);
}

#[test]
fn bytes_past_the_boundary_are_kept_once_in_order() {
    // A body and a pipelined second request arrive in the same reads; every
    // byte comes back exactly once, in order.
    let mut r = HeaderReader::new();
    assert!(matches!(r.on_read(b"POST / HTTP/1.1\r\nContent-Length: 4\r\n"), ReadStep::NeedMore));
    assert!(matches!(r.on_read(b"\r\nBODYGET /next HTTP/1.1\r\n"), ReadStep::Complete));
    let (_, bytes) = r.finish_request().unwrap();
    assert_eq!(
        bytes,
        b"POST / HTTP/1.1\r\nContent-Length: 4\r\n\r\nBODYGET /next HTTP/1.1\r\n".to_vec()
    );
}

#[test]
fn terminator_split_across_chunks_still_completes() {
    let mut r = HeaderReader::new();
    assert!(matches!(r.on_read(b"GET / HTTP/1.1\r\nHost: x\r"), ReadStep::NeedMore));
    assert!(matches!(r.on_read(b"\n\r"), ReadStep::NeedMore));
    assert!(matches!(r.on_read(b"\n"), ReadStep::Complete));
    let (h, bytes) = r.finish_request().unwrap();
    assert_eq!(h.path, b"/".to_vec());
    assert_eq!(bytes, b"GET / HTTP/1.1\r\nHost: x\r\n\r\n".to_vec());
}

#[test]
fn malformed_complete_block_is_a_parse_error() {
    let mut r = HeaderReader::new();
    assert!(matches!(r.on_read(b"GET /\r\n\r\n"), ReadStep::Complete));
    assert_eq!(r.finish_request().unwrap_err(), LbError::ParseError);
}

#[test]
fn response_reading_uses_the_same_loop() {
    let mut r = HeaderReader::new();
    assert!(matches!(r.on_read(b"HTTP/1.1 200 OK\r\nSet-Coo"), ReadStep::NeedMore));
    assert!(matches!(r.on_read(b"kie: sessionID=abc\r\n\r\ntail"), ReadStep::Complete));
    let (h, bytes) = r.finish_response().unwrap();
    assert_eq!(h.headers.len(), 1);
    assert_eq!(h.headers[0].0, b"Set-Cookie".to_vec());
    assert_eq!(h.headers[0].1, b"sessionID=abc".to_vec());
    assert_eq!(bytes, b"HTTP/1.1 200 OK\r\nSet-Cookie: sessionID=abc\r\n\r\ntail".to_vec());
}

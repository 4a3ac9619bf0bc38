//! The demo backend HTTP server's decision core: given a parsed request, it
//! builds the exact response bytes, including the `Set-Cookie: sessionID=...`
//! header that creates a session when a request arrives without one.
//!
//! The response for every route is pinned down byte for byte by
//! `spec_response`; only the draw of a fresh session id number comes from
//! outside, and the construction is verified for every value of it.

use vstd::prelude::*;
use vstd::string::StringSliceAdditionalSpecFns;

use crate::{ascii_bytes, str_bytes};
use crate::bytes::{bytes_eq, push_bytes};
use crate::headers::{get_session_id, spec_session_id, RequestHeader, ReqView};

verus! {

/// The decimal digits of `n`, most significant first, no leading zeros.
pub open spec fn dec_digits(n: nat) -> Seq<u8>
    decreases n,
{
    if n < 10 {
        seq![(48 + n) as u8]
    } else {
        dec_digits(n / 10).push((48 + n % 10) as u8)
    }
}

/// `s` left-padded with ASCII zeros to width `w`.
pub open spec fn zero_pad(s: Seq<u8>, w: nat) -> Seq<u8> {
    if s.len() >= w {
        s
    } else {
        Seq::new((w - s.len()) as nat, |i: int| 48u8) + s
    }
}

/// The text of a freshly generated session id: the decimal digits of the
/// drawn number, zero-padded to 34 characters.
pub open spec fn spec_session_id_text(n: nat) -> Seq<u8> {
    zero_pad(dec_digits(n), 34)
}

/// Writes `n` in decimal, zero-padded to 34 bytes, as
/// `spec_session_id_text` describes.
pub fn format_session_id(n: u32) -> (r: Vec<u8>)
    ensures
        r@ == spec_session_id_text(n as nat),
{
    let mut digits: Vec<u8> = Vec::new();
    let mut x: u32 = n;
    while x >= 10
        invariant
            dec_digits(n as nat) == dec_digits(x as nat) + digits@,
        decreases x,
    {
        let d: u8 = 48 + (x % 10) as u8;
        let ghost before = digits@;
        digits.insert(0, d);
        proof {
            assert(digits@ =~= seq![d] + before);
            assert(dec_digits(x as nat) == dec_digits((x / 10) as nat).push(d));
            assert(dec_digits((x / 10) as nat) + (seq![d] + before) =~= (dec_digits(
                (x / 10) as nat,
            ).push(d)) + before);
        }
        x = x / 10;
    }
    let ghost before = digits@;
    digits.insert(0, 48 + x as u8);
    proof {
        assert(dec_digits(x as nat) == seq![(48 + x) as u8]);
        assert(digits@ =~= seq![(48 + x) as u8] + before);
        assert(digits@ =~= dec_digits(n as nat));
        assert(dec_digits(n as nat).len() >= 1);
    }
    let mut out: Vec<u8> = Vec::new();
    let mut pad: usize = 0;
    let total = digits.len();
    if total < 34 {
        let need = 34 - total;
        while pad < need
            invariant
                pad <= need,
                need == 34 - digits@.len(),
                digits@.len() < 34,
                out@ == Seq::new(pad as nat, |i: int| 48u8),
            decreases need - pad,
        {
            out.push(48);
            proof {
                assert(out@ =~= Seq::new((pad + 1) as nat, |i: int| 48u8));
            }
            pad += 1;
        }
    }
    push_bytes(&mut out, digits.as_slice());
    proof {
        assert(out@ =~= spec_session_id_text(n as nat));
    }
    out
}

/// The body of the index page.
pub open spec fn spec_body_index(addr: Seq<u8>) -> Seq<u8> {
    ascii_bytes("<html>\n<head>\n<title>"@) + addr + ascii_bytes(
        "</title>\n</head>\n<body>\nHello from "@,
    ) + addr + ascii_bytes(".\n</body>\n</html>\n"@)
}

/// The body of the session page: the note line appears only when the
/// session was just created.
pub open spec fn spec_body_session(addr: Seq<u8>, sid: Seq<u8>, fresh: bool) -> Seq<u8> {
    ascii_bytes("<html>\n<head>\n<title>"@) + addr + ascii_bytes(
        "</title>\n</head>\n<body>\nHello from "@,
    ) + addr + ascii_bytes(".<br>\n"@) + (if fresh {
        ascii_bytes("A new session has been created.<br>\n"@)
    } else {
        Seq::<u8>::empty()
    }) + ascii_bytes("Your session ID is: "@) + sid + ascii_bytes(".\n</body>\n</html>\n"@)
}

/// The body of the not-found page.
pub open spec fn spec_body_not_found(addr: Seq<u8>) -> Seq<u8> {
    ascii_bytes("<html>\n<head>\n<title>"@) + addr + ascii_bytes(
        "</title>\n</head>\n<body>\n<img alt=\"404 NOT FOUND\" src=\"https://http.cat/images/404.jpg\">\n</body>\n</html>\n"@,
    )
}

/// The whole response, byte for byte, for a request with path `path` whose
/// `Cookie` headers carry `sid` (when they do), with `fresh` the number
/// drawn for a new session id.
pub open spec fn spec_response(addr: Seq<u8>, req: ReqView, fresh: u32) -> Seq<u8> {
    if req.path == ascii_bytes("/"@) || req.path == ascii_bytes("/index.html"@) {
        ascii_bytes("HTTP/1.1 200 OK\r\n\r\n"@) + spec_body_index(addr)
    } else if req.path == ascii_bytes("/session"@) {
        match spec_session_id(req.headers, ascii_bytes("Cookie"@)) {
            Some(sid) => ascii_bytes("HTTP/1.1 200 OK\r\n\r\n"@) + spec_body_session(
                addr,
                sid,
                false,
            ),
            None => {
                let sid = spec_session_id_text(fresh as nat);
                ascii_bytes("HTTP/1.1 200 OK\r\nSet-Cookie: sessionID="@) + sid + ascii_bytes(
                    "\r\n\r\n"@,
                ) + spec_body_session(addr, sid, true)
            },
        }
    } else {
        ascii_bytes("HTTP/1.1 404 Not Found\r\n\r\n"@) + spec_body_not_found(addr)
    }
}

/// Appends an ASCII literal to the buffer.
fn append_lit(out: &mut Vec<u8>, s: &str)
    requires
        vstd::string::is_ascii(s),
    ensures
        final(out)@ == old(out)@ + ascii_bytes(s@),
{
    push_bytes(out, str_bytes(s));
}

/// A demo backend HTTP server behind the load balancer.
pub struct Server {
    /// Server address to listen to.
    address: String,
    /// If true, callers are expected to log status messages.
    verbose: bool,
}

impl Server {
    /// The configured listen address.
    pub closed spec fn address_view(&self) -> Seq<char> {
        self.address@
    }

    /// The configured verbosity flag.
    pub closed spec fn verbose_view(&self) -> bool {
        self.verbose
    }

    /// Creates a new server for the given listen address.
    pub fn new(address: &str, verbose: bool) -> (s: Server)
        ensures
            s.address_view() == address@,
            s.verbose_view() == verbose,
    {
        Server { address: address.to_owned(), verbose }
    }

    /// The configured listen address, for the caller that binds the socket.
    pub fn address(&self) -> (r: &String)
        ensures
            r@ == self.address_view(),
    {
        &self.address
    }

    /// Whether status messages should be logged.
    pub fn verbose(&self) -> (r: bool)
        ensures
            r == self.verbose_view(),
    {
        self.verbose
    }

    /// Builds the response for one parsed request, with `fresh` the number
    /// to mint a session id from if the request carries none: exactly
    /// `spec_response`, for every value of `fresh`.
    pub fn handle_request(listen_addr: &str, request: &RequestHeader, fresh: u32) -> (r: Vec<u8>)
        ensures
            r@ == spec_response(listen_addr.spec_bytes(), request@, fresh),
    {
        let addr = listen_addr.as_bytes();
        let mut out: Vec<u8> = Vec::new();
        proof {
            reveal_strlit("/");
            reveal_strlit("/index.html");
            reveal_strlit("/session");
            assert(vstd::string::is_ascii("/"));
            assert(vstd::string::is_ascii("/index.html"));
            assert(vstd::string::is_ascii("/session"));
        }
        if bytes_eq(request.path.as_slice(), str_bytes("/")) || bytes_eq(
            request.path.as_slice(),
            str_bytes("/index.html"),
        ) {
            proof {
                reveal_strlit("HTTP/1.1 200 OK\r\n\r\n");
                assert(vstd::string::is_ascii("HTTP/1.1 200 OK\r\n\r\n"));
            }
            append_lit(&mut out, "HTTP/1.1 200 OK\r\n\r\n");
            Self::append_index_body(&mut out, addr);
            proof {
                assert(out@ =~= spec_response(listen_addr.spec_bytes(), request@, fresh));
            }
            out
        } else if bytes_eq(request.path.as_slice(), str_bytes("/session")) {
            proof {
                reveal_strlit("Cookie");
                assert(vstd::string::is_ascii("Cookie"));
                vstd::string::is_ascii_spec_bytes("Cookie");
                assert("Cookie".spec_bytes() =~= ascii_bytes("Cookie"@));
            }
            match get_session_id(&request.headers, "Cookie") {
                Some(sid) => {
                    proof {
                        reveal_strlit("HTTP/1.1 200 OK\r\n\r\n");
                        assert(vstd::string::is_ascii("HTTP/1.1 200 OK\r\n\r\n"));
                    }
                    append_lit(&mut out, "HTTP/1.1 200 OK\r\n\r\n");
                    Self::append_session_body(&mut out, addr, sid.as_slice(), false);
                    proof {
                        assert(out@ =~= spec_response(listen_addr.spec_bytes(), request@, fresh));
                    }
                    out
                },
                None => {
                    let sid = format_session_id(fresh);
                    proof {
                        reveal_strlit("HTTP/1.1 200 OK\r\nSet-Cookie: sessionID=");
                        reveal_strlit("\r\n\r\n");
                        assert(vstd::string::is_ascii("HTTP/1.1 200 OK\r\nSet-Cookie: sessionID="));
                        assert(vstd::string::is_ascii("\r\n\r\n"));
                    }
                    append_lit(&mut out, "HTTP/1.1 200 OK\r\nSet-Cookie: sessionID=");
                    push_bytes(&mut out, sid.as_slice());
                    append_lit(&mut out, "\r\n\r\n");
                    Self::append_session_body(&mut out, addr, sid.as_slice(), true);
                    proof {
                        assert(out@ =~= spec_response(listen_addr.spec_bytes(), request@, fresh));
                    }
                    out
                },
            }
        } else {
            proof {
                reveal_strlit("HTTP/1.1 404 Not Found\r\n\r\n");
                assert(vstd::string::is_ascii("HTTP/1.1 404 Not Found\r\n\r\n"));
            }
            append_lit(&mut out, "HTTP/1.1 404 Not Found\r\n\r\n");
            Self::append_not_found_body(&mut out, addr);
            proof {
                assert(out@ =~= spec_response(listen_addr.spec_bytes(), request@, fresh));
            }
            out
        }
    }

    /// Builds the response for one parsed request, drawing the number for a
    /// possibly needed fresh session id: `spec_response` for some draw.
    pub fn respond(listen_addr: &str, request: &RequestHeader) -> (r: Vec<u8>)
        ensures
            exists|f: u32| r@ == spec_response(listen_addr.spec_bytes(), request@, f),
    {
        let f = draw_u32();
        let r = Self::handle_request(listen_addr, request, f);
        proof {
            assert(r@ == spec_response(listen_addr.spec_bytes(), request@, f));
        }
        r
    }

    fn append_index_body(out: &mut Vec<u8>, addr: &[u8])
        ensures
            final(out)@ == old(out)@ + spec_body_index(addr@),
    {
        proof {
            reveal_strlit("<html>\n<head>\n<title>");
            reveal_strlit("</title>\n</head>\n<body>\nHello from ");
            reveal_strlit(".\n</body>\n</html>\n");
            assert(vstd::string::is_ascii("<html>\n<head>\n<title>"));
            assert(vstd::string::is_ascii("</title>\n</head>\n<body>\nHello from "));
            assert(vstd::string::is_ascii(".\n</body>\n</html>\n"));
        }
        append_lit(out, "<html>\n<head>\n<title>");
        push_bytes(out, addr);
        append_lit(out, "</title>\n</head>\n<body>\nHello from ");
        push_bytes(out, addr);
        append_lit(out, ".\n</body>\n</html>\n");
        proof {
            assert(final(out)@ =~= old(out)@ + spec_body_index(addr@));
        }
    }

    fn append_session_body(out: &mut Vec<u8>, addr: &[u8], sid: &[u8], fresh: bool)
        ensures
            final(out)@ == old(out)@ + spec_body_session(addr@, sid@, fresh),
    {
        proof {
            reveal_strlit("<html>\n<head>\n<title>");
            reveal_strlit("</title>\n</head>\n<body>\nHello from ");
            reveal_strlit(".<br>\n");
            reveal_strlit("A new session has been created.<br>\n");
            reveal_strlit("Your session ID is: ");
            reveal_strlit(".\n</body>\n</html>\n");
            assert(vstd::string::is_ascii("<html>\n<head>\n<title>"));
            assert(vstd::string::is_ascii("</title>\n</head>\n<body>\nHello from "));
            assert(vstd::string::is_ascii(".<br>\n"));
            assert(vstd::string::is_ascii("A new session has been created.<br>\n"));
            assert(vstd::string::is_ascii("Your session ID is: "));
            assert(vstd::string::is_ascii(".\n</body>\n</html>\n"));
        }
        append_lit(out, "<html>\n<head>\n<title>");
        push_bytes(out, addr);
        append_lit(out, "</title>\n</head>\n<body>\nHello from ");
        push_bytes(out, addr);
        append_lit(out, ".<br>\n");
        if fresh {
            append_lit(out, "A new session has been created.<br>\n");
        }
        append_lit(out, "Your session ID is: ");
        push_bytes(out, sid);
        append_lit(out, ".\n</body>\n</html>\n");
        proof {
            assert(final(out)@ =~= old(out)@ + spec_body_session(addr@, sid@, fresh));
        }
    }

    fn append_not_found_body(out: &mut Vec<u8>, addr: &[u8])
        ensures
            final(out)@ == old(out)@ + spec_body_not_found(addr@),
    {
        proof {
            reveal_strlit("<html>\n<head>\n<title>");
            reveal_strlit(
                "</title>\n</head>\n<body>\n<img alt=\"404 NOT FOUND\" src=\"https://http.cat/images/404.jpg\">\n</body>\n</html>\n",
            );
            assert(vstd::string::is_ascii("<html>\n<head>\n<title>"));
            assert(vstd::string::is_ascii(
                "</title>\n</head>\n<body>\n<img alt=\"404 NOT FOUND\" src=\"https://http.cat/images/404.jpg\">\n</body>\n</html>\n",
            ));
        }
        append_lit(out, "<html>\n<head>\n<title>");
        push_bytes(out, addr);
        append_lit(
            out,
            "</title>\n</head>\n<body>\n<img alt=\"404 NOT FOUND\" src=\"https://http.cat/images/404.jpg\">\n</body>\n</html>\n",
        );
        proof {
            assert(final(out)@ =~= old(out)@ + spec_body_not_found(addr@));
        }
    }
}

/// Relies on `rand::random::<u32>`: a fresh 32-bit value from the thread's
/// generator. Nothing is assumed of the result; every caller is verified
/// for every value.
#[verifier::external_body]
fn draw_u32() -> u32 {
    rand::random::<u32>()
}

} // verus!

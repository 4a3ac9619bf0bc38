//! A verified core for a layer-7 HTTP load balancer with sticky sessions.
//!
//! The crate holds the routing logic (round robin with session affinity),
//! the incremental HTTP header reader and parser, and the demo backend
//! server's response construction. Socket handling lives outside the
//! library; the functions here go from plain values to plain values and
//! carry contracts that pin their results down.

pub mod balancer;
pub mod bytes;
pub mod headers;
pub mod reader;
pub mod server;

use vstd::prelude::*;
use vstd::string::StringSliceAdditionalSpecFns;

verus! {

/// The failure conditions of one connection's handling. Each failure is
/// confined to its connection: the task reports it and ends, and the accept
/// loop goes on.
#[derive(Clone, Copy, Debug, PartialEq, Eq, Structural)]
pub enum LbError {
    /// The peer closed before a full header arrived (a zero-length read).
    ConnectionReset,
    /// A complete header block did not parse.
    ParseError,
    /// No connection to the chosen backend could be opened.
    BackendConnectFailure,
    /// A read or write failed while forwarding.
    IoFailure,
}

/// Maps a sequence of ASCII characters to the bytes that carry them.
pub open spec fn ascii_bytes(s: Seq<char>) -> Seq<u8> {
    Seq::new(s.len(), |i: int| s[i] as u8)
}

/// The bytes of an ASCII string, tied to `ascii_bytes` of its characters.
pub(crate) fn str_bytes(s: &str) -> (r: &[u8])
    requires
        vstd::string::is_ascii(s),
    ensures
        r@ == ascii_bytes(s@),
{
    proof {
        vstd::string::is_ascii_spec_bytes(s);
        assert(s.spec_bytes() =~= ascii_bytes(s@));
    }
    s.as_bytes()
}

} // verus!

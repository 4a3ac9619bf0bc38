//! The incremental header reader: one shared chunk-accumulation routine
//! used for both request and response headers, with thin finishing wrappers
//! for each.
//!
//! The reader appends every chunk the transport delivers to one buffer and
//! reports, after each chunk, whether a complete header block has arrived.
//! Nothing is ever dropped or reordered: the buffer is exactly the
//! concatenation of the chunks fed in, so bytes read past the header
//! boundary (request body, a pipelined next request) stay in place and are
//! handed back with the parsed header. No read carries a timeout: a peer
//! that stalls forever stalls its connection's task forever, a deliberate
//! reproduction of the design.

use vstd::prelude::*;

use crate::LbError;
use crate::headers::{
    parse_request_header, parse_response_header, spec_complete, spec_parse_request,
    spec_parse_response, ParseOutcome, RequestHeader, ResponseHeader,
};

verus! {

/// The bytes that a sequence of chunks delivers, in order.
pub open spec fn concat_chunks(cs: Seq<Seq<u8>>) -> Seq<u8>
    decreases cs.len(),
{
    if cs.len() == 0 {
        Seq::empty()
    } else {
        concat_chunks(cs.drop_last()) + cs.last()
    }
}

/// What one delivered chunk means for the reading loop: the peer closed the
/// connection (a zero-length read), more bytes are needed, or a complete
/// header block has arrived.
pub enum ReadStep {
    Closed,
    NeedMore,
    Complete,
}

/// Accumulates a byte stream chunk by chunk until a complete HTTP header
/// block is present. The same routine serves request and response headers;
/// only the finishing step differs.
pub struct HeaderReader {
    buf: Vec<u8>,
    chunks: Ghost<Seq<Seq<u8>>>,
}

impl HeaderReader {
    /// All bytes accumulated so far.
    pub closed spec fn buffered(&self) -> Seq<u8> {
        self.buf@
    }

    /// The chunks fed in so far, in order.
    pub closed spec fn chunk_history(&self) -> Seq<Seq<u8>> {
        self.chunks@
    }

    /// The buffer holds exactly the concatenation of the fed chunks: no
    /// byte is dropped, duplicated, or reordered.
    pub open spec fn wf(&self) -> bool {
        self.buffered() == concat_chunks(self.chunk_history())
    }

    /// A fresh reader with an empty buffer.
    pub fn new() -> (r: HeaderReader)
        ensures
            r.wf(),
            r.buffered() == Seq::<u8>::empty(),
            r.chunk_history() == Seq::<Seq<u8>>::empty(),
    {
        HeaderReader { buf: Vec::new(), chunks: Ghost(Seq::empty()) }
    }

    /// Feeds the reader one chunk, as delivered by the transport. A
    /// zero-length chunk is the peer closing before a full header arrived
    /// and leaves the reader unchanged; otherwise the chunk is appended
    /// whole and the reader reports whether the buffer now holds a complete
    /// header block.
    pub fn on_read(&mut self, chunk: &[u8]) -> (r: ReadStep)
        requires
            old(self).wf(),
        ensures
            final(self).wf(),
            r is Closed <==> chunk@.len() == 0,
            chunk@.len() == 0 ==> *final(self) == *old(self),
            chunk@.len() > 0 ==> final(self).buffered() == old(self).buffered() + chunk@
                && final(self).chunk_history() == old(self).chunk_history().push(chunk@),
            r is Complete <==> chunk@.len() > 0 && spec_complete(final(self).buffered()),
            r is NeedMore <==> chunk@.len() > 0 && !spec_complete(final(self).buffered()),
    {
        if chunk.len() == 0 {
            return ReadStep::Closed;
        }
        crate::bytes::push_bytes(&mut self.buf, chunk);
        proof {
            let cs = self.chunks@.push(chunk@);
            assert(cs.drop_last() =~= self.chunks@);
            assert(concat_chunks(cs) == concat_chunks(self.chunks@) + chunk@);
        }
        self.chunks = Ghost(self.chunks@.push(chunk@));
        if crate::headers::is_complete(self.buf.as_slice()) {
            ReadStep::Complete
        } else {
            ReadStep::NeedMore
        }
    }

    /// Finishes reading a request header: parses the complete block and
    /// hands back the parsed header together with every byte read so far.
    /// Malformed bytes are a parse error.
    pub fn finish_request(self) -> (r: Result<(RequestHeader, Vec<u8>), LbError>)
        requires
            spec_complete(self.buffered()),
        ensures
            r is Ok <==> spec_parse_request(self.buffered()) is Some,
            match r {
                Ok(p) => spec_parse_request(self.buffered()) == Some(p.0@) && p.1@
                    == self.buffered(),
                Err(e) => e == LbError::ParseError && spec_parse_request(self.buffered()) is None,
            },
    {
        match parse_request_header(self.buf.as_slice()) {
            ParseOutcome::Done(h) => Ok((h, self.buf)),
            ParseOutcome::Malformed => Err(LbError::ParseError),
            ParseOutcome::Incomplete => {
                proof {
                    assert(false);
                }
                Err(LbError::ParseError)
            },
        }
    }

    /// Finishes reading a response header, as `finish_request` does for
    /// requests; the status line is kept only as raw bytes.
    pub fn finish_response(self) -> (r: Result<(ResponseHeader, Vec<u8>), LbError>)
        requires
            spec_complete(self.buffered()),
        ensures
            r is Ok <==> spec_parse_response(self.buffered()) is Some,
            match r {
                Ok(p) => spec_parse_response(self.buffered()) == Some(p.0@) && p.1@
                    == self.buffered(),
                Err(e) => e == LbError::ParseError && spec_parse_response(self.buffered()) is None,
            },
    {
        match parse_response_header(self.buf.as_slice()) {
            ParseOutcome::Done(h) => Ok((h, self.buf)),
            ParseOutcome::Malformed => Err(LbError::ParseError),
            ParseOutcome::Incomplete => {
                proof {
                    assert(false);
                }
                Err(LbError::ParseError)
            },
        }
    }
}

/// Transport fragmentation independence: two readers fed chunk sequences
/// that carry the same bytes — however differently split, one byte at a
/// time or all at once — hold the same buffer, agree on completeness, and
/// parse to the identical header.
pub proof fn lemma_fragmentation_independent(r1: HeaderReader, r2: HeaderReader)
    requires
        r1.wf(),
        r2.wf(),
        concat_chunks(r1.chunk_history()) == concat_chunks(r2.chunk_history()),
    ensures
        r1.buffered() == r2.buffered(),
        spec_complete(r1.buffered()) == spec_complete(r2.buffered()),
        spec_parse_request(r1.buffered()) == spec_parse_request(r2.buffered()),
        spec_parse_response(r1.buffered()) == spec_parse_response(r2.buffered()),
{
}

} // verus!

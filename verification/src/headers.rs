//! HTTP/1.1 header block parsing on raw bytes.
//!
//! A header block is complete once the byte stream holds the first empty
//! line, that is the four bytes `\r\n\r\n`. The block splits into lines at
//! `\r\n`; the first line is the request line (or the status line, which is
//! not interpreted further), every following line is `name: value` with the
//! value trimmed of surrounding whitespace. Session ids are the value of the
//! first `sessionID=` cookie found in a header of a given name, per the
//! `Cookie` grammar: the value splits at `;`, each piece is trimmed, and the
//! piece's text before its first `=` must equal `sessionID` exactly.

use vstd::prelude::*;
use vstd::string::StringSliceAdditionalSpecFns;

use crate::{ascii_bytes, str_bytes};
use crate::bytes::{
    bytes_eq, find_pattern_from, first_match, seq_lower, eq_ignore_ascii_case, subvec,
    trim, trim_bytes, lemma_first_match,
};

verus! {

/// The two bytes that end a header line.
pub open spec fn crlf() -> Seq<u8> {
    seq![13u8, 10u8]
}

/// The four bytes that end a header block.
pub open spec fn crlfcrlf() -> Seq<u8> {
    seq![13u8, 10u8, 13u8, 10u8]
}

/// True once the accumulated bytes hold a complete header block.
pub open spec fn spec_complete(buf: Seq<u8>) -> bool {
    first_match(buf, crlfcrlf()) < buf.len()
}

/// The header block's lines: the bytes before the first `\r\n\r\n`, split at
/// every `\r\n`. Always holds at least one element.
pub open spec fn header_lines(buf: Seq<u8>) -> Seq<Seq<u8>> {
    split_crlf(buf.subrange(0, first_match(buf, crlfcrlf())))
}

/// Splits `s` at each `\r\n`, keeping every piece (none of which holds `\r\n`).
pub open spec fn split_crlf(s: Seq<u8>) -> Seq<Seq<u8>>
    decreases s.len(),
    via split_crlf_decreases
{
    let m = first_match(s, crlf());
    if m == s.len() {
        seq![s]
    } else {
        seq![s.subrange(0, m)] + split_crlf(s.subrange(m + 2, s.len() as int))
    }
}

#[via_fn]
proof fn split_crlf_decreases(s: Seq<u8>) {
    lemma_first_match(s, crlf());
}

/// One `name: value` header line: the name is the text before the first
/// colon, the value the rest with surrounding whitespace removed. A line
/// without a colon is malformed.
pub open spec fn spec_parse_header_line(line: Seq<u8>) -> Option<(Seq<u8>, Seq<u8>)> {
    let c = first_match(line, seq![58u8]);
    if c == line.len() {
        None
    } else {
        Some((line.subrange(0, c), trim(line.subrange(c + 1, line.len() as int))))
    }
}

/// All header lines in order; `None` as soon as one is malformed.
pub open spec fn spec_parse_header_list(lines: Seq<Seq<u8>>) -> Option<Seq<(Seq<u8>, Seq<u8>)>>
    decreases lines.len(),
{
    if lines.len() == 0 {
        Some(Seq::empty())
    } else {
        match spec_parse_header_line(lines[0]) {
            None => None,
            Some(p) => match spec_parse_header_list(lines.drop_first()) {
                None => None,
                Some(r) => Some(seq![p] + r),
            },
        }
    }
}

/// The request line `method SP target SP version`: all three parts nonempty,
/// the target everything between the first two spaces.
pub open spec fn spec_parse_request_line(line: Seq<u8>) -> Option<(Seq<u8>, Seq<u8>)> {
    let sp1 = first_match(line, seq![32u8]);
    if sp1 == line.len() {
        None
    } else {
        let rest = line.subrange(sp1 + 1, line.len() as int);
        let sp2 = first_match(rest, seq![32u8]);
        if sp2 == rest.len() {
            None
        } else {
            let method = line.subrange(0, sp1);
            let target = rest.subrange(0, sp2);
            let version = rest.subrange(sp2 + 1, rest.len() as int);
            if method.len() > 0 && target.len() > 0 && version.len() > 0 {
                Some((method, target))
            } else {
                None
            }
        }
    }
}

/// The path component of a request target: everything before the first `?`.
pub open spec fn spec_path_of(target: Seq<u8>) -> Seq<u8> {
    target.subrange(0, first_match(target, seq![63u8]))
}

/// What a parsed request header denotes.
pub ghost struct ReqView {
    pub method: Seq<u8>,
    pub path: Seq<u8>,
    pub headers: Seq<(Seq<u8>, Seq<u8>)>,
}

/// What a parsed response header denotes.
pub ghost struct RespView {
    pub headers: Seq<(Seq<u8>, Seq<u8>)>,
}

/// Parses a complete request header block out of `buf`.
pub open spec fn spec_parse_request(buf: Seq<u8>) -> Option<ReqView> {
    let lines = header_lines(buf);
    match spec_parse_request_line(lines[0]) {
        None => None,
        Some((m, t)) => match spec_parse_header_list(lines.drop_first()) {
            None => None,
            Some(hs) => Some(ReqView { method: m, path: spec_path_of(t), headers: hs }),
        },
    }
}

/// Parses a complete response header block out of `buf`. The status line is
/// kept only as raw bytes in the stream and not interpreted.
pub open spec fn spec_parse_response(buf: Seq<u8>) -> Option<RespView> {
    let lines = header_lines(buf);
    match spec_parse_header_list(lines.drop_first()) {
        None => None,
        Some(hs) => Some(RespView { headers: hs }),
    }
}

/// The session id carried by one cookie piece, if any: the piece is trimmed,
/// its text before the first `=` must equal `sessionID`, and the value after
/// the `=` is returned trimmed.
pub open spec fn spec_sid_in_cookie(c: Seq<u8>) -> Option<Seq<u8>> {
    let t = trim(c);
    let e = first_match(t, seq![61u8]);
    if e < t.len() && t.subrange(0, e) == ascii_bytes("sessionID"@) {
        Some(trim(t.subrange(e + 1, t.len() as int)))
    } else {
        None
    }
}

/// The session id in one header value: the value splits at `;` and the first
/// piece that carries a `sessionID=` cookie wins.
pub open spec fn spec_sid_in_value(v: Seq<u8>) -> Option<Seq<u8>>
    decreases v.len(),
    via spec_sid_in_value_decreases
{
    let m = first_match(v, seq![59u8]);
    match spec_sid_in_cookie(v.subrange(0, m)) {
        Some(x) => Some(x),
        None => if m < v.len() {
            spec_sid_in_value(v.subrange(m + 1, v.len() as int))
        } else {
            None
        },
    }
}

#[via_fn]
proof fn spec_sid_in_value_decreases(v: Seq<u8>) {
    lemma_first_match(v, seq![59u8]);
}

/// The session id over a whole header list: headers are searched in order,
/// names compare equal up to ASCII case, and the first header of the given
/// name whose value carries a `sessionID=` cookie decides.
pub open spec fn spec_session_id(headers: Seq<(Seq<u8>, Seq<u8>)>, name: Seq<u8>) -> Option<
    Seq<u8>,
>
    decreases headers.len(),
{
    if headers.len() == 0 {
        None
    } else if seq_lower(headers[0].0) == seq_lower(name) {
        match spec_sid_in_value(headers[0].1) {
            Some(x) => Some(x),
            None => spec_session_id(headers.drop_first(), name),
        }
    } else {
        spec_session_id(headers.drop_first(), name)
    }
}

/// The mathematical reading of a header list held in exec vectors.
pub open spec fn pairs_view(s: Seq<(Vec<u8>, Vec<u8>)>) -> Seq<(Seq<u8>, Seq<u8>)> {
    Seq::new(s.len(), |i: int| (s[i].0@, s[i].1@))
}

/// A parsed HTTP request header: the method, the path of the request target,
/// and all header fields in order.
#[derive(Debug)]
pub struct RequestHeader {
    pub method: Vec<u8>,
    pub path: Vec<u8>,
    pub headers: Vec<(Vec<u8>, Vec<u8>)>,
}

impl View for RequestHeader {
    type V = ReqView;

    open spec fn view(&self) -> ReqView {
        ReqView { method: self.method@, path: self.path@, headers: pairs_view(self.headers@) }
    }
}

/// A parsed HTTP response header: its header fields in order.
#[derive(Debug)]
pub struct ResponseHeader {
    pub headers: Vec<(Vec<u8>, Vec<u8>)>,
}

impl View for ResponseHeader {
    type V = RespView;

    open spec fn view(&self) -> RespView {
        RespView { headers: pairs_view(self.headers@) }
    }
}

/// What one attempt to parse an accumulated byte buffer reports: keep
/// reading, give up on malformed bytes, or hand out the parsed header.
pub enum ParseOutcome<T> {
    Incomplete,
    Malformed,
    Done(T),
}

/// The mathematical reading of a line list held in exec vectors.
pub open spec fn vecs_view(s: Seq<Vec<u8>>) -> Seq<Seq<u8>> {
    Seq::new(s.len(), |i: int| s[i]@)
}

fn byte_pat(b: u8) -> (r: Vec<u8>)
    ensures
        r@ == seq![b],
{
    let mut v: Vec<u8> = Vec::new();
    v.push(b);
    proof {
        assert(v@ =~= seq![b]);
    }
    v
}

fn crlf_bytes() -> (r: Vec<u8>)
    ensures
        r@ == crlf(),
{
    let mut v: Vec<u8> = Vec::new();
    v.push(13);
    v.push(10);
    proof {
        assert(v@ =~= crlf());
    }
    v
}

fn crlfcrlf_bytes() -> (r: Vec<u8>)
    ensures
        r@ == crlfcrlf(),
{
    let mut v: Vec<u8> = Vec::new();
    v.push(13);
    v.push(10);
    v.push(13);
    v.push(10);
    proof {
        assert(v@ =~= crlfcrlf());
    }
    v
}

proof fn lemma_split_crlf_nonempty(s: Seq<u8>)
    ensures
        split_crlf(s).len() >= 1,
{
    let m = first_match(s, crlf());
    if m == s.len() {
        assert(split_crlf(s) == seq![s]);
    }
}

/// Checks whether the accumulated bytes hold a complete header block.
pub fn is_complete(buf: &[u8]) -> (r: bool)
    ensures
        r == spec_complete(buf@),
{
    let term = crlfcrlf_bytes();
    let t = find_pattern_from(buf, term.as_slice(), 0);
    proof {
        assert(buf@.skip(0) =~= buf@);
        lemma_first_match(buf@, crlfcrlf());
    }
    t < buf.len()
}

/// Splits `buf` at every `\r\n`, as `split_crlf` describes.
fn split_crlf_exec(s: &[u8]) -> (r: Vec<Vec<u8>>)
    ensures
        vecs_view(r@) == split_crlf(s@),
{
    let pat = crlf_bytes();
    let mut r: Vec<Vec<u8>> = Vec::new();
    let mut pos: usize = 0;
    proof {
        assert(s@.skip(0) =~= s@);
        assert(vecs_view(r@) + split_crlf(s@) =~= split_crlf(s@));
    }
    loop
        invariant
            pos <= s@.len(),
            pat@ == crlf(),
            split_crlf(s@) == vecs_view(r@) + split_crlf(s@.skip(pos as int)),
        decreases s@.len() - pos,
    {
        let ghost suf = s@.skip(pos as int);
        let ghost mrel = first_match(suf, crlf());
        proof {
            lemma_first_match(suf, crlf());
        }
        let m = find_pattern_from(s, pat.as_slice(), pos);
        if m == s.len() {
            let piece = subvec(s, pos, s.len());
            proof {
                assert(mrel == suf.len());
                assert(split_crlf(suf) == seq![suf]);
                assert(piece@ =~= suf);
                assert(vecs_view(r@.push(piece)) =~= vecs_view(r@) + seq![piece@]);
                assert(vecs_view(r@) + seq![suf] =~= split_crlf(s@));
            }
            r.push(piece);
            proof {
                assert(vecs_view(r@) =~= split_crlf(s@));
            }
            return r;
        }
        let piece = subvec(s, pos, m);
        proof {
            assert(mrel < suf.len());
            assert(split_crlf(suf) == seq![suf.subrange(0, mrel)] + split_crlf(
                suf.subrange(mrel + 2, suf.len() as int),
            ));
            assert(piece@ =~= suf.subrange(0, mrel));
            assert(suf.subrange(mrel + 2, suf.len() as int) =~= s@.skip(m + 2));
            assert(vecs_view(r@.push(piece)) =~= vecs_view(r@) + seq![piece@]);
            assert(vecs_view(r@) + (seq![piece@] + split_crlf(s@.skip(m + 2))) =~= (vecs_view(r@)
                + seq![piece@]) + split_crlf(s@.skip(m + 2)));
        }
        r.push(piece);
        pos = m + 2;
    }
}

/// Parses one `name: value` line, as `spec_parse_header_line` describes.
fn parse_header_line_exec(line: &[u8]) -> (r: Option<(Vec<u8>, Vec<u8>)>)
    ensures
        match spec_parse_header_line(line@) {
            None => r is None,
            Some(p) => r matches Some(q) && q.0@ == p.0 && q.1@ == p.1,
        },
{
    let colon = byte_pat(58);
    let c = find_pattern_from(line, colon.as_slice(), 0);
    proof {
        assert(line@.skip(0) =~= line@);
        lemma_first_match(line@, seq![58u8]);
    }
    if c == line.len() {
        None
    } else {
        let name = subvec(line, 0, c);
        let value = trim_bytes(subvec(line, c + 1, line.len()).as_slice());
        Some((name, value))
    }
}

spec fn extend_parsed(
    prefix: Seq<(Seq<u8>, Seq<u8>)>,
    rest: Option<Seq<(Seq<u8>, Seq<u8>)>>,
) -> Option<Seq<(Seq<u8>, Seq<u8>)>> {
    match rest {
        None => None,
        Some(r) => Some(prefix + r),
    }
}

/// Parses the header lines `lines[start..]`, as `spec_parse_header_list`
/// describes.
fn parse_header_lines_exec(lines: &Vec<Vec<u8>>, start: usize) -> (r: Option<
    Vec<(Vec<u8>, Vec<u8>)>,
>)
    requires
        start <= lines@.len(),
    ensures
        match r {
            Some(h) => spec_parse_header_list(vecs_view(lines@).skip(start as int)) == Some(
                pairs_view(h@),
            ),
            None => spec_parse_header_list(vecs_view(lines@).skip(start as int)) is None,
        },
{
    let ghost lv = vecs_view(lines@);
    let mut acc: Vec<(Vec<u8>, Vec<u8>)> = Vec::new();
    let mut i: usize = start;
    proof {
        assert(pairs_view(acc@) =~= Seq::<(Seq<u8>, Seq<u8>)>::empty());
        assert(spec_parse_header_list(lv.skip(start as int)) == extend_parsed(
            pairs_view(acc@),
            spec_parse_header_list(lv.skip(start as int)),
        ));
    }
    while i < lines.len()
        invariant
            start <= i <= lines@.len(),
            lv == vecs_view(lines@),
            spec_parse_header_list(lv.skip(start as int)) == extend_parsed(
                pairs_view(acc@),
                spec_parse_header_list(lv.skip(i as int)),
            ),
        decreases lines@.len() - i,
    {
        let ghost tail = lv.skip(i as int);
        proof {
            assert(tail.len() > 0);
            assert(tail[0] == lines@[i as int]@);
            assert(tail.drop_first() =~= lv.skip(i + 1));
        }
        match parse_header_line_exec(lines[i].as_slice()) {
            None => {
                proof {
                    assert(spec_parse_header_list(tail) is None);
                }
                return None;
            },
            Some(p) => {
                let ghost pv = (p.0@, p.1@);
                proof {
                    assert(spec_parse_header_list(tail) == match spec_parse_header_list(
                        tail.drop_first(),
                    ) {
                        None => None,
                        Some(r) => Some(seq![pv] + r),
                    });
                    assert(pairs_view(acc@.push(p)) =~= pairs_view(acc@) + seq![pv]);
                    if spec_parse_header_list(lv.skip(i + 1)) is Some {
                        let rest = spec_parse_header_list(lv.skip(i + 1)).unwrap();
                        assert(pairs_view(acc@) + (seq![pv] + rest) =~= (pairs_view(acc@)
                            + seq![pv]) + rest);
                    }
                }
                acc.push(p);
            },
        }
        i += 1;
    }
    proof {
        assert(lv.skip(lines@.len() as int) =~= Seq::<Seq<u8>>::empty());
        assert(spec_parse_header_list(Seq::<Seq<u8>>::empty()) == Some(
            Seq::<(Seq<u8>, Seq<u8>)>::empty(),
        ));
        assert(pairs_view(acc@) + Seq::<(Seq<u8>, Seq<u8>)>::empty() =~= pairs_view(acc@));
    }
    Some(acc)
}

/// Parses the request line, as `spec_parse_request_line` describes; returns
/// the method and the raw target.
fn parse_request_line_exec(line: &[u8]) -> (r: Option<(Vec<u8>, Vec<u8>)>)
    ensures
        match spec_parse_request_line(line@) {
            None => r is None,
            Some(p) => r matches Some(q) && q.0@ == p.0 && q.1@ == p.1,
        },
{
    let sp = byte_pat(32);
    let sp1 = find_pattern_from(line, sp.as_slice(), 0);
    proof {
        assert(line@.skip(0) =~= line@);
        lemma_first_match(line@, seq![32u8]);
    }
    if sp1 == line.len() {
        return None;
    }
    let rest = subvec(line, sp1 + 1, line.len());
    let ghost rest_s = line@.subrange(sp1 + 1, line@.len() as int);
    let sp2 = find_pattern_from(rest.as_slice(), sp.as_slice(), 0);
    proof {
        assert(rest@.skip(0) =~= rest@);
        lemma_first_match(rest@, seq![32u8]);
    }
    if sp2 == rest.len() {
        return None;
    }
    let method = subvec(line, 0, sp1);
    let target = subvec(rest.as_slice(), 0, sp2);
    if method.len() > 0 && target.len() > 0 && rest.len() - sp2 > 1 {
        proof {
            assert(rest_s.subrange(sp2 + 1, rest_s.len() as int).len() > 0);
        }
        Some((method, target))
    } else {
        None
    }
}

/// Extracts the path from a request target, as `spec_path_of` describes.
fn path_of_exec(target: &[u8]) -> (r: Vec<u8>)
    ensures
        r@ == spec_path_of(target@),
{
    let q = byte_pat(63);
    let p = find_pattern_from(target, q.as_slice(), 0);
    proof {
        assert(target@.skip(0) =~= target@);
        lemma_first_match(target@, seq![63u8]);
    }
    subvec(target, 0, p)
}

/// Attempts to parse a complete HTTP request header out of the bytes read
/// so far. Reports `Incomplete` exactly while no `\r\n\r\n` has arrived,
/// `Malformed` exactly when the complete block does not parse, and otherwise
/// hands out the parsed header.
pub fn parse_request_header(buf: &[u8]) -> (r: ParseOutcome<RequestHeader>)
    ensures
        r is Incomplete <==> !spec_complete(buf@),
        r is Malformed <==> spec_complete(buf@) && spec_parse_request(buf@) is None,
        r matches ParseOutcome::Done(h) ==> spec_complete(buf@) && spec_parse_request(buf@)
            == Some(h@),
        r is Done <==> spec_complete(buf@) && spec_parse_request(buf@) is Some,
{
    let term = crlfcrlf_bytes();
    let t = find_pattern_from(buf, term.as_slice(), 0);
    proof {
        assert(buf@.skip(0) =~= buf@);
        lemma_first_match(buf@, crlfcrlf());
    }
    if t == buf.len() {
        return ParseOutcome::Incomplete;
    }
    let head = subvec(buf, 0, t);
    let lines = split_crlf_exec(head.as_slice());
    proof {
        lemma_split_crlf_nonempty(head@);
        assert(vecs_view(lines@) == header_lines(buf@));
        assert(lines@[0]@ == header_lines(buf@)[0]);
        assert(vecs_view(lines@).skip(1) =~= header_lines(buf@).drop_first());
    }
    let first = match parse_request_line_exec(lines[0].as_slice()) {
        None => {
            return ParseOutcome::Malformed;
        },
        Some(p) => p,
    };
    let hs = match parse_header_lines_exec(&lines, 1) {
        None => {
            return ParseOutcome::Malformed;
        },
        Some(h) => h,
    };
    let path = path_of_exec(first.1.as_slice());
    let h = RequestHeader { method: first.0, path, headers: hs };
    ParseOutcome::Done(h)
}

/// Attempts to parse a complete HTTP response header out of the bytes read
/// so far, in the same way as `parse_request_header`; the status line is not
/// interpreted.
pub fn parse_response_header(buf: &[u8]) -> (r: ParseOutcome<ResponseHeader>)
    ensures
        r is Incomplete <==> !spec_complete(buf@),
        r is Malformed <==> spec_complete(buf@) && spec_parse_response(buf@) is None,
        r matches ParseOutcome::Done(h) ==> spec_complete(buf@) && spec_parse_response(buf@)
            == Some(h@),
        r is Done <==> spec_complete(buf@) && spec_parse_response(buf@) is Some,
{
    let term = crlfcrlf_bytes();
    let t = find_pattern_from(buf, term.as_slice(), 0);
    proof {
        assert(buf@.skip(0) =~= buf@);
        lemma_first_match(buf@, crlfcrlf());
    }
    if t == buf.len() {
        return ParseOutcome::Incomplete;
    }
    let head = subvec(buf, 0, t);
    let lines = split_crlf_exec(head.as_slice());
    proof {
        lemma_split_crlf_nonempty(head@);
        assert(vecs_view(lines@) == header_lines(buf@));
        assert(vecs_view(lines@).skip(1) =~= header_lines(buf@).drop_first());
    }
    let hs = match parse_header_lines_exec(&lines, 1) {
        None => {
            return ParseOutcome::Malformed;
        },
        Some(h) => h,
    };
    ParseOutcome::Done(ResponseHeader { headers: hs })
}

/// Looks for a `sessionID=` cookie in one trimmed cookie piece, as
/// `spec_sid_in_cookie` describes.
fn sid_in_cookie_exec(c: &[u8]) -> (r: Option<Vec<u8>>)
    ensures
        match spec_sid_in_cookie(c@) {
            None => r is None,
            Some(x) => r matches Some(v) && v@ == x,
        },
{
    let t = trim_bytes(c);
    let eq = byte_pat(61);
    let e = find_pattern_from(t.as_slice(), eq.as_slice(), 0);
    proof {
        assert(t@.skip(0) =~= t@);
        lemma_first_match(t@, seq![61u8]);
    }
    if e == t.len() {
        return None;
    }
    let name = subvec(t.as_slice(), 0, e);
    proof {
        reveal_strlit("sessionID");
        assert(vstd::string::is_ascii("sessionID"));
    }
    if bytes_eq(name.as_slice(), str_bytes("sessionID")) {
        Some(trim_bytes(subvec(t.as_slice(), e + 1, t.len()).as_slice()))
    } else {
        None
    }
}

/// Looks for a `sessionID=` cookie in one header value, as
/// `spec_sid_in_value` describes.
fn sid_in_value_exec(v: &[u8]) -> (r: Option<Vec<u8>>)
    ensures
        match spec_sid_in_value(v@) {
            None => r is None,
            Some(x) => r matches Some(w) && w@ == x,
        },
{
    let semi = byte_pat(59);
    let mut pos: usize = 0;
    proof {
        assert(v@.skip(0) =~= v@);
    }
    loop
        invariant
            pos <= v@.len(),
            semi@ == seq![59u8],
            spec_sid_in_value(v@) == spec_sid_in_value(v@.skip(pos as int)),
        decreases v@.len() - pos,
    {
        let ghost suf = v@.skip(pos as int);
        let ghost mrel = first_match(suf, seq![59u8]);
        proof {
            lemma_first_match(suf, seq![59u8]);
        }
        let m = find_pattern_from(v, semi.as_slice(), pos);
        let piece = subvec(v, pos, m);
        proof {
            assert(piece@ =~= suf.subrange(0, mrel));
        }
        match sid_in_cookie_exec(piece.as_slice()) {
            Some(x) => {
                proof {
                    assert(spec_sid_in_value(suf) == Some(spec_sid_in_cookie(piece@).unwrap()));
                }
                return Some(x);
            },
            None => {
                if m == v.len() {
                    proof {
                        assert(mrel == suf.len());
                        assert(spec_sid_in_value(suf) is None);
                    }
                    return None;
                }
                proof {
                    assert(mrel < suf.len());
                    assert(suf.subrange(mrel + 1, suf.len() as int) =~= v@.skip(m + 1));
                    assert(spec_sid_in_value(suf) == spec_sid_in_value(v@.skip(m + 1)));
                }
                pos = m + 1;
            },
        }
    }
}

/// Extracts the session ID from a parsed header list.
///
/// `header_name` picks the header to search, usually `Cookie` or
/// `Set-Cookie`; names compare equal up to ASCII case. The result is what
/// `spec_session_id` names: the first `sessionID=` cookie in those headers,
/// in order.
pub fn get_session_id(headers: &Vec<(Vec<u8>, Vec<u8>)>, header_name: &str) -> (r: Option<
    Vec<u8>,
>)
    ensures
        match spec_session_id(pairs_view(headers@), header_name.spec_bytes()) {
            None => r is None,
            Some(x) => r matches Some(v) && v@ == x,
        },
{
    let ghost pv = pairs_view(headers@);
    let ghost nb = header_name.spec_bytes();
    let name_bytes = header_name.as_bytes();
    let mut i: usize = 0;
    proof {
        assert(pv.skip(0) =~= pv);
    }
    while i < headers.len()
        invariant
            i <= headers@.len(),
            pv == pairs_view(headers@),
            nb == header_name.spec_bytes(),
            name_bytes@ == nb,
            spec_session_id(pv, nb) == spec_session_id(pv.skip(i as int), nb),
        decreases headers@.len() - i,
    {
        let ghost tail = pv.skip(i as int);
        proof {
            assert(tail.len() > 0);
            assert(tail[0] == (headers@[i as int].0@, headers@[i as int].1@));
            assert(tail.drop_first() =~= pv.skip(i + 1));
        }
        if eq_ignore_ascii_case(headers[i].0.as_slice(), name_bytes) {
            match sid_in_value_exec(headers[i].1.as_slice()) {
                Some(x) => {
                    return Some(x);
                },
                None => {},
            }
        }
        i += 1;
    }
    proof {
        assert(pv.skip(headers@.len() as int) =~= Seq::<(Seq<u8>, Seq<u8>)>::empty());
    }
    None
}

} // verus!

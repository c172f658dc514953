//! Recognising the protocol of a connection from its first bytes, with all
//! of them at hand.
pub mod http_1;

use vstd::prelude::*;
use vstd::utf8::*;
use crate::error::ErrorKind;
use crate::grammar::{
    bit_at, bit_end, byte_at, byte_complete, byte_end, crlf_at, crlf_bytes, first_stop, find_stop,
    is_not_at, is_not_complete, is_not_end, lemma_first_stop, tag_at, tag_complete, tag_end, Outcome,
    Stop,
};
use crate::parse::http1::{
    lit_delete, lit_get, lit_http1, lit_post, lit_put, method_name, Method, RawRequestLine, Version,
};
use crate::io::extend_bytes;
use crate::text::utf8_string;

verus! {

/// Protocols that a first packet can reveal.
#[allow(non_camel_case_types)]
#[derive(Clone, Copy, Debug, PartialEq, Eq, Structural)]
pub enum Protocol {
    HTTP_1,
    REDIS,
    MYSQL,
}

/// What the request line of an HTTP request says.
#[derive(Debug, PartialEq, Eq)]
pub struct HttpRequestInfo {
    pub method: Method,
    pub uri: String,
    pub version: Version,
}

/// Tries a literal; when it is absent, the alternative decides.
pub open spec fn tag_then<V>(r: Option<int>, v: V, otherwise: Option<(int, V)>) -> Option<(int, V)> {
    match r {
        Some(q) => Some((q, v)),
        None => otherwise,
    }
}

/// One of GET, POST, PUT, DELETE at the start of `s`.
pub open spec fn http_method_end(s: Seq<u8>) -> Option<(int, Method)> {
    tag_then(
        tag_end(s, 0, lit_get()),
        Method::GET,
        tag_then(
            tag_end(s, 0, lit_post()),
            Method::POST,
            tag_then(
                tag_end(s, 0, lit_put()),
                Method::PUT,
                tag_then(tag_end(s, 0, lit_delete()), Method::DELETE, None),
            ),
        ),
    )
}

/// `METHOD SP target SP HTTP/1.x CRLF` at the start of `s`, the target being
/// one or more bytes other than space, CR and LF.
pub open spec fn http_request_end(s: Seq<u8>) -> Option<RawRequestLine> {
    match http_method_end(s) {
        Some((p1, m)) => match byte_end(s, p1, 0x20) {
            Some(p2) => match is_not_end(s, p2, Stop::SpaceOrLineEnd) {
                Some(p3) => match byte_end(s, p3, 0x20) {
                    Some(p4) => match tag_end(s, p4, lit_http1()) {
                        Some(p5) => match bit_end(s, p5) {
                            Some((p6, b)) => match tag_end(s, p6, crlf_bytes()) {
                                Some(_) => Some(
                                    RawRequestLine {
                                        method: m,
                                        uri: s.subrange(p2, p3),
                                        version: if b == 0x30 {
                                            Version::HTTP_10
                                        } else {
                                            Version::HTTP_11
                                        },
                                    },
                                ),
                                None => None,
                            },
                            None => None,
                        },
                        None => None,
                    },
                    None => None,
                },
                None => None,
            },
            None => None,
        },
        None => None,
    }
}

/// The target of a recognised request line is valid UTF-8.
pub open spec fn http_target_decodable(s: Seq<u8>) -> bool {
    http_request_end(s) matches Some(l) ==> valid_utf8(l.uri)
}

/// `\r\nX-Test: Fuck`, the header line inserted into a recognised request.
pub open spec fn test_header() -> Seq<u8> {
    seq![
        0x0du8, 0x0a, 0x58, 0x2d, 0x54, 0x65, 0x73, 0x74, 0x3a, 0x20, 0x46, 0x75, 0x63, 0x6b,
    ]
}

/// The request with the test header inserted before its first carriage
/// return, or nothing when it has none.
pub open spec fn marked_request(s: Seq<u8>) -> Seq<u8> {
    let i = first_stop(s, 0, Stop::Cr);
    if i < s.len() {
        s.subrange(0, i) + test_header() + s.subrange(i, s.len() as int)
    } else {
        Seq::empty()
    }
}

/// Which protocol the first bytes announce: an HTTP method (GET, POST, PUT,
/// DELETE), a `*` (Redis) or a line feed (MySQL).
pub open spec fn protocol_with_term(s: Seq<u8>) -> Option<Protocol> {
    if http_method_end(s) is Some {
        Some(Protocol::HTTP_1)
    } else if tag_end(s, 0, seq![0x2au8]) is Some {
        Some(Protocol::REDIS)
    } else if tag_end(s, 0, seq![0x0au8]) is Some {
        Some(Protocol::MYSQL)
    } else {
        None
    }
}

fn http_method(s: &[u8]) -> (r: Option<(usize, Method)>)
    ensures
        match http_method_end(s@) {
            Some((q, m)) => r matches Some((x, m2)) && x == q && m2 == m && q <= s@.len(),
            None => r is None,
        },
{
    let get: [u8; 3] = [0x47, 0x45, 0x54];
    let post: [u8; 4] = [0x50, 0x4f, 0x53, 0x54];
    let put: [u8; 3] = [0x50, 0x55, 0x54];
    let delete: [u8; 6] = [0x44, 0x45, 0x4c, 0x45, 0x54, 0x45];
    assert(get@ =~= lit_get());
    assert(post@ =~= lit_post());
    assert(put@ =~= lit_put());
    assert(delete@ =~= lit_delete());
    if let Some(q) = tag_complete(s, 0, &get) {
        return Some((q, Method::GET));
    }
    if let Some(q) = tag_complete(s, 0, &post) {
        return Some((q, Method::POST));
    }
    if let Some(q) = tag_complete(s, 0, &put) {
        return Some((q, Method::PUT));
    }
    if let Some(q) = tag_complete(s, 0, &delete) {
        return Some((q, Method::DELETE));
    }
    None
}

/// The request line of `s` with its target given by position.
fn http_request(s: &[u8]) -> (r: Option<(Method, usize, usize, Version)>)
    ensures
        match http_request_end(s@) {
            Some(l) => r matches Some((m, a, b, v)) && m == l.method && v == l.version && a <= b
                <= s@.len() && s@.subrange(a as int, b as int) == l.uri,
            None => r is None,
        },
{
    let (p1, m) = match http_method(s) {
        Some(x) => x,
        None => return None,
    };
    let p2 = match byte_complete(s, p1, 0x20) {
        Some(q) => q,
        None => return None,
    };
    proof {
        lemma_first_stop(s@, p2 as int, Stop::SpaceOrLineEnd);
    }
    let p3 = match is_not_complete(s, p2, Stop::SpaceOrLineEnd) {
        Some(q) => q,
        None => return None,
    };
    let p4 = match byte_complete(s, p3, 0x20) {
        Some(q) => q,
        None => return None,
    };
    let prefix: [u8; 7] = [0x48, 0x54, 0x54, 0x50, 0x2f, 0x31, 0x2e];
    assert(prefix@ =~= lit_http1());
    let p5 = match tag_complete(s, p4, &prefix) {
        Some(q) => q,
        None => return None,
    };
    if !(p5 < s.len() && (s[p5] == 0x30 || s[p5] == 0x31)) {
        return None;
    }
    let v = if s[p5] == 0x30 {
        Version::HTTP_10
    } else {
        Version::HTTP_11
    };
    let line_end: [u8; 2] = [0x0d, 0x0a];
    assert(line_end@ =~= crlf_bytes());
    match tag_complete(s, p5 + 1, &line_end) {
        Some(_) => Some((m, p2, p3, v)),
        None => None,
    }
}

/// Recognises an HTTP request line at the start of `input`.  When there is
/// one, the request with the test header inserted before its first carriage
/// return is appended to `new_input`, and what the line says is returned.
pub fn detect_protocol(input: &[u8], new_input: &mut Vec<u8>) -> (r: Option<HttpRequestInfo>)
    requires
        http_target_decodable(input@),
    ensures
        match http_request_end(input@) {
            Some(l) => r matches Some(info) && info.method == l.method && info.uri@ == decode_utf8(
                l.uri,
            ) && info.version == l.version && final(new_input)@ == old(new_input)@
                + marked_request(input@),
            None => r is None && final(new_input)@ == old(new_input)@,
        },
{
    match http_request(input) {
        Some((method, a, b, version)) => {
            let uri = utf8_string(vstd::slice::slice_subrange(input, a, b));
            proof {
                lemma_first_stop(input@, 0, Stop::Cr);
            }
            let index = find_stop(input, 0, Stop::Cr);
            if index < input.len() {
                let header: [u8; 14] = [
                    0x0d, 0x0a, 0x58, 0x2d, 0x54, 0x65, 0x73, 0x74, 0x3a, 0x20, 0x46, 0x75, 0x63, 0x6b,
                ];
                assert(header@ =~= test_header());
                let ghost before = new_input@;
                extend_bytes(new_input, vstd::slice::slice_subrange(input, 0, index));
                extend_bytes(new_input, &header);
                extend_bytes(new_input, vstd::slice::slice_subrange(input, index, input.len()));
                assert(new_input@ =~= before + marked_request(input@));
            } else {
                assert(marked_request(input@) =~= Seq::<u8>::empty());
                assert(new_input@ =~= old(new_input)@ + marked_request(input@));
            }
            Some(HttpRequestInfo { method, uri, version })
        },
        None => None,
    }
}

/// Whether the target of the request line at the start of `input`, if there
/// is one, is valid UTF-8.
pub fn http_target_applies(input: &[u8]) -> (r: bool)
    ensures
        r == http_target_decodable(input@),
{
    match http_request(input) {
        Some((_, a, b, _)) => crate::text::is_utf8(vstd::slice::slice_subrange(input, a, b)),
        None => true,
    }
}

/// Which protocol the first bytes of a connection announce.
pub fn detect_protocol_with_term(input: &[u8]) -> (r: Option<Protocol>)
    ensures
        r == protocol_with_term(input@),
{
    if http_method(input).is_some() {
        return Some(Protocol::HTTP_1);
    }
    let star: [u8; 1] = [0x2a];
    let line_feed: [u8; 1] = [0x0a];
    assert(star@ =~= seq![0x2au8]);
    assert(line_feed@ =~= seq![0x0au8]);
    if tag_complete(input, 0, &star).is_some() {
        Some(Protocol::REDIS)
    } else if tag_complete(input, 0, &line_feed).is_some() {
        Some(Protocol::MYSQL)
    } else {
        None
    }
}

/// Whether `s` begins with the literal `lit`.
proof fn lemma_tag_end_prefix(s: Seq<u8>, lit: Seq<u8>)
    ensures
        tag_end(s, 0, lit) is Some <==> lit.is_prefix_of(s),
{
    if lit.is_prefix_of(s) {
        assert(s.subrange(0, lit.len() as int) =~= lit);
    }
    if tag_end(s, 0, lit) is Some {
        assert(lit =~= s.subrange(0, lit.len() as int));
    }
}

/// The protocol named by the first bytes of a connection: HTTP/1 exactly
/// when they begin with the name of one of the methods GET, POST, PUT and
/// DELETE; otherwise Redis when the first byte is `*`, MySQL when it is a
/// line feed, and none else.
pub proof fn lemma_protocol_named(s: Seq<u8>)
    ensures
        protocol_with_term(s) == if method_name(Method::GET).is_prefix_of(s) || method_name(
            Method::POST,
        ).is_prefix_of(s) || method_name(Method::PUT).is_prefix_of(s) || method_name(
            Method::DELETE,
        ).is_prefix_of(s) {
            Some(Protocol::HTTP_1)
        } else if s.len() > 0 && s[0] == 0x2a {
            Some(Protocol::REDIS)
        } else if s.len() > 0 && s[0] == 0x0a {
            Some(Protocol::MYSQL)
        } else {
            None
        },
{
    lemma_tag_end_prefix(s, lit_get());
    lemma_tag_end_prefix(s, lit_post());
    lemma_tag_end_prefix(s, lit_put());
    lemma_tag_end_prefix(s, lit_delete());
    lemma_tag_end_prefix(s, seq![0x2au8]);
    lemma_tag_end_prefix(s, seq![0x0au8]);
    assert(method_name(Method::GET) == lit_get());
    assert(method_name(Method::POST) == lit_post());
    assert(method_name(Method::PUT) == lit_put());
    assert(method_name(Method::DELETE) == lit_delete());
    if s.len() > 0 {
        if s[0] == 0x2a {
            assert(seq![0x2au8] =~= s.subrange(0, 1));
        }
        if seq![0x2au8].is_prefix_of(s) {
            assert(s.subrange(0, 1)[0] == s[0]);
        }
        if s[0] == 0x0a {
            assert(seq![0x0au8] =~= s.subrange(0, 1));
        }
        if seq![0x0au8].is_prefix_of(s) {
            assert(s.subrange(0, 1)[0] == s[0]);
        }
    }
}

/// A request line written by a client, followed by anything, is recognised
/// with the method, target and version written when its method is GET,
/// POST, PUT or DELETE, and not at all when it is HEAD.
pub proof fn lemma_detect_request_round_trip(m: Method, target: Seq<u8>, v: Version, rest: Seq<u8>)
    requires
        crate::parse::http1::plain_target(target),
    ensures
        http_request_end(crate::parse::http1::request_line_bytes(m, target, v) + rest) == if m
            is HEAD {
            None
        } else {
            Some(RawRequestLine { method: m, uri: target, version: v })
        },
{
    let s = crate::parse::http1::request_line_bytes(m, target, v) + rest;
    crate::parse::http1::lemma_request_line_round_trip(m, target, v, rest);
    if m is HEAD {
        assert(s[0] == 0x48u8);
        assert(s.subrange(0, 3)[0] != lit_get()[0]);
        assert(s.subrange(0, 4)[0] != lit_post()[0]);
        assert(s.subrange(0, 3)[0] != lit_put()[0]);
        if s.len() >= 6 {
            assert(s.subrange(0, 6)[0] != lit_delete()[0]);
        }
    } else {
        lemma_detect_agrees_with_parser(s);
    }
}

/// What detection recognises a request line in: input that begins with the
/// written form of the method, target and version it reports, the method
/// being one of GET, POST, PUT and DELETE and the target one or more bytes
/// other than space, CR and LF.
#[verifier::spinoff_prover]
#[verifier::rlimit(40)]
pub proof fn lemma_detect_request_read(s: Seq<u8>)
    ensures
        http_request_end(s) matches Some(l) ==> {
            &&& !(l.method is HEAD)
            &&& crate::parse::http1::plain_target(l.uri)
            &&& crate::parse::http1::request_line_bytes(l.method, l.uri, l.version).is_prefix_of(s)
        },
{
    if let Some(l) = http_request_end(s) {
        let (p1, m) = http_method_end(s)->Some_0;
        let p2 = p1 + 1;
        let p3 = first_stop(s, p2, Stop::SpaceOrLineEnd);
        let p4 = p3 + 1;
        let p5 = p4 + 7;
        let p6 = p5 + 1;
        assert(s.len() >= p6 + 2);
        assert(p1 <= 6);
        let k = ErrorKind::Tag;
        let p = 0int;
        assert(tag_end(s, p, lit_get()) is None ==> tag_at(s, p, lit_get(), k) is Failed);
        assert(tag_end(s, p, lit_post()) is None ==> tag_at(s, p, lit_post(), k) is Failed);
        assert(tag_end(s, p, lit_put()) is None ==> tag_at(s, p, lit_put(), k) is Failed);
        assert(tag_end(s, p, lit_delete()) is None ==> tag_at(s, p, lit_delete(), k) is Failed);
        let o1 = crate::parse::http1::method_at(s, 0);
        assert(o1 == Outcome::Done(p1, m));
        assert(byte_at(s, p1, 0x20) == Outcome::Done(p2, ()));
        assert(is_not_at(s, p2, Stop::SpaceOrLineEnd) == Outcome::Done(p3, ()));
        assert(byte_at(s, p3, 0x20) == Outcome::Done(p4, ()));
        assert(tag_at(s, p4, lit_http1(), k) == Outcome::Done(p5, ()));
        let o5 = crate::parse::http1::version_at(s, p4);
        assert(o5 == Outcome::Done(p6, l.version));
        assert(crlf_at(s, p6) == Outcome::Done(p6 + 2, ()));
        let r = crate::parse::http1::request_line_at(s);
        assert(r == Outcome::Done(p6 + 2, l));
        crate::parse::http1::lemma_request_line_read(s);
        let line = crate::parse::http1::request_line_bytes(l.method, l.uri, l.version);
        assert(line =~= s.subrange(0, line.len() as int));
    }
}

/// The marked request is the request with the test header inserted: taking
/// the header out gives the request back.
pub proof fn lemma_marked_request(s: Seq<u8>)
    requires
        first_stop(s, 0, Stop::Cr) < s.len(),
    ensures
        exists|i: int|
            0 <= i < s.len() && s[i] == 0x0d && #[trigger] marked_request(s) == s.take(i) + test_header()
                + s.skip(i) && s.take(i) + s.skip(i) == s,
{
    lemma_first_stop(s, 0, Stop::Cr);
    let i = first_stop(s, 0, Stop::Cr);
    assert(s.take(i) + s.skip(i) =~= s);
    assert(marked_request(s) =~= s.take(i) + test_header() + s.skip(i));
}

/// Detection and the request parser agree: on input whose request line the
/// stream parser reads completely with a method other than HEAD, detection
/// finds the same method, target and version.
pub proof fn lemma_detect_agrees_with_parser(s: Seq<u8>)
    requires
        crate::parse::http1::request_line_at(s) matches Outcome::Done(_, l) && l.method
            != Method::HEAD,
    ensures
        http_request_end(s) == Some(crate::parse::http1::request_line_at(s)->Done_1),
{
    crate::parse::http1::lemma_request_line_extend(s, Seq::empty());
    let p = 0int;
    assert(tag_at(s, p, lit_get(), ErrorKind::Tag) is Done ==> tag_end(s, p, lit_get()) is Some);
    assert(tag_at(s, p, lit_get(), ErrorKind::Tag) is Failed ==> tag_end(s, p, lit_get()) is None);
    assert(tag_at(s, p, lit_post(), ErrorKind::Tag) is Failed ==> tag_end(s, p, lit_post()) is None);
    assert(tag_at(s, p, lit_put(), ErrorKind::Tag) is Failed ==> tag_end(s, p, lit_put()) is None);
    assert(tag_at(s, p, lit_delete(), ErrorKind::Tag) is Failed ==> tag_end(s, p, lit_delete()) is None);
    if let Outcome::Done(p1, _) = crate::parse::http1::method_at(s, 0) {
        if let Outcome::Done(p2, _) = byte_at(s, p1, 0x20) {
            if let Outcome::Done(p3, _) = is_not_at(s, p2, Stop::SpaceOrLineEnd) {
                if let Outcome::Done(p4, _) = byte_at(s, p3, 0x20) {
                    if let Outcome::Done(p5, _) = tag_at(s, p4, lit_http1(), ErrorKind::Tag) {
                        if let Outcome::Done(p6, _) = bit_at(s, p5) {
                            assert(crlf_at(s, p6) is Done);
                        }
                    }
                }
            }
        }
    }
}

} // verus!

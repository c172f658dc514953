//! HTTP/1 request line, header lines and status line, read as a stream.
use vstd::prelude::*;
use vstd::utf8::*;
use crate::error::ErrorKind;
use crate::grammar::{
    crlf_bytes, first_stop, lemma_first_stop, lemma_first_stop_run, lemma_tag_present,
    lemma_tag_refused, stops,
    bit, bit_at, byte, byte_at, crlf, crlf_at, digits, digits_at, is_not, is_not_at, tag, tag_at,
    lemma_bit_extend, lemma_byte_extend, lemma_crlf_extend, lemma_digits_extend,
    lemma_is_not_extend, lemma_tag_extend, Grammar, Outcome, Step, Stop,
};
use crate::parse::{Protocol, RequestParsedContent, RequestParsedData};
use indexmap::IndexMap;
use crate::text::{all_ascii, ascii_chars, lemma_ascii_utf8, utf8_string};

verus! {

/// Request methods the proxy recognises.
#[allow(non_camel_case_types)]
#[derive(Clone, Copy, Debug, PartialEq, Eq, Structural)]
pub enum Method {
    GET,
    POST,
    PUT,
    DELETE,
    HEAD,
}

impl DeepView for Method {
    type V = Method;

    open spec fn deep_view(&self) -> Method {
        *self
    }
}

/// Protocol versions the proxy recognises.
#[allow(non_camel_case_types)]
#[derive(Clone, Copy, Debug, PartialEq, Eq, Structural)]
pub enum Version {
    HTTP_10,
    HTTP_11,
}

impl DeepView for Version {
    type V = Version;

    open spec fn deep_view(&self) -> Version {
        *self
    }
}

/// The first line of a request.
#[derive(Debug, PartialEq, Eq)]
pub struct RequestBegin {
    pub method: Method,
    pub uri: String,
    pub version: Version,
}

/// Mathematical value of a [`RequestBegin`].
pub struct RequestLine {
    pub method: Method,
    pub uri: Seq<char>,
    pub version: Version,
}

impl DeepView for RequestBegin {
    type V = RequestLine;

    open spec fn deep_view(&self) -> RequestLine {
        RequestLine { method: self.method, uri: self.uri@, version: self.version }
    }
}

/// A request line as bytes: the target is not yet decoded.
pub struct RawRequestLine {
    pub method: Method,
    pub uri: Seq<u8>,
    pub version: Version,
}

pub open spec fn lit_get() -> Seq<u8> {
    seq![0x47u8, 0x45, 0x54]
}

pub open spec fn lit_post() -> Seq<u8> {
    seq![0x50u8, 0x4f, 0x53, 0x54]
}

pub open spec fn lit_put() -> Seq<u8> {
    seq![0x50u8, 0x55, 0x54]
}

pub open spec fn lit_delete() -> Seq<u8> {
    seq![0x44u8, 0x45, 0x4c, 0x45, 0x54, 0x45]
}

pub open spec fn lit_head() -> Seq<u8> {
    seq![0x48u8, 0x45, 0x41, 0x44]
}

/// `HTTP/1.`
pub open spec fn lit_http1() -> Seq<u8> {
    seq![0x48u8, 0x54, 0x54, 0x50, 0x2f, 0x31, 0x2e]
}

/// `: `
pub open spec fn lit_colon_space() -> Seq<u8> {
    seq![0x3au8, 0x20]
}

/// Tries a literal; when it is refused, the alternative decides.
pub open spec fn alt_tag<V>(r: Outcome<()>, v: V, otherwise: Outcome<V>) -> Outcome<V> {
    match r {
        Outcome::Done(q, _) => Outcome::Done(q, v),
        Outcome::Incomplete => Outcome::Incomplete,
        Outcome::Failed(_, _) => otherwise,
    }
}

/// One of the five method names at position `p`, tried in the order GET,
/// POST, PUT, DELETE, HEAD.
pub open spec fn method_at(s: Seq<u8>, p: int) -> Outcome<Method> {
    alt_tag(
        tag_at(s, p, lit_get(), ErrorKind::Tag),
        Method::GET,
        alt_tag(
            tag_at(s, p, lit_post(), ErrorKind::Tag),
            Method::POST,
            alt_tag(
                tag_at(s, p, lit_put(), ErrorKind::Tag),
                Method::PUT,
                alt_tag(
                    tag_at(s, p, lit_delete(), ErrorKind::Tag),
                    Method::DELETE,
                    tag_at(s, p, lit_head(), ErrorKind::Tag).with_value(Method::HEAD),
                ),
            ),
        ),
    )
}

/// `HTTP/1.` followed by `0` or `1`.
pub open spec fn version_at(s: Seq<u8>, p: int) -> Outcome<Version> {
    match tag_at(s, p, lit_http1(), ErrorKind::Tag) {
        Outcome::Done(q, _) => match bit_at(s, q) {
            Outcome::Done(r, b) => Outcome::Done(
                r,
                if b == 0x30 {
                    Version::HTTP_10
                } else {
                    Version::HTTP_11
                },
            ),
            o => o.pass(),
        },
        o => o.pass(),
    }
}

/// `METHOD SP target SP HTTP/1.x CRLF`, where the target is one or more
/// bytes other than space, CR and LF.
pub open spec fn request_line_at(s: Seq<u8>) -> Outcome<RawRequestLine> {
    match method_at(s, 0) {
        Outcome::Done(p1, m) => match byte_at(s, p1, 0x20) {
            Outcome::Done(p2, _) => match is_not_at(s, p2, Stop::SpaceOrLineEnd) {
                Outcome::Done(p3, _) => match byte_at(s, p3, 0x20) {
                    Outcome::Done(p4, _) => match version_at(s, p4) {
                        Outcome::Done(p5, v) => match crlf_at(s, p5) {
                            Outcome::Done(p6, _) => Outcome::Done(
                                p6,
                                RawRequestLine { method: m, uri: s.subrange(p2, p3), version: v },
                            ),
                            o => o.pass(),
                        },
                        o => o.pass(),
                    },
                    o => o.pass(),
                },
                o => o.pass(),
            },
            o => o.pass(),
        },
        o => o.pass(),
    }
}

/// A request line can be read from `s` unless its target is not valid UTF-8.
pub open spec fn begin_defined(s: Seq<u8>) -> bool {
    request_line_at(s) matches Outcome::Done(_, l) ==> valid_utf8(l.uri)
}

pub open spec fn begin_outcome(s: Seq<u8>) -> Outcome<RequestLine> {
    match request_line_at(s) {
        Outcome::Done(q, l) => Outcome::Done(
            q,
            RequestLine { method: l.method, uri: decode_utf8(l.uri), version: l.version },
        ),
        o => o.pass(),
    }
}

/// A header line: either the empty line that ends the header block (value
/// `None`), or `name: value CRLF` with a name of bytes other than space, CR,
/// LF and colon and a value of bytes other than CR and LF.
pub open spec fn header_at(s: Seq<u8>) -> Outcome<Option<(Seq<u8>, Seq<u8>)>> {
    match crlf_at(s, 0) {
        Outcome::Done(q, _) => Outcome::Done(q, None),
        Outcome::Incomplete => Outcome::Incomplete,
        Outcome::Failed(_, _) => match is_not_at(s, 0, Stop::KeyEnd) {
            Outcome::Done(p1, _) => match tag_at(s, p1, lit_colon_space(), ErrorKind::Tag) {
                Outcome::Done(p2, _) => match is_not_at(s, p2, Stop::LineEnd) {
                    Outcome::Done(p3, _) => match crlf_at(s, p3) {
                        Outcome::Done(p4, _) => Outcome::Done(
                            p4,
                            Some((s.subrange(0, p1), s.subrange(p2, p3))),
                        ),
                        o => o.pass(),
                    },
                    o => o.pass(),
                },
                o => o.pass(),
            },
            o => o.pass(),
        },
    }
}

/// A status line `HTTP/1.x SP digits SP reason CRLF`, as (version, code
/// digits).
pub open spec fn status_line_at(s: Seq<u8>) -> Outcome<(Version, Seq<u8>)> {
    match version_at(s, 0) {
        Outcome::Done(p1, v) => match byte_at(s, p1, 0x20) {
            Outcome::Done(p2, _) => match digits_at(s, p2) {
                Outcome::Done(p3, _) => match byte_at(s, p3, 0x20) {
                    Outcome::Done(p4, _) => match is_not_at(s, p4, Stop::LineEnd) {
                        Outcome::Done(p5, _) => match crlf_at(s, p5) {
                            Outcome::Done(p6, _) => Outcome::Done(p6, (v, s.subrange(p2, p3))),
                            o => o.pass(),
                        },
                        o => o.pass(),
                    },
                    o => o.pass(),
                },
                o => o.pass(),
            },
            o => o.pass(),
        },
        o => o.pass(),
    }
}

/// How a version is written: `HTTP/1.0` or `HTTP/1.1`.
pub open spec fn version_text(v: Version) -> Seq<char> {
    match v {
        Version::HTTP_10 => "HTTP/1.0"@,
        Version::HTTP_11 => "HTTP/1.1"@,
    }
}

/// The summary of a status line: `version: HTTP/1.x, code: <digits>`.
pub open spec fn status_text(v: Version, code: Seq<u8>) -> Seq<char> {
    "version: "@ + version_text(v) + ", code: "@ + ascii_chars(code)
}

pub open spec fn response_begin_outcome(s: Seq<u8>) -> Outcome<Seq<char>> {
    match status_line_at(s) {
        Outcome::Done(q, (v, code)) => Outcome::Done(q, status_text(v, code)),
        o => o.pass(),
    }
}

/* Executable rules. */

fn method(s: &[u8], p: usize) -> (r: Step<Method>)
    requires
        p <= s@.len(),
    ensures
        r@ == method_at(s@, p as int),
        r@.within(p as int, s@.len() as int),
{
    proof {
        lemma_method_extend(s@, Seq::empty(), p as int);
    }
    let get: [u8; 3] = [0x47, 0x45, 0x54];
    let post: [u8; 4] = [0x50, 0x4f, 0x53, 0x54];
    let put: [u8; 3] = [0x50, 0x55, 0x54];
    let delete: [u8; 6] = [0x44, 0x45, 0x4c, 0x45, 0x54, 0x45];
    let head: [u8; 4] = [0x48, 0x45, 0x41, 0x44];
    assert(get@ =~= lit_get());
    assert(post@ =~= lit_post());
    assert(put@ =~= lit_put());
    assert(delete@ =~= lit_delete());
    assert(head@ =~= lit_head());
    match tag(s, p, &get, ErrorKind::Tag) {
        Step::Done(q, _) => return Step::Done(q, Method::GET),
        Step::Incomplete => return Step::Incomplete,
        Step::Failed(_, _) => {},
    }
    match tag(s, p, &post, ErrorKind::Tag) {
        Step::Done(q, _) => return Step::Done(q, Method::POST),
        Step::Incomplete => return Step::Incomplete,
        Step::Failed(_, _) => {},
    }
    match tag(s, p, &put, ErrorKind::Tag) {
        Step::Done(q, _) => return Step::Done(q, Method::PUT),
        Step::Incomplete => return Step::Incomplete,
        Step::Failed(_, _) => {},
    }
    match tag(s, p, &delete, ErrorKind::Tag) {
        Step::Done(q, _) => return Step::Done(q, Method::DELETE),
        Step::Incomplete => return Step::Incomplete,
        Step::Failed(_, _) => {},
    }
    match tag(s, p, &head, ErrorKind::Tag) {
        Step::Done(q, _) => Step::Done(q, Method::HEAD),
        Step::Incomplete => Step::Incomplete,
        Step::Failed(q, k) => Step::Failed(q, k),
    }
}

fn version(s: &[u8], p: usize) -> (r: Step<Version>)
    requires
        p <= s@.len(),
    ensures
        r@ == version_at(s@, p as int),
        r@.within(p as int, s@.len() as int),
{
    proof {
        lemma_version_extend(s@, Seq::empty(), p as int);
    }
    let prefix: [u8; 7] = [0x48, 0x54, 0x54, 0x50, 0x2f, 0x31, 0x2e];
    assert(prefix@ =~= lit_http1());
    proof {
        lemma_tag_extend(s@, Seq::empty(), p as int, lit_http1(), ErrorKind::Tag);
    }
    match tag(s, p, &prefix, ErrorKind::Tag) {
        Step::Done(q, _) => match bit(s, q) {
            Step::Done(r, b) => Step::Done(
                r,
                if b == 0x30 {
                    Version::HTTP_10
                } else {
                    Version::HTTP_11
                },
            ),
            Step::Incomplete => Step::Incomplete,
            Step::Failed(q, k) => Step::Failed(q, k),
        },
        Step::Incomplete => Step::Incomplete,
        Step::Failed(q, k) => Step::Failed(q, k),
    }
}


/// The request line of `s` with its target given by position.
fn request_line(s: &[u8]) -> (r: Step<(Method, usize, usize, Version)>)
    ensures
        match request_line_at(s@) {
            Outcome::Done(q, l) => r matches Step::Done(q2, (m, a, b, v)) && q2 == q && m == l.method
                && v == l.version && a <= b <= s@.len() && s@.subrange(a as int, b as int)
                == l.uri,
            o => r@ == o.pass::<(Method, usize, usize, Version)>(),
        },
{
    proof {
        lemma_request_line_extend(s@, Seq::empty());
    }
    let p1 = match method(s, 0) {
        Step::Done(q, m) => {
            let p2 = match byte(s, q, 0x20) {
                Step::Done(q2, _) => q2,
                Step::Incomplete => return Step::Incomplete,
                Step::Failed(e, k) => return Step::Failed(e, k),
            };
            (m, p2)
        },
        Step::Incomplete => return Step::Incomplete,
        Step::Failed(e, k) => return Step::Failed(e, k),
    };
    let (m, p2) = p1;
    let p3 = match is_not(s, p2, Stop::SpaceOrLineEnd) {
        Step::Done(q, _) => q,
        Step::Incomplete => return Step::Incomplete,
        Step::Failed(e, k) => return Step::Failed(e, k),
    };
    let p4 = match byte(s, p3, 0x20) {
        Step::Done(q, _) => q,
        Step::Incomplete => return Step::Incomplete,
        Step::Failed(e, k) => return Step::Failed(e, k),
    };
    let (p5, v) = match version(s, p4) {
        Step::Done(q, v) => (q, v),
        Step::Incomplete => return Step::Incomplete,
        Step::Failed(e, k) => return Step::Failed(e, k),
    };
    match crlf(s, p5) {
        Step::Done(q, _) => {
            Step::Done(q, (m, p2, p3, v))
        },
        Step::Incomplete => Step::Incomplete,
        Step::Failed(e, k) => Step::Failed(e, k),
    }
}

/// Reads a request line from the start of `input`.
pub fn begin(input: &[u8]) -> (r: Step<RequestBegin>)
    requires
        begin_defined(input@),
    ensures
        r@ == begin_outcome(input@),
{
    match request_line(input) {
        Step::Done(q, (method, a, b, version)) => {
            let uri = utf8_string(vstd::slice::slice_subrange(input, a, b));
            Step::Done(q, RequestBegin { method, uri, version })
        },
        Step::Incomplete => Step::Incomplete,
        Step::Failed(e, k) => Step::Failed(e, k),
    }
}

/// Whether a request line can be read from `input` (its target, if the line
/// is complete, is valid UTF-8).
pub fn begin_applies(input: &[u8]) -> (r: bool)
    ensures
        r == begin_defined(input@),
{
    match request_line(input) {
        Step::Done(_, (_, a, b, _)) => crate::text::is_utf8(vstd::slice::slice_subrange(input, a, b)),
        _ => true,
    }
}

/* Laws: verdicts stand when more bytes arrive. */

pub proof fn lemma_method_extend(s: Seq<u8>, t: Seq<u8>, p: int)
    requires
        0 <= p <= s.len(),
    ensures
        method_at(s, p).within(p, s.len() as int),
        method_at(s, p).is_verdict() ==> method_at(s + t, p) == method_at(s, p),
{
    lemma_tag_extend(s, t, p, lit_get(), ErrorKind::Tag);
    lemma_tag_extend(s, t, p, lit_post(), ErrorKind::Tag);
    lemma_tag_extend(s, t, p, lit_put(), ErrorKind::Tag);
    lemma_tag_extend(s, t, p, lit_delete(), ErrorKind::Tag);
    lemma_tag_extend(s, t, p, lit_head(), ErrorKind::Tag);
}

pub proof fn lemma_version_extend(s: Seq<u8>, t: Seq<u8>, p: int)
    requires
        0 <= p <= s.len(),
    ensures
        version_at(s, p).within(p, s.len() as int),
        version_at(s, p).is_verdict() ==> version_at(s + t, p) == version_at(s, p),
{
    lemma_tag_extend(s, t, p, lit_http1(), ErrorKind::Tag);
    if let Outcome::Done(q, _) = tag_at(s, p, lit_http1(), ErrorKind::Tag) {
        lemma_bit_extend(s, t, q);
    }
}

pub proof fn lemma_request_line_extend(s: Seq<u8>, t: Seq<u8>)
    ensures
        request_line_at(s).within(0, s.len() as int),
        request_line_at(s).is_verdict() ==> request_line_at(s + t) == request_line_at(s),
{
    let u = s + t;
    lemma_method_extend(s, t, 0);
    if let Outcome::Done(p1, _) = method_at(s, 0) {
        lemma_byte_extend(s, t, p1, 0x20);
        if let Outcome::Done(p2, _) = byte_at(s, p1, 0x20) {
            lemma_is_not_extend(s, t, p2, Stop::SpaceOrLineEnd);
            if let Outcome::Done(p3, _) = is_not_at(s, p2, Stop::SpaceOrLineEnd) {
                assert(u.subrange(p2, p3) =~= s.subrange(p2, p3));
                lemma_byte_extend(s, t, p3, 0x20);
                if let Outcome::Done(p4, _) = byte_at(s, p3, 0x20) {
                    lemma_version_extend(s, t, p4);
                    if let Outcome::Done(p5, _) = version_at(s, p4) {
                        lemma_crlf_extend(s, t, p5);
                    }
                }
            }
        }
    }
}

pub proof fn lemma_header_extend(s: Seq<u8>, t: Seq<u8>)
    ensures
        header_at(s).within(0, s.len() as int),
        header_at(s).is_verdict() ==> header_at(s + t) == header_at(s),
{
    let u = s + t;
    lemma_crlf_extend(s, t, 0);
    if crlf_at(s, 0) is Failed {
        lemma_is_not_extend(s, t, 0, Stop::KeyEnd);
        if let Outcome::Done(p1, _) = is_not_at(s, 0, Stop::KeyEnd) {
            assert(u.subrange(0, p1) =~= s.subrange(0, p1));
            lemma_tag_extend(s, t, p1, lit_colon_space(), ErrorKind::Tag);
            if let Outcome::Done(p2, _) = tag_at(s, p1, lit_colon_space(), ErrorKind::Tag) {
                lemma_is_not_extend(s, t, p2, Stop::LineEnd);
                if let Outcome::Done(p3, _) = is_not_at(s, p2, Stop::LineEnd) {
                    assert(u.subrange(p2, p3) =~= s.subrange(p2, p3));
                    lemma_crlf_extend(s, t, p3);
                }
            }
        }
    }
}

pub proof fn lemma_status_line_extend(s: Seq<u8>, t: Seq<u8>)
    ensures
        status_line_at(s).within(0, s.len() as int),
        status_line_at(s).is_verdict() ==> status_line_at(s + t) == status_line_at(s),
        status_line_at(s) matches Outcome::Done(_, (_, code)) ==> all_digits(code),
{
    let u = s + t;
    lemma_version_extend(s, t, 0);
    if let Outcome::Done(p1, _) = version_at(s, 0) {
        lemma_byte_extend(s, t, p1, 0x20);
        if let Outcome::Done(p2, _) = byte_at(s, p1, 0x20) {
            lemma_digits_extend(s, t, p2);
            crate::grammar::lemma_first_stop(s, p2, Stop::NonDigit);
            if let Outcome::Done(p3, _) = digits_at(s, p2) {
                assert(u.subrange(p2, p3) =~= s.subrange(p2, p3));
                lemma_byte_extend(s, t, p3, 0x20);
                if let Outcome::Done(p4, _) = byte_at(s, p3, 0x20) {
                    lemma_is_not_extend(s, t, p4, Stop::LineEnd);
                    if let Outcome::Done(p5, _) = is_not_at(s, p4, Stop::LineEnd) {
                        lemma_crlf_extend(s, t, p5);
                    }
                }
            }
        }
    }
}

/* Laws: what a client writes reads back as itself. */

/// How a method is written: its name in ASCII capitals.
pub open spec fn method_name(m: Method) -> Seq<u8> {
    match m {
        // GET
        Method::GET => seq![0x47u8, 0x45, 0x54],
        // POST
        Method::POST => seq![0x50u8, 0x4f, 0x53, 0x54],
        // PUT
        Method::PUT => seq![0x50u8, 0x55, 0x54],
        // DELETE
        Method::DELETE => seq![0x44u8, 0x45, 0x4c, 0x45, 0x54, 0x45],
        // HEAD
        Method::HEAD => seq![0x48u8, 0x45, 0x41, 0x44],
    }
}

/// How a version is written: `HTTP/1.0` or `HTTP/1.1`.
pub open spec fn version_name(v: Version) -> Seq<u8> {
    match v {
        Version::HTTP_10 => seq![0x48u8, 0x54, 0x54, 0x50, 0x2f, 0x31, 0x2e, 0x30],
        Version::HTTP_11 => seq![0x48u8, 0x54, 0x54, 0x50, 0x2f, 0x31, 0x2e, 0x31],
    }
}

/// A request line as a client writes it: method, space, target, space,
/// version, CRLF.
pub open spec fn request_line_bytes(m: Method, target: Seq<u8>, v: Version) -> Seq<u8> {
    method_name(m) + seq![0x20u8] + target + seq![0x20u8] + version_name(v) + seq![0x0du8, 0x0a]
}

/// A request target: one or more bytes, none of them a space, CR or LF.
pub open spec fn plain_target(target: Seq<u8>) -> bool {
    &&& target.len() > 0
    &&& forall|i: int|
        0 <= i < target.len() ==> #[trigger] target[i] != 0x20 && target[i] != 0x0d && target[i]
            != 0x0a
}

/// A line that begins with a method's name is read as that method, whatever
/// follows the name.
pub proof fn lemma_method_named(m: Method, rest: Seq<u8>)
    ensures
        method_at(method_name(m) + rest, 0) == Outcome::Done(method_name(m).len() as int, m),
{
    let n = method_name(m);
    let s = n + rest;
    assert forall|i: int| 0 <= i < n.len() implies s[0 + i] == #[trigger] n[i] by {}
    let k = ErrorKind::Tag;
    match m {
        Method::GET => {
            lemma_tag_present(s, 0, lit_get(), k);
        },
        Method::POST => {
            lemma_tag_refused(s, 0, lit_get(), k, 0);
            lemma_tag_present(s, 0, lit_post(), k);
        },
        Method::PUT => {
            lemma_tag_refused(s, 0, lit_get(), k, 0);
            lemma_tag_refused(s, 0, lit_post(), k, 1);
            lemma_tag_present(s, 0, lit_put(), k);
        },
        Method::DELETE => {
            lemma_tag_refused(s, 0, lit_get(), k, 0);
            lemma_tag_refused(s, 0, lit_post(), k, 0);
            lemma_tag_refused(s, 0, lit_put(), k, 0);
            lemma_tag_present(s, 0, lit_delete(), k);
        },
        Method::HEAD => {
            lemma_tag_refused(s, 0, lit_get(), k, 0);
            lemma_tag_refused(s, 0, lit_post(), k, 0);
            lemma_tag_refused(s, 0, lit_put(), k, 0);
            lemma_tag_refused(s, 0, lit_delete(), k, 0);
            lemma_tag_present(s, 0, lit_head(), k);
        },
    }
}

/// Where each part of a written request line lies.
proof fn lemma_request_line_layout(m: Method, target: Seq<u8>, v: Version, rest: Seq<u8>)
    ensures
        ({
            let n = method_name(m);
            let s = request_line_bytes(m, target, v) + rest;
            let a = n.len() as int;
            let p3 = a + 1 + target.len();
            &&& request_line_bytes(m, target, v).len() == p3 + 11
            &&& forall|i: int| 0 <= i < a ==> s[i] == n[i]
            &&& s[a] == 0x20u8
            &&& forall|i: int| a + 1 <= i < p3 ==> s[i] == target[i - a - 1]
            &&& s[p3] == 0x20u8
            &&& forall|i: int| 0 <= i < 8 ==> s[p3 + 1 + i] == version_name(v)[i]
            &&& s[p3 + 9] == 0x0du8
            &&& s[p3 + 10] == 0x0au8
        }),
{
    let n = method_name(m);
    let vn = version_name(v);
    let line = request_line_bytes(m, target, v);
    let s = line + rest;
    let a = n.len() as int;
    let p3 = a + 1 + target.len();
    assert(vn.len() == 8);
    assert forall|i: int| 0 <= i < a implies s[i] == n[i] by {}
    assert forall|i: int| a + 1 <= i < p3 implies s[i] == target[i - a - 1] by {}
    assert forall|i: int| 0 <= i < 8 implies s[p3 + 1 + i] == vn[i] by {}
}

/// A request line written by a client, followed by anything, is read back
/// as the method, target and version written, up to the end of the line.
#[verifier::spinoff_prover]
#[verifier::rlimit(40)]
pub proof fn lemma_request_line_round_trip(m: Method, target: Seq<u8>, v: Version, rest: Seq<u8>)
    requires
        plain_target(target),
    ensures
        request_line_at(request_line_bytes(m, target, v) + rest) == Outcome::Done(
            request_line_bytes(m, target, v).len() as int,
            RawRequestLine { method: m, uri: target, version: v },
        ),
{
    let n = method_name(m);
    let vn = version_name(v);
    let line = request_line_bytes(m, target, v);
    let s = line + rest;
    let a = n.len() as int;
    let p2 = a + 1;
    let p3 = p2 + target.len();
    let p4 = p3 + 1;
    let p5 = p4 + 7;
    let p6 = p5 + 1;
    lemma_request_line_layout(m, target, v, rest);
    let tail = s.subrange(a, s.len() as int);
    lemma_method_named(m, tail);
    assert(n + tail =~= s);
    let o1 = method_at(s, 0);
    assert(o1 == Outcome::Done(a, m));
    let o2 = byte_at(s, a, 0x20);
    assert(o2 == Outcome::Done(p2, ()));
    assert forall|i: int| p2 <= i < p3 implies !stops(Stop::SpaceOrLineEnd, #[trigger] s[i]) by {
        assert(s[i] == target[i - a - 1]);
    }
    lemma_first_stop_run(s, p2, p3, Stop::SpaceOrLineEnd);
    let o3 = is_not_at(s, p2, Stop::SpaceOrLineEnd);
    assert(o3 == Outcome::Done(p3, ()));
    let o4 = byte_at(s, p3, 0x20);
    assert(o4 == Outcome::Done(p4, ()));
    assert forall|i: int| 0 <= i < lit_http1().len() implies s[p4 + i] == #[trigger] lit_http1()[i] by {
        assert(s[p3 + 1 + i] == vn[i]);
    }
    lemma_tag_present(s, p4, lit_http1(), ErrorKind::Tag);
    assert(s[p5] == vn[7]);
    let o5 = version_at(s, p4);
    assert(o5 == Outcome::Done(p6, v));
    assert forall|i: int| 0 <= i < crlf_bytes().len() implies s[p6 + i] == #[trigger] crlf_bytes()[i] by {}
    lemma_tag_present(s, p6, crlf_bytes(), ErrorKind::CrLf);
    let o6 = crlf_at(s, p6);
    assert(o6 == Outcome::Done(p6 + 2, ()));
    assert(s.subrange(p2, p3) =~= target);
}

/// The method read at the start of a buffer is the one whose name the
/// buffer begins with, and the position after it is the end of that name.
pub proof fn lemma_method_read(s: Seq<u8>)
    ensures
        method_at(s, 0) matches Outcome::Done(p, m) ==> p == method_name(m).len() && s.subrange(
            0,
            p,
        ) == method_name(m),
{
    if let Outcome::Done(p, m) = method_at(s, 0) {
        assert(s.subrange(0, p) =~= method_name(m));
    }
}

/// What a request line is read from: the bytes consumed are exactly the
/// written form of the method, target and version read, the target being
/// one or more bytes other than space, CR and LF.
#[verifier::spinoff_prover]
#[verifier::rlimit(40)]
pub proof fn lemma_request_line_read(s: Seq<u8>)
    ensures
        request_line_at(s) matches Outcome::Done(q, l) ==> {
            &&& plain_target(l.uri)
            &&& 0 <= q <= s.len()
            &&& s.take(q) == request_line_bytes(l.method, l.uri, l.version)
        },
{
    lemma_request_line_extend(s, Seq::empty());
    if let Outcome::Done(q, l) = request_line_at(s) {
        lemma_method_read(s);
        let m = l.method;
        let n = method_name(m);
        let p1 = n.len() as int;
        let p2 = p1 + 1;
        lemma_first_stop(s, p2, Stop::SpaceOrLineEnd);
        let p3 = first_stop(s, p2, Stop::SpaceOrLineEnd);
        let p4 = p3 + 1;
        let p6 = p4 + 8;
        let vn = version_name(l.version);
        assert(s.subrange(0, p1) == n);
        assert(s[p1] == 0x20u8);
        assert(s[p3] == 0x20u8);
        assert(s.subrange(p4, p4 + 7) == lit_http1());
        assert(s[p4 + 7] == 0x30u8 || s[p4 + 7] == 0x31u8);
        assert(s.subrange(p6, p6 + 2) == crlf_bytes());
        assert(q == p6 + 2);
        assert(l.uri == s.subrange(p2, p3));
        assert forall|i: int| 0 <= i < l.uri.len() implies #[trigger] l.uri[i] != 0x20 && l.uri[i]
            != 0x0d && l.uri[i] != 0x0a by {
            assert(l.uri[i] == s[p2 + i]);
        }
        assert forall|i: int| 0 <= i < 8 implies s[p4 + i] == #[trigger] vn[i] by {
            if i < 7 {
                assert(s.subrange(p4, p4 + 7)[i] == lit_http1()[i]);
            }
        }
        let line = request_line_bytes(m, l.uri, l.version);
        lemma_request_line_layout(m, l.uri, l.version, Seq::empty());
        assert(line + Seq::<u8>::empty() =~= line);
        assert forall|i: int| 0 <= i < q implies s.take(q)[i] == #[trigger] line[i] by {
            if i < p1 {
                assert(s.subrange(0, p1)[i] == n[i]);
            } else if p2 <= i < p3 {
                assert(line[i] == l.uri[i - p1 - 1]);
            } else if p4 <= i < p6 {
                assert(line[i] == vn[i - p4]);
            } else if i >= p6 {
                assert(s.subrange(p6, p6 + 2)[i - p6] == crlf_bytes()[i - p6]);
            }
        }
        assert(s.take(q) =~= line);
    }
}

/// A request line written by a client with a UTF-8 target is read by
/// `begin` as the method, the target text and the version written.
pub proof fn lemma_begin_round_trip(m: Method, target: Seq<u8>, v: Version, rest: Seq<u8>)
    requires
        plain_target(target),
        valid_utf8(target),
    ensures
        begin_defined(request_line_bytes(m, target, v) + rest),
        begin_outcome(request_line_bytes(m, target, v) + rest) == Outcome::Done(
            request_line_bytes(m, target, v).len() as int,
            RequestLine { method: m, uri: decode_utf8(target), version: v },
        ),
{
    lemma_request_line_round_trip(m, target, v, rest);
}

/// A header field as a client writes it: name, `: `, value, CRLF.
pub open spec fn header_line_bytes(name: Seq<u8>, value: Seq<u8>) -> Seq<u8> {
    name + seq![0x3au8, 0x20] + value + seq![0x0du8, 0x0a]
}

/// A header field written by a client, followed by anything, is read back
/// as its name and its whole value, spaces included, up to the end of the
/// line.
pub proof fn lemma_header_round_trip(name: Seq<u8>, value: Seq<u8>, rest: Seq<u8>)
    requires
        name.len() > 0,
        forall|i: int|
            0 <= i < name.len() ==> #[trigger] name[i] != 0x20 && name[i] != 0x0d && name[i]
                != 0x0a && name[i] != 0x3a,
        value.len() > 0,
        forall|i: int| 0 <= i < value.len() ==> #[trigger] value[i] != 0x0d && value[i] != 0x0a,
    ensures
        header_at(header_line_bytes(name, value) + rest) == Outcome::Done(
            (name.len() + value.len() + 4) as int,
            Some((name, value)),
        ),
{
    let line = header_line_bytes(name, value);
    let s = line + rest;
    let p1 = name.len() as int;
    let p2 = p1 + 2;
    let p3 = p2 + value.len();
    assert(line.len() == p3 + 2);
    assert(forall|i: int| 0 <= i < p1 ==> s[i] == name[i]);
    assert(s[p1] == 0x3au8 && s[p1 + 1] == 0x20u8);
    assert(forall|i: int| p2 <= i < p3 ==> s[i] == value[i - p2]);
    assert(s[p3] == 0x0du8 && s[p3 + 1] == 0x0au8);
    assert(s[0] == name[0]);
    lemma_tag_refused(s, 0, crlf_bytes(), ErrorKind::CrLf, 0);
    lemma_first_stop_run(s, 0, p1, Stop::KeyEnd);
    assert(is_not_at(s, 0, Stop::KeyEnd) == Outcome::Done(p1, ()));
    assert forall|i: int| 0 <= i < lit_colon_space().len() implies s[p1 + i]
        == #[trigger] lit_colon_space()[i] by {}
    lemma_tag_present(s, p1, lit_colon_space(), ErrorKind::Tag);
    lemma_first_stop_run(s, p2, p3, Stop::LineEnd);
    assert(is_not_at(s, p2, Stop::LineEnd) == Outcome::Done(p3, ()));
    assert forall|i: int| 0 <= i < crlf_bytes().len() implies s[p3 + i] == #[trigger] crlf_bytes()[i] by {}
    lemma_tag_present(s, p3, crlf_bytes(), ErrorKind::CrLf);
    assert(s.subrange(0, p1) =~= name);
    assert(s.subrange(p2, p3) =~= value);
}

/// The empty line, followed by anything, is read as the end of the header
/// block, two bytes long.
pub proof fn lemma_header_end(rest: Seq<u8>)
    ensures
        header_at(seq![0x0du8, 0x0a] + rest) == Outcome::<Option<(Seq<u8>, Seq<u8>)>>::Done(2, None),
{
    let s = seq![0x0du8, 0x0a] + rest;
    assert forall|i: int| 0 <= i < crlf_bytes().len() implies s[0 + i] == #[trigger] crlf_bytes()[i] by {}
    lemma_tag_present(s, 0, crlf_bytes(), ErrorKind::CrLf);
}

/// A status line as a server writes it: version, space, code digits,
/// space, reason, CRLF.
pub open spec fn status_line_bytes(v: Version, code: Seq<u8>, reason: Seq<u8>) -> Seq<u8> {
    version_name(v) + seq![0x20u8] + code + seq![0x20u8] + reason + seq![0x0du8, 0x0a]
}

/// Where each part of a written status line lies.
proof fn lemma_status_line_layout(v: Version, code: Seq<u8>, reason: Seq<u8>, rest: Seq<u8>)
    ensures
        ({
            let s = status_line_bytes(v, code, reason) + rest;
            let p3: int = 9 + code.len() as int;
            let p5: int = p3 + 1 + reason.len() as int;
            &&& status_line_bytes(v, code, reason).len() == p5 + 2
            &&& forall|i: int| 0 <= i < 8 ==> s[i] == version_name(v)[i]
            &&& s[8] == 0x20u8
            &&& forall|i: int| 9 <= i < p3 ==> s[i] == code[i - 9]
            &&& s[p3] == 0x20u8
            &&& forall|i: int| p3 + 1 <= i < p5 ==> s[i] == reason[i - p3 - 1]
            &&& s[p5] == 0x0du8
            &&& s[p5 + 1] == 0x0au8
        }),
{
    let s = status_line_bytes(v, code, reason) + rest;
    let p3: int = 9 + code.len() as int;
    let p5: int = p3 + 1 + reason.len() as int;
    assert(version_name(v).len() == 8);
    assert forall|i: int| 0 <= i < 8 implies s[i] == version_name(v)[i] by {}
    assert forall|i: int| 9 <= i < p3 implies s[i] == code[i - 9] by {}
    assert forall|i: int| p3 + 1 <= i < p5 implies s[i] == reason[i - p3 - 1] by {}
}

/// A status line written by a server, followed by anything, is read back
/// as the version and code digits written, up to the end of the line, and
/// described as `version: HTTP/1.x, code: <digits>`.
#[verifier::spinoff_prover]
#[verifier::rlimit(40)]
pub proof fn lemma_status_line_round_trip(
    v: Version,
    code: Seq<u8>,
    reason: Seq<u8>,
    rest: Seq<u8>,
)
    requires
        all_digits(code),
        reason.len() > 0,
        forall|i: int| 0 <= i < reason.len() ==> #[trigger] reason[i] != 0x0d && reason[i] != 0x0a,
    ensures
        status_line_at(status_line_bytes(v, code, reason) + rest) == Outcome::Done(
            status_line_bytes(v, code, reason).len() as int,
            (v, code),
        ),
        response_begin_outcome(status_line_bytes(v, code, reason) + rest) == Outcome::Done(
            status_line_bytes(v, code, reason).len() as int,
            "version: "@ + (if v is HTTP_10 {
                "HTTP/1.0"@
            } else {
                "HTTP/1.1"@
            }) + ", code: "@ + Seq::new(code.len(), |i: int| code[i] as char),
        ),
{
    let vn = version_name(v);
    let s = status_line_bytes(v, code, reason) + rest;
    let p3: int = 9 + code.len() as int;
    let p4: int = p3 + 1;
    let p5: int = p4 + reason.len();
    lemma_status_line_layout(v, code, reason, rest);
    assert forall|i: int| 0 <= i < lit_http1().len() implies s[0 + i] == #[trigger] lit_http1()[i] by {
        assert(s[i] == vn[i]);
    }
    lemma_tag_present(s, 0, lit_http1(), ErrorKind::Tag);
    assert(s[7] == vn[7]);
    let o1 = version_at(s, 0);
    assert(o1 == Outcome::Done(8int, v));
    let o2 = byte_at(s, 8, 0x20);
    assert(o2 == Outcome::Done(9int, ()));
    assert forall|i: int| 9 <= i < p3 implies !stops(Stop::NonDigit, #[trigger] s[i]) by {
        assert(s[i] == code[i - 9]);
        assert(crate::grammar::is_digit(code[i - 9]));
    }
    lemma_first_stop_run(s, 9, p3, Stop::NonDigit);
    let o3 = digits_at(s, 9);
    assert(o3 == Outcome::Done(p3, ()));
    let o4 = byte_at(s, p3, 0x20);
    assert(o4 == Outcome::Done(p4, ()));
    assert forall|i: int| p4 <= i < p5 implies !stops(Stop::LineEnd, #[trigger] s[i]) by {
        assert(s[i] == reason[i - p3 - 1]);
    }
    lemma_first_stop_run(s, p4, p5, Stop::LineEnd);
    let o5 = is_not_at(s, p4, Stop::LineEnd);
    assert(o5 == Outcome::Done(p5, ()));
    assert forall|i: int| 0 <= i < crlf_bytes().len() implies s[p5 + i] == #[trigger] crlf_bytes()[i] by {}
    lemma_tag_present(s, p5, crlf_bytes(), ErrorKind::CrLf);
    assert(s.subrange(9, p3) =~= code);
    assert(ascii_chars(code) =~= Seq::new(code.len(), |i: int| code[i] as char));
}

/// What a status line is read from: the bytes consumed are the written form
/// of the version and code digits read and of a reason of one or more bytes
/// other than CR and LF.
#[verifier::spinoff_prover]
#[verifier::rlimit(40)]
pub proof fn lemma_status_line_read(s: Seq<u8>)
    ensures
        status_line_at(s) matches Outcome::Done(q, (v, code)) ==> {
            let reason = s.subrange(10 + code.len() as int, q - 2);
            &&& 0 <= q <= s.len()
            &&& all_digits(code)
            &&& reason.len() > 0
            &&& forall|i: int| 0 <= i < reason.len() ==> #[trigger] reason[i] != 0x0d && reason[i] != 0x0a
            &&& s.take(q) == status_line_bytes(v, code, reason)
        },
{
    lemma_status_line_extend(s, Seq::empty());
    if let Outcome::Done(q, (v, code)) = status_line_at(s) {
        lemma_first_stop(s, 9, Stop::NonDigit);
        let p3 = first_stop(s, 9, Stop::NonDigit);
        let p4 = p3 + 1;
        lemma_first_stop(s, p4, Stop::LineEnd);
        let p5 = first_stop(s, p4, Stop::LineEnd);
        let vn = version_name(v);
        assert(s.subrange(0, 7) == lit_http1());
        assert(s[8] == 0x20u8);
        assert(code == s.subrange(9, p3));
        assert(s[p3] == 0x20u8);
        assert(s.subrange(p5, p5 + 2) == crlf_bytes());
        assert(q == p5 + 2);
        let reason = s.subrange(10 + code.len() as int, q - 2);
        assert(reason == s.subrange(p4, p5));
        assert forall|i: int| 0 <= i < code.len() implies crate::grammar::is_digit(#[trigger] code[i]) by {
            assert(code[i] == s[9 + i]);
        }
        assert forall|i: int| 0 <= i < reason.len() implies #[trigger] reason[i] != 0x0d && reason[i]
            != 0x0a by {
            assert(reason[i] == s[p4 + i]);
        }
        assert forall|i: int| 0 <= i < 8 implies s[i] == #[trigger] vn[i] by {
            if i < 7 {
                assert(s.subrange(0, 7)[i] == lit_http1()[i]);
            }
        }
        let line = status_line_bytes(v, code, reason);
        lemma_status_line_layout(v, code, reason, Seq::empty());
        assert(line + Seq::<u8>::empty() =~= line);
        assert forall|i: int| 0 <= i < q implies s.take(q)[i] == #[trigger] line[i] by {
            if i < 8 {
            } else if 9 <= i < p3 {
                assert(line[i] == code[i - 9]);
            } else if p4 <= i < p5 {
                assert(line[i] == reason[i - p3 - 1]);
            } else if i >= p5 {
                assert(s.subrange(p5, p5 + 2)[i - p5] == crlf_bytes()[i - p5]);
            }
        }
        assert(s.take(q) =~= line);
    }
}

pub open spec fn all_digits(b: Seq<u8>) -> bool {
    forall|i: int| 0 <= i < b.len() ==> crate::grammar::is_digit(#[trigger] b[i])
}


/// Reads one header line from the start of `input`: `None` for the empty
/// line that ends the header block, or the name and value of a field.
pub fn header(input: &[u8]) -> (r: Step<Option<(Vec<u8>, Vec<u8>)>>)
    ensures
        r@ == header_at(input@),
{
    let s = input;
    proof {
        lemma_header_extend(s@, Seq::empty());
    }
    match crlf(s, 0) {
        Step::Done(q, _) => return Step::Done(q, None),
        Step::Incomplete => return Step::Incomplete,
        Step::Failed(_, _) => {},
    }
    let p1 = match is_not(s, 0, Stop::KeyEnd) {
        Step::Done(q, _) => q,
        Step::Incomplete => return Step::Incomplete,
        Step::Failed(e, k) => return Step::Failed(e, k),
    };
    let colon_space: [u8; 2] = [0x3a, 0x20];
    assert(colon_space@ =~= lit_colon_space());
    let p2 = match tag(s, p1, &colon_space, ErrorKind::Tag) {
        Step::Done(q, _) => q,
        Step::Incomplete => return Step::Incomplete,
        Step::Failed(e, k) => return Step::Failed(e, k),
    };
    let p3 = match is_not(s, p2, Stop::LineEnd) {
        Step::Done(q, _) => q,
        Step::Incomplete => return Step::Incomplete,
        Step::Failed(e, k) => return Step::Failed(e, k),
    };
    match crlf(s, p3) {
        Step::Done(q, _) => {
            let key = vstd::slice::slice_to_vec(vstd::slice::slice_subrange(s, 0, p1));
            let value = vstd::slice::slice_to_vec(vstd::slice::slice_subrange(s, p2, p3));
            assert(key.deep_view() =~= s@.subrange(0, p1 as int));
            assert(value.deep_view() =~= s@.subrange(p2 as int, p3 as int));
            Step::Done(q, Some((key, value)))
        },
        Step::Incomplete => Step::Incomplete,
        Step::Failed(e, k) => Step::Failed(e, k),
    }
}

/// Reads a status line from the start of `input` and describes it as
/// `version: HTTP/1.x, code: <digits>`.
pub fn response_begin(input: &[u8]) -> (r: Step<String>)
    ensures
        r@ == response_begin_outcome(input@),
{
    let s = input;
    proof {
        lemma_status_line_extend(s@, Seq::empty());
    }
    let (p1, v) = match version(s, 0) {
        Step::Done(q, v) => (q, v),
        Step::Incomplete => return Step::Incomplete,
        Step::Failed(e, k) => return Step::Failed(e, k),
    };
    let p2 = match byte(s, p1, 0x20) {
        Step::Done(q, _) => q,
        Step::Incomplete => return Step::Incomplete,
        Step::Failed(e, k) => return Step::Failed(e, k),
    };
    let p3 = match digits(s, p2) {
        Step::Done(q, _) => q,
        Step::Incomplete => return Step::Incomplete,
        Step::Failed(e, k) => return Step::Failed(e, k),
    };
    let p4 = match byte(s, p3, 0x20) {
        Step::Done(q, _) => q,
        Step::Incomplete => return Step::Incomplete,
        Step::Failed(e, k) => return Step::Failed(e, k),
    };
    let p5 = match is_not(s, p4, Stop::LineEnd) {
        Step::Done(q, _) => q,
        Step::Incomplete => return Step::Incomplete,
        Step::Failed(e, k) => return Step::Failed(e, k),
    };
    match crlf(s, p5) {
        Step::Done(q, _) => {
            let digits_bytes = vstd::slice::slice_subrange(s, p2, p3);
            proof {
                assert(all_ascii(digits_bytes@));
                lemma_ascii_utf8(digits_bytes@);
            }
            let code = utf8_string(digits_bytes);
            let mut text = String::from_str("version: ");
            match v {
                Version::HTTP_10 => text.append("HTTP/1.0"),
                Version::HTTP_11 => text.append("HTTP/1.1"),
            }
            text.append(", code: ");
            text.append(code.as_str());
            Step::Done(q, text)
        },
        Step::Incomplete => Step::Incomplete,
        Step::Failed(e, k) => Step::Failed(e, k),
    }
}


/// The request line rule, for the receive loop.
pub struct BeginRule;

/// The header line rule, for the receive loop.
pub struct HeaderRule;

/// The status line rule, for the receive loop.
pub struct StatusRule;

impl Grammar for BeginRule {
    type Output = RequestBegin;

    open spec fn defined(&self, s: Seq<u8>) -> bool {
        begin_defined(s)
    }

    open spec fn outcome(&self, s: Seq<u8>) -> Outcome<RequestLine> {
        begin_outcome(s)
    }

    fn applies(&self, s: &[u8]) -> (r: bool) {
        begin_applies(s)
    }

    fn apply(&self, s: &[u8]) -> (r: Step<RequestBegin>) {
        begin(s)
    }

    proof fn lemma_extend(&self, s: Seq<u8>, t: Seq<u8>) {
        lemma_request_line_extend(s, t);
    }
}

impl Grammar for HeaderRule {
    type Output = Option<(Vec<u8>, Vec<u8>)>;

    open spec fn defined(&self, s: Seq<u8>) -> bool {
        true
    }

    open spec fn outcome(&self, s: Seq<u8>) -> Outcome<Option<(Seq<u8>, Seq<u8>)>> {
        header_at(s)
    }

    fn applies(&self, s: &[u8]) -> (r: bool) {
        true
    }

    fn apply(&self, s: &[u8]) -> (r: Step<Option<(Vec<u8>, Vec<u8>)>>) {
        header(s)
    }

    proof fn lemma_extend(&self, s: Seq<u8>, t: Seq<u8>) {
        lemma_header_extend(s, t);
    }
}

impl Grammar for StatusRule {
    type Output = String;

    open spec fn defined(&self, s: Seq<u8>) -> bool {
        true
    }

    open spec fn outcome(&self, s: Seq<u8>) -> Outcome<Seq<char>> {
        response_begin_outcome(s)
    }

    fn applies(&self, s: &[u8]) -> (r: bool) {
        true
    }

    fn apply(&self, s: &[u8]) -> (r: Step<String>) {
        response_begin(s)
    }

    proof fn lemma_extend(&self, s: Seq<u8>, t: Seq<u8>) {
        lemma_status_line_extend(s, t);
    }
}


/* Reading a request: the request line, then header lines up to the empty
   line, collected by name in order of first appearance. */

/// The name the HTTP/1 parser reports under.
pub const PROTOCOL: &'static str = "http/1";

/// The HTTP/1 request and response parser.
pub struct Parser;

impl Parser {
    /// The name this parser reports under.
    pub fn protocol(&self) -> (r: Protocol)
        ensures
            r@ == PROTOCOL@,
    {
        PROTOCOL
    }
}

#[verifier::external_type_specification]
#[verifier::external_body]
#[verifier::reject_recursive_types(K)]
#[verifier::reject_recursive_types(V)]
#[verifier::reject_recursive_types(S)]
pub struct ExIndexMap<K, V, S>(IndexMap<K, V, S>);

/// The entries of a header map, in order: each name with its values.
pub uninterp spec fn header_fields(m: IndexMap<String, Vec<String>>) -> Seq<(Seq<char>, Seq<Seq<char>>)>;

/// The position of the first entry named `key` at or after `i`, or the
/// number of entries when there is none.
pub open spec fn find_field(fields: Seq<(Seq<char>, Seq<Seq<char>>)>, key: Seq<char>, i: int) -> int
    decreases fields.len() - i,
{
    if i >= fields.len() {
        fields.len() as int
    } else if fields[i].0 == key {
        i
    } else {
        find_field(fields, key, i + 1)
    }
}

/// The entries after adding `value` under `key`: appended to the values of
/// an entry with that name, or as a new last entry.
pub open spec fn with_field(
    fields: Seq<(Seq<char>, Seq<Seq<char>>)>,
    key: Seq<char>,
    value: Seq<char>,
) -> Seq<(Seq<char>, Seq<Seq<char>>)> {
    let i = find_field(fields, key, 0);
    if i < fields.len() {
        fields.update(i, (key, fields[i].1.push(value)))
    } else {
        fields.push((key, seq![value]))
    }
}

/// No name has two entries.
pub open spec fn names_unique(fields: Seq<(Seq<char>, Seq<Seq<char>>)>) -> bool {
    forall|i: int, j: int| 0 <= i < j < fields.len() ==> #[trigger] fields[i].0 != #[trigger] fields[j].0
}

/// `IndexMap::new`: a map with no entries.
#[verifier::external_body]
fn headers_new() -> (m: IndexMap<String, Vec<String>>)
    ensures
        header_fields(m) == Seq::<(Seq<char>, Seq<Seq<char>>)>::empty(),
{
    IndexMap::new()
}

/// `IndexMap::entry` then `Entry::or_insert` with an empty list, then a push
/// of `value` onto the list: claimed to append `value` to the values of the
/// entry named `key`, or to add an entry `(key, [value])` at the end when
/// there is none (the map keeps insertion order and one entry per key).
#[verifier::external_body]
fn headers_push(m: &mut IndexMap<String, Vec<String>>, key: String, value: String)
    ensures
        header_fields(*final(m)) == with_field(header_fields(*old(m)), key@, value@),
{
    m.entry(key).or_insert(Vec::new()).push(value);
}

pub proof fn lemma_find_field(fields: Seq<(Seq<char>, Seq<Seq<char>>)>, key: Seq<char>, i: int)
    requires
        0 <= i <= fields.len(),
    ensures
        i <= find_field(fields, key, i) <= fields.len(),
        find_field(fields, key, i) < fields.len() ==> fields[find_field(fields, key, i)].0 == key,
        forall|j: int| i <= j < find_field(fields, key, i) ==> #[trigger] fields[j].0 != key,
    decreases fields.len() - i,
{
    if i < fields.len() && fields[i].0 != key {
        lemma_find_field(fields, key, i + 1);
    }
}

/// Adding a value keeps one entry per name.
pub proof fn lemma_with_field_unique(
    fields: Seq<(Seq<char>, Seq<Seq<char>>)>,
    key: Seq<char>,
    value: Seq<char>,
)
    requires
        names_unique(fields),
    ensures
        names_unique(with_field(fields, key, value)),
        with_field(fields, key, value).len() == fields.len() || with_field(fields, key, value).len()
            == fields.len() + 1,
{
    lemma_find_field(fields, key, 0);
    let r = with_field(fields, key, value);
    let i = find_field(fields, key, 0);
    assert forall|a: int, b: int| 0 <= a < b < r.len() implies #[trigger] r[a].0 != #[trigger] r[b].0 by {
        if i < fields.len() {
            assert(r[a].0 == fields[a].0);
            assert(r[b].0 == fields[b].0);
        } else if b == fields.len() {
            assert(fields[a].0 != key);
        }
    }
}

/// Adding a value under a name, to entries with one entry per name: the
/// entries keep their names and places; the entry of that name gets the
/// value appended to its values, and the others are unchanged; with no
/// entry of that name, one holding just the value is added at the end.
pub proof fn lemma_with_field_entries(
    fields: Seq<(Seq<char>, Seq<Seq<char>>)>,
    key: Seq<char>,
    value: Seq<char>,
)
    requires
        names_unique(fields),
    ensures
        forall|j: int|
            0 <= j < fields.len() ==> #[trigger] with_field(fields, key, value)[j].0 == fields[j].0,
        forall|j: int|
            0 <= j < fields.len() && fields[j].0 != key ==> #[trigger] with_field(
                fields,
                key,
                value,
            )[j] == fields[j],
        forall|j: int|
            0 <= j < fields.len() && fields[j].0 == key ==> #[trigger] with_field(
                fields,
                key,
                value,
            )[j].1 == fields[j].1.push(value),
        (exists|j: int| 0 <= j < fields.len() && #[trigger] fields[j].0 == key) ==> with_field(
            fields,
            key,
            value,
        ).len() == fields.len(),
        (forall|j: int| 0 <= j < fields.len() ==> #[trigger] fields[j].0 != key) ==> {
            &&& with_field(fields, key, value).len() == fields.len() + 1
            &&& with_field(fields, key, value)[fields.len() as int] == (key, seq![value])
        },
{
    lemma_find_field(fields, key, 0);
    let i = find_field(fields, key, 0);
    let r = with_field(fields, key, value);
    if i < fields.len() {
        assert forall|j: int| 0 <= j < fields.len() && fields[j].0 == key implies j == i by {
            if j < i {
                assert(fields[j].0 != fields[i].0);
            } else if j > i {
                assert(fields[i].0 != fields[j].0);
            }
        }
    }
}

/// What a header line is read from: the bytes consumed are exactly the
/// empty line when the end of the header block is read, and otherwise the
/// written form of the name and value read, with a name of one or more
/// bytes other than space, CR, LF and colon and a value of one or more
/// bytes other than CR and LF.
pub proof fn lemma_header_read(s: Seq<u8>)
    ensures
        header_at(s) matches Outcome::Done(q, h) ==> {
            &&& 0 <= q <= s.len()
            &&& match h {
                None => s.take(q) == seq![0x0du8, 0x0a],
                Some((k, v)) => {
                    &&& k.len() > 0
                    &&& forall|i: int|
                        0 <= i < k.len() ==> #[trigger] k[i] != 0x20 && k[i] != 0x0d && k[i]
                            != 0x0a && k[i] != 0x3a
                    &&& v.len() > 0
                    &&& forall|i: int| 0 <= i < v.len() ==> #[trigger] v[i] != 0x0d && v[i] != 0x0a
                    &&& s.take(q) == header_line_bytes(k, v)
                },
            }
        },
{
    lemma_header_extend(s, Seq::empty());
    if let Outcome::Done(q, h) = header_at(s) {
        match h {
            None => {
                assert(s.take(q) =~= s.subrange(0, 2));
            },
            Some((k, v)) => {
                lemma_first_stop(s, 0, Stop::KeyEnd);
                let p1 = first_stop(s, 0, Stop::KeyEnd);
                let p2 = p1 + 2;
                lemma_first_stop(s, p2, Stop::LineEnd);
                let p3 = first_stop(s, p2, Stop::LineEnd);
                assert(k == s.subrange(0, p1));
                assert(v == s.subrange(p2, p3));
                assert(s.subrange(p1, p2) == lit_colon_space());
                assert(s.subrange(p3, p3 + 2) == crlf_bytes());
                assert(q == p3 + 2);
                assert forall|i: int| 0 <= i < k.len() implies #[trigger] k[i] != 0x20 && k[i]
                    != 0x0d && k[i] != 0x0a && k[i] != 0x3a by {
                    assert(k[i] == s[i]);
                }
                assert forall|i: int| 0 <= i < v.len() implies #[trigger] v[i] != 0x0d && v[i]
                    != 0x0a by {
                    assert(v[i] == s[p2 + i]);
                }
                let line = header_line_bytes(k, v);
                assert forall|i: int| 0 <= i < q implies s.take(q)[i] == #[trigger] line[i] by {
                    if i < p1 {
                        assert(line[i] == k[i]);
                    } else if i < p2 {
                        assert(s.subrange(p1, p2)[i - p1] == lit_colon_space()[i - p1]);
                    } else if i < p3 {
                        assert(line[i] == v[i - p2]);
                    } else {
                        assert(s.subrange(p3, p3 + 2)[i - p3] == crlf_bytes()[i - p3]);
                    }
                }
                assert(s.take(q) =~= line);
            },
        }
    }
}

/// A request being read: its request line and the header fields so far.
pub struct Http1Request {
    info: RequestBegin,
    headers: IndexMap<String, Vec<String>>,
}

impl Http1Request {
    /// The header entries collected so far.
    pub closed spec fn fields(&self) -> Seq<(Seq<char>, Seq<Seq<char>>)> {
        header_fields(self.headers)
    }

    /// The request line.
    pub closed spec fn line(&self) -> RequestBegin {
        self.info
    }

    /// The request line.
    pub fn info(&self) -> (r: &RequestBegin)
        ensures
            *r == self.line(),
    {
        &self.info
    }

    /// The header map collected so far.
    pub fn headers(&self) -> (r: &IndexMap<String, Vec<String>>)
        ensures
            header_fields(*r) == self.fields(),
    {
        &self.headers
    }

    /// A request whose line has been read and no header yet.
    pub fn new(info: RequestBegin) -> (r: Self)
        ensures
            r.line() == info,
            r.fields() == Seq::<(Seq<char>, Seq<Seq<char>>)>::empty(),
    {
        Http1Request { info, headers: headers_new() }
    }

    /// Whether a header line can be recorded: its name and value are valid
    /// UTF-8.
    pub fn header_applies(item: &Option<(Vec<u8>, Vec<u8>)>) -> (r: bool)
        ensures
            r == (item matches Some((k, v)) ==> valid_utf8(k@) && valid_utf8(v@)),
    {
        match item {
            Some((k, v)) => crate::text::is_utf8(k.as_slice()) && crate::text::is_utf8(v.as_slice()),
            None => true,
        }
    }

    /// Takes one header line: a field is recorded under its name; the empty
    /// line ends the header block, which is reported by returning `true`.
    pub fn on_header(&mut self, item: Option<(Vec<u8>, Vec<u8>)>) -> (done: bool)
        requires
            item matches Some((k, v)) ==> valid_utf8(k@) && valid_utf8(v@),
        ensures
            done == (item is None),
            final(self).line() == old(self).line(),
            match item {
                Some((k, v)) => final(self).fields() == with_field(
                    old(self).fields(),
                    decode_utf8(k@),
                    decode_utf8(v@),
                ),
                None => final(self).fields() == old(self).fields(),
            },
            names_unique(old(self).fields()) ==> names_unique(final(self).fields()),
    {
        match item {
            Some((k, v)) => {
                proof {
                    if names_unique(self.fields()) {
                        lemma_with_field_unique(self.fields(), decode_utf8(k@), decode_utf8(v@));
                    }
                }
                let key = utf8_string(k.as_slice());
                let value = utf8_string(v.as_slice());
                headers_push(&mut self.headers, key, value);
                false
            },
            None => true,
        }
    }

    /// What the parser reports once the header block is complete: the
    /// request is HTTP/1, to be forwarded unchanged.
    pub fn parsed_data(&self) -> (r: RequestParsedData)
        ensures
            r.protocol@ == PROTOCOL@,
            r.content is Raw,
    {
        RequestParsedData { protocol: PROTOCOL, content: RequestParsedContent::Raw }
    }
}

} // verus!

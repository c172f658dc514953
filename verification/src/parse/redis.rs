//! Redis (RESP) commands and simple replies, read as a stream.
use vstd::prelude::*;
use vstd::utf8::*;
use crate::error::ErrorKind;
use crate::grammar::{
    crlf, crlf_at, crlf_bytes, first_stop, stops, lemma_first_stop_run, lemma_tag_present,
    lemma_tag_refused, digit1, digit1_at, is_digit, is_not, is_not_at, lemma_crlf_extend,
    lemma_digit1_extend, lemma_first_stop, lemma_is_not_extend, lemma_tag_extend,
    lemma_take_extend, tag, tag_at, take, take_at, Grammar, Outcome, Step, Stop,
};
use crate::parse::{RequestParsedContent, RequestParsedData};
use crate::text::utf8_string;

verus! {

/// The value of a string of decimal digits.
pub open spec fn decimal(b: Seq<u8>) -> nat
    decreases b.len(),
{
    if b.len() == 0 {
        0
    } else {
        decimal(b.drop_last()) * 10 + (b.last() - 0x30) as nat
    }
}

pub proof fn lemma_decimal_grows(b: Seq<u8>, i: int)
    requires
        0 <= i <= b.len(),
        forall|k: int| 0 <= k < b.len() ==> is_digit(#[trigger] b[k]),
    ensures
        decimal(b.subrange(0, i)) <= decimal(b),
    decreases b.len() - i,
{
    if i < b.len() {
        lemma_decimal_grows(b, i + 1);
        let c = b.subrange(0, i + 1);
        assert(c.drop_last() =~= b.subrange(0, i));
        assert(c.last() == b[i]);
    } else {
        assert(b.subrange(0, i) =~= b);
    }
}

/// `lead` then one or more digits then CRLF, as the positions of the
/// digits (`a..b`) and the position after the line.  The digits are read
/// when they are complete, even if the line then fails.
pub open spec fn counted_digits_at(s: Seq<u8>, lead: u8) -> Outcome<(int, int)> {
    match tag_at(s, 0, seq![lead], ErrorKind::Tag) {
        Outcome::Done(a, _) => match digit1_at(s, a) {
            Outcome::Done(b, _) => match crlf_at(s, b) {
                Outcome::Done(q, _) => Outcome::Done(q, (a, b)),
                o => o.pass(),
            },
            o => o.pass(),
        },
        o => o.pass(),
    }
}

/// The complete run of digits after `lead`, when there is one.
pub open spec fn lead_digits(s: Seq<u8>, lead: u8) -> Option<Seq<u8>> {
    match tag_at(s, 0, seq![lead], ErrorKind::Tag) {
        Outcome::Done(a, _) => match digit1_at(s, a) {
            Outcome::Done(b, _) => Some(s.subrange(a, b)),
            _ => None,
        },
        _ => None,
    }
}

/// Reading the number after `lead` is possible: its digits, once complete,
/// denote a value that fits a machine word.
pub open spec fn lead_number_fits(s: Seq<u8>, lead: u8) -> bool {
    lead_digits(s, lead) matches Some(d) ==> decimal(d) <= usize::MAX
}

/// `*<count>\r\n`, the head of a command: the number of arguments.
pub open spec fn args_count_outcome(s: Seq<u8>) -> Outcome<usize> {
    match counted_digits_at(s, 0x2a) {
        Outcome::Done(q, (a, b)) => Outcome::Done(q, decimal(s.subrange(a, b)) as usize),
        o => o.pass(),
    }
}

/// `$<len>\r\n<len bytes>\r\n`, one argument of a command, as bytes.
pub open spec fn arg_at(s: Seq<u8>) -> Outcome<Seq<u8>> {
    match counted_digits_at(s, 0x24) {
        Outcome::Done(p, (a, b)) => {
            let n = decimal(s.subrange(a, b)) as int;
            match take_at(s, p, n) {
                Outcome::Done(r, _) => match crlf_at(s, r) {
                    Outcome::Done(q, _) => Outcome::Done(q, s.subrange(p, r)),
                    o => o.pass(),
                },
                o => o.pass(),
            }
        },
        o => o.pass(),
    }
}

pub open spec fn req_arg_defined(s: Seq<u8>) -> bool {
    &&& lead_number_fits(s, 0x24)
    &&& arg_at(s) matches Outcome::Done(_, a) ==> valid_utf8(a)
}

pub open spec fn req_arg_outcome(s: Seq<u8>) -> Outcome<Seq<char>> {
    match arg_at(s) {
        Outcome::Done(q, a) => Outcome::Done(q, decode_utf8(a)),
        o => o.pass(),
    }
}

/// `lead` then one or more bytes other than CR and LF then CRLF, as the
/// text bytes.
pub open spec fn text_line_at(s: Seq<u8>, lead: u8) -> Outcome<Seq<u8>> {
    match tag_at(s, 0, seq![lead], ErrorKind::Tag) {
        Outcome::Done(a, _) => match is_not_at(s, a, Stop::LineEnd) {
            Outcome::Done(b, _) => match crlf_at(s, b) {
                Outcome::Done(q, _) => Outcome::Done(q, s.subrange(a, b)),
                o => o.pass(),
            },
            o => o.pass(),
        },
        o => o.pass(),
    }
}

/// A simple reply `+text\r\n` (success) or an error reply `-text\r\n`.
pub open spec fn reply_at(s: Seq<u8>) -> Outcome<(bool, Seq<u8>)> {
    match text_line_at(s, 0x2b) {
        Outcome::Done(q, t) => Outcome::Done(q, (true, t)),
        Outcome::Incomplete => Outcome::Incomplete,
        Outcome::Failed(_, _) => match text_line_at(s, 0x2d) {
            Outcome::Done(q, t) => Outcome::Done(q, (false, t)),
            o => o.pass(),
        },
    }
}

pub open spec fn resp_defined(s: Seq<u8>) -> bool {
    reply_at(s) matches Outcome::Done(_, (_, t)) ==> valid_utf8(t)
}

pub open spec fn resp_outcome(s: Seq<u8>) -> Outcome<(bool, Seq<char>)> {
    match reply_at(s) {
        Outcome::Done(q, (ok, t)) => Outcome::Done(q, (ok, decode_utf8(t))),
        o => o.pass(),
    }
}

/* Laws: verdicts stand when more bytes arrive. */

pub proof fn lemma_counted_digits_extend(s: Seq<u8>, t: Seq<u8>, lead: u8)
    ensures
        counted_digits_at(s, lead).within(0, s.len() as int),
        counted_digits_at(s, lead) matches Outcome::Done(q, (a, b)) ==> 0 <= a <= b <= q,
        counted_digits_at(s, lead).is_verdict() ==> counted_digits_at(s + t, lead)
            == counted_digits_at(s, lead),
        lead_digits(s, lead) is Some ==> lead_digits(s + t, lead) == lead_digits(s, lead),
        lead_digits(s, lead) matches Some(d) ==> forall|k: int|
            0 <= k < d.len() ==> is_digit(#[trigger] d[k]),
        counted_digits_at(s, lead) matches Outcome::Done(_, (a, b)) ==> lead_digits(s, lead)
            == Some(s.subrange(a, b)),
{
    lemma_tag_extend(s, t, 0, seq![lead], ErrorKind::Tag);
    if let Outcome::Done(a, _) = tag_at(s, 0, seq![lead], ErrorKind::Tag) {
        lemma_digit1_extend(s, t, a);
        lemma_first_stop(s, a, Stop::NonDigit);
        if let Outcome::Done(b, _) = digit1_at(s, a) {
            assert((s + t).subrange(a, b) =~= s.subrange(a, b));
            lemma_crlf_extend(s, t, b);
        }
    }
}

pub proof fn lemma_arg_extend(s: Seq<u8>, t: Seq<u8>)
    ensures
        arg_at(s).within(0, s.len() as int),
        arg_at(s).is_verdict() ==> arg_at(s + t) == arg_at(s),
{
    lemma_counted_digits_extend(s, t, 0x24);
    if let Outcome::Done(p, (a, b)) = counted_digits_at(s, 0x24) {
        assert((s + t).subrange(a, b) =~= s.subrange(a, b));
        let n = decimal(s.subrange(a, b)) as int;
        lemma_take_extend(s, t, p, n);
        if let Outcome::Done(r, _) = take_at(s, p, n) {
            assert((s + t).subrange(p, r) =~= s.subrange(p, r));
            lemma_crlf_extend(s, t, r);
        }
    }
}

pub proof fn lemma_text_line_extend(s: Seq<u8>, t: Seq<u8>, lead: u8)
    ensures
        text_line_at(s, lead).within(0, s.len() as int),
        text_line_at(s, lead).is_verdict() ==> text_line_at(s + t, lead) == text_line_at(s, lead),
{
    lemma_tag_extend(s, t, 0, seq![lead], ErrorKind::Tag);
    if let Outcome::Done(a, _) = tag_at(s, 0, seq![lead], ErrorKind::Tag) {
        lemma_is_not_extend(s, t, a, Stop::LineEnd);
        if let Outcome::Done(b, _) = is_not_at(s, a, Stop::LineEnd) {
            assert((s + t).subrange(a, b) =~= s.subrange(a, b));
            lemma_crlf_extend(s, t, b);
        }
    }
}

pub proof fn lemma_reply_extend(s: Seq<u8>, t: Seq<u8>)
    ensures
        reply_at(s).within(0, s.len() as int),
        reply_at(s).is_verdict() ==> reply_at(s + t) == reply_at(s),
{
    lemma_text_line_extend(s, t, 0x2b);
    lemma_text_line_extend(s, t, 0x2d);
}


/* Laws: what a client writes reads back as itself. */

/// The decimal digits of `n`, with no leading zero.
pub open spec fn digits_of(n: nat) -> Seq<u8>
    decreases n,
{
    if n < 10 {
        seq![(0x30 + n) as u8]
    } else {
        digits_of(n / 10).push((0x30 + n % 10) as u8)
    }
}

/// The digits of `n` are one or more decimal digits that denote `n`.
pub proof fn lemma_digits_of(n: nat)
    ensures
        digits_of(n).len() >= 1,
        forall|k: int| 0 <= k < digits_of(n).len() ==> is_digit(#[trigger] digits_of(n)[k]),
        decimal(digits_of(n)) == n,
    decreases n,
{
    if n < 10 {
        let x = digits_of(n);
        assert(x.drop_last() =~= Seq::<u8>::empty());
        assert(x.last() == (0x30 + n) as u8);
        assert(decimal(x) == decimal(x.drop_last()) * 10 + (x.last() - 0x30) as nat);
    } else {
        lemma_digits_of(n / 10);
        let d = digits_of(n / 10);
        let c = (0x30 + n % 10) as u8;
        assert(digits_of(n) == d.push(c));
        assert(d.push(c).drop_last() =~= d);
        assert forall|k: int| 0 <= k < d.push(c).len() implies is_digit(#[trigger] d.push(c)[k]) by {
            if k < d.len() {
                assert(d.push(c)[k] == d[k]);
            }
        }
        assert(n % 10 < 10);
        assert(c - 0x30 == n % 10);
        assert(d.push(c).last() == c);
        assert(decimal(d.push(c)) == decimal(d) * 10 + (c - 0x30) as nat);
        assert((n / 10) * 10 + n % 10 == n);
    }
}

/// One argument of a command as a client writes it: `$`, the length in
/// decimal, CRLF, the bytes, CRLF.
pub open spec fn arg_encoding(a: Seq<u8>) -> Seq<u8> {
    seq![0x24u8] + digits_of(a.len()) + crlf_bytes() + a + crlf_bytes()
}

/// Reading any prefix of an encoded argument followed by more bytes: the
/// argument once all of its encoding is there, a request for more bytes
/// before.
proof fn lemma_arg_prefix(a: Seq<u8>, rest: Seq<u8>, k: int)
    requires
        0 <= k <= arg_encoding(a).len() + rest.len(),
    ensures
        arg_at((arg_encoding(a) + rest).take(k)) == if k >= arg_encoding(a).len() {
            Outcome::Done(arg_encoding(a).len() as int, a)
        } else {
            Outcome::<Seq<u8>>::Incomplete
        },
{
    let d = digits_of(a.len());
    lemma_digits_of(a.len());
    let e = arg_encoding(a);
    let u = e + rest;
    let s = u.take(k);
    let b: int = 1 + d.len() as int;
    let p: int = b + 2;
    let r: int = p + a.len();
    assert(e.len() == r + 2);
    assert(forall|i: int| 0 <= i < k ==> s[i] == u[i]);
    assert(forall|i: int| 0 <= i < e.len() ==> u[i] == e[i]);
    assert(e[0] == 0x24u8);
    assert(forall|i: int| 1 <= i < b ==> e[i] == d[i - 1]);
    assert(e[b] == 0x0du8 && e[b + 1] == 0x0au8);
    assert(forall|i: int| p <= i < r ==> e[i] == a[i - p]);
    assert(e[r] == 0x0du8 && e[r + 1] == 0x0au8);
    let lead = seq![0x24u8];
    if k == 0 {
        assert(s.subrange(0, 0) =~= lead.subrange(0, 0));
        assert(tag_at(s, 0, lead, ErrorKind::Tag) is Incomplete);
        return;
    }
    assert(s.subrange(0, 1) =~= lead);
    assert(tag_at(s, 0, lead, ErrorKind::Tag) == Outcome::Done(1int, ()));
    lemma_first_stop(s, 1, Stop::NonDigit);
    let fs = first_stop(s, 1, Stop::NonDigit);
    if k <= b {
        if fs < k {
            assert(is_digit(d[fs - 1]));
            assert(s[fs] == d[fs - 1]);
        }
        assert(digit1_at(s, 1) is Incomplete);
        return;
    }
    if fs > b {
        assert(!stops(Stop::NonDigit, s[b]));
    }
    if fs < b {
        assert(is_digit(d[fs - 1]));
        assert(s[fs] == d[fs - 1]);
    }
    assert(fs == b);
    assert(digit1_at(s, 1) == Outcome::Done(b, ()));
    if k == b + 1 {
        assert(s.subrange(b, k) =~= crlf_bytes().subrange(0, 1));
        assert(crlf_at(s, b) is Incomplete);
        return;
    }
    assert(s.subrange(b, b + 2) =~= crlf_bytes());
    assert(crlf_at(s, b) == Outcome::Done(p, ()));
    assert(s.subrange(1, b) =~= d);
    assert(counted_digits_at(s, 0x24) == Outcome::Done(p, (1int, b)));
    if k < r {
        assert(take_at(s, p, a.len() as int) is Incomplete);
        return;
    }
    assert(take_at(s, p, a.len() as int) == Outcome::Done(r, ()));
    if k == r {
        assert(s.subrange(r, r) =~= crlf_bytes().subrange(0, 0));
        assert(crlf_at(s, r) is Incomplete);
        return;
    }
    if k == r + 1 {
        assert(s.subrange(r, r + 1) =~= crlf_bytes().subrange(0, 1));
        assert(crlf_at(s, r) is Incomplete);
        return;
    }
    assert(s.subrange(r, r + 2) =~= crlf_bytes());
    assert(crlf_at(s, r) == Outcome::Done(r + 2, ()));
    assert(s.subrange(p, r) =~= a);
}

/// An argument written as a client writes it reads back as itself, with
/// the position just after it, whatever bytes follow; on any strict prefix
/// of it the reader asks for more bytes.
pub proof fn lemma_arg_round_trip(a: Seq<u8>, rest: Seq<u8>)
    ensures
        arg_at(arg_encoding(a) + rest) == Outcome::Done(arg_encoding(a).len() as int, a),
        forall|k: int|
            0 <= k < arg_encoding(a).len() ==> #[trigger] arg_at(arg_encoding(a).take(k))
                is Incomplete,
{
    let e = arg_encoding(a);
    lemma_arg_prefix(a, rest, (e.len() + rest.len()) as int);
    assert((e + rest).take((e.len() + rest.len()) as int) =~= e + rest);
    assert forall|k: int| 0 <= k < e.len() implies #[trigger] arg_at(e.take(k)) is Incomplete by {
        lemma_arg_prefix(a, rest, k);
        assert((e + rest).take(k) =~= e.take(k));
    }
}

/// A text argument written as a client writes it, as the UTF-8 encoding of
/// its characters, reads back as the same text, whatever bytes follow; on
/// any strict prefix of it the reader asks for more bytes.
pub proof fn lemma_req_arg_round_trip(text: Seq<char>, rest: Seq<u8>)
    requires
        encode_utf8(text).len() <= usize::MAX,
    ensures
        req_arg_defined(arg_encoding(encode_utf8(text)) + rest),
        req_arg_outcome(arg_encoding(encode_utf8(text)) + rest) == Outcome::Done(
            arg_encoding(encode_utf8(text)).len() as int,
            text,
        ),
        forall|k: int|
            0 <= k < arg_encoding(encode_utf8(text)).len() ==> #[trigger] req_arg_outcome(
                arg_encoding(encode_utf8(text)).take(k),
            ) is Incomplete,
{
    let a = encode_utf8(text);
    let e = arg_encoding(a);
    let s = e + rest;
    lemma_arg_round_trip(a, rest);
    encode_utf8_valid_utf8(text);
    encode_utf8_decode_utf8(text);
    lemma_digits_of(a.len());
    lemma_counted_digits_extend(s, Seq::empty(), 0x24);
    let d = digits_of(a.len());
    assert(s.subrange(1, 1 + d.len() as int) =~= d);
    assert(lead_digits(s, 0x24) == Some(d));
    assert forall|k: int| 0 <= k < e.len() implies #[trigger] req_arg_outcome(e.take(k))
        is Incomplete by {
        assert(arg_at(e.take(k)) is Incomplete);
    }
}

/// A count or length written in decimal after `lead`, then CRLF, is read
/// with its digits just after the lead byte.
proof fn lemma_counted_digits_of(lead: u8, n: nat, rest: Seq<u8>)
    ensures
        ({
            let d = digits_of(n);
            let s = seq![lead] + d + crlf_bytes() + rest;
            &&& counted_digits_at(s, lead) == Outcome::Done(
                (d.len() + 3) as int,
                (1int, 1 + d.len() as int),
            )
            &&& s.subrange(1, 1 + d.len() as int) == d
            &&& lead_digits(s, lead) == Some(d)
        }),
{
    lemma_digits_of(n);
    let d = digits_of(n);
    let s = seq![lead] + d + crlf_bytes() + rest;
    let b = 1 + d.len() as int;
    assert(s[0] == lead);
    assert(forall|i: int| 1 <= i < b ==> s[i] == d[i - 1]);
    assert(s[b] == 0x0du8 && s[b + 1] == 0x0au8);
    assert forall|i: int| 0 <= i < seq![lead].len() implies s[0 + i] == #[trigger] seq![lead][i] by {}
    lemma_tag_present(s, 0, seq![lead], ErrorKind::Tag);
    assert forall|i: int| 1 <= i < b implies !stops(Stop::NonDigit, #[trigger] s[i]) by {
        assert(s[i] == d[i - 1]);
    }
    lemma_first_stop_run(s, 1, b, Stop::NonDigit);
    assert(digit1_at(s, 1) == Outcome::Done(b, ()));
    assert forall|i: int| 0 <= i < crlf_bytes().len() implies s[b + i] == #[trigger] crlf_bytes()[i] by {}
    lemma_tag_present(s, b, crlf_bytes(), ErrorKind::CrLf);
    assert(s.subrange(1, b) =~= d);
}

/// A command head written by a client, `*` and the count in decimal then
/// CRLF, followed by anything, reads back as that count when it fits a
/// machine word.
pub proof fn lemma_args_count_round_trip(n: nat, rest: Seq<u8>)
    requires
        n <= usize::MAX,
    ensures
        lead_number_fits(seq![0x2au8] + digits_of(n) + crlf_bytes() + rest, 0x2a),
        args_count_outcome(seq![0x2au8] + digits_of(n) + crlf_bytes() + rest) == Outcome::Done(
            (digits_of(n).len() + 3) as int,
            n as usize,
        ),
{
    lemma_counted_digits_of(0x2a, n, rest);
    lemma_digits_of(n);
}

/// A line of text written after `lead`, then CRLF, is read back as that
/// text whatever follows.
proof fn lemma_text_line_written(lead: u8, t: Seq<u8>, rest: Seq<u8>)
    requires
        t.len() > 0,
        forall|i: int| 0 <= i < t.len() ==> #[trigger] t[i] != 0x0d && t[i] != 0x0a,
    ensures
        text_line_at(seq![lead] + t + crlf_bytes() + rest, lead) == Outcome::Done((t.len() + 3) as int, t),
{
    let s = seq![lead] + t + crlf_bytes() + rest;
    let b = 1 + t.len() as int;
    assert(s[0] == lead);
    assert(forall|i: int| 1 <= i < b ==> s[i] == t[i - 1]);
    assert(s[b] == 0x0du8 && s[b + 1] == 0x0au8);
    assert forall|i: int| 0 <= i < seq![lead].len() implies s[0 + i] == #[trigger] seq![lead][i] by {}
    lemma_tag_present(s, 0, seq![lead], ErrorKind::Tag);
    assert forall|i: int| 1 <= i < b implies !stops(Stop::LineEnd, #[trigger] s[i]) by {
        assert(s[i] == t[i - 1]);
    }
    lemma_first_stop_run(s, 1, b, Stop::LineEnd);
    assert forall|i: int| 0 <= i < crlf_bytes().len() implies s[b + i] == #[trigger] crlf_bytes()[i] by {}
    lemma_tag_present(s, b, crlf_bytes(), ErrorKind::CrLf);
    assert(s.subrange(1, b) =~= t);
}

/// A reply written by a server, `+` or `-`, a line of text, CRLF, followed
/// by anything, reads back as that text, a success exactly when it starts
/// with `+` and an error exactly when it starts with `-`.
pub proof fn lemma_reply_round_trip(t: Seq<u8>, rest: Seq<u8>)
    requires
        t.len() > 0,
        forall|i: int| 0 <= i < t.len() ==> #[trigger] t[i] != 0x0d && t[i] != 0x0a,
    ensures
        reply_at(seq![0x2bu8] + t + crlf_bytes() + rest) == Outcome::Done((t.len() + 3) as int, (true, t)),
        reply_at(seq![0x2du8] + t + crlf_bytes() + rest) == Outcome::Done((t.len() + 3) as int, (false, t)),
{
    lemma_text_line_written(0x2b, t, rest);
    lemma_text_line_written(0x2d, t, rest);
    let e = seq![0x2du8] + t + crlf_bytes() + rest;
    assert(e[0] == 0x2du8);
    lemma_tag_refused(e, 0, seq![0x2bu8], ErrorKind::Tag, 0);
}

/// The same with the text decoded: a reply whose text is the UTF-8 encoding
/// of some characters reads back as those characters.
pub proof fn lemma_resp_round_trip(text: Seq<char>, rest: Seq<u8>)
    requires
        encode_utf8(text).len() > 0,
        forall|i: int|
            0 <= i < encode_utf8(text).len() ==> #[trigger] encode_utf8(text)[i] != 0x0d
                && encode_utf8(text)[i] != 0x0a,
    ensures
        resp_defined(seq![0x2bu8] + encode_utf8(text) + crlf_bytes() + rest),
        resp_outcome(seq![0x2bu8] + encode_utf8(text) + crlf_bytes() + rest) == Outcome::Done(
            (encode_utf8(text).len() + 3) as int,
            (true, text),
        ),
        resp_defined(seq![0x2du8] + encode_utf8(text) + crlf_bytes() + rest),
        resp_outcome(seq![0x2du8] + encode_utf8(text) + crlf_bytes() + rest) == Outcome::Done(
            (encode_utf8(text).len() + 3) as int,
            (false, text),
        ),
{
    lemma_reply_round_trip(encode_utf8(text), rest);
    encode_utf8_valid_utf8(text);
    encode_utf8_decode_utf8(text);
}

/// What a line of text after `lead` is read from: the bytes consumed are
/// the lead byte, one or more bytes other than CR and LF, which are the
/// text read, and CRLF.
proof fn lemma_text_line_read(s: Seq<u8>, lead: u8)
    ensures
        text_line_at(s, lead) matches Outcome::Done(q, t) ==> {
            &&& 0 <= q <= s.len()
            &&& t.len() > 0
            &&& forall|i: int| 0 <= i < t.len() ==> #[trigger] t[i] != 0x0d && t[i] != 0x0a
            &&& s.take(q) == seq![lead] + t + crlf_bytes()
        },
{
    lemma_text_line_extend(s, Seq::empty(), lead);
    if let Outcome::Done(q, t) = text_line_at(s, lead) {
        lemma_first_stop(s, 1, Stop::LineEnd);
        let b = first_stop(s, 1, Stop::LineEnd);
        assert(s.subrange(0, 1) == seq![lead]);
        assert(t == s.subrange(1, b));
        assert(s.subrange(b, b + 2) == crlf_bytes());
        assert(q == b + 2);
        assert forall|i: int| 0 <= i < t.len() implies #[trigger] t[i] != 0x0d && t[i] != 0x0a by {
            assert(t[i] == s[1 + i]);
        }
        let line = seq![lead] + t + crlf_bytes();
        assert forall|i: int| 0 <= i < q implies s.take(q)[i] == #[trigger] line[i] by {
            if i == 0 {
                assert(s.subrange(0, 1)[0] == lead);
            } else if i < b {
                assert(line[i] == t[i - 1]);
            } else {
                assert(s.subrange(b, b + 2)[i - b] == crlf_bytes()[i - b]);
            }
        }
        assert(s.take(q) =~= line);
    }
}

/// What a reply is read from: the bytes consumed are `+` (a success) or `-`
/// (an error), then the text read, one or more bytes other than CR and LF,
/// then CRLF.
pub proof fn lemma_reply_read(s: Seq<u8>)
    ensures
        reply_at(s) matches Outcome::Done(q, (ok, t)) ==> {
            &&& 0 <= q <= s.len()
            &&& t.len() > 0
            &&& forall|i: int| 0 <= i < t.len() ==> #[trigger] t[i] != 0x0d && t[i] != 0x0a
            &&& s.take(q) == seq![if ok { 0x2bu8 } else { 0x2du8 }] + t + crlf_bytes()
        },
{
    lemma_text_line_read(s, 0x2b);
    lemma_text_line_read(s, 0x2d);
}

/// What a command head is read from: the bytes consumed are `*`, one or
/// more decimal digits, and CRLF, and the count read is the value of those
/// digits.
pub proof fn lemma_args_count_read(s: Seq<u8>)
    requires
        lead_number_fits(s, 0x2a),
    ensures
        args_count_outcome(s) matches Outcome::Done(q, n) ==> {
            &&& 4 <= q <= s.len()
            &&& s[0] == 0x2a
            &&& forall|i: int| 1 <= i < q - 2 ==> is_digit(#[trigger] s[i])
            &&& s.subrange(q - 2, q) == crlf_bytes()
            &&& n == decimal(s.subrange(1, q - 2))
        },
{
    lemma_counted_digits_extend(s, Seq::empty(), 0x2a);
    if let Outcome::Done(q, n) = args_count_outcome(s) {
        lemma_first_stop(s, 1, Stop::NonDigit);
        let b = first_stop(s, 1, Stop::NonDigit);
        assert(s.subrange(0, 1) == seq![0x2au8]);
        assert(s.subrange(0, 1)[0] == s[0]);
        assert(q == b + 2);
        assert(lead_digits(s, 0x2a) == Some(s.subrange(1, b)));
    }
}

/// What an argument is read from: the bytes consumed are `$`, one or more
/// decimal digits whose value is the length of the argument, CRLF, the
/// argument, and CRLF.
pub proof fn lemma_arg_read(s: Seq<u8>)
    ensures
        arg_at(s) matches Outcome::Done(q, a) ==> {
            let b = q - a.len() - 4;
            &&& 2 <= b
            &&& q <= s.len()
            &&& s[0] == 0x24
            &&& forall|i: int| 1 <= i < b ==> is_digit(#[trigger] s[i])
            &&& decimal(s.subrange(1, b)) == a.len()
            &&& s.subrange(b, b + 2) == crlf_bytes()
            &&& s.subrange(b + 2, q - 2) == a
            &&& s.subrange(q - 2, q) == crlf_bytes()
        },
{
    lemma_arg_extend(s, Seq::empty());
    lemma_counted_digits_extend(s, Seq::empty(), 0x24);
    if let Outcome::Done(q, a) = arg_at(s) {
        lemma_first_stop(s, 1, Stop::NonDigit);
        let b = first_stop(s, 1, Stop::NonDigit);
        assert(s.subrange(0, 1) == seq![0x24u8]);
        assert(s.subrange(0, 1)[0] == s[0]);
        let n = decimal(s.subrange(1, b)) as int;
        let p = b + 2;
        assert(a == s.subrange(p, p + n));
        assert(q == p + n + 2);
    }
}

/* Executable rules. */

/// The value of the digits `s[a..b]`, or `None` when it does not fit a
/// machine word.
fn parse_decimal(s: &[u8], a: usize, b: usize) -> (r: Option<usize>)
    requires
        a <= b <= s@.len(),
        forall|k: int| a <= k < b ==> is_digit(#[trigger] s@[k]),
    ensures
        r matches Some(n) ==> n == decimal(s@.subrange(a as int, b as int)),
        r is None <==> decimal(s@.subrange(a as int, b as int)) > usize::MAX,
{
    let ghost whole = s@.subrange(a as int, b as int);
    let mut acc: usize = 0;
    let mut i = a;
    assert(s@.subrange(a as int, a as int) =~= Seq::<u8>::empty());
    while i < b
        invariant
            a <= i <= b <= s@.len(),
            whole == s@.subrange(a as int, b as int),
            forall|k: int| a <= k < b ==> is_digit(#[trigger] s@[k]),
            acc == decimal(s@.subrange(a as int, i as int)),
        decreases b - i,
    {
        let ghost next = s@.subrange(a as int, i + 1);
        assert(next.drop_last() =~= s@.subrange(a as int, i as int));
        assert(next.last() == s@[i as int]);
        assert(is_digit(s@[i as int]));
        let d = (s[i] - 0x30) as usize;
        assert(decimal(next) == acc * 10 + d);
        assert(whole.subrange(0, i + 1 - a) =~= next);
        assert forall|k: int| 0 <= k < whole.len() implies is_digit(#[trigger] whole[k]) by {
            assert(whole[k] == s@[a + k]);
        }
        match acc.checked_mul(10) {
            Some(m) => match m.checked_add(d) {
                Some(n) => {
                    acc = n;
                },
                None => {
                    proof {
                        lemma_decimal_grows(whole, i + 1 - a);
                    }
                    return None;
                },
            },
            None => {
                proof {
                    lemma_decimal_grows(whole, i + 1 - a);
                }
                return None;
            },
        }
        i = i + 1;
    }
    Some(acc)
}

/// `lead`, digits and CRLF: the positions of the digits and of the end of
/// the line.
fn counted_digits(s: &[u8], lead: u8) -> (r: Step<(usize, usize)>)
    ensures
        match counted_digits_at(s@, lead) {
            Outcome::Done(q, (a, b)) => r matches Step::Done(q2, (a2, b2)) && q2 == q && a2 == a
                && b2 == b,
            o => r@ == o.pass::<(usize, usize)>(),
        },
{
    proof {
        lemma_counted_digits_extend(s@, Seq::empty(), lead);
    }
    let head: [u8; 1] = [lead];
    assert(head@ =~= seq![lead]);
    let a = match tag(s, 0, &head, ErrorKind::Tag) {
        Step::Done(q, _) => q,
        Step::Incomplete => return Step::Incomplete,
        Step::Failed(e, k) => return Step::Failed(e, k),
    };
    let b = match digit1(s, a) {
        Step::Done(q, _) => q,
        Step::Incomplete => return Step::Incomplete,
        Step::Failed(e, k) => return Step::Failed(e, k),
    };
    match crlf(s, b) {
        Step::Done(q, _) => Step::Done(q, (a, b)),
        Step::Incomplete => Step::Incomplete,
        Step::Failed(e, k) => Step::Failed(e, k),
    }
}

/// Whether the number after `lead`, once its digits are complete, fits a
/// machine word.
fn lead_number_fits_exec(s: &[u8], lead: u8) -> (r: bool)
    ensures
        r == lead_number_fits(s@, lead),
{
    proof {
        lemma_counted_digits_extend(s@, Seq::empty(), lead);
    }
    let head: [u8; 1] = [lead];
    assert(head@ =~= seq![lead]);
    let a = match tag(s, 0, &head, ErrorKind::Tag) {
        Step::Done(q, _) => q,
        _ => return true,
    };
    proof {
        lemma_first_stop(s@, a as int, Stop::NonDigit);
    }
    match digit1(s, a) {
        Step::Done(b, _) => parse_decimal(s, a, b).is_some(),
        _ => true,
    }
}

/// Reads the head of a command, `*<count>\r\n`.
pub fn args_count(input: &[u8]) -> (r: Step<usize>)
    requires
        lead_number_fits(input@, 0x2a),
    ensures
        r@ == args_count_outcome(input@),
{
    proof {
        lemma_counted_digits_extend(input@, Seq::empty(), 0x2a);
    }
    match counted_digits(input, 0x2a) {
        Step::Done(q, (a, b)) => {
            proof {
                lemma_first_stop(input@, a as int, Stop::NonDigit);
            }
            Step::Done(q, parse_decimal(input, a, b).unwrap())
        },
        Step::Incomplete => Step::Incomplete,
        Step::Failed(e, k) => Step::Failed(e, k),
    }
}

/// Whether the count of a command head, once its digits are complete, fits
/// a machine word.
pub fn args_count_applies(input: &[u8]) -> (r: bool)
    ensures
        r == lead_number_fits(input@, 0x2a),
{
    lead_number_fits_exec(input, 0x2a)
}

/// Reads one argument of a command, `$<len>\r\n<bytes>\r\n`, as text.
pub fn req_arg(input: &[u8]) -> (r: Step<String>)
    requires
        req_arg_defined(input@),
    ensures
        r@ == req_arg_outcome(input@),
{
    match req_arg_span(input) {
        Step::Done(q, (p, e)) => Step::Done(q, utf8_string(vstd::slice::slice_subrange(input, p, e))),
        Step::Incomplete => Step::Incomplete,
        Step::Failed(e, k) => Step::Failed(e, k),
    }
}

/// Whether an argument can be read: its length fits a machine word and its
/// bytes, once complete, are valid UTF-8.
pub fn req_arg_applies(input: &[u8]) -> (r: bool)
    ensures
        r == req_arg_defined(input@),
{
    if !lead_number_fits_exec(input, 0x24) {
        return false;
    }
    match req_arg_span(input) {
        Step::Done(_, (p, e)) => crate::text::is_utf8(vstd::slice::slice_subrange(input, p, e)),
        _ => true,
    }
}

/// The positions of the bytes of an argument.
fn req_arg_span(s: &[u8]) -> (r: Step<(usize, usize)>)
    requires
        lead_number_fits(s@, 0x24),
    ensures
        match arg_at(s@) {
            Outcome::Done(q, a) => r matches Step::Done(q2, (p, e)) && q2 == q && p <= e <= s@.len()
                && s@.subrange(p as int, e as int) == a,
            o => r@ == o.pass::<(usize, usize)>(),
        },
{
    proof {
        lemma_arg_extend(s@, Seq::empty());
        lemma_counted_digits_extend(s@, Seq::empty(), 0x24);
    }
    let (p, a, b) = match counted_digits(s, 0x24) {
        Step::Done(q, (a, b)) => (q, a, b),
        Step::Incomplete => return Step::Incomplete,
        Step::Failed(e, k) => return Step::Failed(e, k),
    };
    proof {
        lemma_first_stop(s@, a as int, Stop::NonDigit);
    }
    let n = parse_decimal(s, a, b).unwrap();
    let r = match take(s, p, n) {
        Step::Done(r, _) => r,
        Step::Incomplete => return Step::Incomplete,
        Step::Failed(e, k) => return Step::Failed(e, k),
    };
    match crlf(s, r) {
        Step::Done(q, _) => Step::Done(q, (p, r)),
        Step::Incomplete => Step::Incomplete,
        Step::Failed(e, k) => Step::Failed(e, k),
    }
}

/// `lead`, text and CRLF: the positions of the text.
fn text_line(s: &[u8], lead: u8) -> (r: Step<(usize, usize)>)
    ensures
        match text_line_at(s@, lead) {
            Outcome::Done(q, t) => r matches Step::Done(q2, (a, b)) && q2 == q && a <= b <= s@.len()
                && s@.subrange(a as int, b as int) == t,
            o => r@ == o.pass::<(usize, usize)>(),
        },
{
    proof {
        lemma_text_line_extend(s@, Seq::empty(), lead);
    }
    let head: [u8; 1] = [lead];
    assert(head@ =~= seq![lead]);
    let a = match tag(s, 0, &head, ErrorKind::Tag) {
        Step::Done(q, _) => q,
        Step::Incomplete => return Step::Incomplete,
        Step::Failed(e, k) => return Step::Failed(e, k),
    };
    let b = match is_not(s, a, Stop::LineEnd) {
        Step::Done(q, _) => q,
        Step::Incomplete => return Step::Incomplete,
        Step::Failed(e, k) => return Step::Failed(e, k),
    };
    match crlf(s, b) {
        Step::Done(q, _) => Step::Done(q, (a, b)),
        Step::Incomplete => Step::Incomplete,
        Step::Failed(e, k) => Step::Failed(e, k),
    }
}

/// A reply line: whether it is a success, and the positions of its text.
fn reply(s: &[u8]) -> (r: Step<(bool, usize, usize)>)
    ensures
        match reply_at(s@) {
            Outcome::Done(q, (ok, t)) => r matches Step::Done(q2, (ok2, a, b)) && q2 == q && ok2
                == ok && a <= b <= s@.len() && s@.subrange(a as int, b as int) == t,
            o => r@ == o.pass::<(bool, usize, usize)>(),
        },
{
    match text_line(s, 0x2b) {
        Step::Done(q, (a, b)) => return Step::Done(q, (true, a, b)),
        Step::Incomplete => return Step::Incomplete,
        Step::Failed(_, _) => {},
    }
    match text_line(s, 0x2d) {
        Step::Done(q, (a, b)) => Step::Done(q, (false, a, b)),
        Step::Incomplete => Step::Incomplete,
        Step::Failed(e, k) => Step::Failed(e, k),
    }
}

/// Reads a simple reply (`true` and its text) or an error reply (`false`
/// and its text).
pub fn resp(input: &[u8]) -> (r: Step<(bool, String)>)
    requires
        resp_defined(input@),
    ensures
        r@ == resp_outcome(input@),
{
    match reply(input) {
        Step::Done(q, (ok, a, b)) => Step::Done(
            q,
            (ok, utf8_string(vstd::slice::slice_subrange(input, a, b))),
        ),
        Step::Incomplete => Step::Incomplete,
        Step::Failed(e, k) => Step::Failed(e, k),
    }
}

/// Whether a reply can be read: its text, once complete, is valid UTF-8.
pub fn resp_applies(input: &[u8]) -> (r: bool)
    ensures
        r == resp_defined(input@),
{
    match reply(input) {
        Step::Done(_, (_, a, b)) => crate::text::is_utf8(vstd::slice::slice_subrange(input, a, b)),
        _ => true,
    }
}

/// The command head rule, for the receive loop.
pub struct ArgsCountRule;

/// The command argument rule, for the receive loop.
pub struct ReqArgRule;

/// The reply rule, for the receive loop.
pub struct RespRule;

impl Grammar for ArgsCountRule {
    type Output = usize;

    open spec fn defined(&self, s: Seq<u8>) -> bool {
        lead_number_fits(s, 0x2a)
    }

    open spec fn outcome(&self, s: Seq<u8>) -> Outcome<usize> {
        args_count_outcome(s)
    }

    fn applies(&self, s: &[u8]) -> (r: bool) {
        args_count_applies(s)
    }

    fn apply(&self, s: &[u8]) -> (r: Step<usize>) {
        args_count(s)
    }

    proof fn lemma_extend(&self, s: Seq<u8>, t: Seq<u8>) {
        lemma_counted_digits_extend(s, t, 0x2a);
        if let Outcome::Done(_, (a, b)) = counted_digits_at(s, 0x2a) {
            assert((s + t).subrange(a, b) =~= s.subrange(a, b));
        }
    }
}

impl Grammar for ReqArgRule {
    type Output = String;

    open spec fn defined(&self, s: Seq<u8>) -> bool {
        req_arg_defined(s)
    }

    open spec fn outcome(&self, s: Seq<u8>) -> Outcome<Seq<char>> {
        req_arg_outcome(s)
    }

    fn applies(&self, s: &[u8]) -> (r: bool) {
        req_arg_applies(s)
    }

    fn apply(&self, s: &[u8]) -> (r: Step<String>) {
        req_arg(s)
    }

    proof fn lemma_extend(&self, s: Seq<u8>, t: Seq<u8>) {
        lemma_arg_extend(s, t);
        lemma_counted_digits_extend(s, t, 0x24);
    }
}

impl Grammar for RespRule {
    type Output = (bool, String);

    open spec fn defined(&self, s: Seq<u8>) -> bool {
        resp_defined(s)
    }

    open spec fn outcome(&self, s: Seq<u8>) -> Outcome<(bool, Seq<char>)> {
        resp_outcome(s)
    }

    fn applies(&self, s: &[u8]) -> (r: bool) {
        resp_applies(s)
    }

    fn apply(&self, s: &[u8]) -> (r: Step<(bool, String)>) {
        resp(s)
    }

    proof fn lemma_extend(&self, s: Seq<u8>, t: Seq<u8>) {
        lemma_reply_extend(s, t);
    }
}


/* Reading requests: a head giving the number of arguments, then that many
   arguments; the first complete command identifies the connection. */

/// The name the Redis parser reports under.
pub const PROTOCOL: &'static str = "redis";

/// The requests read so far on a connection.
pub struct RedisRequest {
    sent: bool,
    remaining: usize,
    args: Vec<String>,
    /// How many commands have been read completely.
    commands: Ghost<nat>,
}

impl RedisRequest {
    /// The report has been made.
    pub closed spec fn sent(&self) -> bool {
        self.sent
    }

    /// How many arguments of the current command are still to come.
    pub closed spec fn remaining(&self) -> nat {
        self.remaining as nat
    }

    /// The arguments of the current (or last complete) command so far.
    pub closed spec fn args(&self) -> Seq<Seq<char>> {
        self.args@.map_values(|a: String| a@)
    }

    /// How many commands have been read completely.
    pub closed spec fn commands(&self) -> nat {
        self.commands@
    }

    /// The report is made exactly when some command is complete.
    pub closed spec fn wf(&self) -> bool {
        self.sent <==> self.commands@ > 0
    }

    /// No command read yet.
    pub fn new() -> (r: Self)
        ensures
            r.wf(),
            !r.sent(),
            r.remaining() == 0,
            r.args() == Seq::<Seq<char>>::empty(),
            r.commands() == 0,
    {
        let r = RedisRequest { sent: false, remaining: 0, args: Vec::new(), commands: Ghost(0) };
        assert(r.args() =~= Seq::<Seq<char>>::empty());
        r
    }

    /// Whether the next thing to read is the head of a command (otherwise
    /// it is an argument).
    pub fn wants_count(&self) -> (r: bool)
        ensures
            r == (self.remaining() == 0),
    {
        self.remaining == 0
    }

    /// The arguments of the current (or last complete) command so far.
    pub fn args_ref(&self) -> (r: &Vec<String>)
        ensures
            r@.map_values(|a: String| a@) == self.args(),
    {
        &self.args
    }

    /// A command is complete: the first time, the connection is reported as
    /// Redis, to be forwarded unchanged.
    fn complete(&mut self) -> (r: Option<RequestParsedData>)
        requires
            old(self).wf(),
        ensures
            final(self).wf(),
            final(self).sent(),
            final(self).commands() == old(self).commands() + 1,
            final(self).remaining() == old(self).remaining(),
            final(self).args() == old(self).args(),
            match r {
                Some(d) => !old(self).sent() && d.protocol@ == PROTOCOL@ && d.content is Raw,
                None => old(self).sent(),
            },
    {
        self.commands = Ghost(self.commands@ + 1);
        if !self.sent {
            self.sent = true;
            Some(RequestParsedData { protocol: PROTOCOL, content: RequestParsedContent::Raw })
        } else {
            None
        }
    }

    /// Takes the head of a command announcing `count` arguments.  A command
    /// without arguments is complete at once.
    pub fn on_count(&mut self, count: usize) -> (r: Option<RequestParsedData>)
        requires
            old(self).wf(),
            old(self).remaining() == 0,
        ensures
            final(self).wf(),
            final(self).remaining() == count,
            final(self).args() == Seq::<Seq<char>>::empty(),
            count == 0 ==> final(self).commands() == old(self).commands() + 1 && final(self).sent(),
            count > 0 ==> final(self).commands() == old(self).commands() && final(self).sent()
                == old(self).sent(),
            r is Some <==> count == 0 && !old(self).sent(),
            r matches Some(d) ==> d.protocol@ == PROTOCOL@ && d.content is Raw,
    {
        self.args = Vec::new();
        self.remaining = count;
        assert(self.args() =~= Seq::<Seq<char>>::empty());
        if count == 0 {
            self.complete()
        } else {
            None
        }
    }

    /// Takes one argument of the current command.  The last one completes
    /// the command.
    pub fn on_arg(&mut self, arg: String) -> (r: Option<RequestParsedData>)
        requires
            old(self).wf(),
            old(self).remaining() > 0,
        ensures
            final(self).wf(),
            final(self).remaining() == old(self).remaining() - 1,
            final(self).args() == old(self).args().push(arg@),
            final(self).remaining() == 0 ==> final(self).commands() == old(self).commands() + 1
                && final(self).sent(),
            final(self).remaining() > 0 ==> final(self).commands() == old(self).commands()
                && final(self).sent() == old(self).sent(),
            r is Some <==> final(self).remaining() == 0 && !old(self).sent(),
            r matches Some(d) ==> d.protocol@ == PROTOCOL@ && d.content is Raw,
    {
        let ghost before = self.args@;
        let ghost value = arg@;
        self.args.push(arg);
        assert(self.args() =~= before.map_values(|a: String| a@).push(value));
        self.remaining = self.remaining - 1;
        if self.remaining == 0 {
            self.complete()
        } else {
            None
        }
    }
}

} // verus!

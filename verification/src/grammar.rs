//! Streaming and complete byte-level rules from which the protocol grammars
//! are built.
//!
//! A streaming rule looks at a buffer that may still grow.  It answers
//! `Done` with the position just after what it recognised, `Incomplete` when
//! the bytes seen so far are a prefix of something it could still accept, or
//! `Failed` with the position where it gave up.  The laws at the end of the
//! file state that a `Done` or `Failed` verdict never changes when more bytes
//! arrive.
use vstd::prelude::*;
use crate::error::ErrorKind;

verus! {

/// Mathematical outcome of a streaming rule applied at a position of a buffer.
pub enum Outcome<V> {
    Done(int, V),
    Incomplete,
    Failed(int, ErrorKind),
}

impl<V> Outcome<V> {
    /// The rule has decided: it accepted the input or refused it.
    pub open spec fn is_verdict(self) -> bool {
        !(self is Incomplete)
    }

    /// Passes a non-accepting outcome on to an enclosing rule.
    pub open spec fn pass<W>(self) -> Outcome<W> {
        match self {
            Outcome::Failed(q, k) => Outcome::Failed(q, k),
            _ => Outcome::Incomplete,
        }
    }

    /// Every position the outcome reports lies in `lo..=hi`.
    pub open spec fn within(self, lo: int, hi: int) -> bool {
        match self {
            Outcome::Done(q, _) => lo <= q <= hi,
            Outcome::Failed(q, _) => lo <= q <= hi,
            Outcome::Incomplete => true,
        }
    }

    /// Replaces the value of an accepting outcome.
    pub open spec fn with_value<W>(self, w: W) -> Outcome<W> {
        match self {
            Outcome::Done(q, _) => Outcome::Done(q, w),
            _ => self.pass(),
        }
    }
}

/// Executable outcome of a streaming rule: the position after the accepted
/// bytes and the value read, a request for more bytes, or the position and
/// rule of a rejection.
#[derive(Debug, PartialEq, Eq)]
pub enum Step<T> {
    Done(usize, T),
    Incomplete,
    Failed(usize, ErrorKind),
}

impl<T: DeepView> View for Step<T> {
    type V = Outcome<T::V>;

    open spec fn view(&self) -> Outcome<T::V> {
        match self {
            Step::Done(q, t) => Outcome::Done(*q as int, t.deep_view()),
            Step::Incomplete => Outcome::Incomplete,
            Step::Failed(q, k) => Outcome::Failed(*q as int, *k),
        }
    }
}

/// Classes of bytes at which a scan stops.
#[derive(Clone, Copy, Debug, PartialEq, Eq, Structural)]
pub enum Stop {
    /// A space, a carriage return or a line feed.
    SpaceOrLineEnd,
    /// A carriage return or a line feed.
    LineEnd,
    /// A space, a carriage return, a line feed or a colon.
    KeyEnd,
    /// Anything but an ASCII decimal digit.
    NonDigit,
    /// A carriage return.
    Cr,
}

pub open spec fn is_digit(b: u8) -> bool {
    0x30 <= b <= 0x39
}

pub open spec fn stops(c: Stop, b: u8) -> bool {
    match c {
        Stop::SpaceOrLineEnd => b == 0x20 || b == 0x0d || b == 0x0a,
        Stop::LineEnd => b == 0x0d || b == 0x0a,
        Stop::KeyEnd => b == 0x20 || b == 0x0d || b == 0x0a || b == 0x3a,
        Stop::NonDigit => !is_digit(b),
        Stop::Cr => b == 0x0d,
    }
}

pub fn byte_stops(c: Stop, b: u8) -> (r: bool)
    ensures
        r == stops(c, b),
{
    match c {
        Stop::SpaceOrLineEnd => b == 0x20 || b == 0x0d || b == 0x0a,
        Stop::LineEnd => b == 0x0d || b == 0x0a,
        Stop::KeyEnd => b == 0x20 || b == 0x0d || b == 0x0a || b == 0x3a,
        Stop::NonDigit => !(0x30 <= b && b <= 0x39),
        Stop::Cr => b == 0x0d,
    }
}

/// The first position at or after `p` whose byte is in class `c`, or the
/// length of `s` when there is none.
pub open spec fn first_stop(s: Seq<u8>, p: int, c: Stop) -> int
    decreases s.len() - p,
{
    if p >= s.len() {
        s.len() as int
    } else if stops(c, s[p]) {
        p
    } else {
        first_stop(s, p + 1, c)
    }
}

pub proof fn lemma_first_stop(s: Seq<u8>, p: int, c: Stop)
    requires
        0 <= p <= s.len(),
    ensures
        p <= first_stop(s, p, c) <= s.len(),
        forall|i: int| p <= i < first_stop(s, p, c) ==> !stops(c, #[trigger] s[i]),
        first_stop(s, p, c) < s.len() ==> stops(c, s[first_stop(s, p, c)]),
    decreases s.len() - p,
{
    if p < s.len() && !stops(c, s[p]) {
        lemma_first_stop(s, p + 1, c);
    }
}

/// The literal `lit` at position `p`.
pub open spec fn tag_at(s: Seq<u8>, p: int, lit: Seq<u8>, kind: ErrorKind) -> Outcome<()> {
    if p + lit.len() <= s.len() {
        if s.subrange(p, p + lit.len()) == lit {
            Outcome::Done(p + lit.len(), ())
        } else {
            Outcome::Failed(p, kind)
        }
    } else if s.subrange(p, s.len() as int) == lit.subrange(0, s.len() - p) {
        Outcome::Incomplete
    } else {
        Outcome::Failed(p, kind)
    }
}

/// The single byte `b` at position `p`.
pub open spec fn byte_at(s: Seq<u8>, p: int, b: u8) -> Outcome<()> {
    if p >= s.len() {
        Outcome::Incomplete
    } else if s[p] == b {
        Outcome::Done(p + 1, ())
    } else {
        Outcome::Failed(p, ErrorKind::Char)
    }
}

/// One of the bytes `0` and `1` at position `p`; the value is the byte.
pub open spec fn bit_at(s: Seq<u8>, p: int) -> Outcome<u8> {
    if p >= s.len() {
        Outcome::Incomplete
    } else if s[p] == 0x30 || s[p] == 0x31 {
        Outcome::Done(p + 1, s[p])
    } else {
        Outcome::Failed(p, ErrorKind::OneOf)
    }
}

/// One or more bytes outside class `c`, followed by a byte in it.
pub open spec fn is_not_at(s: Seq<u8>, p: int, c: Stop) -> Outcome<()> {
    let q = first_stop(s, p, c);
    if q >= s.len() {
        Outcome::Incomplete
    } else if q == p {
        Outcome::Failed(p, ErrorKind::IsNot)
    } else {
        Outcome::Done(q, ())
    }
}

/// Zero or more decimal digits, followed by a byte that is not one.
pub open spec fn digits_at(s: Seq<u8>, p: int) -> Outcome<()> {
    let q = first_stop(s, p, Stop::NonDigit);
    if q >= s.len() {
        Outcome::Incomplete
    } else {
        Outcome::Done(q, ())
    }
}

/// One or more decimal digits, followed by a byte that is not one.
pub open spec fn digit1_at(s: Seq<u8>, p: int) -> Outcome<()> {
    let q = first_stop(s, p, Stop::NonDigit);
    if q >= s.len() {
        Outcome::Incomplete
    } else if q == p {
        Outcome::Failed(p, ErrorKind::Digit)
    } else {
        Outcome::Done(q, ())
    }
}

/// Exactly `n` bytes.
pub open spec fn take_at(s: Seq<u8>, p: int, n: int) -> Outcome<()> {
    if p + n <= s.len() {
        Outcome::Done(p + n, ())
    } else {
        Outcome::Incomplete
    }
}

/// The two bytes `\r\n`.
pub open spec fn crlf_bytes() -> Seq<u8> {
    seq![0x0du8, 0x0a]
}

pub open spec fn crlf_at(s: Seq<u8>, p: int) -> Outcome<()> {
    tag_at(s, p, crlf_bytes(), ErrorKind::CrLf)
}

/* Complete rules: the buffer is all there is. */

/// The literal `lit` at position `p`, with no more input to come.
pub open spec fn tag_end(s: Seq<u8>, p: int, lit: Seq<u8>) -> Option<int> {
    if p + lit.len() <= s.len() && s.subrange(p, p + lit.len()) == lit {
        Some(p + lit.len())
    } else {
        None
    }
}

/// The byte `b` at position `p`, with no more input to come.
pub open spec fn byte_end(s: Seq<u8>, p: int, b: u8) -> Option<int> {
    if p < s.len() && s[p] == b {
        Some(p + 1)
    } else {
        None
    }
}

/// One or more bytes outside class `c`, up to the first byte in it or to the
/// end of the input.
pub open spec fn is_not_end(s: Seq<u8>, p: int, c: Stop) -> Option<int> {
    let q = first_stop(s, p, c);
    if q == p {
        None
    } else {
        Some(q)
    }
}

/// One of the bytes `0` and `1` at position `p`, with no more input to come.
pub open spec fn bit_end(s: Seq<u8>, p: int) -> Option<(int, u8)> {
    if p < s.len() && (s[p] == 0x30 || s[p] == 0x31) {
        Some((p + 1, s[p]))
    } else {
        None
    }
}

/* Executable rules. */

pub fn find_stop(s: &[u8], p: usize, c: Stop) -> (q: usize)
    requires
        p <= s@.len(),
    ensures
        q as int == first_stop(s@, p as int, c),
{
    let mut i = p;
    proof {
        lemma_first_stop(s@, p as int, c);
    }
    while i < s.len()
        invariant
            p <= i <= s@.len(),
            first_stop(s@, p as int, c) == first_stop(s@, i as int, c),
        decreases s@.len() - i,
    {
        if byte_stops(c, s[i]) {
            return i;
        }
        i = i + 1;
    }
    i
}

pub fn tag(s: &[u8], p: usize, lit: &[u8], kind: ErrorKind) -> (r: Step<()>)
    requires
        p <= s@.len(),
    ensures
        r@ == tag_at(s@, p as int, lit@, kind),
        r@.within(p as int, s@.len() as int),
{
    proof {
        lemma_tag_extend(s@, Seq::empty(), p as int, lit@, kind);
    }
    let n = lit.len();
    let avail = s.len() - p;
    let m = if avail < n {
        avail
    } else {
        n
    };
    let mut i: usize = 0;
    while i < m
        invariant
            i <= m,
            m <= n,
            m <= avail,
            n == lit@.len(),
            avail == s@.len() - p,
            p + m <= s.len(),
            forall|j: int| 0 <= j < i ==> s@[p + j] == lit@[j],
        decreases m - i,
    {
        if s[p + i] != lit[i] {
            assert(s@.subrange(p as int, p + m)[i as int] != lit@.subrange(0, m as int)[i as int]);
            if avail >= n {
                assert(s@.subrange(p as int, p + n)[i as int] != lit@[i as int]);
            } else {
                assert(s@.subrange(p as int, s@.len() as int)[i as int] != lit@.subrange(
                    0,
                    s@.len() - p,
                )[i as int]);
            }
            return Step::Failed(p, kind);
        }
        i = i + 1;
    }
    if avail >= n {
        assert(s@.subrange(p as int, p + n) =~= lit@);
        Step::Done(p + n, ())
    } else {
        assert(s@.subrange(p as int, s@.len() as int) =~= lit@.subrange(0, s@.len() - p));
        Step::Incomplete
    }
}

pub fn byte(s: &[u8], p: usize, b: u8) -> (r: Step<()>)
    requires
        p <= s@.len(),
    ensures
        r@ == byte_at(s@, p as int, b),
        r@.within(p as int, s@.len() as int),
{
    if p >= s.len() {
        Step::Incomplete
    } else if s[p] == b {
        Step::Done(p + 1, ())
    } else {
        Step::Failed(p, ErrorKind::Char)
    }
}

pub fn bit(s: &[u8], p: usize) -> (r: Step<u8>)
    requires
        p <= s@.len(),
    ensures
        r@ == bit_at(s@, p as int),
        r@.within(p as int, s@.len() as int),
{
    if p >= s.len() {
        Step::Incomplete
    } else if s[p] == 0x30 || s[p] == 0x31 {
        Step::Done(p + 1, s[p])
    } else {
        Step::Failed(p, ErrorKind::OneOf)
    }
}

pub fn is_not(s: &[u8], p: usize, c: Stop) -> (r: Step<()>)
    requires
        p <= s@.len(),
    ensures
        r@ == is_not_at(s@, p as int, c),
        r@.within(p as int, s@.len() as int),
{
    proof {
        lemma_first_stop(s@, p as int, c);
    }
    let q = find_stop(s, p, c);
    if q >= s.len() {
        Step::Incomplete
    } else if q == p {
        Step::Failed(p, ErrorKind::IsNot)
    } else {
        Step::Done(q, ())
    }
}

pub fn digits(s: &[u8], p: usize) -> (r: Step<()>)
    requires
        p <= s@.len(),
    ensures
        r@ == digits_at(s@, p as int),
        r@.within(p as int, s@.len() as int),
{
    proof {
        lemma_first_stop(s@, p as int, Stop::NonDigit);
    }
    let q = find_stop(s, p, Stop::NonDigit);
    if q >= s.len() {
        Step::Incomplete
    } else {
        Step::Done(q, ())
    }
}

pub fn digit1(s: &[u8], p: usize) -> (r: Step<()>)
    requires
        p <= s@.len(),
    ensures
        r@ == digit1_at(s@, p as int),
        r@.within(p as int, s@.len() as int),
{
    proof {
        lemma_first_stop(s@, p as int, Stop::NonDigit);
    }
    let q = find_stop(s, p, Stop::NonDigit);
    if q >= s.len() {
        Step::Incomplete
    } else if q == p {
        Step::Failed(p, ErrorKind::Digit)
    } else {
        Step::Done(q, ())
    }
}

pub fn take(s: &[u8], p: usize, n: usize) -> (r: Step<()>)
    requires
        p <= s@.len(),
    ensures
        r@ == take_at(s@, p as int, n as int),
        r@.within(p as int, s@.len() as int),
{
    if n <= s.len() - p {
        Step::Done(p + n, ())
    } else {
        Step::Incomplete
    }
}

pub fn crlf(s: &[u8], p: usize) -> (r: Step<()>)
    requires
        p <= s@.len(),
    ensures
        r@ == crlf_at(s@, p as int),
        r@.within(p as int, s@.len() as int),
{
    let lit: [u8; 2] = [0x0d, 0x0a];
    assert(lit@ =~= crlf_bytes());
    tag(s, p, &lit, ErrorKind::CrLf)
}

pub fn tag_complete(s: &[u8], p: usize, lit: &[u8]) -> (r: Option<usize>)
    requires
        p <= s@.len(),
    ensures
        match tag_end(s@, p as int, lit@) {
            Some(q) => r matches Some(x) && x == q && p <= q <= s@.len(),
            None => r is None,
        },
{
    match tag(s, p, lit, ErrorKind::Tag) {
        Step::Done(q, _) => Some(q),
        _ => None,
    }
}

pub fn byte_complete(s: &[u8], p: usize, b: u8) -> (r: Option<usize>)
    requires
        p <= s@.len(),
    ensures
        match byte_end(s@, p as int, b) {
            Some(q) => r matches Some(x) && x == q && p <= q <= s@.len(),
            None => r is None,
        },
{
    if p < s.len() && s[p] == b {
        Some(p + 1)
    } else {
        None
    }
}

pub fn is_not_complete(s: &[u8], p: usize, c: Stop) -> (r: Option<usize>)
    requires
        p <= s@.len(),
    ensures
        match is_not_end(s@, p as int, c) {
            Some(q) => r matches Some(x) && x == q && p <= q <= s@.len(),
            None => r is None,
        },
{
    proof {
        lemma_first_stop(s@, p as int, c);
    }
    let q = find_stop(s, p, c);
    if q == p {
        None
    } else {
        Some(q)
    }
}


/* Laws: a verdict reached on a buffer stands when the buffer grows. */

pub proof fn lemma_first_stop_extend(s: Seq<u8>, t: Seq<u8>, p: int, c: Stop)
    requires
        0 <= p <= s.len(),
        first_stop(s, p, c) < s.len(),
    ensures
        first_stop(s + t, p, c) == first_stop(s, p, c),
    decreases s.len() - p,
{
    assert((s + t)[p] == s[p]);
    if !stops(c, s[p]) {
        lemma_first_stop_extend(s, t, p + 1, c);
    }
}

/// A run of bytes outside class `c`, ended by a byte in it, is scanned
/// whole: the scan stops at that byte.
pub proof fn lemma_first_stop_run(s: Seq<u8>, p: int, q: int, c: Stop)
    requires
        0 <= p <= q < s.len(),
        forall|i: int| p <= i < q ==> !stops(c, #[trigger] s[i]),
        stops(c, s[q]),
    ensures
        first_stop(s, p, c) == q,
    decreases q - p,
{
    if p < q {
        lemma_first_stop_run(s, p + 1, q, c);
    }
}

/// A literal that differs from the buffer at some byte both hold is refused
/// where it was tried.
pub proof fn lemma_tag_refused(s: Seq<u8>, p: int, lit: Seq<u8>, kind: ErrorKind, i: int)
    requires
        0 <= p,
        0 <= i < lit.len(),
        p + i < s.len(),
        s[p + i] != lit[i],
    ensures
        tag_at(s, p, lit, kind) == Outcome::<()>::Failed(p, kind),
{
    if p + lit.len() <= s.len() {
        assert(s.subrange(p, p + lit.len())[i] != lit[i]);
    } else {
        assert(s.subrange(p, s.len() as int)[i] != lit.subrange(0, s.len() - p)[i]);
    }
}

/// A literal the buffer holds at `p` is accepted there.
pub proof fn lemma_tag_present(s: Seq<u8>, p: int, lit: Seq<u8>, kind: ErrorKind)
    requires
        0 <= p,
        p + lit.len() <= s.len(),
        forall|i: int| 0 <= i < lit.len() ==> s[p + i] == #[trigger] lit[i],
    ensures
        tag_at(s, p, lit, kind) == Outcome::Done(p + lit.len(), ()),
{
    assert(s.subrange(p, p + lit.len()) =~= lit);
}

/// A literal that was matched or refused keeps that verdict.
pub proof fn lemma_tag_extend(s: Seq<u8>, t: Seq<u8>, p: int, lit: Seq<u8>, kind: ErrorKind)
    requires
        0 <= p <= s.len(),
    ensures
        tag_at(s, p, lit, kind).within(p, s.len() as int),
        tag_at(s, p, lit, kind).is_verdict() ==> tag_at(s + t, p, lit, kind) == tag_at(s, p, lit, kind),
{
    let u = s + t;
    if p + lit.len() <= s.len() {
        assert(u.subrange(p, p + lit.len()) =~= s.subrange(p, p + lit.len()));
    } else if s.subrange(p, s.len() as int) != lit.subrange(0, s.len() - p) {
        let k = s.len() - p;
        let i = choose|i: int| 0 <= i < k && s[p + i] != lit[i];
        assert(exists|i: int| 0 <= i < k && s[p + i] != lit[i]) by {
            if !(exists|i: int| 0 <= i < k && s[p + i] != lit[i]) {
                assert(s.subrange(p, s.len() as int) =~= lit.subrange(0, s.len() - p));
            }
        }
        assert(u[p + i] == s[p + i]);
        if p + lit.len() <= u.len() {
            assert(u.subrange(p, p + lit.len())[i] != lit[i]);
        } else {
            assert(u.subrange(p, u.len() as int)[i] != lit.subrange(0, u.len() - p)[i]);
        }
    }
}

pub proof fn lemma_crlf_extend(s: Seq<u8>, t: Seq<u8>, p: int)
    requires
        0 <= p <= s.len(),
    ensures
        crlf_at(s, p).within(p, s.len() as int),
        crlf_at(s, p).is_verdict() ==> crlf_at(s + t, p) == crlf_at(s, p),
{
    lemma_tag_extend(s, t, p, crlf_bytes(), ErrorKind::CrLf);
}

pub proof fn lemma_byte_extend(s: Seq<u8>, t: Seq<u8>, p: int, b: u8)
    requires
        0 <= p <= s.len(),
    ensures
        byte_at(s, p, b).within(p, s.len() as int),
        byte_at(s, p, b).is_verdict() ==> byte_at(s + t, p, b) == byte_at(s, p, b),
{
    if p < s.len() {
        assert((s + t)[p] == s[p]);
    }
}

pub proof fn lemma_bit_extend(s: Seq<u8>, t: Seq<u8>, p: int)
    requires
        0 <= p <= s.len(),
    ensures
        bit_at(s, p).within(p, s.len() as int),
        bit_at(s, p).is_verdict() ==> bit_at(s + t, p) == bit_at(s, p),
{
    if p < s.len() {
        assert((s + t)[p] == s[p]);
    }
}

pub proof fn lemma_is_not_extend(s: Seq<u8>, t: Seq<u8>, p: int, c: Stop)
    requires
        0 <= p <= s.len(),
    ensures
        is_not_at(s, p, c).within(p, s.len() as int),
        is_not_at(s, p, c).is_verdict() ==> is_not_at(s + t, p, c) == is_not_at(s, p, c),
{
    lemma_first_stop(s, p, c);
    if first_stop(s, p, c) < s.len() {
        lemma_first_stop_extend(s, t, p, c);
    }
}

pub proof fn lemma_digits_extend(s: Seq<u8>, t: Seq<u8>, p: int)
    requires
        0 <= p <= s.len(),
    ensures
        digits_at(s, p).within(p, s.len() as int),
        digits_at(s, p).is_verdict() ==> digits_at(s + t, p) == digits_at(s, p),
{
    lemma_first_stop(s, p, Stop::NonDigit);
    if first_stop(s, p, Stop::NonDigit) < s.len() {
        lemma_first_stop_extend(s, t, p, Stop::NonDigit);
    }
}

pub proof fn lemma_digit1_extend(s: Seq<u8>, t: Seq<u8>, p: int)
    requires
        0 <= p <= s.len(),
    ensures
        digit1_at(s, p).within(p, s.len() as int),
        digit1_at(s, p).is_verdict() ==> digit1_at(s + t, p) == digit1_at(s, p),
{
    lemma_first_stop(s, p, Stop::NonDigit);
    if first_stop(s, p, Stop::NonDigit) < s.len() {
        lemma_first_stop_extend(s, t, p, Stop::NonDigit);
    }
}

pub proof fn lemma_take_extend(s: Seq<u8>, t: Seq<u8>, p: int, n: int)
    requires
        0 <= p <= s.len(),
        0 <= n,
    ensures
        take_at(s, p, n).within(p, s.len() as int),
        take_at(s, p, n).is_verdict() ==> take_at(s + t, p, n) == take_at(s, p, n),
{
}


/// A streaming rule over a whole buffer, as used by the receive loop.
///
/// `defined` says on which buffers the rule can be applied: a rule that
/// decodes what it read as text is not defined where that text is invalid.
pub trait Grammar {
    type Output: DeepView;

    spec fn defined(&self, s: Seq<u8>) -> bool;

    spec fn outcome(&self, s: Seq<u8>) -> Outcome<<Self::Output as DeepView>::V>;

    /// Tests `defined`.
    fn applies(&self, s: &[u8]) -> (r: bool)
        ensures
            r == self.defined(s@),
    ;

    /// Runs the rule on the buffer.
    fn apply(&self, s: &[u8]) -> (r: Step<Self::Output>)
        requires
            self.defined(s@),
        ensures
            r@ == self.outcome(s@),
    ;

    /// The positions the rule reports lie in the buffer, and a verdict it
    /// reaches (with whether it is defined) stands when the buffer grows.
    proof fn lemma_extend(&self, s: Seq<u8>, t: Seq<u8>)
        ensures
            self.outcome(s).within(0, s.len() as int),
            self.outcome(s).is_verdict() ==> {
                &&& self.outcome(s + t) == self.outcome(s)
                &&& self.defined(s + t) == self.defined(s)
            },
    ;
}

} // verus!

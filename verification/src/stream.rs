//! A view into a shared byte buffer: the part before or after a position.
use std::sync::Arc;
use vstd::prelude::*;
use vstd::string::StringSliceAdditionalSpecFns;

verus! {

/// Which part of the buffer a view covers.
#[derive(Clone, Copy, Debug, PartialEq, Eq, Structural)]
pub enum TakeDirection {
    /// No part yet: a fresh buffer, not taken from.
    NotTaken,
    /// The bytes before the position.
    Left,
    /// The bytes from the position on.
    Right,
}

/// A buffer shared between views; each view covers the part of it before or
/// after its position.
#[derive(Clone)]
pub struct ReaderBuffer {
    buffer: Arc<Vec<u8>>,
    position: usize,
    take_direction: TakeDirection,
}

/// How a view compares with a literal.
#[derive(Clone, Copy, Debug, PartialEq, Eq, Structural)]
pub enum CompareResult {
    /// The literal is a prefix of the view.
    Matched,
    /// The view is a proper prefix of the literal.
    Incomplete,
    /// Neither is a prefix of the other.
    Error,
}

/// How `bytes` compares with `lit`.
pub open spec fn compare_spec(bytes: Seq<u8>, lit: Seq<u8>) -> CompareResult {
    if bytes.len() >= lit.len() && bytes.subrange(0, lit.len() as int) == lit {
        CompareResult::Matched
    } else if bytes.len() < lit.len() && lit.subrange(0, bytes.len() as int) == bytes {
        CompareResult::Incomplete
    } else {
        CompareResult::Error
    }
}

impl ReaderBuffer {
    /// The whole shared buffer.
    pub closed spec fn buffer(&self) -> Seq<u8> {
        (*self.buffer)@
    }

    pub closed spec fn position(&self) -> nat {
        self.position as nat
    }

    pub closed spec fn direction(&self) -> TakeDirection {
        self.take_direction
    }

    /// The bytes the view covers.
    pub open spec fn covered(&self) -> Seq<u8> {
        match self.direction() {
            TakeDirection::Left => self.buffer().subrange(0, self.position() as int),
            TakeDirection::Right => self.buffer().subrange(
                self.position() as int,
                self.buffer().len() as int,
            ),
            TakeDirection::NotTaken => Seq::empty(),
        }
    }

    /// An empty buffer, not taken from.
    pub fn new() -> (r: Self)
        ensures
            r.buffer() == Seq::<u8>::empty(),
            r.position() == 0,
            r.direction() == TakeDirection::NotTaken,
    {
        ReaderBuffer { buffer: Arc::new(Vec::new()), position: 0, take_direction: TakeDirection::NotTaken }
    }

    /// A buffer holding `bytes`, not taken from.
    pub fn from_bytes(bytes: Vec<u8>) -> (r: Self)
        ensures
            r.buffer() == bytes@,
            r.position() == 0,
            r.direction() == TakeDirection::NotTaken,
    {
        ReaderBuffer { buffer: Arc::new(bytes), position: 0, take_direction: TakeDirection::NotTaken }
    }

    /// The view of the first `count` bytes of the same buffer.
    pub fn take(&self, count: usize) -> (r: Self)
        ensures
            r.buffer() == self.buffer(),
            r.position() == count,
            r.direction() == TakeDirection::Left,
    {
        ReaderBuffer {
            buffer: Arc::clone(&self.buffer),
            position: count,
            take_direction: TakeDirection::Left,
        }
    }

    /// The views of the same buffer from `count` on and before `count`, in
    /// that order.
    pub fn take_split(&self, count: usize) -> (r: (Self, Self))
        ensures
            r.0.buffer() == self.buffer(),
            r.1.buffer() == self.buffer(),
            r.0.position() == count,
            r.1.position() == count,
            r.0.direction() == TakeDirection::Right,
            r.1.direction() == TakeDirection::Left,
    {
        (
            ReaderBuffer {
                buffer: Arc::clone(&self.buffer),
                position: count,
                take_direction: TakeDirection::Right,
            },
            ReaderBuffer {
                buffer: Arc::clone(&self.buffer),
                position: count,
                take_direction: TakeDirection::Left,
            },
        )
    }

    /// Whether the view can be compared: it has a side, and its position
    /// lies in the buffer.
    pub fn can_compare(&self) -> (r: bool)
        ensures
            r == (self.direction() != TakeDirection::NotTaken && self.position() <= self.buffer().len()),
    {
        !matches!(self.take_direction, TakeDirection::NotTaken) && self.position <= self.buffer.len()
    }

    /// Compares the bytes the view covers with `t`.
    pub fn compare(&self, t: &[u8]) -> (r: CompareResult)
        requires
            self.direction() != TakeDirection::NotTaken,
            self.position() <= self.buffer().len(),
        ensures
            r == compare_spec(self.covered(), t@),
    {
        let whole: &Vec<u8> = &*self.buffer;
        let (lo, hi) = match self.take_direction {
            TakeDirection::Left => (0, self.position),
            _ => (self.position, whole.len()),
        };
        let part = vstd::slice::slice_subrange(whole.as_slice(), lo, hi);
        assert(part@ == self.covered());
        let n = if part.len() < t.len() {
            part.len()
        } else {
            t.len()
        };
        let mut i: usize = 0;
        while i < n
            invariant
                i <= n,
                part@ == self.covered(),
                n <= part@.len(),
                n <= t@.len(),
                forall|j: int| 0 <= j < i ==> part@[j] == t@[j],
            decreases n - i,
        {
            if part[i] != t[i] {
                proof {
                    if part@.len() >= t@.len() {
                        assert(part@.subrange(0, t@.len() as int)[i as int] != t@[i as int]);
                    } else {
                        assert(t@.subrange(0, part@.len() as int)[i as int] != part@[i as int]);
                    }
                }
                return CompareResult::Error;
            }
            i = i + 1;
        }
        if part.len() >= t.len() {
            assert(part@.subrange(0, t@.len() as int) =~= t@);
            CompareResult::Matched
        } else {
            assert(t@.subrange(0, part@.len() as int) =~= part@);
            CompareResult::Incomplete
        }
    }

    /// Compares without regard to case: the same as [`Self::compare`].
    pub fn compare_no_case(&self, t: &[u8]) -> (r: CompareResult)
        requires
            self.direction() != TakeDirection::NotTaken,
            self.position() <= self.buffer().len(),
        ensures
            r == compare_spec(self.covered(), t@),
    {
        self.compare(t)
    }

    /// Compares with the bytes of a string.
    pub fn compare_str(&self, t: &str) -> (r: CompareResult)
        requires
            self.direction() != TakeDirection::NotTaken,
            self.position() <= self.buffer().len(),
        ensures
            r == compare_spec(self.covered(), t.spec_bytes()),
    {
        self.compare(t.as_bytes())
    }
}

/// Splitting a buffer loses nothing: the part before the position followed
/// by the part from it on is the whole buffer.
/// Comparing a view with a literal: a match exactly when the literal is a
/// prefix of the view, incomplete exactly when the view is a proper prefix
/// of the literal, and an error exactly when neither is a prefix of the
/// other.
pub proof fn lemma_compare_prefixes(bytes: Seq<u8>, lit: Seq<u8>)
    ensures
        compare_spec(bytes, lit) is Matched <==> lit.is_prefix_of(bytes),
        compare_spec(bytes, lit) is Incomplete <==> bytes.len() < lit.len() && bytes.is_prefix_of(
            lit,
        ),
        compare_spec(bytes, lit) is Error <==> !lit.is_prefix_of(bytes) && !bytes.is_prefix_of(lit),
{
    if lit.is_prefix_of(bytes) {
        assert(bytes.subrange(0, lit.len() as int) =~= lit);
    }
    if bytes.is_prefix_of(lit) {
        assert(lit.subrange(0, bytes.len() as int) =~= bytes);
        if bytes.len() >= lit.len() {
            assert(lit =~= bytes);
            assert(bytes.subrange(0, lit.len() as int) =~= lit);
        }
    }
    if compare_spec(bytes, lit) is Matched {
        assert(lit =~= bytes.subrange(0, lit.len() as int));
    }
    if compare_spec(bytes, lit) is Incomplete {
        assert(bytes =~= lit.subrange(0, bytes.len() as int));
    }
}

pub proof fn lemma_take_split_covers(b: ReaderBuffer, count: usize, right: ReaderBuffer, left: ReaderBuffer)
    requires
        count <= b.buffer().len(),
        right.buffer() == b.buffer(),
        left.buffer() == b.buffer(),
        right.position() == count,
        left.position() == count,
        right.direction() == TakeDirection::Right,
        left.direction() == TakeDirection::Left,
    ensures
        left.covered() + right.covered() == b.buffer(),
{
    assert(left.covered() + right.covered() =~= b.buffer());
}

} // verus!

//! What reads from a socket or from read-ahead content deliver.
use vstd::prelude::*;

verus! {

/// What a read of `n` bytes into `buf` delivers: the end of the stream when
/// nothing was read, else the bytes read.
pub fn received_chunk(buf: &[u8], n: usize) -> (r: Option<Vec<u8>>)
    requires
        n <= buf@.len(),
    ensures
        n == 0 ==> r is None,
        n > 0 ==> (r matches Some(c) && c@ == buf@.take(n as int)),
{
    if n == 0 {
        None
    } else {
        let c = vstd::slice::slice_to_vec(vstd::slice::slice_subrange(buf, 0, n));
        assert(c@ =~= buf@.take(n as int));
        Some(c)
    }
}

/// What a response reader delivers before it reads the socket: the content
/// read ahead, if there is any, once.
pub fn take_exists_content(exists_content: &mut Option<Vec<u8>>) -> (r: Option<Vec<u8>>)
    ensures
        *final(exists_content) is None,
        match *old(exists_content) {
            Some(c) => if c@.len() > 0 {
                r == Some(c)
            } else {
                r is None
            },
            None => r is None,
        },
{
    match exists_content.take() {
        Some(c) => if c.len() > 0 {
            Some(c)
        } else {
            None
        },
        None => None,
    }
}

/// The chunks delivered by reads of the server, each what one read filled
/// in (`buf.take(n)` of `received_chunk`), up to the first empty read, which
/// ends the stream.
pub open spec fn read_deliveries(reads: Seq<Seq<u8>>) -> Seq<Seq<u8>>
    decreases reads.len(),
{
    if reads.len() == 0 || reads[0].len() == 0 {
        Seq::empty()
    } else {
        seq![reads[0]] + read_deliveries(reads.drop_first())
    }
}

/// The reads up to the first empty one.
pub open spec fn before_end(reads: Seq<Seq<u8>>) -> Seq<Seq<u8>>
    decreases reads.len(),
{
    if reads.len() == 0 || reads[0].len() == 0 {
        Seq::empty()
    } else {
        seq![reads[0]] + before_end(reads.drop_first())
    }
}

/// What a response reader delivers over successive receives: the content
/// read ahead, once, if it is not empty (`take_exists_content`), then the
/// chunks of the reads of the server (`received_chunk`).
pub open spec fn deliveries(ahead: Option<Seq<u8>>, reads: Seq<Seq<u8>>) -> Seq<Seq<u8>> {
    match ahead {
        Some(c) => if c.len() > 0 {
            seq![c] + read_deliveries(reads)
        } else {
            read_deliveries(reads)
        },
        None => read_deliveries(reads),
    }
}

/// The bytes of read-ahead content: none when there is none.
pub open spec fn ahead_bytes(ahead: Option<Seq<u8>>) -> Seq<u8> {
    match ahead {
        Some(c) => c,
        None => Seq::empty(),
    }
}

proof fn lemma_read_deliveries(reads: Seq<Seq<u8>>)
    ensures
        crate::parse::concat(read_deliveries(reads)) == crate::parse::concat(before_end(reads)),
        forall|i: int|
            0 <= i < read_deliveries(reads).len() ==> #[trigger] read_deliveries(reads)[i].len()
                > 0,
    decreases reads.len(),
{
    if !(reads.len() == 0 || reads[0].len() == 0) {
        let tail = reads.drop_first();
        lemma_read_deliveries(tail);
        let d = read_deliveries(reads);
        assert(d[0] == reads[0]);
        assert(d.drop_first() =~= read_deliveries(tail));
        let b = before_end(reads);
        assert(b[0] == reads[0]);
        assert(b.drop_first() =~= before_end(tail));
        assert forall|i: int| 0 <= i < d.len() implies #[trigger] d[i].len() > 0 by {
            if i > 0 {
                assert(d[i] == read_deliveries(tail)[i - 1]);
            }
        }
    }
}

/// A response reader delivers, over successive receives up to the end of
/// the stream, exactly the content read ahead followed by what the reads of
/// the server returned before the first empty read, in order, in chunks
/// none of which is empty.
pub proof fn lemma_reader_delivers_all(ahead: Option<Seq<u8>>, reads: Seq<Seq<u8>>)
    ensures
        crate::parse::concat(deliveries(ahead, reads)) == ahead_bytes(ahead) + crate::parse::concat(
            before_end(reads),
        ),
        forall|i: int|
            0 <= i < deliveries(ahead, reads).len() ==> #[trigger] deliveries(ahead, reads)[i].len()
                > 0,
{
    lemma_read_deliveries(reads);
    let rest = crate::parse::concat(before_end(reads));
    match ahead {
        Some(c) => {
            let d = deliveries(ahead, reads);
            if c.len() > 0 {
                assert(d[0] == c);
                assert(d.drop_first() =~= read_deliveries(reads));
                assert forall|i: int| 0 <= i < d.len() implies #[trigger] d[i].len() > 0 by {
                    if i > 0 {
                        assert(d[i] == read_deliveries(reads)[i - 1]);
                    }
                }
            } else {
                assert(c =~= Seq::<u8>::empty());
                assert(ahead_bytes(ahead) + rest =~= rest);
            }
        },
        None => {
            assert(ahead_bytes(ahead) + rest =~= rest);
        },
    }
}

/// Appends bytes to a buffer.
pub fn extend_bytes(buf: &mut Vec<u8>, bytes: &[u8])
    ensures
        final(buf)@ == old(buf)@ + bytes@,
{
    let mut i: usize = 0;
    while i < bytes.len()
        invariant
            i <= bytes@.len(),
            buf@ == old(buf)@ + bytes@.subrange(0, i as int),
        decreases bytes@.len() - i,
    {
        buf.push(bytes[i]);
        assert(bytes@.subrange(0, i + 1) =~= bytes@.subrange(0, i as int).push(bytes@[i as int]));
        i = i + 1;
    }
    assert(bytes@.subrange(0, i as int) =~= bytes@);
}

} // verus!

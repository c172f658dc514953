//! What the request parsers report, and the receive loop that feeds them.

pub mod http1;
pub mod redis;

use vstd::prelude::*;
use crate::error::{Needed, NomErr, TuziError};
use crate::grammar::{Grammar, Outcome, Step};

verus! {

/// The name of a protocol parser.
pub type Protocol = &'static str;

/// What a request parser reports about the request it reads.
#[derive(Debug)]
pub struct RequestParsedData {
    pub protocol: Protocol,
    pub content: RequestParsedContent,
}

/// The report of a request parser: request bytes, the end of the request,
/// "the request is mine, forward it unchanged" (`Raw`), or "the request is
/// not mine" (`Failed`).
#[derive(Debug)]
pub enum RequestParsedContent {
    Content(Vec<u8>),
    Eof,
    Raw,
    Failed,
}

/// The state of a parser fed from a stream of byte chunks: the bytes not yet
/// consumed by a rule, and the bytes received since the last clear.
pub struct ReceiveParser {
    parse_content: Vec<u8>,
    recv_content: Vec<u8>,
    /// The initial content followed by every chunk received.
    history: Ghost<Seq<u8>>,
    /// The bytes consumed by the rules applied so far.
    consumed: Ghost<Seq<u8>>,
}

/// The result of applying a rule to the pending bytes.
pub enum Attempt<T> {
    /// The rule accepted and consumed a prefix of the pending bytes.
    Parsed(T),
    /// The pending bytes are a prefix of what the rule could accept: more
    /// bytes are needed.
    NeedMore,
    /// The rule rejected the pending bytes.
    Failed(TuziError),
}

impl ReceiveParser {
    /// Well-formed: the consumed bytes followed by the pending ones are the
    /// initial content followed by every chunk received.
    pub closed spec fn wf(&self) -> bool {
        self.history@ == self.consumed@ + self.parse_content@
    }

    /// The bytes not yet consumed.
    pub closed spec fn pending(&self) -> Seq<u8> {
        self.parse_content@
    }

    /// The bytes received since the parser was made or last cleared.
    pub closed spec fn received(&self) -> Seq<u8> {
        self.recv_content@
    }

    /// The initial content followed by every chunk received.
    pub closed spec fn history(&self) -> Seq<u8> {
        self.history@
    }

    /// The bytes consumed by the rules applied so far.
    pub closed spec fn consumed(&self) -> Seq<u8> {
        self.consumed@
    }

    /// A parser that starts from `init_parse_content`.
    pub fn new(init_parse_content: Vec<u8>) -> (r: Self)
        ensures
            r.pending() == init_parse_content@,
            r.received() == Seq::<u8>::empty(),
            r.history() == init_parse_content@,
            r.consumed() == Seq::<u8>::empty(),
            r.wf(),
    {
        let ghost init = init_parse_content@;
        assert(init =~= Seq::<u8>::empty() + init);
        ReceiveParser {
            parse_content: init_parse_content,
            recv_content: Vec::new(),
            history: Ghost(init),
            consumed: Ghost(Seq::empty()),
        }
    }

    /// The bytes received since the parser was made or last cleared.
    pub fn recv_content_ref(&self) -> (r: &[u8])
        ensures
            r@ == self.received(),
    {
        self.recv_content.as_slice()
    }

    /// The bytes not yet consumed.
    pub fn pending_ref(&self) -> (r: &[u8])
        ensures
            r@ == self.pending(),
    {
        self.parse_content.as_slice()
    }

    /// Forgets the bytes received so far; nothing else changes.
    pub fn clear_recv_content(&mut self)
        requires
            old(self).wf(),
        ensures
            final(self).received() == Seq::<u8>::empty(),
            final(self).pending() == old(self).pending(),
            final(self).history() == old(self).history(),
            final(self).consumed() == old(self).consumed(),
            final(self).wf(),
    {
        self.recv_content.clear();
    }

    /// Whether `g` may be applied to the pending bytes.
    pub fn applies<G: Grammar>(&self, g: &G) -> (r: bool)
        ensures
            r == g.defined(self.pending()),
    {
        g.applies(self.parse_content.as_slice())
    }

    /// Applies `g` to the pending bytes.  When it accepts, what it read is
    /// consumed; otherwise nothing changes, and a rejection is reported with
    /// the bytes from the point of rejection on.
    pub fn attempt<G: Grammar>(&mut self, g: &G) -> (r: Attempt<G::Output>)
        requires
            old(self).wf(),
            g.defined(old(self).pending()),
        ensures
            match g.outcome(old(self).pending()) {
                Outcome::Done(q, v) => {
                    &&& r matches Attempt::Parsed(t) && t.deep_view() == v
                    &&& final(self).pending() == old(self).pending().skip(q)
                    &&& final(self).consumed() == old(self).consumed() + old(self).pending().take(q)
                    &&& final(self).received() == old(self).received()
                    &&& final(self).history() == old(self).history()
                },
                Outcome::Incomplete => r is NeedMore && *final(self) == *old(self),
                Outcome::Failed(e, k) => {
                    &&& r matches Attempt::Failed(TuziError::Nom(NomErr::Error(rest, kind)))
                        && rest@ == old(self).pending().skip(e) && kind == k
                    &&& *final(self) == *old(self)
                },
            },
            final(self).wf(),
    {
        proof {
            g.lemma_extend(self.parse_content@, Seq::empty());
        }
        match g.apply(self.parse_content.as_slice()) {
            Step::Done(q, t) => {
                let ghost before = self.parse_content@;
                let rest = vstd::slice::slice_to_vec(
                    vstd::slice::slice_subrange(self.parse_content.as_slice(), q, self.parse_content.len()),
                );
                proof {
                    assert(before.take(q as int) + before.skip(q as int) =~= before);
                    assert(self.consumed@ + before.take(q as int) + before.skip(q as int)
                        =~= self.consumed@ + before);
                }
                self.consumed = Ghost(self.consumed@ + before.take(q as int));
                self.parse_content = rest;
                assert(self.parse_content@ =~= before.skip(q as int));
                Attempt::Parsed(t)
            },
            Step::Incomplete => Attempt::NeedMore,
            Step::Failed(e, k) => {
                let rest = vstd::slice::slice_to_vec(
                    vstd::slice::slice_subrange(self.parse_content.as_slice(), e, self.parse_content.len()),
                );
                assert(rest@ =~= self.parse_content@.skip(e as int));
                Attempt::Failed(TuziError::Nom(NomErr::Error(rest, k)))
            },
        }
    }

    /// Takes in what the stream delivered: a chunk is appended to the
    /// pending and the received bytes; the end of the stream is reported as
    /// a parse that cannot complete.
    pub fn feed(&mut self, chunk: Option<Vec<u8>>) -> (r: Result<(), TuziError>)
        requires
            old(self).wf(),
        ensures
            match chunk {
                Some(b) => {
                    &&& r is Ok
                    &&& final(self).pending() == old(self).pending() + b@
                    &&& final(self).received() == old(self).received() + b@
                    &&& final(self).history() == old(self).history() + b@
                    &&& final(self).consumed() == old(self).consumed()
                },
                None => {
                    &&& r matches Err(TuziError::Nom(NomErr::Incomplete(Needed::Unknown)))
                    &&& *final(self) == *old(self)
                },
            },
            final(self).wf(),
    {
        match chunk {
            Some(b) => {
                let ghost piece = b@;
                crate::io::extend_bytes(&mut self.recv_content, b.as_slice());
                let ghost before = self.parse_content@;
                crate::io::extend_bytes(&mut self.parse_content, b.as_slice());
                proof {
                    assert(self.consumed@ + (before + piece) =~= (self.consumed@ + before) + piece);
                }
                self.history = Ghost(self.history@ + piece);
                Ok(())
            },
            None => Err(TuziError::Nom(NomErr::Incomplete(Needed::Unknown))),
        }
    }


    /// Nothing is lost or duplicated: the consumed bytes followed by the
    /// pending ones are exactly the initial content followed by every chunk
    /// received.
    pub proof fn lemma_bytes_conserved(&self)
        requires
            self.wf(),
        ensures
            self.history() == self.consumed() + self.pending(),
    {
    }
}

/// Chunks delivered one after another, as one run of bytes.
pub open spec fn concat(chunks: Seq<Seq<u8>>) -> Seq<u8>
    decreases chunks.len(),
{
    if chunks.len() == 0 {
        Seq::empty()
    } else {
        chunks[0] + concat(chunks.drop_first())
    }
}

/// Where the receive loop stops: what the rule answered last, the pending
/// bytes it answered on, and how many chunks were taken in.
pub struct LoopEnd<V> {
    pub outcome: Outcome<V>,
    pub pending: Seq<u8>,
    pub taken: nat,
}

/// The receive loop on the pending bytes `pending`, with `chunks` still to
/// come and then the end of the stream: the rule is applied; while it asks
/// for more bytes the next chunk is taken in (`feed`) and the rule applied
/// again; with no chunk left the loop ends `Incomplete`.
pub open spec fn receive_loop<G: Grammar>(g: G, pending: Seq<u8>, chunks: Seq<Seq<u8>>) -> LoopEnd<
    <G::Output as DeepView>::V,
>
    decreases chunks.len(),
{
    match g.outcome(pending) {
        Outcome::Incomplete => if chunks.len() == 0 {
            LoopEnd { outcome: Outcome::Incomplete, pending, taken: 0 }
        } else {
            let e = receive_loop(g, pending + chunks[0], chunks.drop_first());
            LoopEnd { outcome: e.outcome, pending: e.pending, taken: e.taken + 1 }
        },
        o => LoopEnd { outcome: o, pending, taken: 0 },
    }
}

/// The receive loop answers what the rule answers on all the bytes at once,
/// and the pending bytes it stops on followed by the chunks it did not take
/// in are all the bytes: where the stream was cut into chunks changes
/// nothing.
pub proof fn lemma_receive_loop<G: Grammar>(g: G, pending: Seq<u8>, chunks: Seq<Seq<u8>>)
    ensures
        receive_loop(g, pending, chunks).outcome == g.outcome(pending + concat(chunks)),
        receive_loop(g, pending, chunks).taken <= chunks.len(),
        receive_loop(g, pending, chunks).pending + concat(
            chunks.skip(receive_loop(g, pending, chunks).taken as int),
        ) == pending + concat(chunks),
    decreases chunks.len(),
{
    let e = receive_loop(g, pending, chunks);
    g.lemma_extend(pending, concat(chunks));
    match g.outcome(pending) {
        Outcome::Incomplete => {
            if chunks.len() == 0 {
                assert(pending + concat(chunks) =~= pending);
                assert(chunks.skip(0) =~= chunks);
            } else {
                let rest = chunks.drop_first();
                lemma_receive_loop(g, pending + chunks[0], rest);
                assert(pending + concat(chunks) =~= (pending + chunks[0]) + concat(rest));
                let inner = receive_loop(g, pending + chunks[0], rest);
                assert(chunks.skip((inner.taken + 1) as int) =~= rest.skip(inner.taken as int));
            }
        },
        _ => {
            assert(chunks.skip(0) =~= chunks);
        },
    }
}

/// Two streams with the same bytes, cut into chunks at different places,
/// give the same answer, and after it the same bytes still to be read: the
/// pending bytes followed by the chunks not yet taken in.
pub proof fn lemma_chunking_irrelevant<G: Grammar>(
    g: G,
    pending1: Seq<u8>,
    chunks1: Seq<Seq<u8>>,
    pending2: Seq<u8>,
    chunks2: Seq<Seq<u8>>,
)
    requires
        pending1 + concat(chunks1) == pending2 + concat(chunks2),
    ensures
        receive_loop(g, pending1, chunks1).outcome == receive_loop(g, pending2, chunks2).outcome,
        receive_loop(g, pending1, chunks1).pending + concat(
            chunks1.skip(receive_loop(g, pending1, chunks1).taken as int),
        ) == receive_loop(g, pending2, chunks2).pending + concat(
            chunks2.skip(receive_loop(g, pending2, chunks2).taken as int),
        ),
{
    lemma_receive_loop(g, pending1, chunks1);
    lemma_receive_loop(g, pending2, chunks2);
}

} // verus!

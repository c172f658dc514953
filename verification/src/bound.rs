//! The decisions of a proxied connection.
//!
//! Upstream (client to server): the request bytes are held back while the
//! protocol parsers read them; the first parser to claim the request names
//! the protocol, and when every parser has given up the connection is
//! forwarded as is.  Downstream (server to client): response bytes are held
//! back until the protocol is known, then handed to that protocol's parser,
//! or passed through.
use vstd::prelude::*;
use crate::error::TuziError;
use crate::parse::{Protocol, RequestParsedContent, RequestParsedData};
use crate::text::same_text;

verus! {

/// Which side of the proxy a listener serves.
#[allow(non_camel_case_types)]
pub enum Bound {
    inbound,
    outbound,
}

/// Finds the server a client meant from the original destination of its
/// connection.
#[derive(Clone)]
pub struct OriginalDst;

/// The names of a list of protocols.
pub open spec fn names(ps: Seq<Protocol>) -> Seq<Seq<char>> {
    ps.map_values(|p: Protocol| p@)
}

/// No name occurs twice.
pub open spec fn distinct(ns: Seq<Seq<char>>) -> bool {
    forall|i: int, j: int| 0 <= i < j < ns.len() ==> #[trigger] ns[i] != #[trigger] ns[j]
}

/// A sequence with one more element contains exactly that element besides
/// what it contained.
proof fn lemma_push_contains(s: Seq<Seq<char>>, x: Seq<char>, n: Seq<char>)
    ensures
        s.push(x).contains(n) <==> (s.contains(n) || n == x),
{
    if s.contains(n) {
        let k = choose|k: int| 0 <= k < s.len() && s[k] == n;
        assert(s.push(x)[k] == n);
    }
    if n == x {
        assert(s.push(x)[s.len() as int] == n);
    }
    if s.push(x).contains(n) {
        let k = choose|k: int| 0 <= k < s.push(x).len() && s.push(x)[k] == n;
        if k < s.len() {
            assert(s[k] == n);
        }
    }
}

/// Taking out the one occurrence of a name of a list in which no name occurs
/// twice leaves every other name once, and nothing else.
proof fn lemma_remove_name(s: Seq<Seq<char>>, x: Seq<char>)
    requires
        distinct(s),
        s.contains(x),
    ensures
        distinct(s.remove(s.index_of(x))),
        s.remove(s.index_of(x)).len() == s.len() - 1,
        forall|n: Seq<char>| #[trigger] s.remove(s.index_of(x)).contains(n) <==> (s.contains(n)
            && n != x),
{
    let k = s.index_of(x);
    assert(0 <= k < s.len() && s[k] == x);
    let r = s.remove(k);
    s.remove_ensures(k);
    let up = |a: int|
        if a < k {
            a
        } else {
            a + 1
        };
    assert forall|a: int, b: int| 0 <= a < b < r.len() implies #[trigger] r[a] != #[trigger] r[b] by {
        assert(r[a] == s[up(a)]);
        assert(r[b] == s[up(b)]);
    }
    assert forall|n: Seq<char>| #[trigger] r.contains(n) <==> (s.contains(n) && n != x) by {
        if r.contains(n) {
            let a = choose|a: int| 0 <= a < r.len() && r[a] == n;
            assert(r[a] == s[up(a)]);
            if up(a) < k {
                assert(s[up(a)] != s[k]);
            } else {
                assert(s[k] != s[up(a)]);
            }
        }
        if s.contains(n) && n != x {
            let b = choose|b: int| 0 <= b < s.len() && s[b] == n;
            assert(b != k);
            if b < k {
                assert(r[b] == n);
            } else {
                assert(r[b - 1] == n);
            }
        }
    }
}

/// The candidates left after the parsers named in `gone` gave up, one after
/// another, as each report of giving up leaves them.
pub open spec fn remaining(candidates: Seq<Seq<char>>, gone: Seq<Seq<char>>) -> Seq<Seq<char>>
    decreases gone.len(),
{
    if gone.len() == 0 {
        candidates
    } else {
        let before = remaining(candidates, gone.drop_last());
        before.remove(before.index_of(gone.last()))
    }
}

/// Parsers give up each at most once, and only a candidate gives up: the
/// candidates left are those that have not given up, one fewer for each
/// report, and none is left exactly when every candidate has given up.
/// So the connection announces that no parser claimed it exactly at the
/// report of the last candidate.
pub proof fn lemma_giving_up(candidates: Seq<Seq<char>>, gone: Seq<Seq<char>>)
    requires
        distinct(candidates),
        distinct(gone),
        forall|i: int| 0 <= i < gone.len() ==> candidates.contains(#[trigger] gone[i]),
    ensures
        distinct(remaining(candidates, gone)),
        remaining(candidates, gone).len() == candidates.len() - gone.len(),
        forall|n: Seq<char>| #[trigger] remaining(candidates, gone).contains(n) <==> (
        candidates.contains(n) && !gone.contains(n)),
        remaining(candidates, gone).len() == 0 <==> forall|n: Seq<char>|
            #[trigger] candidates.contains(n) ==> gone.contains(n),
    decreases gone.len(),
{
    let left = remaining(candidates, gone);
    if gone.len() == 0 {
        assert forall|n: Seq<char>| #[trigger] left.contains(n) <==> (candidates.contains(n)
            && !gone.contains(n)) by {}
    } else {
        let init = gone.drop_last();
        let x = gone.last();
        assert forall|a: int, b: int| 0 <= a < b < init.len() implies #[trigger] init[a]
            != #[trigger] init[b] by {
            assert(init[a] == gone[a] && init[b] == gone[b]);
        }
        assert forall|i: int| 0 <= i < init.len() implies candidates.contains(#[trigger] init[i]) by {
            assert(init[i] == gone[i]);
        }
        lemma_giving_up(candidates, init);
        let before = remaining(candidates, init);
        assert(candidates.contains(gone[gone.len() - 1]));
        assert forall|i: int| 0 <= i < init.len() implies init[i] != x by {
            assert(init[i] == gone[i]);
            assert(gone[i] != gone[gone.len() - 1]);
        }
        assert(!init.contains(x));
        assert(before.contains(x));
        lemma_remove_name(before, x);
        assert(left == before.remove(before.index_of(x)));
        assert forall|n: Seq<char>| gone.contains(n) <==> (init.contains(n) || n == x) by {
            assert(gone =~= init.push(x));
            lemma_push_contains(init, x, n);
        }
    }
    let left = remaining(candidates, gone);
    if left.len() == 0 {
        assert forall|n: Seq<char>| #[trigger] candidates.contains(n) implies gone.contains(n) by {
            if !gone.contains(n) {
                assert(left.contains(n));
            }
        }
    } else {
        let n = left[0];
        assert(left.contains(n));
        assert(candidates.contains(n) && !gone.contains(n));
    }
}

/// Whether a name is among those of `ps`.
fn contains_name(ps: &Vec<Protocol>, p: Protocol) -> (r: bool)
    ensures
        r == names(ps@).contains(p@),
{
    let mut i: usize = 0;
    while i < ps.len()
        invariant
            i <= ps@.len(),
            forall|j: int| 0 <= j < i ==> ps@[j]@ != p@,
        decreases ps@.len() - i,
    {
        if same_text(ps[i], p) {
            assert(names(ps@)[i as int] == p@);
            return true;
        }
        i = i + 1;
    }
    assert forall|j: int| 0 <= j < names(ps@).len() implies names(ps@)[j] != p@ by {
        assert(names(ps@)[j] == ps@[j]@);
    }
    false
}

/// Records the protocol of a connection.  The first protocol detected is
/// kept and announced; detecting it again announces nothing.
pub fn detect_protocol(protocol: &mut Option<Protocol>, detected: Protocol) -> (announce: Option<
    Protocol,
>)
    requires
        *old(protocol) matches Some(p) ==> p@ == detected@,
    ensures
        match *old(protocol) {
            None => *final(protocol) == Some(detected) && announce == Some(detected),
            Some(_) => *final(protocol) == *old(protocol) && announce is None,
        },
{
    match protocol {
        Some(_) => None,
        None => {
            *protocol = Some(detected);
            Some(detected)
        },
    }
}

/// What the upstream side learns: a report from a protocol parser, or a
/// chunk of request bytes (`None` at the end of the request stream).
pub enum UpstreamEvent {
    Parsed(RequestParsedData),
    Chunk(Option<Vec<u8>>),
}

/// What the upstream side does next: wait for another event, write the
/// held-back bytes to the server and then copy the rest of the request
/// stream, or stop.
pub enum UpstreamNext {
    Wait,
    Forward(Vec<u8>),
    Stop,
}

/// A decision of the upstream side, with the protocol to announce to the
/// downstream side, if any (`Some(None)`: no parser claimed the request).
pub struct UpstreamStep {
    pub announce: Option<Option<Protocol>>,
    pub next: UpstreamNext,
}

/// The upstream side before its decision: the parsers still reading, the
/// request bytes held back, and the protocol found.
pub struct ProxyToServer {
    protocols: Vec<Protocol>,
    content: Vec<u8>,
    protocol: Option<Protocol>,
    decided: bool,
}

impl ProxyToServer {
    /// The names of the parsers that have not given up.
    pub closed spec fn candidates(&self) -> Seq<Seq<char>> {
        names(self.protocols@)
    }

    /// The request bytes held back.
    pub closed spec fn held(&self) -> Seq<u8> {
        self.content@
    }

    /// The protocol found, if any.
    pub closed spec fn found(&self) -> Option<Protocol> {
        self.protocol
    }

    /// A decision other than waiting has been made.
    pub closed spec fn decided(&self) -> bool {
        self.decided
    }

    /// No parser name is a candidate twice, and before the decision no
    /// protocol is found.
    pub closed spec fn wf(&self) -> bool {
        &&& distinct(names(self.protocols@))
        &&& !self.decided ==> self.protocol is None
    }

    /// The upstream side of a connection whose parsers report under the
    /// given names, each name counted once.
    pub fn new(protocols: Vec<Protocol>) -> (r: Self)
        ensures
            r.wf(),
            distinct(r.candidates()),
            forall|n: Seq<char>| r.candidates().contains(n) <==> names(protocols@).contains(n),
            r.held() == Seq::<u8>::empty(),
            r.found() is None,
            !r.decided(),
    {
        let mut set: Vec<Protocol> = Vec::new();
        let mut i: usize = 0;
        assert(names(protocols@.take(0)) =~= Seq::<Seq<char>>::empty());
        assert(names(set@) =~= Seq::<Seq<char>>::empty());
        while i < protocols.len()
            invariant
                i <= protocols@.len(),
                distinct(names(set@)),
                forall|n: Seq<char>| names(set@).contains(n) <==> names(protocols@.take(i as int)).contains(n),
            decreases protocols@.len() - i,
        {
            let p = protocols[i];
            let ghost before = set@;
            assert(names(protocols@.take(i + 1)) =~= names(protocols@.take(i as int)).push(p@));
            if !contains_name(&set, p) {
                set.push(p);
                assert(names(set@) =~= names(before).push(p@));
                proof {
                    let ns = names(set@);
                    assert forall|a: int, b: int| 0 <= a < b < ns.len() implies #[trigger] ns[a]
                        != #[trigger] ns[b] by {
                        if b == ns.len() - 1 {
                            assert(names(before)[a] == ns[a]);
                            assert(names(before).contains(ns[a]));
                        }
                    }
                }
            }
            proof {
                let old_ns = names(protocols@.take(i as int));
                assert forall|n: Seq<char>| names(set@).contains(n) <==> names(
                    protocols@.take(i + 1),
                ).contains(n) by {
                    lemma_push_contains(old_ns, p@, n);
                    lemma_push_contains(names(before), p@, n);
                }
            }
            i = i + 1;
        }
        assert(protocols@.take(protocols@.len() as int) =~= protocols@);
        ProxyToServer { protocols: set, content: Vec::new(), protocol: None, decided: false }
    }

    /// Gives up with no protocol: announces that none was found and
    /// forwards what was held back.
    fn give_up(&mut self) -> (r: UpstreamStep)
        requires
            distinct(old(self).candidates()),
        ensures
            final(self).wf(),
            final(self).decided(),
            final(self).candidates() == old(self).candidates(),
            final(self).found() == old(self).found(),
            final(self).held() == Seq::<u8>::empty(),
            r.announce == Some(None::<Protocol>),
            r.next matches UpstreamNext::Forward(b) && b@ == old(self).held(),
    {
        let mut out = Vec::new();
        std::mem::swap(&mut out, &mut self.content);
        self.decided = true;
        UpstreamStep { announce: Some(None), next: UpstreamNext::Forward(out) }
    }

    /// The first decision, before any event: with no parser at all, the
    /// connection is forwarded as is at once.
    pub fn start(&mut self) -> (r: UpstreamStep)
        requires
            old(self).wf(),
            !old(self).decided(),
        ensures
            final(self).wf(),
            distinct(final(self).candidates()),
            r.announce is Some ==> final(self).decided(),
            final(self).candidates() == old(self).candidates(),
            old(self).candidates().len() == 0 ==> {
                &&& r.announce == Some(None::<Protocol>)
                &&& r.next matches UpstreamNext::Forward(b) && b@ == old(self).held()
                &&& final(self).decided()
            },
            old(self).candidates().len() > 0 ==> {
                &&& r.announce is None
                &&& r.next is Wait
                &&& *final(self) == *old(self)
            },
    {
        if self.protocols.len() == 0 {
            self.give_up()
        } else {
            UpstreamStep { announce: None, next: UpstreamNext::Wait }
        }
    }

    /// Whether the parser named `p` has not given up.
    pub fn is_candidate(&self, p: Protocol) -> (r: bool)
        ensures
            r == self.candidates().contains(p@),
    {
        contains_name(&self.protocols, p)
    }

    /// Removes the parser named `p` from the candidates; it must be one.
    fn drop_candidate(&mut self, p: Protocol)
        requires
            old(self).candidates().contains(p@),
            distinct(old(self).candidates()),
        ensures
            final(self).candidates() == old(self).candidates().remove(
                old(self).candidates().index_of(p@),
            ),
            distinct(final(self).candidates()),
            final(self).held() == old(self).held(),
            final(self).found() == old(self).found(),
            final(self).decided() == old(self).decided(),
    {
        let ghost before = self.protocols@;
        let mut i: usize = 0;
        while i < self.protocols.len() && !same_text(self.protocols[i], p)
            invariant
                self.protocols@ == before,
                i <= before.len(),
                forall|j: int| 0 <= j < i ==> before[j]@ != p@,
                names(before).contains(p@),
            decreases before.len() - i,
        {
            i = i + 1;
        }
        if i >= self.protocols.len() {
            proof {
                let k = names(before).index_of(p@);
                assert(names(before)[k] == before[k]@);
            }
            return;
        }
        proof {
            let ns = names(before);
            assert(ns[i as int] == p@);
            assert forall|j: int| 0 <= j < i implies ns[j] != p@ by {
                assert(ns[j] == before[j]@);
            }
            let k = ns.index_of(p@);
            assert(0 <= k < ns.len() && ns[k] == p@);
            if k != i {
                if k < i {
                    assert(ns[k] != ns[i as int]);
                } else {
                    assert(ns[i as int] != ns[k]);
                }
            }
        }
        self.protocols.remove(i);
        proof {
            let ns = names(before);
            assert(names(self.protocols@) =~= ns.remove(i as int));
            let rs = ns.remove(i as int);
            assert forall|a: int, b: int| 0 <= a < b < rs.len() implies #[trigger] rs[a]
                != #[trigger] rs[b] by {
                let a2 = if a < i {
                    a
                } else {
                    a + 1
                };
                let b2 = if b < i {
                    b
                } else {
                    b + 1
                };
                assert(rs[a] == ns[a2]);
                assert(rs[b] == ns[b2]);
            }
        }
    }

    /// Takes one event and decides.
    ///
    /// * A parser claims the request (`Raw`): its protocol is found and
    ///   announced, and the held-back bytes are forwarded.
    /// * The request stream ends before a decision (`Eof` report): stop.
    /// * A parser gives up (`Failed`): it leaves the candidates; when none is
    ///   left, no protocol is announced and the held-back bytes are forwarded.
    /// * A chunk of request bytes is held back; the end of the request
    ///   stream changes nothing.
    pub fn on_event(&mut self, event: UpstreamEvent) -> (r: UpstreamStep)
        requires
            old(self).wf(),
            !old(self).decided(),
            !(event matches UpstreamEvent::Parsed(d) && d.content is Content),
            event matches UpstreamEvent::Parsed(d) ==> (d.content is Failed ==> old(
                self,
            ).candidates().contains(d.protocol@)),
        ensures
            final(self).wf(),
            distinct(final(self).candidates()),
            r.announce is Some ==> final(self).decided(),
            match event {
                UpstreamEvent::Parsed(d) => match d.content {
                    RequestParsedContent::Raw => {
                        &&& r.announce == Some(Some(d.protocol))
                        &&& r.next matches UpstreamNext::Forward(b) && b@ == old(self).held()
                        &&& final(self).found() == Some(d.protocol)
                        &&& final(self).decided()
                        &&& final(self).candidates() == old(self).candidates()
                    },
                    RequestParsedContent::Eof => {
                        &&& r.announce is None
                        &&& r.next is Stop
                        &&& final(self).decided()
                        &&& final(self).found() is None
                        &&& final(self).held() == old(self).held()
                        &&& final(self).candidates() == old(self).candidates()
                    },
                    RequestParsedContent::Failed => {
                        let left = old(self).candidates().remove(
                            old(self).candidates().index_of(d.protocol@),
                        );
                        &&& left.len() == 0 ==> {
                            &&& r.announce == Some(None::<Protocol>)
                            &&& r.next matches UpstreamNext::Forward(b) && b@ == old(self).held()
                            &&& final(self).decided()
                        }
                        &&& left.len() > 0 ==> {
                            &&& r.announce is None
                            &&& r.next is Wait
                            &&& !final(self).decided()
                            &&& final(self).held() == old(self).held()
                        }
                        &&& final(self).candidates() == left
                        &&& final(self).found() is None
                    },
                    RequestParsedContent::Content(_) => r.next is Stop,
                },
                UpstreamEvent::Chunk(c) => {
                    &&& r.announce is None
                    &&& r.next is Wait
                    &&& !final(self).decided()
                    &&& final(self).found() is None
                    &&& final(self).candidates() == old(self).candidates()
                    &&& final(self).held() == match c {
                        Some(b) => old(self).held() + b@,
                        None => old(self).held(),
                    }
                },
            },
    {
        match event {
            UpstreamEvent::Parsed(d) => match d.content {
                RequestParsedContent::Raw => {
                    let announce = detect_protocol(&mut self.protocol, d.protocol);
                    let step = self.give_up();
                    UpstreamStep { announce: Some(announce), next: step.next }
                },
                RequestParsedContent::Eof => {
                    self.decided = true;
                    UpstreamStep { announce: None, next: UpstreamNext::Stop }
                },
                RequestParsedContent::Failed => {
                    self.drop_candidate(d.protocol);
                    if self.protocols.len() == 0 {
                        self.give_up()
                    } else {
                        UpstreamStep { announce: None, next: UpstreamNext::Wait }
                    }
                },
                RequestParsedContent::Content(_) => {
                    proof {
                        assert(false);
                    }
                    UpstreamStep { announce: None, next: UpstreamNext::Stop }
                },
            },
            UpstreamEvent::Chunk(c) => {
                match c {
                    Some(b) => {
                        crate::io::extend_bytes(&mut self.content, b.as_slice());
                    },
                    None => {},
                }
                UpstreamStep { announce: None, next: UpstreamNext::Wait }
            },
        }
    }
}

/// What the downstream side learns: a chunk of response bytes (`None` at the
/// end of the response stream), or the protocol announced upstream.
pub enum DownstreamEvent {
    Chunk(Option<Vec<u8>>),
    Protocol(Option<Protocol>),
}

/// What the downstream side does next: wait, hand the response to the
/// parser of a protocol together with the bytes held back, or write the
/// bytes held back to the client and copy the rest of the response.
pub enum DownstreamNext {
    Wait,
    HandOff(Protocol, Vec<u8>),
    PassThrough(Vec<u8>),
}

/// The downstream side before its decision: the response bytes held back.
pub struct ServerToProxy {
    content: Vec<u8>,
}

impl ServerToProxy {
    /// The response bytes held back.
    pub closed spec fn held(&self) -> Seq<u8> {
        self.content@
    }

    pub fn new() -> (r: Self)
        ensures
            r.held() == Seq::<u8>::empty(),
    {
        ServerToProxy { content: Vec::new() }
    }

    /// Takes one event and decides: a chunk is held back; the end of the
    /// response, or the news that no protocol was found, passes what was
    /// held back through; a protocol hands it to that protocol's parser.
    pub fn on_event(&mut self, event: DownstreamEvent) -> (r: DownstreamNext)
        ensures
            match event {
                DownstreamEvent::Chunk(Some(b)) => r is Wait && final(self).held() == old(
                    self,
                ).held() + b@,
                DownstreamEvent::Chunk(None) => r matches DownstreamNext::PassThrough(c) && c@
                    == old(self).held() && final(self).held() == Seq::<u8>::empty(),
                DownstreamEvent::Protocol(Some(p)) => r matches DownstreamNext::HandOff(q, c) && q
                    == p && c@ == old(self).held() && final(self).held() == Seq::<u8>::empty(),
                DownstreamEvent::Protocol(None) => r matches DownstreamNext::PassThrough(c) && c@
                    == old(self).held() && final(self).held() == Seq::<u8>::empty(),
            },
    {
        match event {
            DownstreamEvent::Chunk(Some(b)) => {
                crate::io::extend_bytes(&mut self.content, b.as_slice());
                DownstreamNext::Wait
            },
            DownstreamEvent::Chunk(None) => {
                let mut out = Vec::new();
                std::mem::swap(&mut out, &mut self.content);
                DownstreamNext::PassThrough(out)
            },
            DownstreamEvent::Protocol(p) => {
                let mut out = Vec::new();
                std::mem::swap(&mut out, &mut self.content);
                match p {
                    Some(p) => DownstreamNext::HandOff(p, out),
                    None => DownstreamNext::PassThrough(out),
                }
            },
        }
    }
}

/// What a protocol parser reports when reading the request failed on its
/// bytes: the request is not of its protocol.
pub fn parse_failure(protocol: Protocol, e: &TuziError) -> (r: RequestParsedData)
    requires
        e is Nom,
    ensures
        r.protocol == protocol,
        r.content is Failed,
{
    RequestParsedData { protocol, content: RequestParsedContent::Failed }
}

} // verus!

use vstd::prelude::*;
use crate::error::BytePacketError as Error;
use crate::packet::{DnsPacket, PacketView, first_a, ns_for, resolved_in};
use crate::types::{QueryType, ResultCode};

verus! {

/// Deepest nesting of name server lookups that a resolution may reach.
pub const MAX_DEPTH: usize = 16;

/// Most queries that one resolution may send; past them it fails.
pub const MAX_HOPS: usize = 24;

/// Port on which name servers are queried.
pub const DNS_PORT: u16 = 53;

/// Whether a response ends a lookup: answers with `NoError`, or `NxDomain`.
pub open spec fn is_final(p: PacketView) -> bool {
    (p.answers.len() > 0 && p.header.rescode == ResultCode::NoError) || p.header.rescode == ResultCode::NxDomain
}

/// The well-known servers that resolve the address of a name server, tried
/// from the last one backward.
pub open spec fn fallback_servers() -> Seq<Seq<u8>> {
    seq![seq![198u8, 41, 0, 4], seq![1u8, 1, 1, 1], seq![1u8, 0, 0, 1]]
}

/// The addresses of a list of servers.
pub open spec fn servers_view(v: Seq<[u8; 4]>) -> Seq<Seq<u8>> {
    v.map_values(|a: [u8; 4]| a@)
}

/// One lookup in progress: the name and type asked for, the server being
/// asked, the candidates not yet tried (the last one is next) and, while the
/// address of a name server is looked up, the response that named it.
pub struct Frame {
    pub qname: String,
    pub qtype: QueryType,
    pub server: [u8; 4],
    pub rest: Vec<[u8; 4]>,
    pub pending: Option<DnsPacket>,
}

pub struct FrameView {
    pub qname: Seq<char>,
    pub qtype: QueryType,
    pub server: Seq<u8>,
    pub rest: Seq<Seq<u8>>,
    pub pending: Option<PacketView>,
}

impl View for Frame {
    type V = FrameView;

    open spec fn view(&self) -> FrameView {
        FrameView {
            qname: self.qname@,
            qtype: self.qtype,
            server: self.server@,
            rest: servers_view(self.rest@),
            pending: match self.pending {
                Some(p) => Some(p@),
                None => None,
            },
        }
    }
}

/// What the resolver asks for next: a query to send, or its result.
pub enum ResolveStep {
    Query { server: [u8; 4], qname: String, qtype: QueryType },
    Done(Result<DnsPacket, Error>),
}

pub enum StepView {
    Query { server: Seq<u8>, qname: Seq<char>, qtype: QueryType },
    Done(Result<PacketView, Error>),
}

impl View for ResolveStep {
    type V = StepView;

    open spec fn view(&self) -> StepView {
        match self {
            ResolveStep::Query { server, qname, qtype } => StepView::Query { server: server@, qname: qname@, qtype: *qtype },
            ResolveStep::Done(Ok(p)) => StepView::Done(Ok(p@)),
            ResolveStep::Done(Err(e)) => StepView::Done(Err(*e)),
        }
    }
}

/// The query that a frame sends.
pub open spec fn query_of(f: FrameView) -> StepView {
    StepView::Query { server: f.server, qname: f.qname, qtype: f.qtype }
}

/// Hands the result `resp` of a finished lookup to the frames below it: the
/// innermost one that waits takes the first address of `resp` as its new
/// server and asks again; without an address it ends with the response it
/// kept, and so on outward.
pub open spec fn unwind(frames: Seq<FrameView>, resp: PacketView) -> (Seq<FrameView>, StepView)
    decreases frames.len(),
{
    if frames.len() == 0 {
        (frames, StepView::Done(Ok(resp)))
    } else {
        let parent = frames.last();
        match first_a(resp.answers) {
            Some(ip) => {
                let f = FrameView { server: ip, pending: None, ..parent };
                (frames.drop_last().push(f), query_of(f))
            },
            None => unwind(frames.drop_last(), parent.pending->Some_0),
        }
    }
}

/// What follows when the innermost lookup has no candidate left: the whole
/// resolution fails if it was the outermost one; otherwise the lookup that
/// waited on it ends with the response it kept, as when no address is found.
pub open spec fn give_up(frames: Seq<FrameView>) -> (Seq<FrameView>, StepView) {
    if frames.len() <= 1 {
        (Seq::empty(), StepView::Done(Err(Error::LookupFailed)))
    } else {
        unwind(frames.drop_last().drop_last(), frames[frames.len() - 2].pending->Some_0)
    }
}

/// How the frames `fs` go on after the query of the innermost one gave `outcome`.
pub open spec fn next_step(fs: Seq<FrameView>, outcome: Result<PacketView, Error>) -> (Seq<FrameView>, StepView) {
    let top = fs.last();
    match outcome {
        Err(_) => if top.rest.len() > 0 {
            let f = FrameView { server: top.rest.last(), rest: top.rest.drop_last(), ..top };
            (fs.drop_last().push(f), query_of(f))
        } else {
            give_up(fs)
        },
        Ok(resp) => {
            let ns = ns_for(resp.authorities, vstd::utf8::encode_utf8(top.qname));
            if is_final(resp) {
                unwind(fs.drop_last(), resp)
            } else {
                match resolved_in(ns, resp.resources) {
                    Some(ip) => {
                        let f = FrameView { server: ip, ..top };
                        (fs.drop_last().push(f), query_of(f))
                    },
                    None => if ns.len() == 0 {
                        unwind(fs.drop_last(), resp)
                    } else if fs.len() >= MAX_DEPTH {
                        (Seq::empty(), StepView::Done(Err(Error::LookupFailed)))
                    } else {
                        let f = FrameView {
                            qname: ns[0].1,
                            qtype: QueryType::A,
                            server: fallback_servers().last(),
                            rest: fallback_servers().drop_last(),
                            pending: None,
                        };
                        (fs.drop_last().push(FrameView { pending: Some(resp), ..top }).push(f), query_of(f))
                    },
                }
            }
        },
    }
}

/// The outcome of a query, with the response as a view.
pub open spec fn outcome_view(o: Result<DnsPacket, Error>) -> Result<PacketView, Error> {
    match o {
        Ok(p) => Ok(p@),
        Err(e) => Err(e),
    }
}

/// The recursive resolver, as a stack of lookups and the number of queries sent.
pub struct Resolver {
    pub frames: Vec<Frame>,
    pub hops: usize,
}

impl Resolver {
    pub open spec fn frames_view(&self) -> Seq<FrameView> {
        self.frames@.map_values(|f: Frame| f@)
    }

    /// Every frame but the innermost waits on the one above it, and the
    /// bounds on nesting and on queries hold.
    pub open spec fn wf(&self) -> bool {
        &&& self.frames@.len() <= MAX_DEPTH
        &&& self.hops <= MAX_HOPS
        &&& forall|i: int| 0 <= i < self.frames@.len() - 1 ==> (#[trigger] self.frames@[i]).pending is Some
    }

    /// Whether every frame waits on a lookup above it.
    pub open spec fn waiting(&self) -> bool {
        &&& self.frames@.len() <= MAX_DEPTH
        &&& forall|i: int| 0 <= i < self.frames@.len() ==> (#[trigger] self.frames@[i]).pending is Some
    }

    /// Starts resolving `qname` of type `qtype`: the last of `servers` is
    /// asked first, the others are kept, in order, for when it fails.
    pub fn start(mut servers: Vec<[u8; 4]>, qname: String, qtype: QueryType) -> (r: (Resolver, ResolveStep))
        ensures
            r.0.wf(),
            servers@.len() == 0 ==> r.0.frames@.len() == 0 && r.1@ == StepView::Done(Err(Error::LookupFailed)),
            servers@.len() > 0 ==> {
                let f = FrameView {
                    qname: qname@,
                    qtype,
                    server: servers@.last()@,
                    rest: servers_view(servers@.drop_last()),
                    pending: None,
                };
                &&& r.0.frames_view() == seq![f]
                &&& r.0.hops == 1
                &&& r.1@ == query_of(f)
            },
    {
        let ghost all = servers@;
        match servers.pop() {
            None => (Resolver { frames: Vec::new(), hops: 0 }, ResolveStep::Done(Err(Error::LookupFailed))),
            Some(server) => {
                let step = ResolveStep::Query { server, qname: qname.clone(), qtype };
                let mut frames: Vec<Frame> = Vec::new();
                frames.push(Frame { qname, qtype, server, rest: servers, pending: None });
                let r = Resolver { frames, hops: 1 };
                assert(r.frames_view() =~= seq![r.frames@[0]@]);
                (r, step)
            },
        }
    }

    /// Hands `first`, the result of a lookup that has ended, to the frames below it.
    fn finish(&mut self, first: DnsPacket) -> (r: ResolveStep)
        requires
            old(self).waiting(),
        ensures
            final(self).hops == old(self).hops,
            final(self).frames@.len() <= MAX_DEPTH,
            forall|i: int| 0 <= i < final(self).frames@.len() - 1 ==> (#[trigger] final(self).frames@[i]).pending is Some,
            (final(self).frames_view(), r@) == unwind(old(self).frames_view(), first@),
    {
        let mut resp = first;
        loop
            invariant
                self.waiting(),
                self.hops == old(self).hops,
                unwind(self.frames_view(), resp@) == unwind(old(self).frames_view(), first@),
            decreases self.frames@.len(),
        {
            let ghost fs = self.frames_view();
            match self.frames.pop() {
                None => {
                    assert(fs.len() == 0);
                    return ResolveStep::Done(Ok(resp));
                },
                Some(mut parent) => {
                    proof {
                        assert(self.frames_view() =~= fs.drop_last());
                        assert(parent@ == fs.last());
                    }
                    match resp.get_random_a() {
                        Some(ip) => {
                            parent.server = ip;
                            parent.pending = None;
                            let step = ResolveStep::Query { server: ip, qname: parent.qname.clone(), qtype: parent.qtype };
                            let ghost pv = parent@;
                            self.frames.push(parent);
                            proof {
                                assert(self.frames_view() =~= fs.drop_last().push(pv));
                            }
                            return step;
                        },
                        None => {
                            match parent.pending {
                                Some(p) => {
                                    resp = p;
                                },
                                None => {
                                    assert(false);
                                    return ResolveStep::Done(Err(Error::LookupFailed));
                                },
                            }
                        },
                    }
                },
            }
        }
    }

    /// Decides the next step from the outcome of the innermost query; the
    /// count of queries is left to the caller.
    fn decide(&mut self, outcome: Result<DnsPacket, Error>) -> (r: ResolveStep)
        requires
            old(self).wf(),
            old(self).frames@.len() > 0,
        ensures
            final(self).hops == old(self).hops,
            final(self).frames@.len() <= MAX_DEPTH,
            forall|i: int| 0 <= i < final(self).frames@.len() - 1 ==> (#[trigger] final(self).frames@[i]).pending is Some,
            (final(self).frames_view(), r@) == next_step(old(self).frames_view(), outcome_view(outcome)),
    {
        let ghost fs = self.frames_view();
        let mut top = match self.frames.pop() {
            Some(f) => f,
            None => return ResolveStep::Done(Err(Error::LookupFailed)),
        };
        proof {
            assert(self.frames_view() =~= fs.drop_last());
            assert(top@ == fs.last());
        }
        let resp = match outcome {
            Ok(p) => p,
            Err(_) => {
                let ghost tv0 = top@;
                match top.rest.pop() {
                    Some(next) => {
                        top.server = next;
                        let step = ResolveStep::Query { server: next, qname: top.qname.clone(), qtype: top.qtype };
                        let ghost tv = top@;
                        self.frames.push(top);
                        proof {
                            assert(tv.rest =~= tv0.rest.drop_last());
                            assert(self.frames_view() =~= fs.drop_last().push(tv));
                        }
                        return step;
                    },
                    None => {
                        let ghost inner = self.frames_view();
                        match self.frames.pop() {
                            None => {
                                return ResolveStep::Done(Err(Error::LookupFailed));
                            },
                            Some(parent) => {
                                proof {
                                    assert(self.frames_view() =~= fs.drop_last().drop_last());
                                    assert(parent@ == fs[fs.len() - 2]);
                                }
                                match parent.pending {
                                    Some(p) => return self.finish(p),
                                    None => {
                                        assert(false);
                                        return ResolveStep::Done(Err(Error::LookupFailed));
                                    },
                                }
                            },
                        }
                    },
                }
            },
        };
        let done = (resp.answers.len() > 0 && resp.header.rescode == ResultCode::NoError)
            || resp.header.rescode == ResultCode::NxDomain;
        if done {
            return self.finish(resp);
        }
        match resp.get_resolved_ns(top.qname.as_str()) {
            Some(ip) => {
                top.server = ip;
                let step = ResolveStep::Query { server: ip, qname: top.qname.clone(), qtype: top.qtype };
                let ghost tv = top@;
                self.frames.push(top);
                proof {
                    assert(self.frames_view() =~= fs.drop_last().push(tv));
                }
                return step;
            },
            None => {},
        }
        let host = match resp.get_unresolved_ns(top.qname.as_str()) {
            Some(h) => h,
            None => return self.finish(resp),
        };
        if self.frames.len() + 1 >= MAX_DEPTH {
            self.frames = Vec::new();
            proof {
                assert(self.frames_view() =~= Seq::<FrameView>::empty());
            }
            return ResolveStep::Done(Err(Error::LookupFailed));
        }
        let server: [u8; 4] = [1, 0, 0, 1];
        let mut rest: Vec<[u8; 4]> = Vec::new();
        rest.push([198, 41, 0, 4]);
        rest.push([1, 1, 1, 1]);
        let step = ResolveStep::Query { server, qname: host.clone(), qtype: QueryType::A };
        top.pending = Some(resp);
        let ghost tv = top@;
        self.frames.push(top);
        let next = Frame { qname: host, qtype: QueryType::A, server, rest, pending: None };
        let ghost nv = next@;
        self.frames.push(next);
        proof {
            assert(self.frames_view() =~= fs.drop_last().push(tv).push(nv));
            assert(server@ =~= fallback_servers().last());
            assert(nv.rest =~= fallback_servers().drop_last());
        }
        step
    }

    /// Takes the outcome of the query that the last step asked for and
    /// decides the next step, as `next_step` says. A failed query gives way
    /// to the next candidate server of the same lookup; with none left, the
    /// outermost lookup fails with `LookupFailed` and a lookup of a name
    /// server's address ends without one. A final response ends the innermost
    /// lookup. A delegation asks the named server when the response carries
    /// its address, else starts a lookup of that address at the fallback
    /// servers. Every query counts, and once `MAX_HOPS` have been sent the
    /// resolution fails with `LookupFailed`.
    pub fn on_response(&mut self, outcome: Result<DnsPacket, Error>) -> (r: ResolveStep)
        requires
            old(self).wf(),
            old(self).frames@.len() > 0,
        ensures
            final(self).wf(),
            r is Query ==> final(self).hops == old(self).hops + 1,
            r is Done ==> final(self).frames@.len() == 0,
            old(self).hops >= MAX_HOPS ==> r@ == StepView::Done(Err(Error::LookupFailed)),
            old(self).hops < MAX_HOPS ==> (final(self).frames_view(), r@)
                == next_step(old(self).frames_view(), outcome_view(outcome)),
    {
        if self.hops >= MAX_HOPS {
            self.frames = Vec::new();
            return ResolveStep::Done(Err(Error::LookupFailed));
        }
        let ghost ov = outcome_view(outcome);
        let step = self.decide(outcome);
        proof {
            lemma_done_clears(old(self).frames_view(), ov);
        }
        if let ResolveStep::Query { .. } = step {
            self.hops = self.hops + 1;
        }
        step
    }
}

proof fn lemma_unwind_done_clears(frames: Seq<FrameView>, resp: PacketView)
    ensures
        unwind(frames, resp).1 is Done ==> unwind(frames, resp).0.len() == 0,
    decreases frames.len(),
{
    if frames.len() > 0 {
        lemma_unwind_done_clears(frames.drop_last(), frames.last().pending->Some_0);
    }
}

/// A step that ends the resolution leaves no lookup behind.
proof fn lemma_done_clears(fs: Seq<FrameView>, outcome: Result<PacketView, Error>)
    requires
        fs.len() > 0,
    ensures
        next_step(fs, outcome).1 is Done ==> next_step(fs, outcome).0.len() == 0,
{
    lemma_unwind_done_clears(fs.drop_last(), match outcome { Ok(p) => p, Err(_) => fs.last().pending->Some_0 });
    if fs.len() > 1 {
        lemma_unwind_done_clears(fs.drop_last().drop_last(), fs[fs.len() - 2].pending->Some_0);
    }
}

} // verus!

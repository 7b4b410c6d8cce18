//! What the client is told is true: while no operation is under way, queries are answered from
//! the primary's namespace, an operation that succeeds has taken effect, one that is refused
//! has not, and bytes that are read match the file's content hash.

use crate::chunk::{self, ChunkV, ManifestV};
use crate::durability;
use crate::erasure::Erasure;
use crate::error::ErrorV;
use crate::hash;
use crate::message::{self, MessageV, MetaOpV, MetaResult, NodeId, QueryResultV, QueryV};
use crate::metadata::{self, MetaV};
use crate::namespace::NsV;
use crate::net::{self, NetV};
use crate::ordmap;
use crate::path;
use crate::protocol::{self, Gathered};
use crate::simulation::{self, ClusterV, Letter};
use crate::soundness;
use crate::tree;
use crate::wire;
use vstd::prelude::*;

verus! {

/// Whether a message can change a namespace.
pub open spec fn mutates(env: wire::Envelope) -> bool {
    env.msg is MetaOpMsg || env.msg is MetaReplicate
}

/// Whether a message, if it replicates an operation to metadata node `p`, replicates one with
/// a sequence number below `n`.
pub open spec fn stale_for(e: wire::Envelope, p: u32, n: u64) -> bool {
    e.msg matches MessageV::MetaReplicate { seq, op } ==> e.to == NodeId::Meta(p) ==> seq < n
}

/// Whether a message cannot change the namespace of metadata node `p`, which has applied what
/// comes before `n`.
pub open spec fn harmless(p: u32, n: u64) -> spec_fn(wire::Envelope) -> bool {
    |e: wire::Envelope| !(e.msg is MetaOpMsg) && stale_for(e, p, n)
}

/// Whether a node has applied what comes before `n` and buffers nothing from `n` on.
pub open spec fn past(m: MetaV, n: u64) -> bool {
    &&& m.applied_seq >= n
    &&& m.buffer.dom().finite()
    &&& forall|s: u64| #[trigger] m.buffer.dom().contains(s) ==> s < n
    &&& m.meta_quorum <= 1 ==> m.next_seq >= m.applied_seq
}

/// Whether a message acknowledges none of some operations to metadata node `p`.
pub open spec fn unacknowledging(p: u32, d: Set<u64>) -> spec_fn(wire::Envelope) -> bool {
    |e: wire::Envelope|
        e.msg matches MessageV::MetaReplicateAck { seq } ==> e.to == NodeId::Meta(p)
            ==> !d.contains(seq)
}

/// Whether nobody will ever acknowledge some operations to metadata node `p`: every metadata
/// node has applied something else under their sequence numbers, and no acknowledgement is in
/// flight.
pub open spec fn buried(v: ClusterV, p: u32, d: Set<u64>) -> bool {
    &&& forall|s: u64, i: int| #[trigger]
        d.contains(s) && 0 <= i < v.metas.len() ==> s < (#[trigger] v.metas[i]).applied_seq
    &&& simulation::every(v.net.queue, unacknowledging(p, d))
}

/// No operation is under way: the primary waits for no acknowledgement that could come, and
/// nothing in flight or buffered can change its namespace.
pub open spec fn idle(v: ClusterV, p: u32) -> bool {
    let m = v.metas[p as int];
    &&& v.primary() == Some(p)
    &&& buried(v, p, m.pending.dom())
    &&& past(m, m.applied_seq)
    &&& simulation::every(v.net.queue, harmless(p, m.applied_seq))
}

/// The primary's namespace.
pub open spec fn names(v: ClusterV, p: u32) -> NsV {
    v.metas[p as int].ns
}

/// The primary is one of the metadata nodes and is up.
pub proof fn lemma_primary(v: ClusterV, p: u32)
    requires
        v.primary() == Some(p),
    ensures
        p < v.opts.meta_count,
        !v.net.down.contains(NodeId::Meta(p)),
{
    simulation::lemma_live(v);
    assert(v.live_meta()[0] == p);
}

/// The primary depends on the topology alone.
pub proof fn lemma_primary_stays(v: ClusterV, w: ClusterV)
    requires
        v.opts == w.opts,
        v.net.down == w.net.down,
    ensures
        v.primary() == w.primary(),
        v.live_meta() == w.live_meta(),
        v.live_storage() == w.live_storage(),
{
    let f = |i: u32| !v.net.down.contains(NodeId::Meta(i));
    let g = |i: u32| !w.net.down.contains(NodeId::Meta(i));
    assert(f =~= g);
    let f2 = |i: u32| !v.net.down.contains(NodeId::Storage(i));
    let g2 = |i: u32| !w.net.down.contains(NodeId::Storage(i));
    assert(f2 =~= g2);
}

/// What a metadata node sends in response to anything but an operation changes no namespace
/// and answers no correlation id that was not asked.
pub proof fn lemma_replies_kind(m: MetaV, from: NodeId, msg: MessageV)
    requires
        !(msg is MetaOpMsg),
        m.buffer.dom().finite(),
    ensures
        forall|i: int|
            0 <= i < m.handled(from, msg).1.len() ==> {
                let e = #[trigger] m.handled(from, msg).1[i];
                &&& !mutates(e)
                &&& !(e.msg is MetaQueryMsg)
                &&& e.msg is MetaQueryResp ==> msg is MetaQueryMsg
                &&& e.msg is MetaCommitted ==> msg is MetaReplicateAck
            },
{
    match msg {
        MessageV::MetaReplicate { seq, op } => {
            metadata::lemma_caught_up(MetaV { buffer: m.buffer.insert(seq, op), ..m });
        },
        MessageV::Heartbeat { node, chunks } => {
            let w = MetaV { holders: metadata::reported(m.holders, node, chunks), ..m };
            if w.is_primary {
                let ids = ordmap::in_order::<crate::hash::Hash>(metadata::referenced(w.ns.files));
                soundness::lemma_orders_kind(w, ids, ids.len());
            }
        },
        _ => {},
    }
}

/// A metadata node keeps its namespace unless it gets an operation, an acknowledgement that it
/// waits for, or a replicated operation that it has not applied.
pub proof fn lemma_namespace_stands(m: MetaV, from: NodeId, msg: MessageV, n: u64)
    requires
        !(msg is MetaOpMsg),
        msg matches MessageV::MetaReplicate { seq, op } ==> seq < n,
        msg matches MessageV::MetaReplicateAck { seq } ==> !m.pending.dom().contains(seq),
        past(m, n),
    ensures
        m.handled(from, msg).0.ns == m.ns,
        m.handled(from, msg).0.pending == m.pending,
        m.handled(from, msg).0.applied_seq == m.applied_seq,
        past(m.handled(from, msg).0, n),
{
}

/// A node that gets anything but an operation applies no less than before and keeps its
/// quorum, its peers and its next number.
pub proof fn lemma_keeps_pace(m: MetaV, from: NodeId, msg: MessageV)
    requires
        m.buffer.dom().finite(),
        !(msg is MetaOpMsg),
    ensures
        m.handled(from, msg).0.applied_seq >= m.applied_seq,
        m.handled(from, msg).0.meta_quorum == m.meta_quorum,
        m.handled(from, msg).0.peers == m.peers,
        m.handled(from, msg).0.next_seq == m.next_seq,
{
    if let MessageV::MetaReplicate { seq, op } = msg {
        metadata::lemma_caught_up(MetaV { buffer: m.buffer.insert(seq, op), ..m });
    }
}

/// A node acknowledges nothing below what it had applied.
pub proof fn lemma_acknowledges_anew(m: MetaV, from: NodeId, msg: MessageV)
    requires
        m.buffer.dom().finite(),
    ensures
        forall|i: int|
            0 <= i < m.handled(from, msg).1.len() ==> ((
            #[trigger] m.handled(from, msg).1[i]).msg matches MessageV::MetaReplicateAck { seq }
                ==> seq >= m.applied_seq),
{
    match msg {
        MessageV::MetaOpMsg { req_id, op } => {
            soundness::lemma_replication_kind(m.idx, m.peers, m.next_seq, op, m.peers.len());
        },
        MessageV::MetaReplicate { seq, op } => {
            metadata::lemma_caught_up(MetaV { buffer: m.buffer.insert(seq, op), ..m });
        },
        MessageV::Heartbeat { node, chunks } => {
            let w = MetaV { holders: metadata::reported(m.holders, node, chunks), ..m };
            if w.is_primary {
                let ids = ordmap::in_order::<crate::hash::Hash>(metadata::referenced(w.ns.files));
                soundness::lemma_orders_kind(w, ids, ids.len());
            }
        },
        _ => {},
    }
}

/// What is buried stays buried.
pub proof fn lemma_buried_pumped(v: ClusterV, p: u32, d: Set<u64>)
    requires
        soundness::sound(v),
        p < v.metas.len(),
        buried(v, p, d),
        v.net.stepped().1 matches Some(env) ==> (env.msg is MetaOpMsg ==> env.to == NodeId::Meta(p)
            && (v.metas[p as int].meta_quorum <= 1 ==> v.metas[p as int].next_seq
            >= v.metas[p as int].applied_seq)),
    ensures
        buried(v.pumped().0, p, d),
{
    let (n, e) = v.net.stepped();
    let y = v.pumped().0;
    let f = unacknowledging(p, d);
    simulation::lemma_stepped_every(v.net, f);
    if let Some(env) = e {
        let (x, out) = v.with_net(n).delivered(env);
        assert forall|i: int| 0 <= i < out.len() implies f(#[trigger] out[i]) by {
            if let NodeId::Meta(k) = env.to {
                if k < v.metas.len() {
                    lemma_acknowledges_anew(v.metas[k as int], env.from, env.msg);
                    if let MessageV::MetaReplicateAck { seq } = out[i].msg {
                        if d.contains(seq) {
                            assert(seq < v.metas[k as int].applied_seq);
                        }
                    }
                }
            }
        }
        simulation::lemma_sent_all_every(x.net, out, f);
        assert forall|s: u64, i: int| #[trigger]
            d.contains(s) && 0 <= i < y.metas.len() implies s < (
        #[trigger] y.metas[i]).applied_seq by {
            assert(s < v.metas[i].applied_seq);
            if env.to == NodeId::Meta(i as u32) && !(env.msg is MetaOpMsg) {
                lemma_keeps_pace(v.metas[i], env.from, env.msg);
            }
        }
    }
}

/// Sending no acknowledgements leaves buried what is buried.
pub proof fn lemma_buried_sends(v: ClusterV, p: u32, d: Set<u64>, out: Seq<wire::Envelope>)
    requires
        buried(v, p, d),
        forall|i: int| 0 <= i < out.len() ==> !((#[trigger] out[i]).msg is MetaReplicateAck),
    ensures
        buried(v.sent_all(out), p, d),
{
    let f = unacknowledging(p, d);
    assert forall|i: int| 0 <= i < out.len() implies f(#[trigger] out[i]) by {}
    simulation::lemma_sent_all_every(v.net, out, f);
}

/// A request to the primary leaves buried what is buried.
pub proof fn lemma_buried_asked(v: ClusterV, p: u32, d: Set<u64>, msg: MessageV)
    requires
        buried(v, p, d),
        !(msg is MetaReplicateAck),
    ensures
        buried(v.asked(p, msg), p, d),
{
    let env = wire::Envelope { from: NodeId::Client, to: NodeId::Meta(p), msg };
    lemma_sent_every(v.net, env, unacknowledging(p, d));
}

/// Fewer operations are buried too.
pub proof fn lemma_buried_fewer(v: ClusterV, p: u32, d: Set<u64>, e: Set<u64>)
    requires
        buried(v, p, d),
        e.subset_of(d),
    ensures
        buried(v, p, e),
{
    assert forall|i: int| 0 <= i < v.net.queue.len() implies unacknowledging(p, e)(
        (#[trigger] v.net.queue[i]).env,
    ) by {
        assert(unacknowledging(p, d)(v.net.queue[i].env));
    }
    assert forall|s: u64, i: int| #[trigger] e.contains(s) && 0 <= i < v.metas.len() implies s < (
    #[trigger] v.metas[i]).applied_seq by {
        assert(d.contains(s));
    }
}

/// Deliveries keep an idle cluster idle and its namespace as it is.
pub proof fn lemma_idle_pumped(v: ClusterV, p: u32)
    requires
        soundness::sound(v),
        idle(v, p),
    ensures
        idle(v.pumped().0, p),
        names(v.pumped().0, p) == names(v, p),
{
    let (n, d) = v.net.stepped();
    let at = net::law_step(v.net);
    lemma_primary(v, p);
    let a = v.metas[p as int].applied_seq;
    let old_ones = v.metas[p as int].pending.dom();
    simulation::lemma_stepped_every(v.net, harmless(p, a));
    simulation::lemma_stepped_every(v.net, unacknowledging(p, old_ones));
    soundness::lemma_pumped_sound(v);
    lemma_primary_stays(v, v.pumped().0);
    if let Some(env) = d {
        let w = v.with_net(n);
        let (x, out) = w.delivered(env);
        assert(harmless(p, a)(env));
        assert(unacknowledging(p, old_ones)(env));
        assert forall|i: int| 0 <= i < out.len() implies harmless(p, a)(#[trigger] out[i]) by {
            match env.to {
                NodeId::Meta(k) => {
                    if k < v.metas.len() {
                        lemma_replies_kind(v.metas[k as int], env.from, env.msg);
                    }
                },
                _ => {},
            }
        }
        simulation::lemma_sent_all_every(x.net, out, harmless(p, a));
        match env.to {
            NodeId::Meta(k) => {
                if k == p {
                    lemma_namespace_stands(v.metas[p as int], env.from, env.msg, a);
                }
            },
            _ => {},
        }
    }
    lemma_buried_pumped(v, p, old_ones);
}

/// Sending storage messages keeps an idle cluster idle.
pub proof fn lemma_idle_sends(v: ClusterV, p: u32, out: Seq<wire::Envelope>)
    requires
        idle(v, p),
        forall|i: int|
            0 <= i < out.len() ==> (#[trigger] out[i]).msg is StoreChunk || out[i].msg is FetchChunk,
    ensures
        idle(v.sent_all(out), p),
        names(v.sent_all(out), p) == names(v, p),
{
    simulation::lemma_sent_all_every(v.net, out, harmless(p, v.metas[p as int].applied_seq));
    simulation::lemma_sent_all_frame(v.net, out);
    lemma_primary_stays(v, v.sent_all(out));
    lemma_buried_sends(v, p, v.metas[p as int].pending.dom(), out);
}

/// What is in flight or in the inbox about query `req` is the query itself on its way to the
/// primary, and true answers.
pub open spec fn query_true(v: ClusterV, p: u32, req: u64, q: QueryV) -> bool {
    &&& simulation::every(v.net.queue, about_query(p, req, q, names(v, p)))
    &&& forall|i: int|
        0 <= i < v.inbox.len() ==> ((#[trigger] v.inbox[i]).msg matches MessageV::MetaQueryResp {
            req_id,
            result,
        } ==> req_id == req ==> result == names(v, p).answered(q))
}

/// See [`query_true`].
pub open spec fn about_query(p: u32, req: u64, q: QueryV, ns: NsV) -> spec_fn(
    wire::Envelope,
) -> bool {
    |e: wire::Envelope|
        match e.msg {
            MessageV::MetaQueryMsg { req_id, q: asked } => req_id == req ==> asked == q && e.to
                == NodeId::Meta(p),
            MessageV::MetaQueryResp { req_id, result } => req_id == req ==> result == ns.answered(
                q,
            ),
            _ => true,
        }
}

proof fn lemma_query_true_pumped(v: ClusterV, p: u32, req: u64, q: QueryV)
    requires
        soundness::sound(v),
        idle(v, p),
        query_true(v, p, req, q),
    ensures
        query_true(v.pumped().0, p, req, q),
{
    let ns = names(v, p);
    let about = about_query(p, req, q, ns);
    let (n, d) = v.net.stepped();
    lemma_idle_pumped(v, p);
    lemma_primary(v, p);
    simulation::lemma_stepped_every(v.net, about);
    let a = v.metas[p as int].applied_seq;
    simulation::lemma_stepped_every(v.net, harmless(p, a));
    if let Some(env) = d {
        let w = v.with_net(n);
        let (x, out) = w.delivered(env);
        assert(about(env));
        assert(harmless(p, a)(env));
        assert forall|i: int| 0 <= i < out.len() implies about(#[trigger] out[i]) by {
            match env.to {
                NodeId::Meta(k) => {
                    if k < v.metas.len() {
                        lemma_replies_kind(v.metas[k as int], env.from, env.msg);
                    }
                },
                _ => {},
            }
        }
        simulation::lemma_sent_all_every(x.net, out, about);
        let y = v.pumped().0;
        assert forall|i: int| 0 <= i < y.inbox.len() implies ((
        #[trigger] y.inbox[i]).msg matches MessageV::MetaQueryResp { req_id, result } ==> req_id
            == req ==> result == ns.answered(q)) by {
            if i < v.inbox.len() {
                assert(y.inbox[i] == v.inbox[i]);
            }
        }
    }
}

proof fn lemma_answer_among(inbox: Seq<Letter>, req: u64, n: nat, want: QueryResultV)
    requires
        n <= inbox.len(),
        forall|i: int|
            0 <= i < inbox.len() ==> ((#[trigger] inbox[i]).msg matches MessageV::MetaQueryResp {
                req_id,
                result,
            } ==> req_id == req ==> result == want),
    ensures
        protocol::answer_among(inbox, req, n) matches Some(r) ==> r == want,
    decreases n,
{
    if n > 0 {
        lemma_answer_among(inbox, req, (n - 1) as nat, want);
        assert(inbox[n - 1].msg == inbox[n - 1].msg);
    }
}

proof fn lemma_answer_is_true(v: ClusterV, p: u32, req: u64, q: QueryV, deadline: u64)
    requires
        soundness::sound(v),
        idle(v, p),
        query_true(v, p, req, q),
    ensures
        idle(v.answer_awaited(req, deadline).0, p),
        names(v.answer_awaited(req, deadline).0, p) == names(v, p),
        v.answer_awaited(req, deadline).1 matches Some(r) ==> r == names(v, p).answered(q),
    decreases u64::MAX - v.net.seq, v.net.queue.len(),
{
    let w = v.inbox_taken();
    soundness::lemma_inbox_taken_sound(v);
    lemma_primary_stays(v, w);
    lemma_answer_among(v.inbox, req, v.inbox.len(), names(v, p).answered(q));
    soundness::lemma_pumped_sound(w);
    simulation::lemma_pump_progress(w);
    lemma_idle_pumped(w, p);
    lemma_query_true_pumped(w, p, req, q);
    if protocol::answer_among(v.inbox, req, v.inbox.len()) is None && w.net.clock < deadline
        && w.pumped().1 {
        lemma_answer_is_true(w.pumped().0, p, req, q, deadline);
    }
}

/// While no operation is under way, a query is answered from the primary's namespace or not
/// at all, and changes nothing.
pub proof fn law_queries_are_answered_truly(v: ClusterV, p: u32, q: QueryV)
    requires
        soundness::sound(v),
        idle(v, p),
    ensures
        v.meta_queried(q).1 == Ok::<QueryResultV, ErrorV>(names(v, p).answered(q))
            || v.meta_queried(q).1 == Err::<QueryResultV, ErrorV>(ErrorV::MetadataUnavailable),
        idle(v.meta_queried(q).0, p),
        names(v.meta_queried(q).0, p) == names(v, p),
{
    if v.next_req < u64::MAX {
        let req = v.next_req;
        let msg = MessageV::MetaQueryMsg { req_id: req, q };
        let w = v.asked(p, msg);
        durability::lemma_asked(v, p, msg);
        let env = wire::Envelope { from: NodeId::Client, to: NodeId::Meta(p), msg };
        let about = about_query(p, req, q, names(v, p));
        assert forall|i: int| 0 <= i < v.net.queue.len() implies about(
            (#[trigger] v.net.queue[i]).env,
        ) by {
            assert(soundness::given_out(v.net.queue[i].env.msg, v.next_req));
        }
        lemma_sent_every(v.net, env, about);
        lemma_sent_every(v.net, env, harmless(p, v.metas[p as int].applied_seq));
        lemma_buried_asked(v, p, v.metas[p as int].pending.dom(), msg);
        lemma_primary_stays(v, w);
        assert forall|i: int| 0 <= i < w.inbox.len() implies ((
        #[trigger] w.inbox[i]).msg matches MessageV::MetaQueryResp { req_id, result } ==> req_id
            == req ==> result == names(w, p).answered(q)) by {
            assert(soundness::given_out(v.inbox[i].msg, v.next_req));
        }
        lemma_answer_is_true(w, p, req, q, w.deadline());
    }
}

/// A condition on messages in flight is kept by sending one that satisfies it.
pub proof fn lemma_sent_every(
    v: NetV,
    env: wire::Envelope,
    f: spec_fn(wire::Envelope) -> bool,
)
    requires
        simulation::every(v.queue, f),
        f(env),
    ensures
        simulation::every(v.sent(env).queue, f),
{
    let out = seq![env];
    simulation::lemma_sent_all_every(v, out, f);
    assert(out.drop_last() =~= seq![]);
    assert(v.sent_all(out) == v.sent_all(out.drop_last()).sent(out.last()));
}

/// Whether a message is an operation.
pub open spec fn is_op() -> spec_fn(wire::Envelope) -> bool {
    |e: wire::Envelope| e.msg is MetaOpMsg
}

/// Whether a message is not an operation.
pub open spec fn not_op() -> spec_fn(wire::Envelope) -> bool {
    |e: wire::Envelope| !is_op()(e)
}

/// Whether a message, if it is an operation, is `op` under `req` on its way to the primary,
/// and replicates nothing from `n` on to the primary.
pub open spec fn only_op(p: u32, n: u64, req: u64, op: MetaOpV) -> spec_fn(
    wire::Envelope,
) -> bool {
    |e: wire::Envelope|
        {
            &&& e.msg is MetaOpMsg ==> e == wire::Envelope {
                from: NodeId::Client,
                to: NodeId::Meta(p),
                msg: MessageV::MetaOpMsg { req_id: req, op },
            }
            &&& stale_for(e, p, n)
        }
}

/// Whether a message, if it reports the outcome of `req`, reports `r`; with no `r`, whether it
/// does not report it.
pub open spec fn reports(msg: MessageV, req: u64, r: Option<MetaResult>) -> bool {
    msg matches MessageV::MetaCommitted { req_id, result } ==> req_id == req ==> r == Some(result)
}

/// [`reports`] for messages in flight.
pub open spec fn reporting(req: u64, r: Option<MetaResult>) -> spec_fn(wire::Envelope) -> bool {
    |e: wire::Envelope| reports(e.msg, req, r)
}

/// All reports of the outcome of `req`, in flight and in the inbox, say `r`.
pub open spec fn outcome_is(v: ClusterV, req: u64, r: Option<MetaResult>) -> bool {
    &&& simulation::every(v.net.queue, reporting(req, r))
    &&& forall|i: int| 0 <= i < v.inbox.len() ==> reports((#[trigger] v.inbox[i]).msg, req, r)
}

/// The primary waits for no acknowledgement that could come, and not for the operation `req`.
pub open spec fn free_of(v: ClusterV, p: u32, req: u64) -> bool {
    let m = v.metas[p as int];
    &&& buried(v, p, m.pending.dom())
    &&& forall|s: u64| #[trigger] m.pending.dom().contains(s) ==> m.pending[s].req_id != req
}

/// The primary waits for acknowledgements of `op`, under `s`, and for no others that could
/// come.
pub open spec fn waits(v: ClusterV, p: u32, req: u64, op: MetaOpV, s: u64) -> bool {
    let m = v.metas[p as int];
    &&& m.pending.dom().contains(s)
    &&& m.pending[s].req_id == req
    &&& m.pending[s].client == NodeId::Client
    &&& m.pending[s].op == op
    &&& buried(v, p, m.pending.dom().remove(s))
    &&& forall|z: u64| #[trigger]
        m.pending.dom().contains(z) && z != s ==> m.pending[z].req_id != req
}

/// An operation that the primary has not dealt with yet.
pub open spec fn unhandled(v: ClusterV, p: u32, ns: NsV, req: u64) -> bool {
    &&& simulation::at_most_one(v.net.queue, is_op())
    &&& free_of(v, p, req)
    &&& names(v, p) == ns
    &&& outcome_is(v, req, None)
}

/// An operation that waits for a quorum.
pub open spec fn waiting(v: ClusterV, p: u32, ns: NsV, req: u64, op: MetaOpV) -> bool {
    &&& simulation::every(v.net.queue, not_op())
    &&& v.metas[p as int].meta_quorum > 1
    &&& exists|s: u64| #[trigger] waits(v, p, req, op, s)
    &&& ns.validated(op) is Ok
    &&& names(v, p) == ns
    &&& outcome_is(v, req, None)
}

/// An operation that the primary has refused or committed.
pub open spec fn decided(v: ClusterV, p: u32, ns: NsV, req: u64, op: MetaOpV) -> bool {
    &&& simulation::every(v.net.queue, not_op())
    &&& free_of(v, p, req)
    &&& match ns.validated(op) {
        Err(c) => names(v, p) == ns && outcome_is(v, req, Some(MetaResult::Rejected(c))),
        Ok(_) => names(v, p) == ns.applied(op) && outcome_is(v, req, Some(MetaResult::Committed)),
    }
}

/// No metadata node but the primary waits for the operation `req`.
pub open spec fn others_clear(v: ClusterV, p: u32, req: u64) -> bool {
    forall|k: int, s: u64|
        0 <= k < v.metas.len() && k != p && #[trigger] v.metas[k].pending.dom().contains(s)
            ==> v.metas[k].pending[s].req_id != req
}

/// Operation `op` was sent to the primary under `req` when its namespace was `ns` and it had
/// applied what comes before `a`, and nothing else that could change the namespace is under
/// way.
pub open spec fn underway(
    v: ClusterV,
    p: u32,
    a: u64,
    ns: NsV,
    req: u64,
    op: MetaOpV,
) -> bool {
    &&& v.primary() == Some(p)
    &&& past(v.metas[p as int], a)
    &&& simulation::every(v.net.queue, only_op(p, a, req, op))
    &&& others_clear(v, p, req)
    &&& {
        ||| unhandled(v, p, ns, req)
        ||| waiting(v, p, ns, req, op)
        ||| decided(v, p, ns, req, op)
    }
}

/// What the primary says about an operation.
pub open spec fn said(ns: NsV, op: MetaOpV) -> Option<MetaResult> {
    match ns.validated(op) {
        Err(c) => Some(MetaResult::Rejected(c)),
        Ok(_) => Some(MetaResult::Committed),
    }
}

/// A delivery leaves an operation under way or decides it.
pub proof fn lemma_underway_pumped(v: ClusterV, p: u32, a: u64, ns: NsV, req: u64, op: MetaOpV)
    requires
        soundness::sound(v),
        underway(v, p, a, ns, req, op),
    ensures
        underway(v.pumped().0, p, a, ns, req, op),
{
    let at = net::law_step(v.net);
    match v.net.stepped().1 {
        Some(env) => {
            if env.msg is MetaOpMsg {
                lemma_op_delivered(v, p, a, ns, req, op);
            } else {
                lemma_other_delivered(v, p, a, ns, req, op);
            }
        },
        None => {
            lemma_underway_lost(v, p, a, ns, req, op);
        },
    }
}

/// When nothing is left to deliver, an operation stays in its stage.
pub proof fn lemma_underway_lost(v: ClusterV, p: u32, a: u64, ns: NsV, req: u64, op: MetaOpV)
    requires
        soundness::sound(v),
        underway(v, p, a, ns, req, op),
        v.net.stepped().1 is None,
    ensures
        underway(v.pumped().0, p, a, ns, req, op),
        unhandled(v, p, ns, req) ==> unhandled(v.pumped().0, p, ns, req),
        waiting(v, p, ns, req, op) ==> waiting(v.pumped().0, p, ns, req, op),
        decided(v, p, ns, req, op) ==> decided(v.pumped().0, p, ns, req, op),
{
    let y = v.pumped().0;
    let at = net::law_step(v.net);
    lemma_primary_stays(v, y);
    simulation::lemma_stepped_every(v.net, only_op(p, a, req, op));
    if unhandled(v, p, ns, req) {
        simulation::lemma_stepped_every(v.net, reporting(req, None));
        simulation::lemma_stepped_at_most_one(v.net, is_op());
    }
    if waiting(v, p, ns, req, op) {
        simulation::lemma_stepped_every(v.net, reporting(req, None));
        simulation::lemma_stepped_every(v.net, not_op());
        let s = choose|s: u64| #[trigger] waits(v, p, req, op, s);
        lemma_primary(v, p);
        lemma_buried_pumped(v, p, v.metas[p as int].pending.dom().remove(s));
        assert(waits(y, p, req, op, s));
    }
    if decided(v, p, ns, req, op) {
        simulation::lemma_stepped_every(v.net, reporting(req, said(ns, op)));
        simulation::lemma_stepped_every(v.net, not_op());
    }
    if free_of(v, p, req) {
        lemma_primary(v, p);
        lemma_buried_pumped(v, p, v.metas[p as int].pending.dom());
    }
}

/// The inbox after a delivery.
proof fn lemma_inbox_after(v: ClusterV, req: u64, r: Option<MetaResult>)
    requires
        outcome_is(v, req, r),
    ensures
        forall|i: int|
            0 <= i < v.pumped().0.inbox.len() ==> reports(
                (#[trigger] v.pumped().0.inbox[i]).msg,
                req,
                r,
            ),
{
    let y = v.pumped().0;
    simulation::lemma_stepped_every(v.net, reporting(req, r));
    assert forall|i: int| 0 <= i < y.inbox.len() implies reports(
        (#[trigger] y.inbox[i]).msg,
        req,
        r,
    ) by {
        if i < v.inbox.len() {
            assert(y.inbox[i] == v.inbox[i]);
        }
    }
}

/// What becomes of an operation when it reaches the primary.
pub proof fn lemma_op_delivered(v: ClusterV, p: u32, a: u64, ns: NsV, req: u64, op: MetaOpV)
    requires
        soundness::sound(v),
        underway(v, p, a, ns, req, op),
        v.net.stepped().1 matches Some(env) && env.msg is MetaOpMsg,
    ensures
        underway(v.pumped().0, p, a, ns, req, op),
        unhandled(v, p, ns, req),
        v.net.stepped().1 == Some(
            wire::Envelope {
                from: NodeId::Client,
                to: NodeId::Meta(p),
                msg: MessageV::MetaOpMsg { req_id: req, op },
            },
        ),
        match ns.validated(op) {
            Err(_) => decided(v.pumped().0, p, ns, req, op),
            Ok(_) => if v.metas[p as int].next_seq == u64::MAX {
                unhandled(v.pumped().0, p, ns, req)
            } else {
                waiting(v.pumped().0, p, ns, req, op) || decided(v.pumped().0, p, ns, req, op)
            },
        },
{
    let (n, d) = v.net.stepped();
    let env = d->Some_0;
    let at = net::law_step(v.net);
    let y = v.pumped().0;
    lemma_primary(v, p);
    soundness::lemma_pumped_sound(v);
    lemma_primary_stays(v, y);
    simulation::lemma_stepped_every(v.net, only_op(p, a, req, op));
    let w = v.with_net(n);
    let m = v.metas[p as int];
    lemma_others_clear(v, p, req);
    assert(unhandled(v, p, ns, req)) by {
        if simulation::every(v.net.queue, not_op()) {
            simulation::lemma_stepped_every(v.net, not_op());
            assert(not_op()(env));
        }
    }
    simulation::lemma_stepped_at_most_one(v.net, is_op());
    simulation::lemma_stepped_every(v.net, reporting(req, None));
    assert(is_op()(env));
    assert(only_op(p, a, req, op)(env));
    assert(simulation::every(n.queue, not_op()));
    let (x, out) = w.delivered(env);
    assert(out == m.submitted(NodeId::Client, req, op).1);
    assert(x.metas[p as int] == m.submitted(NodeId::Client, req, op).0);
    soundness::lemma_replication_kind(m.idx, m.peers, m.next_seq, op, m.peers.len());
    assert(m.idx == p);
    assert forall|i: int| 0 <= i < out.len() implies only_op(p, a, req, op)(#[trigger] out[i])
        && not_op()(out[i]) by {}
    simulation::lemma_sent_all_every(x.net, out, only_op(p, a, req, op));
    simulation::lemma_sent_all_every(x.net, out, not_op());
    lemma_inbox_after(v, req, None);
    lemma_buried_pumped(v, p, m.pending.dom());
    match ns.validated(op) {
        Err(c) => {
            let r = Some(MetaResult::Rejected(c));
            lemma_none_is_any(n, req, r);
            simulation::lemma_sent_all_every(x.net, out, reporting(req, r));
            assert(decided(y, p, ns, req, op));
        },
        Ok(_) => {
            if m.next_seq == u64::MAX {
                simulation::lemma_sent_all_every(x.net, out, reporting(req, None));
                assert(simulation::at_most_one(y.net.queue, is_op())) by {
                    lemma_none_at_most_one(y.net);
                }
                assert(unhandled(y, p, ns, req));
            } else if m.meta_quorum <= 1 {
                let r = Some(MetaResult::Committed);
                lemma_none_is_any(n, req, r);
                simulation::lemma_sent_all_every(x.net, out, reporting(req, r));
                assert(decided(y, p, ns, req, op));
            } else {
                simulation::lemma_sent_all_every(x.net, out, reporting(req, None));
                let s = m.next_seq;
                let pend = y.metas[p as int].pending;
                assert(pend.dom() =~= m.pending.dom().insert(s));
                lemma_buried_fewer(y, p, m.pending.dom(), pend.dom().remove(s));
                assert(waits(y, p, req, op, s));
                assert(waiting(y, p, ns, req, op));
            }
        },
    }
}

proof fn lemma_none_is_any(n: NetV, req: u64, r: Option<MetaResult>)
    requires
        simulation::every(n.queue, reporting(req, None)),
    ensures
        simulation::every(n.queue, reporting(req, r)),
{
    assert forall|i: int| 0 <= i < n.queue.len() implies reporting(req, r)(
        (#[trigger] n.queue[i]).env,
    ) by {
        assert(reporting(req, None)(n.queue[i].env));
    }
}

proof fn lemma_none_at_most_one(n: NetV)
    requires
        simulation::every(n.queue, not_op()),
    ensures
        simulation::at_most_one(n.queue, is_op()),
{
    assert forall|i: int, j: int| 0 <= i < j < n.queue.len() implies !(is_op()(
        (#[trigger] n.queue[i]).env,
    ) && is_op()((#[trigger] n.queue[j]).env)) by {
        assert(not_op()(n.queue[i].env));
    }
}

/// Deliveries of anything but the operation itself leave it in its stage, but for the
/// acknowledgement that completes its quorum.
pub proof fn lemma_other_delivered(v: ClusterV, p: u32, a: u64, ns: NsV, req: u64, op: MetaOpV)
    requires
        soundness::sound(v),
        underway(v, p, a, ns, req, op),
        v.net.stepped().1 matches Some(env) && !(env.msg is MetaOpMsg),
    ensures
        underway(v.pumped().0, p, a, ns, req, op),
        unhandled(v, p, ns, req) ==> unhandled(v.pumped().0, p, ns, req),
        waiting(v, p, ns, req, op) ==> waiting(v.pumped().0, p, ns, req, op) || decided(
            v.pumped().0,
            p,
            ns,
            req,
            op,
        ),
        decided(v, p, ns, req, op) ==> decided(v.pumped().0, p, ns, req, op),
{
    let (n, d) = v.net.stepped();
    let env = d->Some_0;
    let y = v.pumped().0;
    lemma_primary(v, p);
    soundness::lemma_pumped_sound(v);
    lemma_primary_stays(v, y);
    simulation::lemma_stepped_every(v.net, only_op(p, a, req, op));
    let w = v.with_net(n);
    let (x, out) = w.delivered(env);
    let m = v.metas[p as int];
    assert(only_op(p, a, req, op)(env));
    lemma_others_clear(v, p, req);
    // Nobody sends an operation, and nobody but the primary reports on this one.
    assert forall|i: int| 0 <= i < out.len() implies only_op(p, a, req, op)(#[trigger] out[i])
        && not_op()(out[i]) by {
        match env.to {
            NodeId::Meta(k) => {
                if k < v.metas.len() {
                    lemma_replies_kind(v.metas[k as int], env.from, env.msg);
                }
            },
            _ => {},
        }
    }
    simulation::lemma_sent_all_every(x.net, out, only_op(p, a, req, op));
    if unhandled(v, p, ns, req) {
        simulation::lemma_stepped_at_most_one(v.net, is_op());
        assert forall|i: int| 0 <= i < out.len() implies !is_op()(#[trigger] out[i]) by {
            assert(not_op()(out[i]));
        }
        simulation::lemma_sent_all_at_most_one(x.net, out, is_op());
        lemma_unreported(v, p, a, ns, req, op, None);
        lemma_free_stands(v, p, a, req);
        assert(unhandled(y, p, ns, req));
    }
    if waiting(v, p, ns, req, op) {
        simulation::lemma_stepped_every(v.net, not_op());
        simulation::lemma_sent_all_every(x.net, out, not_op());
        let s = choose|s: u64| #[trigger] waits(v, p, req, op, s);
        let rest = m.pending.dom().remove(s);
        lemma_buried_pumped(v, p, rest);
        simulation::lemma_stepped_every(v.net, unacknowledging(p, rest));
        assert(unacknowledging(p, rest)(env));
        if env.to == NodeId::Meta(p) && env.msg is MetaReplicateAck && out.len() > 0 {
            let r = Some(MetaResult::Committed);
            assert(env.msg == MessageV::MetaReplicateAck { seq: s });
            simulation::lemma_stepped_every(v.net, reporting(req, None));
            lemma_none_is_any(n, req, r);
            simulation::lemma_sent_all_every(x.net, out, reporting(req, r));
            assert(y.metas[p as int].pending.dom() =~= rest);
            lemma_inbox_after(v, req, None);
            assert(decided(y, p, ns, req, op));
        } else {
            lemma_unreported(v, p, a, ns, req, op, None);
            let m2 = y.metas[p as int];
            if env.to == NodeId::Meta(p) {
                lemma_waiting_stands(m, env.from, env.msg, s, a);
                assert(m2.pending.dom() =~= m.pending.dom());
            }
            assert(waits(y, p, req, op, s));
            assert(waiting(y, p, ns, req, op));
        }
    }
    if decided(v, p, ns, req, op) {
        simulation::lemma_stepped_every(v.net, not_op());
        simulation::lemma_sent_all_every(x.net, out, not_op());
        lemma_unreported(v, p, a, ns, req, op, said(ns, op));
        lemma_free_stands(v, p, a, req);
        assert(decided(y, p, ns, req, op));
    }
}

/// Deliveries of anything but an operation leave a primary alone that waits for nothing that
/// could come.
proof fn lemma_free_stands(v: ClusterV, p: u32, a: u64, req: u64)
    requires
        soundness::sound(v),
        p < v.metas.len(),
        past(v.metas[p as int], a),
        free_of(v, p, req),
        v.net.stepped().1 matches Some(env) ==> !(env.msg is MetaOpMsg) && stale_for(env, p, a),
    ensures
        free_of(v.pumped().0, p, req),
        names(v.pumped().0, p) == names(v, p),
        v.pumped().0.metas[p as int].applied_seq == v.metas[p as int].applied_seq,
        past(v.pumped().0.metas[p as int], a),
{
    let m = v.metas[p as int];
    let d = m.pending.dom();
    simulation::lemma_stepped_every(v.net, unacknowledging(p, d));
    lemma_buried_pumped(v, p, d);
    if let Some(env) = v.net.stepped().1 {
        assert(unacknowledging(p, d)(env));
        if env.to == NodeId::Meta(p) {
            lemma_namespace_stands(m, env.from, env.msg, a);
        }
    }
}

/// A delivery that does not complete the operation's quorum adds no report on it.
proof fn lemma_unreported(
    v: ClusterV,
    p: u32,
    a: u64,
    ns: NsV,
    req: u64,
    op: MetaOpV,
    r: Option<MetaResult>,
)
    requires
        soundness::sound(v),
        underway(v, p, a, ns, req, op),
        outcome_is(v, req, r),
        v.net.stepped().1 matches Some(env) && !(env.msg is MetaOpMsg) && !(waiting(
            v,
            p,
            ns,
            req,
            op,
        ) && env.to == NodeId::Meta(p) && env.msg is MetaReplicateAck
            && v.metas[p as int].handled(env.from, env.msg).1.len() > 0),
    ensures
        outcome_is(v.pumped().0, req, r),
{
    let (n, d) = v.net.stepped();
    let env = d->Some_0;
    let (x, out) = v.with_net(n).delivered(env);
    lemma_primary(v, p);
    simulation::lemma_stepped_every(v.net, reporting(req, r));
    lemma_inbox_after(v, req, r);
    assert forall|i: int| 0 <= i < out.len() implies reporting(req, r)(#[trigger] out[i]) by {
        match env.to {
            NodeId::Meta(k) => {
                if k < v.metas.len() {
                    lemma_replies_kind(v.metas[k as int], env.from, env.msg);
                    if out[i].msg is MetaCommitted {
                        lemma_commit_is_pendings(v, k, env, p, a, ns, req, op);
                    }
                }
            },
            _ => {},
        }
    }
    simulation::lemma_sent_all_every(x.net, out, reporting(req, r));
}

/// Whatever but its quorum reaches the primary, a pending operation stays pending.
proof fn lemma_waiting_stands(m: MetaV, from: NodeId, msg: MessageV, s: u64, n: u64)
    requires
        !(msg is MetaOpMsg),
        msg matches MessageV::MetaReplicate { seq, op } ==> seq < n,
        past(m, n),
        m.pending.dom().contains(s),
        msg is MetaReplicateAck ==> m.handled(from, msg).1.len() == 0,
    ensures
        m.handled(from, msg).0.ns == m.ns,
        m.handled(from, msg).0.pending.dom() =~= m.pending.dom(),
        forall|z: u64| #[trigger]
            m.pending.dom().contains(z) ==> m.handled(from, msg).0.pending[z].req_id
                == m.pending[z].req_id,
        m.handled(from, msg).0.pending[s].req_id == m.pending[s].req_id,
        m.handled(from, msg).0.pending[s].client == m.pending[s].client,
        m.handled(from, msg).0.pending[s].op == m.pending[s].op,
        m.handled(from, msg).0.meta_quorum == m.meta_quorum,
        past(m.handled(from, msg).0, n),
{
}

/// A node that reports a commit had the operation pending; nobody but the primary has the
/// client's latest operation pending.
proof fn lemma_commit_is_pendings(
    v: ClusterV,
    k: u32,
    env: wire::Envelope,
    p: u32,
    a: u64,
    ns: NsV,
    req: u64,
    op: MetaOpV,
)
    requires
        k < v.metas.len(),
        underway(v, p, a, ns, req, op),
        env.msg is MetaReplicateAck,
        v.metas[k as int].handled(env.from, env.msg).1.len() > 0,
        !(waiting(v, p, ns, req, op) && k == p),
    ensures
        ({
            let e = v.metas[k as int].handled(env.from, env.msg).1[0];
            e.msg matches MessageV::MetaCommitted { req_id, result } ==> req_id != req
        }),
{
    if let MessageV::MetaReplicateAck { seq } = env.msg {
        assert(v.metas[k as int].pending.dom().contains(seq));
    }
}

/// Without an operation from a client, a node waits for no more than it did.
proof fn lemma_pending_shrinks(m: MetaV, from: NodeId, msg: MessageV)
    requires
        !(msg is MetaOpMsg),
        m.buffer.dom().finite(),
    ensures
        forall|s: u64| #[trigger]
            m.handled(from, msg).0.pending.dom().contains(s) ==> m.pending.dom().contains(s)
                && m.handled(from, msg).0.pending[s].req_id == m.pending[s].req_id,
{
    if let MessageV::MetaReplicate { seq, op } = msg {
        metadata::lemma_caught_up(MetaV { buffer: m.buffer.insert(seq, op), ..m });
    }
}

proof fn lemma_others_clear(v: ClusterV, p: u32, req: u64)
    requires
        soundness::sound(v),
        others_clear(v, p, req),
        v.net.stepped().1 matches Some(env) ==> (env.msg is MetaOpMsg ==> env.to == NodeId::Meta(
            p,
        )),
    ensures
        others_clear(v.pumped().0, p, req),
{
    let y = v.pumped().0;
    if let Some(env) = v.net.stepped().1 {
        assert forall|k: int, s: u64|
            0 <= k < y.metas.len() && k != p && #[trigger] y.metas[k].pending.dom().contains(
                s,
            ) implies y.metas[k].pending[s].req_id != req by {
            if env.to == NodeId::Meta(k as u32) {
                lemma_pending_shrinks(v.metas[k], env.from, env.msg);
                assert(v.metas[k].pending.dom().contains(s));
            } else {
                assert(y.metas[k] == v.metas[k]);
            }
        }
    }
}

pub proof fn lemma_commit_among(inbox: Seq<Letter>, req: u64, n: nat, r: Option<MetaResult>)
    requires
        n <= inbox.len(),
        forall|i: int| 0 <= i < inbox.len() ==> reports((#[trigger] inbox[i]).msg, req, r),
    ensures
        protocol::commit_among(inbox, req, n) matches Some(x) ==> r == Some(x),
    decreases n,
{
    if n > 0 {
        lemma_commit_among(inbox, req, (n - 1) as nat, r);
        assert(reports(inbox[n - 1].msg, req, r));
    }
}

/// Reading the inbox leaves an operation in its stage.
pub proof fn lemma_underway_taken(v: ClusterV, p: u32, a: u64, ns: NsV, req: u64, op: MetaOpV)
    requires
        underway(v, p, a, ns, req, op),
    ensures
        underway(v.inbox_taken(), p, a, ns, req, op),
        unhandled(v, p, ns, req) ==> unhandled(v.inbox_taken(), p, ns, req),
        waiting(v, p, ns, req, op) ==> waiting(v.inbox_taken(), p, ns, req, op),
        decided(v, p, ns, req, op) ==> decided(v.inbox_taken(), p, ns, req, op),
{
    let w = v.inbox_taken();
    lemma_primary_stays(v, w);
    if waiting(v, p, ns, req, op) {
        let s = choose|s: u64| #[trigger] waits(v, p, req, op, s);
        assert(waits(w, p, req, op, s));
    }
}

/// What waiting for the outcome of an operation gives: the outcome when it is known, and in
/// any case an operation that is decided or still under way.
pub proof fn lemma_commit_is_true(
    v: ClusterV,
    p: u32,
    a: u64,
    ns: NsV,
    req: u64,
    op: MetaOpV,
    deadline: u64,
)
    requires
        soundness::sound(v),
        underway(v, p, a, ns, req, op),
    ensures
        underway(v.commit_awaited(req, deadline).0, p, a, ns, req, op),
        v.commit_awaited(req, deadline).1 matches Some(r) ==> decided(
            v.commit_awaited(req, deadline).0,
            p,
            ns,
            req,
            op,
        ) && r == (match ns.validated(op) {
            Err(c) => MetaResult::Rejected(c),
            Ok(_) => MetaResult::Committed,
        }),
    decreases u64::MAX - v.net.seq, v.net.queue.len(),
{
    let w = v.inbox_taken();
    soundness::lemma_inbox_taken_sound(v);
    lemma_primary_stays(v, w);
    lemma_underway_taken(v, p, a, ns, req, op);
    let found = protocol::commit_among(v.inbox, req, v.inbox.len());
    if decided(v, p, ns, req, op) {
        lemma_commit_among(v.inbox, req, v.inbox.len(), said(ns, op));
    } else {
        lemma_commit_among(v.inbox, req, v.inbox.len(), None);
    }
    if found is Some {
        assert(decided(v, p, ns, req, op));
        assert(decided(w, p, ns, req, op));
    } else {
        soundness::lemma_pumped_sound(w);
        simulation::lemma_pump_progress(w);
        lemma_underway_pumped(w, p, a, ns, req, op);
        if w.net.clock < deadline && w.pumped().1 {
            lemma_commit_is_true(w.pumped().0, p, a, ns, req, op, deadline);
        }
    }
}

/// An operation that is sent while none is under way is under way.
pub proof fn lemma_operation_sent(v: ClusterV, p: u32, op: MetaOpV)
    requires
        soundness::sound(v),
        idle(v, p),
        v.next_req < u64::MAX,
    ensures
        ({
            let req = v.next_req;
            let w = v.asked(p, MessageV::MetaOpMsg { req_id: req, op });
            &&& soundness::sound(w)
            &&& underway(w, p, v.metas[p as int].applied_seq, names(v, p), req, op)
            &&& unhandled(w, p, names(v, p), req)
        }),
{
    let req = v.next_req;
    let ns = names(v, p);
    let a = v.metas[p as int].applied_seq;
    let msg = MessageV::MetaOpMsg { req_id: req, op };
    let w = v.asked(p, msg);
    let env = wire::Envelope { from: NodeId::Client, to: NodeId::Meta(p), msg };
    durability::lemma_asked(v, p, msg);
    lemma_primary(v, p);
    lemma_primary_stays(v, w);
    assert forall|i: int| 0 <= i < v.net.queue.len() implies only_op(p, a, req, op)(
        (#[trigger] v.net.queue[i]).env,
    ) && not_op()(v.net.queue[i].env) && reporting(req, None)(v.net.queue[i].env) by {
        assert(harmless(p, a)(v.net.queue[i].env));
        assert(soundness::given_out(v.net.queue[i].env.msg, v.next_req));
    }
    lemma_sent_every(v.net, env, only_op(p, a, req, op));
    lemma_sent_every(v.net, env, reporting(req, None));
    assert(simulation::every(v.net.queue, |e: wire::Envelope| !is_op()(e))) by {
        assert forall|i: int| 0 <= i < v.net.queue.len() implies !is_op()(
            (#[trigger] v.net.queue[i]).env,
        ) by {
            assert(not_op()(v.net.queue[i].env));
        }
    }
    simulation::lemma_sent_one(v.net, env, is_op());
    lemma_buried_asked(v, p, v.metas[p as int].pending.dom(), msg);
    assert(soundness::meta_sound(v.metas[p as int], v.next_req));
    assert forall|i: int| 0 <= i < w.inbox.len() implies reports(
        (#[trigger] w.inbox[i]).msg,
        req,
        None,
    ) by {
        assert(soundness::given_out(v.inbox[i].msg, v.next_req));
    }
    assert forall|k: int, s: u64|
        0 <= k < w.metas.len() && k != p && #[trigger] w.metas[k].pending.dom().contains(
            s,
        ) implies w.metas[k].pending[s].req_id != req by {
        assert(soundness::meta_sound(v.metas[k], v.next_req));
        assert(v.metas[k].pending.dom().contains(s));
    }
    assert(unhandled(w, p, ns, req));
}

/// While no other operation is under way, an operation that succeeds was allowed and has taken
/// effect, one that is refused was not allowed and has not, and one that times out has either
/// taken effect or not.
pub proof fn law_operations_take_effect(v: ClusterV, p: u32, op: MetaOpV, err_path: Seq<char>)
    requires
        soundness::sound(v),
        idle(v, p),
    ensures
        ({
            let (w, r) = v.meta_applied(op, err_path);
            let ns = names(v, p);
            match r {
                Ok(_) => ns.validated(op) is Ok && names(w, p) == ns.applied(op) && idle(w, p),
                Err(ErrorV::MetadataUnavailable) => names(w, p) == ns || (ns.validated(op) is Ok
                    && names(w, p) == ns.applied(op)),
                Err(e) => idle(w, p) && names(w, p) == ns && (ns.validated(op) matches Err(c) && e
                    == message::meta_error(c, err_path)),
            }
        }),
{
    if v.next_req < u64::MAX {
        let req = v.next_req;
        let ns = names(v, p);
        let a = v.metas[p as int].applied_seq;
        let msg = MessageV::MetaOpMsg { req_id: req, op };
        let w = v.asked(p, msg);
        lemma_operation_sent(v, p, op);
        lemma_commit_is_true(w, p, a, ns, req, op, w.deadline());
        let (x, r) = w.commit_awaited(req, w.deadline());
        if r is Some {
            assert(idle(x, p)) by {
                assert forall|i: int| 0 <= i < x.net.queue.len() implies harmless(
                    p,
                    x.metas[p as int].applied_seq,
                )((#[trigger] x.net.queue[i]).env) by {
                    assert(only_op(p, a, req, op)(x.net.queue[i].env));
                    assert(not_op()(x.net.queue[i].env));
                }
            }
        }
    }
}

/// Whatever becomes of an operation, the namespace stays a tree.
pub proof fn law_namespace_stays_tree(v: ClusterV, p: u32, op: MetaOpV, err_path: Seq<char>)
    requires
        soundness::sound(v),
        idle(v, p),
        tree::tree(names(v, p)),
    ensures
        tree::tree(names(v.meta_applied(op, err_path).0, p)),
{
    law_operations_take_effect(v, p, op, err_path);
    if names(v, p).validated(op) is Ok {
        tree::law_tree_is_kept(names(v, p), op);
    }
}

/// Waiting for acknowledgements keeps an idle cluster idle.
pub proof fn lemma_idle_acks(
    v: ClusterV,
    p: u32,
    acks: Map<Seq<u8>, Set<u32>>,
    ids: Seq<Seq<u8>>,
    quorum: nat,
    deadline: u64,
)
    requires
        soundness::sound(v),
        idle(v, p),
    ensures
        idle(v.acks_awaited(acks, ids, quorum, deadline).0, p),
        names(v.acks_awaited(acks, ids, quorum, deadline).0, p) == names(v, p),
    decreases u64::MAX - v.net.seq, v.net.queue.len(),
{
    let w = v.inbox_taken();
    let now = protocol::acks_after(acks, v.inbox, v.inbox.len());
    soundness::lemma_inbox_taken_sound(v);
    lemma_primary_stays(v, w);
    soundness::lemma_pumped_sound(w);
    simulation::lemma_pump_progress(w);
    lemma_idle_pumped(w, p);
    if !protocol::quorum_met(now, ids, quorum) && w.net.clock < deadline && w.pumped().1 {
        lemma_idle_acks(w.pumped().0, p, now, ids, quorum, deadline);
    }
}

/// Waiting for shards to be acknowledged keeps an idle cluster idle.
pub proof fn lemma_idle_groups(
    v: ClusterV,
    p: u32,
    acked: Set<Seq<u8>>,
    groups: Seq<Seq<ChunkV>>,
    quorum: nat,
    deadline: u64,
)
    requires
        soundness::sound(v),
        idle(v, p),
    ensures
        idle(v.groups_awaited(acked, groups, quorum, deadline).0, p),
        names(v.groups_awaited(acked, groups, quorum, deadline).0, p) == names(v, p),
    decreases u64::MAX - v.net.seq, v.net.queue.len(),
{
    let w = v.inbox_taken();
    let now = protocol::acked_after(acked, v.inbox, v.inbox.len());
    soundness::lemma_inbox_taken_sound(v);
    lemma_primary_stays(v, w);
    soundness::lemma_pumped_sound(w);
    simulation::lemma_pump_progress(w);
    lemma_idle_pumped(w, p);
    if !protocol::groups_met(groups, now, quorum) && w.net.clock < deadline && w.pumped().1 {
        lemma_idle_groups(w.pumped().0, p, now, groups, quorum, deadline);
    }
}

proof fn lemma_idle_gathered(
    v: ClusterV,
    p: u32,
    g: Gathered,
    ids: Seq<Seq<u8>>,
    quorum: nat,
    deadline: u64,
)
    requires
        soundness::sound(v),
        idle(v, p),
    ensures
        idle(v.chunks_gathered(g, ids, quorum, deadline).0, p),
        names(v.chunks_gathered(g, ids, quorum, deadline).0, p) == names(v, p),
    decreases u64::MAX - v.net.seq, v.net.queue.len(),
{
    let w = v.inbox_taken();
    let now = g.with_all(v.inbox, v.inbox.len());
    soundness::lemma_inbox_taken_sound(v);
    lemma_primary_stays(v, w);
    soundness::lemma_pumped_sound(w);
    simulation::lemma_pump_progress(w);
    lemma_idle_pumped(w, p);
    if !now.enough_all(ids, quorum) && w.net.clock < deadline && w.pumped().1 {
        lemma_idle_gathered(w.pumped().0, p, now, ids, quorum, deadline);
    }
}

/// The manifest that a write commits.
pub open spec fn manifest_for(v: ClusterV, bytes: Seq<u8>) -> ManifestV {
    match v.opts.erasure {
        None => chunk::manifest_of(bytes, v.opts.chunk_size as nat),
        Some(er) => protocol::erasure_manifest(bytes, v.group_size(), er),
    }
}

/// While no other operation is under way, a write that succeeds has put the file's manifest,
/// with the hash of the written bytes, into the namespace; one that misses its quorum or is
/// refused has changed nothing.
pub proof fn law_writes_take_effect(v: ClusterV, p: u32, at: Seq<char>, bytes: Seq<u8>)
    requires
        soundness::sound(v),
        idle(v, p),
    ensures
        ({
            let (w, r) = v.written(at, bytes);
            let ns = names(v, p);
            let op = MetaOpV::Put { path: at, manifest: manifest_for(v, bytes) };
            match r {
                Ok(_) => path::normal(at) && ns.validated(op) is Ok && names(w, p) == ns.applied(op)
                    && idle(w, p),
                Err(ErrorV::MetadataUnavailable) => names(w, p) == ns || names(w, p) == ns.applied(
                    op,
                ),
                Err(_) => names(w, p) == ns && idle(w, p),
            }
        }),
        manifest_for(v, bytes).content_hash == hash::digest(bytes),
{
    let live = v.live_storage();
    let op = MetaOpV::Put { path: at, manifest: manifest_for(v, bytes) };
    if path::normal(at) {
        match v.opts.erasure {
            None => {
                let quorum = v.opts.write_quorum as nat;
                if live.len() >= quorum {
                    let chunks = chunk::chunks_of(bytes, v.opts.chunk_size as nat);
                    let data = protocol::distinct_chunks(chunks, chunks.len());
                    let ids = ordmap::in_order::<crate::hash::Hash>(data.dom());
                    let r = v.opts.replication_factor as nat;
                    let out = protocol::store_msgs(data, ids, live, r, ids.len());
                    durability::lemma_store_msgs_kind(data, ids, live, r, ids.len());
                    durability::lemma_client_sends(v, out);
                    lemma_idle_sends(v, p, out);
                    let w = v.sent_all(out);
                    durability::lemma_acks_awaited(w, Map::empty(), ids, quorum, w.deadline());
                    lemma_idle_acks(w, p, Map::empty(), ids, quorum, w.deadline());
                    let x = w.acks_awaited(Map::empty(), ids, quorum, w.deadline()).0;
                    law_operations_take_effect(x, p, op, at);
                }
            },
            Some(er) => {
                if live.len() >= er.k as nat + er.m as nat {
                    let groups = protocol::shard_groups(bytes, v.group_size(), er);
                    let quorum = protocol::larger(v.opts.write_quorum as nat, er.k as nat);
                    let out = protocol::spread(groups, live, groups.len()).msgs;
                    durability::lemma_spread_kind(groups, live, groups.len());
                    durability::lemma_client_sends(v, out);
                    lemma_idle_sends(v, p, out);
                    let w = v.sent_all(out);
                    assert(durability::true_acked(w, Set::empty()));
                    durability::lemma_groups_awaited(
                        w,
                        Set::empty(),
                        groups,
                        quorum,
                        w.deadline(),
                    );
                    lemma_idle_groups(w, p, Set::empty(), groups, quorum, w.deadline());
                    let x = w.groups_awaited(Set::empty(), groups, quorum, w.deadline()).0;
                    law_operations_take_effect(x, p, op, at);
                }
            },
        }
    }
}

proof fn lemma_idle_fetched(v: ClusterV, p: u32, ids: Seq<Seq<u8>>, quorum: nat)
    requires
        soundness::sound(v),
        idle(v, p),
    ensures
        idle(v.fetched(ids, quorum).0, p),
        names(v.fetched(ids, quorum).0, p) == names(v, p),
{
    let live = v.live_storage();
    let out = protocol::fetch_msgs(ids, live, ids.len());
    durability::lemma_fetch_msgs_kind(ids, live, ids.len());
    durability::lemma_client_sends(v, out);
    lemma_idle_sends(v, p, out);
    let w = v.sent_all(out);
    lemma_idle_gathered(w, p, Gathered::nothing(), ids, quorum, w.deadline());
}

proof fn lemma_idle_rebuilt(
    v: ClusterV,
    p: u32,
    at: Seq<char>,
    m: ManifestV,
    er: Erasure,
    live: Seq<u32>,
    got: Gathered,
    g: nat,
)
    requires
        soundness::sound(v),
        idle(v, p),
    ensures
        idle(v.groups_rebuilt(at, m, er, live, got, g).0, p),
        names(v.groups_rebuilt(at, m, er, live, got, g).0, p) == names(v, p),
    decreases m.chunks.len() / (er.k as nat + er.m as nat) - g,
{
    let total = er.k as nat + er.m as nat;
    if g < m.chunks.len() / total {
        let ids = m.chunks.subrange((g * total) as int, ((g + 1) * total) as int);
        let len = protocol::group_len(m.size as nat, v.group_size(), g);
        let slots = protocol::group_slots(got, ids, len, er);
        match crate::erasure::decoded(slots, er.k as nat, er.m as nat, len) {
            Err(_) => {},
            Ok(piece) => {
                let full = crate::erasure::shards(piece, er.k as nat, er.m as nat);
                let out = protocol::rebuild_msgs(slots, ids, full, live, total);
                durability::lemma_rebuild_msgs_kind(slots, ids, full, live, total);
                durability::lemma_client_sends(v, out);
                lemma_idle_sends(v, p, out);
                lemma_idle_rebuilt(v.sent_all(out), p, at, m, er, live, got, g + 1);
            },
        }
    }
}

/// Reading the file of a manifest gives bytes that match the manifest's content hash or an
/// error, and changes no namespace.
pub proof fn law_bytes_match_manifest(v: ClusterV, p: u32, at: Seq<char>, m: ManifestV)
    requires
        soundness::sound(v),
        idle(v, p),
    ensures
        v.read_manifest(at, m).1 matches Ok(bytes) ==> hash::digest(bytes) == m.content_hash,
        v.read_manifest(at, m).1 matches Err(e) ==> e is ChunkUnavailable || e is IntegrityError,
        idle(v.read_manifest(at, m).0, p),
        names(v.read_manifest(at, m).0, p) == names(v, p),
{
    let ids = ordmap::in_order::<crate::hash::Hash>(m.chunks.to_set());
    let live = v.live_storage();
    match m.erasure {
        None => {
            let quorum = v.opts.read_quorum as nat;
            let r = v.opts.replication_factor as nat;
            durability::lemma_fetched(v, ids, quorum);
            lemma_idle_fetched(v, p, ids, quorum);
            let (w, g) = v.fetched(ids, quorum);
            let out = protocol::repair_msgs(g, ids, live, r, ids.len());
            durability::lemma_repair_msgs_kind(g, ids, live, r, ids.len());
            lemma_idle_sends(w, p, out);
        },
        Some((k, par)) => {
            if 1 <= k && 1 <= par && k + par <= 64 {
                let er = Erasure { k: k as usize, m: par as usize };
                durability::lemma_fetched(v, ids, 1);
                lemma_idle_fetched(v, p, ids, 1);
                let (w, got) = v.fetched(ids, 1);
                lemma_idle_rebuilt(w, p, at, m, er, live, got, 0);
                lemma_rebuilt_errors(w, at, m, er, live, got, 0);
            }
        },
    }
}

proof fn lemma_rebuilt_errors(
    v: ClusterV,
    at: Seq<char>,
    m: ManifestV,
    er: Erasure,
    live: Seq<u32>,
    got: Gathered,
    g: nat,
)
    ensures
        v.groups_rebuilt(at, m, er, live, got, g).1 matches Err(e) ==> e is ChunkUnavailable,
    decreases m.chunks.len() / (er.k as nat + er.m as nat) - g,
{
    let total = er.k as nat + er.m as nat;
    if g < m.chunks.len() / total {
        let ids = m.chunks.subrange((g * total) as int, ((g + 1) * total) as int);
        let len = protocol::group_len(m.size as nat, v.group_size(), g);
        let slots = protocol::group_slots(got, ids, len, er);
        match crate::erasure::decoded(slots, er.k as nat, er.m as nat, len) {
            Err(_) => {},
            Ok(piece) => {
                let full = crate::erasure::shards(piece, er.k as nat, er.m as nat);
                let out = protocol::rebuild_msgs(slots, ids, full, live, total);
                lemma_rebuilt_errors(v.sent_all(out), at, m, er, live, got, g + 1);
            },
        }
    }
}

/// Whatever state the cluster is in, a read that succeeds yields bytes that match the content
/// hash of the manifest that the metadata service answered with.
pub proof fn law_read_bytes_are_verified(v: ClusterV, at: Seq<char>)
    ensures
        v.read(at).1 matches Ok(bytes) ==> (v.meta_queried(
            QueryV::Get { path: at },
        ).1 matches Ok(QueryResultV::Manifest(Some(m))) && hash::digest(bytes)
            == m.content_hash),
{
}

/// While no operation is under way, a read yields bytes that match the content hash of the
/// file at the path, or an error: that the path is malformed, that there is no file there,
/// that the metadata service or a chunk cannot be reached, or that the bytes did not match.
/// It changes no namespace.
pub proof fn law_reads_are_true(v: ClusterV, p: u32, at: Seq<char>)
    requires
        soundness::sound(v),
        idle(v, p),
    ensures
        ({
            let (w, r) = v.read(at);
            let ns = names(v, p);
            &&& idle(w, p)
            &&& names(w, p) == ns
            &&& match r {
                Ok(bytes) => !ns.dirs.contains(at) && ns.files.dom().contains(at) && hash::digest(
                    bytes,
                ) == ns.files[at].content_hash,
                Err(ErrorV::InvalidPath(q)) => q == at && !path::normal(at),
                Err(ErrorV::NotFound(q)) => q == at && !ns.dirs.contains(at)
                    && !ns.files.dom().contains(at),
                Err(ErrorV::IsADirectory(q)) => q == at && ns.dirs.contains(at),
                Err(e) => e is MetadataUnavailable || ((e is ChunkUnavailable || e is IntegrityError)
                    && ns.files.dom().contains(at)),
            }
        }),
{
    if path::normal(at) {
        let q = QueryV::Get { path: at };
        law_queries_are_answered_truly(v, p, q);
        durability::law_meta_query_keeps_sound(v, q);
        let (w, r) = v.meta_queried(q);
        if let Ok(QueryResultV::Manifest(Some(m))) = r {
            law_bytes_match_manifest(w, p, at, m);
        }
    }
}

/// A listing or a stat is the truth about the namespace, or says that the metadata service
/// cannot be reached; neither changes it.
pub proof fn law_listings_are_true(v: ClusterV, p: u32, at: Seq<char>)
    requires
        soundness::sound(v),
        idle(v, p),
        path::normal(at),
    ensures
        idle(v.listed(at).0, p),
        names(v.listed(at).0, p) == names(v, p),
        v.listed(at).1 matches Ok(es) ==> names(v, p).answered(QueryV::List { path: at })
            == QueryResultV::Listing(es),
        v.listed(at).1 matches Err(e) ==> e is MetadataUnavailable || (names(v, p).answered(
            QueryV::List { path: at },
        ) matches QueryResultV::Rejected(c) && e == message::meta_error(c, at)),
        idle(v.statted(at).0, p),
        names(v.statted(at).0, p) == names(v, p),
        v.statted(at).1 matches Ok(s) ==> names(v, p).answered(QueryV::Stat { path: at })
            == QueryResultV::Stat(Some(s)),
        v.statted(at).1 matches Err(e) ==> e is MetadataUnavailable || (e == ErrorV::NotFound(at)
            && !names(v, p).exists_at(at)),
{
    law_queries_are_answered_truly(v, p, QueryV::List { path: at });
    law_queries_are_answered_truly(v, p, QueryV::Stat { path: at });
}

/// A file read back after a successful write has the hash of the written bytes: the bytes are
/// those that were written, unless they are a SHA-256 collision with them.
pub proof fn law_read_after_write(v: ClusterV, p: u32, at: Seq<char>, bytes: Seq<u8>)
    requires
        soundness::sound(v),
        idle(v, p),
        v.written(at, bytes).1 is Ok,
    ensures
        v.written(at, bytes).0.read(at).1 matches Ok(got) ==> hash::digest(got) == hash::digest(
            bytes,
        ),
        v.written(at, bytes).0.read(at).1 matches Err(e) ==> e is MetadataUnavailable
            || e is ChunkUnavailable || e is IntegrityError,
{
    law_writes_take_effect(v, p, at, bytes);
    durability::law_file_operations_keep_sound(v, at, at, bytes);
    let w = v.written(at, bytes).0;
    law_reads_are_true(w, p, at);
    let ns = names(v, p);
    assert(!ns.dirs.contains(at));
}

} // verus!

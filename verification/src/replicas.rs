//! What the replicated log is for: while operations go through the primary one after the
//! other, every metadata node's namespace is that of a prefix of the same history, a committed
//! operation is applied on a quorum, and the namespace survives the loss of fewer nodes than a
//! quorum.

use crate::chunk::{self, ChunkV, ManifestV};
use crate::cluster;
use crate::durability;
use crate::erasure::Erasure;
use crate::error::ErrorV;
use crate::hash;
use crate::message::{MessageV, MetaOpV, MetaResult, NodeId, QueryResultV, QueryV};
use crate::metadata::{self, MetaV};
use crate::namespace::NsV;
use crate::net::{self, NetV};
use crate::options::Options;
use crate::ordmap;
use crate::path;
use crate::protocol::{self, Gathered};
use crate::simulation::{self, ClusterV};
use crate::soundness;
use crate::truth;
use crate::wire;
use vstd::prelude::*;

verus! {

/// The namespace after a history of operations.
pub open spec fn replay(history: Seq<MetaOpV>) -> NsV
    decreases history.len(),
{
    if history.len() == 0 {
        NsV::fresh()
    } else {
        replay(history.drop_last()).applied(history.last())
    }
}

/// A node that has applied a prefix of the history, buffers of what comes after it nothing but
/// parts of the history, and has given out no number beyond it.
pub open spec fn follows(m: MetaV, history: Seq<MetaOpV>) -> bool {
    &&& m.applied_seq <= history.len()
    &&& m.next_seq <= history.len()
    &&& m.ns == replay(history.take(m.applied_seq as int))
    &&& m.buffer.dom().finite()
    &&& forall|s: u64| #[trigger]
        m.buffer.dom().contains(s) && s >= m.applied_seq ==> s < history.len() && m.buffer[s]
            == history[s as int]
}

/// A node that follows the history, as far as its buffer goes.
pub open spec fn mirrors(m: MetaV, history: Seq<MetaOpV>) -> bool {
    follows(m, history) && !m.buffer.dom().contains(m.applied_seq)
}

/// Whether a message about the log is true: an operation that reaches a node which has not
/// applied its number comes from the primary and is the one that the history has there; an
/// acknowledged one is applied by its sender, was proposed by its receiver, and has not been
/// passed over by it.
pub open spec fn log_true(
    p: u32,
    metas: Seq<MetaV>,
    history: Seq<MetaOpV>,
    e: wire::Envelope,
) -> bool {
    match (e.to, e.msg) {
        (NodeId::Meta(k), MessageV::MetaReplicate { seq, op }) => k < metas.len() && seq
            >= metas[k as int].applied_seq ==> seq < history.len() && op == history[seq as int]
            && e.from == NodeId::Meta(p),
        (NodeId::Meta(k), MessageV::MetaReplicateAck { seq }) => {
            &&& e.from matches NodeId::Meta(b) && b < metas.len() && metas[b as int].applied_seq
                > seq
            &&& k < metas.len() ==> seq < metas[k as int].next_seq && (
            metas[k as int].pending.dom().contains(seq) ==> seq >= metas[k as int].applied_seq)
        },
        _ => true,
    }
}

/// [`log_true`] as a condition on messages in flight.
pub open spec fn about_log(p: u32, metas: Seq<MetaV>, history: Seq<MetaOpV>) -> spec_fn(
    wire::Envelope,
) -> bool {
    |e: wire::Envelope| log_true(p, metas, history, e)
}

/// Whether at least a quorum of metadata nodes has applied the whole history: nodes that are
/// up, unless all nodes have.
pub open spec fn backed(v: ClusterV, p: u32, history: Seq<MetaOpV>) -> bool {
    exists|s: Set<u32>| #[trigger]
        all_applied(v, s, history) && s.finite() && s.len() >= v.metas[p as int].meta_quorum && (
        all_up(v, s) || level(v, history))
}

/// Whether every one of some metadata nodes has applied the whole history.
pub open spec fn all_applied(v: ClusterV, s: Set<u32>, history: Seq<MetaOpV>) -> bool {
    forall|i: u32| #[trigger]
        s.contains(i) ==> i < v.metas.len() && v.metas[i as int].applied_seq == history.len()
}

/// Whether every one of some metadata nodes is up.
pub open spec fn all_up(v: ClusterV, s: Set<u32>) -> bool {
    forall|i: u32| #[trigger] s.contains(i) ==> !v.net.down.contains(NodeId::Meta(i))
}

/// Whether every metadata node has applied the whole history.
pub open spec fn level(v: ClusterV, history: Seq<MetaOpV>) -> bool {
    forall|i: int|
        0 <= i < v.metas.len() ==> (#[trigger] v.metas[i]).applied_seq == history.len()
}

/// Whether a node waits for the next operation to be acknowledged.
pub open spec fn busy(m: MetaV) -> bool {
    m.pending.dom().contains(m.applied_seq)
}

/// The operation that the primary waits for is the last of the history, and whoever has
/// acknowledged it is up and has applied it. Whatever else is pending came under a number that
/// every node has passed.
pub open spec fn pending_true(v: ClusterV, p: u32, history: Seq<MetaOpV>) -> bool {
    let m = v.metas[p as int];
    &&& forall|s: u64, i: int| #[trigger]
        m.pending.dom().contains(s) && s < m.applied_seq && 0 <= i < v.metas.len() ==> s < (
        #[trigger] v.metas[i]).applied_seq
    &&& forall|s: u64| #[trigger]
        m.pending.dom().contains(s) && s >= m.applied_seq ==> {
            &&& s + 1 == history.len()
            &&& s == m.applied_seq
            &&& m.next_seq == history.len()
            &&& m.pending[s].op == history[s as int]
            &&& m.pending[s].acks.finite()
            &&& forall|b: u32| #[trigger]
                m.pending[s].acks.contains(b) ==> b < v.metas.len() && (b == p
                    || v.metas[b as int].applied_seq == history.len() && !v.net.down.contains(
                    NodeId::Meta(b),
                ))
        }
}

/// The metadata nodes mirror one history, which goes through the primary; once nothing that can
/// commit is pending a quorum has applied all of it. A primary whose numbers lag behind the
/// history has had nothing committed since all nodes were brought level.
pub open spec fn mirrored(v: ClusterV, p: u32, history: Seq<MetaOpV>) -> bool {
    let m = v.metas[p as int];
    &&& v.primary() == Some(p)
    &&& m.next_seq < history.len() ==> level(v, history) && m.meta_quorum > 1
    &&& forall|i: int| 0 <= i < v.metas.len() ==> mirrors(#[trigger] v.metas[i], history)
    &&& forall|i: int|
        0 <= i < v.metas.len() && i != p ==> (#[trigger] v.metas[i]).pending.dom() =~= Set::empty()
    &&& pending_true(v, p, history)
    &&& !busy(m) ==> m.applied_seq == history.len() && backed(v, p, history)
    &&& simulation::every(v.net.queue, about_log(p, v.metas, history))
}

/// Catching up walks along the history.
proof fn lemma_caught_up_mirrors(m: MetaV, history: Seq<MetaOpV>)
    requires
        follows(m, history),
        history.len() <= u64::MAX,
    ensures
        mirrors(m.caught_up().0, history),
        m.caught_up().0.applied_seq >= m.applied_seq,
        m.caught_up().0.next_seq == m.next_seq,
        m.caught_up().0.pending == m.pending,
        !m.buffer.dom().contains(m.applied_seq) ==> m.caught_up() == (m, Seq::<u64>::empty()),
    decreases m.buffer.dom().len(),
{
    if m.buffer.dom().contains(m.applied_seq) {
        let s = m.applied_seq;
        assert(s < history.len());
        let next = MetaV {
            buffer: m.buffer.remove(s),
            applied_seq: (s + 1) as u64,
            ..m.logged(s, m.buffer[s])
        };
        let h = history.take(s + 1);
        assert(h.drop_last() =~= history.take(s as int));
        assert(h.last() == history[s as int]);
        assert(follows(next, history));
        lemma_caught_up_mirrors(next, history);
    }
}

/// Growing the history keeps a mirror a mirror.
proof fn lemma_mirrors_longer(m: MetaV, history: Seq<MetaOpV>, op: MetaOpV)
    requires
        mirrors(m, history),
    ensures
        mirrors(m, history.push(op)),
{
    assert(history.push(op).take(m.applied_seq as int) =~= history.take(m.applied_seq as int));
}

/// A mirrored history is no longer than the numbers go.
pub proof fn lemma_history_is_counted(v: ClusterV, p: u32, history: Seq<MetaOpV>)
    requires
        mirrored(v, p, history),
    ensures
        history.len() <= u64::MAX,
        busy(v.metas[p as int]) ==> history.len() == v.metas[p as int].applied_seq + 1,
{
    let m = v.metas[p as int];
    if busy(m) {
        assert(m.pending.dom().contains(m.applied_seq));
    }
}

/// The history after a message: an operation that the primary accepts under the next number of
/// the history is added to it.
pub open spec fn history_after(
    v: ClusterV,
    p: u32,
    env: wire::Envelope,
    history: Seq<MetaOpV>,
) -> Seq<MetaOpV> {
    match env.msg {
        MessageV::MetaOpMsg { req_id, op } => {
            let m = v.metas[p as int];
            if m.ns.validated(op) is Ok && m.next_seq < u64::MAX && m.next_seq == history.len() {
                history.push(op)
            } else {
                history
            }
        },
        _ => history,
    }
}

/// Whether a message may reach its receiver without upsetting the history: operations go to
/// the primary when it waits for nothing, and nothing new is replicated to the primary.
pub open spec fn in_turn(v: ClusterV, p: u32, env: wire::Envelope) -> bool {
    let m = v.metas[p as int];
    match env.msg {
        MessageV::MetaOpMsg { req_id, op } => env.to == NodeId::Meta(p) && !busy(m),
        MessageV::MetaReplicate { seq, op } => env.to == NodeId::Meta(p) ==> seq < m.applied_seq,
        _ => true,
    }
}

/// What a node acknowledges it has applied now and had not before.
proof fn lemma_acks_are_applied(m: MetaV, from: NodeId, seq: u64, op: MetaOpV)
    requires
        m.buffer.dom().finite(),
    ensures
        forall|i: int|
            0 <= i < m.replicated(from, seq, op).1.len() ==> {
                let e = #[trigger] m.replicated(from, seq, op).1[i];
                e.from == NodeId::Meta(m.idx) && e.to == from && (
                e.msg matches MessageV::MetaReplicateAck { seq: s } && m.applied_seq <= s
                    < m.replicated(from, seq, op).0.applied_seq)
            },
{
    let w = MetaV { buffer: m.buffer.insert(seq, op), ..m };
    metadata::lemma_caught_up(w);
}

/// A delivery in turn keeps the metadata nodes mirroring one history.
pub proof fn lemma_mirrored_pumped(v: ClusterV, p: u32, history: Seq<MetaOpV>)
    requires
        soundness::sound(v),
        mirrored(v, p, history),
        v.net.stepped().1 matches Some(env) ==> in_turn(v, p, env),
    ensures
        mirrored(
            v.pumped().0,
            p,
            match v.net.stepped().1 {
                Some(env) => history_after(v, p, env, history),
                None => history,
            },
        ),
{
    let (n, d) = v.net.stepped();
    let at = net::law_step(v.net);
    let y = v.pumped().0;
    truth::lemma_primary(v, p);
    soundness::lemma_pumped_sound(v);
    truth::lemma_primary_stays(v, y);
    simulation::lemma_stepped_every(v.net, about_log(p, v.metas, history));
    match d {
        None => {
            assert(y.metas == v.metas);
            lemma_mirrored_same(v, y, p, history);
        },
        Some(env) => {
            let w = v.with_net(n);
            let (x, out) = w.delivered(env);
            match env.to {
                NodeId::Meta(k) => {
                    if k < v.metas.len() {
                        assert(about_log(p, v.metas, history)(env));
                        lemma_mirrored_delivered(v, p, history, k, env);
                        lemma_log_outs(v, p, history, k, env);
                        let h2 = history_after(v, p, env, history);
                        lemma_log_true_grows(v, y, p, history, h2);
                        simulation::lemma_sent_all_every(x.net, out, about_log(p, y.metas, h2));
                    } else {
                        simulation::lemma_sent_all_every(
                            x.net,
                            out,
                            about_log(p, v.metas, history),
                        );
                        lemma_mirrored_same(v, y, p, history);
                    }
                },
                _ => {
                    assert forall|i: int| 0 <= i < out.len() implies about_log(
                        p,
                        v.metas,
                        history,
                    )(#[trigger] out[i]) by {}
                    simulation::lemma_sent_all_every(x.net, out, about_log(p, v.metas, history));
                    assert(y.metas == v.metas);
                    lemma_mirrored_same(v, y, p, history);
                },
            }
        },
    }
}

/// The same metadata nodes, with as many of them up, mirror the same history.
proof fn lemma_mirrored_same(v: ClusterV, w: ClusterV, p: u32, history: Seq<MetaOpV>)
    requires
        mirrored(v, p, history),
        w.metas == v.metas,
        w.primary() == Some(p),
        forall|k: u32| #[trigger]
            w.net.down.contains(NodeId::Meta(k)) == v.net.down.contains(NodeId::Meta(k)),
        simulation::every(w.net.queue, about_log(p, v.metas, history)),
    ensures
        mirrored(w, p, history),
{
    assert forall|i: int| 0 <= i < w.metas.len() implies mirrors(
        #[trigger] w.metas[i],
        history,
    ) by {
        assert(mirrors(v.metas[i], history));
    }
    if !busy(v.metas[p as int]) {
        lemma_backed_grows(v, w, p, history);
    } else {
        assert(pending_true(w, p, history)) by {
            let m = v.metas[p as int];
            let s = m.applied_seq;
            assert(m.pending.dom().contains(s));
            assert forall|b: u32| #[trigger] m.pending[s].acks.contains(b) implies b == p
                || !w.net.down.contains(NodeId::Meta(b)) by {}
        }
    }
}

/// A quorum that has applied the history stays one while nodes apply no less.
pub proof fn lemma_backed_grows(v: ClusterV, w: ClusterV, p: u32, history: Seq<MetaOpV>)
    requires
        backed(v, p, history),
        w.metas.len() == v.metas.len(),
        w.metas[p as int].meta_quorum == v.metas[p as int].meta_quorum,
        forall|k: u32| #[trigger]
            w.net.down.contains(NodeId::Meta(k)) == v.net.down.contains(NodeId::Meta(k)),
        forall|i: int|
            0 <= i < v.metas.len() ==> v.metas[i].applied_seq == history.len() ==> (
            #[trigger] w.metas[i]).applied_seq == history.len(),
    ensures
        backed(w, p, history),
{
    let s = choose|s: Set<u32>| #[trigger]
        all_applied(v, s, history) && s.finite() && s.len() >= v.metas[p as int].meta_quorum && (
        all_up(v, s) || level(v, history));
    assert forall|i: u32| #[trigger] s.contains(i) implies i < w.metas.len()
        && w.metas[i as int].applied_seq == history.len() by {
        assert(v.metas[i as int].applied_seq == history.len());
    }
    assert(all_applied(w, s, history));
    if level(v, history) {
        assert forall|i: int| 0 <= i < w.metas.len() implies (#[trigger] w.metas[i]).applied_seq
            == history.len() by {
            assert(v.metas[i].applied_seq == history.len());
        }
        assert(level(w, history));
    } else {
        assert(all_up(w, s));
    }
}

/// What is true of the log stays true while nodes only apply more, number more and pass over
/// nothing, and the history only grows.
proof fn lemma_log_true_grows(
    v: ClusterV,
    y: ClusterV,
    p: u32,
    history: Seq<MetaOpV>,
    longer: Seq<MetaOpV>,
)
    requires
        simulation::every(v.net.stepped().0.queue, about_log(p, v.metas, history)),
        y.metas.len() == v.metas.len(),
        forall|i: int| 0 <= i < v.metas.len() ==> moves_on(v.metas[i], #[trigger] y.metas[i]),
        history.len() <= longer.len(),
        forall|i: int| 0 <= i < history.len() ==> history[i] == longer[i],
    ensures
        simulation::every(v.net.stepped().0.queue, about_log(p, y.metas, longer)),
{
    let q = v.net.stepped().0.queue;
    assert forall|i: int| 0 <= i < q.len() implies about_log(p, y.metas, longer)(
        (#[trigger] q[i]).env,
    ) by {
        let e = q[i].env;
        assert(about_log(p, v.metas, history)(e));
        if let NodeId::Meta(k) = e.to {
            if k < v.metas.len() {
                assert(moves_on(v.metas[k as int], y.metas[k as int]));
            }
        }
        if let NodeId::Meta(b) = e.from {
            if b < v.metas.len() {
                assert(moves_on(v.metas[b as int], y.metas[b as int]));
            }
        }
    }
}

/// Whether a node has applied and numbered no less than before, and has passed over no operation
/// that it waited for.
pub open spec fn moves_on(m: MetaV, r: MetaV) -> bool {
    &&& r.applied_seq >= m.applied_seq
    &&& r.next_seq >= m.next_seq
    &&& forall|s: u64| #[trigger]
        r.pending.dom().contains(s) && s < m.next_seq ==> m.pending.dom().contains(s) && (s
            >= m.applied_seq ==> s >= r.applied_seq)
}

/// What holds of the metadata nodes after a delivery, with `h` for the history then: they mirror
/// it, and none has fallen back.
spec fn mirrored_after(
    v: ClusterV,
    y: ClusterV,
    p: u32,
    history: Seq<MetaOpV>,
    h: Seq<MetaOpV>,
) -> bool {
    let m = y.metas[p as int];
    &&& m.next_seq < h.len() ==> level(y, h) && m.meta_quorum > 1
    &&& forall|i: int| 0 <= i < y.metas.len() ==> mirrors(#[trigger] y.metas[i], h)
    &&& forall|i: int|
        0 <= i < y.metas.len() && i != p ==> (#[trigger] y.metas[i]).pending.dom() =~= Set::empty()
    &&& pending_true(y, p, h)
    &&& !busy(m) ==> m.applied_seq == h.len() && backed(y, p, h)
    &&& forall|i: int| 0 <= i < v.metas.len() ==> moves_on(v.metas[i], #[trigger] y.metas[i])
    &&& history.len() <= h.len()
    &&& forall|i: int| 0 <= i < history.len() ==> history[i] == h[i]
}

/// What the metadata nodes are like after node `k` has handled a message in turn.
proof fn lemma_mirrored_delivered(
    v: ClusterV,
    p: u32,
    history: Seq<MetaOpV>,
    k: u32,
    env: wire::Envelope,
)
    requires
        soundness::sound(v),
        mirrored(v, p, history),
        k < v.metas.len(),
        p < v.metas.len(),
        env.to == NodeId::Meta(k),
        !v.net.down.contains(env.from),
        v.pumped().0.net.down == v.net.down,
        in_turn(v, p, env),
        log_true(p, v.metas, history, env),
        v.pumped().0.metas == v.metas.update(
            k as int,
            v.metas[k as int].handled(env.from, env.msg).0,
        ),
    ensures
        mirrored_after(v, v.pumped().0, p, history, history_after(v, p, env, history)),
{
    let y = v.pumped().0;
    let m = v.metas[k as int];
    let r = m.handled(env.from, env.msg).0;
    assert(y.metas[k as int] == r);
    assert(forall|i: int| 0 <= i < v.metas.len() && i != k ==> y.metas[i] == v.metas[i]);
    assert(mirrors(m, history));
    lemma_history_is_counted(v, p, history);
    match env.msg {
        MessageV::MetaOpMsg { req_id, op } => {
            lemma_mirrored_op(v, p, history, env);
        },
        MessageV::MetaReplicate { seq, op } => {
            lemma_mirrored_replica(v, p, history, k, env, seq, op);
        },
        MessageV::MetaReplicateAck { seq } => {
            lemma_mirrored_ack(v, p, history, k, env, seq);
        },
        _ => {
            assert(r.pending == m.pending && r.applied_seq == m.applied_seq && r.next_seq
                == m.next_seq && r.buffer == m.buffer && r.ns == m.ns);
            assert(mirrors(r, history));
            lemma_mirrored_quiet(v, y, p, history);
        },
    }
}

/// Nodes that change nothing but what does not matter here mirror the history as before.
proof fn lemma_mirrored_quiet(v: ClusterV, y: ClusterV, p: u32, history: Seq<MetaOpV>)
    requires
        mirrored(v, p, history),
        p < v.metas.len(),
        y.metas.len() == v.metas.len(),
        y.net.down == v.net.down,
        forall|i: int|
            0 <= i < v.metas.len() ==> {
                let r = #[trigger] y.metas[i];
                let m = v.metas[i];
                &&& mirrors(r, history)
                &&& r.pending == m.pending
                &&& r.applied_seq >= m.applied_seq
                &&& r.next_seq == m.next_seq
                &&& r.meta_quorum == m.meta_quorum
                &&& i == p ==> r.applied_seq == m.applied_seq
            },
    ensures
        mirrored_after(v, y, p, history, history),
{
    let m = v.metas[p as int];
    let r = y.metas[p as int];
    assert forall|i: int|
        0 <= i < v.metas.len() && v.metas[i].applied_seq == history.len() implies (
    #[trigger] y.metas[i]).applied_seq == history.len() by {
        assert(mirrors(y.metas[i], history));
    }
    if m.next_seq < history.len() {
        assert forall|i: int| 0 <= i < y.metas.len() implies (#[trigger] y.metas[i]).applied_seq
            == history.len() by {
            assert(v.metas[i].applied_seq == history.len());
        }
        assert(level(y, history));
    }
    assert(pending_true(y, p, history)) by {
        assert forall|s: u64, i: int| #[trigger]
            r.pending.dom().contains(s) && s < r.applied_seq && 0 <= i < y.metas.len() implies s < (
        #[trigger] y.metas[i]).applied_seq by {
            assert(s < v.metas[i].applied_seq);
        }
        if busy(m) {
            let s = m.applied_seq;
            assert(m.pending.dom().contains(s));
            assert forall|b: u32| #[trigger] r.pending[s].acks.contains(b) implies b
                < y.metas.len() && (b == p || y.metas[b as int].applied_seq == history.len()
                && !y.net.down.contains(NodeId::Meta(b))) by {
                assert(m.pending[s].acks.contains(b));
            }
        }
    }
    if !busy(m) {
        lemma_backed_grows(v, y, p, history);
    }
    assert forall|i: int| 0 <= i < v.metas.len() implies moves_on(
        v.metas[i],
        #[trigger] y.metas[i],
    ) by {
        if i != p {
            assert(y.metas[i].pending.dom() =~= Set::empty());
        }
    }
}

/// An operation that reaches the primary is refused, added to the history, or, under a number
/// that every node has passed, lost.
proof fn lemma_mirrored_op(v: ClusterV, p: u32, history: Seq<MetaOpV>, env: wire::Envelope)
    requires
        soundness::sound(v),
        mirrored(v, p, history),
        p < v.metas.len(),
        env.msg is MetaOpMsg,
        env.to == NodeId::Meta(p),
        in_turn(v, p, env),
        v.pumped().0.net.down == v.net.down,
        v.pumped().0.metas == v.metas.update(
            p as int,
            v.metas[p as int].handled(env.from, env.msg).0,
        ),
    ensures
        mirrored_after(v, v.pumped().0, p, history, history_after(v, p, env, history)),
{
    let y = v.pumped().0;
    let h = history_after(v, p, env, history);
    let m = v.metas[p as int];
    let r = m.handled(env.from, env.msg).0;
    let op = env.msg->MetaOpMsg_op;
    truth::lemma_primary(v, p);
    assert(y.metas[p as int] == r);
    assert(mirrors(m, history));
    if m.ns.validated(op) is Ok && m.next_seq < u64::MAX {
        let s = m.next_seq;
        assert(m.applied_seq == history.len());
        assert(history.take(history.len() as int) =~= history);
        if m.next_seq == history.len() {
            assert forall|i: int| 0 <= i < y.metas.len() implies mirrors(
                #[trigger] y.metas[i],
                h,
            ) by {
                assert(mirrors(v.metas[i], history));
                lemma_mirrors_longer(v.metas[i], history, op);
                if i == p && m.meta_quorum <= 1 {
                    assert(h.take(h.len() as int) =~= h);
                    assert(h.drop_last() =~= history);
                    assert(mirrors(r, h)) by {
                        assert forall|z: u64| #[trigger] r.buffer.dom().contains(z) && z
                            >= r.applied_seq implies false by {}
                    }
                }
            }
            assert forall|z: u64| #[trigger] m.pending.dom().contains(z) implies z
                < m.applied_seq by {}
            if m.meta_quorum <= 1 {
                let one = Set::<u32>::empty().insert(p);
                assert(one.len() == 1);
                assert(all_applied(y, one, h));
                assert(all_up(y, one));
                assert(pending_true(y, p, h)) by {
                    assert forall|z: u64, i: int| #[trigger]
                        r.pending.dom().contains(z) && z < r.applied_seq && 0 <= i
                            < y.metas.len() implies z < (#[trigger] y.metas[i]).applied_seq by {
                        assert(m.pending.dom().contains(z));
                        assert(z < v.metas[i].applied_seq);
                    }
                }
            } else {
                assert(r.pending.dom() =~= m.pending.dom().insert(s));
                assert(r.pending.dom().contains(s));
                assert(pending_true(y, p, h)) by {
                    assert forall|z: u64, i: int| #[trigger]
                        r.pending.dom().contains(z) && z < r.applied_seq && 0 <= i
                            < y.metas.len() implies z < (#[trigger] y.metas[i]).applied_seq by {
                        assert(m.pending.dom().contains(z));
                        assert(z < v.metas[i].applied_seq);
                    }
                }
            }
        } else {
            // The number is one that every node has passed.
            assert(level(v, history));
            assert(r.pending.dom() =~= m.pending.dom().insert(s));
            assert forall|i: int| 0 <= i < y.metas.len() implies mirrors(
                #[trigger] y.metas[i],
                h,
            ) && y.metas[i].applied_seq == history.len() by {
                assert(mirrors(v.metas[i], history));
                assert(v.metas[i].applied_seq == history.len());
            }
            assert(level(y, h));
            assert forall|z: u64| #[trigger] r.pending.dom().contains(z) implies z
                < r.applied_seq by {
                if z != s {
                    assert(m.pending.dom().contains(z));
                }
            }
            lemma_backed_grows(v, y, p, history);
        }
        assert forall|i: int| 0 <= i < v.metas.len() implies moves_on(
            v.metas[i],
            #[trigger] y.metas[i],
        ) by {
            if i != p {
                assert(y.metas[i].pending.dom() =~= Set::empty());
            }
        }
    } else {
        assert(r == m);
        assert(y.metas =~= v.metas);
        lemma_mirrored_quiet(v, y, p, history);
    }
}

/// A replicated operation makes a backup walk along the history, and does nothing to a node
/// that has passed it.
proof fn lemma_mirrored_replica(
    v: ClusterV,
    p: u32,
    history: Seq<MetaOpV>,
    k: u32,
    env: wire::Envelope,
    seq: u64,
    op: MetaOpV,
)
    requires
        soundness::sound(v),
        mirrored(v, p, history),
        k < v.metas.len(),
        p < v.metas.len(),
        env.to == NodeId::Meta(k),
        env.msg == (MessageV::MetaReplicate { seq, op }),
        in_turn(v, p, env),
        log_true(p, v.metas, history, env),
        v.pumped().0.net.down == v.net.down,
        v.pumped().0.metas == v.metas.update(
            k as int,
            v.metas[k as int].handled(env.from, env.msg).0,
        ),
    ensures
        mirrored_after(v, v.pumped().0, p, history, history),
{
    let y = v.pumped().0;
    let m = v.metas[k as int];
    let r = m.handled(env.from, env.msg).0;
    assert(y.metas[k as int] == r);
    assert(mirrors(m, history));
    lemma_history_is_counted(v, p, history);
    let b = MetaV { buffer: m.buffer.insert(seq, op), ..m };
    assert(follows(b, history));
    metadata::lemma_caught_up(b);
    lemma_caught_up_mirrors(b, history);
    truth::lemma_keeps_pace(m, env.from, env.msg);
    if k == p {
        assert(!b.buffer.dom().contains(b.applied_seq));
    }
    assert forall|i: int| 0 <= i < v.metas.len() implies {
        let z = #[trigger] y.metas[i];
        let x = v.metas[i];
        &&& mirrors(z, history)
        &&& z.pending == x.pending
        &&& z.applied_seq >= x.applied_seq
        &&& z.next_seq == x.next_seq
        &&& z.meta_quorum == x.meta_quorum
        &&& i == p ==> z.applied_seq == x.applied_seq
    } by {
        assert(mirrors(v.metas[i], history));
    }
    lemma_mirrored_quiet(v, y, p, history);
}

/// An acknowledgement brings the operation that the primary waits for closer to its quorum or
/// commits it; any other changes nothing.
proof fn lemma_mirrored_ack(
    v: ClusterV,
    p: u32,
    history: Seq<MetaOpV>,
    k: u32,
    env: wire::Envelope,
    seq: u64,
)
    requires
        soundness::sound(v),
        mirrored(v, p, history),
        k < v.metas.len(),
        p < v.metas.len(),
        env.to == NodeId::Meta(k),
        !v.net.down.contains(env.from),
        v.pumped().0.net.down == v.net.down,
        env.msg == (MessageV::MetaReplicateAck { seq }),
        log_true(p, v.metas, history, env),
        v.pumped().0.metas == v.metas.update(
            k as int,
            v.metas[k as int].handled(env.from, env.msg).0,
        ),
    ensures
        mirrored_after(v, v.pumped().0, p, history, history),
{
    let y = v.pumped().0;
    let m = v.metas[k as int];
    let r = m.handled(env.from, env.msg).0;
    truth::lemma_primary(v, p);
    assert(y.metas[k as int] == r);
    assert(forall|i: int| 0 <= i < v.metas.len() && i != k ==> y.metas[i] == v.metas[i]);
    if !m.pending.dom().contains(seq) {
        assert(r == m);
        assert(y.metas =~= v.metas);
        assert forall|i: int| 0 <= i < y.metas.len() implies mirrors(
            #[trigger] y.metas[i],
            history,
        ) by {
            assert(mirrors(v.metas[i], history));
        }
        lemma_mirrored_quiet(v, y, p, history);
    } else {
        assert(k == p);
        assert(seq == m.applied_seq);
        let b = env.from->Meta_0;
        let acks = m.acks_with(env.from, seq);
        assert(acks == m.pending[seq].acks.insert(b));
        assert(mirrors(v.metas[b as int], history));
        assert(v.metas[b as int].applied_seq == history.len());
        assert forall|i: int| 0 <= i < y.metas.len() && i != p implies mirrors(
            #[trigger] y.metas[i],
            history,
        ) by {
            assert(mirrors(v.metas[i], history));
        }
        assert(mirrors(m, history));
        if acks.len() >= m.meta_quorum {
            assert(r.applied_seq == history.len());
            assert forall|s: u64| #[trigger] r.pending.dom().contains(s) implies s
                < m.applied_seq by {
                assert(m.pending.dom().contains(s));
            }
            assert(history.take(history.len() as int) =~= history);
            assert(history.drop_last() =~= history.take(seq as int));
            assert(r.ns == replay(history));
            assert(mirrors(r, history)) by {
                assert forall|z: u64| #[trigger] r.buffer.dom().contains(z) && z
                    >= r.applied_seq implies false by {}
            }
            assert(all_applied(y, acks, history) && all_up(y, acks)) by {
                assert forall|i: u32| #[trigger] acks.contains(i) implies i < y.metas.len()
                    && y.metas[i as int].applied_seq == history.len() && !y.net.down.contains(
                    NodeId::Meta(i),
                ) by {
                    if i != b {
                        assert(m.pending[seq].acks.contains(i));
                    }
                }
            }
            assert(pending_true(y, p, history)) by {
                assert forall|s: u64, i: int| #[trigger]
                    r.pending.dom().contains(s) && s < r.applied_seq && 0 <= i
                        < y.metas.len() implies s < (#[trigger] y.metas[i]).applied_seq by {
                    assert(m.pending.dom().contains(s));
                    assert(s < v.metas[i].applied_seq);
                }
            }
        } else {
            assert(mirrors(r, history));
            assert(r.pending.dom() =~= m.pending.dom());
            assert(r.pending.dom().contains(seq));
            assert(pending_true(y, p, history)) by {
                assert forall|s: u64, i: int| #[trigger]
                    r.pending.dom().contains(s) && s < r.applied_seq && 0 <= i
                        < y.metas.len() implies s < (#[trigger] y.metas[i]).applied_seq by {
                    assert(s < v.metas[i].applied_seq);
                }
                assert forall|c: u32| #[trigger] acks.contains(c) implies c < y.metas.len() && (c
                    == p || y.metas[c as int].applied_seq == history.len()
                    && !y.net.down.contains(NodeId::Meta(c))) by {
                    if c != b {
                        assert(m.pending[seq].acks.contains(c));
                    }
                }
            }
        }
        assert forall|i: int| 0 <= i < v.metas.len() implies moves_on(
            v.metas[i],
            #[trigger] y.metas[i],
        ) by {}
    }
}

/// What node `k` sends about the log is true.
proof fn lemma_log_outs(
    v: ClusterV,
    p: u32,
    history: Seq<MetaOpV>,
    k: u32,
    env: wire::Envelope,
)
    requires
        soundness::sound(v),
        mirrored(v, p, history),
        k < v.metas.len(),
        p < v.metas.len(),
        env.to == NodeId::Meta(k),
        in_turn(v, p, env),
        log_true(p, v.metas, history, env),
        v.pumped().0.metas == v.metas.update(
            k as int,
            v.metas[k as int].handled(env.from, env.msg).0,
        ),
    ensures
        forall|i: int|
            0 <= i < v.metas[k as int].handled(env.from, env.msg).1.len() ==> log_true(
                p,
                v.pumped().0.metas,
                history_after(v, p, env, history),
                #[trigger] v.metas[k as int].handled(env.from, env.msg).1[i],
            ),
{
    let m = v.metas[k as int];
    let y = v.pumped().0;
    let out = m.handled(env.from, env.msg).1;
    assert(m.idx == k);
    match env.msg {
        MessageV::MetaOpMsg { req_id, op } => {
            soundness::lemma_replication_kind(m.idx, m.peers, m.next_seq, op, m.peers.len());
            assert forall|i: int| 0 <= i < out.len() implies log_true(
                p,
                y.metas,
                history_after(v, p, env, history),
                #[trigger] out[i],
            ) by {
                if let NodeId::Meta(b) = out[i].to {
                    if b < v.metas.len() && m.next_seq < history.len() {
                        assert(v.metas[b as int].applied_seq == history.len());
                    }
                }
            }
        },
        MessageV::MetaReplicate { seq, op } => {
            lemma_acks_are_applied(m, env.from, seq, op);
            lemma_history_is_counted(v, p, history);
            let b = MetaV { buffer: m.buffer.insert(seq, op), ..m };
            assert(mirrors(m, history));
            assert(follows(b, history));
            lemma_caught_up_mirrors(b, history);
            if seq != m.applied_seq {
                assert(out =~= seq![]);
            } else {
                let pm = v.metas[p as int];
                assert(env.from == NodeId::Meta(p));
                assert(k != p);
                assert(m.applied_seq < history.len());
                assert(pm.next_seq >= history.len());
                assert(y.metas[p as int] == pm);
                assert forall|i: int| 0 <= i < out.len() implies log_true(
                    p,
                    y.metas,
                    history,
                    #[trigger] out[i],
                ) by {
                    let z = out[i].msg->MetaReplicateAck_seq;
                    assert(z < y.metas[k as int].applied_seq <= history.len());
                    if pm.pending.dom().contains(z) && z < pm.applied_seq {
                        assert(z < v.metas[k as int].applied_seq);
                    }
                }
            }
        },
        MessageV::Heartbeat { node, chunks } => {
            let w = MetaV { holders: metadata::reported(m.holders, node, chunks), ..m };
            if w.is_primary {
                let ids = crate::ordmap::in_order::<crate::hash::Hash>(
                    metadata::referenced(w.ns.files),
                );
                soundness::lemma_orders_kind(w, ids, ids.len());
            }
        },
        _ => {},
    }
}

/// A cluster with the same metadata nodes, messages and topology mirrors the same history.
pub proof fn lemma_mirrored_frame(v: ClusterV, w: ClusterV, p: u32, history: Seq<MetaOpV>)
    requires
        mirrored(v, p, history),
        w.opts == v.opts,
        w.metas == v.metas,
        w.net.down == v.net.down,
        w.net.queue == v.net.queue,
    ensures
        mirrored(w, p, history),
{
    truth::lemma_primary_stays(v, w);
    lemma_mirrored_same(v, w, p, history);
}

/// Sending messages that are not about the log keeps the history mirrored.
pub proof fn lemma_mirrored_sends(
    v: ClusterV,
    p: u32,
    history: Seq<MetaOpV>,
    out: Seq<wire::Envelope>,
)
    requires
        mirrored(v, p, history),
        forall|i: int|
            0 <= i < out.len() ==> !((#[trigger] out[i]).msg is MetaReplicate)
                && !(out[i].msg is MetaReplicateAck),
    ensures
        mirrored(v.sent_all(out), p, history),
{
    let w = v.sent_all(out);
    simulation::lemma_sent_all_frame(v.net, out);
    truth::lemma_primary_stays(v, w);
    simulation::lemma_sent_all_every(v.net, out, about_log(p, v.metas, history));
    lemma_mirrored_same(v, w, p, history);
}

/// How far an operation that is under way has come, which the primary puts under number `n`:
/// the history is still what it was, or ends with the operation, or the number is one that
/// every node has passed.
spec fn staged(
    v: ClusterV,
    p: u32,
    n: u64,
    ns: NsV,
    req: u64,
    op: MetaOpV,
    history: Seq<MetaOpV>,
) -> bool {
    let m = v.metas[p as int];
    ||| mirrored(v, p, history) && truth::unhandled(v, p, ns, req) && m.next_seq == n
    ||| mirrored(v, p, history) && truth::decided(v, p, ns, req, op) && ns.validated(op) is Err
        && m.next_seq == n
    ||| mirrored(v, p, history.push(op)) && ns.validated(op) is Ok && (truth::waiting(
        v,
        p,
        ns,
        req,
        op,
    ) || truth::decided(v, p, ns, req, op)) && n == history.len() && m.next_seq == n + 1
    ||| lost(v, p, n, ns, req, op, history)
}

/// The primary waits for an operation under a number that every node has passed.
spec fn lost(
    v: ClusterV,
    p: u32,
    n: u64,
    ns: NsV,
    req: u64,
    op: MetaOpV,
    history: Seq<MetaOpV>,
) -> bool {
    let m = v.metas[p as int];
    &&& mirrored(v, p, history)
    &&& ns.validated(op) is Ok
    &&& truth::waiting(v, p, ns, req, op)
    &&& !busy(m)
    &&& n < history.len()
    &&& m.next_seq == n + 1
}

/// The primary of a mirrored history acts on no acknowledgement unless it waits for the next
/// operation.
proof fn lemma_lost_pumped(
    v: ClusterV,
    p: u32,
    a: u64,
    n: u64,
    ns: NsV,
    req: u64,
    op: MetaOpV,
    history: Seq<MetaOpV>,
)
    requires
        soundness::sound(v),
        truth::underway(v, p, a, ns, req, op),
        lost(v, p, n, ns, req, op, history),
        v.net.stepped().1 matches Some(env) && !(env.msg is MetaOpMsg),
    ensures
        lost(v.pumped().0, p, n, ns, req, op, history),
{
    let env = v.net.stepped().1->Some_0;
    let y = v.pumped().0;
    let m = v.metas[p as int];
    truth::lemma_primary(v, p);
    truth::lemma_other_delivered(v, p, a, ns, req, op);
    simulation::lemma_stepped_every(v.net, truth::only_op(p, a, req, op));
    simulation::lemma_stepped_every(v.net, about_log(p, v.metas, history));
    assert(truth::only_op(p, a, req, op)(env));
    assert(about_log(p, v.metas, history)(env));
    assert(in_turn(v, p, env));
    lemma_mirrored_pumped(v, p, history);
    let s = choose|s: u64| #[trigger] truth::waits(v, p, req, op, s);
    if env.to == NodeId::Meta(p) {
        if let MessageV::MetaReplicateAck { seq } = env.msg {
            if m.pending.dom().contains(seq) {
                assert(seq == m.applied_seq);
            }
        }
        truth::lemma_namespace_stands(m, env.from, env.msg, a);
        truth::lemma_keeps_pace(m, env.from, env.msg);
    }
    assert(y.metas[p as int].pending == m.pending);
    assert(y.metas[p as int].pending.dom().contains(s));
}

/// A delivery takes an operation that is under way a stage further or leaves it where it is.
proof fn lemma_staged_pumped(
    v: ClusterV,
    p: u32,
    a: u64,
    n: u64,
    ns: NsV,
    req: u64,
    op: MetaOpV,
    history: Seq<MetaOpV>,
)
    requires
        soundness::sound(v),
        truth::underway(v, p, a, ns, req, op),
        staged(v, p, n, ns, req, op, history),
    ensures
        truth::underway(v.pumped().0, p, a, ns, req, op),
        staged(v.pumped().0, p, n, ns, req, op, history),
{
    let d = v.net.stepped().1;
    let y = v.pumped().0;
    let m = v.metas[p as int];
    let now = if mirrored(v, p, history) && m.next_seq == n || lost(v, p, n, ns, req, op, history) {
        history
    } else {
        history.push(op)
    };
    truth::lemma_primary(v, p);
    simulation::lemma_stepped_every(v.net, truth::only_op(p, a, req, op));
    match d {
        Some(env) => {
            assert(truth::only_op(p, a, req, op)(env));
            if env.msg is MetaOpMsg {
                truth::lemma_op_delivered(v, p, a, ns, req, op);
                let early = truth::unhandled(v, p, ns, req) && m.next_seq == n;
                if !(mirrored(v, p, history) && early) {
                    // An operation on its way is not one that was dealt with.
                    simulation::lemma_stepped_every(v.net, truth::not_op());
                    assert(truth::not_op()(env));
                }
                assert(!busy(m));
                assert(in_turn(v, p, env));
                lemma_mirrored_pumped(v, p, now);
                lemma_history_is_counted(v, p, history);
                let r = m.submitted(NodeId::Client, req, op).0;
                assert(y.metas[p as int] == r);
                if ns.validated(op) is Ok && n < history.len() {
                    assert(mirrored(v, p, history));
                    assert(m.applied_seq == history.len());
                    assert(r.pending.dom() =~= m.pending.dom().insert(n));
                    assert(r.pending.dom().contains(n) && r.pending[n].req_id == req);
                    assert(!truth::decided(y, p, ns, req, op));
                    assert(lost(y, p, n, ns, req, op, history));
                }
            } else {
                truth::lemma_other_delivered(v, p, a, ns, req, op);
                if lost(v, p, n, ns, req, op, history) {
                    lemma_lost_pumped(v, p, a, n, ns, req, op, history);
                } else {
                    assert(in_turn(v, p, env));
                    lemma_mirrored_pumped(v, p, now);
                    if env.to == NodeId::Meta(p) {
                        truth::lemma_keeps_pace(m, env.from, env.msg);
                    }
                }
            }
        },
        None => {
            truth::lemma_underway_lost(v, p, a, ns, req, op);
            lemma_mirrored_pumped(v, p, now);
        },
    }
}

/// When the client stops waiting, its operation has come to the stage that it was told of.
proof fn lemma_staged_awaited(
    v: ClusterV,
    p: u32,
    a: u64,
    n: u64,
    ns: NsV,
    req: u64,
    op: MetaOpV,
    history: Seq<MetaOpV>,
    deadline: u64,
)
    requires
        soundness::sound(v),
        truth::underway(v, p, a, ns, req, op),
        staged(v, p, n, ns, req, op, history),
    ensures
        ({
            let (z, r) = v.commit_awaited(req, deadline);
            &&& truth::underway(z, p, a, ns, req, op)
            &&& staged(z, p, n, ns, req, op, history)
            &&& match r {
                Some(MetaResult::Committed) => mirrored(z, p, history.push(op)) && n
                    == history.len() && z.metas[p as int].next_seq == n + 1,
                Some(MetaResult::Rejected(_)) => mirrored(z, p, history)
                    && z.metas[p as int].next_seq == n,
                None => true,
            }
        }),
    decreases u64::MAX - v.net.seq, v.net.queue.len(),
{
    let w = v.inbox_taken();
    soundness::lemma_inbox_taken_sound(v);
    truth::lemma_primary_stays(v, w);
    let found = protocol::commit_among(v.inbox, req, v.inbox.len());
    if mirrored(v, p, history) {
        lemma_mirrored_frame(v, w, p, history);
    }
    if mirrored(v, p, history.push(op)) {
        lemma_mirrored_frame(v, w, p, history.push(op));
    }
    truth::lemma_underway_taken(v, p, a, ns, req, op);
    if truth::waiting(v, p, ns, req, op) || truth::unhandled(v, p, ns, req) {
        truth::lemma_commit_among(v.inbox, req, v.inbox.len(), None);
    }
    if truth::decided(v, p, ns, req, op) {
        truth::lemma_commit_among(v.inbox, req, v.inbox.len(), truth::said(ns, op));
    }
    assert(staged(w, p, n, ns, req, op, history));
    if found is None {
        soundness::lemma_pumped_sound(w);
        simulation::lemma_pump_progress(w);
        lemma_staged_pumped(w, p, a, n, ns, req, op, history);
        if w.net.clock < deadline && w.pumped().1 {
            lemma_staged_awaited(w.pumped().0, p, a, n, ns, req, op, history, deadline);
        }
    }
}

/// No operation is under way and the metadata nodes mirror one history.
pub open spec fn steady(v: ClusterV, p: u32, history: Seq<MetaOpV>) -> bool {
    truth::idle(v, p) && mirrored(v, p, history)
}

/// In a steady cluster the primary and a quorum have applied the whole history.
pub proof fn lemma_steady_backed(v: ClusterV, p: u32, history: Seq<MetaOpV>)
    requires
        soundness::sound(v),
        steady(v, p, history),
    ensures
        p < v.metas.len(),
        !busy(v.metas[p as int]),
        v.metas[p as int].applied_seq == history.len(),
        backed(v, p, history),
{
    truth::lemma_primary(v, p);
    let m = v.metas[p as int];
    if busy(m) {
        assert(m.pending.dom().contains(m.applied_seq));
        assert(m.applied_seq < v.metas[p as int].applied_seq);
    }
}

/// The namespace of a steady cluster is that of its history.
pub proof fn law_namespace_is_history(v: ClusterV, p: u32, history: Seq<MetaOpV>)
    requires
        soundness::sound(v),
        steady(v, p, history),
    ensures
        truth::names(v, p) == replay(history),
{
    truth::lemma_primary(v, p);
    assert(mirrors(v.metas[p as int], history));
    assert(history.take(history.len() as int) =~= history);
}

/// An operation that the client saw succeed is the last of the history, and a quorum of
/// metadata nodes has applied it; one that it saw refused is not part of the history.
pub proof fn law_committed_is_replicated(
    v: ClusterV,
    p: u32,
    history: Seq<MetaOpV>,
    op: MetaOpV,
    err_path: Seq<char>,
)
    requires
        soundness::sound(v),
        steady(v, p, history),
    ensures
        ({
            let (w, r) = v.meta_applied(op, err_path);
            match r {
                Ok(_) => steady(w, p, history.push(op)) && backed(w, p, history.push(op))
                    && v.metas[p as int].next_seq == history.len() && w.metas[p as int].next_seq
                    == history.len() + 1,
                Err(ErrorV::MetadataUnavailable) => true,
                Err(_) => steady(w, p, history) && w.metas[p as int].next_seq
                    == v.metas[p as int].next_seq,
            }
        }),
{
    truth::law_operations_take_effect(v, p, op, err_path);
    if v.next_req < u64::MAX {
        let req = v.next_req;
        let ns = truth::names(v, p);
        let a = v.metas[p as int].applied_seq;
        let msg = MessageV::MetaOpMsg { req_id: req, op };
        let w = v.asked(p, msg);
        truth::lemma_operation_sent(v, p, op);
        lemma_mirrored_asked(v, p, history, msg);
        let n = v.metas[p as int].next_seq;
        lemma_staged_awaited(w, p, a, n, ns, req, op, history, w.deadline());
        let (x, r) = v.meta_applied(op, err_path);
        durability::law_meta_operation_keeps_sound(v, op, err_path);
        if r is Ok {
            lemma_steady_backed(x, p, history.push(op));
        }
    }
}

/// An operation that the primary puts under a number that every node has passed is not
/// committed, and once it has reached the primary it leaves the history as it was.
pub proof fn lemma_lost_is_steady(
    v: ClusterV,
    p: u32,
    history: Seq<MetaOpV>,
    op: MetaOpV,
    deadline: u64,
)
    requires
        soundness::sound(v),
        steady(v, p, history),
        v.metas[p as int].next_seq < history.len(),
        v.next_req < u64::MAX,
    ensures
        ({
            let ns = truth::names(v, p);
            let req = v.next_req;
            let w = v.asked(p, MessageV::MetaOpMsg { req_id: req, op });
            let (z, r) = w.commit_awaited(req, deadline);
            &&& r != Some(MetaResult::Committed)
            &&& truth::waiting(z, p, ns, req, op) || truth::decided(z, p, ns, req, op) ==> {
                &&& steady(z, p, history)
                &&& truth::names(z, p) == ns
            }
        }),
{
    let req = v.next_req;
    let ns = truth::names(v, p);
    let a = v.metas[p as int].applied_seq;
    let n = v.metas[p as int].next_seq;
    let msg = MessageV::MetaOpMsg { req_id: req, op };
    let w = v.asked(p, msg);
    let (z, r) = w.commit_awaited(req, deadline);
    truth::lemma_operation_sent(v, p, op);
    lemma_mirrored_asked(v, p, history, msg);
    lemma_staged_awaited(w, p, a, n, ns, req, op, history, deadline);
    durability::lemma_commit_awaited(w, req, deadline);
    if truth::waiting(z, p, ns, req, op) || truth::decided(z, p, ns, req, op) {
        let m = z.metas[p as int];
        truth::lemma_primary(z, p);
        assert(mirrored(z, p, history));
        assert(!busy(m)) by {
            if truth::free_of(z, p, req) && busy(m) {
                assert(m.pending.dom().contains(m.applied_seq));
                assert(m.applied_seq < z.metas[p as int].applied_seq);
            }
        }
        assert forall|i: int| 0 <= i < z.net.queue.len() implies truth::harmless(
            p,
            m.applied_seq,
        )((#[trigger] z.net.queue[i]).env) && truth::unacknowledging(p, m.pending.dom())(
            z.net.queue[i].env,
        ) by {
            let e = z.net.queue[i].env;
            assert(truth::only_op(p, a, req, op)(e));
            assert(truth::not_op()(e));
            assert(about_log(p, z.metas, history)(e));
            if let MessageV::MetaReplicateAck { seq } = e.msg {
                if e.to == NodeId::Meta(p) && m.pending.dom().contains(seq) {
                    assert(seq == m.applied_seq);
                }
            }
        }
        assert(truth::idle(z, p));
    }
}

/// A request to the primary keeps the history mirrored.
pub proof fn lemma_mirrored_asked(v: ClusterV, p: u32, history: Seq<MetaOpV>, msg: MessageV)
    requires
        mirrored(v, p, history),
        !(msg is MetaReplicate),
        !(msg is MetaReplicateAck),
    ensures
        mirrored(v.asked(p, msg), p, history),
{
    let w = v.asked(p, msg);
    let env = wire::Envelope { from: NodeId::Client, to: NodeId::Meta(p), msg };
    truth::lemma_primary_stays(v, w);
    truth::lemma_sent_every(v.net, env, about_log(p, v.metas, history));
    lemma_mirrored_same(v, w, p, history);
}

pub proof fn lemma_steady_frame(v: ClusterV, w: ClusterV, p: u32, history: Seq<MetaOpV>)
    requires
        steady(v, p, history),
        w.opts == v.opts,
        w.metas == v.metas,
        w.net.down == v.net.down,
        w.net.queue == v.net.queue,
    ensures
        steady(w, p, history),
{
    truth::lemma_primary_stays(v, w);
    lemma_mirrored_frame(v, w, p, history);
}

/// Deliveries keep a steady cluster steady.
pub proof fn lemma_steady_pumped(v: ClusterV, p: u32, history: Seq<MetaOpV>)
    requires
        soundness::sound(v),
        steady(v, p, history),
    ensures
        steady(v.pumped().0, p, history),
        v.pumped().0.metas[p as int].next_seq == v.metas[p as int].next_seq,
{
    let a = v.metas[p as int].applied_seq;
    truth::lemma_idle_pumped(v, p);
    simulation::lemma_stepped_every(v.net, truth::harmless(p, a));
    truth::lemma_primary(v, p);
    if let Some(env) = v.net.stepped().1 {
        assert(truth::harmless(p, a)(env));
        assert(in_turn(v, p, env));
        if env.to == NodeId::Meta(p) {
            truth::lemma_keeps_pace(v.metas[p as int], env.from, env.msg);
        }
    }
    lemma_mirrored_pumped(v, p, history);
}

proof fn lemma_steady_answer(
    v: ClusterV,
    p: u32,
    history: Seq<MetaOpV>,
    req: u64,
    deadline: u64,
)
    requires
        soundness::sound(v),
        steady(v, p, history),
    ensures
        steady(v.answer_awaited(req, deadline).0, p, history),
        v.answer_awaited(req, deadline).0.metas[p as int].next_seq == v.metas[p as int].next_seq,
    decreases u64::MAX - v.net.seq, v.net.queue.len(),
{
    let w = v.inbox_taken();
    soundness::lemma_inbox_taken_sound(v);
    lemma_steady_frame(v, w, p, history);
    soundness::lemma_pumped_sound(w);
    simulation::lemma_pump_progress(w);
    lemma_steady_pumped(w, p, history);
    if protocol::answer_among(v.inbox, req, v.inbox.len()) is None && w.net.clock < deadline
        && w.pumped().1 {
        lemma_steady_answer(w.pumped().0, p, history, req, deadline);
    }
}

pub proof fn lemma_steady_acks(
    v: ClusterV,
    p: u32,
    history: Seq<MetaOpV>,
    acks: Map<Seq<u8>, Set<u32>>,
    ids: Seq<Seq<u8>>,
    quorum: nat,
    deadline: u64,
)
    requires
        soundness::sound(v),
        steady(v, p, history),
    ensures
        steady(v.acks_awaited(acks, ids, quorum, deadline).0, p, history),
        v.acks_awaited(acks, ids, quorum, deadline).0.metas[p as int].next_seq == v.metas[p
            as int].next_seq,
    decreases u64::MAX - v.net.seq, v.net.queue.len(),
{
    let w = v.inbox_taken();
    let now = protocol::acks_after(acks, v.inbox, v.inbox.len());
    soundness::lemma_inbox_taken_sound(v);
    lemma_steady_frame(v, w, p, history);
    soundness::lemma_pumped_sound(w);
    simulation::lemma_pump_progress(w);
    lemma_steady_pumped(w, p, history);
    if !protocol::quorum_met(now, ids, quorum) && w.net.clock < deadline && w.pumped().1 {
        lemma_steady_acks(w.pumped().0, p, history, now, ids, quorum, deadline);
    }
}

pub proof fn lemma_steady_groups(
    v: ClusterV,
    p: u32,
    history: Seq<MetaOpV>,
    acked: Set<Seq<u8>>,
    groups: Seq<Seq<ChunkV>>,
    quorum: nat,
    deadline: u64,
)
    requires
        soundness::sound(v),
        steady(v, p, history),
    ensures
        steady(v.groups_awaited(acked, groups, quorum, deadline).0, p, history),
        v.groups_awaited(acked, groups, quorum, deadline).0.metas[p as int].next_seq == v.metas[p
            as int].next_seq,
    decreases u64::MAX - v.net.seq, v.net.queue.len(),
{
    let w = v.inbox_taken();
    let now = protocol::acked_after(acked, v.inbox, v.inbox.len());
    soundness::lemma_inbox_taken_sound(v);
    lemma_steady_frame(v, w, p, history);
    soundness::lemma_pumped_sound(w);
    simulation::lemma_pump_progress(w);
    lemma_steady_pumped(w, p, history);
    if !protocol::groups_met(groups, now, quorum) && w.net.clock < deadline && w.pumped().1 {
        lemma_steady_groups(w.pumped().0, p, history, now, groups, quorum, deadline);
    }
}

proof fn lemma_steady_gathered(
    v: ClusterV,
    p: u32,
    history: Seq<MetaOpV>,
    g: Gathered,
    ids: Seq<Seq<u8>>,
    quorum: nat,
    deadline: u64,
)
    requires
        soundness::sound(v),
        steady(v, p, history),
    ensures
        steady(v.chunks_gathered(g, ids, quorum, deadline).0, p, history),
        v.chunks_gathered(g, ids, quorum, deadline).0.metas[p as int].next_seq == v.metas[p
            as int].next_seq,
    decreases u64::MAX - v.net.seq, v.net.queue.len(),
{
    let w = v.inbox_taken();
    let now = g.with_all(v.inbox, v.inbox.len());
    soundness::lemma_inbox_taken_sound(v);
    lemma_steady_frame(v, w, p, history);
    soundness::lemma_pumped_sound(w);
    simulation::lemma_pump_progress(w);
    lemma_steady_pumped(w, p, history);
    if !now.enough_all(ids, quorum) && w.net.clock < deadline && w.pumped().1 {
        lemma_steady_gathered(w.pumped().0, p, history, now, ids, quorum, deadline);
    }
}

/// A query keeps a steady cluster steady.
pub proof fn law_queries_keep_history(v: ClusterV, p: u32, history: Seq<MetaOpV>, q: QueryV)
    requires
        soundness::sound(v),
        steady(v, p, history),
    ensures
        steady(v.meta_queried(q).0, p, history),
        v.meta_queried(q).0.metas[p as int].next_seq == v.metas[p as int].next_seq,
{
    truth::law_queries_are_answered_truly(v, p, q);
    if v.next_req < u64::MAX {
        let req = v.next_req;
        let msg = MessageV::MetaQueryMsg { req_id: req, q };
        let w = v.asked(p, msg);
        durability::lemma_asked(v, p, msg);
        let env = wire::Envelope { from: NodeId::Client, to: NodeId::Meta(p), msg };
        truth::lemma_sent_every(v.net, env, truth::harmless(p, v.metas[p as int].applied_seq));
        truth::lemma_buried_asked(v, p, v.metas[p as int].pending.dom(), msg);
        truth::lemma_primary_stays(v, w);
        lemma_mirrored_asked(v, p, history, msg);
        lemma_steady_answer(w, p, history, req, w.deadline());
    }
}

pub proof fn lemma_steady_sends(
    v: ClusterV,
    p: u32,
    history: Seq<MetaOpV>,
    out: Seq<wire::Envelope>,
)
    requires
        steady(v, p, history),
        forall|i: int|
            0 <= i < out.len() ==> (#[trigger] out[i]).msg is StoreChunk || out[i].msg is FetchChunk,
    ensures
        steady(v.sent_all(out), p, history),
{
    truth::lemma_idle_sends(v, p, out);
    lemma_mirrored_sends(v, p, history, out);
}

/// A write that the client saw succeed is the last of the history, and a quorum of metadata
/// nodes has applied it; one that missed its quorum of replicas or was refused is not part of
/// the history.
pub proof fn law_written_is_replicated(
    v: ClusterV,
    p: u32,
    history: Seq<MetaOpV>,
    at: Seq<char>,
    bytes: Seq<u8>,
)
    requires
        soundness::sound(v),
        steady(v, p, history),
    ensures
        ({
            let (w, r) = v.written(at, bytes);
            let op = MetaOpV::Put { path: at, manifest: truth::manifest_for(v, bytes) };
            match r {
                Ok(_) => steady(w, p, history.push(op)) && backed(w, p, history.push(op)),
                Err(ErrorV::MetadataUnavailable) => true,
                Err(_) => steady(w, p, history),
            }
        }),
{
    let live = v.live_storage();
    let op = MetaOpV::Put { path: at, manifest: truth::manifest_for(v, bytes) };
    if path::normal(at) {
        match v.opts.erasure {
            None => {
                let quorum = v.opts.write_quorum as nat;
                if live.len() >= quorum {
                    let chunks = chunk::chunks_of(bytes, v.opts.chunk_size as nat);
                    let data = protocol::distinct_chunks(chunks, chunks.len());
                    let ids = ordmap::in_order::<crate::hash::Hash>(data.dom());
                    let r = v.opts.replication_factor as nat;
                    let out = protocol::store_msgs(data, ids, live, r, ids.len());
                    durability::lemma_store_msgs_kind(data, ids, live, r, ids.len());
                    durability::lemma_client_sends(v, out);
                    lemma_steady_sends(v, p, history, out);
                    let w = v.sent_all(out);
                    durability::lemma_acks_awaited(w, Map::empty(), ids, quorum, w.deadline());
                    lemma_steady_acks(w, p, history, Map::empty(), ids, quorum, w.deadline());
                    let x = w.acks_awaited(Map::empty(), ids, quorum, w.deadline()).0;
                    law_committed_is_replicated(x, p, history, op, at);
                }
            },
            Some(er) => {
                if live.len() >= er.k as nat + er.m as nat {
                    let groups = protocol::shard_groups(bytes, v.group_size(), er);
                    let quorum = protocol::larger(v.opts.write_quorum as nat, er.k as nat);
                    let out = protocol::spread(groups, live, groups.len()).msgs;
                    durability::lemma_spread_kind(groups, live, groups.len());
                    durability::lemma_client_sends(v, out);
                    lemma_steady_sends(v, p, history, out);
                    let w = v.sent_all(out);
                    assert(durability::true_acked(w, Set::empty()));
                    durability::lemma_groups_awaited(
                        w,
                        Set::empty(),
                        groups,
                        quorum,
                        w.deadline(),
                    );
                    lemma_steady_groups(
                        w,
                        p,
                        history,
                        Set::empty(),
                        groups,
                        quorum,
                        w.deadline(),
                    );
                    let x = w.groups_awaited(Set::empty(), groups, quorum, w.deadline()).0;
                    law_committed_is_replicated(x, p, history, op, at);
                }
            },
        }
    }
}

proof fn lemma_steady_rebuilt(
    v: ClusterV,
    p: u32,
    history: Seq<MetaOpV>,
    at: Seq<char>,
    m: ManifestV,
    er: Erasure,
    live: Seq<u32>,
    got: Gathered,
    g: nat,
)
    requires
        steady(v, p, history),
    ensures
        steady(v.groups_rebuilt(at, m, er, live, got, g).0, p, history),
        v.groups_rebuilt(at, m, er, live, got, g).0.metas[p as int].next_seq == v.metas[p
            as int].next_seq,
    decreases m.chunks.len() / (er.k as nat + er.m as nat) - g,
{
    let total = er.k as nat + er.m as nat;
    if g < m.chunks.len() / total {
        let ids = m.chunks.subrange((g * total) as int, ((g + 1) * total) as int);
        let len = protocol::group_len(m.size as nat, v.group_size(), g);
        let slots = protocol::group_slots(got, ids, len, er);
        match crate::erasure::decoded(slots, er.k as nat, er.m as nat, len) {
            Err(_) => {},
            Ok(piece) => {
                let full = crate::erasure::shards(piece, er.k as nat, er.m as nat);
                let out = protocol::rebuild_msgs(slots, ids, full, live, total);
                durability::lemma_rebuild_msgs_kind(slots, ids, full, live, total);
                lemma_steady_sends(v, p, history, out);
                lemma_steady_rebuilt(v.sent_all(out), p, history, at, m, er, live, got, g + 1);
            },
        }
    }
}

proof fn lemma_steady_fetched(
    v: ClusterV,
    p: u32,
    history: Seq<MetaOpV>,
    ids: Seq<Seq<u8>>,
    quorum: nat,
)
    requires
        soundness::sound(v),
        steady(v, p, history),
    ensures
        steady(v.fetched(ids, quorum).0, p, history),
        v.fetched(ids, quorum).0.metas[p as int].next_seq == v.metas[p as int].next_seq,
{
    let live = v.live_storage();
    let out = protocol::fetch_msgs(ids, live, ids.len());
    durability::lemma_fetch_msgs_kind(ids, live, ids.len());
    durability::lemma_client_sends(v, out);
    lemma_steady_sends(v, p, history, out);
    let w = v.sent_all(out);
    lemma_steady_gathered(w, p, history, Gathered::nothing(), ids, quorum, w.deadline());
}

/// A read keeps a steady cluster steady.
pub proof fn law_reads_keep_history(v: ClusterV, p: u32, history: Seq<MetaOpV>, at: Seq<char>)
    requires
        soundness::sound(v),
        steady(v, p, history),
    ensures
        steady(v.read(at).0, p, history),
        v.read(at).0.metas[p as int].next_seq == v.metas[p as int].next_seq,
{
    if path::normal(at) {
        let q = QueryV::Get { path: at };
        law_queries_keep_history(v, p, history, q);
        durability::law_meta_query_keeps_sound(v, q);
        let (w, r) = v.meta_queried(q);
        if let Ok(QueryResultV::Manifest(Some(m))) = r {
            let ids = ordmap::in_order::<crate::hash::Hash>(m.chunks.to_set());
            let live = w.live_storage();
            match m.erasure {
                None => {
                    let quorum = w.opts.read_quorum as nat;
                    let rf = w.opts.replication_factor as nat;
                    lemma_steady_fetched(w, p, history, ids, quorum);
                    let (x, g) = w.fetched(ids, quorum);
                    let out = protocol::repair_msgs(g, ids, live, rf, ids.len());
                    durability::lemma_repair_msgs_kind(g, ids, live, rf, ids.len());
                    lemma_steady_sends(x, p, history, out);
                },
                Some((k, par)) => {
                    if 1 <= k && 1 <= par && k + par <= 64 {
                        let er = Erasure { k: k as usize, m: par as usize };
                        lemma_steady_fetched(w, p, history, ids, 1);
                        let (x, got) = w.fetched(ids, 1);
                        lemma_steady_rebuilt(x, p, history, at, m, er, live, got, 0);
                    }
                },
            }
        }
    }
}

/// A cluster in which other nodes are down and the metadata roles are settled anew.
pub open spec fn refreshed(v: ClusterV, down: Set<NodeId>) -> ClusterV {
    v.with_net(NetV { down, ..v.net }).settled()
}

/// What a settled cluster looks like when some live node has applied the whole history.
proof fn lemma_refreshed(
    v: ClusterV,
    p: u32,
    history: Seq<MetaOpV>,
    down: Set<NodeId>,
    q: u32,
    i: u32,
)
    requires
        soundness::sound(v),
        steady(v, p, history),
        refreshed(v, down).primary() == Some(q),
        i < v.metas.len(),
        !down.contains(NodeId::Meta(i)),
        v.metas[i as int].applied_seq == history.len(),
    ensures
        q < v.metas.len(),
        !down.contains(NodeId::Meta(q)),
        refreshed(v, down).metas.len() == v.metas.len(),
        forall|k: int|
            0 <= k < v.metas.len() ==> {
                let m = #[trigger] refreshed(v, down).metas[k];
                &&& mirrors(m, history)
                &&& m.applied_seq == history.len()
                &&& m.meta_quorum == v.metas[k].meta_quorum
                &&& m.next_seq >= v.metas[k].next_seq
                &&& forall|s: u64| #[trigger] m.buffer.dom().contains(s) ==> s < history.len()
                &&& forall|s: u64| #[trigger]
                    m.pending.dom().contains(s) ==> k == q && q == p && v.metas[p
                        as int].pending.dom().contains(s)
            },
        q == p ==> refreshed(v, down).metas[p as int].next_seq == v.metas[p as int].next_seq,
{
    let u = v.with_net(NetV { down, ..v.net });
    let w = u.settled();
    truth::lemma_primary(v, p);
    truth::lemma_primary_stays(u, w);
    truth::lemma_primary(w, q);
    simulation::lemma_live(u);
    let live = u.live_meta();
    assert(live.contains(i));
    let at = choose|j: int| 0 <= j < live.len() && live[j] == i;
    simulation::lemma_most_current(v.metas, live, live.len());
    let b = simulation::most_current(v.metas, live, live.len());
    assert(mirrors(v.metas[b as int], history));
    assert(v.metas[live[at] as int].applied_seq <= v.metas[b as int].applied_seq);
    assert(history.take(history.len() as int) =~= history);
    assert(v.metas[b as int].ns == replay(history));
    let metas = u.reconciled();
    assert(mirrors(v.metas[q as int], history));
    assert(metas[q as int].ns == replay(history));
    assert(metas[q as int].applied_seq == history.len());
    assert(metas[q as int].next_seq <= history.len());
    if q == p {
        lemma_first_is_most_current(v.metas, live, live.len());
    }
    assert forall|k: int| 0 <= k < v.metas.len() implies {
        let m = #[trigger] w.metas[k];
        &&& mirrors(m, history)
        &&& m.applied_seq == history.len()
        &&& m.meta_quorum == v.metas[k].meta_quorum
        &&& m.next_seq >= v.metas[k].next_seq
        &&& forall|s: u64| #[trigger] m.buffer.dom().contains(s) ==> s < history.len()
        &&& forall|s: u64| #[trigger]
            m.pending.dom().contains(s) ==> k == q && q == p && v.metas[p
                as int].pending.dom().contains(s)
    } by {
        assert(mirrors(v.metas[k], history));
        if k != q {
            assert(metas[k] == v.metas[k]);
        }
    }
}

/// The first node is the most current one when no other has applied more.
proof fn lemma_first_is_most_current(metas: Seq<MetaV>, live: Seq<u32>, n: nat)
    requires
        0 < n <= live.len(),
        forall|i: int|
            0 <= i < live.len() ==> metas[(#[trigger] live[i]) as int].applied_seq
                <= metas[live[0] as int].applied_seq,
    ensures
        simulation::most_current(metas, live, n) == live[0],
    decreases n,
{
    if n > 1 {
        lemma_first_is_most_current(metas, live, (n - 1) as nat);
    }
}

/// The namespace survives the crash or recovery of metadata nodes as long as one that has
/// applied the whole history is up: the new primary, whichever node that is, has it, and with
/// a quorum of more than one node the cluster goes on from it.
pub proof fn law_namespace_survives_failover(
    v: ClusterV,
    p: u32,
    history: Seq<MetaOpV>,
    down: Set<NodeId>,
    q: u32,
    i: u32,
)
    requires
        soundness::sound(v),
        steady(v, p, history),
        refreshed(v, down).primary() == Some(q),
        i < v.metas.len(),
        !down.contains(NodeId::Meta(i)),
        v.metas[i as int].applied_seq == history.len(),
    ensures
        soundness::sound(refreshed(v, down)),
        truth::names(refreshed(v, down), q) == truth::names(v, p),
        v.metas[q as int].meta_quorum > 1 || q == p ==> steady(refreshed(v, down), q, history),
        q == p ==> refreshed(v, down).metas[p as int].next_seq == v.metas[p as int].next_seq,
        level(refreshed(v, down), history),
{
    let u = v.with_net(NetV { down, ..v.net });
    let w = refreshed(v, down);
    soundness::law_settling_keeps_sound(u);
    truth::lemma_primary(v, p);
    truth::lemma_primary_stays(u, w);
    lemma_refreshed(v, p, history, down, q, i);
    law_namespace_is_history(v, p, history);
    assert(history.take(history.len() as int) =~= history);
    let m = w.metas[q as int];
    assert(mirrors(m, history));
    assert(level(w, history));
    if v.metas[q as int].meta_quorum > 1 || q == p {
        lemma_refreshed_messages(v, p, history, down, q, i);
        assert(truth::past(m, m.applied_seq)) by {
            assert(mirrors(v.metas[q as int], history));
        }
        assert forall|s: u64| #[trigger] m.pending.dom().contains(s) implies s < history.len() by {
            assert(v.metas[p as int].pending.dom().contains(s));
            assert(mirrors(v.metas[p as int], history));
            assert(s < v.metas[p as int].applied_seq);
        }
        assert(pending_true(w, q, history));
        let s = choose|s: Set<u32>| #[trigger]
            all_applied(v, s, history) && s.finite() && s.len() >= v.metas[p as int].meta_quorum
                && (all_up(v, s) || level(v, history));
        assert(all_applied(w, s, history)) by {
            assert forall|k: u32| #[trigger] s.contains(k) implies k < w.metas.len()
                && w.metas[k as int].applied_seq == history.len() by {
                assert(w.metas[k as int].applied_seq == history.len());
            }
        }
        assert(v.metas[q as int].meta_quorum == v.metas[p as int].meta_quorum);
        assert(m.meta_quorum == v.metas[q as int].meta_quorum);
        assert(backed(w, q, history));
        assert(mirrored(w, q, history));
    }
}

/// What is in flight when roles are settled anew neither changes a namespace nor acknowledges
/// anything that is waited for.
proof fn lemma_refreshed_messages(
    v: ClusterV,
    p: u32,
    history: Seq<MetaOpV>,
    down: Set<NodeId>,
    q: u32,
    i: u32,
)
    requires
        soundness::sound(v),
        steady(v, p, history),
        refreshed(v, down).primary() == Some(q),
        i < v.metas.len(),
        !down.contains(NodeId::Meta(i)),
        v.metas[i as int].applied_seq == history.len(),
    ensures
        ({
            let w = refreshed(v, down);
            let m = w.metas[q as int];
            &&& simulation::every(w.net.queue, truth::harmless(q, m.applied_seq))
            &&& truth::buried(w, q, m.pending.dom())
            &&& simulation::every(w.net.queue, about_log(q, w.metas, history))
        }),
{
    let w = refreshed(v, down);
    let m = w.metas[q as int];
    lemma_refreshed(v, p, history, down, q, i);
    assert(m.applied_seq == history.len());
    assert(w.net.queue == v.net.queue);
    assert forall|s: u64| #[trigger] m.pending.dom().contains(s) implies s < history.len() by {
        assert(v.metas[p as int].pending.dom().contains(s));
        assert(mirrors(v.metas[p as int], history));
    }
    assert forall|j: int| 0 <= j < w.net.queue.len() implies truth::harmless(q, m.applied_seq)(
        (#[trigger] w.net.queue[j]).env,
    ) && truth::unacknowledging(q, m.pending.dom())(w.net.queue[j].env) && about_log(
        q,
        w.metas,
        history,
    )(w.net.queue[j].env) by {
        let e = v.net.queue[j].env;
        assert(truth::harmless(p, v.metas[p as int].applied_seq)(e));
        assert(truth::unacknowledging(p, v.metas[p as int].pending.dom())(e));
        assert(about_log(p, v.metas, history)(e));
        if let NodeId::Meta(k) = e.to {
            if k < v.metas.len() {
                assert(mirrors(v.metas[k as int], history));
                assert(w.metas[k as int].applied_seq == history.len());
                if let MessageV::MetaReplicateAck { seq } = e.msg {
                    let b = e.from->Meta_0;
                    assert(mirrors(v.metas[b as int], history));
                    assert(w.metas[b as int].applied_seq == history.len());
                    assert(w.metas[k as int].next_seq >= v.metas[k as int].next_seq);
                    if w.metas[k as int].pending.dom().contains(seq) {
                        assert(v.metas[p as int].pending.dom().contains(seq));
                    }
                }
            } else if let MessageV::MetaReplicateAck { seq } = e.msg {
                let b = e.from->Meta_0;
                assert(mirrors(v.metas[b as int], history));
                assert(w.metas[b as int].applied_seq == history.len());
            }
        }
    }
    assert forall|s: u64, k: int| #[trigger]
        m.pending.dom().contains(s) && 0 <= k < w.metas.len() implies s < (
    #[trigger] w.metas[k]).applied_seq by {
        assert(w.metas[k].applied_seq == history.len());
    }
}

/// The namespace survives when fewer metadata nodes than a quorum are down, and the cluster
/// goes on from it.
pub proof fn law_namespace_survives_losses(
    v: ClusterV,
    p: u32,
    history: Seq<MetaOpV>,
    down: Set<NodeId>,
    q: u32,
    lost_ones: Set<u32>,
)
    requires
        soundness::sound(v),
        steady(v, p, history),
        refreshed(v, down).primary() == Some(q),
        lost_ones.finite(),
        lost_ones.len() < v.metas[p as int].meta_quorum,
        forall|k: u32|
            k < v.metas.len() && down.contains(NodeId::Meta(k)) ==> #[trigger] lost_ones.contains(
                k,
            ),
    ensures
        soundness::sound(refreshed(v, down)),
        truth::names(refreshed(v, down), q) == truth::names(v, p),
        v.metas[q as int].meta_quorum > 1 || q == p ==> steady(refreshed(v, down), q, history),
        q == p ==> refreshed(v, down).metas[p as int].next_seq == v.metas[p as int].next_seq,
        level(refreshed(v, down), history),
{
    lemma_steady_backed(v, p, history);
    let s = choose|s: Set<u32>| #[trigger]
        all_applied(v, s, history) && s.finite() && s.len() >= v.metas[p as int].meta_quorum && (
        all_up(v, s) || level(v, history));
    if forall|k: u32| #[trigger] s.contains(k) ==> lost_ones.contains(k) {
        vstd::set_lib::lemma_len_subset(s, lost_ones);
    }
    let i = choose|k: u32| #[trigger] s.contains(k) && !lost_ones.contains(k);
    law_namespace_survives_failover(v, p, history, down, q, i);
}

/// A file that was written is still there when fewer metadata nodes than a quorum are down: it
/// reads back with the hash of the written bytes, or as unavailable.
pub proof fn law_write_survives_losses(
    v: ClusterV,
    p: u32,
    history: Seq<MetaOpV>,
    at: Seq<char>,
    bytes: Seq<u8>,
    down: Set<NodeId>,
    q: u32,
    lost: Set<u32>,
)
    requires
        soundness::sound(v),
        steady(v, p, history),
        v.written(at, bytes).1 is Ok,
        refreshed(v.written(at, bytes).0, down).primary() == Some(q),
        lost.finite(),
        lost.len() < v.written(at, bytes).0.metas[p as int].meta_quorum,
        forall|k: u32| down.contains(NodeId::Meta(k)) ==> #[trigger] lost.contains(k),
        v.written(at, bytes).0.metas[q as int].meta_quorum > 1 || q == p,
    ensures
        refreshed(v.written(at, bytes).0, down).read(at).1 matches Ok(got) ==> hash::digest(got)
            == hash::digest(bytes),
        refreshed(v.written(at, bytes).0, down).read(at).1 matches Err(e) ==> e is MetadataUnavailable
            || e is ChunkUnavailable || e is IntegrityError,
{
    let op = MetaOpV::Put { path: at, manifest: truth::manifest_for(v, bytes) };
    truth::law_writes_take_effect(v, p, at, bytes);
    durability::law_file_operations_keep_sound(v, at, at, bytes);
    law_written_is_replicated(v, p, history, at, bytes);
    let w = v.written(at, bytes).0;
    law_namespace_survives_losses(w, p, history.push(op), down, q, lost);
    truth::law_reads_are_true(refreshed(w, down), q, at);
    assert(!truth::names(v, p).dirs.contains(at));
}

/// Faults of storage nodes and partitions keep a steady cluster steady.
pub proof fn law_storage_faults_keep_history(
    v: ClusterV,
    p: u32,
    history: Seq<MetaOpV>,
    i: u32,
    storage_idxs: Seq<u32>,
)
    requires
        steady(v, p, history),
    ensures
        steady(v.with_net(v.net.crashed(NodeId::Storage(i))), p, history),
        steady(v.with_net(v.net.recovered(NodeId::Storage(i))), p, history),
        steady(v.split(storage_idxs), p, history),
        steady(v.with_net(v.net.healed()), p, history),
{
    lemma_steady_topology(v, v.with_net(v.net.crashed(NodeId::Storage(i))), p, history);
    lemma_steady_topology(v, v.with_net(v.net.recovered(NodeId::Storage(i))), p, history);
    lemma_steady_topology(v, v.split(storage_idxs), p, history);
    lemma_steady_topology(v, v.with_net(v.net.healed()), p, history);
}

proof fn lemma_steady_topology(v: ClusterV, w: ClusterV, p: u32, history: Seq<MetaOpV>)
    requires
        steady(v, p, history),
        w.opts == v.opts,
        w.metas == v.metas,
        forall|k: u32| w.net.down.contains(NodeId::Meta(k)) == v.net.down.contains(
            NodeId::Meta(k),
        ),
        w.net.queue == v.net.queue,
    ensures
        steady(w, p, history),
{
    let f = |k: u32| !v.net.down.contains(NodeId::Meta(k));
    let g = |k: u32| !w.net.down.contains(NodeId::Meta(k));
    assert(f =~= g);
    lemma_mirrored_same(v, w, p, history);
}

/// A fresh cluster is steady, with an empty history.
pub proof fn law_fresh_cluster_is_steady(opts: Options, seed: u64)
    requires
        opts.wf(),
        0 < opts.meta_count,
        opts.meta_quorum <= opts.meta_count,
    ensures
        steady(cluster::unsettled(opts, seed).settled(), 0, seq![]),
        truth::names(cluster::unsettled(opts, seed).settled(), 0) == NsV::fresh(),
{
    let u = cluster::unsettled(opts, seed);
    let w = u.settled();
    simulation::lemma_live(u);
    truth::lemma_primary_stays(u, w);
    let live = u.live_meta();
    assert(live.contains(0));
    let at = choose|j: int| 0 <= j < live.len() && live[j] == 0;
    assert(live[0] == 0);
    lemma_first_is_most_current(u.metas, live, live.len());
    let all = Set::new(|i: u32| i < opts.meta_count as nat);
    lemma_upto(opts.meta_count);
    assert(all_applied(w, all, seq![]));
    let h: Seq<MetaOpV> = seq![];
    assert(h.take(0) =~= h);
    assert forall|k: int| 0 <= k < w.metas.len() implies mirrors(#[trigger] w.metas[k], h) by {}
}

/// There are as many numbers below `n` as `n` says.
pub proof fn lemma_upto(n: u32)
    ensures
        Set::new(|i: u32| i < n as nat).finite(),
        Set::new(|i: u32| i < n as nat).len() == n,
    decreases n,
{
    let all = Set::new(|i: u32| i < n as nat);
    if n == 0 {
        assert(all =~= Set::empty());
    } else {
        let m = (n - 1) as u32;
        lemma_upto(m);
        let less = Set::new(|i: u32| i < m as nat);
        assert(all =~= less.insert(m));
    }
}

} // verus!

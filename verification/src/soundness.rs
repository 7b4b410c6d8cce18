//! What holds of a cluster at all times: storage nodes hold only bytes that match their ids,
//! acknowledgements are true, correlation ids are fresh, and messages come in order.

use crate::cluster;
use crate::hash;
use crate::message::{MessageV, MetaOpV, NodeId};
use crate::metadata::{self, MetaV};
use crate::net::{self, Flight};
use crate::options::Options;
use crate::ordmap;
use crate::simulation::{self, ClusterV};
use crate::storagenode::{self, StorageV};
use crate::wire;
use vstd::prelude::*;

verus! {

/// The correlation id of a message, if it has one.
pub open spec fn req_of(msg: MessageV) -> Option<u64> {
    match msg {
        MessageV::MetaOpMsg { req_id, .. } => Some(req_id),
        MessageV::MetaCommitted { req_id, .. } => Some(req_id),
        MessageV::MetaQueryMsg { req_id, .. } => Some(req_id),
        MessageV::MetaQueryResp { req_id, .. } => Some(req_id),
        _ => None,
    }
}

/// Whether a storage node holds a chunk.
pub open spec fn holds(storages: Seq<StorageV>, i: u32, id: Seq<u8>) -> bool {
    i < storages.len() && storages[i as int].store.dom().contains(id)
}

/// Whether what a message says is true: an acknowledged chunk is held by its sender, a reported
/// one by the node that the report is about, and shipped bytes match their id and are held by
/// their sender.
pub open spec fn honest(storages: Seq<StorageV>, from: NodeId, msg: MessageV) -> bool {
    match msg {
        MessageV::StoreAck { id } => from matches NodeId::Storage(i) && holds(storages, i, id),
        MessageV::ChunkData { id, data: Some(d) } => hash::digest(d) == id && (
        from matches NodeId::Storage(i) && holds(storages, i, id)),
        MessageV::Heartbeat { node, chunks } => forall|id: Seq<u8>| #[trigger]
            chunks.contains(id) ==> holds(storages, node, id),
        _ => true,
    }
}

/// Whether every node that a metadata node knows to hold a chunk does.
pub open spec fn well_informed(storages: Seq<StorageV>, m: MetaV) -> bool {
    forall|id: Seq<u8>, i: u32| #[trigger]
        metadata::holding(m.holders, id).contains(i) ==> holds(storages, i, id)
}

/// Whether a message's correlation id was given out before `next_req`.
pub open spec fn given_out(msg: MessageV, next_req: u64) -> bool {
    req_of(msg) matches Some(r) ==> r < next_req
}

/// Whether a metadata node's books are in order.
pub open spec fn meta_sound(m: MetaV, next_req: u64) -> bool {
    &&& m.buffer.dom().finite()
    &&& m.ns.files.dom().finite()
    &&& m.ns.dirs.finite()
    &&& forall|s: u64| #[trigger]
        m.pending.dom().contains(s) ==> m.pending[s].req_id < next_req
            && m.pending[s].acks.finite()
}

/// Whether a metadata node knows its peers and the quorum.
pub open spec fn configured(m: MetaV, opts: Options) -> bool {
    m.peers == simulation::indices(opts.meta_count) && m.meta_quorum == opts.meta_quorum
}

/// A partition, if there is one, gives every node of the cluster a side.
pub open spec fn sided(partition: Map<NodeId, u8>, opts: Options) -> bool {
    partition.dom() =~= Set::empty() || {
        &&& partition.dom().contains(NodeId::Client)
        &&& forall|i: u32| i < opts.node_count ==> #[trigger] partition.dom().contains(
            NodeId::Storage(i),
        )
        &&& forall|i: u32| i < opts.meta_count ==> #[trigger] partition.dom().contains(
            NodeId::Meta(i),
        )
    }
}

/// What holds of a cluster at all times.
pub open spec fn sound(v: ClusterV) -> bool {
    &&& v.wf()
    &&& v.net.ordered()
    &&& sided(v.net.partition, v.opts)
    &&& forall|i: int| 0 <= i < v.storages.len() ==> (#[trigger] v.storages[i]).sound()
    &&& forall|i: int|
        0 <= i < v.metas.len() ==> meta_sound(#[trigger] v.metas[i], v.next_req)
            && well_informed(v.storages, v.metas[i]) && configured(v.metas[i], v.opts)
    &&& forall|i: int|
        0 <= i < v.net.queue.len() ==> {
            &&& honest(
                v.storages,
                (#[trigger] v.net.queue[i]).env.from,
                v.net.queue[i].env.msg,
            )
            &&& given_out(v.net.queue[i].env.msg, v.next_req)
            &&& v.net.queue[i].time >= v.net.clock
        }
    &&& forall|i: int|
        0 <= i < v.inbox.len() ==> honest(
            v.storages,
            (#[trigger] v.inbox[i]).from,
            v.inbox[i].msg,
        ) && given_out(v.inbox[i].msg, v.next_req)
}

/// Whether `w` can come after `v` without a change of topology: no held chunk is lost, and
/// time, sequence numbers and correlation ids do not run backwards.
pub open spec fn extends(v: ClusterV, w: ClusterV) -> bool {
    &&& w.opts == v.opts
    &&& w.net.down == v.net.down
    &&& w.net.partition == v.net.partition
    &&& w.net.params == v.net.params
    &&& w.net.reliable == v.net.reliable
    &&& w.net.clock >= v.net.clock
    &&& w.net.seq >= v.net.seq
    &&& w.next_req >= v.next_req
    &&& w.storages.len() == v.storages.len()
    &&& w.metas.len() == v.metas.len()
    &&& forall|i: u32, id: Seq<u8>| #[trigger]
        holds(v.storages, i, id) ==> holds(w.storages, i, id)
}

/// Sending an honest message keeps the cluster sound.
pub proof fn lemma_sent_sound(v: ClusterV, env: wire::Envelope)
    requires
        sound(v),
        honest(v.storages, env.from, env.msg),
        given_out(env.msg, v.next_req),
    ensures
        sound(v.with_net(v.net.sent(env))),
        extends(v, v.with_net(v.net.sent(env))),
{
    let w = v.with_net(v.net.sent(env));
    net::law_delivery_order_is_kept(v.net, env);
    if !v.net.loses(env) {
        let f = Flight {
            time: net::later(v.net.clock as nat, v.net.latency()),
            seq: v.net.seq,
            env,
        };
        let at = net::lemma_enqueued_split(v.net.queue, f);
        assert forall|i: int| 0 <= i < w.net.queue.len() implies {
            &&& honest(
                w.storages,
                (#[trigger] w.net.queue[i]).env.from,
                w.net.queue[i].env.msg,
            )
            &&& given_out(w.net.queue[i].env.msg, w.next_req)
            &&& w.net.queue[i].time >= w.net.clock
        } by {
            if i < at {
                assert(w.net.queue[i] == v.net.queue[i]);
            } else if i > at {
                assert(w.net.queue[i] == v.net.queue[i - 1]);
            } else {
                assert(w.net.queue[i] == f);
            }
        }
    }
}

/// Sending honest messages keeps the cluster sound.
pub proof fn lemma_sent_all_sound(v: ClusterV, out: Seq<wire::Envelope>)
    requires
        sound(v),
        forall|i: int|
            0 <= i < out.len() ==> honest(v.storages, (#[trigger] out[i]).from, out[i].msg)
                && given_out(out[i].msg, v.next_req),
    ensures
        sound(v.with_net(v.net.sent_all(out))),
        extends(v, v.with_net(v.net.sent_all(out))),
    decreases out.len(),
{
    if out.len() == 0 {
        assert(v.with_net(v.net.sent_all(out)) =~= v);
    } else {
        let front = out.drop_last();
        assert forall|i: int| 0 <= i < front.len() implies honest(
            v.storages,
            (#[trigger] front[i]).from,
            front[i].msg,
        ) && given_out(front[i].msg, v.next_req) by {
            assert(front[i] == out[i]);
        }
        lemma_sent_all_sound(v, front);
        let w = v.with_net(v.net.sent_all(front));
        let last = out[out.len() - 1];
        assert(out.last() == last);
        lemma_sent_sound(w, last);
        assert(w.with_net(w.net.sent(last)) =~= v.with_net(v.net.sent_all(out)));
    }
}

/// Honest messages stay honest while stores only grow.
proof fn lemma_honest_grows(a: Seq<StorageV>, b: Seq<StorageV>, from: NodeId, msg: MessageV)
    requires
        honest(a, from, msg),
        forall|i: u32, id: Seq<u8>| #[trigger] holds(a, i, id) ==> holds(b, i, id),
    ensures
        honest(b, from, msg),
{
}

/// What a metadata node sends is fresh, and its books stay in order.
proof fn lemma_handled_sound(m: MetaV, from: NodeId, msg: MessageV, next_req: u64)
    requires
        meta_sound(m, next_req),
        given_out(msg, next_req),
    ensures
        meta_sound(m.handled(from, msg).0, next_req),
        m.handled(from, msg).0.idx == m.idx,
        m.handled(from, msg).0.peers == m.peers,
        m.handled(from, msg).0.meta_quorum == m.meta_quorum,
        forall|i: int|
            0 <= i < m.handled(from, msg).1.len() ==> {
                let e = #[trigger] m.handled(from, msg).1[i];
                &&& given_out(e.msg, next_req)
                &&& !(e.msg is StoreAck)
                &&& !(e.msg is ChunkData)
                &&& !(e.msg is Heartbeat)
            },
{
    match msg {
        MessageV::MetaOpMsg { req_id, op } => {
            lemma_applied_finite(m.ns, op);
            lemma_replication_kind(m.idx, m.peers, m.next_seq, op, m.peers.len());
        },
        MessageV::MetaReplicate { seq, op } => {
            let w = MetaV { buffer: m.buffer.insert(seq, op), ..m };
            metadata::lemma_caught_up(w);
            lemma_caught_up_finite(w);
        },
        MessageV::MetaReplicateAck { seq } => {
            if m.pending.dom().contains(seq) {
                lemma_applied_finite(m.ns, m.pending[seq].op);
            }
        },
        MessageV::Heartbeat { node, chunks } => {
            let w = MetaV { holders: metadata::reported(m.holders, node, chunks), ..m };
            if w.is_primary {
                let ids = ordmap::in_order::<crate::hash::Hash>(metadata::referenced(w.ns.files));
                lemma_orders_kind(w, ids, ids.len());
            }
        },
        _ => {},
    }
}

/// A metadata node that gets true reports stays well informed.
proof fn lemma_stays_informed(storages: Seq<StorageV>, m: MetaV, from: NodeId, msg: MessageV)
    requires
        m.buffer.dom().finite(),
        well_informed(storages, m),
        honest(storages, from, msg),
    ensures
        well_informed(storages, m.handled(from, msg).0),
{
    match msg {
        MessageV::MetaReplicate { seq, op } => {
            metadata::lemma_caught_up(MetaV { buffer: m.buffer.insert(seq, op), ..m });
        },
        MessageV::Heartbeat { node, chunks } => {
            let w = m.handled(from, msg).0;
            assert forall|id: Seq<u8>, i: u32| #[trigger]
                metadata::holding(w.holders, id).contains(i) implies holds(storages, i, id) by {
                assert(metadata::holding(m.holders, id).contains(i) || chunks.contains(id));
            }
        },
        _ => {},
    }
}

/// A plan holds nothing but copy orders to storage nodes.
pub proof fn lemma_orders_kind(m: MetaV, ids: Seq<Seq<u8>>, n: nat)
    ensures
        forall|i: int|
            0 <= i < m.orders_for(ids, n).len() ==> (#[trigger] m.orders_for(ids, n)[i]).msg
                is ReplicateOrder && m.orders_for(ids, n)[i].to is Storage && m.orders_for(
                ids,
                n,
            )[i].from == NodeId::Meta(m.idx),
    decreases n,
{
    if n > 0 {
        lemma_orders_kind(m, ids, (n - 1) as nat);
        let a = m.orders_for(ids, (n - 1) as nat);
        let b = m.orders(ids[n - 1]);
        assert forall|i: int| 0 <= i < (a + b).len() implies (#[trigger] (a + b)[i]).msg
            is ReplicateOrder && (a + b)[i].to is Storage && (a + b)[i].from == NodeId::Meta(
            m.idx,
        ) by {
            if i < a.len() {
                assert((a + b)[i] == a[i]);
            } else {
                assert((a + b)[i] == b[i - a.len()]);
            }
        }
    }
}

/// What a submitted operation is replicated with.
pub proof fn lemma_replication_kind(idx: u32, peers: Seq<u32>, seq: u64, op: MetaOpV, n: nat)
    ensures
        forall|i: int|
            0 <= i < metadata::replication(idx, peers, seq, op, n).len() ==> {
                let e = #[trigger] metadata::replication(idx, peers, seq, op, n)[i];
                &&& e.msg == MessageV::MetaReplicate { seq, op }
                &&& e.from == NodeId::Meta(idx)
                &&& e.to != NodeId::Meta(idx)
                &&& e.to is Meta
            },
    decreases n,
{
    if n > 0 {
        lemma_replication_kind(idx, peers, seq, op, (n - 1) as nat);
    }
}

/// Applying an operation keeps the namespace finite.
pub proof fn lemma_applied_finite(ns: crate::namespace::NsV, op: MetaOpV)
    requires
        ns.files.dom().finite(),
        ns.dirs.finite(),
    ensures
        ns.applied(op).files.dom().finite(),
        ns.applied(op).dirs.finite(),
{
    if let MetaOpV::Rename { from, to } = op {
        crate::tree::lemma_renamed_finite(ns, from, to);
    }
}

proof fn lemma_caught_up_finite(m: MetaV)
    requires
        m.buffer.dom().finite(),
        m.ns.files.dom().finite(),
        m.ns.dirs.finite(),
    ensures
        m.caught_up().0.ns.files.dom().finite(),
        m.caught_up().0.ns.dirs.finite(),
    decreases m.buffer.dom().len(),
{
    if m.buffer.dom().contains(m.applied_seq) && m.applied_seq < u64::MAX {
        let s = m.applied_seq;
        let next = MetaV {
            buffer: m.buffer.remove(s),
            applied_seq: (s + 1) as u64,
            ..m.logged(s, m.buffer[s])
        };
        lemma_applied_finite(m.ns, m.buffer[s]);
        lemma_caught_up_finite(next);
    }
}

/// The cluster stays sound when a queued message is taken off and handed to its receiver,
/// and the receiver's replies are honest.
proof fn lemma_delivered_sound(v: ClusterV, env: wire::Envelope)
    requires
        sound(v),
        honest(v.storages, env.from, env.msg),
        given_out(env.msg, v.next_req),
    ensures
        sound(v.delivered(env).0),
        extends(v, v.delivered(env).0),
        v.delivered(env).0.net == v.net,
        v.delivered(env).0.next_req == v.next_req,
        forall|i: int|
            0 <= i < v.delivered(env).1.len() ==> honest(
                v.delivered(env).0.storages,
                (#[trigger] v.delivered(env).1[i]).from,
                v.delivered(env).1[i].msg,
            ) && given_out(v.delivered(env).1[i].msg, v.next_req),
{
    let (w, out) = v.delivered(env);
    match env.to {
        NodeId::Client => {
            assert forall|i: int| 0 <= i < w.inbox.len() implies honest(
                w.storages,
                (#[trigger] w.inbox[i]).from,
                w.inbox[i].msg,
            ) && given_out(w.inbox[i].msg, w.next_req) by {
                if i < v.inbox.len() {
                    assert(w.inbox[i] == v.inbox[i]);
                }
            }
        },
        NodeId::Storage(k) => {
            if k < v.storages.len() {
                let n = v.storages[k as int];
                storagenode::law_store_stays_sound(n, env.msg);
                assert forall|i: u32, id: Seq<u8>| #[trigger]
                    holds(v.storages, i, id) implies holds(w.storages, i, id) by {
                    if i == k {
                        assert(n.store.dom().contains(id));
                    }
                }
                assert forall|i: int| 0 <= i < w.net.queue.len() implies {
                    &&& honest(
                        w.storages,
                        (#[trigger] w.net.queue[i]).env.from,
                        w.net.queue[i].env.msg,
                    )
                    &&& given_out(w.net.queue[i].env.msg, w.next_req)
                    &&& w.net.queue[i].time >= w.net.clock
                } by {
                    lemma_honest_grows(
                        v.storages,
                        w.storages,
                        v.net.queue[i].env.from,
                        v.net.queue[i].env.msg,
                    );
                }
                assert forall|i: int| 0 <= i < w.inbox.len() implies honest(
                    w.storages,
                    (#[trigger] w.inbox[i]).from,
                    w.inbox[i].msg,
                ) && given_out(w.inbox[i].msg, w.next_req) by {
                    lemma_honest_grows(
                        v.storages,
                        w.storages,
                        v.inbox[i].from,
                        v.inbox[i].msg,
                    );
                }
                assert forall|i: int| 0 <= i < out.len() implies honest(
                    w.storages,
                    (#[trigger] out[i]).from,
                    out[i].msg,
                ) && given_out(out[i].msg, v.next_req) by {
                    assert(out[i].from == NodeId::Storage(n.idx));
                }
                assert forall|i: int| 0 <= i < w.metas.len() implies meta_sound(
                    #[trigger] w.metas[i],
                    w.next_req,
                ) && well_informed(w.storages, w.metas[i]) && configured(w.metas[i], w.opts) by {
                    assert(well_informed(v.storages, v.metas[i]));
                }
            }
        },
        NodeId::Meta(k) => {
            if k < v.metas.len() {
                lemma_handled_sound(v.metas[k as int], env.from, env.msg, v.next_req);
                lemma_stays_informed(v.storages, v.metas[k as int], env.from, env.msg);
                assert forall|i: int| 0 <= i < out.len() implies honest(
                    w.storages,
                    (#[trigger] out[i]).from,
                    out[i].msg,
                ) && given_out(out[i].msg, v.next_req) by {}
            }
        },
    }
}

/// A delivery keeps the cluster sound and loses no chunk.
pub proof fn lemma_pumped_sound(v: ClusterV)
    requires
        sound(v),
    ensures
        sound(v.pumped().0),
        extends(v, v.pumped().0),
        v.pumped().0.next_req == v.next_req,
{
    let at = net::law_step(v.net);
    net::law_delivery_order_is_kept(
        v.net,
        wire::Envelope {
            from: NodeId::Client,
            to: NodeId::Client,
            msg: MessageV::MetaReplicateAck { seq: 0 },
        },
    );
    let (n, d) = v.net.stepped();
    let w = v.with_net(n);
    assert(sound(w)) by {
        assert forall|i: int| 0 <= i < n.queue.len() implies {
            &&& honest(v.storages, (#[trigger] n.queue[i]).env.from, n.queue[i].env.msg)
            &&& given_out(n.queue[i].env.msg, v.next_req)
            &&& n.queue[i].time >= n.clock
        } by {
            assert(n.queue[i] == v.net.queue[at + 1 + i]);
            assert(net::due_before(v.net.queue[at], v.net.queue[at + 1 + i]));
        }
    }
    if let Some(env) = d {
        assert(env == v.net.queue[at].env);
        lemma_delivered_sound(w, env);
        let (x, out) = w.delivered(env);
        lemma_sent_all_sound(x, out);
    }
}

/// Emptying the inbox keeps the cluster sound.
pub proof fn lemma_inbox_taken_sound(v: ClusterV)
    requires
        sound(v),
    ensures
        sound(v.inbox_taken()),
        extends(v, v.inbox_taken()),
{
}

/// What comes after what comes after comes after.
pub proof fn lemma_extends_transitive(a: ClusterV, b: ClusterV, c: ClusterV)
    requires
        extends(a, b),
        extends(b, c),
    ensures
        extends(a, c),
{
    assert forall|i: u32, id: Seq<u8>| #[trigger] holds(a.storages, i, id) implies holds(
        c.storages,
        i,
        id,
    ) by {
        assert(holds(b.storages, i, id));
    }
}

/// A fresh cluster is sound.
pub proof fn law_fresh_cluster_is_sound(opts: Options, seed: u64)
    requires
        opts.wf(),
    ensures
        sound(cluster::unsettled(opts, seed)),
        sound(cluster::unsettled(opts, seed).settled()),
{
    let v = cluster::unsettled(opts, seed);
    assert(v.wf());
    law_settling_keeps_sound(v);
}

/// Settling the metadata roles keeps the cluster sound.
pub proof fn law_settling_keeps_sound(v: ClusterV)
    requires
        sound(v),
    ensures
        sound(v.settled()),
        extends(v, v.settled()),
{
    simulation::lemma_settled_wf(v);
    simulation::lemma_live(v);
    let w = v.settled();
    let live = v.live_meta();
    if live.len() > 0 {
        simulation::lemma_most_current(v.metas, live, live.len());
        let metas = v.reconciled();
        let p = live[0] as int;
        let b = simulation::most_current(v.metas, live, live.len()) as int;
        assert(meta_sound(v.metas[p], v.next_req));
        assert(meta_sound(v.metas[b], v.next_req));
        assert(meta_sound(metas[p], v.next_req));
        assert forall|i: int| 0 <= i < w.metas.len() implies meta_sound(
            #[trigger] w.metas[i],
            w.next_req,
        ) by {
            assert(meta_sound(v.metas[i], v.next_req));
            assert(i != p ==> metas[i] == v.metas[i]);
        }
    }
}

/// Crashes, recoveries, partitions and their healing keep the cluster sound, and with it
/// every chunk that is held.
pub proof fn law_faults_keep_sound(v: ClusterV, node: NodeId, storage_idxs: Seq<u32>)
    requires
        sound(v),
    ensures
        sound(v.with_net(v.net.crashed(node))),
        sound(v.with_net(v.net.recovered(node))),
        sound(v.split(storage_idxs)),
        sound(v.with_net(v.net.healed())),
        v.with_net(v.net.crashed(node)).storages == v.storages,
        v.with_net(v.net.recovered(node)).storages == v.storages,
        v.split(storage_idxs).storages == v.storages,
        v.with_net(v.net.healed()).storages == v.storages,
{
    let w = v.split(storage_idxs);
    let all = v.everyone();
    let n = v.opts.node_count as int;
    assert(all[0] == NodeId::Client);
    assert forall|i: u32| i < v.opts.node_count implies #[trigger] w.net.partition.dom().contains(
        NodeId::Storage(i),
    ) by {
        assert(all[1 + i] == NodeId::Storage(i));
    }
    assert forall|i: u32| i < v.opts.meta_count implies #[trigger] w.net.partition.dom().contains(
        NodeId::Meta(i),
    ) by {
        assert(all[1 + n + i] == NodeId::Meta(i));
    }
}

} // verus!

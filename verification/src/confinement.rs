//! Where chunks do not go: operations bring a chunk to no node that it does not belong on.

use crate::census;
use crate::chunk::ManifestV;
use crate::dispatch;
use crate::hash;
use crate::message::{MessageV, MetaOpV, NodeId, QueryV};
use crate::metadata::MetaV;
use crate::ordmap;
use crate::path;
use crate::placement;
use crate::protocol::{self, Gathered};
use crate::roles;
use crate::simulation::{self, ClusterV};
use crate::storagenode::StorageV;
use crate::truth;
use crate::wire;
use vstd::prelude::*;

verus! {

/// Whether a message brings a chunk to none but some nodes: it hands it to one of them, orders that
/// it be shipped to one of them, or is about something else. A report of what a node holds, which
/// would bring orders, is no such message.
pub open spec fn keeps_to(id: Seq<u8>, at: Set<u32>) -> spec_fn(wire::Envelope) -> bool {
    |x: wire::Envelope|
        match x.msg {
            MessageV::StoreChunk { id: c, .. } => c == id ==> (x.to matches NodeId::Storage(n)
                ==> at.contains(n)),
            MessageV::Replicate { id: c, .. } => c == id ==> (x.to matches NodeId::Storage(n)
                ==> at.contains(n)),
            MessageV::ReplicateOrder { id: c, dest } => c == id ==> at.contains(dest),
            MessageV::Heartbeat { .. } => false,
            _ => true,
        }
}

/// Whether none but some nodes hold a chunk.
pub open spec fn held_within(v: ClusterV, id: Seq<u8>, at: Set<u32>) -> bool {
    forall|i: int|
        0 <= i < v.storages.len() && (#[trigger] v.storages[i]).store.dom().contains(id)
            ==> at.contains(i as u32)
}

/// Whether none but some nodes hold a chunk, nor will by what is in flight.
pub open spec fn confined(v: ClusterV, id: Seq<u8>, at: Set<u32>) -> bool {
    held_within(v, id, at) && simulation::every(v.net.queue, keeps_to(id, at))
}

proof fn lemma_storage_confined(
    n: StorageV,
    env: wire::Envelope,
    id: Seq<u8>,
    at: Set<u32>,
)
    requires
        env.to == NodeId::Storage(n.idx),
        keeps_to(id, at)(env),
    ensures
        n.after(env.msg).store.dom().contains(id) ==> n.store.dom().contains(id) || at.contains(
            n.idx,
        ),
        forall|i: int|
            0 <= i < n.replies(env.from, env.msg).len() ==> keeps_to(id, at)(
                #[trigger] n.replies(env.from, env.msg)[i],
            ),
{
}

proof fn lemma_meta_confined(m: MetaV, env: wire::Envelope, id: Seq<u8>, at: Set<u32>)
    requires
        m.buffer.dom().finite(),
        keeps_to(id, at)(env),
    ensures
        forall|i: int|
            0 <= i < m.handled(env.from, env.msg).1.len() ==> keeps_to(id, at)(
                #[trigger] m.handled(env.from, env.msg).1[i],
            ),
{
    let out = m.handled(env.from, env.msg).1;
    assert forall|i: int| 0 <= i < out.len() implies keeps_to(id, at)(#[trigger] out[i]) by {
        match env.msg {
            MessageV::MetaOpMsg { req_id, op } => {
                if m.next_seq < u64::MAX {
                    roles::law_primary_takes_operations(m, env.from, req_id, op, out[i]);
                    assert(out.contains(out[i]));
                }
            },
            MessageV::MetaReplicate { seq, op } => {
                roles::law_backup_applies_in_sequence(m, env.from, seq, op);
            },
            _ => {},
        }
    }
}

proof fn lemma_pumped_confined(v: ClusterV, id: Seq<u8>, at: Set<u32>)
    requires
        v.wf(),
        confined(v, id, at),
    ensures
        v.pumped().0.wf(),
        confined(v.pumped().0, id, at),
        v.pumped().0.opts == v.opts,
{
    simulation::lemma_pumped_wf(v);
    simulation::lemma_stepped_every(v.net, keeps_to(id, at));
    let (n, d) = v.net.stepped();
    if let Some(env) = d {
        let u = v.with_net(n);
        let (w, out) = u.delivered(env);
        match env.to {
            NodeId::Client => {},
            NodeId::Storage(i) => {
                if i < v.storages.len() {
                    lemma_storage_confined(v.storages[i as int], env, id, at);
                }
            },
            NodeId::Meta(i) => {
                if i < v.metas.len() {
                    lemma_meta_confined(v.metas[i as int], env, id, at);
                }
            },
        }
        assert forall|i: int| 0 <= i < out.len() implies keeps_to(id, at)(#[trigger] out[i]) by {}
        simulation::lemma_sent_all_every(w.net, out, keeps_to(id, at));
        assert forall|i: int|
            0 <= i < w.storages.len() && (#[trigger] w.storages[i]).store.dom().contains(
                id,
            ) implies at.contains(i as u32) by {
            if env.to == NodeId::Storage(i as u32) {
                assert(w.storages[i] == v.storages[i].after(env.msg));
            } else {
                assert(w.storages[i] == v.storages[i]);
            }
        }
    }
}

proof fn lemma_sent_confined(v: ClusterV, out: Seq<wire::Envelope>, id: Seq<u8>, at: Set<u32>)
    requires
        v.wf(),
        confined(v, id, at),
        forall|i: int| 0 <= i < out.len() ==> keeps_to(id, at)(#[trigger] out[i]),
    ensures
        v.sent_all(out).wf(),
        confined(v.sent_all(out), id, at),
{
    simulation::lemma_sent_all_every(v.net, out, keeps_to(id, at));
    let w = v.sent_all(out);
    assert forall|i: int|
        0 <= i < w.storages.len() && (#[trigger] w.storages[i]).store.dom().contains(
            id,
        ) implies at.contains(i as u32) by {
        assert(w.storages[i] == v.storages[i]);
    }
}

proof fn lemma_taken_confined(v: ClusterV, id: Seq<u8>, at: Set<u32>)
    requires
        v.wf(),
        confined(v, id, at),
    ensures
        v.inbox_taken().wf(),
        confined(v.inbox_taken(), id, at),
{
    let w = v.inbox_taken();
    assert forall|i: int|
        0 <= i < w.storages.len() && (#[trigger] w.storages[i]).store.dom().contains(
            id,
        ) implies at.contains(i as u32) by {
        assert(w.storages[i] == v.storages[i]);
    }
}

proof fn lemma_commit_confined(v: ClusterV, req: u64, deadline: u64, id: Seq<u8>, at: Set<u32>)
    requires
        v.wf(),
        confined(v, id, at),
    ensures
        v.commit_awaited(req, deadline).0.wf(),
        confined(v.commit_awaited(req, deadline).0, id, at),
    decreases u64::MAX - v.net.seq, v.net.queue.len(),
{
    let t = v.inbox_taken();
    lemma_taken_confined(v, id, at);
    lemma_pumped_confined(t, id, at);
    simulation::lemma_pump_progress(t);
    if protocol::commit_among(v.inbox, req, v.inbox.len()) is None && t.net.clock < deadline
        && t.pumped().1 {
        lemma_commit_confined(t.pumped().0, req, deadline, id, at);
    }
}

proof fn lemma_answer_confined(v: ClusterV, req: u64, deadline: u64, id: Seq<u8>, at: Set<u32>)
    requires
        v.wf(),
        confined(v, id, at),
    ensures
        v.answer_awaited(req, deadline).0.wf(),
        confined(v.answer_awaited(req, deadline).0, id, at),
    decreases u64::MAX - v.net.seq, v.net.queue.len(),
{
    let t = v.inbox_taken();
    lemma_taken_confined(v, id, at);
    lemma_pumped_confined(t, id, at);
    simulation::lemma_pump_progress(t);
    if protocol::answer_among(v.inbox, req, v.inbox.len()) is None && t.net.clock < deadline
        && t.pumped().1 {
        lemma_answer_confined(t.pumped().0, req, deadline, id, at);
    }
}

proof fn lemma_acks_confined(
    v: ClusterV,
    acks: Map<Seq<u8>, Set<u32>>,
    ids: Seq<Seq<u8>>,
    quorum: nat,
    deadline: u64,
    id: Seq<u8>,
    at: Set<u32>,
)
    requires
        v.wf(),
        confined(v, id, at),
    ensures
        v.acks_awaited(acks, ids, quorum, deadline).0.wf(),
        confined(v.acks_awaited(acks, ids, quorum, deadline).0, id, at),
    decreases u64::MAX - v.net.seq, v.net.queue.len(),
{
    let t = v.inbox_taken();
    let now = protocol::acks_after(acks, v.inbox, v.inbox.len());
    lemma_taken_confined(v, id, at);
    lemma_pumped_confined(t, id, at);
    simulation::lemma_pump_progress(t);
    if !protocol::quorum_met(now, ids, quorum) && t.net.clock < deadline && t.pumped().1 {
        lemma_acks_confined(t.pumped().0, now, ids, quorum, deadline, id, at);
    }
}

proof fn lemma_gather_confined(
    v: ClusterV,
    g: Gathered,
    ids: Seq<Seq<u8>>,
    quorum: nat,
    deadline: u64,
    id: Seq<u8>,
    at: Set<u32>,
)
    requires
        v.wf(),
        confined(v, id, at),
    ensures
        v.chunks_gathered(g, ids, quorum, deadline).0.wf(),
        confined(v.chunks_gathered(g, ids, quorum, deadline).0, id, at),
    decreases u64::MAX - v.net.seq, v.net.queue.len(),
{
    let t = v.inbox_taken();
    let now = g.with_all(v.inbox, v.inbox.len());
    lemma_taken_confined(v, id, at);
    lemma_pumped_confined(t, id, at);
    simulation::lemma_pump_progress(t);
    if !now.enough_all(ids, quorum) && t.net.clock < deadline && t.pumped().1 {
        lemma_gather_confined(t.pumped().0, now, ids, quorum, deadline, id, at);
    }
}

proof fn lemma_asked_confined(v: ClusterV, p: u32, msg: MessageV, id: Seq<u8>, at: Set<u32>)
    requires
        v.wf(),
        confined(v, id, at),
        msg is MetaOpMsg || msg is MetaQueryMsg,
    ensures
        v.asked(p, msg).wf(),
        confined(v.asked(p, msg), id, at),
{
    let env = wire::Envelope { from: NodeId::Client, to: NodeId::Meta(p), msg };
    truth::lemma_sent_every(v.net, env, keeps_to(id, at));
    let w = v.asked(p, msg);
    assert forall|i: int|
        0 <= i < w.storages.len() && (#[trigger] w.storages[i]).store.dom().contains(
            id,
        ) implies at.contains(i as u32) by {
        assert(w.storages[i] == v.storages[i]);
    }
}

/// Operations on the namespace and queries bring a chunk to no node that it was not on or on its
/// way to.
pub proof fn law_metadata_moves_no_chunks(
    v: ClusterV,
    op: MetaOpV,
    q: QueryV,
    p: Seq<char>,
    id: Seq<u8>,
    at: Set<u32>,
)
    requires
        v.wf(),
        confined(v, id, at),
    ensures
        v.meta_applied(op, p).0.wf() && confined(v.meta_applied(op, p).0, id, at),
        v.meta_queried(q).0.wf() && confined(v.meta_queried(q).0, id, at),
{
    if !(v.primary() is None || v.next_req == u64::MAX) {
        let req = v.next_req;
        let l = v.primary()->Some_0;
        let a = MessageV::MetaOpMsg { req_id: req, op };
        let b = MessageV::MetaQueryMsg { req_id: req, q };
        lemma_asked_confined(v, l, a, id, at);
        lemma_asked_confined(v, l, b, id, at);
        lemma_commit_confined(v.asked(l, a), req, v.asked(l, a).deadline(), id, at);
        lemma_answer_confined(v.asked(l, b), req, v.asked(l, b).deadline(), id, at);
    }
}

/// A replicated write brings a chunk to none but the nodes that it is placed on, as many as the
/// replication factor says, and those that it was on or on its way to before.
pub proof fn law_write_goes_where_it_belongs(
    v: ClusterV,
    p: Seq<char>,
    bytes: Seq<u8>,
    id: Seq<u8>,
    at: Set<u32>,
)
    requires
        v.wf(),
        v.opts.erasure is None,
        confined(v, id, at),
        forall|n: u32| #[trigger]
            placement::placed(
                id,
                v.live_storage(),
                v.opts.replication_factor as nat,
            ).contains(n) ==> at.contains(n),
    ensures
        v.written(p, bytes).0.wf(),
        confined(v.written(p, bytes).0, id, at),
{
    let live = v.live_storage();
    let quorum = v.opts.write_quorum as nat;
    let r = v.opts.replication_factor as nat;
    if path::normal(p) && live.len() >= quorum {
        let chunks = crate::chunk::chunks_of(bytes, v.opts.chunk_size as nat);
        let data = protocol::distinct_chunks(chunks, chunks.len());
        let ids = ordmap::in_order::<hash::Hash>(data.dom());
        let msgs = protocol::store_msgs(data, ids, live, r, ids.len());
        assert forall|i: int| 0 <= i < msgs.len() implies keeps_to(id, at)(#[trigger] msgs[i]) by {
            let x = msgs[i];
            assert(msgs.contains(x));
            dispatch::law_what_a_write_sends(data, ids, live, r, ids.len(), x);
            let (k, node) = choose|k: int, node: u32|
                0 <= k < ids.len() && #[trigger] placement::placed(ids[k], live, r).contains(node)
                    && dispatch::hands(x, node, ids[k], data[ids[k]]);
            if ids[k] == id {
                assert(at.contains(node));
            }
        }
        let s = v.sent_all(msgs);
        lemma_sent_confined(v, msgs, id, at);
        let none = Map::<Seq<u8>, Set<u32>>::empty();
        lemma_acks_confined(s, none, ids, quorum, s.deadline(), id, at);
        let (w, short) = s.acks_awaited(none, ids, quorum, s.deadline());
        let op = MetaOpV::Put {
            path: p,
            manifest: crate::chunk::manifest_of(bytes, v.opts.chunk_size as nat),
        };
        law_metadata_moves_no_chunks(w, op, QueryV::Get { path: p }, p, id, at);
    }
}

/// A replicated read brings a chunk to none but the nodes that it belongs on, and those that it was
/// on or on its way to before.
pub proof fn law_read_repairs_where_it_belongs(
    v: ClusterV,
    m: ManifestV,
    id: Seq<u8>,
    at: Set<u32>,
)
    requires
        v.wf(),
        confined(v, id, at),
        forall|n: u32| #[trigger]
            placement::placed(
                id,
                v.live_storage(),
                v.opts.replication_factor as nat,
            ).contains(n) ==> at.contains(n),
    ensures
        v.read_replicated(m).0.wf(),
        confined(v.read_replicated(m).0, id, at),
{
    let ids = ordmap::in_order::<hash::Hash>(m.chunks.to_set());
    let quorum = v.opts.read_quorum as nat;
    let live = v.live_storage();
    let r = v.opts.replication_factor as nat;
    let msgs = protocol::fetch_msgs(ids, live, ids.len());
    assert forall|i: int| 0 <= i < msgs.len() implies keeps_to(id, at)(#[trigger] msgs[i]) by {
        let x = msgs[i];
        assert(msgs.contains(x));
        dispatch::law_what_a_read_asks(ids, live, ids.len(), x);
    }
    let s = v.sent_all(msgs);
    lemma_sent_confined(v, msgs, id, at);
    lemma_gather_confined(s, Gathered::nothing(), ids, quorum, s.deadline(), id, at);
    let (w, g) = v.fetched(ids, quorum);
    let more = protocol::repair_msgs(g, ids, live, r, ids.len());
    assert forall|i: int| 0 <= i < more.len() implies keeps_to(id, at)(#[trigger] more[i]) by {
        let x = more[i];
        assert(more.contains(x));
        dispatch::law_what_a_read_repairs(g, ids, live, r, ids.len(), x);
        let (k, node) = choose|k: int, node: u32|
            0 <= k < ids.len() && #[trigger] placement::placed(ids[k], live, r).contains(node)
                && crate::outcomes::is_noted(g.missing, ids[k], node) && dispatch::hands(
                x,
                node,
                ids[k],
                g.have[ids[k]],
            );
        if ids[k] == id {
            assert(at.contains(node));
        }
    }
    lemma_sent_confined(w, more, id, at);
}

/// After a replicated write on a network with nothing in flight, a chunk that no node held is held
/// by no more nodes than the replication factor says, and by none that is down.
pub proof fn law_write_makes_no_extra_copies(
    v: ClusterV,
    p: Seq<char>,
    bytes: Seq<u8>,
    id: Seq<u8>,
    i: int,
)
    requires
        v.wf(),
        v.opts.erasure is None,
        v.net.queue.len() == 0,
        forall|j: int|
            0 <= j < v.storages.len() ==> !(#[trigger] v.storages[j]).store.dom().contains(id),
        0 <= i < v.written(p, bytes).0.storages.len(),
        v.written(p, bytes).0.storages[i].store.dom().contains(id),
    ensures
        placement::placed(id, v.live_storage(), v.opts.replication_factor as nat).contains(i as u32),
        placement::placed(id, v.live_storage(), v.opts.replication_factor as nat).len()
            <= v.opts.replication_factor,
        census::is_up(v, i as u32),
{
    let at = placement::placed(
        id,
        v.live_storage(),
        v.opts.replication_factor as nat,
    );
    placement::law_placement(id, v.live_storage(), v.opts.replication_factor as nat);
    let set = at.to_set();
    assert forall|n: u32| #[trigger] at.contains(n) implies set.contains(n) by {}
    assert(confined(v, id, set));
    law_write_goes_where_it_belongs(v, p, bytes, id, set);
    assert(set.contains(i as u32));
    simulation::lemma_live(v);
    assert(v.live_storage().contains(i as u32));
}

} // verus!

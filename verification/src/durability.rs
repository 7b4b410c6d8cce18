//! What every operation keeps and what a successful write leaves behind: every operation
//! keeps the cluster sound and loses no chunk, and a write that succeeds has its chunks on a
//! quorum of nodes.

use crate::chunk::{self, ChunkV, ManifestV};
use crate::erasure::Erasure;
use crate::hash;
use crate::message::{MessageV, MetaOpV, NodeId, QueryResultV, QueryV};
use crate::ordmap;
use crate::placement;
use crate::protocol::{self, Gathered, Spread};
use crate::simulation::{self, ClusterV, Letter};
use crate::soundness;
use crate::wire;
use vstd::prelude::*;

verus! {

pub proof fn lemma_commit_awaited(v: ClusterV, req: u64, deadline: u64)
    requires
        soundness::sound(v),
    ensures
        soundness::sound(v.commit_awaited(req, deadline).0),
        soundness::extends(v, v.commit_awaited(req, deadline).0),
    decreases u64::MAX - v.net.seq, v.net.queue.len(),
{
    let w = v.inbox_taken();
    soundness::lemma_inbox_taken_sound(v);
    soundness::lemma_pumped_sound(w);
    simulation::lemma_pump_progress(w);
    let x = w.pumped().0;
    soundness::lemma_extends_transitive(v, w, x);
    if protocol::commit_among(v.inbox, req, v.inbox.len()) is None && w.net.clock < deadline
        && w.pumped().1 {
        lemma_commit_awaited(x, req, deadline);
        soundness::lemma_extends_transitive(v, x, v.commit_awaited(req, deadline).0);
    }
}

pub proof fn lemma_answer_awaited(v: ClusterV, req: u64, deadline: u64)
    requires
        soundness::sound(v),
    ensures
        soundness::sound(v.answer_awaited(req, deadline).0),
        soundness::extends(v, v.answer_awaited(req, deadline).0),
    decreases u64::MAX - v.net.seq, v.net.queue.len(),
{
    let w = v.inbox_taken();
    soundness::lemma_inbox_taken_sound(v);
    soundness::lemma_pumped_sound(w);
    simulation::lemma_pump_progress(w);
    let x = w.pumped().0;
    soundness::lemma_extends_transitive(v, w, x);
    if protocol::answer_among(v.inbox, req, v.inbox.len()) is None && w.net.clock < deadline
        && w.pumped().1 {
        lemma_answer_awaited(x, req, deadline);
        soundness::lemma_extends_transitive(v, x, v.answer_awaited(req, deadline).0);
    }
}

/// Asking the primary under a fresh correlation id keeps the cluster sound.
pub proof fn lemma_asked(v: ClusterV, primary: u32, msg: MessageV)
    requires
        soundness::sound(v),
        v.next_req < u64::MAX,
        soundness::req_of(msg) == Some(v.next_req),
    ensures
        soundness::sound(v.asked(primary, msg)),
        soundness::extends(v, v.asked(primary, msg)),
{
    let w = ClusterV { next_req: (v.next_req + 1) as u64, ..v };
    assert(soundness::sound(w)) by {
        assert forall|i: int| 0 <= i < w.metas.len() implies soundness::meta_sound(
            #[trigger] w.metas[i],
            w.next_req,
        ) by {
            assert(soundness::meta_sound(v.metas[i], v.next_req));
        }
        assert forall|i: int| 0 <= i < w.net.queue.len() implies {
            &&& soundness::honest(w.storages, (#[trigger] w.net.queue[i]).env.from, w.net.queue[i].env.msg)
            &&& soundness::given_out(w.net.queue[i].env.msg, w.next_req)
            &&& w.net.queue[i].time >= w.net.clock
        } by {
            assert(soundness::given_out(v.net.queue[i].env.msg, v.next_req));
        }
    }
    let env = wire::Envelope { from: NodeId::Client, to: NodeId::Meta(primary), msg };
    soundness::lemma_sent_sound(w, env);
}

/// A metadata operation keeps the cluster sound and loses no chunk.
pub proof fn law_meta_operation_keeps_sound(v: ClusterV, op: MetaOpV, err_path: Seq<char>)
    requires
        soundness::sound(v),
    ensures
        soundness::sound(v.meta_applied(op, err_path).0),
        soundness::extends(v, v.meta_applied(op, err_path).0),
{
    if v.primary() is Some && v.next_req < u64::MAX {
        let msg = MessageV::MetaOpMsg { req_id: v.next_req, op };
        let w = v.asked(v.primary()->Some_0, msg);
        lemma_asked(v, v.primary()->Some_0, msg);
        lemma_commit_awaited(w, v.next_req, w.deadline());
        soundness::lemma_extends_transitive(v, w, v.meta_applied(op, err_path).0);
    }
}

/// A metadata query keeps the cluster sound and loses no chunk.
pub proof fn law_meta_query_keeps_sound(v: ClusterV, q: QueryV)
    requires
        soundness::sound(v),
    ensures
        soundness::sound(v.meta_queried(q).0),
        soundness::extends(v, v.meta_queried(q).0),
{
    if v.primary() is Some && v.next_req < u64::MAX {
        let msg = MessageV::MetaQueryMsg { req_id: v.next_req, q };
        let w = v.asked(v.primary()->Some_0, msg);
        lemma_asked(v, v.primary()->Some_0, msg);
        lemma_answer_awaited(w, v.next_req, w.deadline());
        soundness::lemma_extends_transitive(v, w, v.meta_queried(q).0);
    }
}

/// Sending storage messages from the client keeps the cluster sound.
pub proof fn lemma_client_sends(v: ClusterV, out: Seq<wire::Envelope>)
    requires
        soundness::sound(v),
        forall|i: int|
            0 <= i < out.len() ==> (#[trigger] out[i]).msg is StoreChunk || out[i].msg is FetchChunk,
    ensures
        soundness::sound(v.sent_all(out)),
        soundness::extends(v, v.sent_all(out)),
{
    soundness::lemma_sent_all_sound(v, out);
}

/// Every noted node holds what it was noted for.
pub open spec fn true_acks(v: ClusterV, acks: Map<Seq<u8>, Set<u32>>) -> bool {
    forall|id: Seq<u8>, i: u32| #[trigger]
        protocol::noted_for(acks, id).contains(i) ==> soundness::holds(v.storages, i, id)
}

/// Every noted set is finite.
pub open spec fn finite_acks(acks: Map<Seq<u8>, Set<u32>>) -> bool {
    forall|id: Seq<u8>| (#[trigger] protocol::noted_for(acks, id)).finite()
}

pub proof fn lemma_acks_after(v: ClusterV, acks: Map<Seq<u8>, Set<u32>>, n: nat)
    requires
        soundness::sound(v),
        n <= v.inbox.len(),
        true_acks(v, acks),
        finite_acks(acks),
    ensures
        true_acks(v, protocol::acks_after(acks, v.inbox, n)),
        finite_acks(protocol::acks_after(acks, v.inbox, n)),
    decreases n,
{
    if n > 0 {
        lemma_acks_after(v, acks, (n - 1) as nat);
        let before = protocol::acks_after(acks, v.inbox, (n - 1) as nat);
        let now = protocol::acks_after(acks, v.inbox, n);
        let l = v.inbox[n - 1];
        assert(soundness::honest(v.storages, l.from, l.msg));
        match (l.from, l.msg) {
            (NodeId::Storage(i), MessageV::StoreAck { id }) => {
                assert forall|x: Seq<u8>, j: u32| #[trigger]
                    protocol::noted_for(now, x).contains(j) implies soundness::holds(v.storages, j, x) by {
                    if x == id && j == i {
                    } else {
                        assert(protocol::noted_for(before, x).contains(j));
                    }
                }
                assert forall|x: Seq<u8>| (#[trigger] protocol::noted_for(now, x)).finite() by {
                    assert(protocol::noted_for(before, x).finite());
                    assert(protocol::noted_for(before, id).finite());
                }
            },
            _ => {},
        }
    }
}

pub proof fn lemma_true_acks_grow(v: ClusterV, w: ClusterV, acks: Map<Seq<u8>, Set<u32>>)
    requires
        true_acks(v, acks),
        soundness::extends(v, w),
    ensures
        true_acks(w, acks),
{
    assert forall|id: Seq<u8>, i: u32| #[trigger]
        protocol::noted_for(acks, id).contains(i) implies soundness::holds(w.storages, i, id) by {
        assert(soundness::holds(v.storages, i, id));
    }
}

/// Whether every one of some nodes holds a chunk.
pub open spec fn all_hold(v: ClusterV, s: Set<u32>, id: Seq<u8>) -> bool {
    forall|i: u32| #[trigger] s.contains(i) ==> soundness::holds(v.storages, i, id)
}

/// Whether a chunk is held by at least `n` nodes.
pub open spec fn held_by(v: ClusterV, id: Seq<u8>, n: nat) -> bool {
    exists|s: Set<u32>| #[trigger] all_hold(v, s, id) && s.finite() && s.len() >= n
}

/// A chunk held by so many nodes is still held by so many later.
pub proof fn lemma_held_by_grows(v: ClusterV, w: ClusterV, id: Seq<u8>, n: nat)
    requires
        held_by(v, id, n),
        soundness::extends(v, w),
    ensures
        held_by(w, id, n),
{
    let s = choose|s: Set<u32>| #[trigger] all_hold(v, s, id) && s.finite() && s.len() >= n;
    assert forall|i: u32| #[trigger] s.contains(i) implies soundness::holds(w.storages, i, id) by {
        assert(soundness::holds(v.storages, i, id));
    }
    assert(all_hold(w, s, id));
}

/// Waiting for acknowledgements keeps the cluster sound and loses no chunk; a quorum that was
/// met is a quorum of holders.
pub proof fn lemma_acks_awaited(
    v: ClusterV,
    acks: Map<Seq<u8>, Set<u32>>,
    ids: Seq<Seq<u8>>,
    quorum: nat,
    deadline: u64,
)
    requires
        soundness::sound(v),
        true_acks(v, acks),
        finite_acks(acks),
    ensures
        soundness::sound(v.acks_awaited(acks, ids, quorum, deadline).0),
        soundness::extends(v, v.acks_awaited(acks, ids, quorum, deadline).0),
        v.acks_awaited(acks, ids, quorum, deadline).1 is None ==> forall|i: int|
            0 <= i < ids.len() ==> held_by(
                v.acks_awaited(acks, ids, quorum, deadline).0,
                #[trigger] ids[i],
                quorum,
            ),
    decreases u64::MAX - v.net.seq, v.net.queue.len(),
{
    let w = v.inbox_taken();
    let now = protocol::acks_after(acks, v.inbox, v.inbox.len());
    let r = v.acks_awaited(acks, ids, quorum, deadline);
    soundness::lemma_inbox_taken_sound(v);
    lemma_acks_after(v, acks, v.inbox.len());
    soundness::lemma_pumped_sound(w);
    simulation::lemma_pump_progress(w);
    let x = w.pumped().0;
    soundness::lemma_extends_transitive(v, w, x);
    if protocol::quorum_met(now, ids, quorum) {
        assert forall|i: int| 0 <= i < ids.len() implies held_by(r.0, #[trigger] ids[i], quorum) by {
            let s = protocol::noted_for(now, ids[i]);
            assert(s.finite() && s.len() >= quorum);
            assert forall|j: u32| #[trigger] s.contains(j) implies soundness::holds(
                r.0.storages,
                j,
                ids[i],
            ) by {
                assert(protocol::noted_for(now, ids[i]).contains(j));
            }
            assert(all_hold(r.0, s, ids[i]));
        }
    } else if w.net.clock < deadline && w.pumped().1 {
        lemma_true_acks_grow(v, x, now);
        lemma_acks_awaited(x, now, ids, quorum, deadline);
        soundness::lemma_extends_transitive(v, x, r.0);
    }
}

/// A replicated write sends nothing but chunks to store.
pub proof fn lemma_store_msgs_kind(
    data: Map<Seq<u8>, Seq<u8>>,
    ids: Seq<Seq<u8>>,
    live: Seq<u32>,
    r: nat,
    n: nat,
)
    ensures
        forall|i: int|
            0 <= i < protocol::store_msgs(data, ids, live, r, n).len() ==> (
            #[trigger] protocol::store_msgs(data, ids, live, r, n)[i]).msg is StoreChunk,
    decreases n,
{
    if n > 0 {
        lemma_store_msgs_kind(data, ids, live, r, (n - 1) as nat);
        let a = protocol::store_msgs(data, ids, live, r, (n - 1) as nat);
        let id = ids[n - 1];
        let b = placement::placed(id, live, r).map_values(
            |node: u32| protocol::store_msg(node, id, data[id]),
        );
        assert forall|i: int| 0 <= i < (a + b).len() implies (#[trigger] (a + b)[i]).msg
            is StoreChunk by {
            if i < a.len() {
                assert((a + b)[i] == a[i]);
            } else {
                assert((a + b)[i] == b[i - a.len()]);
            }
        }
    }
}

/// The distinct chunks of a file are those of its pieces.
pub proof fn lemma_distinct_chunks(chunks: Seq<ChunkV>, n: nat)
    requires
        n <= chunks.len(),
    ensures
        protocol::distinct_chunks(chunks, n).dom().finite(),
        forall|id: Seq<u8>| #[trigger]
            protocol::distinct_chunks(chunks, n).dom().contains(id) <==> exists|i: int|
                0 <= i < n && (#[trigger] chunks[i]).id == id,
        forall|id: Seq<u8>| #[trigger]
            protocol::distinct_chunks(chunks, n).dom().contains(id) ==> exists|i: int|
                0 <= i < n && (#[trigger] chunks[i]).id == id && chunks[i].data
                    == protocol::distinct_chunks(chunks, n)[id],
    decreases n,
{
    if n > 0 {
        lemma_distinct_chunks(chunks, (n - 1) as nat);
        let before = protocol::distinct_chunks(chunks, (n - 1) as nat);
        let now = protocol::distinct_chunks(chunks, n);
        let c = chunks[n - 1];
        assert forall|id: Seq<u8>| #[trigger] now.dom().contains(id) <==> exists|i: int|
            0 <= i < n && (#[trigger] chunks[i]).id == id by {
            if now.dom().contains(id) {
                if before.dom().contains(id) {
                    let i = choose|i: int| 0 <= i < n - 1 && (#[trigger] chunks[i]).id == id;
                    assert(chunks[i].id == id);
                } else {
                    assert(chunks[n - 1].id == id);
                }
            }
            if exists|i: int| 0 <= i < n && (#[trigger] chunks[i]).id == id {
                let i = choose|i: int| 0 <= i < n && (#[trigger] chunks[i]).id == id;
                if i < n - 1 {
                    assert(before.dom().contains(id));
                }
            }
        }
        assert forall|id: Seq<u8>| #[trigger] now.dom().contains(id) implies exists|i: int|
            0 <= i < n && (#[trigger] chunks[i]).id == id && chunks[i].data == now[id] by {
            if before.dom().contains(id) {
                let i = choose|i: int|
                    0 <= i < n - 1 && (#[trigger] chunks[i]).id == id && chunks[i].data
                        == before[id];
                assert(chunks[i].id == id);
            } else {
                assert(chunks[n - 1].id == id);
            }
        }
    }
}

/// The ids that a replicated write stores are those of the file's pieces.
pub proof fn lemma_written_ids(bytes: Seq<u8>, size: nat, i: int)
    requires
        0 <= i < chunk::piece_count(bytes.len(), size),
    ensures
        ({
            let chunks = chunk::chunks_of(bytes, size);
            let data = protocol::distinct_chunks(chunks, chunks.len());
            let ids = ordmap::in_order::<crate::hash::Hash>(data.dom());
            exists|j: int|
                0 <= j < ids.len() && #[trigger] ids[j] == hash::digest(
                    chunk::piece(bytes, size, i),
                )
        }),
{
    let chunks = chunk::chunks_of(bytes, size);
    let data = protocol::distinct_chunks(chunks, chunks.len());
    let ids = ordmap::in_order::<crate::hash::Hash>(data.dom());
    lemma_distinct_chunks(chunks, chunks.len());
    ordmap::lemma_order_of::<crate::hash::Hash>(data.dom());
    let id = hash::digest(chunk::piece(bytes, size, i));
    assert(chunks[i].id == id);
    assert(data.dom().contains(id));
    assert(ids.to_set().contains(id));
    let j = choose|j: int| 0 <= j < ids.len() && ids[j] == id;
    assert(ids[j] == id);
}

/// A replicated write keeps the cluster sound and loses no chunk; when it succeeds, every
/// chunk of the file is held by at least a write quorum of distinct nodes.
pub proof fn law_replicated_write(v: ClusterV, p: Seq<char>, bytes: Seq<u8>)
    requires
        soundness::sound(v),
    ensures
        soundness::sound(v.written_replicated(p, bytes).0),
        soundness::extends(v, v.written_replicated(p, bytes).0),
        v.written_replicated(p, bytes).1 is Ok ==> forall|i: int|
            0 <= i < chunk::piece_count(bytes.len(), v.opts.chunk_size as nat) ==> held_by(
                v.written_replicated(p, bytes).0,
                hash::digest(#[trigger] chunk::piece(bytes, v.opts.chunk_size as nat, i)),
                v.opts.write_quorum as nat,
            ),
{
    let live = v.live_storage();
    let quorum = v.opts.write_quorum as nat;
    if live.len() >= quorum {
        let size = v.opts.chunk_size as nat;
        let chunks = chunk::chunks_of(bytes, size);
        let data = protocol::distinct_chunks(chunks, chunks.len());
        let ids = ordmap::in_order::<crate::hash::Hash>(data.dom());
        let r = v.opts.replication_factor as nat;
        let out = protocol::store_msgs(data, ids, live, r, ids.len());
        lemma_store_msgs_kind(data, ids, live, r, ids.len());
        lemma_client_sends(v, out);
        let w = v.sent_all(out);
        lemma_acks_awaited(w, Map::empty(), ids, quorum, w.deadline());
        let (x, short) = w.acks_awaited(Map::empty(), ids, quorum, w.deadline());
        soundness::lemma_extends_transitive(v, w, x);
        if short is None {
            let op = MetaOpV::Put { path: p, manifest: chunk::manifest_of(bytes, size) };
            law_meta_operation_keeps_sound(x, op, p);
            let y = x.meta_applied(op, p).0;
            soundness::lemma_extends_transitive(v, x, y);
            assert forall|i: int| 0 <= i < chunk::piece_count(bytes.len(), size) implies held_by(
                y,
                hash::digest(#[trigger] chunk::piece(bytes, size, i)),
                quorum,
            ) by {
                lemma_written_ids(bytes, size, i);
                let id = hash::digest(chunk::piece(bytes, size, i));
                let j = choose|j: int| 0 <= j < ids.len() && #[trigger] ids[j] == id;
                assert(held_by(x, ids[j], quorum));
                lemma_held_by_grows(x, y, id, quorum);
            }
        }
    }
}

/// A chunk held by more nodes than are lost is still held by one that is not.
pub proof fn law_fewer_losses_than_holders(v: ClusterV, id: Seq<u8>, n: nat, lost: Set<u32>)
    requires
        held_by(v, id, n),
        lost.finite(),
        lost.len() < n,
    ensures
        exists|i: u32| #[trigger] soundness::holds(v.storages, i, id) && !lost.contains(i),
{
    let s = choose|s: Set<u32>| #[trigger] all_hold(v, s, id) && s.finite() && s.len() >= n;
    if forall|i: u32| #[trigger] s.contains(i) ==> lost.contains(i) {
        vstd::set_lib::lemma_len_subset(s, lost);
    }
    let i = choose|i: u32| #[trigger] s.contains(i) && !lost.contains(i);
    assert(soundness::holds(v.storages, i, id));
}

/// Every acknowledged shard is held by some node.
pub open spec fn true_acked(v: ClusterV, acked: Set<Seq<u8>>) -> bool {
    forall|id: Seq<u8>| #[trigger] acked.contains(id) ==> held_by(v, id, 1)
}

proof fn lemma_held_by_one(v: ClusterV, i: u32, id: Seq<u8>)
    requires
        soundness::holds(v.storages, i, id),
    ensures
        held_by(v, id, 1),
{
    let s = Set::<u32>::empty().insert(i);
    assert(s.len() == 1);
    assert(all_hold(v, s, id));
}

pub proof fn lemma_acked_after(v: ClusterV, acked: Set<Seq<u8>>, n: nat)
    requires
        soundness::sound(v),
        n <= v.inbox.len(),
        true_acked(v, acked),
    ensures
        true_acked(v, protocol::acked_after(acked, v.inbox, n)),
    decreases n,
{
    if n > 0 {
        lemma_acked_after(v, acked, (n - 1) as nat);
        let l = v.inbox[n - 1];
        assert(soundness::honest(v.storages, l.from, l.msg));
        match (l.from, l.msg) {
            (NodeId::Storage(i), MessageV::StoreAck { id }) => {
                lemma_held_by_one(v, i, id);
            },
            _ => {},
        }
    }
}

pub proof fn lemma_true_acked_grows(v: ClusterV, w: ClusterV, acked: Set<Seq<u8>>)
    requires
        true_acked(v, acked),
        soundness::extends(v, w),
    ensures
        true_acked(w, acked),
{
    assert forall|id: Seq<u8>| #[trigger] acked.contains(id) implies held_by(w, id, 1) by {
        lemma_held_by_grows(v, w, id, 1);
    }
}

/// Whether every group has at least `quorum` positions whose shard is held by some node.
pub open spec fn groups_held(v: ClusterV, groups: Seq<Seq<ChunkV>>, quorum: nat) -> bool {
    exists|acked: Set<Seq<u8>>| #[trigger]
        true_acked(v, acked) && protocol::groups_met(groups, acked, quorum)
}

/// Waiting for groups keeps the cluster sound and loses no chunk; groups that were met are
/// held.
pub proof fn lemma_groups_awaited(
    v: ClusterV,
    acked: Set<Seq<u8>>,
    groups: Seq<Seq<ChunkV>>,
    quorum: nat,
    deadline: u64,
)
    requires
        soundness::sound(v),
        true_acked(v, acked),
    ensures
        soundness::sound(v.groups_awaited(acked, groups, quorum, deadline).0),
        soundness::extends(v, v.groups_awaited(acked, groups, quorum, deadline).0),
        v.groups_awaited(acked, groups, quorum, deadline).1 is None ==> groups_held(
            v.groups_awaited(acked, groups, quorum, deadline).0,
            groups,
            quorum,
        ),
    decreases u64::MAX - v.net.seq, v.net.queue.len(),
{
    let w = v.inbox_taken();
    let now = protocol::acked_after(acked, v.inbox, v.inbox.len());
    let r = v.groups_awaited(acked, groups, quorum, deadline);
    soundness::lemma_inbox_taken_sound(v);
    lemma_acked_after(v, acked, v.inbox.len());
    soundness::lemma_pumped_sound(w);
    simulation::lemma_pump_progress(w);
    let x = w.pumped().0;
    soundness::lemma_extends_transitive(v, w, x);
    if protocol::groups_met(groups, now, quorum) {
        lemma_true_acked_grows(v, w, now);
        assert(true_acked(w, now) && protocol::groups_met(groups, now, quorum));
    } else if w.net.clock < deadline && w.pumped().1 {
        lemma_true_acked_grows(v, x, now);
        lemma_groups_awaited(x, now, groups, quorum, deadline);
        soundness::lemma_extends_transitive(v, x, r.0);
    }
}

/// Whether everything that was spread is a chunk to store.
pub open spec fn stores_only(s: Spread) -> bool {
    forall|i: int| 0 <= i < s.msgs.len() ==> (#[trigger] s.msgs[i]).msg is StoreChunk
}

proof fn lemma_with_group_kind(s: Spread, group: Seq<ChunkV>, live: Seq<u32>, n: nat)
    requires
        stores_only(s),
    ensures
        stores_only(s.with_group(group, live, n)),
    decreases n,
{
    if n > 0 {
        lemma_with_group_kind(s, group, live, (n - 1) as nat);
    }
}

/// An erasure-coded write sends nothing but chunks to store.
pub proof fn lemma_spread_kind(groups: Seq<Seq<ChunkV>>, live: Seq<u32>, n: nat)
    ensures
        stores_only(protocol::spread(groups, live, n)),
    decreases n,
{
    if n > 0 {
        lemma_spread_kind(groups, live, (n - 1) as nat);
        lemma_with_group_kind(
            protocol::spread(groups, live, (n - 1) as nat),
            groups[n - 1],
            live,
            groups[n - 1].len(),
        );
    }
}

/// An erasure-coded write keeps the cluster sound and loses no chunk; when it succeeds, every
/// group has at least the write quorum, and at least `k`, of its shard positions on nodes.
pub proof fn law_erasure_write(v: ClusterV, p: Seq<char>, bytes: Seq<u8>, er: Erasure)
    requires
        soundness::sound(v),
    ensures
        soundness::sound(v.written_erasure(p, bytes, er).0),
        soundness::extends(v, v.written_erasure(p, bytes, er).0),
        v.written_erasure(p, bytes, er).1 is Ok ==> groups_held(
            v.written_erasure(p, bytes, er).0,
            protocol::shard_groups(bytes, v.group_size(), er),
            protocol::larger(v.opts.write_quorum as nat, er.k as nat),
        ),
{
    let live = v.live_storage();
    let total = er.k as nat + er.m as nat;
    if live.len() >= total {
        let groups = protocol::shard_groups(bytes, v.group_size(), er);
        let quorum = protocol::larger(v.opts.write_quorum as nat, er.k as nat);
        let out = protocol::spread(groups, live, groups.len()).msgs;
        lemma_spread_kind(groups, live, groups.len());
        lemma_client_sends(v, out);
        let w = v.sent_all(out);
        assert(true_acked(w, Set::empty()));
        lemma_groups_awaited(w, Set::empty(), groups, quorum, w.deadline());
        let (x, short) = w.groups_awaited(Set::empty(), groups, quorum, w.deadline());
        soundness::lemma_extends_transitive(v, w, x);
        if short is None {
            let op = MetaOpV::Put {
                path: p,
                manifest: protocol::erasure_manifest(bytes, v.group_size(), er),
            };
            law_meta_operation_keeps_sound(x, op, p);
            let y = x.meta_applied(op, p).0;
            soundness::lemma_extends_transitive(v, x, y);
            let acked = choose|acked: Set<Seq<u8>>| #[trigger]
                true_acked(x, acked) && protocol::groups_met(groups, acked, quorum);
            lemma_true_acked_grows(x, y, acked);
            assert(true_acked(y, acked) && protocol::groups_met(groups, acked, quorum));
        }
    }
}

/// Gathered bytes match their ids.
pub open spec fn genuine(g: Gathered) -> bool {
    forall|id: Seq<u8>| #[trigger] g.have.dom().contains(id) ==> hash::digest(g.have[id]) == id
}

pub proof fn lemma_with_all_genuine(g: Gathered, inbox: Seq<Letter>, n: nat)
    requires
        genuine(g),
    ensures
        genuine(g.with_all(inbox, n)),
    decreases n,
{
    if n > 0 {
        lemma_with_all_genuine(g, inbox, (n - 1) as nat);
    }
}

pub proof fn lemma_chunks_gathered(
    v: ClusterV,
    g: Gathered,
    ids: Seq<Seq<u8>>,
    quorum: nat,
    deadline: u64,
)
    requires
        soundness::sound(v),
        genuine(g),
    ensures
        soundness::sound(v.chunks_gathered(g, ids, quorum, deadline).0),
        soundness::extends(v, v.chunks_gathered(g, ids, quorum, deadline).0),
        genuine(v.chunks_gathered(g, ids, quorum, deadline).1),
    decreases u64::MAX - v.net.seq, v.net.queue.len(),
{
    let w = v.inbox_taken();
    let now = g.with_all(v.inbox, v.inbox.len());
    soundness::lemma_inbox_taken_sound(v);
    lemma_with_all_genuine(g, v.inbox, v.inbox.len());
    soundness::lemma_pumped_sound(w);
    simulation::lemma_pump_progress(w);
    let x = w.pumped().0;
    soundness::lemma_extends_transitive(v, w, x);
    if !now.enough_all(ids, quorum) && w.net.clock < deadline && w.pumped().1 {
        lemma_chunks_gathered(x, now, ids, quorum, deadline);
        soundness::lemma_extends_transitive(
            v,
            x,
            v.chunks_gathered(g, ids, quorum, deadline).0,
        );
    }
}

/// A read asks for chunks and sends nothing else.
pub proof fn lemma_fetch_msgs_kind(ids: Seq<Seq<u8>>, live: Seq<u32>, n: nat)
    ensures
        forall|i: int|
            0 <= i < protocol::fetch_msgs(ids, live, n).len() ==> (#[trigger] protocol::fetch_msgs(
                ids,
                live,
                n,
            )[i]).msg is FetchChunk,
    decreases n,
{
    if n > 0 {
        lemma_fetch_msgs_kind(ids, live, (n - 1) as nat);
        let a = protocol::fetch_msgs(ids, live, (n - 1) as nat);
        let id = ids[n - 1];
        let b = live.map_values(|node: u32| protocol::fetch_msg(node, id));
        assert forall|i: int| 0 <= i < (a + b).len() implies (#[trigger] (a + b)[i]).msg
            is FetchChunk by {
            if i < a.len() {
                assert((a + b)[i] == a[i]);
            } else {
                assert((a + b)[i] == b[i - a.len()]);
            }
        }
    }
}

/// Fetching keeps the cluster sound, loses no chunk, and gathers only bytes that match their
/// ids.
pub proof fn lemma_fetched(v: ClusterV, ids: Seq<Seq<u8>>, quorum: nat)
    requires
        soundness::sound(v),
    ensures
        soundness::sound(v.fetched(ids, quorum).0),
        soundness::extends(v, v.fetched(ids, quorum).0),
        genuine(v.fetched(ids, quorum).1),
{
    let live = v.live_storage();
    let out = protocol::fetch_msgs(ids, live, ids.len());
    lemma_fetch_msgs_kind(ids, live, ids.len());
    lemma_client_sends(v, out);
    let w = v.sent_all(out);
    assert(genuine(Gathered::nothing()));
    lemma_chunks_gathered(w, Gathered::nothing(), ids, quorum, w.deadline());
    soundness::lemma_extends_transitive(v, w, v.fetched(ids, quorum).0);
}

/// Repair sends nothing but chunks to store.
pub proof fn lemma_repair_msgs_kind(
    g: Gathered,
    ids: Seq<Seq<u8>>,
    live: Seq<u32>,
    r: nat,
    n: nat,
)
    ensures
        forall|i: int|
            0 <= i < protocol::repair_msgs(g, ids, live, r, n).len() ==> (
            #[trigger] protocol::repair_msgs(g, ids, live, r, n)[i]).msg is StoreChunk,
    decreases n,
{
    if n > 0 {
        lemma_repair_msgs_kind(g, ids, live, r, (n - 1) as nat);
        let a = protocol::repair_msgs(g, ids, live, r, (n - 1) as nat);
        let id = ids[n - 1];
        let b = placement::placed(id, live, r).filter(
            |node: u32| protocol::noted_for(g.missing, id).contains(node),
        ).map_values(|node: u32| protocol::store_msg(node, id, g.have[id]));
        assert forall|i: int| 0 <= i < (a + b).len() implies (#[trigger] (a + b)[i]).msg
            is StoreChunk by {
            if i < a.len() {
                assert((a + b)[i] == a[i]);
            } else {
                assert((a + b)[i] == b[i - a.len()]);
            }
        }
    }
}

/// Rebuilding sends nothing but chunks to store.
pub proof fn lemma_rebuild_msgs_kind(
    slots: Seq<Option<Seq<u8>>>,
    ids: Seq<Seq<u8>>,
    full: Seq<Seq<u8>>,
    live: Seq<u32>,
    n: nat,
)
    ensures
        forall|i: int|
            0 <= i < protocol::rebuild_msgs(slots, ids, full, live, n).len() ==> (
            #[trigger] protocol::rebuild_msgs(slots, ids, full, live, n)[i]).msg is StoreChunk,
    decreases n,
{
    if n > 0 {
        lemma_rebuild_msgs_kind(slots, ids, full, live, (n - 1) as nat);
    }
}

/// A replicated read keeps the cluster sound and loses no chunk.
pub proof fn law_replicated_read_keeps_sound(v: ClusterV, m: ManifestV)
    requires
        soundness::sound(v),
    ensures
        soundness::sound(v.read_replicated(m).0),
        soundness::extends(v, v.read_replicated(m).0),
{
    let ids = ordmap::in_order::<crate::hash::Hash>(m.chunks.to_set());
    let quorum = v.opts.read_quorum as nat;
    let live = v.live_storage();
    let r = v.opts.replication_factor as nat;
    lemma_fetched(v, ids, quorum);
    let (w, g) = v.fetched(ids, quorum);
    if protocol::first_short(g, ids, quorum, 0) is None {
        let out = protocol::repair_msgs(g, ids, live, r, ids.len());
        lemma_repair_msgs_kind(g, ids, live, r, ids.len());
        lemma_client_sends(w, out);
        soundness::lemma_extends_transitive(v, w, w.sent_all(out));
    }
}

pub proof fn lemma_groups_rebuilt(
    v: ClusterV,
    p: Seq<char>,
    m: ManifestV,
    er: Erasure,
    live: Seq<u32>,
    got: Gathered,
    g: nat,
)
    requires
        soundness::sound(v),
    ensures
        soundness::sound(v.groups_rebuilt(p, m, er, live, got, g).0),
        soundness::extends(v, v.groups_rebuilt(p, m, er, live, got, g).0),
    decreases m.chunks.len() / (er.k as nat + er.m as nat) - g,
{
    let total = er.k as nat + er.m as nat;
    if g < m.chunks.len() / total {
        let ids = m.chunks.subrange((g * total) as int, ((g + 1) * total) as int);
        let len = protocol::group_len(m.size as nat, v.group_size(), g);
        let slots = protocol::group_slots(got, ids, len, er);
        match crate::erasure::decoded(slots, er.k as nat, er.m as nat, len) {
            Err(_) => {},
            Ok(piece) => {
                let full = crate::erasure::shards(piece, er.k as nat, er.m as nat);
                let out = protocol::rebuild_msgs(slots, ids, full, live, total);
                lemma_rebuild_msgs_kind(slots, ids, full, live, total);
                lemma_client_sends(v, out);
                let w = v.sent_all(out);
                lemma_groups_rebuilt(w, p, m, er, live, got, g + 1);
                soundness::lemma_extends_transitive(
                    v,
                    w,
                    w.groups_rebuilt(p, m, er, live, got, g + 1).0,
                );
            },
        }
    }
}

/// An erasure-coded read keeps the cluster sound and loses no chunk.
pub proof fn law_erasure_read_keeps_sound(v: ClusterV, p: Seq<char>, m: ManifestV, er: Erasure)
    requires
        soundness::sound(v),
    ensures
        soundness::sound(v.read_erasure(p, m, er).0),
        soundness::extends(v, v.read_erasure(p, m, er).0),
{
    let ids = ordmap::in_order::<crate::hash::Hash>(m.chunks.to_set());
    let live = v.live_storage();
    lemma_fetched(v, ids, 1);
    let (w, got) = v.fetched(ids, 1);
    lemma_groups_rebuilt(w, p, m, er, live, got, 0);
    soundness::lemma_extends_transitive(
        v,
        w,
        w.groups_rebuilt(p, m, er, live, got, 0).0,
    );
}

/// Every file operation keeps the cluster sound and loses no chunk.
pub proof fn law_file_operations_keep_sound(
    v: ClusterV,
    p: Seq<char>,
    q: Seq<char>,
    bytes: Seq<u8>,
)
    requires
        soundness::sound(v),
    ensures
        soundness::sound(v.written(p, bytes).0) && soundness::extends(v, v.written(p, bytes).0),
        soundness::sound(v.read(p).0) && soundness::extends(v, v.read(p).0),
        soundness::sound(v.deleted(p).0) && soundness::extends(v, v.deleted(p).0),
        soundness::sound(v.made_dir(p).0) && soundness::extends(v, v.made_dir(p).0),
        soundness::sound(v.renamed(p, q).0) && soundness::extends(v, v.renamed(p, q).0),
        soundness::sound(v.listed(p).0) && soundness::extends(v, v.listed(p).0),
        soundness::sound(v.statted(p).0) && soundness::extends(v, v.statted(p).0),
{
    law_replicated_write(v, p, bytes);
    if let Some(er) = v.opts.erasure {
        law_erasure_write(v, p, bytes, er);
    }
    law_meta_operation_keeps_sound(v, MetaOpV::Delete { path: p }, p);
    law_meta_operation_keeps_sound(v, MetaOpV::Mkdir { path: p }, p);
    law_meta_operation_keeps_sound(v, MetaOpV::Rename { from: p, to: q }, q);
    law_meta_query_keeps_sound(v, QueryV::List { path: p });
    law_meta_query_keeps_sound(v, QueryV::Stat { path: p });
    law_meta_query_keeps_sound(v, QueryV::Get { path: p });
    let (w, r) = v.meta_queried(QueryV::Get { path: p });
    if let Ok(QueryResultV::Manifest(Some(m))) = r {
        match m.erasure {
            None => {
                law_replicated_read_keeps_sound(w, m);
            },
            Some((k, par)) => {
                law_erasure_read_keeps_sound(w, p, m, Erasure { k: k as usize, m: par as usize });
            },
        }
        soundness::lemma_extends_transitive(v, w, w.read_manifest(p, m).0);
    }
}

/// Delivering all that is in flight keeps the cluster sound and loses no chunk.
pub proof fn lemma_drained(v: ClusterV)
    requires
        soundness::sound(v),
    ensures
        soundness::sound(v.drained()),
        soundness::extends(v, v.drained()),
    decreases u64::MAX - v.net.seq, v.net.queue.len(),
{
    soundness::lemma_pumped_sound(v);
    simulation::lemma_pump_progress(v);
    if v.pumped().1 {
        lemma_drained(v.pumped().0);
        soundness::lemma_extends_transitive(v, v.pumped().0, v.drained());
    }
}

/// A report lists what the node holds.
pub proof fn lemma_reports(v: ClusterV, i: u32)
    requires
        soundness::sound(v),
        i < v.storages.len(),
    ensures
        ({
            let chunks: Seq<Seq<u8>> = ordmap::in_order::<crate::hash::Hash>(
                v.storages[i as int].store.dom(),
            );
            forall|id: Seq<u8>| #[trigger]
                chunks.contains(id) <==> soundness::holds(v.storages, i, id)
        }),
{
    let held = v.storages[i as int].store.dom();
    let chunks: Seq<Seq<u8>> = ordmap::in_order::<crate::hash::Hash>(held);
    assert(v.storages[i as int].sound());
    ordmap::lemma_order_of::<crate::hash::Hash>(held);
    assert forall|id: Seq<u8>| #[trigger] chunks.contains(id) <==> soundness::holds(
        v.storages,
        i,
        id,
    ) by {
        assert(chunks.to_set().contains(id) <==> held.contains(id));
    }
}

/// Reports keep the cluster sound.
pub proof fn lemma_reporting(v: ClusterV, primary: u32)
    requires
        soundness::sound(v),
    ensures
        soundness::sound(v.reporting(primary, v.live_storage().len())),
        soundness::extends(v, v.reporting(primary, v.live_storage().len())),
{
    let n = v.live_storage().len();
    let beats = Seq::new(n, |j: int| v.heartbeat(v.live_storage()[j], primary));
    simulation::lemma_live(v);
    assert forall|j: int| 0 <= j < beats.len() implies soundness::honest(
        v.storages,
        (#[trigger] beats[j]).from,
        beats[j].msg,
    ) by {
        lemma_reports(v, v.live_storage()[j]);
    }
    soundness::lemma_sent_all_sound(v, beats);
}

/// A round of reports, orders and copies keeps the cluster sound and loses no chunk.
pub proof fn lemma_healing_round(v: ClusterV, primary: u32)
    requires
        soundness::sound(v),
    ensures
        soundness::sound(v.healing_round(primary)),
        soundness::extends(v, v.healing_round(primary)),
{
    let w = v.reporting(primary, v.live_storage().len());
    lemma_reporting(v, primary);
    lemma_drained(w);
    soundness::lemma_extends_transitive(v, w, w.drained());
}

pub proof fn lemma_healed_within(v: ClusterV, primary: u32, n: nat)
    requires
        soundness::sound(v),
    ensures
        soundness::sound(v.healed_within(primary, n).0),
        soundness::extends(v, v.healed_within(primary, n).0),
    decreases n,
{
    if n > 0 {
        lemma_healing_round(v, primary);
        let w = v.healing_round(primary);
        if !w.fully_replicated() {
            lemma_healed_within(w, primary, (n - 1) as nat);
            soundness::lemma_extends_transitive(
                v,
                w,
                w.healed_within(primary, (n - 1) as nat).0,
            );
        }
    }
}

proof fn lemma_healed_flag(v: ClusterV, primary: u32, n: nat)
    ensures
        v.healed_within(primary, n).1 == v.healed_within(primary, n).0.fully_replicated(),
    decreases n,
{
    if n > 0 {
        let w = v.healing_round(primary);
        if !w.fully_replicated() {
            lemma_healed_flag(w, primary, (n - 1) as nat);
        }
    }
}

/// Stabilizing keeps the cluster sound and loses no chunk, and it reports success exactly when
/// every referenced chunk has its target number of live replicas.
pub proof fn law_stabilize(v: ClusterV)
    requires
        soundness::sound(v),
    ensures
        soundness::sound(v.stabilized().0),
        soundness::extends(v, v.stabilized().0),
        v.stabilized().1 <==> v.stabilized().0.fully_replicated(),
{
    soundness::law_settling_keeps_sound(v);
    let w = v.settled();
    if let Some(p) = w.primary() {
        let n = w.opts.node_count as nat * 2 + 8;
        lemma_healed_within(w, p, n);
        lemma_healed_flag(w, p, n);
        soundness::lemma_extends_transitive(v, w, w.healed_within(p, n).0);
    }
}

/// Once a cluster is fully replicated, losing fewer storage nodes than the target number of
/// replicas leaves every referenced chunk on a node that is up.
pub proof fn law_full_replication_survives_losses(
    v: ClusterV,
    primary: u32,
    id: Seq<u8>,
    lost: Set<u32>,
)
    requires
        v.wf(),
        v.fully_replicated(),
        v.primary() == Some(primary),
        crate::metadata::referenced(v.metas[primary as int].ns.files).contains(id),
        lost.finite(),
        lost.len() < v.target(),
    ensures
        exists|i: u32| #[trigger]
            soundness::holds(v.storages, i, id) && !lost.contains(i) && !v.net.down.contains(
                NodeId::Storage(i),
            ),
{
    let keep = |i: u32| v.storages[i as int].store.dom().contains(id);
    let live = v.live_storage();
    let r = v.live_replicas(id);
    simulation::lemma_live(v);
    crate::metadata::lemma_filter_members(live, keep);
    lemma_filter_distinct(live, keep);
    r.unique_seq_to_set();
    if forall|i: u32| #[trigger] r.contains(i) ==> lost.contains(i) {
        assert(r.to_set().subset_of(lost)) by {
            assert forall|i: u32| r.to_set().contains(i) implies lost.contains(i) by {
                assert(r.contains(i));
            }
        }
        vstd::set_lib::lemma_len_subset(r.to_set(), lost);
    }
    let i = choose|i: u32| #[trigger] r.contains(i) && !lost.contains(i);
    assert(live.contains(i));
    assert(soundness::holds(v.storages, i, id));
}

/// Filtering keeps entries distinct.
pub proof fn lemma_filter_distinct<A>(s: Seq<A>, f: spec_fn(A) -> bool)
    requires
        s.no_duplicates(),
    ensures
        s.filter(f).no_duplicates(),
    decreases s.len(),
{
    reveal(Seq::filter);
    if s.len() > 0 {
        let front = s.drop_last();
        lemma_filter_distinct(front, f);
        crate::metadata::lemma_filter_members(front, f);
        let r = front.filter(f);
        assert forall|i: int| 0 <= i < r.len() implies r[i] != s.last() by {
            assert(r.contains(r[i]));
            let j = choose|j: int| 0 <= j < front.len() && front[j] == r[i];
            assert(s[j] != s[s.len() - 1]);
        }
    }
}

} // verus!

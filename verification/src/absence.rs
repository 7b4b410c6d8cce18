//! What is lost is reported as lost: a read of a file with a chunk that too few nodes in reach
//! hold, because the others crashed or were partitioned away, fails, and never yields other
//! bytes in its place.

use crate::availability;
use crate::chunk::ManifestV;
use crate::durability;
use crate::erasure::{self, Erasure};
use crate::message::{MessageV, NodeId, QueryResultV, QueryV};
use crate::metadata::{self, MetaV};
use crate::net::{self, NetV};
use crate::ordmap;
use crate::path;
use crate::progress;
use crate::protocol::{self, Gathered};
use crate::simulation::{self, ClusterV, Letter};
use crate::soundness;
use crate::truth;
use crate::wire;
use vstd::prelude::*;

verus! {

/// Whether a message brings no copy of a chunk to a node outside `s`, and none to the client
/// from a node outside `s`. Where `s` has nodes, it does not lead to further copies either: it
/// is no report, and it orders no copy to a node outside `s`.
pub open spec fn confined(e: wire::Envelope, id: Seq<u8>, s: Set<u32>) -> bool {
    match e.msg {
        MessageV::StoreChunk { id: i, data } => i == id ==> (e.to matches NodeId::Storage(k)
            ==> s.contains(k)),
        MessageV::Replicate { id: i, data } => i == id ==> (e.to matches NodeId::Storage(k)
            ==> s.contains(k)),
        MessageV::ChunkData { id: i, data: Some(d) } => i == id && e.to == NodeId::Client
            ==> sent_by(e.from, s),
        MessageV::ReplicateOrder { id: i, dest } => i == id ==> s == Set::<u32>::empty()
            || s.contains(dest),
        MessageV::Heartbeat { .. } => s == Set::<u32>::empty(),
        _ => true,
    }
}

/// Whether a storage node of `s` is the sender.
pub open spec fn sent_by(from: NodeId, s: Set<u32>) -> bool {
    from matches NodeId::Storage(k) && s.contains(k)
}

/// Whether a message that comes from a node in reach of the client, and reaches its own
/// destination, is [`confined`]. Others do not get near the client.
pub open spec fn near_confined(topology: NetV, id: Seq<u8>, s: Set<u32>) -> spec_fn(
    wire::Envelope,
) -> bool {
    |e: wire::Envelope|
        topology.connected(NodeId::Client, e.from) && topology.connected(e.from, e.to) ==> confined(
            e,
            id,
            s,
        )
}

/// [`scarce`], with who reaches whom as in `topology`.
pub open spec fn scarce_in(topology: NetV, v: ClusterV, id: Seq<u8>, s: Set<u32>) -> bool {
    &&& v.net.down == topology.down
    &&& v.net.partition == topology.partition
    &&& forall|i: u32| #[trigger]
        soundness::holds(v.storages, i, id) && progress::reaches_storage(topology, i) ==> s.contains(
            i,
        )
    &&& simulation::every(v.net.queue, near_confined(topology, id, s))
    &&& forall|i: int|
        0 <= i < v.inbox.len() ==> ((#[trigger] v.inbox[i]).msg matches MessageV::ChunkData {
            id: k,
            data: Some(d),
        } ==> k == id ==> sent_by(v.inbox[i].from, s))
}

/// Of the nodes that the client reaches, which are up and on its side of any partition, none
/// but those of `s` holds a chunk. No other such node is about to get a copy, and no copy that
/// another has sent is on its way to the client or in the inbox.
pub open spec fn scarce(v: ClusterV, id: Seq<u8>, s: Set<u32>) -> bool {
    scarce_in(v.net, v, id, s)
}

/// No node that the client reaches holds a chunk: whoever does has crashed or was partitioned
/// away. No copy is on its way to a node in reach, and none waits in the inbox.
pub open spec fn absent(v: ClusterV, id: Seq<u8>) -> bool {
    scarce(v, id, Set::empty())
}

/// Who reaches a node that the client reaches is in reach of the client.
proof fn lemma_near(v: ClusterV, a: NodeId, b: NodeId)
    requires
        soundness::sound(v),
        match b {
            NodeId::Client => true,
            NodeId::Storage(k) => k < v.storages.len(),
            NodeId::Meta(k) => k < v.metas.len(),
        },
        v.net.connected(a, b),
        v.net.connected(NodeId::Client, b),
    ensures
        v.net.connected(NodeId::Client, a),
{
    assert(soundness::sided(v.net.partition, v.opts));
    if !(v.net.partition.dom() =~= Set::empty()) {
        match b {
            NodeId::Client => {},
            NodeId::Storage(k) => {
                assert(v.net.partition.dom().contains(NodeId::Storage(k)));
            },
            NodeId::Meta(k) => {
                assert(v.net.partition.dom().contains(NodeId::Meta(k)));
            },
        }
    }
}

/// Metadata nodes send under their own name.
proof fn lemma_metas_send_as_themselves(m: MetaV, from: NodeId, msg: MessageV)
    ensures
        forall|i: int|
            0 <= i < m.handled(from, msg).1.len() ==> (#[trigger] m.handled(from, msg).1[i]).from
                == NodeId::Meta(m.idx),
{
    match msg {
        MessageV::MetaOpMsg { req_id, op } => {
            soundness::lemma_replication_kind(m.idx, m.peers, m.next_seq, op, m.peers.len());
        },
        MessageV::Heartbeat { node, chunks } => {
            let w = MetaV { holders: metadata::reported(m.holders, node, chunks), ..m };
            if w.is_primary {
                let ids = ordmap::in_order::<crate::hash::Hash>(metadata::referenced(w.ns.files));
                soundness::lemma_orders_kind(w, ids, ids.len());
            }
        },
        _ => {},
    }
}

/// Metadata nodes order copies only when a storage node reports.
proof fn lemma_metas_are_confined(m: MetaV, from: NodeId, msg: MessageV, id: Seq<u8>, s: Set<u32>)
    requires
        m.buffer.dom().finite(),
        msg is Heartbeat ==> s == Set::<u32>::empty(),
    ensures
        forall|i: int|
            0 <= i < m.handled(from, msg).1.len() ==> confined(
                #[trigger] m.handled(from, msg).1[i],
                id,
                s,
            ),
{
    match msg {
        MessageV::MetaOpMsg { req_id, op } => {
            soundness::lemma_replication_kind(m.idx, m.peers, m.next_seq, op, m.peers.len());
        },
        MessageV::Heartbeat { node, chunks } => {
            let w = MetaV { holders: metadata::reported(m.holders, node, chunks), ..m };
            if w.is_primary {
                let ids = ordmap::in_order::<crate::hash::Hash>(metadata::referenced(w.ns.files));
                soundness::lemma_orders_kind(w, ids, ids.len());
            }
        },
        _ => {},
    }
}

/// Deliveries bring what is scarce to no other node in reach.
proof fn lemma_scarce_pumped(t: NetV, v: ClusterV, id: Seq<u8>, s: Set<u32>)
    requires
        soundness::sound(v),
        scarce_in(t, v, id, s),
    ensures
        scarce_in(t, v.pumped().0, id, s),
{
    let (n, d) = v.net.stepped();
    let y = v.pumped().0;
    let at = net::law_step(v.net);
    let f = near_confined(t, id, s);
    soundness::lemma_pumped_sound(v);
    simulation::lemma_stepped_every(v.net, f);
    if let Some(env) = d {
        let (x, out) = v.with_net(n).delivered(env);
        simulation::lemma_sent_all_frame(x.net, out);
        assert(f(env));
        assert(v.net.connected(env.from, env.to));
        // What reaches a node in reach comes from one in reach.
        if t.connected(NodeId::Client, env.to) && match env.to {
            NodeId::Client => true,
            NodeId::Storage(k) => k < v.storages.len(),
            NodeId::Meta(k) => k < v.metas.len(),
        } {
            lemma_near(v, env.from, env.to);
            assert(confined(env, id, s));
        }
        assert forall|i: int| 0 <= i < out.len() implies f(#[trigger] out[i]) by {
            match env.to {
                NodeId::Meta(k) => {
                    if k < v.metas.len() && t.connected(NodeId::Client, env.to) {
                        lemma_metas_are_confined(v.metas[k as int], env.from, env.msg, id, s);
                    } else if k < v.metas.len() {
                        lemma_metas_send_as_themselves(v.metas[k as int], env.from, env.msg);
                        assert(v.metas[k as int].idx == k);
                    }
                },
                NodeId::Storage(k) => {
                    if k < v.storages.len() {
                        assert(v.storages[k as int].idx == k);
                        assert(soundness::holds(v.storages, k, id) && progress::reaches_storage(t, k)
                            ==> s.contains(k));
                    }
                },
                _ => {},
            }
        }
        simulation::lemma_sent_all_every(x.net, out, f);
        assert forall|i: int| 0 <= i < y.inbox.len() implies ((
        #[trigger] y.inbox[i]).msg matches MessageV::ChunkData { id: k, data: Some(b) } ==> k == id
            ==> sent_by(y.inbox[i].from, s)) by {
            if i < v.inbox.len() {
                assert(y.inbox[i] == v.inbox[i]);
            }
        }
        assert forall|i: u32| #[trigger]
            soundness::holds(y.storages, i, id) && progress::reaches_storage(
                t,
                i,
            ) implies s.contains(i) by {
            if !soundness::holds(v.storages, i, id) {
                assert(env.to == NodeId::Storage(i));
            }
        }
    }
}

proof fn lemma_scarce_answer(
    t: NetV,
    v: ClusterV,
    id: Seq<u8>,
    s: Set<u32>,
    req: u64,
    deadline: u64,
)
    requires
        soundness::sound(v),
        scarce_in(t, v, id, s),
    ensures
        scarce_in(t, v.answer_awaited(req, deadline).0, id, s),
    decreases u64::MAX - v.net.seq, v.net.queue.len(),
{
    let w = v.inbox_taken();
    soundness::lemma_inbox_taken_sound(v);
    soundness::lemma_pumped_sound(w);
    simulation::lemma_pump_progress(w);
    lemma_scarce_pumped(t, w, id, s);
    if protocol::answer_among(v.inbox, req, v.inbox.len()) is None && w.net.clock < deadline
        && w.pumped().1 {
        lemma_scarce_answer(t, w.pumped().0, id, s, req, deadline);
    }
}

/// A query does not bring what is scarce to another node in reach.
proof fn lemma_scarce_queried(t: NetV, v: ClusterV, id: Seq<u8>, s: Set<u32>, q: QueryV)
    requires
        soundness::sound(v),
        scarce_in(t, v, id, s),
    ensures
        scarce_in(t, v.meta_queried(q).0, id, s),
{
    if v.primary() is Some && v.next_req < u64::MAX {
        let p = v.primary()->Some_0;
        let msg = MessageV::MetaQueryMsg { req_id: v.next_req, q };
        let env = wire::Envelope { from: NodeId::Client, to: NodeId::Meta(p), msg };
        durability::lemma_asked(v, p, msg);
        truth::lemma_sent_every(v.net, env, near_confined(t, id, s));
        let w = v.asked(p, msg);
        lemma_scarce_answer(t, w, id, s, v.next_req, w.deadline());
    }
}

/// What was gathered of a chunk came from nodes of `s`.
spec fn gathered_from(g: Gathered, id: Seq<u8>, s: Set<u32>) -> bool {
    &&& protocol::noted_for(g.sources, id).subset_of(s)
    &&& g.have.dom().contains(id) ==> s != Set::<u32>::empty()
}

proof fn lemma_gathered_from(g: Gathered, inbox: Seq<Letter>, n: nat, id: Seq<u8>, s: Set<u32>)
    requires
        n <= inbox.len(),
        gathered_from(g, id, s),
        forall|i: int|
            0 <= i < inbox.len() ==> ((#[trigger] inbox[i]).msg matches MessageV::ChunkData {
                id: k,
                data: Some(d),
            } ==> k == id ==> sent_by(inbox[i].from, s)),
    ensures
        gathered_from(g.with_all(inbox, n), id, s),
    decreases n,
{
    if n > 0 {
        lemma_gathered_from(g, inbox, (n - 1) as nat, id, s);
        let l = inbox[n - 1];
        if let MessageV::ChunkData { id: k, data: Some(d) } = l.msg {
            if k == id {
                assert(sent_by(l.from, s));
            }
        }
    }
}

proof fn lemma_scarce_gathered(
    t: NetV,
    v: ClusterV,
    id: Seq<u8>,
    s: Set<u32>,
    g: Gathered,
    ids: Seq<Seq<u8>>,
    quorum: nat,
    deadline: u64,
)
    requires
        soundness::sound(v),
        scarce_in(t, v, id, s),
        gathered_from(g, id, s),
    ensures
        gathered_from(v.chunks_gathered(g, ids, quorum, deadline).1, id, s),
    decreases u64::MAX - v.net.seq, v.net.queue.len(),
{
    let w = v.inbox_taken();
    let now = g.with_all(v.inbox, v.inbox.len());
    lemma_gathered_from(g, v.inbox, v.inbox.len(), id, s);
    soundness::lemma_inbox_taken_sound(v);
    soundness::lemma_pumped_sound(w);
    simulation::lemma_pump_progress(w);
    lemma_scarce_pumped(t, w, id, s);
    if !now.enough_all(ids, quorum) && w.net.clock < deadline && w.pumped().1 {
        lemma_scarce_gathered(t, w.pumped().0, id, s, now, ids, quorum, deadline);
    }
}

/// A fetch gets what is scarce from no other node.
proof fn lemma_scarce_fetched(
    t: NetV,
    v: ClusterV,
    id: Seq<u8>,
    s: Set<u32>,
    ids: Seq<Seq<u8>>,
    quorum: nat,
)
    requires
        soundness::sound(v),
        scarce_in(t, v, id, s),
    ensures
        gathered_from(v.fetched(ids, quorum).1, id, s),
{
    let live = v.live_storage();
    let out = protocol::fetch_msgs(ids, live, ids.len());
    let f = near_confined(t, id, s);
    durability::lemma_fetch_msgs_kind(ids, live, ids.len());
    durability::lemma_client_sends(v, out);
    simulation::lemma_sent_all_frame(v.net, out);
    assert forall|i: int| 0 <= i < out.len() implies f(#[trigger] out[i]) by {
        assert(out[i].msg is FetchChunk);
    }
    simulation::lemma_sent_all_every(v.net, out, f);
    let w = v.sent_all(out);
    lemma_scarce_gathered(t, w, id, s, Gathered::nothing(), ids, quorum, w.deadline());
}

proof fn lemma_some_short(g: Gathered, ids: Seq<Seq<u8>>, quorum: nat, n: nat, i: int)
    requires
        n <= i < ids.len(),
        !g.enough(ids[i], quorum),
    ensures
        protocol::first_short(g, ids, quorum, n) is Some,
    decreases ids.len() - n,
{
    if n < i {
        lemma_some_short(g, ids, quorum, n + 1, i);
    }
}

/// On a quiet network, with the primary in reach and time for messages to travel, a read is
/// told what the namespace holds.
pub open spec fn told(v: ClusterV, p: u32, at: Seq<char>) -> bool {
    &&& progress::quiet(v.net)
    &&& progress::reaches_meta(v.net, p)
    &&& 2 * progress::hop(v.net) < v.opts.op_deadline
    &&& progress::room_left(v.read(at).0)
}

/// A replicated file with a chunk that fewer nodes in reach hold than a read needs is not read:
/// the read says that a chunk is unavailable, or that the metadata service is, and the latter
/// only where the metadata service cannot answer.
pub proof fn law_scarce_chunk_is_reported(
    v: ClusterV,
    p: u32,
    at: Seq<char>,
    id: Seq<u8>,
    s: Set<u32>,
)
    requires
        soundness::sound(v),
        truth::idle(v, p),
        path::normal(at),
        !truth::names(v, p).dirs.contains(at),
        truth::names(v, p).files.dom().contains(at),
        truth::names(v, p).files[at].erasure is None,
        truth::names(v, p).files[at].chunks.contains(id),
        s.finite(),
        s.len() < protocol::larger(v.opts.read_quorum as nat, 1),
        scarce(v, id, s),
    ensures
        v.read(at).1 matches Err(e) && (e is ChunkUnavailable || e is MetadataUnavailable),
        told(v, p, at) ==> (v.read(at).1 matches Err(e) && e is ChunkUnavailable),
{
    let q = QueryV::Get { path: at };
    let m = truth::names(v, p).files[at];
    let t = v.net;
    truth::law_queries_are_answered_truly(v, p, q);
    durability::law_meta_query_keeps_sound(v, q);
    lemma_scarce_queried(t, v, id, s, q);
    let (w, r) = v.meta_queried(q);
    assert(truth::names(v, p).answered(q) == QueryResultV::Manifest(Some(m)));
    if told(v, p, at) {
        durability::law_file_operations_keep_sound(v, at, at, seq![]);
        if r is Ok {
            durability::law_replicated_read_keeps_sound(w, m);
        }
        progress::law_queries_succeed(v, p, q);
    }
    if r is Ok {
        let ids = ordmap::in_order::<crate::hash::Hash>(m.chunks.to_set());
        let quorum = w.opts.read_quorum as nat;
        availability::lemma_ids_of_set(m.chunks, ids);
        lemma_scarce_fetched(t, w, id, s, ids, quorum);
        let g = w.fetched(ids, quorum).1;
        assert(ids.contains(id));
        let i = choose|i: int| 0 <= i < ids.len() && ids[i] == id;
        vstd::set_lib::lemma_len_subset(protocol::noted_for(g.sources, id), s);
        assert(s.len() == 0 ==> s =~= Set::empty());
        lemma_some_short(g, ids, quorum, 0, i);
    }
}

/// A replicated file with a chunk that no node in reach holds is not read: the read says that a
/// chunk is unavailable, or that the metadata service is, and the latter only where the
/// metadata service cannot answer.
pub proof fn law_lost_chunk_is_reported(
    v: ClusterV,
    p: u32,
    at: Seq<char>,
    id: Seq<u8>,
)
    requires
        soundness::sound(v),
        truth::idle(v, p),
        path::normal(at),
        !truth::names(v, p).dirs.contains(at),
        truth::names(v, p).files.dom().contains(at),
        truth::names(v, p).files[at].erasure is None,
        truth::names(v, p).files[at].chunks.contains(id),
        absent(v, id),
    ensures
        v.read(at).1 matches Err(e) && (e is ChunkUnavailable || e is MetadataUnavailable),
        told(v, p, at) ==> (v.read(at).1 matches Err(e) && e is ChunkUnavailable),
{
    law_scarce_chunk_is_reported(v, p, at, id, Set::empty());
}

/// A replicated file with a chunk whose holders were all partitioned away, while nothing was in
/// flight, is not read: the read says that a chunk is unavailable.
pub proof fn law_partitioned_chunk_is_reported(
    v: ClusterV,
    p: u32,
    at: Seq<char>,
    id: Seq<u8>,
    idxs: Seq<u32>,
)
    requires
        soundness::sound(v),
        truth::idle(v, p),
        path::normal(at),
        !truth::names(v, p).dirs.contains(at),
        truth::names(v, p).files.dom().contains(at),
        truth::names(v, p).files[at].erasure is None,
        truth::names(v, p).files[at].chunks.contains(id),
        v.net.queue.len() == 0,
        v.inbox.len() == 0,
        forall|i: u32| #[trigger] soundness::holds(v.storages, i, id) ==> idxs.contains(i),
    ensures
        v.split(idxs).read(at).1 matches Err(e) && (e is ChunkUnavailable
            || e is MetadataUnavailable),
        told(v.split(idxs), p, at) ==> (v.split(idxs).read(at).1 matches Err(e)
            && e is ChunkUnavailable),
{
    let w = v.split(idxs);
    soundness::law_faults_keep_sound(v, NodeId::Client, idxs);
    truth::lemma_primary_stays(v, w);
    let side_b = Seq::new(idxs.len(), |i: int| NodeId::Storage(idxs[i]));
    assert forall|i: u32| #[trigger] soundness::holds(w.storages, i, id) implies !progress::reaches_storage(
        w.net,
        i,
    ) by {
        assert(soundness::holds(v.storages, i, id));
        let k = choose|k: int| 0 <= k < idxs.len() && idxs[k] == i;
        assert(side_b[k] == NodeId::Storage(i));
        assert(v.everyone()[0] == NodeId::Client);
        assert(w.net.partition.dom().contains(NodeId::Client));
        assert(w.net.partition.dom().contains(NodeId::Storage(i)));
        assert(!side_b.contains(NodeId::Client));
    }
    assert(absent(w, id));
    law_lost_chunk_is_reported(w, p, at, id);
}

/// Of the first `n` slots, those that are empty.
spec fn empty_slots(slots: Seq<Option<Seq<u8>>>, n: nat) -> Set<int> {
    Set::new(|i: int| 0 <= i < n && slots[i] is None)
}

proof fn lemma_empty_slots(slots: Seq<Option<Seq<u8>>>, n: nat)
    requires
        n <= slots.len(),
    ensures
        empty_slots(slots, n).finite(),
        erasure::present(slots, n).len() + empty_slots(slots, n).len() == n,
    decreases n,
{
    let now = empty_slots(slots, n);
    if n == 0 {
        assert(now =~= Set::empty());
    } else {
        lemma_empty_slots(slots, (n - 1) as nat);
        let before = empty_slots(slots, (n - 1) as nat);
        if slots[n - 1] is None {
            assert(now =~= before.insert(n - 1));
        } else {
            assert(now =~= before);
        }
    }
}

/// Rebuilding fails at the latest at a group that cannot be decoded.
proof fn lemma_rebuild_fails(
    v: ClusterV,
    at: Seq<char>,
    m: ManifestV,
    er: Erasure,
    live: Seq<u32>,
    got: Gathered,
    g: nat,
    bad: nat,
)
    requires
        g <= bad < m.chunks.len() / (er.k as nat + er.m as nat),
        ({
            let total = er.k as nat + er.m as nat;
            let ids = m.chunks.subrange((bad * total) as int, ((bad + 1) * total) as int);
            let len = protocol::group_len(m.size as nat, v.group_size(), bad);
            erasure::decoded(
                protocol::group_slots(got, ids, len, er),
                er.k as nat,
                er.m as nat,
                len,
            ) is Err
        }),
    ensures
        v.groups_rebuilt(at, m, er, live, got, g).1 matches Err(e) && e is ChunkUnavailable,
    decreases bad - g,
{
    let total = er.k as nat + er.m as nat;
    let ids = m.chunks.subrange((g * total) as int, ((g + 1) * total) as int);
    let len = protocol::group_len(m.size as nat, v.group_size(), g);
    let slots = protocol::group_slots(got, ids, len, er);
    match erasure::decoded(slots, er.k as nat, er.m as nat, len) {
        Err(_) => {},
        Ok(piece) => {
            let full = erasure::shards(piece, er.k as nat, er.m as nat);
            let out = protocol::rebuild_msgs(slots, ids, full, live, total);
            lemma_rebuild_fails(v.sent_all(out), at, m, er, live, got, g + 1, bad);
        },
    }
}

/// An erasure-coded file with a chunk of which more than `m` shards are absent is not read: the
/// read says that a chunk is unavailable, or that the metadata service is, and the latter only
/// where the metadata service cannot answer.
pub proof fn law_lost_shards_are_reported(
    v: ClusterV,
    p: u32,
    at: Seq<char>,
    er: Erasure,
    g: nat,
    gone: Set<int>,
)
    requires
        soundness::sound(v),
        truth::idle(v, p),
        path::normal(at),
        !truth::names(v, p).dirs.contains(at),
        truth::names(v, p).files.dom().contains(at),
        1 <= er.k,
        1 <= er.m,
        er.k + er.m <= 64,
        truth::names(v, p).files[at].erasure == Some((er.k as u8, er.m as u8)),
        g < truth::names(v, p).files[at].chunks.len() / (er.k as nat + er.m as nat),
        gone.finite(),
        gone.len() > er.m,
        forall|i: int| #[trigger]
            gone.contains(i) ==> 0 <= i < er.k + er.m && absent(
                v,
                truth::names(v, p).files[at].chunks[g * (er.k as nat + er.m as nat) + i],
            ),
    ensures
        v.read(at).1 matches Err(e) && (e is ChunkUnavailable || e is MetadataUnavailable),
        told(v, p, at) ==> (v.read(at).1 matches Err(e) && e is ChunkUnavailable),
{
    let q = QueryV::Get { path: at };
    let m = truth::names(v, p).files[at];
    let total = er.k as nat + er.m as nat;
    truth::law_queries_are_answered_truly(v, p, q);
    durability::law_meta_query_keeps_sound(v, q);
    let (w, r) = v.meta_queried(q);
    assert(truth::names(v, p).answered(q) == QueryResultV::Manifest(Some(m)));
    if told(v, p, at) {
        durability::law_file_operations_keep_sound(v, at, at, seq![]);
        if r is Ok {
            let ids = ordmap::in_order::<crate::hash::Hash>(m.chunks.to_set());
            durability::lemma_fetched(w, ids, 1);
            let (x, got) = w.fetched(ids, 1);
            durability::lemma_groups_rebuilt(x, at, m, er, w.live_storage(), got, 0);
        }
        progress::law_queries_succeed(v, p, q);
    }
    if r is Ok {
        let all = ordmap::in_order::<crate::hash::Hash>(m.chunks.to_set());
        let live = w.live_storage();
        durability::lemma_fetched(w, all, 1);
        let (x, got) = w.fetched(all, 1);
        let ids = m.chunks.subrange((g * total) as int, ((g + 1) * total) as int);
        let len = protocol::group_len(m.size as nat, x.group_size(), g);
        let slots = protocol::group_slots(got, ids, len, er);
        assert(0 <= g * total && (g + 1) * total <= m.chunks.len()) by {
            vstd::arithmetic::div_mod::lemma_fundamental_div_mod(
                m.chunks.len() as int,
                total as int,
            );
            let n = m.chunks.len() / total;
            assert((g + 1) * total <= n * total) by (nonlinear_arith)
                requires
                    g + 1 <= n,
            ;
            assert(total * n == n * total) by (nonlinear_arith);
            assert(0 <= g * total) by (nonlinear_arith);
        }
        assert((g + 1) * total == g * total + total) by (nonlinear_arith);
        lemma_empty_slots(slots, total);
        let none = empty_slots(slots, total);
        assert(gone.subset_of(none)) by {
            assert forall|i: int| gone.contains(i) implies #[trigger] none.contains(i) by {
                let id = m.chunks[g * total + i];
                assert(ids[i] == id);
                lemma_scarce_queried(v.net, v, id, Set::empty(), q);
                lemma_scarce_fetched(v.net, w, id, Set::empty(), all, 1);
            }
        }
        vstd::set_lib::lemma_len_subset(gone, none);
        lemma_rebuild_fails(x, at, m, er, live, got, 0, g);
    }
}

} // verus!

//! A chunk on its way gets there, whatever the client does in the meantime. A link whose jitter
//! is at most four base latencies is prompt: the copies of a chunk are where they belong before
//! a read that follows the write can ask for them.

use crate::availability;
use crate::chunk::{self, ManifestV};
use crate::durability;
use crate::erasure::{self, Erasure};
use crate::error::ErrorV;
use crate::faultless;
use crate::hash;
use crate::message::{MessageV, MetaOpV, NodeId, QueryResultV, QueryV};
use crate::ordmap;
use crate::pacing;
use crate::path;
use crate::placement;
use crate::progress;
use crate::protocol::{self, Gathered};
use crate::readback;
use crate::replay::{self, Step};
use crate::simulation::{self, ClusterV};
use crate::soundness;
use crate::truth;
use crate::wire;
use vstd::prelude::*;

verus! {

/// Whether what the client sends to a storage node gets there.
pub open spec fn open_way(v: ClusterV, node: u32) -> bool {
    &&& soundness::sound(v)
    &&& progress::quiet(v.net)
    &&& progress::reaches_storage(v.net, node)
    &&& node < v.storages.len()
}

proof fn lemma_landing_answer(
    v: ClusterV,
    node: u32,
    data: Seq<u8>,
    t: nat,
    req: u64,
    deadline: u64,
)
    requires
        open_way(v, node),
        readback::landing(v, node, data, t),
    ensures
        readback::landing(v.answer_awaited(req, deadline).0, node, data, t),
    decreases u64::MAX - v.net.seq, v.net.queue.len(),
{
    let w = v.inbox_taken();
    soundness::lemma_inbox_taken_sound(v);
    soundness::lemma_pumped_sound(w);
    simulation::lemma_pump_progress(w);
    readback::lemma_landing_pumped(w, node, data, t);
    if protocol::answer_among(v.inbox, req, v.inbox.len()) is None && w.net.clock < deadline
        && w.pumped().1 {
        lemma_landing_answer(w.pumped().0, node, data, t, req, deadline);
    }
}

/// A query leaves a chunk on its way or lands it.
pub proof fn lemma_landing_queried(v: ClusterV, node: u32, data: Seq<u8>, t: nat, q: QueryV)
    requires
        open_way(v, node),
        readback::landing(v, node, data, t),
    ensures
        readback::landing(v.meta_queried(q).0, node, data, t),
{
    if v.primary() is Some && v.next_req < u64::MAX {
        let p = v.primary()->Some_0;
        let msg = MessageV::MetaQueryMsg { req_id: v.next_req, q };
        let env = wire::Envelope { from: NodeId::Client, to: NodeId::Meta(p), msg };
        durability::lemma_asked(v, p, msg);
        let w = v.asked(p, msg);
        let out = seq![env];
        readback::lemma_landing_sends(v, node, data, t, out);
        assert(out.drop_last() =~= seq![]);
        assert(v.net.sent_all(out) == v.net.sent_all(out.drop_last()).sent(env));
        lemma_landing_answer(w, node, data, t, v.next_req, w.deadline());
    }
}

proof fn lemma_landing_gathered(
    v: ClusterV,
    node: u32,
    data: Seq<u8>,
    t: nat,
    g: Gathered,
    ids: Seq<Seq<u8>>,
    quorum: nat,
    deadline: u64,
)
    requires
        open_way(v, node),
        readback::landing(v, node, data, t),
    ensures
        readback::landing(v.chunks_gathered(g, ids, quorum, deadline).0, node, data, t),
    decreases u64::MAX - v.net.seq, v.net.queue.len(),
{
    let w = v.inbox_taken();
    let now = g.with_all(v.inbox, v.inbox.len());
    soundness::lemma_inbox_taken_sound(v);
    soundness::lemma_pumped_sound(w);
    simulation::lemma_pump_progress(w);
    readback::lemma_landing_pumped(w, node, data, t);
    if !now.enough_all(ids, quorum) && w.net.clock < deadline && w.pumped().1 {
        lemma_landing_gathered(w.pumped().0, node, data, t, now, ids, quorum, deadline);
    }
}

proof fn lemma_landing_fetched(
    v: ClusterV,
    node: u32,
    data: Seq<u8>,
    t: nat,
    ids: Seq<Seq<u8>>,
    quorum: nat,
)
    requires
        open_way(v, node),
        readback::landing(v, node, data, t),
    ensures
        readback::landing(v.fetched(ids, quorum).0, node, data, t),
{
    let live = v.live_storage();
    let out = protocol::fetch_msgs(ids, live, ids.len());
    durability::lemma_fetch_msgs_kind(ids, live, ids.len());
    durability::lemma_client_sends(v, out);
    readback::lemma_landing_sends(v, node, data, t, out);
    let w = v.sent_all(out);
    lemma_landing_gathered(w, node, data, t, Gathered::nothing(), ids, quorum, w.deadline());
}

proof fn lemma_landing_rebuilt(
    v: ClusterV,
    node: u32,
    data: Seq<u8>,
    t: nat,
    at: Seq<char>,
    m: ManifestV,
    er: Erasure,
    live: Seq<u32>,
    got: Gathered,
    g: nat,
)
    requires
        readback::landing(v, node, data, t),
    ensures
        readback::landing(v.groups_rebuilt(at, m, er, live, got, g).0, node, data, t),
    decreases m.chunks.len() / (er.k as nat + er.m as nat) - g,
{
    let total = er.k as nat + er.m as nat;
    if g < m.chunks.len() / total {
        let ids = m.chunks.subrange((g * total) as int, ((g + 1) * total) as int);
        let len = protocol::group_len(m.size as nat, v.group_size(), g);
        let slots = protocol::group_slots(got, ids, len, er);
        match erasure::decoded(slots, er.k as nat, er.m as nat, len) {
            Err(_) => {},
            Ok(piece) => {
                let full = erasure::shards(piece, er.k as nat, er.m as nat);
                let out = protocol::rebuild_msgs(slots, ids, full, live, total);
                readback::lemma_landing_sends(v, node, data, t, out);
                lemma_landing_rebuilt(v.sent_all(out), node, data, t, at, m, er, live, got, g + 1);
            },
        }
    }
}

/// A read leaves a chunk on its way or lands it.
pub proof fn lemma_landing_read(v: ClusterV, node: u32, data: Seq<u8>, t: nat, at: Seq<char>)
    requires
        open_way(v, node),
        readback::landing(v, node, data, t),
    ensures
        readback::landing(v.read(at).0, node, data, t),
{
    if path::normal(at) {
        let q = QueryV::Get { path: at };
        durability::law_meta_query_keeps_sound(v, q);
        lemma_landing_queried(v, node, data, t, q);
        let (y, r) = v.meta_queried(q);
        if let Ok(QueryResultV::Manifest(Some(m))) = r {
            let ids = ordmap::in_order::<crate::hash::Hash>(m.chunks.to_set());
            let live = y.live_storage();
            match m.erasure {
                None => {
                    let quorum = y.opts.read_quorum as nat;
                    let f = y.opts.replication_factor as nat;
                    lemma_landing_fetched(y, node, data, t, ids, quorum);
                    let (w, g) = y.fetched(ids, quorum);
                    readback::lemma_landing_sends(
                        w,
                        node,
                        data,
                        t,
                        protocol::repair_msgs(g, ids, live, f, ids.len()),
                    );
                },
                Some((k, par)) => {
                    let er = Erasure { k: k as usize, m: par as usize };
                    lemma_landing_fetched(y, node, data, t, ids, 1);
                    let (w, got) = y.fetched(ids, 1);
                    lemma_landing_rebuilt(w, node, data, t, at, m, er, live, got, 0);
                },
            }
        }
    }
}

/// A replicated write leaves another chunk on its way or lands it.
pub proof fn lemma_landing_written(
    v: ClusterV,
    node: u32,
    data: Seq<u8>,
    t: nat,
    at: Seq<char>,
    bytes: Seq<u8>,
)
    requires
        open_way(v, node),
        v.opts.erasure is None,
        readback::landing(v, node, data, t),
    ensures
        readback::landing(v.written(at, bytes).0, node, data, t),
{
    let live = v.live_storage();
    let quorum = v.opts.write_quorum as nat;
    if path::normal(at) && live.len() >= quorum {
        let size = v.opts.chunk_size as nat;
        let chunks = chunk::chunks_of(bytes, size);
        let all = protocol::distinct_chunks(chunks, chunks.len());
        let ids = ordmap::in_order::<crate::hash::Hash>(all.dom());
        let r = v.opts.replication_factor as nat;
        let out = protocol::store_msgs(all, ids, live, r, ids.len());
        let none: Map<Seq<u8>, Set<u32>> = Map::empty();
        let op = MetaOpV::Put { path: at, manifest: chunk::manifest_of(bytes, size) };
        durability::lemma_store_msgs_kind(all, ids, live, r, ids.len());
        durability::lemma_client_sends(v, out);
        readback::lemma_landing_sends(v, node, data, t, out);
        let w = v.sent_all(out);
        durability::lemma_acks_awaited(w, none, ids, quorum, w.deadline());
        readback::lemma_landing_acks(w, node, data, t, none, ids, quorum, w.deadline());
        let x = w.acks_awaited(none, ids, quorum, w.deadline()).0;
        readback::lemma_landing_applied(x, node, data, t, op, at);
    }
}

proof fn lemma_landing_drained(v: ClusterV, node: u32, data: Seq<u8>, t: nat)
    requires
        open_way(v, node),
        readback::landing(v, node, data, t),
    ensures
        readback::landing(v.drained(), node, data, t),
    decreases u64::MAX - v.net.seq, v.net.queue.len(),
{
    simulation::lemma_pump_progress(v);
    soundness::lemma_pumped_sound(v);
    readback::lemma_landing_pumped(v, node, data, t);
    if v.pumped().1 {
        lemma_landing_drained(v.pumped().0, node, data, t);
    }
}

proof fn lemma_landing_rounds(v: ClusterV, p: u32, n: nat, node: u32, data: Seq<u8>, t: nat)
    requires
        open_way(v, node),
        readback::landing(v, node, data, t),
    ensures
        readback::landing(v.healed_within(p, n).0, node, data, t),
    decreases n,
{
    if n > 0 {
        let live = v.live_storage();
        let beats = Seq::new(live.len(), |j: int| v.heartbeat(live[j], p));
        let w = v.reporting(p, live.len());
        assert(w == v.sent_all(beats));
        durability::lemma_reporting(v, p);
        durability::lemma_healing_round(v, p);
        readback::lemma_landing_sends(v, node, data, t, beats);
        lemma_landing_drained(w, node, data, t);
        if !v.healing_round(p).fully_replicated() {
            lemma_landing_rounds(v.healing_round(p), p, (n - 1) as nat, node, data, t);
        }
    }
}

/// Every operation without faults leaves a chunk on its way or lands it.
pub proof fn lemma_landing_stepped(v: ClusterV, s: Step, node: u32, data: Seq<u8>, t: nat)
    requires
        open_way(v, node),
        faultless::whole(v),
        faultless::faultless(s),
        v.opts.erasure is None,
        readback::landing(v, node, data, t),
    ensures
        readback::landing(replay::stepped(v, s), node, data, t),
{
    match s {
        Step::Write { path, bytes } => {
            lemma_landing_written(v, node, data, t, path, bytes);
        },
        Step::Read { path } => {
            lemma_landing_read(v, node, data, t, path);
        },
        Step::Delete { path } => {
            readback::lemma_landing_applied(v, node, data, t, MetaOpV::Delete { path }, path);
        },
        Step::Mkdir { path } => {
            readback::lemma_landing_applied(v, node, data, t, MetaOpV::Mkdir { path }, path);
        },
        Step::Rename { from, to } => {
            readback::lemma_landing_applied(v, node, data, t, MetaOpV::Rename { from, to }, to);
        },
        Step::List { path } => {
            lemma_landing_queried(v, node, data, t, QueryV::List { path });
        },
        Step::Stat { path } => {
            lemma_landing_queried(v, node, data, t, QueryV::Stat { path });
        },
        Step::RecoverNode { idx } => {
            faultless::lemma_nothing_to_mend(v, NodeId::Storage(idx));
        },
        Step::RecoverMeta { idx } => {
            faultless::lemma_nothing_to_mend(v, NodeId::Meta(idx));
        },
        Step::Heal => {
            faultless::lemma_nothing_to_mend(v, NodeId::Client);
        },
        _ => {
            let w = v.settled();
            soundness::law_settling_keeps_sound(v);
            if let Some(p) = w.primary() {
                let n = w.opts.node_count as nat * 2 + 8;
                lemma_landing_rounds(w, p, n, node, data, t);
            }
        },
    }
}

/// Whether at least `n` nodes in reach hold a chunk or get it by time `t`.
pub open spec fn landing_on(v: ClusterV, data: Seq<u8>, n: nat, t: nat) -> bool {
    exists|s: Set<u32>| #[trigger] all_landing(v, s, data, t) && s.finite() && s.len() >= n
}

/// Whether every one of some nodes is in reach, and holds a chunk or gets it by time `t`.
pub open spec fn all_landing(v: ClusterV, s: Set<u32>, data: Seq<u8>, t: nat) -> bool {
    forall|i: u32| #[trigger]
        s.contains(i) ==> open_way(v, i) && readback::landing(v, i, data, t)
}

/// A file whose chunks are each held by a read quorum of nodes, or due there within three base
/// latencies, is read byte for byte: asking for the manifest takes two, and asking for a chunk
/// a third.
pub proof fn law_landing_file_is_read(
    x: ClusterV,
    q: u32,
    at: Seq<char>,
    bytes: Seq<u8>,
    t: nat,
)
    requires
        soundness::sound(x),
        truth::idle(x, q),
        0 < x.opts.chunk_size,
        path::normal(at),
        !truth::names(x, q).dirs.contains(at),
        truth::names(x, q).files.dom().contains(at),
        truth::names(x, q).files[at] == chunk::manifest_of(bytes, x.opts.chunk_size as nat),
        readback::no_collision(x, bytes, x.opts.chunk_size as nat),
        forall|i: int|
            0 <= i < chunk::piece_count(bytes.len(), x.opts.chunk_size as nat) ==> landing_on(
                x,
                #[trigger] chunk::piece(bytes, x.opts.chunk_size as nat, i),
                protocol::larger(x.opts.read_quorum as nat, 1),
                t,
            ),
        t <= x.net.clock + 3 * (x.net.params.base_latency as nat),
        progress::quiet(x.net),
        progress::reaches_meta(x.net, q),
        2 * progress::hop(x.net) < x.opts.op_deadline,
        progress::room_left(x.read(at).0),
    ensures
        x.read(at).1 == Ok::<Seq<u8>, ErrorV>(bytes),
{
    let size = x.opts.chunk_size as nat;
    let query = QueryV::Get { path: at };
    let m = chunk::manifest_of(bytes, size);
    let y = x.meta_queried(query).0;
    let k = protocol::larger(x.opts.read_quorum as nat, 1);
    truth::law_queries_are_answered_truly(x, q, query);
    durability::law_meta_query_keeps_sound(x, query);
    durability::law_file_operations_keep_sound(x, at, at, bytes);
    durability::law_replicated_read_keeps_sound(y, m);
    assert(truth::names(x, q).answered(query) == QueryResultV::Manifest(Some(m)));
    progress::law_queries_succeed(x, q, query);
    pacing::law_queries_take_time(x, query);
    assert forall|i: int|
        0 <= i < chunk::piece_count(bytes.len(), size) implies availability::supplied(
        y,
        hash::digest(#[trigger] chunk::piece(bytes, size, i)),
        k,
    ) by {
        let piece = chunk::piece(bytes, size, i);
        let id = hash::digest(piece);
        assert(landing_on(x, piece, k, t));
        let s = choose|s: Set<u32>| #[trigger]
            all_landing(x, s, piece, t) && s.finite() && s.len() >= k;
        assert(availability::all_reached_supply(y, s, id)) by {
            assert forall|node: u32| #[trigger] s.contains(node) implies availability::supplies(
                y,
                node,
                id,
            ) && progress::reaches_storage(y.net, node) by {
                assert(open_way(x, node));
                lemma_landing_queried(x, node, piece, t, query);
                if !soundness::holds(y.storages, node, id) {
                    let e = protocol::store_msg(node, id, piece);
                    let j = choose|j: int|
                        0 <= j < y.net.queue.len() && #[trigger] y.net.queue[j].env == e
                            && y.net.queue[j].time <= t;
                    assert(availability::hands(y.net.queue[j].env, node, id));
                }
            }
        }
    }
    readback::law_supplied_file_is_read(x, q, at, bytes);
}

/// A replicated write that succeeds leaves every chunk on its way to all the nodes that it
/// belongs on, due within a hop of the write's start, and took two base latencies at least.
pub proof fn law_written_chunks_land(v: ClusterV, at: Seq<char>, bytes: Seq<u8>, i: int)
    requires
        soundness::sound(v),
        progress::quiet(v.net),
        forall|k: u32| #[trigger]
            v.live_storage().contains(k) ==> progress::reaches_storage(v.net, k),
        v.opts.erasure is None,
        v.written(at, bytes).1 is Ok,
        progress::room_left(v.written(at, bytes).0),
        0 <= i < chunk::piece_count(bytes.len(), v.opts.chunk_size as nat),
        readback::no_collision(v, bytes, v.opts.chunk_size as nat),
    ensures
        landing_on(
            v.written(at, bytes).0,
            chunk::piece(bytes, v.opts.chunk_size as nat, i),
            v.target(),
            v.net.clock as nat + progress::hop(v.net),
        ),
        v.written(at, bytes).0.net.clock >= v.net.clock + 2 * (v.net.params.base_latency as nat),
{
    let w = v.written(at, bytes).0;
    let size = v.opts.chunk_size as nat;
    let piece = chunk::piece(bytes, size, i);
    let id = hash::digest(piece);
    let t = v.net.clock as nat + progress::hop(v.net);
    let live = v.live_storage();
    let r = v.opts.replication_factor as nat;
    let to = placement::placed(id, live, r);
    durability::law_file_operations_keep_sound(v, at, at, bytes);
    simulation::lemma_live(v);
    placement::law_placement(id, live, r);
    to.unique_seq_to_set();
    let s = to.to_set();
    assert(all_landing(w, s, piece, t)) by {
        assert forall|k: u32| #[trigger] s.contains(k) implies open_way(w, k) && readback::landing(
            w,
            k,
            piece,
            t,
        ) by {
            assert(to.contains(k));
            assert(live.contains(k));
            readback::law_replicas_are_on_their_way(v, at, bytes, i, k, t);
        }
    }
    lemma_write_takes_time(v, at, bytes);
}

/// A replicated write that succeeds took two base latencies at least.
pub proof fn lemma_write_takes_time(v: ClusterV, at: Seq<char>, bytes: Seq<u8>)
    requires
        soundness::sound(v),
        v.opts.erasure is None,
        v.written(at, bytes).1 is Ok,
        progress::room_left(v.written(at, bytes).0),
    ensures
        v.written(at, bytes).0.net.clock >= v.net.clock + 2 * (v.net.params.base_latency as nat),
{
    let live = v.live_storage();
    let quorum = v.opts.write_quorum as nat;
    let size = v.opts.chunk_size as nat;
    let chunks = chunk::chunks_of(bytes, size);
    let all = protocol::distinct_chunks(chunks, chunks.len());
    let ids = ordmap::in_order::<crate::hash::Hash>(all.dom());
    let r = v.opts.replication_factor as nat;
    let out = protocol::store_msgs(all, ids, live, r, ids.len());
    let none: Map<Seq<u8>, Set<u32>> = Map::empty();
    let op = MetaOpV::Put { path: at, manifest: chunk::manifest_of(bytes, size) };
    durability::lemma_store_msgs_kind(all, ids, live, r, ids.len());
    durability::lemma_client_sends(v, out);
    let w = v.sent_all(out);
    durability::lemma_acks_awaited(w, none, ids, quorum, w.deadline());
    let x = w.acks_awaited(none, ids, quorum, w.deadline()).0;
    durability::law_meta_operation_keeps_sound(x, op, at);
    pacing::law_operations_take_time(x, op, at);
}

} // verus!

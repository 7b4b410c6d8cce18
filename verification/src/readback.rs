//! A file that was written is read back, byte for byte, also when nodes have failed since.

use crate::availability;
use crate::chunk;
use crate::commits;
use crate::durability;
use crate::error::ErrorV;
use crate::hash;
use crate::healing;
use crate::message::{MessageV, MetaOpV, NodeId, QueryResultV, QueryV};
use crate::ordmap;
use crate::path;
use crate::placement;
use crate::progress;
use crate::protocol;
use crate::quorums;
use crate::replicas;
use crate::simulation::{self, ClusterV};
use crate::soundness;
use crate::truth;
use crate::wire;
use vstd::prelude::*;

verus! {

/// Nothing in the cluster collides with the chunks of a file: whatever is known under the id of
/// a chunk is that chunk, and chunks of the file with one id are equal.
pub open spec fn no_collision(v: ClusterV, bytes: Seq<u8>, size: nat) -> bool {
    &&& forall|i: int|
        0 <= i < chunk::piece_count(bytes.len(), size) ==> availability::single(
            v,
            hash::digest(#[trigger] chunk::piece(bytes, size, i)),
            chunk::piece(bytes, size, i),
        )
    &&& forall|i: int, j: int|
        #![trigger chunk::piece(bytes, size, i), chunk::piece(bytes, size, j)]
        0 <= i < chunk::piece_count(bytes.len(), size) && 0 <= j < chunk::piece_count(
            bytes.len(),
            size,
        ) && hash::digest(chunk::piece(bytes, size, i)) == hash::digest(
            chunk::piece(bytes, size, j),
        ) ==> chunk::piece(bytes, size, i) == chunk::piece(bytes, size, j)
}

pub proof fn lemma_store_msgs_agree(
    data: Map<Seq<u8>, Seq<u8>>,
    ids: Seq<Seq<u8>>,
    live: Seq<u32>,
    r: nat,
    n: nat,
    id: Seq<u8>,
    piece: Seq<u8>,
)
    requires
        n <= ids.len(),
        ids.contains(id) ==> data[id] == piece,
    ensures
        forall|i: int|
            0 <= i < protocol::store_msgs(data, ids, live, r, n).len() ==> availability::agrees(
                (#[trigger] protocol::store_msgs(data, ids, live, r, n)[i]).msg,
                id,
                piece,
            ),
    decreases n,
{
    if n > 0 {
        lemma_store_msgs_agree(data, ids, live, r, (n - 1) as nat, id, piece);
        let a = protocol::store_msgs(data, ids, live, r, (n - 1) as nat);
        let x = ids[n - 1];
        let b = placement::placed(x, live, r).map_values(
            |node: u32| protocol::store_msg(node, x, data[x]),
        );
        assert(ids.contains(x));
        assert forall|i: int| 0 <= i < (a + b).len() implies availability::agrees(
            (#[trigger] (a + b)[i]).msg,
            id,
            piece,
        ) by {
            if i < a.len() {
                assert((a + b)[i] == a[i]);
            } else {
                assert((a + b)[i] == b[i - a.len()]);
            }
        }
    }
}

/// The bytes that a write sends under the id of a chunk are that chunk.
proof fn lemma_written_data(bytes: Seq<u8>, size: nat, i: int)
    requires
        0 <= i < chunk::piece_count(bytes.len(), size),
        forall|i: int, j: int|
            #![trigger chunk::piece(bytes, size, i), chunk::piece(bytes, size, j)]
            0 <= i < chunk::piece_count(bytes.len(), size) && 0 <= j < chunk::piece_count(
                bytes.len(),
                size,
            ) && hash::digest(chunk::piece(bytes, size, i)) == hash::digest(
                chunk::piece(bytes, size, j),
            ) ==> chunk::piece(bytes, size, i) == chunk::piece(bytes, size, j),
    ensures
        ({
            let chunks = chunk::chunks_of(bytes, size);
            let data = protocol::distinct_chunks(chunks, chunks.len());
            let id = hash::digest(chunk::piece(bytes, size, i));
            data.dom().contains(id) && data[id] == chunk::piece(bytes, size, i)
        }),
{
    let chunks = chunk::chunks_of(bytes, size);
    let data = protocol::distinct_chunks(chunks, chunks.len());
    let id = hash::digest(chunk::piece(bytes, size, i));
    durability::lemma_distinct_chunks(chunks, chunks.len());
    assert(chunks[i].id == id);
    assert(data.dom().contains(id));
    let j = choose|j: int|
        0 <= j < chunks.len() && (#[trigger] chunks[j]).id == id && chunks[j].data == data[id];
    assert(chunks[j].data == chunk::piece(bytes, size, j));
}

/// A write brings nothing into the cluster that collides with its own chunks.
pub proof fn lemma_write_keeps_single(v: ClusterV, at: Seq<char>, bytes: Seq<u8>)
    requires
        soundness::sound(v),
        v.opts.erasure is None,
        no_collision(v, bytes, v.opts.chunk_size as nat),
    ensures
        no_collision(v.written(at, bytes).0, bytes, v.opts.chunk_size as nat),
{
    let live = v.live_storage();
    let quorum = v.opts.write_quorum as nat;
    let size = v.opts.chunk_size as nat;
    if path::normal(at) && live.len() >= quorum {
        let chunks = chunk::chunks_of(bytes, size);
        let data = protocol::distinct_chunks(chunks, chunks.len());
        let ids = ordmap::in_order::<crate::hash::Hash>(data.dom());
        let r = v.opts.replication_factor as nat;
        let out = protocol::store_msgs(data, ids, live, r, ids.len());
        durability::lemma_store_msgs_kind(data, ids, live, r, ids.len());
        durability::lemma_client_sends(v, out);
        let w = v.sent_all(out);
        durability::lemma_acks_awaited(w, Map::empty(), ids, quorum, w.deadline());
        let (x, short) = w.acks_awaited(Map::empty(), ids, quorum, w.deadline());
        let op = MetaOpV::Put { path: at, manifest: chunk::manifest_of(bytes, size) };
        let y = v.written(at, bytes).0;
        assert forall|i: int| 0 <= i < chunk::piece_count(bytes.len(), size) implies availability::single(
            y,
            hash::digest(#[trigger] chunk::piece(bytes, size, i)),
            chunk::piece(bytes, size, i),
        ) by {
            let piece = chunk::piece(bytes, size, i);
            let id = hash::digest(piece);
            lemma_written_data(bytes, size, i);
            lemma_store_msgs_agree(data, ids, live, r, ids.len(), id, piece);
            availability::lemma_single_sends(v, id, piece, out);
            availability::lemma_single_acks(
                w,
                id,
                piece,
                Map::empty(),
                ids,
                quorum,
                w.deadline(),
            );
            availability::lemma_single_applied(x, id, piece, op, at);
        }
    }
}

/// Whether `x` knows what `w` knows, with other nodes down perhaps and the metadata roles
/// settled anew.
pub open spec fn same_contents(w: ClusterV, x: ClusterV) -> bool {
    &&& x.opts == w.opts
    &&& x.storages == w.storages
    &&& x.inbox == w.inbox
    &&& x.net.queue == w.net.queue
}

/// When at least `n` nodes hold a chunk and fewer are lost, the rest of them are available.
proof fn lemma_rest_is_available(
    w: ClusterV,
    x: ClusterV,
    id: Seq<u8>,
    n: nat,
    lost: Set<u32>,
    k: nat,
)
    requires
        durability::held_by(w, id, n),
        x.storages == w.storages,
        lost.finite(),
        lost.len() + k <= n,
        forall|i: u32|
            !progress::reaches_storage(x.net, i) ==> #[trigger] lost.contains(i),
    ensures
        availability::available(x, id, k),
{
    let s = choose|s: Set<u32>| #[trigger]
        durability::all_hold(w, s, id) && s.finite() && s.len() >= n;
    let rest = s.difference(lost);
    vstd::set_lib::lemma_len_difference(s, lost);
    assert(s.subset_of(rest + lost));
    vstd::set_lib::lemma_len_union(rest, lost);
    vstd::set_lib::lemma_len_subset(s, rest + lost);
    assert(availability::all_reached_hold(x, rest, id)) by {
        assert forall|i: u32| #[trigger] rest.contains(i) implies soundness::holds(
            x.storages,
            i,
            id,
        ) && progress::reaches_storage(x.net, i) by {
            assert(s.contains(i));
        }
    }
}

/// A file of which, once its manifest is known, every chunk is held by a read quorum of nodes in
/// reach, or gets there before it is asked for, is read byte for byte.
pub proof fn law_supplied_file_is_read(x: ClusterV, q: u32, at: Seq<char>, bytes: Seq<u8>)
    requires
        soundness::sound(x),
        truth::idle(x, q),
        0 < x.opts.chunk_size,
        path::normal(at),
        !truth::names(x, q).dirs.contains(at),
        truth::names(x, q).files.dom().contains(at),
        truth::names(x, q).files[at] == chunk::manifest_of(bytes, x.opts.chunk_size as nat),
        no_collision(x, bytes, x.opts.chunk_size as nat),
        forall|i: int|
            0 <= i < chunk::piece_count(bytes.len(), x.opts.chunk_size as nat)
                ==> availability::supplied(
                x.meta_queried(QueryV::Get { path: at }).0,
                hash::digest(#[trigger] chunk::piece(bytes, x.opts.chunk_size as nat, i)),
                protocol::larger(x.opts.read_quorum as nat, 1),
            ),
        progress::quiet(x.net),
        progress::reaches_meta(x.net, q),
        2 * progress::hop(x.net) < x.opts.op_deadline,
        progress::room_left(x.read(at).0),
    ensures
        x.read(at).1 == Ok::<Seq<u8>, ErrorV>(bytes),
{
    let size = x.opts.chunk_size as nat;
    let m = chunk::manifest_of(bytes, size);
    let query = QueryV::Get { path: at };
    assert(truth::names(x, q).answered(query) == QueryResultV::Manifest(Some(m)));
    truth::law_queries_are_answered_truly(x, q, query);
    durability::law_meta_query_keeps_sound(x, query);
    let y = x.meta_queried(query).0;
    durability::law_file_operations_keep_sound(x, at, at, bytes);
    durability::law_replicated_read_keeps_sound(y, m);
    progress::law_queries_succeed(x, q, query);
    assert(x.read(at) == y.read_replicated(m));
    let data = Map::new(
        |id: Seq<u8>| true,
        |id: Seq<u8>| choose|d: Seq<u8>| #[trigger] is_piece(bytes, size, d) && hash::digest(d) == id,
    );
    assert forall|i: int| 0 <= i < m.chunks.len() implies {
        &&& availability::single(y, #[trigger] m.chunks[i], data[m.chunks[i]])
        &&& availability::supplied(
            y,
            m.chunks[i],
            protocol::larger(y.opts.read_quorum as nat, 1),
        )
        &&& data[m.chunks[i]] == chunk::piece(bytes, size, i)
    } by {
        let piece = chunk::piece(bytes, size, i);
        let id = hash::digest(piece);
        assert(is_piece(bytes, size, piece));
        let d = data[id];
        assert(is_piece(bytes, size, d) && hash::digest(d) == id);
        let j = choose|j: int|
            0 <= j < chunk::piece_count(bytes.len(), size) && #[trigger] chunk::piece(
                bytes,
                size,
                j,
            ) == d;
        assert(d == piece);
        assert(availability::single(x, id, piece));
        availability::lemma_single_queried(x, id, piece, query);
    }
    let parts = m.chunks.map_values(|id: Seq<u8>| data[id]);
    assert(parts =~= chunk::pieces(bytes, size));
    chunk::law_reassembly_is_identity(bytes, size);
    availability::law_supplied_reads_succeed(y, m, data);
}

/// A file whose chunks are each held by at least `n` nodes is read byte for byte, as long as
/// fewer of them are lost and a read quorum is left: on a quiet network, with time for messages
/// to travel, and when nothing collides with its chunks.
pub proof fn law_held_file_is_read(
    x: ClusterV,
    q: u32,
    at: Seq<char>,
    bytes: Seq<u8>,
    n: nat,
    lost: Set<u32>,
)
    requires
        soundness::sound(x),
        truth::idle(x, q),
        0 < x.opts.chunk_size,
        path::normal(at),
        !truth::names(x, q).dirs.contains(at),
        truth::names(x, q).files.dom().contains(at),
        truth::names(x, q).files[at] == chunk::manifest_of(bytes, x.opts.chunk_size as nat),
        no_collision(x, bytes, x.opts.chunk_size as nat),
        forall|i: int|
            0 <= i < chunk::piece_count(bytes.len(), x.opts.chunk_size as nat)
                ==> durability::held_by(
                x,
                hash::digest(#[trigger] chunk::piece(bytes, x.opts.chunk_size as nat, i)),
                n,
            ),
        lost.finite(),
        lost.len() + protocol::larger(x.opts.read_quorum as nat, 1) <= n,
        forall|i: u32|
            !progress::reaches_storage(x.net, i) ==> #[trigger] lost.contains(i),
        progress::quiet(x.net),
        progress::reaches_meta(x.net, q),
        2 * progress::hop(x.net) < x.opts.op_deadline,
        progress::room_left(x.read(at).0),
    ensures
        x.read(at).1 == Ok::<Seq<u8>, ErrorV>(bytes),
{
    let size = x.opts.chunk_size as nat;
    let query = QueryV::Get { path: at };
    let y = x.meta_queried(query).0;
    let k = protocol::larger(x.opts.read_quorum as nat, 1);
    durability::law_meta_query_keeps_sound(x, query);
    assert forall|i: int|
        0 <= i < chunk::piece_count(bytes.len(), size) implies availability::supplied(
        y,
        hash::digest(#[trigger] chunk::piece(bytes, size, i)),
        k,
    ) by {
        let id = hash::digest(chunk::piece(bytes, size, i));
        assert(durability::held_by(x, id, n));
        lemma_rest_is_available(x, x, id, n, lost, k);
        lemma_available_stays(x, y, id, k);
        let s = choose|s: Set<u32>| #[trigger]
            availability::all_reached_hold(y, s, id) && s.finite() && s.len() >= k;
        assert(availability::all_reached_supply(y, s, id));
    }
    law_supplied_file_is_read(x, q, at, bytes);
}

/// A file that was written is read back byte for byte, as long as fewer storage nodes are lost
/// than acknowledged it, a read quorum of them is left, and the metadata is there: on a quiet
/// network, with time for messages to travel, and when nothing collides with its chunks.
pub proof fn law_written_file_is_read(
    v: ClusterV,
    p: u32,
    at: Seq<char>,
    bytes: Seq<u8>,
    x: ClusterV,
    q: u32,
    lost: Set<u32>,
)
    requires
        soundness::sound(v),
        truth::idle(v, p),
        v.opts.erasure is None,
        0 < v.opts.chunk_size,
        v.written(at, bytes).1 is Ok,
        no_collision(v, bytes, v.opts.chunk_size as nat),
        same_contents(v.written(at, bytes).0, x),
        soundness::sound(x),
        truth::idle(x, q),
        truth::names(x, q) == truth::names(v.written(at, bytes).0, p),
        lost.finite(),
        lost.len() + protocol::larger(v.opts.read_quorum as nat, 1) <= v.opts.write_quorum,
        forall|i: u32|
            !progress::reaches_storage(x.net, i) ==> #[trigger] lost.contains(i),
        progress::quiet(x.net),
        progress::reaches_meta(x.net, q),
        2 * progress::hop(x.net) < x.opts.op_deadline,
        progress::room_left(x.read(at).0),
    ensures
        x.read(at).1 == Ok::<Seq<u8>, ErrorV>(bytes),
{
    let size = v.opts.chunk_size as nat;
    let w = v.written(at, bytes).0;
    let n = v.opts.write_quorum as nat;
    truth::law_writes_take_effect(v, p, at, bytes);
    durability::law_replicated_write(v, at, bytes);
    lemma_write_keeps_single(v, at, bytes);
    assert(!truth::names(v, p).dirs.contains(at));
    assert forall|i: int| 0 <= i < chunk::piece_count(bytes.len(), size) implies {
        &&& availability::single(
            x,
            hash::digest(#[trigger] chunk::piece(bytes, size, i)),
            chunk::piece(bytes, size, i),
        )
        &&& durability::held_by(x, hash::digest(chunk::piece(bytes, size, i)), n)
    } by {
        let id = hash::digest(chunk::piece(bytes, size, i));
        assert(availability::single(w, id, chunk::piece(bytes, size, i)));
        assert(durability::held_by(w, id, n));
        let s = choose|s: Set<u32>| #[trigger]
            durability::all_hold(w, s, id) && s.finite() && s.len() >= n;
        assert(durability::all_hold(x, s, id));
    }
    law_held_file_is_read(x, q, at, bytes, n, lost);
}

/// Whether some bytes are a chunk of a file.
pub open spec fn is_piece(bytes: Seq<u8>, size: nat, d: Seq<u8>) -> bool {
    exists|j: int|
        0 <= j < chunk::piece_count(bytes.len(), size) && #[trigger] chunk::piece(bytes, size, j)
            == d
}

pub proof fn lemma_available_stays(v: ClusterV, w: ClusterV, id: Seq<u8>, n: nat)
    requires
        availability::available(v, id, n),
        soundness::extends(v, w),
    ensures
        availability::available(w, id, n),
{
    let s = choose|s: Set<u32>| #[trigger]
        availability::all_reached_hold(v, s, id) && s.finite() && s.len() >= n;
    assert forall|i: u32| #[trigger] s.contains(i) implies soundness::holds(w.storages, i, id)
        && progress::reaches_storage(w.net, i) by {
        assert(soundness::holds(v.storages, i, id));
    }
    assert(availability::all_reached_hold(w, s, id));
}

/// On a quiet network, with enough storage nodes and metadata nodes in reach, a write that the
/// namespace allows succeeds, and the file then reads back byte for byte.
pub proof fn law_write_then_read(
    v: ClusterV,
    p: u32,
    history: Seq<MetaOpV>,
    backups: Set<u32>,
    at: Seq<char>,
    bytes: Seq<u8>,
    cut: Set<u32>,
    lost: Set<u32>,
)
    requires
        soundness::sound(v),
        replicas::steady(v, p, history),
        commits::can_commit(v, p, history, backups),
        history.len() < u64::MAX,
        progress::quiet(v.net),
        progress::reaches_meta(v.net, p),
        v.opts.erasure is None,
        0 < v.opts.chunk_size,
        path::normal(at),
        quorums::cut_off(v, cut),
        v.opts.write_quorum + cut.len() <= v.target(),
        lost.finite(),
        lost.len() + protocol::larger(v.opts.read_quorum as nat, 1) <= v.opts.write_quorum,
        forall|i: u32|
            !progress::reaches_storage(v.net, i) ==> #[trigger] lost.contains(i),
        4 * progress::hop(v.net) < v.opts.op_deadline,
        truth::names(v, p).validated(
            MetaOpV::Put { path: at, manifest: truth::manifest_for(v, bytes) },
        ) is Ok,
        no_collision(v, bytes, v.opts.chunk_size as nat),
        progress::room_left(v.written(at, bytes).0.read(at).0),
    ensures
        v.written(at, bytes).1 is Ok,
        v.written(at, bytes).0.read(at).1 == Ok::<Seq<u8>, ErrorV>(bytes),
{
    let w = v.written(at, bytes).0;
    durability::law_file_operations_keep_sound(v, at, at, bytes);
    durability::law_file_operations_keep_sound(w, at, at, bytes);
    quorums::law_replicated_writes_succeed(v, p, history, backups, at, bytes, cut);
    truth::law_writes_take_effect(v, p, at, bytes);
    law_written_file_is_read(v, p, at, bytes, w, p, lost);
}

/// A chunk on its way to a node, due by time `t`, or held by it.
pub open spec fn landing(v: ClusterV, node: u32, data: Seq<u8>, t: nat) -> bool {
    ||| soundness::holds(v.storages, node, hash::digest(data))
    ||| progress::coming(v.net, protocol::store_msg(node, hash::digest(data), data), t)
}

/// Sending leaves a chunk on its way.
pub proof fn lemma_landing_sends(
    v: ClusterV,
    node: u32,
    data: Seq<u8>,
    t: nat,
    out: Seq<wire::Envelope>,
)
    requires
        landing(v, node, data, t),
    ensures
        landing(v.sent_all(out), node, data, t),
{
    if !soundness::holds(v.storages, node, hash::digest(data)) {
        let e = protocol::store_msg(node, hash::digest(data), data);
        progress::lemma_coming_sends(v.net, out, e, t);
    }
}

/// A delivery leaves a chunk on its way or lands it.
pub proof fn lemma_landing_pumped(v: ClusterV, node: u32, data: Seq<u8>, t: nat)
    requires
        soundness::sound(v),
        progress::quiet(v.net),
        progress::reaches_storage(v.net, node),
        node < v.storages.len(),
        landing(v, node, data, t),
    ensures
        landing(v.pumped().0, node, data, t),
{
    let e = protocol::store_msg(node, hash::digest(data), data);
    soundness::lemma_pumped_sound(v);
    if soundness::holds(v.storages, node, hash::digest(data)) {
        assert(soundness::holds(v.pumped().0.storages, node, hash::digest(data)));
    } else {
        let (n, d) = v.net.stepped();
        progress::lemma_coming_in_time(v, e, t);
        progress::lemma_coming_stepped(v.net, e, t);
        let env = d->Some_0;
        let (x, out) = v.with_net(n).delivered(env);
        if env != e {
            progress::lemma_coming_sends(x.net, out, e, t);
        }
    }
}

/// Waiting for acknowledgements leaves a chunk on its way or lands it.
pub proof fn lemma_landing_acks(
    v: ClusterV,
    node: u32,
    data: Seq<u8>,
    t: nat,
    acks: Map<Seq<u8>, Set<u32>>,
    ids: Seq<Seq<u8>>,
    quorum: nat,
    deadline: u64,
)
    requires
        soundness::sound(v),
        progress::quiet(v.net),
        progress::reaches_storage(v.net, node),
        node < v.storages.len(),
        landing(v, node, data, t),
    ensures
        landing(v.acks_awaited(acks, ids, quorum, deadline).0, node, data, t),
    decreases u64::MAX - v.net.seq, v.net.queue.len(),
{
    let w = v.inbox_taken();
    let now = protocol::acks_after(acks, v.inbox, v.inbox.len());
    soundness::lemma_inbox_taken_sound(v);
    soundness::lemma_pumped_sound(w);
    simulation::lemma_pump_progress(w);
    lemma_landing_pumped(w, node, data, t);
    if !protocol::quorum_met(now, ids, quorum) && w.net.clock < deadline && w.pumped().1 {
        lemma_landing_acks(w.pumped().0, node, data, t, now, ids, quorum, deadline);
    }
}

proof fn lemma_landing_commit(v: ClusterV, node: u32, data: Seq<u8>, t: nat, req: u64, deadline: u64)
    requires
        soundness::sound(v),
        progress::quiet(v.net),
        progress::reaches_storage(v.net, node),
        node < v.storages.len(),
        landing(v, node, data, t),
    ensures
        landing(v.commit_awaited(req, deadline).0, node, data, t),
    decreases u64::MAX - v.net.seq, v.net.queue.len(),
{
    let w = v.inbox_taken();
    soundness::lemma_inbox_taken_sound(v);
    soundness::lemma_pumped_sound(w);
    simulation::lemma_pump_progress(w);
    lemma_landing_pumped(w, node, data, t);
    if protocol::commit_among(v.inbox, req, v.inbox.len()) is None && w.net.clock < deadline
        && w.pumped().1 {
        lemma_landing_commit(w.pumped().0, node, data, t, req, deadline);
    }
}

/// A metadata operation leaves a chunk on its way or lands it.
pub proof fn lemma_landing_applied(
    v: ClusterV,
    node: u32,
    data: Seq<u8>,
    t: nat,
    op: MetaOpV,
    err_path: Seq<char>,
)
    requires
        soundness::sound(v),
        progress::quiet(v.net),
        progress::reaches_storage(v.net, node),
        node < v.storages.len(),
        landing(v, node, data, t),
    ensures
        landing(v.meta_applied(op, err_path).0, node, data, t),
{
    if v.primary() is Some && v.next_req < u64::MAX {
        let p = v.primary()->Some_0;
        let msg = MessageV::MetaOpMsg { req_id: v.next_req, op };
        let env = wire::Envelope { from: NodeId::Client, to: NodeId::Meta(p), msg };
        durability::lemma_asked(v, p, msg);
        let w = v.asked(p, msg);
        let out = seq![env];
        lemma_landing_sends(v, node, data, t, out);
        assert(out.drop_last() =~= seq![]);
        assert(v.net.sent_all(out) == v.net.sent_all(out.drop_last()).sent(env));
        lemma_landing_commit(w, node, data, t, v.next_req, w.deadline());
    }
}

/// After a write on a quiet network every chunk is held by, or on its way to, every node that it
/// was placed on and that the client can reach, and it is due within a hop of the write's start.
pub proof fn law_replicas_are_on_their_way(
    v: ClusterV,
    at: Seq<char>,
    bytes: Seq<u8>,
    i: int,
    node: u32,
    t: nat,
)
    requires
        soundness::sound(v),
        progress::quiet(v.net),
        progress::reaches_storage(v.net, node),
        v.opts.erasure is None,
        v.written(at, bytes).1 is Ok,
        v.written(at, bytes).0.net.seq < u64::MAX,
        0 <= i < chunk::piece_count(bytes.len(), v.opts.chunk_size as nat),
        v.net.clock + progress::hop(v.net) <= t || u64::MAX <= t,
        no_collision(v, bytes, v.opts.chunk_size as nat),
        placement::placed(
            hash::digest(chunk::piece(bytes, v.opts.chunk_size as nat, i)),
            v.live_storage(),
            v.opts.replication_factor as nat,
        ).contains(node),
    ensures
        landing(
            v.written(at, bytes).0,
            node,
            chunk::piece(bytes, v.opts.chunk_size as nat, i),
            t,
        ),
{
    let live = v.live_storage();
    let quorum = v.opts.write_quorum as nat;
    let size = v.opts.chunk_size as nat;
    let r = v.opts.replication_factor as nat;
    let piece = chunk::piece(bytes, size, i);
    let id = hash::digest(piece);
    let op = MetaOpV::Put { path: at, manifest: chunk::manifest_of(bytes, size) };
    let chunks = chunk::chunks_of(bytes, size);
    let data = protocol::distinct_chunks(chunks, chunks.len());
    let ids = ordmap::in_order::<crate::hash::Hash>(data.dom());
    let out = protocol::store_msgs(data, ids, live, r, ids.len());
    let none: Map<Seq<u8>, Set<u32>> = Map::empty();
    durability::lemma_store_msgs_kind(data, ids, live, r, ids.len());
    durability::lemma_client_sends(v, out);
    simulation::lemma_sent_all_frame(v.net, out);
    simulation::lemma_live(v);
    let w = v.sent_all(out);
    durability::lemma_acks_awaited(w, none, ids, quorum, w.deadline());
    let x = w.acks_awaited(none, ids, quorum, w.deadline()).0;
    durability::law_meta_operation_keeps_sound(x, op, at);
    placement::law_placement(id, live, r);
    assert(live.contains(node));
    durability::lemma_written_ids(bytes, size, i);
    lemma_written_data(bytes, size, i);
    let j = choose|j: int| 0 <= j < ids.len() && #[trigger] ids[j] == id;
    let to = placement::placed(id, live, r);
    let k = choose|k: int| 0 <= k < to.len() && to[k] == node;
    let at_msg = quorums::lemma_stored_at(data, ids, live, r, ids.len(), j, k);
    progress::lemma_sent_is_coming(v.net, out, at_msg, t);
    assert(landing(w, node, piece, t));
    lemma_landing_acks(w, node, piece, t, none, ids, quorum, w.deadline());
    lemma_landing_applied(x, node, piece, t, op, at);
}

/// After a write on a quiet network, once nothing is in flight, every chunk is held by every
/// node that it was placed on and that the client can reach.
pub proof fn law_all_replicas_land(v: ClusterV, at: Seq<char>, bytes: Seq<u8>, i: int, node: u32)
    requires
        soundness::sound(v),
        progress::quiet(v.net),
        progress::reaches_storage(v.net, node),
        v.opts.erasure is None,
        v.written(at, bytes).1 is Ok,
        v.written(at, bytes).0.net.seq < u64::MAX,
        0 <= i < chunk::piece_count(bytes.len(), v.opts.chunk_size as nat),
        no_collision(v, bytes, v.opts.chunk_size as nat),
        placement::placed(
            hash::digest(chunk::piece(bytes, v.opts.chunk_size as nat, i)),
            v.live_storage(),
            v.opts.replication_factor as nat,
        ).contains(node),
    ensures
        soundness::holds(
            v.written(at, bytes).0.drained().storages,
            node,
            hash::digest(chunk::piece(bytes, v.opts.chunk_size as nat, i)),
        ),
{
    let y = v.written(at, bytes).0;
    let piece = chunk::piece(bytes, v.opts.chunk_size as nat, i);
    let id = hash::digest(piece);
    law_replicas_are_on_their_way(v, at, bytes, i, node, u64::MAX as nat);
    durability::law_file_operations_keep_sound(v, at, at, bytes);
    durability::lemma_drained(y);
    if soundness::holds(y.storages, node, id) {
        assert(soundness::holds(y.drained().storages, node, id));
    } else {
        simulation::lemma_live(v);
        placement::law_placement(id, v.live_storage(), v.opts.replication_factor as nat);
        assert(v.live_storage().contains(node));
        healing::law_drained_chunk_is_held(y, node, piece);
    }
}

/// After a write on a quiet network, once nothing is in flight, the file is read back byte for
/// byte as long as fewer storage nodes are lost than hold its chunks: the replication factor,
/// or all nodes that were up, and a read quorum is left.
pub proof fn law_file_survives_losses(
    v: ClusterV,
    p: u32,
    at: Seq<char>,
    bytes: Seq<u8>,
    x: ClusterV,
    q: u32,
    lost: Set<u32>,
)
    requires
        soundness::sound(v),
        truth::idle(v, p),
        progress::quiet(v.net),
        forall|i: u32| #[trigger]
            v.live_storage().contains(i) ==> progress::reaches_storage(v.net, i),
        v.opts.erasure is None,
        0 < v.opts.chunk_size,
        v.written(at, bytes).1 is Ok,
        v.written(at, bytes).0.net.seq < u64::MAX,
        no_collision(v, bytes, v.opts.chunk_size as nat),
        same_contents(v.written(at, bytes).0.drained(), x),
        soundness::sound(x),
        truth::idle(x, q),
        truth::names(x, q) == truth::names(v.written(at, bytes).0, p),
        lost.finite(),
        lost.len() + protocol::larger(v.opts.read_quorum as nat, 1) <= v.target(),
        forall|i: u32|
            !progress::reaches_storage(x.net, i) ==> #[trigger] lost.contains(i),
        progress::quiet(x.net),
        progress::reaches_meta(x.net, q),
        2 * progress::hop(x.net) < x.opts.op_deadline,
        progress::room_left(x.read(at).0),
    ensures
        x.read(at).1 == Ok::<Seq<u8>, ErrorV>(bytes),
{
    let size = v.opts.chunk_size as nat;
    let w = v.written(at, bytes).0;
    let d = w.drained();
    let n = v.target();
    let live = v.live_storage();
    let r = v.opts.replication_factor as nat;
    truth::law_writes_take_effect(v, p, at, bytes);
    durability::law_file_operations_keep_sound(v, at, at, bytes);
    durability::lemma_drained(w);
    lemma_write_keeps_single(v, at, bytes);
    assert(!truth::names(v, p).dirs.contains(at));
    simulation::lemma_live(v);
    assert forall|i: int| 0 <= i < chunk::piece_count(bytes.len(), size) implies {
        &&& availability::single(
            x,
            hash::digest(#[trigger] chunk::piece(bytes, size, i)),
            chunk::piece(bytes, size, i),
        )
        &&& durability::held_by(x, hash::digest(chunk::piece(bytes, size, i)), n)
    } by {
        let piece = chunk::piece(bytes, size, i);
        let id = hash::digest(piece);
        assert(availability::single(w, id, piece));
        lemma_single_drained(w, id, piece);
        assert(availability::single(d, id, piece));
        let to = placement::placed(id, live, r);
        placement::law_placement(id, live, r);
        to.unique_seq_to_set();
        let s = to.to_set();
        assert(durability::all_hold(x, s, id)) by {
            assert forall|k: u32| #[trigger] s.contains(k) implies soundness::holds(
                x.storages,
                k,
                id,
            ) by {
                assert(to.contains(k));
                assert(live.contains(k));
                law_all_replicas_land(v, at, bytes, i, k);
            }
        }
    }
    law_held_file_is_read(x, q, at, bytes, n, lost);
}

/// Delivering all that is in flight brings no other bytes under an id.
pub proof fn lemma_single_drained(v: ClusterV, id: Seq<u8>, data: Seq<u8>)
    requires
        soundness::sound(v),
        availability::single(v, id, data),
    ensures
        availability::single(v.drained(), id, data),
    decreases u64::MAX - v.net.seq, v.net.queue.len(),
{
    simulation::lemma_pump_progress(v);
    soundness::lemma_pumped_sound(v);
    availability::lemma_single_pumped(v, id, data);
    if v.pumped().1 {
        lemma_single_drained(v.pumped().0, id, data);
    }
}

} // verus!

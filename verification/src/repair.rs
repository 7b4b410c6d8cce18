//! Reads repair what they find missing: chunks go back to the nodes that should hold them, and
//! lost shards are computed anew.

use crate::absence;
use crate::availability;
use crate::chunk::{self, ChunkV, ManifestV};
use crate::durability;
use crate::erasure::{self, Erasure};
use crate::error::ErrorV;
use crate::hash;
use crate::healing;
use crate::lastwrite;
use crate::message::{MessageV, QueryResultV, QueryV};
use crate::metadata;
use crate::net;
use crate::ordmap;
use crate::path;
use crate::placement;
use crate::progress;
use crate::protocol::{self, Gathered};
use crate::reconstruction;
use crate::simulation::{self, ClusterV, Letter};
use crate::soundness;
use crate::truth;
use crate::wire;
use vstd::prelude::*;

verus! {

/// A replicated read hands every chunk that it gathered to each node that should hold it and
/// said that it does not.
pub proof fn law_read_repairs_replicas(
    g: Gathered,
    ids: Seq<Seq<u8>>,
    live: Seq<u32>,
    r: nat,
    n: nat,
    i: int,
    node: u32,
)
    requires
        0 <= i < n <= ids.len(),
        placement::placed(ids[i], live, r).contains(node),
        protocol::noted_for(g.missing, ids[i]).contains(node),
    ensures
        protocol::repair_msgs(g, ids, live, r, n).contains(
            protocol::store_msg(node, ids[i], g.have[ids[i]]),
        ),
    decreases n,
{
    let before = protocol::repair_msgs(g, ids, live, r, (n - 1) as nat);
    let id = ids[n - 1];
    let f = |x: u32| protocol::noted_for(g.missing, id).contains(x);
    let to = placement::placed(id, live, r).filter(f);
    let new = to.map_values(|x: u32| protocol::store_msg(x, id, g.have[id]));
    let all = before + new;
    let e = protocol::store_msg(node, ids[i], g.have[ids[i]]);
    if i < n - 1 {
        law_read_repairs_replicas(g, ids, live, r, (n - 1) as nat, i, node);
        let k = choose|k: int| 0 <= k < before.len() && before[k] == e;
        assert(all[k] == e);
    } else {
        metadata::lemma_filter_members(placement::placed(id, live, r), f);
        assert(to.contains(node));
        let k = choose|k: int| 0 <= k < to.len() && to[k] == node;
        assert(all[before.len() + k] == e);
    }
}

/// An erasure-coded read computes every shard of a chunk that it did not find anew and hands it
/// to the best live node.
pub proof fn law_read_repairs_shards(
    piece: Seq<u8>,
    er: Erasure,
    slots: Seq<Option<Seq<u8>>>,
    live: Seq<u32>,
    n: nat,
    i: int,
)
    requires
        0 <= i < n <= er.k + er.m,
        slots.len() == er.k + er.m,
        slots[i] is None,
        live.len() > 0,
    ensures
        protocol::rebuild_msgs(
            slots,
            protocol::ids_of(protocol::shard_group(piece, er)),
            erasure::shards(piece, er.k as nat, er.m as nat),
            live,
            n,
        ).contains(
            protocol::store_msg(
                placement::placed(protocol::shard_group(piece, er)[i].id, live, 1)[0],
                protocol::shard_group(piece, er)[i].id,
                protocol::shard_group(piece, er)[i].data,
            ),
        ),
    decreases n,
{
    let group = protocol::shard_group(piece, er);
    let ids = protocol::ids_of(group);
    let full = erasure::shards(piece, er.k as nat, er.m as nat);
    let before = protocol::rebuild_msgs(slots, ids, full, live, (n - 1) as nat);
    let all = protocol::rebuild_msgs(slots, ids, full, live, n);
    let id = group[i].id;
    let e = protocol::store_msg(placement::placed(id, live, 1)[0], id, group[i].data);
    assert(ids[i] == id && full[i] == group[i].data && hash::digest(full[i]) == id);
    if i < n - 1 {
        law_read_repairs_shards(piece, er, slots, live, (n - 1) as nat, i);
        let k = choose|k: int| 0 <= k < before.len() && before[k] == e;
        assert(all[k] == e);
    } else {
        assert(all[before.len() as int] == e);
    }
}

/// Whether some live node holds a chunk.
pub open spec fn held_live(v: ClusterV, id: Seq<u8>) -> bool {
    exists|i: u32| v.live_storage().contains(i) && #[trigger] soundness::holds(v.storages, i, id)
}

/// Whether everything that was gathered is held by live nodes.
spec fn sourced(v: ClusterV, g: Gathered) -> bool {
    forall|id: Seq<u8>| #[trigger] g.have.dom().contains(id) ==> held_live(v, id)
}

/// Whether all letters in the inbox come from nodes that are up.
spec fn fresh_inbox(v: ClusterV) -> bool {
    forall|i: int| 0 <= i < v.inbox.len() ==> !v.net.down.contains((#[trigger] v.inbox[i]).from)
}

/// What a live node holds it goes on holding.
proof fn lemma_held_live_stays(v: ClusterV, w: ClusterV, id: Seq<u8>)
    requires
        soundness::extends(v, w),
        held_live(v, id),
    ensures
        held_live(w, id),
{
    let i = choose|i: u32|
        v.live_storage().contains(i) && #[trigger] soundness::holds(v.storages, i, id);
    truth::lemma_primary_stays(v, w);
    assert(soundness::holds(w.storages, i, id));
}

/// What letters from live nodes bring is held by live nodes.
proof fn lemma_sourced_letters(v: ClusterV, g: Gathered, inbox: Seq<Letter>, n: nat)
    requires
        soundness::sound(v),
        sourced(v, g),
        n <= inbox.len(),
        forall|i: int|
            0 <= i < inbox.len() ==> soundness::honest(
                v.storages,
                (#[trigger] inbox[i]).from,
                inbox[i].msg,
            ) && !v.net.down.contains(inbox[i].from),
    ensures
        sourced(v, g.with_all(inbox, n)),
    decreases n,
{
    if n > 0 {
        lemma_sourced_letters(v, g, inbox, (n - 1) as nat);
        let before = g.with_all(inbox, (n - 1) as nat);
        let l = inbox[n - 1];
        assert(soundness::honest(v.storages, l.from, l.msg));
        simulation::lemma_live(v);
        assert forall|id: Seq<u8>| #[trigger]
            g.with_all(inbox, n).have.dom().contains(id) implies held_live(v, id) by {
            if !before.have.dom().contains(id) {
                let k = l.from->Storage_0;
                assert(soundness::holds(v.storages, k, id));
                assert(v.live_storage().contains(k));
            }
        }
    }
}

/// A delivery to the client comes from a node that is up.
proof fn lemma_fresh_pumped(v: ClusterV)
    requires
        fresh_inbox(v),
    ensures
        fresh_inbox(v.pumped().0),
{
    let y = v.pumped().0;
    let at = net::law_step(v.net);
    if let Some(env) = v.net.stepped().1 {
        let (x, out) = v.with_net(v.net.stepped().0).delivered(env);
        simulation::lemma_sent_all_frame(x.net, out);
        assert forall|i: int| 0 <= i < y.inbox.len() implies !y.net.down.contains(
            (#[trigger] y.inbox[i]).from,
        ) by {
            if i < v.inbox.len() {
                assert(y.inbox[i] == v.inbox[i]);
            }
        }
    }
}

/// All that a read gathers is held by live nodes.
proof fn lemma_sourced_gathered(
    v: ClusterV,
    g: Gathered,
    ids: Seq<Seq<u8>>,
    quorum: nat,
    deadline: u64,
)
    requires
        soundness::sound(v),
        fresh_inbox(v),
        sourced(v, g),
    ensures
        sourced(
            v.chunks_gathered(g, ids, quorum, deadline).0,
            v.chunks_gathered(g, ids, quorum, deadline).1,
        ),
    decreases u64::MAX - v.net.seq, v.net.queue.len(),
{
    let w = v.inbox_taken();
    let y = w.pumped().0;
    let now = g.with_all(v.inbox, v.inbox.len());
    lemma_sourced_letters(v, g, v.inbox, v.inbox.len());
    soundness::lemma_inbox_taken_sound(v);
    soundness::lemma_pumped_sound(w);
    simulation::lemma_pump_progress(w);
    lemma_fresh_pumped(w);
    truth::lemma_primary_stays(v, w);
    assert forall|id: Seq<u8>| #[trigger] now.have.dom().contains(id) implies held_live(w, id)
        && held_live(y, id) by {
        assert(held_live(v, id));
        let i = choose|i: u32|
            v.live_storage().contains(i) && #[trigger] soundness::holds(v.storages, i, id);
        assert(soundness::holds(w.storages, i, id));
        lemma_held_live_stays(w, y, id);
    }
    if !now.enough_all(ids, quorum) && w.net.clock < deadline && w.pumped().1 {
        lemma_sourced_gathered(y, now, ids, quorum, deadline);
    }
}

/// When a query has been answered nothing is left in the inbox.
proof fn lemma_answered_inbox(v: ClusterV, req: u64, deadline: u64)
    ensures
        v.answer_awaited(req, deadline).1 is Some ==> v.answer_awaited(req, deadline).0.inbox.len()
            == 0,
    decreases u64::MAX - v.net.seq, v.net.queue.len(),
{
    let w = v.inbox_taken();
    simulation::lemma_pump_progress(w);
    if protocol::answer_among(v.inbox, req, v.inbox.len()) is None && w.net.clock < deadline
        && w.pumped().1 {
        lemma_answered_inbox(w.pumped().0, req, deadline);
    }
}

/// Whether the client reaches every storage node that is up.
pub open spec fn live_in_reach(v: ClusterV) -> bool {
    forall|i: u32| #[trigger]
        v.live_storage().contains(i) ==> progress::reaches_storage(v.net, i)
}

/// What is in flight stays in flight while further chunks are rebuilt.
proof fn lemma_in_flight_rebuilt(
    v: ClusterV,
    at: Seq<char>,
    m: ManifestV,
    er: Erasure,
    live: Seq<u32>,
    got: Gathered,
    g: nat,
    e: wire::Envelope,
)
    requires
        healing::in_flight(v, e),
    ensures
        healing::in_flight(v.groups_rebuilt(at, m, er, live, got, g).0, e),
    decreases m.chunks.len() / (er.k as nat + er.m as nat) - g,
{
    let total = er.k as nat + er.m as nat;
    if g < m.chunks.len() / total {
        let ids = m.chunks.subrange((g * total) as int, ((g + 1) * total) as int);
        let len = protocol::group_len(m.size as nat, v.group_size(), g);
        let slots = protocol::group_slots(got, ids, len, er);
        if let Ok(piece) = erasure::decoded(slots, er.k as nat, er.m as nat, len) {
            let full = erasure::shards(piece, er.k as nat, er.m as nat);
            let out = protocol::rebuild_msgs(slots, ids, full, live, total);
            progress::lemma_coming_sends(v.net, out, e, u64::MAX as nat);
            lemma_in_flight_rebuilt(v.sent_all(out), at, m, er, live, got, g + 1, e);
        }
    }
}

/// The message that brings a shard to the best live node.
pub open spec fn shard_msg(live: Seq<u32>, shard: ChunkV) -> wire::Envelope {
    protocol::store_msg(placement::placed(shard.id, live, 1)[0], shard.id, shard.data)
}

/// Rebuilding the chunks from `g` on sends every shard that was not gathered.
proof fn lemma_rebuilding_sends(
    v: ClusterV,
    at: Seq<char>,
    bytes: Seq<u8>,
    er: Erasure,
    live: Seq<u32>,
    got: Gathered,
    g: nat,
    h: int,
    i: int,
)
    requires
        soundness::sound(v),
        progress::quiet(v.net),
        live == v.live_storage(),
        live_in_reach(v),
        live.len() > 0,
        1 <= er.k,
        er.k + er.m <= 64,
        bytes.len() <= u64::MAX,
        g <= h < protocol::shard_groups(bytes, v.group_size(), er).len(),
        0 <= i < er.k + er.m,
        !got.have.dom().contains(protocol::shard_groups(bytes, v.group_size(), er)[h][i].id),
        ({
            let m = protocol::erasure_manifest(bytes, v.group_size(), er);
            let (w, r) = v.groups_rebuilt(at, m, er, live, got, g);
            &&& r == Ok::<Seq<Seq<u8>>, ErrorV>(
                chunk::pieces(bytes, v.group_size()).skip(g as int),
            )
            &&& w.net.seq < u64::MAX
        }),
    ensures
        ({
            let m = protocol::erasure_manifest(bytes, v.group_size(), er);
            healing::in_flight(
                v.groups_rebuilt(at, m, er, live, got, g).0,
                shard_msg(live, protocol::shard_groups(bytes, v.group_size(), er)[h][i]),
            )
        }),
    decreases h - g,
{
    let size = v.group_size();
    let groups = protocol::shard_groups(bytes, size, er);
    let total = er.k as nat + er.m as nat;
    let m = protocol::erasure_manifest(bytes, size, er);
    let ps = chunk::pieces(bytes, size);
    let n = groups.len();
    assert forall|j: int| 0 <= j < groups.len() implies (#[trigger] groups[j]).len() == total by {}
    reconstruction::lemma_flat_ids(groups, total, n, g as int);
    assert(m.chunks.len() / total == n) by {
        vstd::arithmetic::div_mod::lemma_div_multiples_vanish(n as int, total as int);
        assert(n * total == total * n) by (nonlinear_arith);
    }
    let ids = m.chunks.subrange((g * total) as int, ((g + 1) * total) as int);
    assert(groups[g as int] == protocol::shard_group(ps[g as int], er));
    assert(ids == protocol::ids_of(groups[g as int]));
    let len = protocol::group_len(m.size as nat, size, g);
    let slots = protocol::group_slots(got, ids, len, er);
    let piece = erasure::decoded(slots, er.k as nat, er.m as nat, len)->Ok_0;
    let full = erasure::shards(piece, er.k as nat, er.m as nat);
    let out = protocol::rebuild_msgs(slots, ids, full, live, total);
    let w = v.sent_all(out);
    let rest = w.groups_rebuilt(at, m, er, live, got, g + 1).1->Ok_0;
    assert(seq![piece] + rest == ps.skip(g as int));
    assert((seq![piece] + rest)[0] == piece);
    assert(piece == ps[g as int]);
    assert(rest =~= ps.skip((g + 1) as int)) by {
        assert forall|j: int| 0 <= j < rest.len() implies rest[j] == ps.skip((g + 1) as int)[j] by {
            assert((seq![piece] + rest)[j + 1] == rest[j]);
        }
    }
    durability::lemma_rebuild_msgs_kind(slots, ids, full, live, total);
    durability::lemma_client_sends(v, out);
    durability::lemma_groups_rebuilt(w, at, m, er, live, got, g + 1);
    truth::lemma_primary_stays(v, w);
    if g < h {
        lemma_rebuilding_sends(w, at, bytes, er, live, got, g + 1, h, i);
    } else {
        let e = shard_msg(live, groups[h][i]);
        assert(slots[i] is None);
        law_read_repairs_shards(piece, er, slots, live, total, i);
        let k = choose|k: int| 0 <= k < out.len() && out[k] == e;
        placement::law_placement(groups[h][i].id, live, 1);
        let node = placement::placed(groups[h][i].id, live, 1)[0];
        assert(placement::placed(groups[h][i].id, live, 1).contains(node));
        assert(live.contains(node));
        progress::lemma_sent_is_coming(v.net, out, k, u64::MAX as nat);
        lemma_in_flight_rebuilt(w, at, m, er, live, got, g + 1, e);
    }
}

/// A file that can be read has a live node to hand shards to.
proof fn lemma_someone_lives(v: ClusterV, groups: Seq<Seq<ChunkV>>, k: nat)
    requires
        soundness::sound(v),
        reconstruction::readable(v, groups, k),
        0 < groups.len(),
        1 <= k,
    ensures
        v.live_storage().len() > 0,
{
    let some = choose|some: Set<Seq<u8>>| #[trigger]
        reconstruction::all_available(v, some) && protocol::groups_met(groups, some, k);
    let f = |id: Seq<u8>| some.contains(id);
    let ids = protocol::ids_of(groups[0]);
    let here = ids.filter(f);
    metadata::lemma_filter_members(ids, f);
    assert(protocol::acked_positions(groups[0], some) >= k);
    assert(here.len() >= k);
    assert(here.contains(here[0]));
    assert(some.contains(here[0]));
    assert(availability::available(v, here[0], 1));
    let s = choose|s: Set<u32>| #[trigger]
        availability::all_reached_hold(v, s, here[0]) && s.finite() && s.len() >= 1;
    let node = s.choose();
    assert(s.contains(node));
    assert(soundness::holds(v.storages, node, here[0]));
    assert(progress::reaches_storage(v.net, node));
    simulation::lemma_live(v);
    assert(v.live_storage().contains(node));
}

/// What a read of a replicated file has gathered before it repairs.
pub open spec fn answers_to_read(x: ClusterV, at: Seq<char>, m: ManifestV) -> Gathered {
    let y = x.meta_queried(QueryV::Get { path: at }).0;
    let ids = ordmap::in_order::<hash::Hash>(m.chunks.to_set());
    y.fetched(ids, y.opts.read_quorum as nat).1
}

/// A read of a replicated file mends it: a node in reach that should hold a chunk of the file and
/// told the client that it does not holds it once what the read sent has arrived.
pub proof fn law_read_restores_replicas(
    x: ClusterV,
    q: u32,
    at: Seq<char>,
    id: Seq<u8>,
    node: u32,
)
    requires
        soundness::sound(x),
        truth::idle(x, q),
        path::normal(at),
        !truth::names(x, q).dirs.contains(at),
        truth::names(x, q).files.dom().contains(at),
        truth::names(x, q).files[at].erasure is None,
        truth::names(x, q).files[at].chunks.contains(id),
        absence::told(x, q, at),
        x.read(at).1 is Ok,
        placement::placed(id, x.live_storage(), x.opts.replication_factor as nat).contains(node),
        protocol::noted_for(
            answers_to_read(x, at, truth::names(x, q).files[at]).missing,
            id,
        ).contains(node),
        progress::reaches_storage(x.net, node),
    ensures
        soundness::holds(x.read(at).0.drained().storages, node, id),
{
    let m = truth::names(x, q).files[at];
    let query = QueryV::Get { path: at };
    let y = x.meta_queried(query).0;
    truth::law_queries_are_answered_truly(x, q, query);
    durability::law_meta_query_keeps_sound(x, query);
    assert(truth::names(x, q).answered(query) == QueryResultV::Manifest(Some(m)));
    durability::law_replicated_read_keeps_sound(y, m);
    truth::lemma_primary_stays(x, y);
    let ids = ordmap::in_order::<hash::Hash>(m.chunks.to_set());
    let quorum = y.opts.read_quorum as nat;
    let live = y.live_storage();
    let r = y.opts.replication_factor as nat;
    let (w, g) = y.fetched(ids, quorum);
    let out = protocol::repair_msgs(g, ids, live, r, ids.len());
    let z = w.sent_all(out);
    assert(x.read(at).0 == z);
    availability::lemma_ids_of_set(m.chunks, ids);
    assert(ids.contains(id));
    let i = choose|i: int| 0 <= i < ids.len() && ids[i] == id;
    durability::lemma_fetched(y, ids, quorum);
    lastwrite::lemma_all_gathered(g, ids, quorum, 0, i);
    law_read_repairs_replicas(g, ids, live, r, ids.len(), i, node);
    let data = g.have[id];
    let e = protocol::store_msg(node, id, data);
    let k = choose|k: int| 0 <= k < out.len() && out[k] == e;
    placement::law_placement(id, live, r);
    assert(live.contains(node));
    simulation::lemma_live(y);
    progress::lemma_sent_is_coming(w.net, out, k, u64::MAX as nat);
    assert(hash::digest(data) == id);
    healing::law_drained_chunk_is_held(z, node, data);
}

/// A read of an erasure-coded file mends it: when the file can be read and the client reaches
/// the live storage nodes, then, once what the read sent has arrived, some live node holds every
/// shard of every chunk, the lost ones included.
pub proof fn law_read_restores_shards(
    x: ClusterV,
    q: u32,
    at: Seq<char>,
    bytes: Seq<u8>,
    er: Erasure,
    g: int,
    i: int,
)
    requires
        soundness::sound(x),
        truth::idle(x, q),
        1 <= er.k,
        1 <= er.m,
        er.k + er.m <= 64,
        bytes.len() <= u64::MAX,
        path::normal(at),
        !truth::names(x, q).dirs.contains(at),
        truth::names(x, q).files.dom().contains(at),
        truth::names(x, q).files[at] == protocol::erasure_manifest(bytes, x.group_size(), er),
        reconstruction::shards_single(x, protocol::shard_groups(bytes, x.group_size(), er)),
        reconstruction::readable(
            x,
            protocol::shard_groups(bytes, x.group_size(), er),
            er.k as nat,
        ),
        progress::quiet(x.net),
        progress::reaches_meta(x.net, q),
        2 * progress::hop(x.net) < x.opts.op_deadline,
        progress::room_left(x.read(at).0),
        live_in_reach(x),
        0 <= g < protocol::shard_groups(bytes, x.group_size(), er).len(),
        0 <= i < er.k + er.m,
    ensures
        held_live(
            x.read(at).0.drained(),
            protocol::shard_groups(bytes, x.group_size(), er)[g][i].id,
        ),
{
    let groups = protocol::shard_groups(bytes, x.group_size(), er);
    let m = protocol::erasure_manifest(bytes, x.group_size(), er);
    let query = QueryV::Get { path: at };
    let y = x.meta_queried(query).0;
    let shard = groups[g][i];
    let live = y.live_storage();
    reconstruction::lemma_readable_when_told(x, q, at, bytes, er);
    reconstruction::law_erasure_reads_succeed(y, at, bytes, er);
    durability::law_erasure_read_keeps_sound(y, at, m, er);
    truth::lemma_primary(x, q);
    truth::lemma_primary_stays(x, y);
    assert(truth::names(x, q).answered(query) == QueryResultV::Manifest(Some(m)));
    progress::law_queries_succeed(x, q, query);
    let msg = MessageV::MetaQueryMsg { req_id: x.next_req, q: query };
    let asked = x.asked(q, msg);
    lemma_answered_inbox(asked, x.next_req, asked.deadline());
    assert(y.inbox.len() == 0);
    let ids = ordmap::in_order::<hash::Hash>(m.chunks.to_set());
    let out = protocol::fetch_msgs(ids, live, ids.len());
    durability::lemma_fetch_msgs_kind(ids, live, ids.len());
    durability::lemma_client_sends(y, out);
    let sent = y.sent_all(out);
    lemma_sourced_gathered(sent, Gathered::nothing(), ids, 1, sent.deadline());
    durability::lemma_fetched(y, ids, 1);
    let (w, got) = y.fetched(ids, 1);
    durability::lemma_groups_rebuilt(w, at, m, er, live, got, 0);
    let z = w.groups_rebuilt(at, m, er, live, got, 0).0;
    assert(x.read(at).0 == z);
    durability::lemma_drained(z);
    truth::lemma_primary_stays(y, w);
    if got.have.dom().contains(shard.id) {
        assert(held_live(w, shard.id));
        lemma_held_live_stays(w, z, shard.id);
        lemma_held_live_stays(z, z.drained(), shard.id);
    } else {
        let ps = chunk::pieces(bytes, x.group_size());
        assert(ps.skip(0) =~= ps);
        lemma_someone_lives(y, groups, er.k as nat);
        lemma_rebuilding_sends(w, at, bytes, er, live, got, 0, g, i);
        let node = placement::placed(shard.id, live, 1)[0];
        placement::law_placement(shard.id, live, 1);
        assert(placement::placed(shard.id, live, 1).contains(node));
        assert(live.contains(node));
        simulation::lemma_live(z);
        truth::lemma_primary_stays(w, z);
        assert(shard.id == hash::digest(shard.data));
        healing::law_drained_chunk_is_held(z, node, shard.data);
        truth::lemma_primary_stays(z, z.drained());
        assert(soundness::holds(z.drained().storages, node, shard.id));
    }
}

} // verus!

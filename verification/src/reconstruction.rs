//! Erasure-coded files are read back: from any `k` shards of each chunk that live nodes hold.

use crate::availability;
use crate::chunk::{self, ChunkV, ManifestV};
use crate::durability;
use crate::erasure::{self, Erasure};
use crate::error::ErrorV;
use crate::healing;
use crate::commits;
use crate::message::{MetaOpV, QueryResultV, QueryV};
use crate::ordmap;
use crate::path;
use crate::progress;
use crate::protocol::{self, Gathered, Spread};
use crate::quorums;
use crate::readback;
use crate::replicas;
use crate::simulation::{self, ClusterV};
use crate::soundness;
use crate::spreading;
use crate::truth;
use vstd::prelude::*;

verus! {

/// Whether every one of some shards is held by a node that the client reaches.
pub open spec fn all_available(v: ClusterV, ids: Set<Seq<u8>>) -> bool {
    forall|id: Seq<u8>| #[trigger] ids.contains(id) ==> availability::available(v, id, 1)
}

/// Whether nodes in reach hold at least `k` shards of every group.
pub open spec fn readable(v: ClusterV, groups: Seq<Seq<ChunkV>>, k: nat) -> bool {
    exists|ids: Set<Seq<u8>>| #[trigger]
        all_available(v, ids) && protocol::groups_met(groups, ids, k)
}

/// Whatever the cluster knows under the id of a shard is that shard.
pub open spec fn shards_single(v: ClusterV, groups: Seq<Seq<ChunkV>>) -> bool {
    forall|g: int, i: int|
        #![trigger groups[g][i]]
        0 <= g < groups.len() && 0 <= i < groups[g].len() ==> availability::single(
            v,
            groups[g][i].id,
            groups[g][i].data,
        )
}

/// Where the ids of a group lie in the manifest.
pub proof fn lemma_flat_ids(groups: Seq<Seq<ChunkV>>, total: nat, n: nat, g: int)
    requires
        n <= groups.len(),
        forall|i: int| 0 <= i < groups.len() ==> (#[trigger] groups[i]).len() == total,
    ensures
        protocol::flat_ids(groups, n).len() == n * total,
        0 <= g < n ==> 0 <= g * total <= (g + 1) * total <= n * total
            && protocol::flat_ids(groups, n).subrange(g * total, (g + 1) * total)
            == protocol::ids_of(groups[g]),
    decreases n,
{
    let all = protocol::flat_ids(groups, n);
    if n > 0 {
        let m = (n - 1) as nat;
        lemma_flat_ids(groups, total, m, g);
        let before = protocol::flat_ids(groups, m);
        assert(n * total == m * total + total) by (nonlinear_arith)
            requires
                n == m + 1,
        ;
        if 0 <= g < n {
            assert((g + 1) * total == g * total + total) by (nonlinear_arith);
            assert(0 <= g * total) by (nonlinear_arith)
                requires
                    g >= 0,
            ;
            if g == m {
                assert(g * total == m * total);
                assert(all.subrange(g * total, (g + 1) * total) =~= protocol::ids_of(groups[g]));
            } else {
                assert(all.subrange(g * total, (g + 1) * total) =~= before.subrange(
                    g * total,
                    (g + 1) * total,
                ));
            }
        }
    } else {
        assert(0 * total == 0);
    }
}

/// The length of a group is that of its chunk.
pub proof fn lemma_group_len(bytes: Seq<u8>, size: nat, g: int)
    requires
        size > 0,
        0 <= g < chunk::piece_count(bytes.len(), size),
    ensures
        protocol::group_len(bytes.len(), size, g as nat) == chunk::piece(bytes, size, g).len(),
{
    chunk::law_piece_sizes(bytes, size, g);
    chunk::lemma_piece_count(bytes.len(), size, g as nat);
    assert((g + 1) * size == g * size + size) by (nonlinear_arith);
    assert(0 <= g * size) by (nonlinear_arith)
        requires
            g >= 0,
    ;
}

/// At least as many slots are filled as shards are available.
proof fn lemma_filled(
    group: Seq<ChunkV>,
    ids: Set<Seq<u8>>,
    slots: Seq<Option<Seq<u8>>>,
    n: nat,
)
    requires
        n <= group.len() == slots.len(),
        forall|i: int|
            0 <= i < group.len() && ids.contains((#[trigger] group[i]).id) ==> slots[i] is Some,
    ensures
        protocol::ids_of(group).take(n as int).filter(|id: Seq<u8>| ids.contains(id)).len()
            <= erasure::present(slots, n).len(),
    decreases n,
{
    reveal(Seq::filter);
    let all = protocol::ids_of(group);
    if n > 0 {
        lemma_filled(group, ids, slots, (n - 1) as nat);
        assert(all.take(n as int).drop_last() =~= all.take(n - 1));
        assert(all.take(n as int).last() == group[n - 1].id);
    } else {
        assert(all.take(0) =~= seq![]);
    }
}

/// Whether enough was gathered to read the group of a chunk, and nothing wrong.
spec fn gathered_group(got: Gathered, group: Seq<ChunkV>, k: nat) -> bool {
    &&& forall|i: int|
        0 <= i < group.len() && got.have.dom().contains((#[trigger] group[i]).id)
            ==> got.have[group[i].id] == group[i].data
    &&& exists|ids: Set<Seq<u8>>| #[trigger]
        all_had(got, ids) && protocol::acked_positions(group, ids) >= k
}

/// Whether every one of some shards was gathered.
spec fn all_had(got: Gathered, ids: Set<Seq<u8>>) -> bool {
    forall|id: Seq<u8>| #[trigger] ids.contains(id) ==> got.have.dom().contains(id)
}

/// A chunk of which enough shards were gathered is reconstructed.
proof fn lemma_group_decodes(got: Gathered, piece: Seq<u8>, er: Erasure)
    requires
        1 <= er.k,
        er.k + er.m <= 256,
        gathered_group(got, protocol::shard_group(piece, er), er.k as nat),
    ensures
        erasure::decoded(
            protocol::group_slots(
                got,
                protocol::ids_of(protocol::shard_group(piece, er)),
                piece.len(),
                er,
            ),
            er.k as nat,
            er.m as nat,
            piece.len(),
        ) == Ok::<Seq<u8>, ErrorV>(piece),
{
    let k = er.k as nat;
    let group = protocol::shard_group(piece, er);
    let all = protocol::ids_of(group);
    let slots = protocol::group_slots(got, all, piece.len(), er);
    assert forall|i: int| 0 <= i < group.len() && got.have.dom().contains(
        (#[trigger] group[i]).id,
    ) implies slots[i] == Some(erasure::shard(piece, k, i as nat)) by {
        assert(all[i] == group[i].id);
        assert(group[i].data == erasure::shard(piece, k, i as nat));
    }
    assert forall|i: int| 0 <= i < slots.len() && (#[trigger] slots[i]) is Some implies slots[i]
        == Some(erasure::shard(piece, k, i as nat)) by {
        assert(all[i] == group[i].id);
    }
    let ids = choose|ids: Set<Seq<u8>>| #[trigger]
        all_had(got, ids) && protocol::acked_positions(group, ids) >= k;
    assert forall|i: int| 0 <= i < group.len() && ids.contains(
        (#[trigger] group[i]).id,
    ) implies slots[i] is Some by {
        assert(got.have.dom().contains(group[i].id));
    }
    lemma_filled(group, ids, slots, group.len());
    assert(all.take(group.len() as int) =~= all);
    erasure::law_any_k_shards_reconstruct(piece, k, er.m as nat, slots);
}

/// The groups from `g` on are rebuilt.
proof fn lemma_groups_rebuilt(
    v: ClusterV,
    at: Seq<char>,
    bytes: Seq<u8>,
    er: Erasure,
    live: Seq<u32>,
    got: Gathered,
    g: nat,
)
    requires
        1 <= er.k,
        er.k + er.m <= 256,
        bytes.len() <= u64::MAX,
        g <= protocol::shard_groups(bytes, v.group_size(), er).len(),
        forall|i: int|
            0 <= i < protocol::shard_groups(bytes, v.group_size(), er).len() ==> gathered_group(
                got,
                #[trigger] protocol::shard_groups(bytes, v.group_size(), er)[i],
                er.k as nat,
            ),
    ensures
        v.groups_rebuilt(
            at,
            protocol::erasure_manifest(bytes, v.group_size(), er),
            er,
            live,
            got,
            g,
        ).1 == Ok::<Seq<Seq<u8>>, ErrorV>(chunk::pieces(bytes, v.group_size()).skip(g as int)),
    decreases protocol::shard_groups(bytes, v.group_size(), er).len() - g,
{
    let size = v.group_size();
    let groups = protocol::shard_groups(bytes, size, er);
    let total = er.k as nat + er.m as nat;
    let m = protocol::erasure_manifest(bytes, size, er);
    let ps = chunk::pieces(bytes, size);
    let n = groups.len();
    assert forall|i: int| 0 <= i < groups.len() implies (#[trigger] groups[i]).len() == total by {}
    lemma_flat_ids(groups, total, n, g as int);
    assert(m.chunks.len() / total == n) by {
        vstd::arithmetic::div_mod::lemma_div_multiples_vanish(n as int, total as int);
        assert(n * total == total * n) by (nonlinear_arith);
    }
    if g < n {
        let ids = m.chunks.subrange((g * total) as int, ((g + 1) * total) as int);
        let piece = ps[g as int];
        assert(groups[g as int] == protocol::shard_group(piece, er));
        assert(ids == protocol::ids_of(groups[g as int]));
        lemma_group_len(bytes, size, g as int);
        let len = protocol::group_len(m.size as nat, size, g);
        assert(len == piece.len());
        let slots = protocol::group_slots(got, ids, len, er);
        assert(gathered_group(got, groups[g as int], er.k as nat));
        lemma_group_decodes(got, piece, er);
        let full = erasure::shards(piece, er.k as nat, er.m as nat);
        let out = protocol::rebuild_msgs(slots, ids, full, live, total);
        let w = v.sent_all(out);
        lemma_groups_rebuilt(w, at, bytes, er, live, got, g + 1);
        assert(seq![piece] + ps.skip((g + 1) as int) =~= ps.skip(g as int));
    } else {
        assert(ps.skip(g as int) =~= seq![]);
    }
}

/// What a read of an erasure-coded file gathers.
pub open spec fn gathered_for(v: ClusterV, m: ManifestV) -> (ClusterV, Gathered) {
    v.fetched(ordmap::in_order::<crate::hash::Hash>(m.chunks.to_set()), 1)
}

/// Whether a read of an erasure-coded file rebuilds all of its chunks.
pub open spec fn all_rebuilt(v: ClusterV, at: Seq<char>, bytes: Seq<u8>, er: Erasure) -> bool {
    let m = protocol::erasure_manifest(bytes, v.group_size(), er);
    let (w, got) = gathered_for(v, m);
    w.groups_rebuilt(at, m, er, v.live_storage(), got, 0).1 == Ok::<Seq<Seq<u8>>, ErrorV>(
        chunk::pieces(bytes, v.group_size()),
    )
}

/// On a quiet network, a file of which live nodes hold at least `k` shards of every chunk is
/// read back byte for byte.
pub proof fn law_erasure_reads_succeed(v: ClusterV, at: Seq<char>, bytes: Seq<u8>, er: Erasure)
    requires
        soundness::sound(v),
        progress::quiet(v.net),
        1 <= er.k,
        er.k + er.m <= 256,
        bytes.len() <= u64::MAX,
        shards_single(v, protocol::shard_groups(bytes, v.group_size(), er)),
        readable(v, protocol::shard_groups(bytes, v.group_size(), er), er.k as nat),
        2 * progress::hop(v.net) < v.opts.op_deadline,
        progress::room_left(
            v.read_erasure(at, protocol::erasure_manifest(bytes, v.group_size(), er), er).0,
        ),
    ensures
        all_rebuilt(v, at, bytes, er),
        v.read_erasure(at, protocol::erasure_manifest(bytes, v.group_size(), er), er).1 == Ok::<
            Seq<u8>,
            ErrorV,
        >(bytes),
{
    let size = v.group_size();
    let groups = protocol::shard_groups(bytes, size, er);
    let total = er.k as nat + er.m as nat;
    let m = protocol::erasure_manifest(bytes, size, er);
    let ids = ordmap::in_order::<crate::hash::Hash>(m.chunks.to_set());
    let live = v.live_storage();
    let some = choose|some: Set<Seq<u8>>| #[trigger]
        all_available(v, some) && protocol::groups_met(groups, some, er.k as nat);
    availability::lemma_ids_of_set(m.chunks, ids);
    let from = Map::new(
        |id: Seq<u8>| true,
        |id: Seq<u8>|
            if some.contains(id) {
                choose|s: Set<u32>| #[trigger]
                    availability::all_reached_hold(v, s, id) && s.finite() && s.len() >= 1
            } else {
                Set::empty()
            },
    );
    assert forall|id: Seq<u8>| #[trigger] some.contains(id) implies {
        let s = from[id];
        availability::all_reached_hold(v, s, id) && s.finite() && s.len() >= 1
    } by {
        assert(availability::available(v, id, 1));
    }
    durability::lemma_fetched(v, ids, 1);
    let (w, got) = v.fetched(ids, 1);
    durability::lemma_groups_rebuilt(w, at, m, er, live, got, 0);
    assert forall|i: int, node: u32|
        0 <= i < ids.len() && #[trigger] from[#[trigger] ids[i]].contains(
            node,
        ) implies soundness::holds(v.storages, node, ids[i]) by {
        assert(some.contains(ids[i]));
    }
    assert(availability::senders(v, ids, from)) by {
        assert forall|i: int| 0 <= i < ids.len() implies {
            let s = from[#[trigger] ids[i]];
            &&& s.finite()
            &&& forall|node: u32| #[trigger]
                s.contains(node) ==> progress::reaches_storage(v.net, node)
        } by {
            if some.contains(ids[i]) {
            }
        }
    }
    availability::lemma_fetch_succeeds(v, ids, 1, from);
    assert forall|g: int| 0 <= g < groups.len() implies gathered_group(
        got,
        #[trigger] groups[g],
        er.k as nat,
    ) by {
        let group = groups[g];
        let here = some.intersect(protocol::ids_of(group).to_set());
        lemma_in_manifest(groups, total, g);
        assert forall|id: Seq<u8>| #[trigger] here.contains(id) implies got.have.dom().contains(
            id,
        ) by {
            assert(protocol::ids_of(group).contains(id));
            assert(m.chunks.contains(id));
            assert(ids.contains(id));
            let i = choose|i: int| 0 <= i < ids.len() && ids[i] == id;
            assert(from[ids[i]].len() >= 1);
            assert(got.enough(ids[i], 1));
        }
        assert(all_had(got, here));
        assert(protocol::acked_positions(group, here) == protocol::acked_positions(group, some))
            by {
            lemma_same_filter(protocol::ids_of(group), here, some);
        }
        assert forall|i: int|
            0 <= i < group.len() && got.have.dom().contains(
                (#[trigger] group[i]).id,
            ) implies got.have[group[i].id] == group[i].data by {
            assert(groups[g][i] == group[i]);
            availability::lemma_single_fetched(v, group[i].id, group[i].data, ids, 1);
        }
    }
    lemma_groups_rebuilt(w, at, bytes, er, live, got, 0);
    let ps = chunk::pieces(bytes, size);
    assert(ps.skip(0) =~= ps);
    chunk::law_reassembly_is_identity(bytes, size);
}

/// The ids of a group stand in the manifest.
proof fn lemma_in_manifest(groups: Seq<Seq<ChunkV>>, total: nat, g: int)
    requires
        0 <= g < groups.len(),
        forall|i: int| 0 <= i < groups.len() ==> (#[trigger] groups[i]).len() == total,
    ensures
        forall|id: Seq<u8>| #[trigger]
            protocol::ids_of(groups[g]).contains(id) ==> protocol::flat_ids(
                groups,
                groups.len(),
            ).contains(id),
{
    let all = protocol::flat_ids(groups, groups.len());
    let here = protocol::ids_of(groups[g]);
    lemma_flat_ids(groups, total, groups.len(), g);
    assert forall|id: Seq<u8>| #[trigger] here.contains(id) implies all.contains(id) by {
        let i = choose|i: int| 0 <= i < here.len() && here[i] == id;
        assert(all.subrange(g * total, (g + 1) * total)[i] == id);
        assert(all[g * total + i] == id);
    }
}

proof fn lemma_same_filter(s: Seq<Seq<u8>>, a: Set<Seq<u8>>, b: Set<Seq<u8>>)
    requires
        a == b.intersect(s.to_set()),
    ensures
        s.filter(|id: Seq<u8>| a.contains(id)) == s.filter(|id: Seq<u8>| b.contains(id)),
    decreases s.len(),
{
    lemma_same_filter_on(s, s, a, b);
}

proof fn lemma_same_filter_on(
    s: Seq<Seq<u8>>,
    t: Seq<Seq<u8>>,
    a: Set<Seq<u8>>,
    b: Set<Seq<u8>>,
)
    requires
        forall|i: int| 0 <= i < s.len() ==> t.contains(#[trigger] s[i]),
        a == b.intersect(t.to_set()),
    ensures
        s.filter(|id: Seq<u8>| a.contains(id)) == s.filter(|id: Seq<u8>| b.contains(id)),
    decreases s.len(),
{
    reveal(Seq::filter);
    if s.len() > 0 {
        assert forall|i: int| 0 <= i < s.drop_last().len() implies t.contains(
            #[trigger] s.drop_last()[i],
        ) by {
            assert(t.contains(s[i]));
        }
        lemma_same_filter_on(s.drop_last(), t, a, b);
        assert(t.contains(s[s.len() - 1]));
    }
}

/// Shards with one id are equal.
pub open spec fn shards_agree(groups: Seq<Seq<ChunkV>>) -> bool {
    forall|g: int, i: int, h: int, j: int|
        #![trigger groups[g][i], groups[h][j]]
        0 <= g < groups.len() && 0 <= i < groups[g].len() && 0 <= h < groups.len() && 0 <= j
            < groups[h].len() && groups[g][i].id == groups[h][j].id ==> groups[g][i].data
            == groups[h][j].data
}

proof fn lemma_group_agrees(
    s: Spread,
    group: Seq<ChunkV>,
    live: Seq<u32>,
    n: nat,
    id: Seq<u8>,
    data: Seq<u8>,
)
    requires
        n <= group.len(),
        forall|k: int|
            0 <= k < s.msgs.len() ==> availability::agrees((#[trigger] s.msgs[k]).msg, id, data),
        forall|i: int|
            0 <= i < group.len() && (#[trigger] group[i]).id == id ==> group[i].data == data,
    ensures
        forall|k: int|
            0 <= k < s.with_group(group, live, n).msgs.len() ==> availability::agrees(
                (#[trigger] s.with_group(group, live, n).msgs[k]).msg,
                id,
                data,
            ),
    decreases n,
{
    let b = s.with_group(group, live, n).msgs;
    if n > 0 {
        lemma_group_agrees(s, group, live, (n - 1) as nat, id, data);
        let a = s.with_group(group, live, (n - 1) as nat).msgs;
        assert(group[n - 1].id == id ==> group[n - 1].data == data);
        assert forall|k: int| 0 <= k < b.len() implies availability::agrees(
            (#[trigger] b[k]).msg,
            id,
            data,
        ) by {
            if k < a.len() {
                assert(availability::agrees(a[k].msg, id, data));
            }
        }
    } else {
        assert(b == s.msgs);
    }
}

pub proof fn lemma_spread_agrees(
    groups: Seq<Seq<ChunkV>>,
    live: Seq<u32>,
    n: nat,
    id: Seq<u8>,
    data: Seq<u8>,
)
    requires
        n <= groups.len(),
        forall|g: int, i: int|
            #![trigger groups[g][i]]
            0 <= g < groups.len() && 0 <= i < groups[g].len() && groups[g][i].id == id
                ==> groups[g][i].data == data,
    ensures
        forall|k: int|
            0 <= k < protocol::spread(groups, live, n).msgs.len() ==> availability::agrees(
                (#[trigger] protocol::spread(groups, live, n).msgs[k]).msg,
                id,
                data,
            ),
    decreases n,
{
    if n > 0 {
        lemma_spread_agrees(groups, live, (n - 1) as nat, id, data);
        let s = protocol::spread(groups, live, (n - 1) as nat);
        let group = groups[n - 1];
        assert forall|i: int|
            0 <= i < group.len() && (#[trigger] group[i]).id == id implies group[i].data
            == data by {
            assert(groups[n - 1][i].id == id);
        }
        lemma_group_agrees(s, group, live, group.len(), id, data);
    }
}

/// An erasure-coded write brings nothing into the cluster that collides with its own shards.
proof fn lemma_write_keeps_single(v: ClusterV, at: Seq<char>, bytes: Seq<u8>, er: Erasure)
    requires
        soundness::sound(v),
        v.opts.erasure == Some(er),
        shards_single(v, protocol::shard_groups(bytes, v.group_size(), er)),
        shards_agree(protocol::shard_groups(bytes, v.group_size(), er)),
    ensures
        shards_single(
            v.written(at, bytes).0,
            protocol::shard_groups(bytes, v.group_size(), er),
        ),
{
    let live = v.live_storage();
    let groups = protocol::shard_groups(bytes, v.group_size(), er);
    if path::normal(at) && live.len() >= er.k as nat + er.m as nat {
        let quorum = protocol::larger(v.opts.write_quorum as nat, er.k as nat);
        let out = protocol::spread(groups, live, groups.len()).msgs;
        let none: Set<Seq<u8>> = Set::empty();
        durability::lemma_spread_kind(groups, live, groups.len());
        durability::lemma_client_sends(v, out);
        let w = v.sent_all(out);
        assert(durability::true_acked(w, none));
        durability::lemma_groups_awaited(w, none, groups, quorum, w.deadline());
        let x = w.groups_awaited(none, groups, quorum, w.deadline()).0;
        let op = MetaOpV::Put { path: at, manifest: truth::manifest_for(v, bytes) };
        let y = v.written(at, bytes).0;
        assert forall|g: int, i: int|
            #![trigger groups[g][i]]
            0 <= g < groups.len() && 0 <= i < groups[g].len() implies availability::single(
            y,
            groups[g][i].id,
            groups[g][i].data,
        ) by {
            let id = groups[g][i].id;
            let data = groups[g][i].data;
            assert(availability::single(v, id, data));
            assert forall|h: int, j: int|
                #![trigger groups[h][j]]
                0 <= h < groups.len() && 0 <= j < groups[h].len() && groups[h][j].id
                    == id implies groups[h][j].data == data by {
                assert(groups[g][i].id == groups[h][j].id);
            }
            lemma_spread_agrees(groups, live, groups.len(), id, data);
            availability::lemma_single_sends(v, id, data, out);
            availability::lemma_single_groups(w, id, data, none, groups, quorum, w.deadline());
            availability::lemma_single_applied(x, id, data, op, at);
        }
    }
}

/// Once the client has the manifest of a readable file, the file is still readable, and the read
/// goes on from there.
pub proof fn lemma_readable_when_told(
    x: ClusterV,
    q: u32,
    at: Seq<char>,
    bytes: Seq<u8>,
    er: Erasure,
)
    requires
        soundness::sound(x),
        truth::idle(x, q),
        1 <= er.k,
        1 <= er.m,
        er.k + er.m <= 64,
        bytes.len() <= u64::MAX,
        path::normal(at),
        !truth::names(x, q).dirs.contains(at),
        truth::names(x, q).files.dom().contains(at),
        truth::names(x, q).files[at] == protocol::erasure_manifest(bytes, x.group_size(), er),
        shards_single(x, protocol::shard_groups(bytes, x.group_size(), er)),
        readable(x, protocol::shard_groups(bytes, x.group_size(), er), er.k as nat),
        progress::quiet(x.net),
        progress::reaches_meta(x.net, q),
        2 * progress::hop(x.net) < x.opts.op_deadline,
        progress::room_left(x.read(at).0),
    ensures
        ({
            let y = x.meta_queried(QueryV::Get { path: at }).0;
            let groups = protocol::shard_groups(bytes, x.group_size(), er);
            let m = protocol::erasure_manifest(bytes, x.group_size(), er);
            &&& soundness::sound(y)
            &&& soundness::extends(x, y)
            &&& x.read(at) == y.read_erasure(at, m, er)
            &&& shards_single(y, groups)
            &&& readable(y, groups, er.k as nat)
        }),
{
    let groups = protocol::shard_groups(bytes, x.group_size(), er);
    let m = protocol::erasure_manifest(bytes, x.group_size(), er);
    let query = QueryV::Get { path: at };
    assert(truth::names(x, q).answered(query) == QueryResultV::Manifest(Some(m)));
    lemma_read_is_erasure_read(x, q, at, m, er);
    let y = x.meta_queried(query).0;
    assert(shards_single(y, groups)) by {
        assert forall|g: int, i: int|
            #![trigger groups[g][i]]
            0 <= g < groups.len() && 0 <= i < groups[g].len() implies availability::single(
            y,
            groups[g][i].id,
            groups[g][i].data,
        ) by {
            let id = groups[g][i].id;
            let data = groups[g][i].data;
            assert(availability::single(x, id, data));
            availability::lemma_single_queried(x, id, data, query);
        }
    }
    assert(readable(y, groups, er.k as nat)) by {
        let some = choose|some: Set<Seq<u8>>| #[trigger]
            all_available(x, some) && protocol::groups_met(groups, some, er.k as nat);
        assert forall|id: Seq<u8>| #[trigger] some.contains(id) implies availability::available(
            y,
            id,
            1,
        ) by {
            readback::lemma_available_stays(x, y, id, 1);
        }
        assert(all_available(y, some));
    }
}

/// An erasure-coded file in the namespace is read byte for byte as long as nodes in reach hold
/// `k` shards of every chunk: on a quiet network, with time for messages to travel, and when
/// nothing collides with its shards.
pub proof fn law_readable_file_is_read(
    x: ClusterV,
    q: u32,
    at: Seq<char>,
    bytes: Seq<u8>,
    er: Erasure,
)
    requires
        soundness::sound(x),
        truth::idle(x, q),
        1 <= er.k,
        1 <= er.m,
        er.k + er.m <= 64,
        bytes.len() <= u64::MAX,
        path::normal(at),
        !truth::names(x, q).dirs.contains(at),
        truth::names(x, q).files.dom().contains(at),
        truth::names(x, q).files[at] == protocol::erasure_manifest(bytes, x.group_size(), er),
        shards_single(x, protocol::shard_groups(bytes, x.group_size(), er)),
        readable(x, protocol::shard_groups(bytes, x.group_size(), er), er.k as nat),
        progress::quiet(x.net),
        progress::reaches_meta(x.net, q),
        2 * progress::hop(x.net) < x.opts.op_deadline,
        progress::room_left(x.read(at).0),
    ensures
        x.read(at).1 == Ok::<Seq<u8>, ErrorV>(bytes),
{
    lemma_readable_when_told(x, q, at, bytes, er);
    law_erasure_reads_succeed(x.meta_queried(QueryV::Get { path: at }).0, at, bytes, er);
}

/// An erasure-coded file that was written is read back byte for byte as long as live nodes hold
/// `k` shards of every chunk and the metadata is there: on a quiet network, with time for
/// messages to travel, and when nothing collides with its shards.
pub proof fn law_erasure_file_is_read(
    v: ClusterV,
    p: u32,
    at: Seq<char>,
    bytes: Seq<u8>,
    er: Erasure,
    x: ClusterV,
    q: u32,
)
    requires
        soundness::sound(v),
        truth::idle(v, p),
        v.opts.erasure == Some(er),
        1 <= er.k,
        1 <= er.m,
        er.k + er.m <= 64,
        bytes.len() <= u64::MAX,
        v.written(at, bytes).1 is Ok,
        shards_single(v, protocol::shard_groups(bytes, v.group_size(), er)),
        shards_agree(protocol::shard_groups(bytes, v.group_size(), er)),
        readback::same_contents(v.written(at, bytes).0, x),
        soundness::sound(x),
        truth::idle(x, q),
        truth::names(x, q) == truth::names(v.written(at, bytes).0, p),
        readable(x, protocol::shard_groups(bytes, v.group_size(), er), er.k as nat),
        progress::quiet(x.net),
        progress::reaches_meta(x.net, q),
        2 * progress::hop(x.net) < x.opts.op_deadline,
        progress::room_left(x.read(at).0),
    ensures
        x.read(at).1 == Ok::<Seq<u8>, ErrorV>(bytes),
{
    let w = v.written(at, bytes).0;
    let groups = protocol::shard_groups(bytes, v.group_size(), er);
    truth::law_writes_take_effect(v, p, at, bytes);
    assert(!truth::names(v, p).dirs.contains(at));
    durability::law_file_operations_keep_sound(v, at, at, bytes);
    assert(shards_single(x, groups)) by {
        lemma_write_keeps_single(v, at, bytes, er);
        assert forall|g: int, i: int|
            #![trigger groups[g][i]]
            0 <= g < groups.len() && 0 <= i < groups[g].len() implies availability::single(
            x,
            groups[g][i].id,
            groups[g][i].data,
        ) by {
            assert(availability::single(w, groups[g][i].id, groups[g][i].data));
        }
    }
    law_readable_file_is_read(x, q, at, bytes, er);
}

/// Reading an erasure-coded file is asking for its manifest and then for its shards.
proof fn lemma_read_is_erasure_read(
    x: ClusterV,
    q: u32,
    at: Seq<char>,
    m: ManifestV,
    er: Erasure,
)
    requires
        soundness::sound(x),
        truth::idle(x, q),
        path::normal(at),
        truth::names(x, q).answered(QueryV::Get { path: at }) == QueryResultV::Manifest(Some(m)),
        m.erasure == Some((er.k as u8, er.m as u8)),
        1 <= er.k,
        1 <= er.m,
        er.k + er.m <= 64,
        progress::quiet(x.net),
        progress::reaches_meta(x.net, q),
        2 * progress::hop(x.net) < x.opts.op_deadline,
        progress::room_left(x.read(at).0),
    ensures
        ({
            let y = x.meta_queried(QueryV::Get { path: at }).0;
            &&& soundness::sound(y)
            &&& soundness::extends(x, y)
            &&& x.read(at) == y.read_erasure(at, m, er)
        }),
{
    let query = QueryV::Get { path: at };
    truth::law_queries_are_answered_truly(x, q, query);
    durability::law_meta_query_keeps_sound(x, query);
    let y = x.meta_queried(query).0;
    if x.meta_queried(query).1 is Ok {
        durability::law_erasure_read_keeps_sound(y, at, m, er);
    }
    progress::law_queries_succeed(x, q, query);
}

/// On a quiet network with all storage nodes in reach, enough of them, and enough metadata
/// nodes, an erasure-coded write that the namespace allows succeeds, and the file then reads
/// back byte for byte.
pub proof fn law_erasure_write_then_read(
    v: ClusterV,
    p: u32,
    history: Seq<MetaOpV>,
    backups: Set<u32>,
    at: Seq<char>,
    bytes: Seq<u8>,
    er: Erasure,
)
    requires
        soundness::sound(v),
        replicas::steady(v, p, history),
        commits::can_commit(v, p, history, backups),
        history.len() < u64::MAX,
        progress::quiet(v.net),
        progress::reaches_meta(v.net, p),
        forall|i: u32| #[trigger] progress::reaches_storage(v.net, i),
        v.opts.erasure == Some(er),
        1 <= er.k,
        1 <= er.m,
        er.k + er.m <= 64,
        bytes.len() <= u64::MAX,
        path::normal(at),
        er.k + er.m <= v.live_storage().len(),
        v.opts.write_quorum <= er.k + er.m,
        4 * progress::hop(v.net) < v.opts.op_deadline,
        truth::names(v, p).validated(
            MetaOpV::Put { path: at, manifest: truth::manifest_for(v, bytes) },
        ) is Ok,
        shards_single(v, protocol::shard_groups(bytes, v.group_size(), er)),
        shards_agree(protocol::shard_groups(bytes, v.group_size(), er)),
        progress::room_left(v.written(at, bytes).0.read(at).0),
    ensures
        v.written(at, bytes).1 is Ok,
        v.written(at, bytes).0.read(at).1 == Ok::<Seq<u8>, ErrorV>(bytes),
{
    let w = v.written(at, bytes).0;
    let groups = protocol::shard_groups(bytes, v.group_size(), er);
    let quorum = protocol::larger(v.opts.write_quorum as nat, er.k as nat);
    durability::law_file_operations_keep_sound(v, at, at, bytes);
    durability::law_file_operations_keep_sound(w, at, at, bytes);
    quorums::law_erasure_writes_succeed(v, p, history, backups, at, bytes, er);
    truth::law_writes_take_effect(v, p, at, bytes);
    durability::law_erasure_write(v, at, bytes, er);
    let acked = choose|acked: Set<Seq<u8>>| #[trigger]
        durability::true_acked(w, acked) && protocol::groups_met(groups, acked, quorum);
    assert(all_available(w, acked)) by {
        assert forall|id: Seq<u8>| #[trigger] acked.contains(id) implies availability::available(
            w,
            id,
            1,
        ) by {
            assert(durability::held_by(w, id, 1));
            let s = choose|s: Set<u32>| #[trigger]
                durability::all_hold(w, s, id) && s.finite() && s.len() >= 1;
            assert(availability::all_reached_hold(w, s, id)) by {
                assert forall|i: u32| #[trigger] s.contains(i) implies soundness::holds(
                    w.storages,
                    i,
                    id,
                ) && progress::reaches_storage(w.net, i) by {
                    assert(progress::reaches_storage(v.net, i));
                }
            }
        }
    }
    assert(protocol::groups_met(groups, acked, er.k as nat));
    law_erasure_file_is_read(v, p, at, bytes, er, w, p);
}

/// Every shard of a group is held by its home, and different shards have different homes.
pub open spec fn at_home(v: ClusterV, group: Seq<ChunkV>, homes: Map<Seq<u8>, u32>) -> bool {
    &&& forall|i: int|
        0 <= i < group.len() ==> soundness::holds(
            v.storages,
            homes[(#[trigger] group[i]).id],
            group[i].id,
        )
    &&& forall|i: int, j: int|
        0 <= i < group.len() && 0 <= j < group.len() && (#[trigger] group[i]).id
            != (#[trigger] group[j]).id ==> homes[group[i].id] != homes[group[j].id]
}

proof fn lemma_kept_positions(
    group: Seq<ChunkV>,
    homes: Map<Seq<u8>, u32>,
    lost: Set<u32>,
    ids: Set<Seq<u8>>,
    n: nat,
)
    requires
        n <= group.len(),
        forall|i: int|
            0 <= i < group.len() && !lost.contains(homes[(#[trigger] group[i]).id])
                ==> ids.contains(group[i].id),
    ensures
        spreading::lost_positions(group, homes, lost, n).finite(),
        protocol::ids_of(group).take(n as int).filter(|id: Seq<u8>| ids.contains(id)).len()
            + spreading::lost_positions(group, homes, lost, n).len() >= n,
    decreases n,
{
    reveal(Seq::filter);
    let all = protocol::ids_of(group);
    let now = spreading::lost_positions(group, homes, lost, n);
    if n == 0 {
        assert(now =~= Set::empty());
    } else {
        lemma_kept_positions(group, homes, lost, ids, (n - 1) as nat);
        let before = spreading::lost_positions(group, homes, lost, (n - 1) as nat);
        assert(all.take(n as int).drop_last() =~= all.take(n - 1));
        assert(all.take(n as int).last() == group[n - 1].id);
        if lost.contains(homes[group[n - 1].id]) {
            assert(now =~= before.insert(n - 1));
        } else {
            assert(now =~= before);
        }
    }
}

/// Up to `m` nodes can be lost: a file whose shards differ within each chunk and are all at
/// home stays readable.
pub proof fn law_shards_survive_losses(
    v: ClusterV,
    groups: Seq<Seq<ChunkV>>,
    homes: Seq<Map<Seq<u8>, u32>>,
    k: nat,
    m: nat,
    lost: Set<u32>,
)
    requires
        homes.len() == groups.len(),
        forall|g: int|
            0 <= g < groups.len() ==> {
                &&& (#[trigger] groups[g]).len() == k + m
                &&& protocol::ids_of(groups[g]).no_duplicates()
                &&& at_home(v, groups[g], homes[g])
            },
        lost.finite(),
        lost.len() <= m,
        forall|i: u32|
            !progress::reaches_storage(v.net, i) ==> #[trigger] lost.contains(i),
    ensures
        readable(v, groups, k),
{
    let ids = Set::new(|id: Seq<u8>| availability::available(v, id, 1));
    assert(all_available(v, ids));
    assert forall|g: int| 0 <= g < groups.len() implies protocol::acked_positions(
        #[trigger] groups[g],
        ids,
    ) >= k by {
        let group = groups[g];
        let home = homes[g];
        let all = protocol::ids_of(group);
        assert forall|i: int|
            0 <= i < group.len() && !lost.contains(home[(#[trigger] group[i]).id]) implies ids.contains(
            group[i].id,
        ) by {
            let node = home[group[i].id];
            let s = Set::<u32>::empty().insert(node);
            assert(availability::all_reached_hold(v, s, group[i].id)) by {
                assert(soundness::holds(v.storages, node, group[i].id));
            }
            assert(s.len() == 1);
        }
        lemma_kept_positions(group, home, lost, ids, group.len());
        let gone = spreading::lost_positions(group, home, lost, group.len());
        let f = |i: int| home[group[i].id];
        assert(vstd::relations::injective_on(f, gone)) by {
            assert forall|i: int, j: int|
                #[trigger] f(i) == #[trigger] f(j) && gone.contains(i) && gone.contains(
                    j,
                ) implies i == j by {
                assert(all[i] == group[i].id && all[j] == group[j].id);
            }
        }
        vstd::set_lib::lemma_map_size(gone, gone.map(f), f);
        assert(gone.map(f).subset_of(lost));
        vstd::set_lib::lemma_len_subset(gone.map(f), lost);
        assert(all.take(group.len() as int) =~= all);
    }
    assert(protocol::groups_met(groups, ids, k));
}

/// Waiting for shards to be acknowledged leaves a shard on its way or lands it.
proof fn lemma_landing_groups(
    v: ClusterV,
    node: u32,
    data: Seq<u8>,
    t: nat,
    acked: Set<Seq<u8>>,
    groups: Seq<Seq<ChunkV>>,
    quorum: nat,
    deadline: u64,
)
    requires
        soundness::sound(v),
        progress::quiet(v.net),
        progress::reaches_storage(v.net, node),
        node < v.storages.len(),
        readback::landing(v, node, data, t),
    ensures
        readback::landing(v.groups_awaited(acked, groups, quorum, deadline).0, node, data, t),
    decreases u64::MAX - v.net.seq, v.net.queue.len(),
{
    let w = v.inbox_taken();
    let now = protocol::acked_after(acked, v.inbox, v.inbox.len());
    soundness::lemma_inbox_taken_sound(v);
    soundness::lemma_pumped_sound(w);
    simulation::lemma_pump_progress(w);
    readback::lemma_landing_pumped(w, node, data, t);
    if !protocol::groups_met(groups, now, quorum) && w.net.clock < deadline && w.pumped().1 {
        lemma_landing_groups(w.pumped().0, node, data, t, now, groups, quorum, deadline);
    }
}

/// After an erasure-coded write on a quiet network with every live storage node in reach, once
/// nothing is in flight, the shards of every chunk are at home: each is held, and different
/// shards of one chunk by different nodes.
pub proof fn law_all_shards_land(
    v: ClusterV,
    at: Seq<char>,
    bytes: Seq<u8>,
    er: Erasure,
    g: int,
) -> (homes: Map<Seq<u8>, u32>)
    requires
        soundness::sound(v),
        progress::quiet(v.net),
        forall|i: u32| #[trigger]
            v.live_storage().contains(i) ==> progress::reaches_storage(v.net, i),
        v.opts.erasure == Some(er),
        v.written(at, bytes).1 is Ok,
        v.written(at, bytes).0.net.seq < u64::MAX,
        0 <= g < protocol::shard_groups(bytes, v.group_size(), er).len(),
    ensures
        at_home(
            v.written(at, bytes).0.drained(),
            protocol::shard_groups(bytes, v.group_size(), er)[g],
            homes,
        ),
{
    let live = v.live_storage();
    let groups = protocol::shard_groups(bytes, v.group_size(), er);
    let group = groups[g];
    let quorum = protocol::larger(v.opts.write_quorum as nat, er.k as nat);
    let op = MetaOpV::Put { path: at, manifest: truth::manifest_for(v, bytes) };
    let out = protocol::spread(groups, live, groups.len()).msgs;
    let none: Set<Seq<u8>> = Set::empty();
    durability::lemma_spread_kind(groups, live, groups.len());
    durability::lemma_client_sends(v, out);
    simulation::lemma_sent_all_frame(v.net, out);
    simulation::lemma_live(v);
    let w = v.sent_all(out);
    assert(durability::true_acked(w, none));
    durability::lemma_groups_awaited(w, none, groups, quorum, w.deadline());
    let x = w.groups_awaited(none, groups, quorum, w.deadline()).0;
    soundness::lemma_extends_transitive(v, w, x);
    durability::law_meta_operation_keeps_sound(x, op, at);
    let y = v.written(at, bytes).0;
    soundness::lemma_extends_transitive(v, x, y);
    durability::lemma_drained(y);
    let homes = spreading::law_shards_on_distinct_nodes(groups, live, g, groups.len());
    spreading::lemma_spread_is_genuine(groups, live, groups.len());
    assert forall|i: int| 0 <= i < group.len() implies soundness::holds(
        y.drained().storages,
        homes[(#[trigger] group[i]).id],
        group[i].id,
    ) by {
        let id = group[i].id;
        let node = homes[id];
        assert(live.contains(node));
        let d = choose|d: Seq<u8>| #[trigger] out.contains(protocol::store_msg(node, id, d));
        let k = choose|k: int| 0 <= k < out.len() && out[k] == protocol::store_msg(node, id, d);
        assert(spreading::genuine_store(out[k]));
        progress::lemma_sent_is_coming(v.net, out, k, u64::MAX as nat);
        let t = u64::MAX as nat;
        assert(readback::landing(w, node, d, t));
        lemma_landing_groups(w, node, d, t, none, groups, quorum, w.deadline());
        readback::lemma_landing_applied(x, node, d, t, op, at);
        if soundness::holds(y.storages, node, id) {
            assert(soundness::holds(y.drained().storages, node, id));
        } else {
            healing::law_drained_chunk_is_held(y, node, d);
        }
    }
    homes
}

/// After an erasure-coded write on a quiet network, once nothing is in flight, the file is read
/// back byte for byte as long as at most `m` storage nodes are lost and the metadata is there,
/// when the shards of each chunk differ and nothing collides with them.
pub proof fn law_erasure_file_survives_losses(
    v: ClusterV,
    p: u32,
    at: Seq<char>,
    bytes: Seq<u8>,
    er: Erasure,
    x: ClusterV,
    q: u32,
    lost: Set<u32>,
)
    requires
        soundness::sound(v),
        truth::idle(v, p),
        progress::quiet(v.net),
        forall|i: u32| #[trigger]
            v.live_storage().contains(i) ==> progress::reaches_storage(v.net, i),
        v.opts.erasure == Some(er),
        1 <= er.k,
        1 <= er.m,
        er.k + er.m <= 64,
        bytes.len() <= u64::MAX,
        v.written(at, bytes).1 is Ok,
        v.written(at, bytes).0.net.seq < u64::MAX,
        shards_single(v, protocol::shard_groups(bytes, v.group_size(), er)),
        shards_agree(protocol::shard_groups(bytes, v.group_size(), er)),
        forall|g: int|
            0 <= g < protocol::shard_groups(bytes, v.group_size(), er).len() ==> protocol::ids_of(
                #[trigger] protocol::shard_groups(bytes, v.group_size(), er)[g],
            ).no_duplicates(),
        readback::same_contents(v.written(at, bytes).0.drained(), x),
        soundness::sound(x),
        truth::idle(x, q),
        truth::names(x, q) == truth::names(v.written(at, bytes).0, p),
        lost.finite(),
        lost.len() <= er.m,
        forall|i: u32|
            !progress::reaches_storage(x.net, i) ==> #[trigger] lost.contains(i),
        progress::quiet(x.net),
        progress::reaches_meta(x.net, q),
        2 * progress::hop(x.net) < x.opts.op_deadline,
        progress::room_left(x.read(at).0),
    ensures
        x.read(at).1 == Ok::<Seq<u8>, ErrorV>(bytes),
{
    let w = v.written(at, bytes).0;
    let d = w.drained();
    let groups = protocol::shard_groups(bytes, v.group_size(), er);
    truth::law_writes_take_effect(v, p, at, bytes);
    assert(!truth::names(v, p).dirs.contains(at));
    durability::law_file_operations_keep_sound(v, at, at, bytes);
    durability::lemma_drained(w);
    assert(shards_single(x, groups)) by {
        lemma_write_keeps_single(v, at, bytes, er);
        assert forall|g: int, i: int|
            #![trigger groups[g][i]]
            0 <= g < groups.len() && 0 <= i < groups[g].len() implies availability::single(
            x,
            groups[g][i].id,
            groups[g][i].data,
        ) by {
            assert(availability::single(w, groups[g][i].id, groups[g][i].data));
            readback::lemma_single_drained(w, groups[g][i].id, groups[g][i].data);
        }
    }
    let homes = Seq::new(
        groups.len(),
        |g: int| choose|h: Map<Seq<u8>, u32>| #[trigger] at_home(d, groups[g], h),
    );
    assert forall|g: int| 0 <= g < groups.len() implies {
        &&& (#[trigger] groups[g]).len() == er.k as nat + er.m as nat
        &&& protocol::ids_of(groups[g]).no_duplicates()
        &&& at_home(x, groups[g], homes[g])
    } by {
        let h = law_all_shards_land(v, at, bytes, er, g);
        assert(at_home(d, groups[g], h));
        assert(at_home(d, groups[g], homes[g]));
    }
    law_shards_survive_losses(x, groups, homes, er.k as nat, er.m as nat, lost);
    law_readable_file_is_read(x, q, at, bytes, er);
}

} // verus!

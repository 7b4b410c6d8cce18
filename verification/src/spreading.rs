//! Where the shards of a file go: no two shards of one chunk share a node, so the loss of a few
//! nodes costs each chunk no more shards than nodes.

use crate::chunk::ChunkV;
use crate::erasure::{self, Erasure};
use crate::error::ErrorV;
use crate::hash;
use crate::message::MessageV;
use crate::net;
use crate::placement;
use crate::protocol::{self, Spread};
use crate::wire;
use vstd::prelude::*;

verus! {

/// Whether some message hands a shard to a node.
pub open spec fn handed(msgs: Seq<wire::Envelope>, node: u32, id: Seq<u8>) -> bool {
    exists|data: Seq<u8>| #[trigger] msgs.contains(protocol::store_msg(node, id, data))
}

/// Homes for the shards of a group: every shard is handed to its home, a live node, and
/// different shards have different homes.
pub open spec fn homes_for(
    msgs: Seq<wire::Envelope>,
    group: Seq<ChunkV>,
    live: Seq<u32>,
    homes: Map<Seq<u8>, u32>,
) -> bool {
    &&& forall|i: int|
        0 <= i < group.len() ==> {
            &&& homes.dom().contains((#[trigger] group[i]).id)
            &&& live.contains(homes[group[i].id])
            &&& handed(msgs, homes[group[i].id], group[i].id)
        }
    &&& forall|i: int, j: int|
        0 <= i < group.len() && 0 <= j < group.len() && (#[trigger] group[i]).id
            != (#[trigger] group[j]).id ==> homes[group[i].id] != homes[group[j].id]
}

/// What holds while a group is spread.
spec fn spreading(s: Spread, live: Seq<u32>, n: nat) -> bool {
    &&& s.here.subset_of(s.assigned.dom())
    &&& s.used.finite()
    &&& s.used.len() <= n
    &&& forall|x: u32| #[trigger] s.used.contains(x) ==> live.contains(x)
    &&& forall|a: Seq<u8>| #[trigger] s.here.contains(a) ==> s.used.contains(s.assigned[a])
    &&& forall|a: Seq<u8>, b: Seq<u8>|
        #[trigger] s.here.contains(a) && #[trigger] s.here.contains(b) && a != b
            ==> s.assigned[a] != s.assigned[b]
    &&& forall|a: Seq<u8>| #[trigger]
        s.assigned.dom().contains(a) ==> live.contains(s.assigned[a]) && handed(
            s.msgs,
            s.assigned[a],
            a,
        )
}

proof fn lemma_first_free(ranking: Seq<u32>, used: Set<u32>, n: nat)
    requires
        n < ranking.len(),
        exists|i: int| n <= i < ranking.len() && !used.contains(#[trigger] ranking[i]),
    ensures
        ranking.contains(protocol::first_free(ranking, used, n)),
        !used.contains(protocol::first_free(ranking, used, n)),
    decreases ranking.len() - n,
{
    if used.contains(ranking[n as int]) {
        let i = choose|i: int| n <= i < ranking.len() && !used.contains(#[trigger] ranking[i]);
        assert(i > n);
        lemma_first_free(ranking, used, n + 1);
    }
}

/// Among more nodes than are in use, one is free.
proof fn lemma_some_free(ranking: Seq<u32>, used: Set<u32>)
    requires
        ranking.no_duplicates(),
        used.finite(),
        used.len() < ranking.len(),
    ensures
        exists|i: int| 0 <= i < ranking.len() && !used.contains(#[trigger] ranking[i]),
{
    if forall|i: int| 0 <= i < ranking.len() ==> used.contains(#[trigger] ranking[i]) {
        ranking.unique_seq_to_set();
        assert(ranking.to_set().subset_of(used));
        vstd::set_lib::lemma_len_subset(ranking.to_set(), used);
    }
}

proof fn lemma_handed_stays(msgs: Seq<wire::Envelope>, e: wire::Envelope, node: u32, id: Seq<u8>)
    requires
        handed(msgs, node, id),
    ensures
        handed(msgs.push(e), node, id),
{
    let data = choose|data: Seq<u8>| #[trigger]
        msgs.contains(protocol::store_msg(node, id, data));
    net::lemma_push_contains(msgs, e, protocol::store_msg(node, id, data));
}

proof fn lemma_spread_one(s: Spread, c: ChunkV, live: Seq<u32>, n: nat)
    requires
        spreading(s, live, n),
        n < live.len(),
        live.no_duplicates(),
    ensures
        spreading(s.with(c, live), live, n + 1),
        s.with(c, live).here == s.here.insert(c.id),
        forall|a: Seq<u8>| #[trigger]
            s.here.contains(a) ==> s.with(c, live).assigned[a] == s.assigned[a],
        forall|e: wire::Envelope| #[trigger] s.msgs.contains(e) ==> s.with(c, live).msgs.contains(e),
{
    let t = s.with(c, live);
    if s.here.contains(c.id) {
        assert(s.here.insert(c.id) =~= s.here);
    } else if s.assigned.dom().contains(c.id) && !s.used.contains(s.assigned[c.id]) {
        assert(t.used.len() <= n + 1);
    } else {
        let ranking = placement::placed(c.id, live, live.len());
        placement::law_placement(c.id, live, live.len());
        lemma_some_free(ranking, s.used);
        lemma_first_free(ranking, s.used, 0);
        let node = protocol::first_free(ranking, s.used, 0);
        let e = protocol::store_msg(node, c.id, c.data);
        assert forall|a: Seq<u8>| #[trigger] t.assigned.dom().contains(a) implies live.contains(
            t.assigned[a],
        ) && handed(t.msgs, t.assigned[a], a) by {
            if a == c.id {
                net::lemma_push_contains(s.msgs, e, e);
            } else {
                lemma_handed_stays(s.msgs, e, s.assigned[a], a);
            }
        }
        assert forall|x: wire::Envelope| #[trigger] s.msgs.contains(x) implies t.msgs.contains(
            x,
        ) by {
            net::lemma_push_contains(s.msgs, e, x);
        }
    }
}

proof fn lemma_spread_group(s: Spread, group: Seq<ChunkV>, live: Seq<u32>, n: nat)
    requires
        spreading(s.next_group(), live, 0),
        n <= group.len() <= live.len(),
        live.no_duplicates(),
    ensures
        spreading(s.with_group(group, live, n), live, n),
        forall|i: int|
            0 <= i < n ==> s.with_group(group, live, n).here.contains((#[trigger] group[i]).id),
        forall|e: wire::Envelope| #[trigger]
            s.msgs.contains(e) ==> s.with_group(group, live, n).msgs.contains(e),
    decreases n,
{
    if n > 0 {
        lemma_spread_group(s, group, live, (n - 1) as nat);
        lemma_spread_one(
            s.with_group(group, live, (n - 1) as nat),
            group[n - 1],
            live,
            (n - 1) as nat,
        );
    }
}

proof fn lemma_spread(groups: Seq<Seq<ChunkV>>, live: Seq<u32>, n: nat)
    requires
        n <= groups.len(),
        live.no_duplicates(),
        forall|g: int| 0 <= g < groups.len() ==> (#[trigger] groups[g]).len() <= live.len(),
    ensures
        spreading(protocol::spread(groups, live, n).next_group(), live, 0),
    decreases n,
{
    if n > 0 {
        lemma_spread(groups, live, (n - 1) as nat);
        let s = protocol::spread(groups, live, (n - 1) as nat);
        lemma_spread_group(s, groups[n - 1], live, groups[n - 1].len());
    }
}

/// The different shards of one chunk go to different live nodes.
pub proof fn law_shards_on_distinct_nodes(
    groups: Seq<Seq<ChunkV>>,
    live: Seq<u32>,
    g: int,
    n: nat,
) -> (homes: Map<Seq<u8>, u32>)
    requires
        0 <= g < n <= groups.len(),
        live.no_duplicates(),
        forall|i: int| 0 <= i < groups.len() ==> (#[trigger] groups[i]).len() <= live.len(),
    ensures
        homes_for(protocol::spread(groups, live, n).msgs, groups[g], live, homes),
    decreases n,
{
    let s = protocol::spread(groups, live, (n - 1) as nat);
    lemma_spread(groups, live, (n - 1) as nat);
    let last = groups[n - 1];
    lemma_spread_group(s, last, live, last.len());
    let t = s.with_group(last, live, last.len());
    if g == n - 1 {
        assert forall|i: int, j: int|
            0 <= i < last.len() && 0 <= j < last.len() && (#[trigger] last[i]).id != (
            #[trigger] last[j]).id implies t.assigned[last[i].id] != t.assigned[last[j].id] by {
            assert(t.here.contains(last[i].id));
            assert(t.here.contains(last[j].id));
        }
        assert forall|i: int| 0 <= i < last.len() implies {
            &&& t.assigned.dom().contains((#[trigger] last[i]).id)
            &&& live.contains(t.assigned[last[i].id])
            &&& handed(t.msgs, t.assigned[last[i].id], last[i].id)
        } by {
            assert(t.here.contains(last[i].id));
        }
        t.assigned
    } else {
        let homes = law_shards_on_distinct_nodes(groups, live, g, (n - 1) as nat);
        let group = groups[g];
        assert forall|i: int| 0 <= i < group.len() implies handed(
            t.msgs,
            homes[(#[trigger] group[i]).id],
            group[i].id,
        ) by {
            let id = group[i].id;
            let data = choose|data: Seq<u8>| #[trigger]
                s.msgs.contains(protocol::store_msg(homes[id], id, data));
            assert(t.msgs.contains(protocol::store_msg(homes[id], id, data)));
        }
        homes
    }
}

/// Whether a message hands a node bytes that match their id.
pub open spec fn genuine_store(e: wire::Envelope) -> bool {
    e.msg matches MessageV::StoreChunk { id, data } && hash::digest(data) == id
}

/// What is spread matches its ids.
pub proof fn lemma_spread_is_genuine(groups: Seq<Seq<ChunkV>>, live: Seq<u32>, n: nat)
    requires
        n <= groups.len(),
        forall|g: int, i: int|
            #![trigger groups[g][i]]
            0 <= g < groups.len() && 0 <= i < groups[g].len() ==> hash::digest(groups[g][i].data)
                == groups[g][i].id,
    ensures
        forall|k: int|
            0 <= k < protocol::spread(groups, live, n).msgs.len() ==> genuine_store(
                #[trigger] protocol::spread(groups, live, n).msgs[k],
            ),
    decreases n,
{
    if n > 0 {
        lemma_spread_is_genuine(groups, live, (n - 1) as nat);
        let s = protocol::spread(groups, live, (n - 1) as nat);
        let group = groups[n - 1];
        assert forall|i: int| 0 <= i < group.len() implies hash::digest((#[trigger] group[i]).data)
            == group[i].id by {
            assert(groups[n - 1][i] == group[i]);
        }
        lemma_group_is_genuine(s, group, live, group.len());
    }
}

proof fn lemma_group_is_genuine(s: Spread, group: Seq<ChunkV>, live: Seq<u32>, n: nat)
    requires
        n <= group.len(),
        forall|k: int| 0 <= k < s.msgs.len() ==> genuine_store(#[trigger] s.msgs[k]),
        forall|i: int|
            0 <= i < group.len() ==> hash::digest((#[trigger] group[i]).data) == group[i].id,
    ensures
        forall|k: int|
            0 <= k < s.with_group(group, live, n).msgs.len() ==> genuine_store(
                #[trigger] s.with_group(group, live, n).msgs[k],
            ),
    decreases n,
{
    if n > 0 {
        lemma_group_is_genuine(s, group, live, (n - 1) as nat);
        assert(hash::digest(group[n - 1].data) == group[n - 1].id);
        let a = s.with_group(group, live, (n - 1) as nat).msgs;
        let b = s.with_group(group, live, n).msgs;
        assert forall|k: int| 0 <= k < b.len() implies genuine_store(#[trigger] b[k]) by {
            if k < a.len() {
                assert(genuine_store(a[k]));
            }
        }
    } else {
        assert(s.with_group(group, live, n).msgs == s.msgs);
    }
}

/// Of the first `n` positions, those whose shard lives on a lost node.
pub open spec fn lost_positions(
    group: Seq<ChunkV>,
    homes: Map<Seq<u8>, u32>,
    lost: Set<u32>,
    n: nat,
) -> Set<int> {
    Set::new(|i: int| 0 <= i < n && lost.contains(homes[group[i].id]))
}

proof fn lemma_positions(
    group: Seq<ChunkV>,
    homes: Map<Seq<u8>, u32>,
    lost: Set<u32>,
    slots: Seq<Option<Seq<u8>>>,
    n: nat,
)
    requires
        n <= group.len() == slots.len(),
        forall|i: int|
            0 <= i < slots.len() ==> ((#[trigger] slots[i]) is None <==> lost.contains(
                homes[group[i].id],
            )),
    ensures
        lost_positions(group, homes, lost, n).finite(),
        erasure::present(slots, n).len() + lost_positions(group, homes, lost, n).len() == n,
    decreases n,
{
    let now = lost_positions(group, homes, lost, n);
    if n == 0 {
        assert(now =~= Set::empty());
    } else {
        lemma_positions(group, homes, lost, slots, (n - 1) as nat);
        let before = lost_positions(group, homes, lost, (n - 1) as nat);
        if slots[n - 1] is None {
            assert(now =~= before.insert(n - 1));
        } else {
            assert(now =~= before);
        }
    }
}

/// A chunk whose shards differ and each live on their home is read from what is left after the
/// loss of up to `m` nodes.
pub proof fn law_chunk_survives_lost_nodes(
    msgs: Seq<wire::Envelope>,
    piece: Seq<u8>,
    er: Erasure,
    live: Seq<u32>,
    homes: Map<Seq<u8>, u32>,
    lost: Set<u32>,
    slots: Seq<Option<Seq<u8>>>,
)
    requires
        1 <= er.k,
        er.k + er.m <= 256,
        homes_for(msgs, protocol::shard_group(piece, er), live, homes),
        protocol::ids_of(protocol::shard_group(piece, er)).no_duplicates(),
        lost.finite(),
        lost.len() <= er.m,
        slots.len() == er.k + er.m,
        forall|i: int|
            0 <= i < slots.len() ==> (#[trigger] slots[i]) == if lost.contains(
                homes[protocol::shard_group(piece, er)[i].id],
            ) {
                None
            } else {
                Some(protocol::shard_group(piece, er)[i].data)
            },
    ensures
        erasure::decoded(slots, er.k as nat, er.m as nat, piece.len()) == Ok::<Seq<u8>, ErrorV>(
            piece,
        ),
{
    let group = protocol::shard_group(piece, er);
    let ids = protocol::ids_of(group);
    let gone = lost_positions(group, homes, lost, group.len());
    lemma_positions(group, homes, lost, slots, group.len());
    let f = |i: int| homes[group[i].id];
    assert(vstd::relations::injective_on(f, gone)) by {
        assert forall|i: int, j: int|
            #[trigger] f(i) == #[trigger] f(j) && gone.contains(i) && gone.contains(
                j,
            ) implies i == j by {
            assert(ids[i] == group[i].id && ids[j] == group[j].id);
        }
    }
    vstd::set_lib::lemma_map_size(gone, gone.map(f), f);
    assert(gone.map(f).subset_of(lost));
    vstd::set_lib::lemma_len_subset(gone.map(f), lost);
    erasure::law_any_k_shards_reconstruct(piece, er.k as nat, er.m as nat, slots);
}

} // verus!

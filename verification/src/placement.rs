//! Replica placement by rendezvous hashing (highest random weight).
//!
//! Given a chunk id, a set of live storage nodes, and a replication factor, we
//! deterministically choose the nodes that should hold the chunk. Rendezvous
//! hashing has the property that adding or removing one node only moves the
//! chunks that were placed on (or would move onto) that one node, which keeps
//! rebalancing minimal.

use crate::encode::append_bytes;
use crate::hash::{self, sha256};
use vstd::prelude::*;

verus! {

/// The bytes of a node index, least significant first.
pub open spec fn node_bytes(node: u32) -> Seq<u8> {
    seq![node as u8, (node >> 8) as u8, (node >> 16) as u8, (node >> 24) as u8]
}

/// A big-endian number.
pub open spec fn big_endian(bytes: Seq<u8>) -> nat
    decreases bytes.len(),
{
    if bytes.len() == 0 {
        0
    } else {
        256 * big_endian(bytes.drop_last()) + bytes.last() as nat
    }
}

/// The weight of a node for a chunk: the top eight bytes of the SHA-256 of the node index
/// followed by the chunk id.
#[verifier::opaque]
pub open spec fn weight_of(node: u32, chunk: Seq<u8>) -> nat {
    big_endian(hash::digest(node_bytes(node) + chunk).take(8))
}

/// Whether node `a` ranks no lower than node `b`: heavier first, then the smaller index.
pub open spec fn ranks(chunk: Seq<u8>, a: u32, b: u32) -> bool {
    weight_of(a, chunk) > weight_of(b, chunk) || (weight_of(a, chunk) == weight_of(b, chunk) && a
        <= b)
}

/// [`ranks`] as a relation.
pub open spec fn ranking(chunk: Seq<u8>) -> spec_fn(u32, u32) -> bool {
    |a: u32, b: u32| ranks(chunk, a, b)
}

/// All nodes, best first.
pub open spec fn ranked(chunk: Seq<u8>, nodes: Seq<u32>) -> Seq<u32> {
    nodes.sort_by(ranking(chunk))
}

/// The best `r` nodes, or all of them when there are fewer.
pub open spec fn placed(chunk: Seq<u8>, nodes: Seq<u32>, r: nat) -> Seq<u32> {
    let all = ranked(chunk, nodes);
    if r < all.len() {
        all.take(r as int)
    } else {
        all
    }
}

proof fn lemma_ranking_total(chunk: Seq<u8>)
    ensures
        vstd::relations::total_ordering(ranking(chunk)),
{
}

/// The ranking of some nodes is the one ordered arrangement of them.
pub proof fn lemma_ranked(chunk: Seq<u8>, nodes: Seq<u32>)
    ensures
        ranked(chunk, nodes).len() == nodes.len(),
        ranked(chunk, nodes).to_multiset() == nodes.to_multiset(),
        forall|i: int, j: int|
            0 <= i < j < nodes.len() ==> ranks(
                chunk,
                #[trigger] ranked(chunk, nodes)[i],
                #[trigger] ranked(chunk, nodes)[j],
            ),
        forall|n: u32| nodes.contains(n) <==> #[trigger] ranked(chunk, nodes).contains(n),
        nodes.no_duplicates() ==> ranked(chunk, nodes).no_duplicates(),
{
    broadcast use vstd::seq_lib::group_to_multiset_ensures;

    lemma_ranking_total(chunk);
    let all = ranked(chunk, nodes);
    nodes.lemma_sort_by_ensures(ranking(chunk));
    assert(all.to_multiset().len() == nodes.to_multiset().len());
    assert forall|i: int, j: int| 0 <= i < j < nodes.len() implies ranks(
        chunk,
        #[trigger] all[i],
        #[trigger] all[j],
    ) by {
        assert(ranking(chunk)(all[i], all[j]));
    }
    assert forall|n: u32| nodes.contains(n) <==> #[trigger] all.contains(n) by {
        assert(nodes.to_multiset().count(n) == all.to_multiset().count(n));
    }
    if nodes.no_duplicates() {
        nodes.lemma_multiset_has_no_duplicates();
        assert(all.to_multiset() == nodes.to_multiset());
        all.lemma_multiset_has_no_duplicates_conv();
    }
}

/// An arrangement of the nodes in which each ranks no lower than the next is the ranking.
proof fn lemma_ranked_unique(chunk: Seq<u8>, nodes: Seq<u32>, other: Seq<u32>)
    requires
        other.to_multiset() == nodes.to_multiset(),
        forall|i: int, j: int|
            0 <= i < j < other.len() ==> ranks(chunk, #[trigger] other[i], #[trigger] other[j]),
    ensures
        other == ranked(chunk, nodes),
{
    lemma_ranking_total(chunk);
    nodes.lemma_sort_by_ensures(ranking(chunk));
    assert(vstd::relations::sorted_by(other, ranking(chunk)));
    vstd::seq_lib::lemma_sorted_unique(other, ranked(chunk, nodes), ranking(chunk));
}

/// Taking one node away takes it out of the ranking and moves nothing else.
proof fn lemma_ranked_without(chunk: Seq<u8>, nodes: Seq<u32>, at: int, p: int)
    requires
        0 <= at < nodes.len(),
        0 <= p < nodes.len(),
        ranked(chunk, nodes)[p] == nodes[at],
    ensures
        ranked(chunk, nodes.remove(at)) == ranked(chunk, nodes).remove(p),
{
    broadcast use vstd::seq_lib::group_to_multiset_ensures;

    lemma_ranked(chunk, nodes);
    let all = ranked(chunk, nodes);
    let rest = all.remove(p);
    assert(rest.to_multiset() == nodes.remove(at).to_multiset());
    assert forall|i: int, j: int| 0 <= i < j < rest.len() implies ranks(
        chunk,
        #[trigger] rest[i],
        #[trigger] rest[j],
    ) by {
        let i2 = if i < p {
            i
        } else {
            i + 1
        };
        let j2 = if j < p {
            j
        } else {
            j + 1
        };
        assert(rest[i] == all[i2] && rest[j] == all[j2]);
    }
    lemma_ranked_unique(chunk, nodes.remove(at), rest);
}

/// The chosen nodes are live, as many as asked for or all of them, distinct when the live
/// nodes are, and each ranks no lower than the next and than every live node left out.
pub proof fn law_placement(chunk: Seq<u8>, nodes: Seq<u32>, r: nat)
    ensures
        placed(chunk, nodes, r).len() == if r < nodes.len() {
            r
        } else {
            nodes.len()
        },
        forall|n: u32| #[trigger] placed(chunk, nodes, r).contains(n) ==> nodes.contains(n),
        nodes.no_duplicates() ==> placed(chunk, nodes, r).no_duplicates(),
        forall|i: int, j: int|
            0 <= i < j < placed(chunk, nodes, r).len() ==> ranks(
                chunk,
                #[trigger] placed(chunk, nodes, r)[i],
                #[trigger] placed(chunk, nodes, r)[j],
            ),
        forall|i: int, n: u32|
            0 <= i < placed(chunk, nodes, r).len() && nodes.contains(n) && !placed(
                chunk,
                nodes,
                r,
            ).contains(n) ==> #[trigger] ranks(chunk, placed(chunk, nodes, r)[i], n),
{
    lemma_ranked(chunk, nodes);
    let all = ranked(chunk, nodes);
    let top = placed(chunk, nodes, r);
    assert forall|n: u32| #[trigger] top.contains(n) implies nodes.contains(n) by {
        let i = choose|i: int| 0 <= i < top.len() && top[i] == n;
        assert(all[i] == n);
        assert(all.contains(n));
    }
    assert forall|i: int, n: u32|
        0 <= i < top.len() && nodes.contains(n) && !top.contains(n) implies #[trigger] ranks(
        chunk,
        top[i],
        n,
    ) by {
        assert(all.contains(n));
        let j = choose|j: int| 0 <= j < all.len() && all[j] == n;
        if j < top.len() {
            assert(top[j] == n);
        }
        assert(top[i] == all[i]);
    }
}

/// A chunk that does not live on a removed node keeps its placement.
pub proof fn law_removal_moves_nothing_else(chunk: Seq<u8>, nodes: Seq<u32>, at: int, r: nat)
    requires
        0 <= at < nodes.len(),
        !placed(chunk, nodes, r).contains(nodes[at]),
    ensures
        placed(chunk, nodes.remove(at), r) == placed(chunk, nodes, r),
{
    lemma_ranked(chunk, nodes);
    let all = ranked(chunk, nodes);
    assert(all.contains(nodes[at]));
    let p = choose|p: int| 0 <= p < all.len() && all[p] == nodes[at];
    lemma_ranked_without(chunk, nodes, at, p);
    let top = placed(chunk, nodes, r);
    if p < top.len() {
        assert(top[p] == nodes[at]);
    }
    assert(placed(chunk, nodes.remove(at), r) =~= top);
}

/// The other holders of a chunk that lived on a removed node keep it.
pub proof fn law_removal_keeps_other_holders(
    chunk: Seq<u8>,
    nodes: Seq<u32>,
    at: int,
    r: nat,
    holder: u32,
)
    requires
        0 <= at < nodes.len(),
        placed(chunk, nodes, r).contains(holder),
        holder != nodes[at],
    ensures
        placed(chunk, nodes.remove(at), r).contains(holder),
{
    lemma_ranked(chunk, nodes);
    let all = ranked(chunk, nodes);
    assert(all.contains(nodes[at]));
    let p = choose|p: int| 0 <= p < all.len() && all[p] == nodes[at];
    lemma_ranked_without(chunk, nodes, at, p);
    let top = placed(chunk, nodes, r);
    let after = placed(chunk, nodes.remove(at), r);
    let i = choose|i: int| 0 <= i < top.len() && top[i] == holder;
    assert(all[i] == holder);
    let i2 = if i < p {
        i
    } else {
        i - 1
    };
    assert(after[i2] == holder);
}

/// A placement that does not take in an added node is the one from before.
pub proof fn law_addition_only_pulls_onto_new_node(
    chunk: Seq<u8>,
    nodes: Seq<u32>,
    added: u32,
    r: nat,
)
    requires
        !placed(chunk, nodes.push(added), r).contains(added),
    ensures
        placed(chunk, nodes.push(added), r) == placed(chunk, nodes, r),
{
    let more = nodes.push(added);
    law_removal_moves_nothing_else(chunk, more, nodes.len() as int, r);
    assert(more.remove(nodes.len() as int) =~= nodes);
}

/// An added node that takes a chunk over from a former holder outranks that holder.
pub proof fn law_addition_outweighs(
    chunk: Seq<u8>,
    nodes: Seq<u32>,
    added: u32,
    r: nat,
    former: u32,
)
    requires
        placed(chunk, nodes, r).contains(former),
        !placed(chunk, nodes.push(added), r).contains(former),
    ensures
        placed(chunk, nodes.push(added), r).contains(added),
        ranks(chunk, added, former),
{
    let more = nodes.push(added);
    if !placed(chunk, more, r).contains(added) {
        law_addition_only_pulls_onto_new_node(chunk, nodes, added, r);
    }
    law_placement(chunk, nodes, r);
    law_placement(chunk, more, r);
    let top = placed(chunk, more, r);
    let i = choose|i: int| 0 <= i < top.len() && top[i] == added;
    assert(nodes.contains(former));
    let j = choose|j: int| 0 <= j < nodes.len() && nodes[j] == former;
    assert(more[j] == former);
    assert(more.contains(former));
    assert(ranks(chunk, top[i], former));
}

/// Losing fewer nodes than a chunk has replicas leaves a live holder.
pub proof fn law_fewer_losses_leave_a_holder(
    chunk: Seq<u8>,
    nodes: Seq<u32>,
    r: nat,
    lost: Set<u32>,
)
    requires
        nodes.no_duplicates(),
        r <= nodes.len(),
        lost.finite(),
        lost.len() < r,
    ensures
        exists|n: u32| placed(chunk, nodes, r).contains(n) && !lost.contains(n),
{
    law_placement(chunk, nodes, r);
    let top = placed(chunk, nodes, r);
    top.unique_seq_to_set();
    if forall|n: u32| top.contains(n) ==> lost.contains(n) {
        assert(top.to_set().subset_of(lost)) by {
            assert forall|n: u32| top.to_set().contains(n) implies lost.contains(n) by {
                assert(top.contains(n));
            }
        }
        vstd::set_lib::lemma_len_subset(top.to_set(), lost);
    }
}

/// How many numbers `n` bytes can hold.
spec fn span(n: nat) -> nat
    decreases n,
{
    if n == 0 {
        1
    } else {
        256 * span((n - 1) as nat)
    }
}

proof fn lemma_big_endian_bound(bytes: Seq<u8>)
    ensures
        big_endian(bytes) < span(bytes.len()),
    decreases bytes.len(),
{
    if bytes.len() > 0 {
        lemma_big_endian_bound(bytes.drop_last());
    }
}

proof fn lemma_span(n: nat)
    requires
        n <= 7,
    ensures
        span(n) <= 0x0100_0000_0000_0000,
{
    reveal_with_fuel(span, 8);
}

fn big_endian_prefix(h: &crate::hash::Hash) -> (r: u64)
    ensures
        r == big_endian(h@.take(8)),
{
    let mut out: u64 = 0;
    let mut i: usize = 0;
    assert(h@.take(0) =~= seq![]);
    while i < 8
        invariant
            i <= 8,
            out == big_endian(h@.take(i as int)),
        decreases 8 - i,
    {
        proof {
            assert(h@.take(i + 1).drop_last() =~= h@.take(i as int));
            lemma_big_endian_bound(h@.take(i as int));
            lemma_span(i as nat);
        }
        out = 256 * out + h.0[i] as u64;
        i += 1;
    }
    out
}

/// Combine a node index and a chunk id into a 64 bit weight.
pub fn weight(node: u32, chunk: &crate::hash::Hash) -> (r: u64)
    ensures
        r == weight_of(node, chunk@),
{
    let mut buf: Vec<u8> = Vec::with_capacity(4 + 32);
    buf.push(node as u8);
    buf.push((node >> 8) as u8);
    buf.push((node >> 16) as u8);
    buf.push((node >> 24) as u8);
    assert(buf@ =~= node_bytes(node));
    append_bytes(&mut buf, chunk.0.as_slice());
    let d = sha256(buf.as_slice());
    reveal(weight_of);
    big_endian_prefix(&d)
}

/// Choose up to `r` nodes to hold `chunk` from the live set `nodes`.
///
/// The result is ordered by descending weight so the first entry is the primary
/// replica. When fewer than `r` nodes are live, every live node is returned.
pub fn place(chunk: &crate::hash::Hash, nodes: &[u32], r: usize) -> (out: Vec<u32>)
    ensures
        out@ == placed(chunk@, nodes@, r as nat),
{
    let mut weights: Vec<u64> = Vec::with_capacity(nodes.len());
    let mut out: Vec<u32> = Vec::with_capacity(nodes.len());
    let mut i: usize = 0;
    assert(nodes@.take(0) =~= seq![]);
    while i < nodes.len()
        invariant
            i <= nodes@.len(),
            out@.len() == i,
            weights@.len() == i,
            out@.to_multiset() == nodes@.take(i as int).to_multiset(),
            forall|j: int| 0 <= j < i ==> #[trigger] weights@[j] == weight_of(out@[j], chunk@),
            forall|a: int, b: int|
                0 <= a < b < i ==> ranks(chunk@, #[trigger] out@[a], #[trigger] out@[b]),
        decreases nodes@.len() - i,
    {
        let n = nodes[i];
        let w = weight(n, chunk);
        let mut at: usize = i;
        while at > 0 && (weights[at - 1] < w || (weights[at - 1] == w && out[at - 1] > n))
            invariant
                at <= i,
                i == out@.len(),
                i == weights@.len(),
                w == weight_of(n, chunk@),
                forall|j: int| 0 <= j < i ==> #[trigger] weights@[j] == weight_of(out@[j], chunk@),
                forall|j: int| at <= j < i ==> ranks(chunk@, n, #[trigger] out@[j]),
            decreases at,
        {
            assert(weights@[at - 1] == weight_of(out@[at - 1], chunk@));
            at -= 1;
        }
        proof {
            broadcast use vstd::seq_lib::group_to_multiset_ensures;

            if at > 0 {
                assert(weights@[at - 1] == weight_of(out@[at - 1], chunk@));
                assert(ranks(chunk@, out@[at - 1], n));
            }
            assert(nodes@.take(i + 1) =~= nodes@.take(i as int).push(n));
            assert(out@.insert(at as int, n).to_multiset() == out@.to_multiset().insert(n));
        }
        let ghost before = out@;
        let ghost wbefore = weights@;
        out.insert(at, n);
        weights.insert(at, w);
        proof {
            assert forall|j: int| 0 <= j < i + 1 implies #[trigger] weights@[j] == weight_of(
                out@[j],
                chunk@,
            ) by {
                if j < at {
                    assert(weights@[j] == wbefore[j]);
                } else if j > at {
                    assert(weights@[j] == wbefore[j - 1]);
                }
            }
            assert forall|a: int, b: int| 0 <= a < b < i + 1 implies ranks(
                chunk@,
                #[trigger] out@[a],
                #[trigger] out@[b],
            ) by {
                if a < at && b < at {
                    assert(out@[a] == before[a] && out@[b] == before[b]);
                } else if a < at && b > at {
                    assert(out@[a] == before[a] && out@[b] == before[b - 1]);
                } else if a > at {
                    assert(out@[a] == before[a - 1] && out@[b] == before[b - 1]);
                } else if b == at {
                    assert(out@[a] == before[a]);
                    if a < at - 1 {
                        assert(ranks(chunk@, before[a], before[at - 1]));
                    }
                } else {
                    assert(out@[b] == before[b - 1]);
                }
            }
        }
        i += 1;
    }
    proof {
        assert(nodes@.take(nodes@.len() as int) =~= nodes@);
        lemma_ranked_unique(chunk@, nodes@, out@);
    }
    if r < out.len() {
        out.truncate(r);
    }
    out
}

} // verus!

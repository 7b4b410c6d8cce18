//! What the client sends and to whom, what a read takes for the file's bytes, and the orders in
//! which things are kept.

use crate::chunk::{ChunkV, ManifestV};
use crate::erasure::Erasure;
use crate::error::ErrorV;
use crate::hash;
use crate::message::{MessageV, NodeId};
use crate::net::LinkParams;
use crate::options::Options;
use crate::ordmap::{self, Key};
use crate::outcomes;
use crate::placement;
use crate::protocol::{self, Gathered, Spread};
use crate::simulation::ClusterV;
use crate::wire;
use vstd::prelude::*;

verus! {

/// Whether a message hands a chunk from the client to a storage node.
pub open spec fn hands(x: wire::Envelope, node: u32, id: Seq<u8>, data: Seq<u8>) -> bool {
    &&& x.from == NodeId::Client
    &&& x.to == NodeId::Storage(node)
    &&& x.msg == (MessageV::StoreChunk { id, data })
}

/// Whether a message asks a storage node for a chunk, for the client.
pub open spec fn asks(x: wire::Envelope, node: u32, id: Seq<u8>) -> bool {
    x.from == NodeId::Client && x.to == NodeId::Storage(node) && x.msg == (MessageV::FetchChunk {
        id,
    })
}

proof fn lemma_concat_contains(
    a: Seq<wire::Envelope>,
    b: Seq<wire::Envelope>,
    x: wire::Envelope,
)
    ensures
        (a + b).contains(x) <==> a.contains(x) || b.contains(x),
{
    if a.contains(x) {
        let k = choose|k: int| 0 <= k < a.len() && a[k] == x;
        assert((a + b)[k] == x);
    }
    if b.contains(x) {
        let k = choose|k: int| 0 <= k < b.len() && b[k] == x;
        assert((a + b)[a.len() + k] == x);
    }
    if (a + b).contains(x) {
        let k = choose|k: int| 0 <= k < (a + b).len() && (a + b)[k] == x;
        if k < a.len() {
            assert(a[k] == x);
        } else {
            assert(b[k - a.len()] == x);
        }
    }
}

/// A write hands each chunk, with its bytes, to the nodes that it is placed on, and sends nothing
/// else.
pub proof fn law_what_a_write_sends(
    data: Map<Seq<u8>, Seq<u8>>,
    ids: Seq<Seq<u8>>,
    live: Seq<u32>,
    r: nat,
    n: nat,
    x: wire::Envelope,
)
    requires
        n <= ids.len(),
    ensures
        protocol::store_msgs(data, ids, live, r, n).contains(x) <==> exists|k: int, node: u32|
            0 <= k < n && #[trigger] placement::placed(ids[k], live, r).contains(node) && hands(
                x,
                node,
                ids[k],
                data[ids[k]],
            ),
    decreases n,
{
    if n > 0 {
        let m = (n - 1) as nat;
        law_what_a_write_sends(data, ids, live, r, m, x);
        let id = ids[n - 1];
        let at = placement::placed(id, live, r);
        let b = at.map_values(|node: u32| protocol::store_msg(node, id, data[id]));
        lemma_concat_contains(protocol::store_msgs(data, ids, live, r, m), b, x);
        if b.contains(x) {
            let j = choose|j: int| 0 <= j < b.len() && b[j] == x;
            assert(at.contains(at[j]));
            assert(placement::placed(ids[n - 1], live, r).contains(at[j]) && hands(
                x,
                at[j],
                ids[n - 1],
                data[ids[n - 1]],
            ));
        }
        if exists|k: int, node: u32|
            0 <= k < n && #[trigger] placement::placed(ids[k], live, r).contains(node) && hands(
                x,
                node,
                ids[k],
                data[ids[k]],
            ) {
            let (k, node) = choose|k: int, node: u32|
                0 <= k < n && #[trigger] placement::placed(ids[k], live, r).contains(node) && hands(
                    x,
                    node,
                    ids[k],
                    data[ids[k]],
                );
            if k == n - 1 {
                let j = choose|j: int| 0 <= j < at.len() && at[j] == node;
                assert(b[j] == x);
            } else {
                assert(placement::placed(ids[k], live, r).contains(node));
            }
        }
    }
}

/// A read asks every live node for each chunk, and sends nothing else.
pub proof fn law_what_a_read_asks(ids: Seq<Seq<u8>>, live: Seq<u32>, n: nat, x: wire::Envelope)
    requires
        n <= ids.len(),
    ensures
        protocol::fetch_msgs(ids, live, n).contains(x) <==> exists|k: int, j: int|
            0 <= k < n && 0 <= j < live.len() && asks(x, #[trigger] live[j], #[trigger] ids[k]),
    decreases n,
{
    if n > 0 {
        let m = (n - 1) as nat;
        law_what_a_read_asks(ids, live, m, x);
        let id = ids[n - 1];
        let b = live.map_values(|node: u32| protocol::fetch_msg(node, id));
        lemma_concat_contains(protocol::fetch_msgs(ids, live, m), b, x);
        if b.contains(x) {
            let j = choose|j: int| 0 <= j < b.len() && b[j] == x;
            assert(asks(x, live[j], ids[n - 1]));
        }
        if exists|k: int, j: int|
            0 <= k < n && 0 <= j < live.len() && asks(x, #[trigger] live[j], #[trigger] ids[k]) {
            let (k, j) = choose|k: int, j: int|
                0 <= k < n && 0 <= j < live.len() && asks(x, #[trigger] live[j], #[trigger] ids[k]);
            if k == n - 1 {
                assert(b[j] == x);
            } else {
                assert(asks(x, live[j], ids[k]));
            }
        }
    }
}

/// After a read, each chunk goes, with the bytes that were gathered, to those of the nodes that it
/// belongs on that said that they lack it, and nothing else is sent.
pub proof fn law_what_a_read_repairs(
    g: Gathered,
    ids: Seq<Seq<u8>>,
    live: Seq<u32>,
    r: nat,
    n: nat,
    x: wire::Envelope,
)
    requires
        n <= ids.len(),
    ensures
        protocol::repair_msgs(g, ids, live, r, n).contains(x) <==> exists|k: int, node: u32|
            0 <= k < n && #[trigger] placement::placed(ids[k], live, r).contains(node)
                && outcomes::is_noted(g.missing, ids[k], node) && hands(
                x,
                node,
                ids[k],
                g.have[ids[k]],
            ),
    decreases n,
{
    if n > 0 {
        let m = (n - 1) as nat;
        law_what_a_read_repairs(g, ids, live, r, m, x);
        let id = ids[n - 1];
        let f = |node: u32| protocol::noted_for(g.missing, id).contains(node);
        let at = placement::placed(id, live, r);
        let some = at.filter(f);
        crate::metadata::lemma_filter_members(at, f);
        let b = some.map_values(|node: u32| protocol::store_msg(node, id, g.have[id]));
        lemma_concat_contains(protocol::repair_msgs(g, ids, live, r, m), b, x);
        if b.contains(x) {
            let j = choose|j: int| 0 <= j < b.len() && b[j] == x;
            assert(some.contains(some[j]));
            assert(placement::placed(ids[n - 1], live, r).contains(some[j]) && hands(
                x,
                some[j],
                ids[n - 1],
                g.have[ids[n - 1]],
            ));
        }
        if exists|k: int, node: u32|
            0 <= k < n && #[trigger] placement::placed(ids[k], live, r).contains(node)
                && outcomes::is_noted(g.missing, ids[k], node) && hands(
                x,
                node,
                ids[k],
                g.have[ids[k]],
            ) {
            let (k, node) = choose|k: int, node: u32|
                0 <= k < n && #[trigger] placement::placed(ids[k], live, r).contains(node)
                    && outcomes::is_noted(g.missing, ids[k], node) && hands(
                    x,
                    node,
                    ids[k],
                    g.have[ids[k]],
                );
            if k == n - 1 {
                assert(some.contains(node));
                let j = choose|j: int| 0 <= j < some.len() && some[j] == node;
                assert(b[j] == x);
            } else {
                assert(placement::placed(ids[k], live, r).contains(node));
            }
        }
    }
}

/// Whether enough nodes sent a chunk, with bytes that match its id.
pub open spec fn sent_by_enough(g: Gathered, id: Seq<u8>, quorum: nat) -> bool {
    g.have.dom().contains(id) && (quorum <= 1 || outcomes::count(g.sources, id) >= quorum)
}

/// A replicated read gives the gathered chunks one after the other in file order, when enough nodes
/// sent each of them and the whole matches the file's hash. It says that a chunk is unavailable
/// exactly when too few sent some chunk, and that the contents are damaged exactly when enough did
/// and the whole does not match.
pub proof fn law_what_a_read_gives(v: ClusterV, m: ManifestV)
    ensures
        ({
            let ids = ordmap::in_order::<hash::Hash>(m.chunks.to_set());
            let q = v.opts.read_quorum as nat;
            let g = v.fetched(ids, q).1;
            let all = forall|i: int|
                0 <= i < m.chunks.len() ==> sent_by_enough(g, #[trigger] m.chunks[i], q);
            let whole = Seq::new(m.chunks.len(), |i: int| g.have[m.chunks[i]]).flatten();
            let r = v.read_replicated(m).1;
            &&& r is Ok <==> all && hash::digest(whole) == m.content_hash
            &&& r matches Ok(bytes) ==> bytes == whole
            &&& r matches Err(e) ==> (e is ChunkUnavailable <==> !all)
            &&& r matches Err(e) ==> (e == ErrorV::IntegrityError <==> all)
        }),
{
    let ids = ordmap::in_order::<hash::Hash>(m.chunks.to_set());
    let q = v.opts.read_quorum as nat;
    let g = v.fetched(ids, q).1;
    vstd::seq_lib::seq_to_set_is_finite(m.chunks);
    ordmap::lemma_order_of::<hash::Hash>(m.chunks.to_set());
    outcomes::law_first_short(g, ids, q, 0);
    let whole = Seq::new(m.chunks.len(), |i: int| g.have[m.chunks[i]]);
    assert(whole =~= m.chunks.map_values(|id: Seq<u8>| g.have[id]));
    match protocol::first_short(g, ids, q, 0) {
        Some(id) => {
            let k = choose|k: int|
                0 <= k < ids.len() && #[trigger] ids[k] == id && !g.enough(ids[k], q) && forall|
                    j: int,
                |
                    0 <= j < k ==> g.enough(#[trigger] ids[j], q);
            assert(ids.to_set().contains(ids[k]));
            let i = choose|i: int| 0 <= i < m.chunks.len() && m.chunks[i] == id;
            assert(!sent_by_enough(g, m.chunks[i], q));
        },
        None => {
            assert forall|i: int| 0 <= i < m.chunks.len() implies sent_by_enough(
                g,
                #[trigger] m.chunks[i],
                q,
            ) by {
                assert(m.chunks.contains(m.chunks[i]));
                assert(m.chunks.to_set().contains(m.chunks[i]));
                assert(ids.to_set().contains(m.chunks[i]));
                let k = choose|k: int| 0 <= k < ids.len() && ids[k] == m.chunks[i];
                assert(g.enough(ids[k], q));
            }
        },
    }
}

/// A manifest that names an erasure scheme with no data shards, no parity shards or more than 64 in
/// all is damaged.
pub proof fn law_impossible_schemes_are_refused(v: ClusterV, p: Seq<char>, m: ManifestV)
    requires
        m.erasure matches Some((k, par)) && (k == 0 || par == 0 || k + par > 64),
    ensures
        v.read_manifest(p, m) == (v, Err::<Seq<u8>, ErrorV>(ErrorV::IntegrityError)),
{
}

/// A file is read by the scheme in its manifest, whatever the cluster's own.
pub proof fn law_manifest_decides_how_to_read(v: ClusterV, p: Seq<char>, m: ManifestV)
    ensures
        m.erasure is None ==> v.read_manifest(p, m) == v.read_replicated(m),
        m.erasure matches Some((k, par)) ==> (1 <= k && 1 <= par && k + par <= 64
            ==> v.read_manifest(p, m) == v.read_erasure(
            p,
            m,
            Erasure { k: k as usize, m: par as usize },
        )),
{
}

/// Whether one byte string comes before another in a dictionary: it is the beginning of it, or has
/// the smaller byte at the first place where they differ.
pub open spec fn dictionary(a: Seq<u8>, b: Seq<u8>) -> bool {
    exists|i: int| #[trigger] differ_at(a, b, i)
}

/// Whether two byte strings agree up to a place, and the first ends there or has a smaller byte
/// there than the second.
pub open spec fn differ_at(a: Seq<u8>, b: Seq<u8>, i: int) -> bool {
    &&& 0 <= i <= a.len()
    &&& i < b.len()
    &&& forall|j: int| 0 <= j < i ==> #[trigger] a[j] == b[j]
    &&& i == a.len() || a[i] < b[i]
}

proof fn lemma_dictionary(a: Seq<u8>, b: Seq<u8>)
    ensures
        ordmap::bytes_before(a, b) <==> dictionary(a, b),
    decreases a.len(),
{
    if a.len() == 0 {
        if b.len() > 0 {
            assert(differ_at(a, b, 0));
        }
    } else if b.len() > 0 {
        let x = a.skip(1);
        let y = b.skip(1);
        lemma_dictionary(x, y);
        if dictionary(a, b) {
            let i = choose|i: int| #[trigger] differ_at(a, b, i);
            if i > 0 {
                assert(a[0] == b[0]);
                assert forall|j: int| 0 <= j < i - 1 implies #[trigger] x[j] == y[j] by {
                    assert(a[j + 1] == b[j + 1]);
                }
                assert(differ_at(x, y, i - 1));
            }
        }
        if a[0] < b[0] {
            assert(differ_at(a, b, 0));
        }
        if a[0] == b[0] && dictionary(x, y) {
            let i = choose|i: int| #[trigger] differ_at(x, y, i);
            assert forall|j: int| 0 <= j < i + 1 implies #[trigger] a[j] == b[j] by {
                if j > 0 {
                    assert(x[j - 1] == y[j - 1]);
                }
            }
            assert(differ_at(a, b, i + 1));
        }
    }
}

/// Paths and names are ordered by the bytes of their UTF-8 form, and ids by their own bytes, as in
/// a dictionary.
pub proof fn law_dictionary_order(a: Seq<char>, b: Seq<char>, x: Seq<u8>, y: Seq<u8>)
    ensures
        <String as Key>::before(a, b) <==> dictionary(
            vstd::utf8::encode_utf8(a),
            vstd::utf8::encode_utf8(b),
        ),
        <hash::Hash as Key>::before(x, y) <==> dictionary(x, y),
{
    lemma_dictionary(vstd::utf8::encode_utf8(a), vstd::utf8::encode_utf8(b));
    lemma_dictionary(x, y);
}

/// The tags of messages tell their kinds apart.
pub proof fn law_tags_tell_kinds_apart(m: MessageV)
    ensures
        wire::message_wire(m)[0] == wire::message_tag(m),
        m is StoreChunk <==> wire::message_tag(m) == 1,
        m is StoreAck <==> wire::message_tag(m) == 2,
        m is FetchChunk <==> wire::message_tag(m) == 3,
        m is ChunkData <==> wire::message_tag(m) == 4,
        m is ReplicateOrder <==> wire::message_tag(m) == 5,
        m is Replicate <==> wire::message_tag(m) == 6,
        m is Heartbeat <==> wire::message_tag(m) == 7,
        m is MetaOpMsg <==> wire::message_tag(m) == 8,
        m is MetaReplicate <==> wire::message_tag(m) == 9,
        m is MetaReplicateAck <==> wire::message_tag(m) == 10,
        m is MetaCommitted <==> wire::message_tag(m) == 11,
        m is MetaQueryMsg <==> wire::message_tag(m) == 12,
        m is MetaQueryResp <==> wire::message_tag(m) == 13,
{
}

/// By default a chunk has 64 KiB and three replicas, of which two make a write and one a read, on
/// five storage nodes; a majority of three metadata nodes, but not all of them, commits; and links
/// lose nothing.
pub proof fn law_defaults()
    ensures
        Options::standard().chunk_size == 64 * 1024,
        Options::standard().replication_factor == 3,
        Options::standard().write_quorum == 2,
        Options::standard().read_quorum == 1,
        Options::standard().erasure is None,
        Options::standard().node_count == 5,
        Options::standard().meta_count == 3,
        2 * Options::standard().meta_quorum > Options::standard().meta_count,
        Options::standard().meta_quorum < Options::standard().meta_count,
        Options::standard().op_deadline == 10_000,
        Options::standard().link == (LinkParams { base_latency: 1, jitter: 4, drop_prob: 0 }),
{
}

/// Whether a message hands a shard of one of the first `n` groups to a live node.
pub open spec fn hands_shard(
    x: wire::Envelope,
    groups: Seq<Seq<ChunkV>>,
    n: nat,
    live: Seq<u32>,
) -> bool {
    exists|g: int, i: int, node: u32|
        0 <= g < n && 0 <= i < groups[g].len() && live.contains(node) && #[trigger] hands(
            x,
            node,
            groups[g][i].id,
            groups[g][i].data,
        )
}

/// A shard that is spread is sent at most once: not at all when its group has it already, or when
/// an earlier group put it on a node that this group does not use; and else to the best live node
/// that the group does not use, when there is one.
pub proof fn law_shard_is_sent_once(s: Spread, c: ChunkV, live: Seq<u32>)
    requires
        live.len() > 0,
    ensures
        ({
            let w = s.with(c, live);
            let all = placement::placed(c.id, live, live.len());
            &&& s.here.contains(c.id) ==> w == s
            &&& w.here.contains(c.id)
            &&& w.msgs.len() == s.msgs.len() || w.msgs.len() == s.msgs.len() + 1
            &&& w.msgs.take(s.msgs.len() as int) == s.msgs
            &&& w.msgs.len() > s.msgs.len() ==> exists|node: u32| #[trigger]
                live.contains(node) && hands(w.msgs.last(), node, c.id, c.data) && w.used.contains(
                    node,
                ) && w.assigned[c.id] == node && (s.used.contains(node) ==> forall|j: int|
                    0 <= j < all.len() ==> s.used.contains(#[trigger] all[j]))
            &&& w.msgs.len() == s.msgs.len() && !s.here.contains(c.id) ==> s.assigned.dom().contains(
                c.id,
            ) && !s.used.contains(s.assigned[c.id]) && w.used.contains(s.assigned[c.id])
        }),
{
    let w = s.with(c, live);
    let all = placement::placed(c.id, live, live.len());
    placement::law_placement(c.id, live, live.len());
    assert(w.msgs.take(s.msgs.len() as int) =~= s.msgs);
    if w.msgs.len() > s.msgs.len() {
        let node = protocol::first_free(all, s.used, 0);
        crate::contents::law_first_free(all, s.used, 0);
        assert(all.contains(node)) by {
            if s.used.contains(node) || node == all[0] {
                assert(all[0] == node || exists|k: int| 0 <= k < all.len() && #[trigger] all[k]
                    == node);
            }
        }
        assert(live.contains(node));
        assert(hands(w.msgs.last(), node, c.id, c.data));
    }
}

proof fn lemma_group_sends(
    s: Spread,
    groups: Seq<Seq<ChunkV>>,
    g: int,
    live: Seq<u32>,
    k: nat,
    x: wire::Envelope,
)
    requires
        live.len() > 0,
        0 <= g < groups.len(),
        k <= groups[g].len(),
        s.msgs.contains(x) ==> hands_shard(x, groups, (g + 1) as nat, live),
    ensures
        s.with_group(groups[g], live, k).msgs.contains(x) ==> hands_shard(
            x,
            groups,
            (g + 1) as nat,
            live,
        ),
        s.with_group(groups[g], live, k).msgs.len() <= s.msgs.len() + k,
    decreases k,
{
    if k > 0 {
        lemma_group_sends(s, groups, g, live, (k - 1) as nat, x);
        let t = s.with_group(groups[g], live, (k - 1) as nat);
        let c = groups[g][k - 1];
        law_shard_is_sent_once(t, c, live);
        let w = t.with(c, live);
        if w.msgs.contains(x) && !t.msgs.contains(x) {
            let j = choose|j: int| 0 <= j < w.msgs.len() && w.msgs[j] == x;
            if j < t.msgs.len() {
                assert(w.msgs.take(t.msgs.len() as int)[j] == t.msgs[j]);
                assert(t.msgs.contains(x));
            }
            assert(w.msgs.last() == x);
            let node = choose|node: u32| #[trigger]
                live.contains(node) && hands(w.msgs.last(), node, c.id, c.data) && w.used.contains(
                    node,
                ) && w.assigned[c.id] == node && (t.used.contains(node) ==> forall|j: int|
                    0 <= j < placement::placed(c.id, live, live.len()).len() ==> t.used.contains(
                        #[trigger] placement::placed(c.id, live, live.len())[j],
                    ));
            assert(hands(x, node, groups[g][k - 1].id, groups[g][k - 1].data));
        }
    }
}

/// An erasure-coded write hands shards of the file, with their bytes, to live nodes, and sends
/// nothing else and no more messages than there are shards.
pub proof fn law_what_an_erasure_write_sends(
    groups: Seq<Seq<ChunkV>>,
    live: Seq<u32>,
    n: nat,
    total: nat,
    x: wire::Envelope,
)
    requires
        live.len() > 0,
        n <= groups.len(),
        forall|g: int| 0 <= g < n ==> (#[trigger] groups[g]).len() == total,
    ensures
        protocol::spread(groups, live, n).msgs.contains(x) ==> hands_shard(x, groups, n, live),
        protocol::spread(groups, live, n).msgs.len() <= n * total,
    decreases n,
{
    if n > 0 {
        let m = (n - 1) as nat;
        law_what_an_erasure_write_sends(groups, live, m, total, x);
        let s = protocol::spread(groups, live, m);
        if s.msgs.contains(x) {
            let (g, i, node) = choose|g: int, i: int, node: u32|
                0 <= g < m && 0 <= i < groups[g].len() && live.contains(node) && #[trigger] hands(
                    x,
                    node,
                    groups[g][i].id,
                    groups[g][i].data,
                );
            assert(hands(x, node, groups[g][i].id, groups[g][i].data));
            assert(hands_shard(x, groups, n, live));
        }
        lemma_group_sends(s, groups, n - 1, live, groups[n - 1].len(), x);
        assert(n * total == m * total + total) by (nonlinear_arith)
            requires
                n == m + 1,
        ;
    } else {
        assert(0 * total == 0) by (nonlinear_arith);
    }
}

/// The place of an entry in a table of `w` columns.
proof fn lemma_place(k: int, j: int, w: int, n: int)
    requires
        0 <= k < n,
        0 <= j < w,
    ensures
        0 <= k * w + j < n * w,
        (k + 1) * w == k * w + w,
{
    assert((k + 1) * w == k * w + w) by (nonlinear_arith);
    assert((k + 1) * w <= n * w) by (nonlinear_arith)
        requires
            k + 1 <= n,
            0 <= w,
    ;
    assert(0 <= k * w) by (nonlinear_arith)
        requires
            0 <= k,
            0 <= w,
    ;
}

/// A read asks for one chunk after the other, and each live node in turn, once.
pub proof fn law_order_of_asking(ids: Seq<Seq<u8>>, live: Seq<u32>, n: nat, k: int, j: int)
    requires
        n <= ids.len(),
    ensures
        protocol::fetch_msgs(ids, live, n).len() == n * live.len(),
        0 <= k < n && 0 <= j < live.len() ==> asks(
            protocol::fetch_msgs(ids, live, n)[k * live.len() + j],
            live[j],
            ids[k],
        ),
    decreases n,
{
    let w = live.len() as int;
    if n == 0 {
        assert(0 * w == 0) by (nonlinear_arith);
    } else {
        let m = (n - 1) as nat;
        law_order_of_asking(ids, live, m, k, j);
        assert(n * w == m * w + w) by (nonlinear_arith)
            requires
                n == m + 1,
        ;
        if 0 <= k < m && 0 <= j < w {
            lemma_place(k, j, w, m as int);
        }
    }
}

/// A write hands out one chunk after the other, and each to its nodes in the order of their rank,
/// once.
pub proof fn law_order_of_handing_out(
    data: Map<Seq<u8>, Seq<u8>>,
    ids: Seq<Seq<u8>>,
    live: Seq<u32>,
    r: nat,
    n: nat,
    k: int,
    j: int,
)
    requires
        n <= ids.len(),
    ensures
        ({
            let w = if r < live.len() {
                r as int
            } else {
                live.len() as int
            };
            let msgs = protocol::store_msgs(data, ids, live, r, n);
            &&& msgs.len() == n * w
            &&& 0 <= k < n && 0 <= j < w ==> hands(
                msgs[k * w + j],
                placement::placed(ids[k], live, r)[j],
                ids[k],
                data[ids[k]],
            )
        }),
    decreases n,
{
    let w = if r < live.len() {
        r as int
    } else {
        live.len() as int
    };
    if n == 0 {
        assert(0 * w == 0) by (nonlinear_arith);
    } else {
        let m = (n - 1) as nat;
        law_order_of_handing_out(data, ids, live, r, m, k, j);
        placement::law_placement(ids[n - 1], live, r);
        assert(n * w == m * w + w) by (nonlinear_arith)
            requires
                n == m + 1,
        ;
        if 0 <= k < m && 0 <= j < w {
            lemma_place(k, j, w, m as int);
        }
    }
}

} // verus!

//! Who is up, who holds what, and what a status and a re-replication say about it.

use crate::chunk::ManifestV;
use crate::cluster::{self, Status};
use crate::durability;
use crate::message::NodeId;
use crate::metadata;
use crate::ordmap;
use crate::simulation::{self, ClusterV};
use vstd::prelude::*;

verus! {

/// Whether a storage node is one of the cluster's and is up.
pub open spec fn is_up(v: ClusterV, i: u32) -> bool {
    i < v.opts.node_count && !v.net.down.contains(NodeId::Storage(i))
}

/// The storage nodes that are up.
pub open spec fn up_nodes(v: ClusterV) -> Set<u32> {
    Set::new(|i: u32| is_up(v, i))
}

/// The storage nodes that are up and hold a chunk.
pub open spec fn copies(v: ClusterV, id: Seq<u8>) -> Set<u32> {
    Set::new(|i: u32| is_up(v, i) && v.storages[i as int].store.dom().contains(id))
}

/// The smaller of two numbers.
pub open spec fn smaller(a: nat, b: nat) -> nat {
    if a < b {
        a
    } else {
        b
    }
}

/// Whether a metadata node is the first that is up.
pub open spec fn leads(v: ClusterV, p: u32) -> bool {
    &&& p < v.opts.meta_count
    &&& !v.net.down.contains(NodeId::Meta(p))
    &&& forall|q: u32| q < p ==> #[trigger] v.net.down.contains(NodeId::Meta(q))
}

/// Whether every chunk of every file that a metadata node knows is on as many nodes that are up
/// as the replication factor asks for, or on all of them when there are fewer.
pub open spec fn all_copied(v: ClusterV, p: u32) -> bool {
    let files = v.metas[p as int].ns.files;
    forall|path: Seq<char>, i: int|
        #![trigger files[path].chunks[i]]
        files.dom().contains(path) && 0 <= i < files[path].chunks.len() ==> copies(
            v,
            files[path].chunks[i],
        ).len() >= smaller(v.opts.replication_factor as nat, up_nodes(v).len())
}

/// The live storage nodes are the nodes that are up, each once, in ascending order.
pub proof fn law_live_nodes_are_up(v: ClusterV)
    ensures
        v.live_storage().to_set() == up_nodes(v),
        up_nodes(v).finite(),
        v.live_storage().len() == up_nodes(v).len(),
        forall|i: int, j: int|
            0 <= i < j < v.live_storage().len() ==> #[trigger] v.live_storage()[i]
                < #[trigger] v.live_storage()[j],
{
    let live = v.live_storage();
    simulation::lemma_live(v);
    assert forall|i: u32| live.to_set().contains(i) <==> up_nodes(v).contains(i) by {
        assert(live.contains(i) <==> i < v.opts.node_count && !v.net.down.contains(
            NodeId::Storage(i),
        ));
    }
    assert(live.to_set() =~= up_nodes(v));
    live.unique_seq_to_set();
    vstd::seq_lib::seq_to_set_is_finite(live);
}

/// The primary is the first metadata node that is up, and there is none when all are down.
pub proof fn law_primary_leads(v: ClusterV, p: u32)
    ensures
        v.primary() == Some(p) <==> leads(v, p),
        v.primary() is None <==> forall|q: u32|
            q < v.opts.meta_count ==> #[trigger] v.net.down.contains(NodeId::Meta(q)),
{
    simulation::lemma_live(v);
    let live = v.live_meta();
    if live.len() > 0 {
        assert(live.contains(live[0]));
        assert forall|q: u32| q < live[0] implies #[trigger] v.net.down.contains(
            NodeId::Meta(q),
        ) by {
            if !v.net.down.contains(NodeId::Meta(q)) {
                assert(live.contains(q));
                let k = choose|k: int| 0 <= k < live.len() && live[k] == q;
                assert(live[0] <= live[k]);
            }
        }
        if leads(v, p) {
            assert(live.contains(p));
            if live[0] < p {
                assert(v.net.down.contains(NodeId::Meta(live[0])));
            }
            if p < live[0] {
                assert(v.net.down.contains(NodeId::Meta(p)));
            }
        }
        assert(!v.net.down.contains(NodeId::Meta(live[0])));
    } else {
        assert forall|q: u32| q < v.opts.meta_count implies #[trigger] v.net.down.contains(
            NodeId::Meta(q),
        ) by {
            if !v.net.down.contains(NodeId::Meta(q)) {
                assert(live.contains(q));
            }
        }
    }
}

/// The live replicas of a chunk are its copies on nodes that are up, each once.
pub proof fn law_live_replicas_are_copies(v: ClusterV, id: Seq<u8>)
    ensures
        v.live_replicas(id).to_set() == copies(v, id),
        copies(v, id).finite(),
        v.live_replicas(id).len() == copies(v, id).len(),
{
    let live = v.live_storage();
    let f = |i: u32| v.storages[i as int].store.dom().contains(id);
    let r = v.live_replicas(id);
    simulation::lemma_live(v);
    metadata::lemma_filter_members(live, f);
    durability::lemma_filter_distinct(live, f);
    assert forall|i: u32| r.to_set().contains(i) <==> copies(v, id).contains(i) by {
        assert(live.contains(i) <==> is_up(v, i));
        assert(r.contains(i) <==> live.contains(i) && f(i));
    }
    assert(r.to_set() =~= copies(v, id));
    r.unique_seq_to_set();
    vstd::seq_lib::seq_to_set_is_finite(r);
}

/// Whether some files' chunks are all on enough nodes, by way of their ids.
proof fn lemma_enough_is_all_copied(v: ClusterV, p: u32)
    ensures
        v.enough_for(v.metas[p as int].ns.files) <==> all_copied(v, p),
{
    let files = v.metas[p as int].ns.files;
    law_live_nodes_are_up(v);
    assert(v.target() == smaller(v.opts.replication_factor as nat, up_nodes(v).len()));
    if v.enough_for(files) {
        assert forall|path: Seq<char>, i: int|
            #![trigger files[path].chunks[i]]
            files.dom().contains(path) && 0 <= i < files[path].chunks.len() implies copies(
            v,
            files[path].chunks[i],
        ).len() >= smaller(v.opts.replication_factor as nat, up_nodes(v).len()) by {
            let id = files[path].chunks[i];
            assert(metadata::referenced(files).contains(id));
            law_live_replicas_are_copies(v, id);
        }
    }
    if all_copied(v, p) {
        assert forall|id: Seq<u8>| #[trigger]
            metadata::referenced(files).contains(id) implies v.live_replicas(id).len()
            >= v.target() by {
            let path = choose|path: Seq<char>| #[trigger]
                files.dom().contains(path) && files[path].chunks.contains(id);
            let i = choose|i: int| 0 <= i < files[path].chunks.len() && files[path].chunks[i] == id;
            assert(files[path].chunks[i] == id);
            law_live_replicas_are_copies(v, id);
        }
    }
}

proof fn lemma_rounds_are_honest(v: ClusterV, p: u32, n: nat)
    ensures
        v.healed_within(p, n).1 <==> v.healed_within(p, n).0.fully_replicated(),
    decreases n,
{
    if n > 0 && !v.healing_round(p).fully_replicated() {
        lemma_rounds_are_honest(v.healing_round(p), p, (n - 1) as nat);
    }
}

/// Re-replication reports success exactly when there is a metadata node that is up and every
/// chunk of every file that the first such node knows is on at least the replication factor's
/// number of nodes that are up, or on all of those when there are fewer.
pub proof fn law_stabilize_reports_full_replication(v: ClusterV)
    ensures
        ({
            let (w, converged) = v.stabilized();
            converged <==> exists|p: u32| leads(w, p) && #[trigger] all_copied(w, p)
        }),
{
    let s = v.settled();
    let (w, converged) = v.stabilized();
    match s.primary() {
        None => {
            assert(w == s);
            if exists|p: u32| leads(w, p) && #[trigger] all_copied(w, p) {
                let p = choose|p: u32| leads(w, p) && #[trigger] all_copied(w, p);
                law_primary_leads(w, p);
            }
        },
        Some(p) => {
            lemma_rounds_are_honest(s, p, s.opts.node_count as nat * 2 + 8);
            match w.primary() {
                Some(q) => {
                    law_primary_leads(w, q);
                    lemma_enough_is_all_copied(w, q);
                    if exists|x: u32| leads(w, x) && #[trigger] all_copied(w, x) {
                        let x = choose|x: u32| leads(w, x) && #[trigger] all_copied(w, x);
                        law_primary_leads(w, x);
                    }
                },
                None => {
                    if exists|x: u32| leads(w, x) && #[trigger] all_copied(w, x) {
                        let x = choose|x: u32| leads(w, x) && #[trigger] all_copied(w, x);
                        law_primary_leads(w, x);
                    }
                },
            }
        },
    }
}

/// Re-replication never reports success while a chunk of a file is on fewer nodes that are up
/// than it should be.
pub proof fn law_stabilize_admits_a_shortage(v: ClusterV, p: u32, path: Seq<char>, i: int)
    requires
        leads(v.stabilized().0, p),
        v.stabilized().0.metas[p as int].ns.files.dom().contains(path),
        0 <= i < v.stabilized().0.metas[p as int].ns.files[path].chunks.len(),
        ({
            let w = v.stabilized().0;
            let id = w.metas[p as int].ns.files[path].chunks[i];
            copies(w, id).len() < w.opts.replication_factor && copies(w, id).len() < up_nodes(
                w,
            ).len()
        }),
    ensures
        !v.stabilized().1,
{
    law_stabilize_reports_full_replication(v);
    let w = v.stabilized().0;
    if v.stabilized().1 {
        let q = choose|q: u32| leads(w, q) && #[trigger] all_copied(w, q);
        law_primary_leads(w, p);
        law_primary_leads(w, q);
        let files = w.metas[p as int].ns.files;
        assert(copies(w, files[path].chunks[i]).len() >= smaller(
            w.opts.replication_factor as nat,
            up_nodes(w).len(),
        ));
    }
}

/// The fewest live replicas are no more than any chunk has, and as many as some chunk has.
proof fn lemma_fewest(v: ClusterV, ids: Seq<Seq<u8>>, n: nat)
    requires
        0 < n <= ids.len(),
    ensures
        forall|i: int|
            0 <= i < n ==> cluster::fewest(v, ids, n) <= copies(v, #[trigger] ids[i]).len(),
        exists|i: int|
            0 <= i < n && cluster::fewest(v, ids, n) == copies(v, #[trigger] ids[i]).len(),
    decreases n,
{
    law_live_replicas_are_copies(v, ids[n - 1]);
    if n == 1 {
        assert(cluster::fewest(v, ids, n) == copies(v, ids[0]).len());
    } else {
        lemma_fewest(v, ids, (n - 1) as nat);
        let m = cluster::fewest(v, ids, (n - 1) as nat);
        let i = choose|i: int| 0 <= i < n - 1 && m == copies(v, #[trigger] ids[i]).len();
        let c = copies(v, ids[n - 1]).len();
        if c < m {
            assert(cluster::fewest(v, ids, n) == copies(v, ids[n - 1]).len());
        } else {
            assert(cluster::fewest(v, ids, n) == copies(v, ids[i]).len());
        }
    }
}

/// What a status says of the storage nodes: each node, whether it is up, and how many chunks it
/// holds; and what time it is.
pub proof fn law_status_shows_nodes(v: ClusterV, s: Status, i: int)
    requires
        cluster::reports(v, s),
        0 <= i < v.opts.node_count,
        v.storages[i].store.dom().len() <= usize::MAX,
    ensures
        s.clock == v.net.clock,
        s.nodes@.len() == v.opts.node_count,
        s.nodes@[i].idx == i,
        s.nodes@[i].live <==> is_up(v, i as u32),
        s.nodes@[i].chunks == v.storages[i].store.dom().len(),
{
    assert(s.nodes@[i] == cluster::node_status(v, i as u32));
}

/// What a status says of the files: it lists every file that the first metadata node that is up
/// knows, each once, in path order, and no other. Without such a node it lists none.
pub proof fn law_status_lists_files(v: ClusterV, s: Status, p: u32, path: Seq<char>)
    requires
        cluster::reports(v, s),
        leads(v, p),
        v.metas[p as int].ns.files.dom().finite(),
    ensures
        s.files@.len() == v.metas[p as int].ns.files.dom().len(),
        v.metas[p as int].ns.files.dom().contains(path) <==> exists|j: int|
            0 <= j < s.files@.len() && (#[trigger] s.files@[j]).path@ == path,
        forall|j: int, k: int|
            0 <= j < k < s.files@.len() ==> <String as ordmap::Key>::before(
                (#[trigger] s.files@[j]).path@,
                (#[trigger] s.files@[k]).path@,
            ),
{
    law_primary_leads(v, p);
    let files = v.metas[p as int].ns.files;
    let ks = ordmap::in_order::<String>(files.dom());
    ordmap::lemma_order_of::<String>(files.dom());
    assert(cluster::file_health(v, p, s.files@));
    assert forall|j: int| 0 <= j < s.files@.len() implies (#[trigger] s.files@[j]).path@
        == ks[j] by {
        assert(cluster::describes(s.files@[j], v, ks[j], files[ks[j]]));
    }
    if files.dom().contains(path) {
        assert(ks.to_set().contains(path));
        let j = choose|j: int| 0 <= j < ks.len() && ks[j] == path;
        assert(s.files@[j].path@ == path);
    }
    if exists|j: int| 0 <= j < s.files@.len() && (#[trigger] s.files@[j]).path@ == path {
        let j = choose|j: int| 0 <= j < s.files@.len() && (#[trigger] s.files@[j]).path@ == path;
        assert(ks.contains(ks[j]));
        assert(ks.to_set().contains(path));
    }
}

/// Without a metadata node that is up a status lists no file.
pub proof fn law_status_without_metadata(v: ClusterV, s: Status)
    requires
        cluster::reports(v, s),
        forall|q: u32| q < v.opts.meta_count ==> #[trigger] v.net.down.contains(NodeId::Meta(q)),
    ensures
        s.files@.len() == 0,
{
    law_primary_leads(v, 0);
}

/// What a status says of one file: its size, the number of its chunks, and a number that is at
/// most the number of live replicas of every one of its chunks and equals it for one of them. A
/// file without chunks shows what a chunk of it would need.
pub proof fn law_status_shows_weakest_chunk(v: ClusterV, s: Status, p: u32, j: int)
    requires
        cluster::reports(v, s),
        leads(v, p),
        v.metas[p as int].ns.files.dom().finite(),
        0 <= j < s.files@.len(),
    ensures
        ({
            let h = s.files@[j];
            let m: ManifestV = v.metas[p as int].ns.files[h.path@];
            &&& v.metas[p as int].ns.files.dom().contains(h.path@)
            &&& h.size == m.size
            &&& h.chunk_count == m.chunks.len()
            &&& forall|i: int|
                0 <= i < m.chunks.len() ==> h.min_live_replicas <= copies(
                    v,
                    #[trigger] m.chunks[i],
                ).len()
            &&& m.chunks.len() > 0 ==> exists|i: int|
                0 <= i < m.chunks.len() && h.min_live_replicas == copies(
                    v,
                    #[trigger] m.chunks[i],
                ).len()
            &&& m.chunks.len() == 0 ==> h.min_live_replicas == smaller(
                v.opts.replication_factor as nat,
                up_nodes(v).len(),
            )
        }),
{
    law_primary_leads(v, p);
    law_live_nodes_are_up(v);
    let files = v.metas[p as int].ns.files;
    let ks = ordmap::in_order::<String>(files.dom());
    ordmap::lemma_order_of::<String>(files.dom());
    assert(cluster::file_health(v, p, s.files@));
    assert(cluster::describes(s.files@[j], v, ks[j], files[ks[j]]));
    assert(ks.contains(ks[j]));
    assert(ks.to_set().contains(ks[j]));
    let m = files[ks[j]];
    if m.chunks.len() > 0 {
        lemma_fewest(v, m.chunks, m.chunks.len());
    }
}

/// The replicas that a chunk should have: as many as the replication factor asks for, or one on
/// every node that is up when there are fewer.
pub proof fn law_target(v: ClusterV)
    ensures
        v.target() <= v.opts.replication_factor,
        v.target() <= up_nodes(v).len(),
        v.target() == v.opts.replication_factor || v.target() == up_nodes(v).len(),
{
    law_live_nodes_are_up(v);
}

/// The cluster after some rounds of reports, orders and copies.
pub open spec fn after_rounds(v: ClusterV, p: u32, n: nat) -> ClusterV
    decreases n,
{
    if n == 0 {
        v
    } else {
        after_rounds(v, p, (n - 1) as nat).healing_round(p)
    }
}

/// Whether a cluster's primary has every chunk of every file on enough nodes that are up.
pub open spec fn well_copied(v: ClusterV) -> bool {
    exists|p: u32| leads(v, p) && #[trigger] all_copied(v, p)
}

proof fn lemma_well_copied(v: ClusterV)
    ensures
        v.fully_replicated() <==> well_copied(v),
{
    match v.primary() {
        Some(q) => {
            law_primary_leads(v, q);
            lemma_enough_is_all_copied(v, q);
            if well_copied(v) {
                let x = choose|x: u32| leads(v, x) && #[trigger] all_copied(v, x);
                law_primary_leads(v, x);
            }
        },
        None => {
            if well_copied(v) {
                let x = choose|x: u32| leads(v, x) && #[trigger] all_copied(v, x);
                law_primary_leads(v, x);
            }
        },
    }
}

proof fn lemma_round_first(v: ClusterV, p: u32, n: nat)
    ensures
        after_rounds(v.healing_round(p), p, n) == after_rounds(v, p, n + 1),
    decreases n,
{
    if n > 0 {
        lemma_round_first(v, p, (n - 1) as nat);
    } else {
        assert(after_rounds(v, p, 1) == after_rounds(v, p, 0).healing_round(p));
    }
}

proof fn lemma_rounds_run(v: ClusterV, p: u32, n: nat) -> (k: nat)
    ensures
        k <= n,
        n > 0 ==> k > 0,
        v.healed_within(p, n).0 == after_rounds(v, p, k),
        forall|j: nat| 0 < j < k ==> !well_copied(#[trigger] after_rounds(v, p, j)),
        k < n ==> well_copied(after_rounds(v, p, k)),
    decreases n,
{
    if n == 0 {
        0
    } else {
        let w = v.healing_round(p);
        lemma_well_copied(w);
        assert(after_rounds(v, p, 1) == w) by {
            assert(after_rounds(v, p, 0) == v);
        }
        if w.fully_replicated() {
            1
        } else {
            let k = lemma_rounds_run(w, p, (n - 1) as nat);
            lemma_round_first(v, p, k);
            assert forall|j: nat| 0 < j < k + 1 implies !well_copied(
                #[trigger] after_rounds(v, p, j),
            ) by {
                if j > 1 {
                    lemma_round_first(v, p, (j - 1) as nat);
                    assert(!well_copied(after_rounds(w, p, (j - 1) as nat)));
                }
            }
            if n - 1 == 0 {
                assert(k == 0);
                assert(after_rounds(w, p, 0) == w);
            }
            k + 1
        }
    }
}

/// Re-replication settles the roles and then runs round after round, at least one, until every
/// chunk is on enough nodes that are up. It gives up only after two rounds for every storage node
/// and eight more.
pub proof fn law_stabilize_keeps_trying(v: ClusterV, p: u32)
    requires
        leads(v.settled(), p),
    ensures
        ({
            let limit = 2 * v.opts.node_count as nat + 8;
            exists|k: nat|
                #![trigger after_rounds(v.settled(), p, k)]
                0 < k <= limit && v.stabilized().0 == after_rounds(v.settled(), p, k) && (k < limit
                    ==> well_copied(v.stabilized().0)) && forall|j: nat|
                    0 < j < k ==> !well_copied(#[trigger] after_rounds(v.settled(), p, j))
        }),
{
    let s = v.settled();
    law_primary_leads(s, p);
    let k = lemma_rounds_run(s, p, s.opts.node_count as nat * 2 + 8);
    assert(v.stabilized().0 == after_rounds(s, p, k));
}

} // verus!

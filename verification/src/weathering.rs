//! Runs with faults: as long as fewer metadata nodes than a quorum are down and a quorum is up,
//! what was committed stays committed, whoever crashes, recovers or is cut off.

use crate::chunk;
use crate::cluster;
use crate::commits;
use crate::durability;
use crate::faultless;
use crate::hash;
use crate::lastwrite;
use crate::message::{MessageV, MetaOpV, NodeId, QueryResultV, QueryV};
use crate::namespace::NsV;
use crate::options::Options;
use crate::ordmap;
use crate::path;
use crate::progress;
use crate::protocol;
use crate::replay::{self, Step};
use crate::replicas;
use crate::simulation::{self, ClusterV};
use crate::soundness;
use crate::tree;
use crate::truth;
use crate::upkeep;
use vstd::prelude::*;

verus! {

/// Whether a metadata quorum is up and fewer metadata nodes than a quorum are down.
pub open spec fn tolerable(v: ClusterV) -> bool {
    let up = v.live_meta().len();
    v.opts.meta_quorum <= up && v.opts.meta_count < up + v.opts.meta_quorum
}

/// Whether the faults of a script are tolerable at every moment of it.
pub open spec fn endured(v: ClusterV, script: Seq<Step>) -> bool {
    forall|n: int|
        0 <= n <= script.len() ==> tolerable(replay::played(v, #[trigger] script.take(n)))
}

/// Whether the faults of a run are tolerable at every moment of it.
pub open spec fn within_tolerance(opts: Options, seed: u64, script: Seq<Step>) -> bool {
    endured(cluster::unsettled(opts, seed).settled(), script)
}

/// Whether the client is up and on the side of the metadata nodes.
pub open spec fn near(v: ClusterV) -> bool {
    let side = v.net.partition;
    &&& !v.net.down.contains(NodeId::Client)
    &&& forall|i: u32|
        i < v.opts.meta_count && side.dom().contains(NodeId::Client)
            && #[trigger] side.dom().contains(NodeId::Meta(i)) ==> side[NodeId::Meta(i)]
            == side[NodeId::Client]
}

/// The metadata nodes mirror a history that is no longer than the requests so far, and the
/// namespace is a tree.
pub open spec fn standing(v: ClusterV, p: u32, history: Seq<MetaOpV>) -> bool {
    &&& replicas::steady(v, p, history)
    &&& history.len() <= v.next_req
    &&& tree::tree(truth::names(v, p))
}

/// A cluster that has lost nothing that was committed.
pub open spec fn weathered(v: ClusterV, opts: Options) -> bool {
    &&& soundness::sound(v)
    &&& v.opts == opts
    &&& v.net.params == opts.link
    &&& progress::quiet(v.net)
    &&& near(v)
    &&& v.primary() matches Some(p) && exists|history: Seq<MetaOpV>| standing(v, p, history)
}

/// The namespace of whoever is primary.
pub open spec fn current(v: ClusterV) -> NsV {
    truth::names(v, v.primary()->Some_0)
}

/// Whether a step has led from one namespace to another as it should: an operation that
/// succeeded was allowed and has taken effect, and anything else has changed nothing.
pub open spec fn followed(v: ClusterV, w: ClusterV, op: Option<MetaOpV>, succeeded: bool) -> bool {
    if succeeded {
        op matches Some(o) && current(v).validated(o) is Ok && current(w) == current(v).applied(o)
    } else {
        current(w) == current(v)
    }
}

/// Whether a step is an operation on the namespace and the client sees it succeed.
pub open spec fn succeeds(v: ClusterV, s: Step) -> bool {
    match s {
        Step::Write { path, bytes } => v.written(path, bytes).1 is Ok,
        Step::Delete { path } => v.deleted(path).1 is Ok,
        Step::Mkdir { path } => v.made_dir(path).1 is Ok,
        Step::Rename { from, to } => v.renamed(from, to).1 is Ok,
        _ => false,
    }
}

/// The metadata nodes that are down.
pub open spec fn down_metas(v: ClusterV) -> Set<u32> {
    Set::new(|i: u32| i < v.opts.meta_count && v.net.down.contains(NodeId::Meta(i)))
}

/// Every metadata node is up or down.
proof fn lemma_up_or_down(v: ClusterV)
    ensures
        down_metas(v).finite(),
        down_metas(v).len() + v.live_meta().len() == v.opts.meta_count,
        v.live_meta().to_set().finite(),
        v.live_meta().to_set().len() == v.live_meta().len(),
{
    simulation::lemma_live(v);
    let live = v.live_meta();
    let all = Set::new(|i: u32| i < v.opts.meta_count as nat);
    replicas::lemma_upto(v.opts.meta_count);
    live.unique_seq_to_set();
    assert(down_metas(v).subset_of(all));
    vstd::set_lib::lemma_len_subset(down_metas(v), all);
    assert forall|i: u32| all.contains(i) <==> live.to_set().contains(i) || down_metas(
        v,
    ).contains(i) by {
        assert(live.contains(i) <==> i < v.opts.meta_count && !v.net.down.contains(
            NodeId::Meta(i),
        ));
    }
    assert(live.to_set() + down_metas(v) =~= all);
    assert(live.to_set().disjoint(down_metas(v))) by {
        assert forall|i: u32| live.to_set().contains(i) implies !down_metas(v).contains(i) by {
            assert(live.contains(i));
        }
    }
    vstd::set_lib::lemma_set_disjoint_lens(live.to_set(), down_metas(v));
}

/// The primary and the client, and the primary and the other live metadata nodes, reach each
/// other.
proof fn lemma_in_reach(v: ClusterV, p: u32, b: u32)
    requires
        soundness::sound(v),
        near(v),
        p < v.opts.meta_count,
        b < v.opts.meta_count,
        !v.net.down.contains(NodeId::Meta(p)),
        !v.net.down.contains(NodeId::Meta(b)),
    ensures
        progress::reaches_meta(v.net, p),
        v.net.connected(NodeId::Meta(p), NodeId::Meta(b)),
{
    assert(soundness::sided(v.net.partition, v.opts));
    if v.net.partition.dom().contains(NodeId::Client) || v.net.partition.dom().contains(
        NodeId::Meta(p),
    ) {
        assert(v.net.partition.dom().contains(NodeId::Meta(p)));
        assert(v.net.partition.dom().contains(NodeId::Meta(b)));
    }
}

/// When faults are tolerable, enough live backups are up to date.
proof fn lemma_backups_are_up(v: ClusterV, p: u32, history: Seq<MetaOpV>) -> (backups: Set<u32>)
    requires
        soundness::sound(v),
        near(v),
        replicas::steady(v, p, history),
        tolerable(v),
        v.metas[p as int].next_seq == history.len(),
    ensures
        commits::can_commit(v, p, history, backups),
{
    truth::lemma_primary(v, p);
    replicas::lemma_steady_backed(v, p, history);
    lemma_up_or_down(v);
    simulation::lemma_live(v);
    let s = choose|s: Set<u32>| #[trigger]
        replicas::all_applied(v, s, history) && s.finite() && s.len()
            >= v.metas[p as int].meta_quorum && (replicas::all_up(v, s) || replicas::level(
            v,
            history,
        ));
    assert(soundness::configured(v.metas[p as int], v.opts));
    let up = v.live_meta().to_set();
    let backups = if replicas::all_up(v, s) {
        s.remove(p)
    } else {
        up.remove(p)
    };
    let peers = simulation::indices(v.opts.meta_count);
    assert forall|b: u32| #[trigger] backups.contains(b) implies {
        &&& b != p
        &&& b < v.metas.len()
        &&& v.net.connected(NodeId::Meta(p), NodeId::Meta(b))
        &&& v.metas[b as int].applied_seq == history.len()
        &&& v.metas[p as int].peers.contains(b)
    } by {
        if replicas::all_up(v, s) {
            assert(s.contains(b));
        } else {
            assert(up.contains(b));
            assert(v.live_meta().contains(b));
            assert(v.metas[b as int].applied_seq == history.len());
        }
        lemma_in_reach(v, p, b);
        assert(peers[b as int] == b);
    }
    backups
}

/// A metadata operation takes effect or changes nothing.
proof fn lemma_op_weathered(v: ClusterV, opts: Options, op: MetaOpV, err_path: Seq<char>)
    requires
        weathered(v, opts),
        faultless::patient(opts),
        tolerable(v),
        progress::room_left(v.meta_applied(op, err_path).0),
    ensures
        weathered(v.meta_applied(op, err_path).0, opts),
        followed(
            v,
            v.meta_applied(op, err_path).0,
            Some(op),
            v.meta_applied(op, err_path).1 is Ok,
        ),
{
    let p = v.primary()->Some_0;
    let history = choose|history: Seq<MetaOpV>| standing(v, p, history);
    let (w, r) = v.meta_applied(op, err_path);
    truth::lemma_primary(v, p);
    lemma_in_reach(v, p, p);
    durability::law_meta_operation_keeps_sound(v, op, err_path);
    truth::lemma_primary_stays(v, w);
    truth::law_operations_take_effect(v, p, op, err_path);
    truth::law_namespace_stays_tree(v, p, op, err_path);
    let msg = MessageV::MetaOpMsg { req_id: v.next_req, op };
    let x = v.asked(p, msg);
    durability::lemma_asked(v, p, msg);
    durability::lemma_commit_awaited(x, v.next_req, x.deadline());
    assert(w.next_req >= v.next_req + 1);
    replicas::lemma_steady_backed(v, p, history);
    assert(replicas::mirrors(v.metas[p as int], history));
    if v.metas[p as int].next_seq == history.len() {
        let backups = lemma_backups_are_up(v, p, history);
        commits::law_operations_succeed(v, p, history, backups, op, err_path);
        replicas::law_committed_is_replicated(v, p, history, op, err_path);
        if r is Ok {
            assert(standing(w, p, history.push(op)));
        } else {
            assert(standing(w, p, history));
        }
    } else {
        commits::law_late_numbers_commit_nothing(v, p, history, op, err_path);
        assert(standing(w, p, history));
    }
}

/// A query changes no namespace.
proof fn lemma_query_weathered(v: ClusterV, opts: Options, q: QueryV)
    requires
        weathered(v, opts),
    ensures
        weathered(v.meta_queried(q).0, opts),
        current(v.meta_queried(q).0) == current(v),
{
    let p = v.primary()->Some_0;
    let history = choose|history: Seq<MetaOpV>| standing(v, p, history);
    let w = v.meta_queried(q).0;
    durability::law_meta_query_keeps_sound(v, q);
    truth::lemma_primary_stays(v, w);
    replicas::law_queries_keep_history(v, p, history, q);
    truth::law_queries_are_answered_truly(v, p, q);
    assert(standing(w, p, history));
}

/// A read changes no namespace.
proof fn lemma_read_weathered(v: ClusterV, opts: Options, at: Seq<char>)
    requires
        weathered(v, opts),
    ensures
        weathered(v.read(at).0, opts),
        current(v.read(at).0) == current(v),
{
    let p = v.primary()->Some_0;
    let history = choose|history: Seq<MetaOpV>| standing(v, p, history);
    let w = v.read(at).0;
    durability::law_file_operations_keep_sound(v, at, at, seq![]);
    truth::lemma_primary_stays(v, w);
    replicas::law_reads_keep_history(v, p, history, at);
    truth::law_reads_are_true(v, p, at);
    assert(standing(w, p, history));
}

/// What happens between a write's chunks being stored and its operation being proposed.
proof fn lemma_write_prepared(
    v: ClusterV,
    opts: Options,
    x: ClusterV,
    op: MetaOpV,
    at: Seq<char>,
)
    requires
        weathered(v, opts),
        faultless::patient(opts),
        tolerable(v),
        soundness::sound(x),
        soundness::extends(v, x),
        exists|history: Seq<MetaOpV>| #[trigger]
            standing(v, v.primary()->Some_0, history) && replicas::steady(
                x,
                v.primary()->Some_0,
                history,
            ),
        truth::names(x, v.primary()->Some_0) == current(v),
        progress::room_left(x.meta_applied(op, at).0),
    ensures
        weathered(x, opts),
        current(x) == current(v),
        weathered(x.meta_applied(op, at).0, opts),
        followed(v, x.meta_applied(op, at).0, Some(op), x.meta_applied(op, at).1 is Ok),
{
    let p = v.primary()->Some_0;
    truth::lemma_primary_stays(v, x);
    let history = choose|history: Seq<MetaOpV>| #[trigger]
        standing(v, p, history) && replicas::steady(x, p, history);
    assert(standing(x, p, history));
    assert(weathered(x, opts));
    lemma_op_weathered(x, opts, op, at);
}

/// A write takes effect or changes no namespace.
proof fn lemma_write_weathered(v: ClusterV, opts: Options, at: Seq<char>, bytes: Seq<u8>)
    requires
        weathered(v, opts),
        faultless::patient(opts),
        tolerable(v),
        progress::room_left(v.written(at, bytes).0),
    ensures
        ({
            let (w, r) = v.written(at, bytes);
            let op = MetaOpV::Put { path: at, manifest: truth::manifest_for(v, bytes) };
            &&& weathered(w, opts)
            &&& followed(v, w, Some(op), r is Ok)
        }),
{
    let p = v.primary()->Some_0;
    let history = choose|history: Seq<MetaOpV>| standing(v, p, history);
    let live = v.live_storage();
    let op = MetaOpV::Put { path: at, manifest: truth::manifest_for(v, bytes) };
    durability::law_file_operations_keep_sound(v, at, at, bytes);
    if path::normal(at) {
        match v.opts.erasure {
            None => {
                let quorum = v.opts.write_quorum as nat;
                if live.len() >= quorum {
                    let chunks = chunk::chunks_of(bytes, v.opts.chunk_size as nat);
                    let data = protocol::distinct_chunks(chunks, chunks.len());
                    let ids = ordmap::in_order::<hash::Hash>(data.dom());
                    let r = v.opts.replication_factor as nat;
                    let out = protocol::store_msgs(data, ids, live, r, ids.len());
                    let none = Map::empty();
                    durability::lemma_store_msgs_kind(data, ids, live, r, ids.len());
                    durability::lemma_client_sends(v, out);
                    let w = v.sent_all(out);
                    durability::lemma_acks_awaited(w, none, ids, quorum, w.deadline());
                    let x = w.acks_awaited(none, ids, quorum, w.deadline()).0;
                    soundness::lemma_extends_transitive(v, w, x);
                    truth::lemma_idle_sends(v, p, out);
                    truth::lemma_idle_acks(w, p, none, ids, quorum, w.deadline());
                    replicas::lemma_steady_sends(v, p, history, out);
                    replicas::lemma_steady_acks(w, p, history, none, ids, quorum, w.deadline());
                    truth::lemma_primary_stays(v, x);
                    assert(standing(x, p, history));
                    if w.acks_awaited(none, ids, quorum, w.deadline()).1 is None {
                        lemma_write_prepared(v, opts, x, op, at);
                    }
                }
            },
            Some(er) => {
                if live.len() >= er.k as nat + er.m as nat {
                    let groups = protocol::shard_groups(bytes, v.group_size(), er);
                    let quorum = protocol::larger(v.opts.write_quorum as nat, er.k as nat);
                    let out = protocol::spread(groups, live, groups.len()).msgs;
                    let none = Set::empty();
                    durability::lemma_spread_kind(groups, live, groups.len());
                    durability::lemma_client_sends(v, out);
                    let w = v.sent_all(out);
                    assert(durability::true_acked(w, none));
                    durability::lemma_groups_awaited(w, none, groups, quorum, w.deadline());
                    let x = w.groups_awaited(none, groups, quorum, w.deadline()).0;
                    soundness::lemma_extends_transitive(v, w, x);
                    truth::lemma_idle_sends(v, p, out);
                    truth::lemma_idle_groups(w, p, none, groups, quorum, w.deadline());
                    replicas::lemma_steady_sends(v, p, history, out);
                    replicas::lemma_steady_groups(
                        w,
                        p,
                        history,
                        none,
                        groups,
                        quorum,
                        w.deadline(),
                    );
                    truth::lemma_primary_stays(v, x);
                    assert(standing(x, p, history));
                    if w.groups_awaited(none, groups, quorum, w.deadline()).1 is None {
                        lemma_write_prepared(v, opts, x, op, at);
                    }
                }
            },
        }
    }
}

/// The crash or recovery of a metadata node leaves the namespace as it is.
proof fn lemma_failover_weathered(v: ClusterV, opts: Options, down: Set<NodeId>)
    requires
        weathered(v, opts),
        1 < opts.meta_quorum,
        !down.contains(NodeId::Client),
        tolerable(replicas::refreshed(v, down)),
    ensures
        weathered(replicas::refreshed(v, down), opts),
        current(replicas::refreshed(v, down)) == current(v),
{
    let p = v.primary()->Some_0;
    let history = choose|history: Seq<MetaOpV>| standing(v, p, history);
    let w = replicas::refreshed(v, down);
    assert(w.net.down == down);
    truth::lemma_primary(v, p);
    lemma_up_or_down(w);
    assert(w.live_meta().len() > 0);
    let q = w.primary()->Some_0;
    truth::lemma_primary(w, q);
    assert(soundness::configured(v.metas[p as int], opts));
    assert(soundness::configured(v.metas[q as int], opts));
    assert forall|k: u32|
        k < v.metas.len() && down.contains(NodeId::Meta(k)) implies #[trigger] down_metas(
        w,
    ).contains(k) by {}
    replicas::law_namespace_survives_losses(v, p, history, down, q, down_metas(w));
    assert(standing(w, q, history));
}

/// Faults of storage nodes and partitions leave the namespace as it is.
proof fn lemma_topology_weathered(v: ClusterV, opts: Options, s: Step)
    requires
        weathered(v, opts),
        s is CrashNode || s is RecoverNode || s is Partition || s is Heal,
    ensures
        weathered(replay::stepped(v, s), opts),
        current(replay::stepped(v, s)) == current(v),
{
    let p = v.primary()->Some_0;
    let history = choose|history: Seq<MetaOpV>| standing(v, p, history);
    let w = replay::stepped(v, s);
    let idx = match s {
        Step::CrashNode { idx } => idx,
        Step::RecoverNode { idx } => idx,
        _ => 0,
    };
    let idxs = match s {
        Step::Partition { idxs } => idxs,
        _ => seq![],
    };
    replay::law_step_keeps_sound(v, s);
    replicas::law_storage_faults_keep_history(v, p, history, idx, idxs);
    assert(replicas::steady(w, p, history));
    assert(standing(w, p, history));
    assert(near(w)) by {
        if s is Partition {
            let group = Seq::new(idxs.len(), |i: int| NodeId::Storage(idxs[i]));
            assert(!group.contains(NodeId::Client));
            assert forall|i: u32| ! #[trigger] group.contains(NodeId::Meta(i)) by {}
        }
    }
}

/// One operation keeps what was committed: the namespace stays, or the operation takes effect.
proof fn lemma_step_weathered(v: ClusterV, opts: Options, s: Step)
    requires
        weathered(v, opts),
        faultless::patient(opts),
        1 < opts.meta_quorum,
        tolerable(v),
        tolerable(replay::stepped(v, s)),
        progress::room_left(replay::stepped(v, s)),
    ensures
        weathered(replay::stepped(v, s), opts),
        followed(v, replay::stepped(v, s), lastwrite::op_of(opts, s), succeeds(v, s)),
{
    match s {
        Step::Write { path, bytes } => {
            lemma_write_weathered(v, opts, path, bytes);
        },
        Step::Read { path } => {
            lemma_read_weathered(v, opts, path);
        },
        Step::Delete { path } => {
            if path::normal(path) {
                lemma_op_weathered(v, opts, MetaOpV::Delete { path }, path);
            }
        },
        Step::Mkdir { path } => {
            if path::normal(path) {
                lemma_op_weathered(v, opts, MetaOpV::Mkdir { path }, path);
            }
        },
        Step::Rename { from, to } => {
            if path::normal(from) && path::normal(to) {
                lemma_op_weathered(v, opts, MetaOpV::Rename { from, to }, to);
            }
        },
        Step::List { path } => {
            if path::normal(path) {
                lemma_query_weathered(v, opts, QueryV::List { path });
            }
        },
        Step::Stat { path } => {
            if path::normal(path) {
                lemma_query_weathered(v, opts, QueryV::Stat { path });
            }
        },
        Step::CrashMeta { idx } => {
            lemma_failover_weathered(v, opts, v.net.down.insert(NodeId::Meta(idx)));
        },
        Step::RecoverMeta { idx } => {
            lemma_failover_weathered(v, opts, v.net.down.remove(NodeId::Meta(idx)));
        },
        Step::Stabilize => {
            let p = v.primary()->Some_0;
            let history = choose|history: Seq<MetaOpV>| standing(v, p, history);
            let w = v.stabilized().0;
            durability::law_stabilize(v);
            truth::lemma_primary_stays(v, w);
            upkeep::law_stabilize_keeps_history(v, p, history);
            assert(standing(w, p, history));
        },
        _ => {
            lemma_topology_weathered(v, opts, s);
        },
    }
}

/// Time and numbers only grow.
proof fn lemma_room_was_left(v: ClusterV, s: Step)
    requires
        soundness::sound(v),
        progress::room_left(replay::stepped(v, s)),
    ensures
        progress::room_left(v),
{
    match s {
        Step::Write { path, bytes } => {
            durability::law_file_operations_keep_sound(v, path, path, bytes);
        },
        Step::Read { path } => {
            durability::law_file_operations_keep_sound(v, path, path, seq![]);
        },
        Step::Delete { path } => {
            durability::law_file_operations_keep_sound(v, path, path, seq![]);
        },
        Step::Mkdir { path } => {
            durability::law_file_operations_keep_sound(v, path, path, seq![]);
        },
        Step::Rename { from, to } => {
            durability::law_file_operations_keep_sound(v, from, to, seq![]);
        },
        Step::List { path } => {
            durability::law_file_operations_keep_sound(v, path, path, seq![]);
        },
        Step::Stat { path } => {
            durability::law_file_operations_keep_sound(v, path, path, seq![]);
        },
        Step::Stabilize => {
            durability::law_stabilize(v);
        },
        _ => {},
    }
}

/// A script without its last step is endured too.
proof fn lemma_shorter_script(v: ClusterV, script: Seq<Step>)
    requires
        endured(v, script),
    ensures
        tolerable(replay::played(v, script)),
        script.len() > 0 ==> endured(v, script.drop_last()),
{
    assert(script.take(script.len() as int) =~= script);
    if script.len() > 0 {
        let front = script.drop_last();
        assert forall|n: int| 0 <= n <= front.len() implies tolerable(
            replay::played(v, #[trigger] front.take(n)),
        ) by {
            assert(front.take(n) =~= script.take(n));
        }
    }
}

/// A fresh cluster has lost nothing.
proof fn lemma_fresh_weathered(opts: Options, seed: u64)
    requires
        lastwrite::proper(opts),
        0 < opts.meta_count,
        opts.meta_quorum <= opts.meta_count,
        opts.link.drop_prob == 0,
    ensures
        weathered(cluster::unsettled(opts, seed).settled(), opts),
{
    let v = cluster::unsettled(opts, seed).settled();
    let h: Seq<MetaOpV> = seq![];
    soundness::law_fresh_cluster_is_sound(opts, seed);
    replicas::law_fresh_cluster_is_steady(opts, seed);
    tree::law_fresh_is_tree();
    assert(faultless::whole(v));
    assert(standing(v, 0, h));
    let p = v.primary()->Some_0;
    assert(standing(v, p, h));
}

/// Whatever is done to it, a cluster stays sound.
proof fn lemma_played_sound(v: ClusterV, script: Seq<Step>)
    requires
        soundness::sound(v),
    ensures
        soundness::sound(replay::played(v, script)),
    decreases script.len(),
{
    if script.len() > 0 {
        let front = script.drop_last();
        lemma_played_sound(v, front);
        replay::law_step_keeps_sound(replay::played(v, front), script.last());
    }
}

/// A script that is endured keeps what was committed.
proof fn lemma_played_weathered(v: ClusterV, opts: Options, script: Seq<Step>)
    requires
        weathered(v, opts),
        1 < opts.meta_quorum,
        faultless::patient(opts),
        endured(v, script),
        progress::room_left(replay::played(v, script)),
    ensures
        weathered(replay::played(v, script), opts),
    decreases script.len(),
{
    if script.len() > 0 {
        let front = script.drop_last();
        let w = replay::played(v, front);
        lemma_shorter_script(v, script);
        lemma_shorter_script(v, front);
        lemma_played_sound(v, front);
        lemma_room_was_left(w, script.last());
        lemma_played_weathered(v, opts, front);
        lemma_step_weathered(w, opts, script.last());
    }
}

/// Nothing but operations changes the namespace: in every run in which fewer metadata nodes than
/// a quorum are down at any time and a quorum is up, on a network that drops nothing and with
/// deadlines that leave time for messages, there is a primary at all times, its namespace is a
/// tree, an operation that the client sees succeed was allowed and takes effect, and everything
/// else, an operation that fails included, leaves the namespace as it is, whoever becomes primary.
pub proof fn law_run_namespace_follows_operations(
    opts: Options,
    seed: u64,
    script: Seq<Step>,
    s: Step,
)
    requires
        lastwrite::proper(opts),
        1 < opts.meta_quorum <= opts.meta_count,
        opts.link.drop_prob == 0,
        faultless::patient(opts),
        within_tolerance(opts, seed, script.push(s)),
        progress::room_left(replay::run_of(opts, seed, script.push(s))),
    ensures
        ({
            let v = replay::run_of(opts, seed, script);
            let w = replay::run_of(opts, seed, script.push(s));
            &&& v.primary() is Some
            &&& w.primary() is Some
            &&& tree::tree(current(v))
            &&& tree::tree(current(w))
            &&& followed(v, w, lastwrite::op_of(opts, s), succeeds(v, s))
        }),
{
    let start = cluster::unsettled(opts, seed).settled();
    let all = script.push(s);
    let v = replay::played(start, script);
    assert(all.drop_last() =~= script);
    assert(all.last() == s);
    lemma_fresh_weathered(opts, seed);
    lemma_shorter_script(start, all);
    lemma_shorter_script(start, script);
    lemma_played_sound(start, script);
    lemma_room_was_left(v, s);
    lemma_played_weathered(start, opts, script);
    lemma_step_weathered(v, opts, s);
}

/// Whether the primary files some bytes under a path.
pub open spec fn on_file(v: ClusterV, at: Seq<char>, bytes: Seq<u8>) -> bool {
    &&& v.primary() is Some
    &&& current(v).files.dom().contains(at)
    &&& current(v).files[at] == lastwrite::filed(v.opts, bytes)
}

/// What is on file stays on file while an operation spares it.
proof fn lemma_step_keeps_on_file(
    v: ClusterV,
    opts: Options,
    s: Step,
    at: Seq<char>,
    bytes: Seq<u8>,
)
    requires
        weathered(v, opts),
        faultless::patient(opts),
        1 < opts.meta_quorum,
        tolerable(v),
        tolerable(replay::stepped(v, s)),
        progress::room_left(replay::stepped(v, s)),
        on_file(v, at, bytes),
        lastwrite::spares(s, at),
    ensures
        weathered(replay::stepped(v, s), opts),
        on_file(replay::stepped(v, s), at, bytes),
{
    let w = replay::stepped(v, s);
    let p = v.primary()->Some_0;
    let history = choose|history: Seq<MetaOpV>| standing(v, p, history);
    lemma_step_weathered(v, opts, s);
    if current(w) != current(v) {
        let op = lastwrite::op_of(opts, s)->Some_0;
        lastwrite::lemma_spared(current(v), opts, s, op, at);
    }
}

/// What is on file stays on file while the operations of a script spare it.
proof fn lemma_stays_on_file(
    v: ClusterV,
    opts: Options,
    at: Seq<char>,
    bytes: Seq<u8>,
    after: Seq<Step>,
)
    requires
        weathered(v, opts),
        faultless::patient(opts),
        1 < opts.meta_quorum,
        endured(v, after),
        progress::room_left(replay::played(v, after)),
        on_file(v, at, bytes),
        forall|i: int| 0 <= i < after.len() ==> lastwrite::spares(#[trigger] after[i], at),
    ensures
        weathered(replay::played(v, after), opts),
        on_file(replay::played(v, after), at, bytes),
    decreases after.len(),
{
    if after.len() > 0 {
        let front = after.drop_last();
        let w = replay::played(v, front);
        lemma_shorter_script(v, after);
        lemma_shorter_script(v, front);
        lemma_played_sound(v, front);
        lemma_room_was_left(w, after.last());
        assert forall|i: int| 0 <= i < front.len() implies lastwrite::spares(
            #[trigger] front[i],
            at,
        ) by {
            assert(front[i] == after[i]);
        }
        lemma_stays_on_file(v, opts, at, bytes, front);
        lemma_step_keeps_on_file(w, opts, after.last(), at, bytes);
    }
}

/// Time and numbers only grow over a script.
proof fn lemma_room_was_left_before(v: ClusterV, script: Seq<Step>)
    requires
        soundness::sound(v),
        progress::room_left(replay::played(v, script)),
    ensures
        progress::room_left(v),
    decreases script.len(),
{
    if script.len() > 0 {
        let front = script.drop_last();
        lemma_played_sound(v, front);
        lemma_room_was_left(replay::played(v, front), script.last());
        lemma_room_was_left_before(v, front);
    }
}

/// Both parts of a script that is endured are endured.
proof fn lemma_parts_endured(v: ClusterV, first: Seq<Step>, after: Seq<Step>)
    requires
        endured(v, first + after),
    ensures
        endured(v, first),
        endured(replay::played(v, first), after),
{
    let all = first + after;
    assert forall|n: int| 0 <= n <= first.len() implies tolerable(
        replay::played(v, #[trigger] first.take(n)),
    ) by {
        assert(first.take(n) =~= all.take(n));
    }
    assert forall|n: int| 0 <= n <= after.len() implies tolerable(
        replay::played(replay::played(v, first), #[trigger] after.take(n)),
    ) by {
        lastwrite::lemma_played_on(v, first, after.take(n));
        assert(first + after.take(n) =~= all.take(first.len() + n));
    }
}

/// What was committed stays committed: in every run in which fewer metadata nodes than a quorum
/// are down at any time and a quorum is up, on a network that drops nothing and with deadlines
/// that leave time for messages, a file that was written stays on file with its manifest, through
/// any crashes, recoveries, partitions and re-replication, and whoever becomes primary, until it
/// is written anew, deleted or moved. It reads back with the hash of the written bytes, or its
/// chunks are reported as unavailable or damaged.
pub proof fn law_run_keeps_committed(
    opts: Options,
    seed: u64,
    before: Seq<Step>,
    at: Seq<char>,
    bytes: Seq<u8>,
    after: Seq<Step>,
)
    requires
        lastwrite::proper(opts),
        1 < opts.meta_quorum <= opts.meta_count,
        opts.link.drop_prob == 0,
        faultless::patient(opts),
        within_tolerance(opts, seed, lastwrite::script_with(before, at, bytes, after)),
        forall|i: int| 0 <= i < after.len() ==> lastwrite::spares(#[trigger] after[i], at),
        replay::run_of(opts, seed, before).written(at, bytes).1 is Ok,
        progress::room_left(
            replay::run_of(opts, seed, lastwrite::script_with(before, at, bytes, after)).read(at).0,
        ),
    ensures
        ({
            let x = replay::run_of(opts, seed, lastwrite::script_with(before, at, bytes, after));
            &&& x.primary() matches Some(q) && truth::names(x, q).files.dom().contains(at)
                && truth::names(x, q).files[at] == lastwrite::filed(opts, bytes)
            &&& x.read(at).1 matches Ok(got) ==> hash::digest(got) == hash::digest(bytes)
            &&& x.read(at).1 matches Err(e) ==> e is ChunkUnavailable || e is IntegrityError
        }),
{
    let start = cluster::unsettled(opts, seed).settled();
    let first = before.push(Step::Write { path: at, bytes });
    let v = replay::played(start, before);
    let w = replay::played(start, first);
    let x = replay::played(w, after);
    assert(first.drop_last() =~= before);
    assert(w == v.written(at, bytes).0);
    lastwrite::lemma_played_on(start, first, after);
    lemma_fresh_weathered(opts, seed);
    lemma_parts_endured(start, first, after);
    lemma_shorter_script(start, first);
    lemma_shorter_script(start, before);
    lemma_played_sound(start, before);
    lemma_played_sound(start, first);
    lemma_played_sound(w, after);
    durability::law_file_operations_keep_sound(x, at, at, bytes);
    lemma_room_was_left_before(w, after);
    lemma_room_was_left(v, first.last());
    lemma_played_weathered(start, opts, before);
    lemma_write_weathered(v, opts, at, bytes);
    assert(on_file(w, at, bytes));
    lemma_stays_on_file(w, opts, at, bytes, after);
    lemma_on_file_reads(x, opts, at, bytes);
}

/// A file on file is found; its bytes match their hash or are reported as missing.
proof fn lemma_on_file_reads(v: ClusterV, opts: Options, at: Seq<char>, bytes: Seq<u8>)
    requires
        lastwrite::proper(opts),
        weathered(v, opts),
        faultless::patient(opts),
        path::normal(at),
        on_file(v, at, bytes),
        progress::room_left(v.read(at).0),
    ensures
        v.read(at).1 matches Ok(got) ==> hash::digest(got) == hash::digest(bytes),
        v.read(at).1 matches Err(e) ==> e is ChunkUnavailable || e is IntegrityError,
{
    let p = v.primary()->Some_0;
    let q = QueryV::Get { path: at };
    let history = choose|history: Seq<MetaOpV>| standing(v, p, history);
    let ns = truth::names(v, p);
    truth::lemma_primary(v, p);
    lemma_in_reach(v, p, p);
    truth::law_reads_are_true(v, p, at);
    durability::law_file_operations_keep_sound(v, at, at, bytes);
    durability::law_meta_query_keeps_sound(v, q);
    assert(!ns.dirs.contains(at));
    let m = lastwrite::filed(opts, bytes);
    let (w, r) = v.meta_queried(q);
    truth::law_queries_are_answered_truly(v, p, q);
    assert(ns.answered(q) == QueryResultV::Manifest(Some(m)));
    if r is Ok {
        match opts.erasure {
            None => {
                durability::law_replicated_read_keeps_sound(w, m);
            },
            Some(er) => {
                durability::law_erasure_read_keeps_sound(w, at, m, er);
            },
        }
    }
    progress::law_queries_succeed(v, p, q);
    truth::law_bytes_match_manifest(w, p, at, m);
}

} // verus!

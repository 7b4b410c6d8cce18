//! Runs without faults: as long as no node crashes and no partition forms, a file reads as it
//! was last written.

use crate::chunk;
use crate::commits;
use crate::durability;
use crate::message::{MessageV, MetaOpV, NodeId, QueryV};
use crate::options::Options;
use crate::ordmap;
use crate::path;
use crate::progress;
use crate::protocol;
use crate::replay::{self, Step};
use crate::replicas;
use crate::simulation::{self, ClusterV};
use crate::soundness;
use crate::tree;
use crate::truth;
use crate::upkeep;
use vstd::prelude::*;

verus! {

/// Whether an operation is no fault: it crashes no node and splits nothing.
pub open spec fn faultless(s: Step) -> bool {
    !(s is CrashNode) && !(s is CrashMeta) && !(s is Partition)
}

/// Whether every node is up and no partition stands.
pub open spec fn whole(v: ClusterV) -> bool {
    v.net.partition.dom() =~= Set::empty() && v.net.down =~= Set::empty()
}

/// Whether a deadline leaves time for four messages.
pub open spec fn patient(opts: Options) -> bool {
    4 * (opts.link.base_latency as nat + opts.link.jitter as nat) < opts.op_deadline
}

/// The metadata nodes mirror a history that is no longer than the requests so far, the first
/// node's numbers are those of the history, and the namespace is a tree.
pub open spec fn regular(v: ClusterV, history: Seq<MetaOpV>) -> bool {
    &&& replicas::steady(v, 0, history)
    &&& v.metas[0].next_seq == history.len()
    &&& history.len() <= v.next_req
    &&& tree::tree(truth::names(v, 0))
}

/// A cluster in which nothing has failed.
pub open spec fn calm(v: ClusterV, opts: Options) -> bool {
    &&& soundness::sound(v)
    &&& v.opts == opts
    &&& v.net.params == opts.link
    &&& progress::quiet(v.net)
    &&& whole(v)
    &&& exists|history: Seq<MetaOpV>| regular(v, history)
}

/// Where nothing has failed there is nothing to recover or to heal.
pub proof fn lemma_nothing_to_mend(v: ClusterV, n: NodeId)
    requires
        whole(v),
    ensures
        v.with_net(v.net.recovered(n)) == v,
        v.with_net(v.net.healed()) == v,
{
    assert(v.net.down.remove(n) =~= v.net.down);
    assert(v.net.partition =~= Map::empty());
}

/// A fault-free operation does not change the topology, loses no chunk and runs nothing
/// backwards.
pub proof fn lemma_step_extends(v: ClusterV, s: Step)
    requires
        soundness::sound(v),
        whole(v),
        faultless(s),
    ensures
        soundness::sound(replay::stepped(v, s)),
        soundness::extends(v, replay::stepped(v, s)),
        whole(replay::stepped(v, s)),
{
    match s {
        Step::Write { path, bytes } => {
            durability::law_file_operations_keep_sound(v, path, path, bytes);
        },
        Step::Read { path } => {
            durability::law_file_operations_keep_sound(v, path, path, seq![]);
        },
        Step::Delete { path } => {
            durability::law_file_operations_keep_sound(v, path, path, seq![]);
        },
        Step::Mkdir { path } => {
            durability::law_file_operations_keep_sound(v, path, path, seq![]);
        },
        Step::Rename { from, to } => {
            durability::law_file_operations_keep_sound(v, from, to, seq![]);
        },
        Step::List { path } => {
            durability::law_file_operations_keep_sound(v, path, path, seq![]);
        },
        Step::Stat { path } => {
            durability::law_file_operations_keep_sound(v, path, path, seq![]);
        },
        Step::RecoverNode { idx } => {
            lemma_nothing_to_mend(v, NodeId::Storage(idx));
        },
        Step::RecoverMeta { idx } => {
            lemma_nothing_to_mend(v, NodeId::Meta(idx));
            soundness::law_settling_keeps_sound(v);
        },
        Step::Heal => {
            lemma_nothing_to_mend(v, NodeId::Client);
        },
        _ => {
            durability::law_stabilize(v);
        },
    }
}

/// In a regular cluster in which nothing has failed, enough backups are up to date.
pub proof fn lemma_enough_backups(v: ClusterV, opts: Options, history: Seq<MetaOpV>) -> (backups: Set<
    u32,
>)
    requires
        calm(v, opts),
        regular(v, history),
    ensures
        commits::can_commit(v, 0, history, backups),
{
    truth::lemma_primary(v, 0);
    replicas::lemma_steady_backed(v, 0, history);
    let s = choose|s: Set<u32>| #[trigger]
        replicas::all_applied(v, s, history) && s.finite() && s.len() >= v.metas[0].meta_quorum && (
        replicas::all_up(v, s) || replicas::level(v, history));
    let backups = s.remove(0);
    let peers = simulation::indices(opts.meta_count);
    assert(soundness::configured(v.metas[0], opts));
    assert forall|b: u32| #[trigger] backups.contains(b) implies {
        &&& b != 0
        &&& b < v.metas.len()
        &&& v.net.connected(NodeId::Meta(0), NodeId::Meta(b))
        &&& v.metas[b as int].applied_seq == history.len()
        &&& v.metas[0].peers.contains(b)
    } by {
        assert(s.contains(b));
        assert(peers[b as int] == b);
    }
    backups
}

/// A metadata operation on a calm cluster is answered and leaves it calm; it takes effect or
/// changes nothing.
pub proof fn lemma_op_calm(v: ClusterV, opts: Options, op: MetaOpV, err_path: Seq<char>)
    requires
        calm(v, opts),
        patient(opts),
        progress::room_left(v.meta_applied(op, err_path).0),
    ensures
        calm(v.meta_applied(op, err_path).0, opts),
        match v.meta_applied(op, err_path).1 {
            Ok(_) => truth::names(v, 0).validated(op) is Ok && truth::names(
                v.meta_applied(op, err_path).0,
                0,
            ) == truth::names(v, 0).applied(op),
            Err(_) => truth::names(v.meta_applied(op, err_path).0, 0) == truth::names(v, 0),
        },
        v.meta_applied(op, err_path).1 is Ok <==> truth::names(v, 0).validated(op) is Ok,
{
    let history = choose|history: Seq<MetaOpV>| regular(v, history);
    let w = v.meta_applied(op, err_path).0;
    let backups = lemma_enough_backups(v, opts, history);
    durability::law_meta_operation_keeps_sound(v, op, err_path);
    commits::law_operations_succeed(v, 0, history, backups, op, err_path);
    replicas::law_committed_is_replicated(v, 0, history, op, err_path);
    truth::law_operations_take_effect(v, 0, op, err_path);
    truth::law_namespace_stays_tree(v, 0, op, err_path);
    let msg = MessageV::MetaOpMsg { req_id: v.next_req, op };
    let x = v.asked(0, msg);
    durability::lemma_asked(v, 0, msg);
    durability::lemma_commit_awaited(x, v.next_req, x.deadline());
    assert(w.next_req >= v.next_req + 1);
    if v.meta_applied(op, err_path).1 is Ok {
        assert(regular(w, history.push(op)));
    } else {
        assert(regular(w, history));
    }
}

/// A query leaves a calm cluster calm and its namespace as it is.
pub proof fn lemma_query_calm(v: ClusterV, opts: Options, q: QueryV)
    requires
        calm(v, opts),
    ensures
        calm(v.meta_queried(q).0, opts),
        truth::names(v.meta_queried(q).0, 0) == truth::names(v, 0),
{
    let history = choose|history: Seq<MetaOpV>| regular(v, history);
    durability::law_meta_query_keeps_sound(v, q);
    replicas::law_queries_keep_history(v, 0, history, q);
    truth::law_queries_are_answered_truly(v, 0, q);
    assert(regular(v.meta_queried(q).0, history));
}

/// A read leaves a calm cluster calm and its namespace as it is.
pub proof fn lemma_read_calm(v: ClusterV, opts: Options, at: Seq<char>)
    requires
        calm(v, opts),
    ensures
        calm(v.read(at).0, opts),
        truth::names(v.read(at).0, 0) == truth::names(v, 0),
{
    let history = choose|history: Seq<MetaOpV>| regular(v, history);
    durability::law_file_operations_keep_sound(v, at, at, seq![]);
    replicas::law_reads_keep_history(v, 0, history, at);
    truth::law_reads_are_true(v, 0, at);
    assert(regular(v.read(at).0, history));
}

/// A write on a calm cluster leaves it calm; it takes effect or changes nothing.
pub proof fn lemma_write_calm(v: ClusterV, opts: Options, at: Seq<char>, bytes: Seq<u8>)
    requires
        calm(v, opts),
        patient(opts),
        progress::room_left(v.written(at, bytes).0),
    ensures
        calm(v.written(at, bytes).0, opts),
        ({
            let ns = truth::names(v, 0);
            let after = truth::names(v.written(at, bytes).0, 0);
            let op = MetaOpV::Put { path: at, manifest: truth::manifest_for(v, bytes) };
            match v.written(at, bytes).1 {
                Ok(_) => ns.validated(op) is Ok && after == ns.applied(op),
                Err(_) => after == ns,
            }
        }),
{
    let live = v.live_storage();
    let op = MetaOpV::Put { path: at, manifest: truth::manifest_for(v, bytes) };
    durability::law_file_operations_keep_sound(v, at, at, bytes);
    if path::normal(at) {
        match v.opts.erasure {
            None => {
                let quorum = v.opts.write_quorum as nat;
                if live.len() >= quorum {
                    let chunks = chunk::chunks_of(bytes, v.opts.chunk_size as nat);
                    let data = protocol::distinct_chunks(chunks, chunks.len());
                    let ids = ordmap::in_order::<crate::hash::Hash>(data.dom());
                    let r = v.opts.replication_factor as nat;
                    let out = protocol::store_msgs(data, ids, live, r, ids.len());
                    durability::lemma_store_msgs_kind(data, ids, live, r, ids.len());
                    durability::lemma_client_sends(v, out);
                    let w = v.sent_all(out);
                    durability::lemma_acks_awaited(w, Map::empty(), ids, quorum, w.deadline());
                    let x = w.acks_awaited(Map::empty(), ids, quorum, w.deadline()).0;
                    soundness::lemma_extends_transitive(v, w, x);
                    let history = choose|history: Seq<MetaOpV>| regular(v, history);
                    truth::lemma_idle_sends(v, 0, out);
                    truth::lemma_idle_acks(w, 0, Map::empty(), ids, quorum, w.deadline());
                    replicas::lemma_steady_sends(v, 0, history, out);
                    replicas::lemma_steady_acks(
                        w,
                        0,
                        history,
                        Map::empty(),
                        ids,
                        quorum,
                        w.deadline(),
                    );
                    assert(regular(x, history));
                    if w.acks_awaited(Map::empty(), ids, quorum, w.deadline()).1 is None {
                        lemma_op_calm(x, opts, op, at);
                    }
                }
            },
            Some(er) => {
                if live.len() >= er.k as nat + er.m as nat {
                    let groups = protocol::shard_groups(bytes, v.group_size(), er);
                    let quorum = protocol::larger(v.opts.write_quorum as nat, er.k as nat);
                    let out = protocol::spread(groups, live, groups.len()).msgs;
                    durability::lemma_spread_kind(groups, live, groups.len());
                    durability::lemma_client_sends(v, out);
                    let w = v.sent_all(out);
                    assert(durability::true_acked(w, Set::empty()));
                    durability::lemma_groups_awaited(
                        w,
                        Set::empty(),
                        groups,
                        quorum,
                        w.deadline(),
                    );
                    let x = w.groups_awaited(Set::empty(), groups, quorum, w.deadline()).0;
                    soundness::lemma_extends_transitive(v, w, x);
                    let history = choose|history: Seq<MetaOpV>| regular(v, history);
                    truth::lemma_idle_sends(v, 0, out);
                    truth::lemma_idle_groups(w, 0, Set::empty(), groups, quorum, w.deadline());
                    replicas::lemma_steady_sends(v, 0, history, out);
                    replicas::lemma_steady_groups(
                        w,
                        0,
                        history,
                        Set::empty(),
                        groups,
                        quorum,
                        w.deadline(),
                    );
                    assert(regular(x, history));
                    if w.groups_awaited(Set::empty(), groups, quorum, w.deadline()).1 is None {
                        lemma_op_calm(x, opts, op, at);
                    }
                }
            },
        }
    }
}

/// Stabilizing leaves a calm cluster calm and its namespace as it is.
pub proof fn lemma_stabilize_calm(v: ClusterV, opts: Options)
    requires
        calm(v, opts),
    ensures
        calm(v.settled(), opts),
        truth::names(v.settled(), 0) == truth::names(v, 0),
        v.settled().primary() == Some(0u32),
        calm(v.stabilized().0, opts),
        truth::names(v.stabilized().0, 0) == truth::names(v, 0),
{
    let history = choose|history: Seq<MetaOpV>| regular(v, history);
    soundness::law_settling_keeps_sound(v);
    durability::law_stabilize(v);
    upkeep::law_settling_keeps_history(v, 0, history);
    upkeep::law_stabilize_keeps_history(v, 0, history);
    assert(regular(v.settled(), history));
    assert(regular(v.stabilized().0, history));
}

} // verus!

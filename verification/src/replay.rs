//! Whole runs: a run is a function of the options, the seed and the operations, and what holds
//! at all times holds throughout every run.

use crate::cluster;
use crate::durability;
use crate::message::NodeId;
use crate::options::Options;
use crate::simulation::ClusterV;
use crate::soundness;
use vstd::prelude::*;

verus! {

/// One operation on a cluster.
pub enum Step {
    Write { path: Seq<char>, bytes: Seq<u8> },
    Read { path: Seq<char> },
    Delete { path: Seq<char> },
    Mkdir { path: Seq<char> },
    Rename { from: Seq<char>, to: Seq<char> },
    List { path: Seq<char> },
    Stat { path: Seq<char> },
    CrashNode { idx: u32 },
    RecoverNode { idx: u32 },
    CrashMeta { idx: u32 },
    RecoverMeta { idx: u32 },
    Partition { idxs: Seq<u32> },
    Heal,
    Stabilize,
}

/// The cluster after one operation.
pub open spec fn stepped(v: ClusterV, s: Step) -> ClusterV {
    match s {
        Step::Write { path, bytes } => v.written(path, bytes).0,
        Step::Read { path } => v.read(path).0,
        Step::Delete { path } => v.deleted(path).0,
        Step::Mkdir { path } => v.made_dir(path).0,
        Step::Rename { from, to } => v.renamed(from, to).0,
        Step::List { path } => v.listed(path).0,
        Step::Stat { path } => v.statted(path).0,
        Step::CrashNode { idx } => v.with_net(v.net.crashed(NodeId::Storage(idx))),
        Step::RecoverNode { idx } => v.with_net(v.net.recovered(NodeId::Storage(idx))),
        Step::CrashMeta { idx } => v.with_net(v.net.crashed(NodeId::Meta(idx))).settled(),
        Step::RecoverMeta { idx } => v.with_net(v.net.recovered(NodeId::Meta(idx))).settled(),
        Step::Partition { idxs } => v.split(idxs),
        Step::Heal => v.with_net(v.net.healed()),
        Step::Stabilize => v.stabilized().0,
    }
}

/// The cluster after a script.
pub open spec fn played(v: ClusterV, script: Seq<Step>) -> ClusterV
    decreases script.len(),
{
    if script.len() == 0 {
        v
    } else {
        stepped(played(v, script.drop_last()), script.last())
    }
}

/// The cluster after a script on a fresh cluster.
pub open spec fn run_of(opts: Options, seed: u64, script: Seq<Step>) -> ClusterV {
    played(cluster::unsettled(opts, seed).settled(), script)
}

/// One operation keeps the cluster sound and loses no chunk.
pub proof fn law_step_keeps_sound(v: ClusterV, s: Step)
    requires
        soundness::sound(v),
    ensures
        soundness::sound(stepped(v, s)),
        stepped(v, s).opts == v.opts,
        forall|i: u32, id: Seq<u8>| #[trigger]
            soundness::holds(v.storages, i, id) ==> soundness::holds(
                stepped(v, s).storages,
                i,
                id,
            ),
{
    match s {
        Step::Write { path, bytes } => {
            durability::law_file_operations_keep_sound(v, path, path, bytes);
        },
        Step::Read { path } => {
            durability::law_file_operations_keep_sound(v, path, path, seq![]);
        },
        Step::Delete { path } => {
            durability::law_file_operations_keep_sound(v, path, path, seq![]);
        },
        Step::Mkdir { path } => {
            durability::law_file_operations_keep_sound(v, path, path, seq![]);
        },
        Step::Rename { from, to } => {
            durability::law_file_operations_keep_sound(v, from, to, seq![]);
        },
        Step::List { path } => {
            durability::law_file_operations_keep_sound(v, path, path, seq![]);
        },
        Step::Stat { path } => {
            durability::law_file_operations_keep_sound(v, path, path, seq![]);
        },
        Step::CrashNode { idx } => {
            soundness::law_faults_keep_sound(v, NodeId::Storage(idx), seq![]);
        },
        Step::RecoverNode { idx } => {
            soundness::law_faults_keep_sound(v, NodeId::Storage(idx), seq![]);
        },
        Step::CrashMeta { idx } => {
            let n = NodeId::Meta(idx);
            soundness::law_faults_keep_sound(v, n, seq![]);
            soundness::law_settling_keeps_sound(v.with_net(v.net.crashed(n)));
        },
        Step::RecoverMeta { idx } => {
            let n = NodeId::Meta(idx);
            soundness::law_faults_keep_sound(v, n, seq![]);
            soundness::law_settling_keeps_sound(v.with_net(v.net.recovered(n)));
        },
        Step::Partition { idxs } => {
            soundness::law_faults_keep_sound(v, NodeId::Client, idxs);
        },
        Step::Heal => {
            soundness::law_faults_keep_sound(v, NodeId::Client, seq![]);
        },
        Step::Stabilize => {
            durability::law_stabilize(v);
        },
    }
}

/// Whatever is done to a fresh cluster, it stays sound: stores hold only bytes that match
/// their ids, acknowledgements in flight are true, and messages come in order.
pub proof fn law_every_run_is_sound(opts: Options, seed: u64, script: Seq<Step>)
    requires
        opts.wf(),
    ensures
        soundness::sound(run_of(opts, seed, script)),
        run_of(opts, seed, script).opts == opts,
    decreases script.len(),
{
    if script.len() == 0 {
        soundness::law_fresh_cluster_is_sound(opts, seed);
    } else {
        law_every_run_is_sound(opts, seed, script.drop_last());
        law_step_keeps_sound(run_of(opts, seed, script.drop_last()), script.last());
    }
}

/// A chunk that a node holds at some point of a run is held by it ever after.
pub proof fn law_stores_only_grow(v: ClusterV, script: Seq<Step>, i: u32, id: Seq<u8>)
    requires
        soundness::sound(v),
        soundness::holds(v.storages, i, id),
    ensures
        soundness::sound(played(v, script)),
        soundness::holds(played(v, script).storages, i, id),
    decreases script.len(),
{
    if script.len() > 0 {
        law_stores_only_grow(v, script.drop_last(), i, id);
        law_step_keeps_sound(played(v, script.drop_last()), script.last());
    }
}

/// The same options, seed and script give the same run: the same state and the same order of
/// deliveries.
pub proof fn law_runs_replay(
    opts: Options,
    seed: u64,
    script: Seq<Step>,
    a: ClusterV,
    b: ClusterV,
)
    requires
        a == run_of(opts, seed, script),
        b == run_of(opts, seed, script),
    ensures
        cluster::state_bytes(a) == cluster::state_bytes(b),
        cluster::delivery_bytes(a.net.log, a.net.log.len()) == cluster::delivery_bytes(
            b.net.log,
            b.net.log.len(),
        ),
{
}

} // verus!

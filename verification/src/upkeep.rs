//! Upkeep: what the cluster does on its own, delivering what is in flight, settling roles and
//! re-replicating, leaves the metadata history as it is, whichever node is primary and whichever
//! nodes are down.

use crate::durability;
use crate::healing;
use crate::message::MetaOpV;
use crate::net::NetV;
use crate::replicas;
use crate::simulation::{self, ClusterV};
use crate::soundness;
use crate::truth;
use vstd::prelude::*;

verus! {

/// Whether two clusters have the same primary with the same namespace and the same next
/// number, and whether the later one mirrors a history.
pub open spec fn undisturbed(v: ClusterV, w: ClusterV, p: u32, history: Seq<MetaOpV>) -> bool {
    &&& replicas::steady(w, p, history)
    &&& truth::names(w, p) == truth::names(v, p)
    &&& w.metas[p as int].next_seq == v.metas[p as int].next_seq
}

/// Delivering all that is in flight keeps a steady cluster steady.
pub proof fn law_draining_keeps_history(v: ClusterV, p: u32, history: Seq<MetaOpV>)
    requires
        soundness::sound(v),
        replicas::steady(v, p, history),
    ensures
        undisturbed(v, v.drained(), p, history),
    decreases u64::MAX - v.net.seq, v.net.queue.len(),
{
    simulation::lemma_pump_progress(v);
    soundness::lemma_pumped_sound(v);
    replicas::lemma_steady_pumped(v, p, history);
    truth::lemma_idle_pumped(v, p);
    if v.pumped().1 {
        law_draining_keeps_history(v.pumped().0, p, history);
    }
}

/// A round of healing keeps a steady cluster steady.
pub proof fn law_round_keeps_history(v: ClusterV, p: u32, history: Seq<MetaOpV>)
    requires
        soundness::sound(v),
        replicas::steady(v, p, history),
    ensures
        undisturbed(v, v.healing_round(p), p, history),
{
    let live = v.live_storage();
    let beats = Seq::new(live.len(), |j: int| v.heartbeat(live[j], p));
    let w = v.reporting(p, live.len());
    assert(w == v.sent_all(beats));
    durability::lemma_reporting(v, p);
    simulation::lemma_sent_all_frame(v.net, beats);
    truth::lemma_primary_stays(v, w);
    healing::lemma_idle_reporting(v, p);
    replicas::lemma_mirrored_sends(v, p, history, beats);
    law_draining_keeps_history(w, p, history);
}

/// Rounds of healing keep a steady cluster steady.
pub proof fn law_rounds_keep_history(v: ClusterV, p: u32, history: Seq<MetaOpV>, n: nat)
    requires
        soundness::sound(v),
        replicas::steady(v, p, history),
    ensures
        undisturbed(v, v.healed_within(p, n).0, p, history),
    decreases n,
{
    if n > 0 {
        law_round_keeps_history(v, p, history);
        durability::lemma_healing_round(v, p);
        if !v.healing_round(p).fully_replicated() {
            law_rounds_keep_history(v.healing_round(p), p, history, (n - 1) as nat);
        }
    }
}

/// Settling the roles while the primary stays keeps a steady cluster steady.
pub proof fn law_settling_keeps_history(v: ClusterV, p: u32, history: Seq<MetaOpV>)
    requires
        soundness::sound(v),
        replicas::steady(v, p, history),
    ensures
        undisturbed(v, v.settled(), p, history),
{
    let w = v.settled();
    assert(NetV { down: v.net.down, ..v.net } == v.net);
    assert(replicas::refreshed(v, v.net.down) == w);
    truth::lemma_primary(v, p);
    truth::lemma_primary_stays(v, w);
    replicas::lemma_steady_backed(v, p, history);
    replicas::law_namespace_survives_failover(v, p, history, v.net.down, p, p);
}

/// Stabilizing keeps a steady cluster steady, for any primary and with any nodes down.
pub proof fn law_stabilize_keeps_history(v: ClusterV, p: u32, history: Seq<MetaOpV>)
    requires
        soundness::sound(v),
        replicas::steady(v, p, history),
    ensures
        undisturbed(v, v.stabilized().0, p, history),
{
    let w = v.settled();
    soundness::law_settling_keeps_sound(v);
    law_settling_keeps_history(v, p, history);
    law_rounds_keep_history(w, p, history, w.opts.node_count as nat * 2 + 8);
}

} // verus!

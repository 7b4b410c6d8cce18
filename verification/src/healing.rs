//! The cluster heals itself: on a quiet and undivided network one round of reports, orders and
//! copies brings every chunk that a live node holds to every live node that should hold it.

use crate::chunk::ManifestV;
use crate::durability;
use crate::hash;
use crate::message::{MessageV, NodeId};
use crate::metadata::{self, MetaV};
use crate::net;
use crate::ordmap;
use crate::placement;
use crate::progress;
use crate::protocol;
use crate::replicas;
use crate::simulation::{self, ClusterV};
use crate::soundness;
use crate::storagenode::StorageV;
use crate::truth;
use crate::wire;
use vstd::prelude::*;

verus! {

/// Finitely many files refer to finitely many chunks.
proof fn lemma_referenced_finite(files: Map<Seq<char>, ManifestV>)
    requires
        files.dom().finite(),
    ensures
        metadata::referenced(files).finite(),
    decreases files.dom().len(),
{
    let all = metadata::referenced(files);
    if files.dom().is_empty() {
        assert(all =~= Set::empty());
    } else {
        let p = files.dom().choose();
        let rest = files.remove(p);
        lemma_referenced_finite(rest);
        let both = metadata::referenced(rest) + files[p].chunks.to_set();
        assert(all.subset_of(both)) by {
            assert forall|c: Seq<u8>| all.contains(c) implies #[trigger] both.contains(c) by {
                let q = choose|q: Seq<char>| #[trigger]
                    files.dom().contains(q) && files[q].chunks.contains(c);
                if q != p {
                    assert(rest.dom().contains(q) && rest[q].chunks.contains(c));
                } else {
                    assert(files[p].chunks.to_set().contains(c));
                }
            }
        }
        vstd::set_lib::lemma_set_subset_finite(both, all);
    }
}

/// Whether a message is in flight.
pub open spec fn in_flight(v: ClusterV, env: wire::Envelope) -> bool {
    progress::coming(v.net, env, u64::MAX as nat)
}

/// The order to a holder to ship a chunk.
pub open spec fn order_env(p: u32, source: u32, id: Seq<u8>, dest: u32) -> wire::Envelope {
    wire::Envelope {
        from: NodeId::Meta(p),
        to: NodeId::Storage(source),
        msg: MessageV::ReplicateOrder { id, dest },
    }
}

/// The copy on its way.
pub open spec fn copy_env(source: u32, dest: u32, id: Seq<u8>, data: Seq<u8>) -> wire::Envelope {
    wire::Envelope {
        from: NodeId::Storage(source),
        to: NodeId::Storage(dest),
        msg: MessageV::Replicate { id, data },
    }
}

/// Whether a message, if it is a report, goes to the primary and lists what its node held at
/// the start of the round.
pub open spec fn of_this_round(start: Seq<StorageV>, p: u32) -> spec_fn(wire::Envelope) -> bool {
    |e: wire::Envelope|
        e.msg matches MessageV::Heartbeat { node, chunks } ==> {
            &&& e.to == NodeId::Meta(p)
            &&& node < start.len()
            &&& chunks == ordmap::in_order::<crate::hash::Hash>(start[node as int].store.dom())
        }
}

/// A chunk that a live node holds and another should.
pub struct Gap {
    /// The primary.
    pub p: u32,
    /// What the nodes held at the start of the round.
    pub start: ClusterV,
    /// The chunk.
    pub id: Seq<u8>,
    /// A live node that holds it.
    pub holder: u32,
    /// The live node that should.
    pub dest: u32,
}

impl Gap {
    /// Who is known to hold the chunk.
    pub open spec fn known(self, v: ClusterV) -> Set<u32> {
        metadata::holding(v.metas[self.p as int].holders, self.id)
    }

    /// The report of a node.
    pub open spec fn report(self, i: u32) -> wire::Envelope {
        self.start.heartbeat(i, self.p)
    }

    /// The primary has not heard both nodes yet.
    pub open spec fn unheard(self, v: ClusterV) -> bool {
        &&& in_flight(v, self.report(self.holder)) || self.known(v).contains(self.holder)
        &&& in_flight(v, self.report(self.dest)) || !self.known(v).contains(self.dest)
        &&& in_flight(v, self.report(self.holder)) || in_flight(v, self.report(self.dest))
    }

    /// A holder is on its way to be told to ship the chunk.
    pub open spec fn ordered(self, v: ClusterV) -> bool {
        exists|s: u32| #[trigger]
            in_flight(v, order_env(self.p, s, self.id, self.dest)) && soundness::holds(
                v.storages,
                s,
                self.id,
            ) && !v.net.down.contains(NodeId::Storage(s))
    }

    /// A copy is on its way.
    pub open spec fn shipped(self, v: ClusterV) -> bool {
        exists|s: u32, d: Seq<u8>| #[trigger]
            in_flight(v, copy_env(s, self.dest, self.id, d)) && hash::digest(d) == self.id
                && !v.net.down.contains(NodeId::Storage(s))
    }

    /// The gap is closed or being closed.
    pub open spec fn closing(self, v: ClusterV) -> bool {
        ||| soundness::holds(v.storages, self.dest, self.id)
        ||| self.unheard(v)
        ||| self.ordered(v)
        ||| self.shipped(v)
    }

    /// What holds around it.
    pub open spec fn around(self, v: ClusterV) -> bool {
        let m = v.metas[self.p as int];
        &&& soundness::sound(v)
        &&& truth::idle(v, self.p)
        &&& progress::united(v.net)
        &&& soundness::sound(self.start)
        &&& v.storages.len() == self.start.storages.len()
        &&& m.is_primary
        &&& m.live_storage == v.live_storage()
        &&& metadata::referenced(m.ns.files).contains(self.id)
        &&& placement::placed(self.id, m.live_storage, m.r as nat).contains(self.dest)
        &&& v.live_storage().contains(self.holder)
        &&& v.live_storage().contains(self.dest)
        &&& soundness::holds(self.start.storages, self.holder, self.id)
        &&& !soundness::holds(self.start.storages, self.dest, self.id)
        &&& soundness::holds(v.storages, self.holder, self.id)
        &&& simulation::every(v.net.queue, of_this_round(self.start.storages, self.p))
    }
}

/// A node that gets anything but an operation keeps its role and what it knows of the live
/// nodes.
proof fn lemma_role_stays(m: MetaV, from: NodeId, msg: MessageV)
    requires
        m.buffer.dom().finite(),
        !(msg is MetaOpMsg),
    ensures
        m.handled(from, msg).0.is_primary == m.is_primary,
        m.handled(from, msg).0.live_storage == m.live_storage,
        m.handled(from, msg).0.r == m.r,
        !(msg is Heartbeat) ==> m.handled(from, msg).0.holders == m.holders,
        forall|i: int|
            0 <= i < m.handled(from, msg).1.len() ==> !((
            #[trigger] m.handled(from, msg).1[i]).msg is Heartbeat),
{
    match msg {
        MessageV::MetaReplicate { seq, op } => {
            metadata::lemma_caught_up(MetaV { buffer: m.buffer.insert(seq, op), ..m });
        },
        MessageV::Heartbeat { node, chunks } => {
            let w = MetaV { holders: metadata::reported(m.holders, node, chunks), ..m };
            if w.is_primary {
                let ids = ordmap::in_order::<crate::hash::Hash>(metadata::referenced(w.ns.files));
                soundness::lemma_orders_kind(w, ids, ids.len());
            }
        },
        _ => {},
    }
}

proof fn lemma_gap_around_pumped(o: Gap, v: ClusterV)
    requires
        o.around(v),
    ensures
        o.around(v.pumped().0),
{
    let (n, d) = v.net.stepped();
    let y = v.pumped().0;
    let at = net::law_step(v.net);
    truth::lemma_primary(v, o.p);
    soundness::lemma_pumped_sound(v);
    truth::lemma_idle_pumped(v, o.p);
    truth::lemma_primary_stays(v, y);
    let a = v.metas[o.p as int].applied_seq;
    let f = of_this_round(o.start.storages, o.p);
    simulation::lemma_stepped_every(v.net, f);
    simulation::lemma_stepped_every(v.net, truth::harmless(o.p, a));
    if let Some(env) = d {
        let (x, out) = v.with_net(n).delivered(env);
        assert(truth::harmless(o.p, a)(env));
        assert forall|i: int| 0 <= i < out.len() implies f(#[trigger] out[i]) by {
            match env.to {
                NodeId::Meta(k) => {
                    if k < v.metas.len() {
                        lemma_role_stays(v.metas[k as int], env.from, env.msg);
                    }
                },
                _ => {},
            }
        }
        simulation::lemma_sent_all_every(x.net, out, f);
        if env.to == NodeId::Meta(o.p) {
            lemma_role_stays(v.metas[o.p as int], env.from, env.msg);
        }
    }
}

/// What the primary knows is finite.
proof fn lemma_known_finite(o: Gap, v: ClusterV)
    requires
        o.around(v),
    ensures
        o.known(v).finite(),
{
    truth::lemma_primary(v, o.p);
    replicas::lemma_upto(v.opts.node_count);
    let all = Set::new(|i: u32| i < v.opts.node_count as nat);
    assert(soundness::well_informed(v.storages, v.metas[o.p as int]));
    assert(o.known(v).subset_of(all)) by {
        assert forall|i: u32| o.known(v).contains(i) implies #[trigger] all.contains(i) by {
            assert(soundness::holds(v.storages, i, o.id));
        }
    }
    vstd::set_lib::lemma_set_subset_finite(all, o.known(v));
}

/// The place of a chunk's orders among those of a plan.
proof fn lemma_orders_at(m: MetaV, ids: Seq<Seq<u8>>, n: nat, i: int, j: int) -> (k: int)
    requires
        0 <= i < n <= ids.len(),
        0 <= j < m.orders(ids[i]).len(),
    ensures
        0 <= k < m.orders_for(ids, n).len(),
        m.orders_for(ids, n)[k] == m.orders(ids[i])[j],
    decreases n,
{
    let before = m.orders_for(ids, (n - 1) as nat);
    if i < n - 1 {
        lemma_orders_at(m, ids, (n - 1) as nat, i, j)
    } else {
        before.len() + j
    }
}

/// Once the primary has heard both nodes it orders the copy.
proof fn lemma_gap_is_ordered(o: Gap, v: ClusterV)
    requires
        o.around(v),
        v.pumped().0.net.seq < u64::MAX,
        v.net.stepped().1 matches Some(env) && env.to == NodeId::Meta(o.p) && env.msg is Heartbeat,
        o.known(v.pumped().0).contains(o.holder),
        !o.known(v.pumped().0).contains(o.dest),
    ensures
        o.ordered(v.pumped().0),
{
    let (n, d) = v.net.stepped();
    let y = v.pumped().0;
    let at = net::law_step(v.net);
    let env = d->Some_0;
    let (x, out) = v.with_net(n).delivered(env);
    truth::lemma_primary(v, o.p);
    lemma_gap_around_pumped(o, v);
    lemma_known_finite(o, y);
    simulation::lemma_live(v);
    let m = y.metas[o.p as int];
    assert(m.idx == o.p);
    assert(out == m.plan());
    let refs = metadata::referenced(m.ns.files);
    assert(soundness::meta_sound(m, y.next_req));
    lemma_referenced_finite(m.ns.files);
    let ids: Seq<Seq<u8>> = ordmap::in_order::<crate::hash::Hash>(refs);
    ordmap::lemma_order_of::<crate::hash::Hash>(refs);
    assert(ids.to_set().contains(o.id));
    let i = choose|i: int| 0 <= i < ids.len() && ids[i] == o.id;
    metadata::law_orders_fill_gaps(m, o.id);
    assert(m.live_holders(o.id).contains(o.holder)) by {
        assert(m.live_storage.to_set().contains(o.holder));
    }
    let j = choose|j: int|
        0 <= j < m.orders(o.id).len() && (#[trigger] m.orders(o.id)[j]).msg == (
        MessageV::ReplicateOrder { id: o.id, dest: o.dest });
    let k = lemma_orders_at(m, ids, ids.len(), i, j);
    let e = out[k];
    assert(e == m.orders(o.id)[j]);
    let s = e.to->Storage_0;
    assert(m.live_holders(o.id).contains(s));
    assert(metadata::holding(m.holders, o.id).contains(s));
    assert(soundness::well_informed(y.storages, m));
    assert(m.live_storage.to_set().contains(s));
    assert(v.live_storage().contains(s));
    assert(e == order_env(o.p, s, o.id, o.dest));
    simulation::lemma_sent_all_frame(x.net, out);
    progress::lemma_sent_is_coming(x.net, out, k, u64::MAX as nat);
    assert(in_flight(y, order_env(o.p, s, o.id, o.dest)));
}

/// A message in flight between nodes that reach each other is delivered or stays in flight.
pub proof fn lemma_in_flight_pumped(v: ClusterV, env: wire::Envelope)
    requires
        soundness::sound(v),
        progress::quiet(v.net),
        progress::linked(v.net, env),
        in_flight(v, env),
    ensures
        v.pumped().1,
        v.net.stepped().1 == Some(env) || in_flight(v.pumped().0, env),
{
    let t = u64::MAX as nat;
    let (n, d) = v.net.stepped();
    progress::lemma_coming_stepped(v.net, env, t);
    let (x, out) = v.with_net(n).delivered(d->Some_0);
    if d != Some(env) {
        progress::lemma_coming_sends(x.net, out, env, t);
    }
}

/// While the primary has not heard both nodes, it hears one more or goes on waiting.
proof fn lemma_unheard_pumped(o: Gap, v: ClusterV)
    requires
        o.around(v),
        o.unheard(v),
        v.pumped().0.net.seq < u64::MAX,
    ensures
        v.pumped().1,
        o.unheard(v.pumped().0) || o.ordered(v.pumped().0),
{
    let y = v.pumped().0;
    let d = v.net.stepped().1;
    let a = o.report(o.holder);
    let b = o.report(o.dest);
    let f = of_this_round(o.start.storages, o.p);
    truth::lemma_primary(v, o.p);
    simulation::lemma_live(v);
    let at = net::law_step(v.net);
    if in_flight(v, a) {
        lemma_in_flight_pumped(v, a);
    }
    if in_flight(v, b) {
        lemma_in_flight_pumped(v, b);
    }
    let env = d->Some_0;
    simulation::lemma_stepped_every(v.net, f);
    assert(f(env));
    simulation::lemma_stepped_every(
        v.net,
        truth::harmless(o.p, v.metas[o.p as int].applied_seq),
    );
    assert(truth::harmless(o.p, v.metas[o.p as int].applied_seq)(env));
    durability::lemma_reports(o.start, o.holder);
    durability::lemma_reports(o.start, o.dest);
    let m = v.metas[o.p as int];
    if env.to == NodeId::Meta(o.p) {
        lemma_role_stays(m, env.from, env.msg);
        match env.msg {
            MessageV::Heartbeat { node, chunks } => {
                let now = o.known(y);
                assert(now == metadata::now_holding(m.holders, node, chunks, o.id)) by {
                    assert(y.metas[o.p as int].holders == metadata::reported(
                        m.holders,
                        node,
                        chunks,
                    ));
                    lemma_now_known(m.holders, node, chunks, o.id);
                }
                assert(node == o.holder ==> now.contains(o.holder));
                assert(node == o.dest ==> !now.contains(o.dest));
                assert(node != o.holder ==> (now.contains(o.holder) == o.known(v).contains(
                    o.holder,
                )));
                assert(node != o.dest ==> (now.contains(o.dest) == o.known(v).contains(o.dest)));
                if !in_flight(y, a) && !in_flight(y, b) {
                    lemma_gap_is_ordered(o, v);
                }
            },
            _ => {
                assert(o.known(y) == o.known(v));
            },
        }
    } else {
        assert(o.known(y) == o.known(v));
    }
}

proof fn lemma_now_known(
    holders: Map<Seq<u8>, Set<u32>>,
    node: u32,
    chunks: Seq<Seq<u8>>,
    id: Seq<u8>,
)
    ensures
        metadata::holding(metadata::reported(holders, node, chunks), id)
            =~= metadata::now_holding(holders, node, chunks, id),
{
}

/// A gap that is being closed is closed or goes on being closed.
proof fn lemma_closing_pumped(o: Gap, v: ClusterV)
    requires
        o.around(v),
        o.closing(v),
        v.pumped().0.net.seq < u64::MAX,
    ensures
        o.closing(v.pumped().0),
        v.pumped().1 || soundness::holds(v.storages, o.dest, o.id),
{
    let y = v.pumped().0;
    let (n, d) = v.net.stepped();
    let at = net::law_step(v.net);
    truth::lemma_primary(v, o.p);
    simulation::lemma_live(v);
    soundness::lemma_pumped_sound(v);
    if soundness::holds(v.storages, o.dest, o.id) {
        assert(soundness::holds(y.storages, o.dest, o.id));
    } else if o.unheard(v) {
        lemma_unheard_pumped(o, v);
    } else if o.ordered(v) {
        let s = choose|s: u32| #[trigger]
            in_flight(v, order_env(o.p, s, o.id, o.dest)) && soundness::holds(
                v.storages,
                s,
                o.id,
            ) && !v.net.down.contains(NodeId::Storage(s));
        let e = order_env(o.p, s, o.id, o.dest);
        lemma_in_flight_pumped(v, e);
        if d == Some(e) {
            let (x, out) = v.with_net(n).delivered(e);
            let data = v.storages[s as int].store[o.id];
            assert(v.storages[s as int].sound());
            assert(v.storages[s as int].idx == s);
            assert(out[0] == copy_env(s, o.dest, o.id, data));
            simulation::lemma_sent_all_frame(x.net, out);
            progress::lemma_sent_is_coming(x.net, out, 0, u64::MAX as nat);
            assert(in_flight(y, copy_env(s, o.dest, o.id, data)));
        } else {
            assert(in_flight(y, order_env(o.p, s, o.id, o.dest)));
            assert(soundness::holds(y.storages, s, o.id));
        }
    } else {
        let (s, data) = choose|s: u32, data: Seq<u8>| #[trigger]
            in_flight(v, copy_env(s, o.dest, o.id, data)) && hash::digest(data) == o.id
                && !v.net.down.contains(NodeId::Storage(s));
        let e = copy_env(s, o.dest, o.id, data);
        lemma_in_flight_pumped(v, e);
        if d == Some(e) {
            assert(soundness::holds(y.storages, o.dest, o.id));
        } else {
            assert(in_flight(y, copy_env(s, o.dest, o.id, data)));
        }
    }
}

/// When nothing is left in flight the gap is closed.
proof fn lemma_drained_closes(o: Gap, v: ClusterV)
    requires
        o.around(v),
        o.closing(v),
        v.drained().net.seq < u64::MAX,
    ensures
        soundness::holds(v.drained().storages, o.dest, o.id),
    decreases u64::MAX - v.net.seq, v.net.queue.len(),
{
    let y = v.pumped().0;
    simulation::lemma_pump_progress(v);
    soundness::lemma_pumped_sound(v);
    durability::lemma_drained(y);
    lemma_closing_pumped(o, v);
    lemma_gap_around_pumped(o, v);
    if v.pumped().1 {
        lemma_drained_closes(o, y);
    } else {
        assert(soundness::holds(y.storages, o.dest, o.id));
    }
}

/// A chunk on its way to a node in reach is held by it once nothing is in flight.
pub proof fn law_drained_chunk_is_held(v: ClusterV, node: u32, data: Seq<u8>)
    requires
        soundness::sound(v),
        progress::quiet(v.net),
        progress::reaches_storage(v.net, node),
        node < v.storages.len(),
        in_flight(v, protocol::store_msg(node, hash::digest(data), data)),
    ensures
        soundness::holds(v.drained().storages, node, hash::digest(data)),
    decreases u64::MAX - v.net.seq, v.net.queue.len(),
{
    let y = v.pumped().0;
    let e = protocol::store_msg(node, hash::digest(data), data);
    let at = net::law_step(v.net);
    simulation::lemma_pump_progress(v);
    soundness::lemma_pumped_sound(v);
    lemma_in_flight_pumped(v, e);
    if v.net.stepped().1 == Some(e) {
        durability::lemma_drained(y);
        assert(soundness::holds(y.storages, node, hash::digest(data)));
    } else {
        law_drained_chunk_is_held(y, node, data);
    }
}

/// Nothing in flight is a report.
pub open spec fn no_reports() -> spec_fn(wire::Envelope) -> bool {
    |e: wire::Envelope| !(e.msg is Heartbeat)
}

/// One round brings a chunk that a live node holds to every live node that should hold it: on
/// a quiet and undivided network, while no operation is under way.
pub proof fn law_round_fills_gaps(v: ClusterV, p: u32, id: Seq<u8>, holder: u32, dest: u32)
    requires
        soundness::sound(v),
        truth::idle(v, p),
        progress::united(v.net),
        v.metas[p as int].is_primary,
        v.metas[p as int].live_storage == v.live_storage(),
        simulation::every(v.net.queue, no_reports()),
        metadata::referenced(truth::names(v, p).files).contains(id),
        v.live_storage().contains(holder),
        soundness::holds(v.storages, holder, id),
        placement::placed(id, v.live_storage(), v.metas[p as int].r as nat).contains(dest),
        v.healing_round(p).net.seq < u64::MAX,
    ensures
        soundness::holds(v.healing_round(p).storages, dest, id),
{
    let live = v.live_storage();
    let beats = Seq::new(live.len(), |j: int| v.heartbeat(live[j], p));
    let w = v.reporting(p, live.len());
    durability::lemma_healing_round(v, p);
    durability::lemma_reporting(v, p);
    simulation::lemma_sent_all_frame(v.net, beats);
    simulation::lemma_live(v);
    truth::lemma_primary(v, p);
    truth::lemma_primary_stays(v, w);
    placement::law_placement(id, live, v.metas[p as int].r as nat);
    durability::lemma_drained(w);
    let a = v.metas[p as int].applied_seq;
    lemma_idle_reporting(v, p);
    if soundness::holds(v.storages, dest, id) {
        assert(soundness::holds(w.storages, dest, id));
    } else {
        let o = Gap { p, start: v, id, holder, dest };
        let f = of_this_round(v.storages, p);
        assert(simulation::every(v.net.queue, f)) by {
            assert forall|i: int| 0 <= i < v.net.queue.len() implies f(
                (#[trigger] v.net.queue[i]).env,
            ) by {
                assert(no_reports()(v.net.queue[i].env));
            }
        }
        assert forall|j: int| 0 <= j < beats.len() implies f(#[trigger] beats[j]) by {
            assert(live[j] < v.storages.len());
        }
        simulation::lemma_sent_all_every(v.net, beats, f);
        let i = choose|i: int| 0 <= i < live.len() && live[i] == holder;
        let j = choose|j: int| 0 <= j < live.len() && live[j] == dest;
        assert(beats[i] == o.report(holder) && beats[j] == o.report(dest));
        progress::lemma_sent_is_coming(v.net, beats, i, u64::MAX as nat);
        progress::lemma_sent_is_coming(v.net, beats, j, u64::MAX as nat);
        assert(o.unheard(w));
        assert(o.around(w));
        lemma_drained_closes(o, w);
    }
}

/// Whether every chunk that some files refer to is held by a live node.
pub open spec fn nothing_lost(v: ClusterV, files: Map<Seq<char>, ManifestV>) -> bool {
    forall|id: Seq<u8>| #[trigger]
        metadata::referenced(files).contains(id) ==> exists|i: u32|
            v.live_storage().contains(i) && #[trigger] soundness::holds(v.storages, i, id)
}

/// Delivering all that is in flight keeps an idle cluster idle.
proof fn lemma_idle_drained(v: ClusterV, p: u32)
    requires
        soundness::sound(v),
        truth::idle(v, p),
    ensures
        truth::idle(v.drained(), p),
        truth::names(v.drained(), p) == truth::names(v, p),
    decreases u64::MAX - v.net.seq, v.net.queue.len(),
{
    simulation::lemma_pump_progress(v);
    soundness::lemma_pumped_sound(v);
    truth::lemma_idle_pumped(v, p);
    if v.pumped().1 {
        lemma_idle_drained(v.pumped().0, p);
    }
}

/// Reports from storage nodes keep an idle cluster idle and its namespace as it is.
pub proof fn lemma_idle_reporting(v: ClusterV, p: u32)
    requires
        truth::idle(v, p),
    ensures
        truth::idle(v.reporting(p, v.live_storage().len()), p),
        truth::names(v.reporting(p, v.live_storage().len()), p) == truth::names(v, p),
{
    let live = v.live_storage();
    let beats = Seq::new(live.len(), |j: int| v.heartbeat(live[j], p));
    let w = v.reporting(p, live.len());
    assert(w == v.sent_all(beats));
    simulation::lemma_sent_all_frame(v.net, beats);
    truth::lemma_primary_stays(v, w);
    simulation::lemma_sent_all_every(
        v.net,
        beats,
        truth::harmless(p, v.metas[p as int].applied_seq),
    );
    truth::lemma_buried_sends(v, p, v.metas[p as int].pending.dom(), beats);
}

/// One round keeps an idle cluster idle and its namespace as it is.
pub proof fn lemma_idle_round(v: ClusterV, p: u32)
    requires
        soundness::sound(v),
        truth::idle(v, p),
    ensures
        truth::idle(v.healing_round(p), p),
        truth::names(v.healing_round(p), p) == truth::names(v, p),
{
    let w = v.reporting(p, v.live_storage().len());
    durability::lemma_reporting(v, p);
    lemma_idle_reporting(v, p);
    lemma_idle_drained(w, p);
}

/// One round replicates fully when no chunk is lost.
pub proof fn law_round_replicates_fully(v: ClusterV, p: u32)
    requires
        soundness::sound(v),
        truth::idle(v, p),
        progress::united(v.net),
        v.metas[p as int].is_primary,
        v.metas[p as int].live_storage == v.live_storage(),
        v.metas[p as int].r == v.opts.replication_factor,
        simulation::every(v.net.queue, no_reports()),
        nothing_lost(v, truth::names(v, p).files),
        v.healing_round(p).net.seq < u64::MAX,
    ensures
        v.healing_round(p).fully_replicated(),
{
    let w = v.healing_round(p);
    let files = truth::names(v, p).files;
    let live = v.live_storage();
    let r = v.opts.replication_factor as nat;
    durability::lemma_healing_round(v, p);
    lemma_idle_round(v, p);
    truth::lemma_primary_stays(v, w);
    simulation::lemma_live(v);
    assert forall|id: Seq<u8>| #[trigger] metadata::referenced(files).contains(id) implies w.live_replicas(
        id,
    ).len() >= w.target() by {
        let holder = choose|i: u32|
            v.live_storage().contains(i) && #[trigger] soundness::holds(v.storages, i, id);
        let to = placement::placed(id, live, r);
        placement::law_placement(id, live, r);
        let f = |i: u32| w.storages[i as int].store.dom().contains(id);
        let have = w.live_replicas(id);
        durability::lemma_filter_distinct(live, f);
        assert(to.to_set().subset_of(have.to_set())) by {
            assert forall|n: u32| to.to_set().contains(n) implies #[trigger] have.to_set().contains(
                n,
            ) by {
                assert(to.contains(n));
                law_round_fills_gaps(v, p, id, holder, n);
                assert(live.contains(n));
                assert(soundness::holds(w.storages, n, id));
                assert(f(n));
                metadata::lemma_filter_members(live, f);
                assert(live.filter(f).contains(n));
            }
        }
        to.unique_seq_to_set();
        have.unique_seq_to_set();
        vstd::set_lib::lemma_len_subset(to.to_set(), have.to_set());
    }
}

/// Re-replication succeeds when no chunk is lost: on a quiet and undivided network, while no
/// operation is under way.
pub proof fn law_stabilize_succeeds(v: ClusterV, p: u32)
    requires
        soundness::sound(v),
        truth::idle(v.settled(), p),
        progress::united(v.net),
        simulation::every(v.net.queue, no_reports()),
        nothing_lost(v.settled(), truth::names(v.settled(), p).files),
        v.stabilized().0.net.seq < u64::MAX,
    ensures
        v.stabilized().1,
        v.stabilized().0.fully_replicated(),
        truth::idle(v.stabilized().0, p),
        truth::names(v.stabilized().0, p) == truth::names(v.settled(), p),
{
    let s = v.settled();
    soundness::law_settling_keeps_sound(v);
    truth::lemma_primary_stays(v, s);
    truth::lemma_primary(s, p);
    let w = s.healing_round(p);
    durability::lemma_healing_round(s, p);
    let n = s.opts.node_count as nat * 2 + 8;
    if !w.fully_replicated() {
        durability::lemma_healed_within(w, p, (n - 1) as nat);
    }
    law_round_replicates_fully(s, p);
    lemma_idle_round(s, p);
}

} // verus!

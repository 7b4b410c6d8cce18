//! The cluster as a mathematical object: what one delivery does, how the metadata roles are
//! settled, and how the cluster heals itself.

use crate::chunk::ManifestV;
use crate::message::{MessageV, NodeId};
use crate::metadata::{self, MetaV};
use crate::net::{self, Flight, NetV};
use crate::options::Options;
use crate::ordmap;
use crate::storagenode::StorageV;
use crate::wire;
use vstd::prelude::*;

verus! {

/// A message in the client's inbox.
pub struct Letter {
    pub from: NodeId,
    pub msg: MessageV,
}

/// The mathematical value of a [`crate::cluster::Cluster`].
#[verifier::ext_equal]
pub struct ClusterV {
    pub opts: Options,
    pub net: NetV,
    pub storages: Seq<StorageV>,
    pub metas: Seq<MetaV>,
    pub inbox: Seq<Letter>,
    pub next_req: u64,
}

/// The numbers below `n`.
pub open spec fn indices(n: u32) -> Seq<u32> {
    Seq::new(n as nat, |i: int| i as u32)
}

/// Of the first `n` of `live`, the metadata node that has applied most, the first such.
pub open spec fn most_current(metas: Seq<MetaV>, live: Seq<u32>, n: nat) -> u32
    decreases n,
{
    if n <= 1 {
        live[0]
    } else {
        let b = most_current(metas, live, (n - 1) as nat);
        if metas[live[n - 1] as int].applied_seq > metas[b as int].applied_seq {
            live[n - 1]
        } else {
            b
        }
    }
}

impl ClusterV {
    /// There is one node for each index.
    pub open spec fn wf(self) -> bool {
        &&& self.opts.wf()
        &&& self.storages.len() == self.opts.node_count
        &&& self.metas.len() == self.opts.meta_count
        &&& forall|i: int| 0 <= i < self.storages.len() ==> (#[trigger] self.storages[i]).idx == i
        &&& forall|i: int|
            0 <= i < self.metas.len() ==> (#[trigger] self.metas[i]).idx == i
                && self.metas[i].buffer.dom().finite()
    }

    /// The storage nodes that are up, in ascending order.
    pub open spec fn live_storage(self) -> Seq<u32> {
        indices(self.opts.node_count).filter(
            |i: u32| !self.net.down.contains(NodeId::Storage(i)),
        )
    }

    /// The metadata nodes that are up, in ascending order.
    pub open spec fn live_meta(self) -> Seq<u32> {
        indices(self.opts.meta_count).filter(|i: u32| !self.net.down.contains(NodeId::Meta(i)))
    }

    /// The primary: the first metadata node that is up.
    pub open spec fn primary(self) -> Option<u32> {
        if self.live_meta().len() == 0 {
            None
        } else {
            Some(self.live_meta()[0])
        }
    }

    /// The cluster after a message reached its receiver, and what the receiver sends.
    pub open spec fn delivered(self, env: wire::Envelope) -> (ClusterV, Seq<wire::Envelope>) {
        match env.to {
            NodeId::Client => (
                ClusterV {
                    inbox: self.inbox.push(Letter { from: env.from, msg: env.msg }),
                    ..self
                },
                seq![],
            ),
            NodeId::Storage(i) => if i < self.storages.len() {
                let n = self.storages[i as int];
                (
                    ClusterV { storages: self.storages.update(i as int, n.after(env.msg)), ..self },
                    n.replies(env.from, env.msg),
                )
            } else {
                (self, seq![])
            },
            NodeId::Meta(i) => if i < self.metas.len() {
                let r = self.metas[i as int].handled(env.from, env.msg);
                (ClusterV { metas: self.metas.update(i as int, r.0), ..self }, r.1)
            } else {
                (self, seq![])
            },
        }
    }

    /// The cluster with other network state.
    pub open spec fn with_net(self, net: NetV) -> ClusterV {
        ClusterV { net, ..self }
    }

    /// The cluster after the next delivery and whether there was one.
    pub open spec fn pumped(self) -> (ClusterV, bool) {
        let (n, d) = self.net.stepped();
        match d {
            None => (self.with_net(n), false),
            Some(env) => {
                let (v, out) = self.with_net(n).delivered(env);
                (v.with_net(v.net.sent_all(out)), true)
            },
        }
    }

    /// The cluster once nothing is in flight.
    pub open spec fn drained(self) -> ClusterV
        decreases u64::MAX - self.net.seq, self.net.queue.len(),
    {
        proof {
            lemma_pump_progress(self);
        }
        if self.pumped().1 {
            self.pumped().0.drained()
        } else {
            self.pumped().0
        }
    }

    /// The cluster after a send.
    pub open spec fn sent(self, from: NodeId, to: NodeId, msg: MessageV) -> ClusterV {
        self.with_net(self.net.sent(wire::Envelope { from, to, msg }))
    }

    /// The metadata nodes after the primary adopted the state of the most current live node.
    pub open spec fn reconciled(self) -> Seq<MetaV> {
        let live = self.live_meta();
        let p = live[0] as int;
        let b = most_current(self.metas, live, live.len()) as int;
        if b == p {
            self.metas
        } else {
            self.metas.update(p, self.metas[p].restored(self.metas[b].snapshot()))
        }
    }

    /// The cluster with its metadata roles settled: the first live metadata node is primary,
    /// with the state of the most current live one; every other node is a backup with the
    /// primary's state; the primary knows which storage nodes are up.
    pub open spec fn settled(self) -> ClusterV {
        let live = self.live_meta();
        if live.len() == 0 {
            self
        } else {
            let p = live[0] as int;
            let metas = self.reconciled();
            let peers = indices(self.opts.meta_count);
            ClusterV {
                metas: Seq::new(
                    metas.len(),
                    |i: int|
                        if i == p {
                            MetaV {
                                is_primary: true,
                                peers,
                                live_storage: self.live_storage(),
                                r: self.opts.replication_factor,
                                ..metas[i]
                            }
                        } else {
                            MetaV {
                                is_primary: false,
                                peers,
                                ..metas[i].restored(metas[p].snapshot())
                            }
                        },
                ),
                ..self
            }
        }
    }

    /// Every participant: the client, the storage nodes and the metadata nodes.
    pub open spec fn everyone(self) -> Seq<NodeId> {
        seq![NodeId::Client] + Seq::new(
            self.opts.node_count as nat,
            |i: int| NodeId::Storage(i as u32),
        ) + Seq::new(self.opts.meta_count as nat, |i: int| NodeId::Meta(i as u32))
    }

    /// The cluster with some storage nodes cut off from everyone else.
    pub open spec fn split(self, storage_idxs: Seq<u32>) -> ClusterV {
        self.with_net(
            self.net.split(
                Seq::new(storage_idxs.len(), |i: int| NodeId::Storage(storage_idxs[i])),
                self.everyone(),
            ),
        )
    }

    /// How many replicas a chunk should have: the replication factor, or one on every live
    /// node when there are fewer.
    pub open spec fn target(self) -> nat {
        if self.opts.replication_factor <= self.live_storage().len() {
            self.opts.replication_factor as nat
        } else {
            self.live_storage().len()
        }
    }

    /// The live nodes that hold a chunk.
    pub open spec fn live_replicas(self, id: Seq<u8>) -> Seq<u32> {
        self.live_storage().filter(|i: u32| self.storages[i as int].store.dom().contains(id))
    }

    /// Whether every chunk that some files refer to has enough live replicas.
    pub open spec fn enough_for(self, files: Map<Seq<char>, ManifestV>) -> bool {
        forall|id: Seq<u8>| #[trigger]
            metadata::referenced(files).contains(id) ==> self.live_replicas(id).len()
                >= self.target()
    }

    /// Whether every chunk that the primary's files refer to has enough live replicas.
    pub open spec fn fully_replicated(self) -> bool {
        match self.primary() {
            None => false,
            Some(p) => self.enough_for(self.metas[p as int].ns.files),
        }
    }

    /// The report of a storage node to the primary.
    pub open spec fn heartbeat(self, i: u32, primary: u32) -> wire::Envelope {
        wire::Envelope {
            from: NodeId::Storage(i),
            to: NodeId::Meta(primary),
            msg: MessageV::Heartbeat {
                node: i,
                chunks: ordmap::in_order::<crate::hash::Hash>(self.storages[i as int].store.dom()),
            },
        }
    }

    /// The cluster after the first `n` of its live storage nodes reported.
    pub open spec fn reporting(self, primary: u32, n: nat) -> ClusterV {
        self.with_net(
            self.net.sent_all(
                Seq::new(n, |j: int| self.heartbeat(self.live_storage()[j], primary)),
            ),
        )
    }

    /// The cluster after one round of reports, orders and copies.
    pub open spec fn healing_round(self, primary: u32) -> ClusterV {
        self.reporting(primary, self.live_storage().len()).drained()
    }

    /// The cluster after at most `n` rounds, and whether it is fully replicated.
    pub open spec fn healed_within(self, primary: u32, n: nat) -> (ClusterV, bool)
        decreases n,
    {
        if n == 0 {
            (self, self.fully_replicated())
        } else {
            let v = self.healing_round(primary);
            if v.fully_replicated() {
                (v, true)
            } else {
                v.healed_within(primary, (n - 1) as nat)
            }
        }
    }

    /// The cluster after re-replication, and whether every chunk has enough replicas.
    pub open spec fn stabilized(self) -> (ClusterV, bool) {
        let v = self.settled();
        match v.primary() {
            None => (v, false),
            Some(p) => v.healed_within(p, v.opts.node_count as nat * 2 + 8),
        }
    }
}

/// Sending does not lower the sequence number, and a queued message raises it.
pub proof fn lemma_sent_all_progress(v: NetV, out: Seq<wire::Envelope>)
    ensures
        v.sent_all(out).seq >= v.seq,
        v.sent_all(out).seq == v.seq ==> v.sent_all(out).queue == v.queue,
    decreases out.len(),
{
    if out.len() > 0 {
        lemma_sent_all_progress(v, out.drop_last());
    }
}

/// A delivery takes a message off the queue; the queue only grows when sequence numbers are
/// used up.
pub proof fn lemma_pump_progress(v: ClusterV)
    ensures
        v.pumped().1 ==> {
            ||| v.pumped().0.net.seq > v.net.seq
            ||| v.pumped().0.net.seq == v.net.seq && v.pumped().0.net.queue.len()
                < v.net.queue.len()
        },
{
    let at = net::law_step(v.net);
    let (n, d) = v.net.stepped();
    if let Some(env) = d {
        let (w, out) = v.with_net(n).delivered(env);
        lemma_sent_all_progress(w.net, out);
    }
}

/// The live nodes are among all nodes, in ascending order, and each is up.
pub proof fn lemma_live(v: ClusterV)
    ensures
        v.live_storage().len() <= v.opts.node_count,
        v.live_meta().len() <= v.opts.meta_count,
        forall|i: int|
            0 <= i < v.live_storage().len() ==> #[trigger] v.live_storage()[i] < v.opts.node_count
                && !v.net.down.contains(NodeId::Storage(v.live_storage()[i])),
        forall|i: int|
            0 <= i < v.live_meta().len() ==> #[trigger] v.live_meta()[i] < v.opts.meta_count
                && !v.net.down.contains(NodeId::Meta(v.live_meta()[i])),
        forall|i: u32| #[trigger]
            v.live_storage().contains(i) <==> i < v.opts.node_count && !v.net.down.contains(
                NodeId::Storage(i),
            ),
        forall|i: u32| #[trigger]
            v.live_meta().contains(i) <==> i < v.opts.meta_count && !v.net.down.contains(
                NodeId::Meta(i),
            ),
        v.live_storage().no_duplicates(),
        v.live_meta().no_duplicates(),
        forall|i: int, j: int|
            0 <= i < j < v.live_storage().len() ==> #[trigger] v.live_storage()[i]
                < #[trigger] v.live_storage()[j],
        forall|i: int, j: int|
            0 <= i < j < v.live_meta().len() ==> #[trigger] v.live_meta()[i]
                < #[trigger] v.live_meta()[j],
{
    lemma_filter_indices(
        v.opts.node_count,
        v.opts.node_count as nat,
        |i: u32| !v.net.down.contains(NodeId::Storage(i)),
    );
    lemma_filter_indices(
        v.opts.meta_count,
        v.opts.meta_count as nat,
        |i: u32| !v.net.down.contains(NodeId::Meta(i)),
    );
    assert(indices(v.opts.node_count).take(v.opts.node_count as int) =~= indices(
        v.opts.node_count,
    ));
    assert(indices(v.opts.meta_count).take(v.opts.meta_count as int) =~= indices(
        v.opts.meta_count,
    ));
    assert forall|i: int| 0 <= i < v.live_storage().len() implies #[trigger] v.live_storage()[i]
        < v.opts.node_count && !v.net.down.contains(NodeId::Storage(v.live_storage()[i])) by {
        assert(v.live_storage().contains(v.live_storage()[i]));
    }
    assert forall|i: int| 0 <= i < v.live_meta().len() implies #[trigger] v.live_meta()[i]
        < v.opts.meta_count && !v.net.down.contains(NodeId::Meta(v.live_meta()[i])) by {
        assert(v.live_meta().contains(v.live_meta()[i]));
    }
}

proof fn lemma_filter_indices(count: u32, n: nat, f: spec_fn(u32) -> bool)
    requires
        n <= count,
    ensures
        indices(count).take(n as int).filter(f).len() <= n,
        forall|i: u32| #[trigger]
            indices(count).take(n as int).filter(f).contains(i) <==> i < n && f(i),
        forall|i: int, j: int|
            0 <= i < j < indices(count).take(n as int).filter(f).len() ==> #[trigger] indices(
                count,
            ).take(n as int).filter(f)[i] < #[trigger] indices(count).take(n as int).filter(f)[j],
    decreases n,
{
    reveal(Seq::filter);
    let s = indices(count);
    let r = s.take(n as int).filter(f);
    if n > 0 {
        let m = (n - 1) as nat;
        lemma_filter_indices(count, m, f);
        let q = s.take(m as int).filter(f);
        assert(s.take(n as int).drop_last() =~= s.take(m as int));
        assert(s.take(n as int).last() == m as u32);
        assert forall|i: u32| #[trigger] r.contains(i) <==> i < n && f(i) by {
            net::lemma_push_contains(q, m as u32, i);
            assert(q.contains(i) <==> i < m && f(i));
        }
        assert forall|i: int, j: int| 0 <= i < j < r.len() implies #[trigger] r[i]
            < #[trigger] r[j] by {
            assert(q.contains(q[i]));
        }
    } else {
        assert(s.take(0) =~= seq![]);
    }
}

/// Handling a message keeps a metadata node's index.
pub proof fn lemma_handled_idx(m: MetaV, from: NodeId, msg: MessageV)
    requires
        m.buffer.dom().finite(),
    ensures
        m.handled(from, msg).0.idx == m.idx,
        m.handled(from, msg).0.buffer.dom().finite(),
{
    if let MessageV::MetaReplicate { seq, op } = msg {
        metadata::lemma_caught_up(MetaV { buffer: m.buffer.insert(seq, op), ..m });
    }
}

/// Sending touches the network only.
pub proof fn lemma_sent_all_frame(v: NetV, out: Seq<wire::Envelope>)
    ensures
        v.sent_all(out).clock == v.clock,
        v.sent_all(out).params == v.params,
        v.sent_all(out).reliable == v.reliable,
        v.sent_all(out).down == v.down,
        v.sent_all(out).partition == v.partition,
        v.sent_all(out).log == v.log,
    decreases out.len(),
{
    if out.len() > 0 {
        lemma_sent_all_frame(v, out.drop_last());
    }
}

/// A delivery keeps one node for each index.
pub proof fn lemma_pumped_wf(v: ClusterV)
    requires
        v.wf(),
    ensures
        v.pumped().0.wf(),
        v.pumped().0.opts == v.opts,
        v.pumped().0.next_req == v.next_req,
        v.pumped().0.net.down == v.net.down,
        v.pumped().0.net.partition == v.net.partition,
        v.pumped().0.net.clock >= v.net.clock,
{
    let at = net::law_step(v.net);
    let (n, d) = v.net.stepped();
    if let Some(env) = d {
        let w = v.with_net(n);
        let (x, out) = w.delivered(env);
        lemma_sent_all_frame(x.net, out);
        match env.to {
            NodeId::Meta(i) => {
                if i < v.metas.len() {
                    lemma_handled_idx(v.metas[i as int], env.from, env.msg);
                }
            },
            _ => {},
        }
    }
}

/// The most current node is one of the live ones.
pub proof fn lemma_most_current(metas: Seq<MetaV>, live: Seq<u32>, n: nat)
    requires
        1 <= n <= live.len(),
    ensures
        exists|i: int| 0 <= i < n && #[trigger] live[i] == most_current(metas, live, n),
        forall|i: int|
            0 <= i < n ==> metas[(#[trigger] live[i]) as int].applied_seq <= metas[most_current(
                metas,
                live,
                n,
            ) as int].applied_seq,
    decreases n,
{
    if n == 1 {
        assert(live[0] == most_current(metas, live, n));
    } else {
        lemma_most_current(metas, live, (n - 1) as nat);
        let b = most_current(metas, live, (n - 1) as nat);
        let i = choose|i: int| 0 <= i < n - 1 && #[trigger] live[i] == b;
        assert(live[i] == b);
        assert(live[n - 1] == live[n - 1]);
    }
}

/// Settling roles keeps one node for each index.
pub proof fn lemma_settled_wf(v: ClusterV)
    requires
        v.wf(),
    ensures
        v.settled().wf(),
        v.settled().opts == v.opts,
        v.settled().net == v.net,
        v.settled().storages == v.storages,
        v.settled().inbox == v.inbox,
        v.settled().next_req == v.next_req,
{
    lemma_live(v);
    let live = v.live_meta();
    if live.len() > 0 {
        let w = v.settled();
        let metas = v.reconciled();
        lemma_most_current(v.metas, live, live.len());
        assert forall|i: int| 0 <= i < w.metas.len() implies (#[trigger] w.metas[i]).idx == i
            && w.metas[i].buffer.dom().finite() by {
            assert(metas[i].idx == v.metas[i].idx);
        }
    }
}

/// Sending some messages and then more is sending them one after the other.
pub proof fn lemma_sent_all_concat(v: NetV, a: Seq<wire::Envelope>, b: Seq<wire::Envelope>)
    ensures
        v.sent_all(a + b) == v.sent_all(a).sent_all(b),
    decreases b.len(),
{
    if b.len() == 0 {
        assert(a + b =~= a);
    } else {
        lemma_sent_all_concat(v, a, b.drop_last());
        assert((a + b).drop_last() =~= a + b.drop_last());
        assert((a + b).last() == b.last());
    }
}

/// Whether every message in flight satisfies a condition.
pub open spec fn every(q: Seq<Flight>, p: spec_fn(wire::Envelope) -> bool) -> bool {
    forall|i: int| 0 <= i < q.len() ==> p((#[trigger] q[i]).env)
}

/// A condition on messages in flight is kept by sending messages that satisfy it.
pub proof fn lemma_sent_all_every(
    v: NetV,
    out: Seq<wire::Envelope>,
    p: spec_fn(wire::Envelope) -> bool,
)
    requires
        every(v.queue, p),
        forall|i: int| 0 <= i < out.len() ==> p(#[trigger] out[i]),
    ensures
        every(v.sent_all(out).queue, p),
    decreases out.len(),
{
    if out.len() > 0 {
        let front = out.drop_last();
        assert forall|i: int| 0 <= i < front.len() implies p(#[trigger] front[i]) by {
            assert(front[i] == out[i]);
        }
        lemma_sent_all_every(v, front, p);
        let w = v.sent_all(front);
        let env = out[out.len() - 1];
        assert(out.last() == env);
        if !w.loses(env) {
            let f = Flight { time: net::later(w.clock as nat, w.latency()), seq: w.seq, env };
            let at = net::lemma_enqueued_split(w.queue, f);
            let q = w.sent(env).queue;
            assert forall|i: int| 0 <= i < q.len() implies p((#[trigger] q[i]).env) by {
                if i < at {
                    assert(q[i] == w.queue[i]);
                } else if i > at {
                    assert(q[i] == w.queue[i - 1]);
                } else {
                    assert(q[i] == f);
                }
            }
        }
    }
}

/// A condition on messages in flight is kept by taking messages off.
pub proof fn lemma_stepped_every(v: NetV, p: spec_fn(wire::Envelope) -> bool)
    requires
        every(v.queue, p),
    ensures
        every(v.stepped().0.queue, p),
        v.stepped().1 matches Some(env) ==> p(env),
{
    let at = net::law_step(v);
    let q = v.stepped().0.queue;
    assert forall|i: int| 0 <= i < q.len() implies p((#[trigger] q[i]).env) by {
        assert(q[i] == v.queue[at + 1 + i]);
    }
}

/// How many messages in flight satisfy a condition: at most one.
pub open spec fn at_most_one(q: Seq<Flight>, p: spec_fn(wire::Envelope) -> bool) -> bool {
    forall|i: int, j: int|
        0 <= i < j < q.len() ==> !(p((#[trigger] q[i]).env) && p((#[trigger] q[j]).env))
}

/// Sending one message when none in flight satisfies a condition leaves at most one that does.
pub proof fn lemma_sent_one(v: NetV, env: wire::Envelope, p: spec_fn(wire::Envelope) -> bool)
    requires
        every(v.queue, |e: wire::Envelope| !p(e)),
    ensures
        at_most_one(v.sent(env).queue, p),
{
    let no = |e: wire::Envelope| !p(e);
    if !v.loses(env) {
        let f = Flight { time: net::later(v.clock as nat, v.latency()), seq: v.seq, env };
        let at = net::lemma_enqueued_split(v.queue, f);
        let q = v.sent(env).queue;
        assert forall|i: int, j: int| 0 <= i < j < q.len() implies !(p((#[trigger] q[i]).env) && p(
            (#[trigger] q[j]).env,
        )) by {
            if i < at {
                assert(q[i] == v.queue[i]);
                assert(no(v.queue[i].env));
            } else {
                assert(q[j] == v.queue[j - 1]);
                assert(no(v.queue[j - 1].env));
            }
        }
    } else {
        assert forall|i: int, j: int| 0 <= i < j < v.queue.len() implies !(p(
            (#[trigger] v.queue[i]).env,
        ) && p((#[trigger] v.queue[j]).env)) by {
            assert(no(v.queue[i].env));
        }
    }
}

/// Sending messages that do not satisfy a condition keeps at most one that does.
pub proof fn lemma_sent_all_at_most_one(
    v: NetV,
    out: Seq<wire::Envelope>,
    p: spec_fn(wire::Envelope) -> bool,
)
    requires
        at_most_one(v.queue, p),
        forall|i: int| 0 <= i < out.len() ==> !p(#[trigger] out[i]),
    ensures
        at_most_one(v.sent_all(out).queue, p),
    decreases out.len(),
{
    if out.len() > 0 {
        let front = out.drop_last();
        assert forall|i: int| 0 <= i < front.len() implies !p(#[trigger] front[i]) by {
            assert(front[i] == out[i]);
        }
        lemma_sent_all_at_most_one(v, front, p);
        let w = v.sent_all(front);
        let env = out[out.len() - 1];
        assert(out.last() == env);
        if !w.loses(env) {
            let f = Flight { time: net::later(w.clock as nat, w.latency()), seq: w.seq, env };
            let at = net::lemma_enqueued_split(w.queue, f);
            let q = w.sent(env).queue;
            assert forall|i: int, j: int| 0 <= i < j < q.len() implies !(p((#[trigger] q[i]).env)
                && p((#[trigger] q[j]).env)) by {
                let i2 = if i < at {
                    i
                } else {
                    i - 1
                };
                let j2 = if j < at {
                    j
                } else {
                    j - 1
                };
                if i == at || j == at {
                    assert(q[at] == f);
                } else {
                    assert(q[i] == w.queue[i2] && q[j] == w.queue[j2]);
                }
            }
        }
    }
}

/// Taking messages off keeps at most one that satisfies a condition, and none once it was
/// delivered.
pub proof fn lemma_stepped_at_most_one(v: NetV, p: spec_fn(wire::Envelope) -> bool)
    requires
        at_most_one(v.queue, p),
    ensures
        at_most_one(v.stepped().0.queue, p),
        v.stepped().1 matches Some(env) && p(env) ==> every(
            v.stepped().0.queue,
            |e: wire::Envelope| !p(e),
        ),
{
    let at = net::law_step(v);
    let q = v.stepped().0.queue;
    assert forall|i: int, j: int| 0 <= i < j < q.len() implies !(p((#[trigger] q[i]).env) && p(
        (#[trigger] q[j]).env,
    )) by {
        assert(q[i] == v.queue[at + 1 + i] && q[j] == v.queue[at + 1 + j]);
    }
    if let Some(env) = v.stepped().1 {
        if p(env) {
            assert forall|i: int| 0 <= i < q.len() implies !p((#[trigger] q[i]).env) by {
                assert(q[i] == v.queue[at + 1 + i]);
                assert(v.queue[at].env == env);
            }
        }
    }
}

} // verus!

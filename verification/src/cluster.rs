//! The cluster: storage nodes, metadata nodes, and the network sim behind one
//! handle. Owns the deterministic event loop and the fault controls.

use crate::chunk;
use crate::encode::{self, Encoder};
use crate::hash::{self, sha256};
use crate::message::{routed_view, Message, NodeId};
use crate::metadata::{self, MetaNode, MetaV};
use crate::net::{Delivery, NetV, Network};
use crate::options::Options;
use crate::ordmap;
use crate::placement::{self, place};
use crate::simulation::{self, ClusterV, Letter};
use crate::storagenode::{StorageNode, StorageV};
use crate::varint;
use crate::wire;
use vstd::prelude::*;

verus! {

/// Per-node status line.
#[derive(Clone, Debug)]
pub struct NodeStatus {
    /// Storage node index.
    pub idx: u32,
    /// Whether the node is online.
    pub live: bool,
    /// Distinct chunks held.
    pub chunks: usize,
}

/// Replica health for one file.
#[derive(Clone, Debug)]
pub struct FileHealth {
    /// File path.
    pub path: String,
    /// File size in bytes.
    pub size: u64,
    /// Number of chunk positions.
    pub chunk_count: usize,
    /// The fewest live replicas held by any of the file's chunks.
    pub min_live_replicas: usize,
}

/// A snapshot of cluster health.
#[derive(Clone, Debug)]
pub struct Status {
    /// Logical clock at the time of the snapshot.
    pub clock: u64,
    /// Per storage node status.
    pub nodes: Vec<NodeStatus>,
    /// Per file replica health.
    pub files: Vec<FileHealth>,
}

/// The whole simulated cluster.
pub struct Cluster {
    opts: Options,
    net: Network,
    storages: Vec<StorageNode>,
    metas: Vec<MetaNode>,
    client_inbox: Vec<(NodeId, Message)>,
    next_req: u64,
}

/// The values of some storage nodes.
pub open spec fn storages_view(s: Seq<StorageNode>) -> Seq<StorageV> {
    Seq::new(s.len(), |i: int| s[i]@)
}

/// The values of some metadata nodes.
pub open spec fn metas_view(s: Seq<MetaNode>) -> Seq<MetaV> {
    Seq::new(s.len(), |i: int| s[i]@)
}

/// The values of some inbox messages.
pub open spec fn letters_view(s: Seq<(NodeId, Message)>) -> Seq<Letter> {
    Seq::new(s.len(), |i: int| Letter { from: s[i].0, msg: s[i].1@ })
}

impl View for Cluster {
    type V = ClusterV;

    closed spec fn view(&self) -> ClusterV {
        ClusterV {
            opts: self.opts,
            net: self.net@,
            storages: storages_view(self.storages@),
            metas: metas_view(self.metas@),
            inbox: letters_view(self.client_inbox@),
            next_req: self.next_req,
        }
    }
}

/// A fresh cluster before its roles are settled.
pub open spec fn unsettled(opts: Options, seed: u64) -> ClusterV {
    ClusterV {
        opts,
        net: NetV::fresh(seed, opts.link, opts.link.drop_prob == 0),
        storages: Seq::new(
            opts.node_count as nat,
            |i: int| StorageV { idx: i as u32, store: Map::empty() },
        ),
        metas: Seq::new(
            opts.meta_count as nat,
            |i: int|
                MetaV::fresh(
                    i as u32,
                    opts.meta_quorum,
                    simulation::indices(opts.meta_count),
                    opts.replication_factor,
                ),
        ),
        inbox: Seq::empty(),
        next_req: 0,
    }
}

fn indices(n: u32) -> (r: Vec<u32>)
    ensures
        r@ == simulation::indices(n),
{
    let mut out: Vec<u32> = Vec::new();
    let mut i: u32 = 0;
    while i < n
        invariant
            i <= n,
            out@.len() == i,
            forall|j: int| 0 <= j < i ==> #[trigger] out@[j] == j,
        decreases n - i,
    {
        out.push(i);
        i += 1;
    }
    assert(out@ =~= simulation::indices(n));
    out
}

fn copy_indices(v: &Vec<u32>) -> (r: Vec<u32>)
    ensures
        r@ == v@,
{
    let mut out: Vec<u32> = Vec::with_capacity(v.len());
    let mut i: usize = 0;
    while i < v.len()
        invariant
            i <= v@.len(),
            out@ == v@.take(i as int),
        decreases v@.len() - i,
    {
        out.push(v[i]);
        i += 1;
        assert(out@ =~= v@.take(i as int));
    }
    assert(v@.take(v@.len() as int) =~= v@);
    out
}

/// What a status says of one storage node.
pub open spec fn node_status(v: ClusterV, i: u32) -> NodeStatus {
    NodeStatus {
        idx: i,
        live: !v.net.down.contains(NodeId::Storage(i)),
        chunks: v.storages[i as int].store.dom().len() as usize,
    }
}

/// The fewest live replicas among the first `n` of some chunks, or the target for none.
pub open spec fn fewest(v: ClusterV, ids: Seq<Seq<u8>>, n: nat) -> nat
    decreases n,
{
    if n == 0 {
        v.target()
    } else if n == 1 {
        v.live_replicas(ids[0]).len()
    } else {
        let m = fewest(v, ids, (n - 1) as nat);
        let c = v.live_replicas(ids[n - 1]).len();
        if c < m {
            c
        } else {
            m
        }
    }
}

/// The bytes that the state hash covers for the first `n` storage nodes.
pub open spec fn storage_bytes(v: ClusterV, n: nat) -> Seq<u8>
    decreases n,
{
    if n == 0 {
        seq![]
    } else {
        let i = n - 1;
        let ids = ordmap::in_order::<crate::hash::Hash>(v.storages[i].store.dom());
        storage_bytes(v, (n - 1) as nat) + varint::leb(i as nat) + seq![
            wire::flag(v.net.down.contains(NodeId::Storage(i as u32))),
        ] + varint::leb(ids.len()) + encode::hashes_wire(ids)
    }
}

/// The bytes that the state hash covers for the first `n` of the files at `paths`.
pub open spec fn file_bytes(
    files: Map<Seq<char>, chunk::ManifestV>,
    paths: Seq<Seq<char>>,
    n: nat,
) -> Seq<u8>
    decreases n,
{
    if n == 0 {
        seq![]
    } else {
        let m = files[paths[n - 1]];
        file_bytes(files, paths, (n - 1) as nat) + encode::str_wire(paths[n - 1]) + varint::leb(
            m.size as nat,
        ) + m.content_hash + varint::leb(m.chunks.len()) + encode::hashes_wire(m.chunks)
    }
}

/// The bytes that the state hash covers for the first `n` directories.
pub open spec fn dir_bytes(paths: Seq<Seq<char>>, n: nat) -> Seq<u8>
    decreases n,
{
    if n == 0 {
        seq![]
    } else {
        dir_bytes(paths, (n - 1) as nat) + encode::str_wire(paths[n - 1])
    }
}

/// The bytes that the state hash covers: every storage node's chunk set and the primary's
/// namespace.
pub open spec fn state_bytes(v: ClusterV) -> Seq<u8> {
    storage_bytes(v, v.storages.len()) + match v.primary() {
        None => seq![],
        Some(p) => {
            let ns = v.metas[p as int].ns;
            let fs = ordmap::in_order::<String>(ns.files.dom());
            let ds = ordmap::in_order::<String>(ns.dirs);
            varint::leb(fs.len()) + file_bytes(ns.files, fs, fs.len()) + varint::leb(ds.len())
                + dir_bytes(ds, ds.len())
        },
    }
}

/// The bytes that the delivery digest covers for the first `n` deliveries.
pub open spec fn delivery_bytes(log: Seq<Delivery>, n: nat) -> Seq<u8>
    decreases n,
{
    if n == 0 {
        seq![]
    } else {
        let d = log[n - 1];
        delivery_bytes(log, (n - 1) as nat) + varint::leb(d.time as nat) + seq![d.tag]
            + wire::node_wire(d.from) + wire::node_wire(d.to)
    }
}

impl Cluster {
    /// Build a cluster from `opts` seeded by `seed`. The network runs in
    /// reliable mode (no random drops) when `opts.link.drop_prob` is zero.
    pub fn new(opts: Options, seed: u64) -> (r: Self)
        requires
            opts.wf(),
        ensures
            r@ == unsettled(opts, seed).settled(),
            r@.wf(),
    {
        let reliable = opts.link.drop_prob == 0;
        let net = Network::new(seed, opts.link, reliable);
        let mut storages: Vec<StorageNode> = Vec::new();
        let mut i: u32 = 0;
        while i < opts.node_count
            invariant
                i <= opts.node_count,
                storages@.len() == i,
                forall|j: int|
                    0 <= j < i ==> (#[trigger] storages@[j])@ == (StorageV {
                        idx: j as u32,
                        store: Map::empty(),
                    }),
            decreases opts.node_count - i,
        {
            storages.push(StorageNode::new(i));
            i += 1;
        }
        let all = indices(opts.meta_count);
        let mut metas: Vec<MetaNode> = Vec::new();
        let mut k: u32 = 0;
        while k < opts.meta_count
            invariant
                k <= opts.meta_count,
                metas@.len() == k,
                all@ == simulation::indices(opts.meta_count),
                forall|j: int|
                    0 <= j < k ==> (#[trigger] metas@[j])@ == MetaV::fresh(
                        j as u32,
                        opts.meta_quorum,
                        simulation::indices(opts.meta_count),
                        opts.replication_factor,
                    ),
            decreases opts.meta_count - k,
        {
            metas.push(
                MetaNode::new(k, opts.meta_quorum, copy_indices(&all), opts.replication_factor),
            );
            k += 1;
        }
        let mut c = Cluster {
            opts,
            net,
            storages,
            metas,
            client_inbox: Vec::new(),
            next_req: 0,
        };
        assert(c@ =~= unsettled(opts, seed));
        c.refresh_meta_roles();
        c
    }

    /// The configuration.
    pub fn options(&self) -> (r: Options)
        ensures
            r == self@.opts,
    {
        self.opts
    }

    /// Current logical clock.
    pub fn clock(&self) -> (r: u64)
        ensures
            r == self@.net.clock,
    {
        self.net.clock()
    }

    /// The next correlation id, unless they are used up.
    pub(crate) fn alloc_req(&mut self) -> (r: Option<u64>)
        ensures
            match r {
                Some(id) => id == old(self)@.next_req && id < u64::MAX && final(self)@ == (
                ClusterV { next_req: (id + 1) as u64, ..old(self)@ }),
                None => old(self)@.next_req == u64::MAX && final(self)@ == old(self)@,
            },
    {
        if self.next_req == u64::MAX {
            return None;
        }
        let id = self.next_req;
        self.next_req = id + 1;
        Some(id)
    }

    /// Send a message over the network.
    pub(crate) fn send(&mut self, from: NodeId, to: NodeId, msg: &Message)
        ensures
            final(self)@ == old(self)@.sent(from, to, msg@),
    {
        self.net.send(from, to, msg);
    }

    /// Empty the client's inbox.
    pub(crate) fn take_inbox(&mut self) -> (r: Vec<(NodeId, Message)>)
        ensures
            letters_view(r@) == old(self)@.inbox,
            final(self)@ == (ClusterV { inbox: Seq::empty(), ..old(self)@ }),
    {
        let mut inbox: Vec<(NodeId, Message)> = Vec::new();
        std::mem::swap(&mut inbox, &mut self.client_inbox);
        assert(letters_view(self.client_inbox@) =~= Seq::<Letter>::empty());
        assert(self@ =~= (ClusterV { inbox: Seq::empty(), ..old(self)@ }));
        inbox
    }

    /// Live storage node indices in ascending order.
    pub(crate) fn live_storage(&self) -> (r: Vec<u32>)
        ensures
            r@ == self@.live_storage(),
    {
        let n = self.opts.node_count;
        let ghost keep = |i: u32| !self@.net.down.contains(NodeId::Storage(i));
        let ghost all = simulation::indices(n);
        let mut out: Vec<u32> = Vec::new();
        let mut i: u32 = 0;
        assert(all.take(0).filter(keep) =~= seq![]);
        while i < n
            invariant
                i <= n,
                all == simulation::indices(n),
                keep == (|i: u32| !self@.net.down.contains(NodeId::Storage(i))),
                out@ == all.take(i as int).filter(keep),
            decreases n - i,
        {
            proof {
                crate::namespace::lemma_filter_step(all, i as int, keep);
            }
            if !self.net.is_down(NodeId::Storage(i)) {
                out.push(i);
            }
            i += 1;
        }
        assert(all.take(n as int) =~= all);
        out
    }

    fn live_meta(&self) -> (r: Vec<u32>)
        ensures
            r@ == self@.live_meta(),
    {
        let n = self.opts.meta_count;
        let ghost keep = |i: u32| !self@.net.down.contains(NodeId::Meta(i));
        let ghost all = simulation::indices(n);
        let mut out: Vec<u32> = Vec::new();
        let mut i: u32 = 0;
        assert(all.take(0).filter(keep) =~= seq![]);
        while i < n
            invariant
                i <= n,
                all == simulation::indices(n),
                keep == (|i: u32| !self@.net.down.contains(NodeId::Meta(i))),
                out@ == all.take(i as int).filter(keep),
            decreases n - i,
        {
            proof {
                crate::namespace::lemma_filter_step(all, i as int, keep);
            }
            if !self.net.is_down(NodeId::Meta(i)) {
                out.push(i);
            }
            i += 1;
        }
        assert(all.take(n as int) =~= all);
        out
    }

    /// The current primary metadata node, if any is live.
    pub(crate) fn primary_meta(&self) -> (r: Option<u32>)
        ensures
            r == self@.primary(),
            r matches Some(p) ==> p < self@.opts.meta_count,
    {
        let live = self.live_meta();
        proof {
            simulation::lemma_live(self@);
        }
        if live.len() == 0 {
            None
        } else {
            Some(live[0])
        }
    }

    /// Send some messages in order.
    pub(crate) fn send_all(&mut self, out: Vec<(NodeId, NodeId, Message)>)
        ensures
            final(self)@ == old(self)@.sent_all(routed_view(out@)),
    {
        let ghost ev = routed_view(out@);
        let mut i: usize = 0;
        assert(ev.take(0) =~= seq![]);
        assert(self@ =~= old(self)@.with_net(old(self)@.net.sent_all(ev.take(0))));
        while i < out.len()
            invariant
                i <= out@.len(),
                ev == routed_view(out@),
                self@ == old(self)@.with_net(old(self)@.net.sent_all(ev.take(i as int))),
            decreases out@.len() - i,
        {
            let m = &out[i];
            self.net.send(m.0, m.1, &m.2);
            proof {
                assert(ev.take(i + 1).drop_last() =~= ev.take(i as int));
                assert(ev.take(i + 1).last() == ev[i as int]);
                assert(self@ =~= old(self)@.with_net(old(self)@.net.sent_all(ev.take(i + 1))));
            }
            i += 1;
        }
        assert(ev.take(ev.len() as int) =~= ev);
    }

    /// Deliver the next due message and dispatch it. Returns false when the
    /// network is idle.
    pub(crate) fn pump_step(&mut self) -> (r: bool)
        requires
            old(self)@.wf(),
        ensures
            final(self)@ == old(self)@.pumped().0,
            r == old(self)@.pumped().1,
            final(self)@.wf(),
    {
        proof {
            simulation::lemma_pumped_wf(self@);
        }
        match self.net.step() {
            None => {
                assert(self@ =~= old(self)@.pumped().0);
                false
            },
            Some((from, to, msg)) => {
                let ghost v = self@;
                let ghost env = wire::Envelope { from, to, msg: msg@ };
                assert(v =~= old(self)@.with_net(old(self)@.net.stepped().0));
                let out = match to {
                    NodeId::Client => {
                        let ghost before = letters_view(self.client_inbox@);
                        self.client_inbox.push((from, msg));
                        assert(letters_view(self.client_inbox@) =~= before.push(
                            Letter { from, msg: env.msg },
                        ));
                        crate::message::nothing()
                    },
                    NodeId::Storage(i) => {
                        if (i as usize) < self.storages.len() {
                            let ghost before = self.storages@;
                            let out = self.storages[i as usize].handle(from, msg);
                            assert(storages_view(self.storages@) =~= storages_view(before).update(
                                i as int,
                                before[i as int]@.after(env.msg),
                            ));
                            out
                        } else {
                            crate::message::nothing()
                        }
                    },
                    NodeId::Meta(i) => {
                        if (i as usize) < self.metas.len() {
                            let ghost before = self.metas@;
                            let out = self.metas[i as usize].handle(from, msg);
                            assert(metas_view(self.metas@) =~= metas_view(before).update(
                                i as int,
                                before[i as int]@.handled(from, env.msg).0,
                            ));
                            out
                        } else {
                            crate::message::nothing()
                        }
                    },
                };
                assert(self@ =~= v.delivered(env).0);
                assert(routed_view(out@) =~= v.delivered(env).1);
                self.send_all(out);
                true
            },
        }
    }

    fn most_current(&self, live: &Vec<u32>) -> (r: u32)
        requires
            self@.wf(),
            live@ == self@.live_meta(),
            live@.len() > 0,
        ensures
            r == simulation::most_current(self@.metas, live@, live@.len()),
            r < self@.metas.len(),
    {
        proof {
            simulation::lemma_live(self@);
        }
        let mut best = live[0];
        let mut n: usize = 1;
        while n < live.len()
            invariant
                1 <= n <= live@.len(),
                live@ == self@.live_meta(),
                self@.wf(),
                forall|i: int| 0 <= i < live@.len() ==> #[trigger] live@[i] < self@.opts.meta_count,
                best < self@.metas.len(),
                best == simulation::most_current(self@.metas, live@, n as nat),
            decreases live@.len() - n,
        {
            let c = live[n];
            assert(self@.metas[c as int] == self.metas@[c as int]@);
            assert(self@.metas[best as int] == self.metas@[best as int]@);
            if self.metas[c as usize].applied_seq() > self.metas[best as usize].applied_seq() {
                best = c;
            }
            n += 1;
        }
        best
    }

    /// Choose the primary, reconcile its log from the most current live node,
    /// and refresh every node's role and the primary's membership view.
    fn refresh_meta_roles(&mut self)
        requires
            old(self)@.wf(),
        ensures
            final(self)@ == old(self)@.settled(),
            final(self)@.wf(),
    {
        proof {
            simulation::lemma_live(self@);
            simulation::lemma_settled_wf(self@);
        }
        let live = self.live_meta();
        if live.len() == 0 {
            return;
        }
        let primary = live[0] as usize;
        // Pick the live node with the most applied ops to seed the primary.
        let best = self.most_current(&live) as usize;
        if best != primary {
            let snap = self.metas[best].snapshot();
            let ghost before = self.metas@;
            self.metas[primary].restore(snap);
            assert(metas_view(self.metas@) =~= metas_view(before).update(
                primary as int,
                before[primary as int]@.restored(before[best as int]@.snapshot()),
            ));
        }
        let ghost rec = old(self)@.reconciled();
        assert(metas_view(self.metas@) =~= rec);
        let live_storage = self.live_storage();
        assert(live_storage@ == old(self)@.live_storage());
        // Catch every backup up to the primary's committed state. A backup that
        // missed replicated ops while offline holds a permanent gap in its log
        // otherwise, can never apply anything again, and its stale buffer is
        // dead weight. Modeled as an instant state transfer, consistent with
        // the promotion path above.
        assert(rec[primary as int] == self.metas@[primary as int]@);
        let catchup = self.metas[primary].snapshot();
        let all = indices(self.opts.meta_count);
        let ghost peers = simulation::indices(self.opts.meta_count);
        let mut i: usize = 0;
        while i < self.metas.len()
            invariant
                i <= self.metas@.len(),
                self.metas@.len() == rec.len(),
                primary < rec.len(),
                all@ == peers,
                catchup@ == rec[primary as int].snapshot(),
                self@ == (ClusterV { metas: metas_view(self.metas@), ..old(self)@ }),
                self.opts == old(self)@.opts,
                forall|j: int|
                    0 <= j < i ==> (#[trigger] self.metas@[j])@ == if j == primary {
                        MetaV { is_primary: true, peers, ..rec[j] }
                    } else {
                        MetaV {
                            is_primary: false,
                            peers,
                            ..rec[j].restored(rec[primary as int].snapshot())
                        }
                    },
                forall|j: int| i <= j < rec.len() ==> (#[trigger] self.metas@[j])@ == rec[j],
            decreases self.metas@.len() - i,
        {
            let ghost before = self.metas@;
            let is_primary = i == primary;
            assert(before[i as int]@ == rec[i as int]);
            self.metas[i].set_role(is_primary, copy_indices(&all));
            if !is_primary {
                self.metas[i].restore(catchup.dup());
            }
            assert forall|j: int| 0 <= j < rec.len() && j != i implies (#[trigger] self.metas@[j])@
                == before[j]@ by {}
            i += 1;
        }
        let r = self.opts.replication_factor;
        let ghost before = self.metas@;
        assert(before[primary as int]@ == MetaV { is_primary: true, peers, ..rec[primary as int] });
        self.metas[primary].update_membership(live_storage, r);
        proof {
            let want = old(self)@.settled();
            assert forall|j: int| 0 <= j < rec.len() implies (#[trigger] metas_view(
                self.metas@,
            )[j]) == want.metas[j] by {
                if j != primary {
                    assert(self.metas@[j] == before[j]);
                }
            }
            assert(metas_view(self.metas@) =~= want.metas);
            assert(self@ =~= want);
        }
    }

    /// Take a storage node offline. Its stored bytes are retained.
    pub fn crash_node(&mut self, idx: u32)
        requires
            old(self)@.wf(),
        ensures
            final(self)@ == old(self)@.with_net(old(self)@.net.crashed(NodeId::Storage(idx))),
            final(self)@.wf(),
    {
        self.net.crash(NodeId::Storage(idx));
        assert(self@ =~= old(self)@.with_net(old(self)@.net.crashed(NodeId::Storage(idx))));
    }

    /// Bring a storage node back online with its store intact.
    pub fn recover_node(&mut self, idx: u32)
        requires
            old(self)@.wf(),
        ensures
            final(self)@ == old(self)@.with_net(old(self)@.net.recovered(NodeId::Storage(idx))),
            final(self)@.wf(),
    {
        self.net.recover(NodeId::Storage(idx));
        assert(self@ =~= old(self)@.with_net(old(self)@.net.recovered(NodeId::Storage(idx))));
    }

    /// Take a metadata node offline and re-elect the primary.
    pub fn crash_meta(&mut self, idx: u32)
        requires
            old(self)@.wf(),
        ensures
            final(self)@ == old(self)@.with_net(
                old(self)@.net.crashed(NodeId::Meta(idx)),
            ).settled(),
            final(self)@.wf(),
    {
        self.net.crash(NodeId::Meta(idx));
        assert(self@ =~= old(self)@.with_net(old(self)@.net.crashed(NodeId::Meta(idx))));
        self.refresh_meta_roles();
    }

    /// Bring a metadata node back online and refresh roles.
    pub fn recover_meta(&mut self, idx: u32)
        requires
            old(self)@.wf(),
        ensures
            final(self)@ == old(self)@.with_net(
                old(self)@.net.recovered(NodeId::Meta(idx)),
            ).settled(),
            final(self)@.wf(),
    {
        self.net.recover(NodeId::Meta(idx));
        assert(self@ =~= old(self)@.with_net(old(self)@.net.recovered(NodeId::Meta(idx))));
        self.refresh_meta_roles();
    }

    /// Partition the given storage nodes away from the rest of the cluster and
    /// the client. Cross-partition messages are dropped until [`Cluster::heal`].
    pub fn partition(&mut self, storage_idxs: &[u32])
        requires
            old(self)@.wf(),
        ensures
            final(self)@ == old(self)@.split(storage_idxs@),
            final(self)@.wf(),
    {
        let mut all: Vec<NodeId> = Vec::new();
        all.push(NodeId::Client);
        let mut i: u32 = 0;
        while i < self.opts.node_count
            invariant
                i <= self.opts.node_count,
                all@ == seq![NodeId::Client] + Seq::new(
                    i as nat,
                    |j: int| NodeId::Storage(j as u32),
                ),
            decreases self.opts.node_count - i,
        {
            all.push(NodeId::Storage(i));
            i += 1;
            assert(all@ =~= seq![NodeId::Client] + Seq::new(
                i as nat,
                |j: int| NodeId::Storage(j as u32),
            ));
        }
        let ghost front = all@;
        let mut k: u32 = 0;
        assert(all@ =~= front + Seq::new(0nat, |j: int| NodeId::Meta(j as u32)));
        while k < self.opts.meta_count
            invariant
                k <= self.opts.meta_count,
                all@ == front + Seq::new(k as nat, |j: int| NodeId::Meta(j as u32)),
            decreases self.opts.meta_count - k,
        {
            all.push(NodeId::Meta(k));
            k += 1;
            assert(all@ =~= front + Seq::new(k as nat, |j: int| NodeId::Meta(j as u32)));
        }
        assert(all@ =~= self@.everyone());
        let mut group_b: Vec<NodeId> = Vec::new();
        let mut j: usize = 0;
        while j < storage_idxs.len()
            invariant
                j <= storage_idxs@.len(),
                group_b@.len() == j,
                forall|t: int|
                    0 <= t < j ==> #[trigger] group_b@[t] == NodeId::Storage(storage_idxs@[t]),
            decreases storage_idxs@.len() - j,
        {
            group_b.push(NodeId::Storage(storage_idxs[j]));
            j += 1;
        }
        assert(group_b@ =~= Seq::new(
            storage_idxs@.len(),
            |i: int| NodeId::Storage(storage_idxs@[i]),
        ));
        self.net.partition(group_b.as_slice(), all.as_slice());
        assert(self@ =~= old(self)@.split(storage_idxs@));
    }

    /// Remove any active partition.
    pub fn heal(&mut self)
        requires
            old(self)@.wf(),
        ensures
            final(self)@ == old(self)@.with_net(old(self)@.net.healed()),
            final(self)@.wf(),
    {
        self.net.heal();
        assert(self@ =~= old(self)@.with_net(old(self)@.net.healed()));
    }

    /// Have every live storage node report to the primary.
    fn report_all(&mut self, primary: u32)
        requires
            old(self)@.wf(),
        ensures
            final(self)@ == old(self)@.reporting(primary, old(self)@.live_storage().len()),
            final(self)@.wf(),
    {
        let ghost start = self@;
        let live = self.live_storage();
        proof {
            simulation::lemma_live(self@);
        }
        let ghost beats = Seq::new(
            live@.len(),
            |j: int| start.heartbeat(start.live_storage()[j], primary),
        );
        let mut i: usize = 0;
        assert(beats.take(0) =~= seq![]);
        assert(self@ =~= start.with_net(start.net.sent_all(beats.take(0))));
        while i < live.len()
            invariant
                i <= live@.len(),
                start.wf(),
                live@ == start.live_storage(),
                forall|j: int| 0 <= j < live@.len() ==> #[trigger] live@[j] < start.opts.node_count,
                beats == Seq::new(
                    live@.len(),
                    |j: int| start.heartbeat(start.live_storage()[j], primary),
                ),
                self@ == start.with_net(start.net.sent_all(beats.take(i as int))),
            decreases live@.len() - i,
        {
            let n = live[i];
            assert(self@.storages == start.storages);
            assert(self@.storages[n as int] == self.storages@[n as int]@);
            let chunks = self.storages[n as usize].chunk_ids();
            let msg = Message::Heartbeat { node: n, chunks };
            self.net.send(NodeId::Storage(n), NodeId::Meta(primary), &msg);
            proof {
                assert(beats.take(i + 1).drop_last() =~= beats.take(i as int));
                assert(beats.take(i + 1).last() == beats[i as int]);
                assert(self@ =~= start.with_net(start.net.sent_all(beats.take(i + 1))));
            }
            i += 1;
        }
        assert(beats.take(beats.len() as int) =~= beats);
        assert(beats =~= Seq::new(
            start.live_storage().len(),
            |j: int| start.heartbeat(start.live_storage()[j], primary),
        ));
    }

    /// Deliver until nothing is in flight.
    fn drain(&mut self)
        requires
            old(self)@.wf(),
        ensures
            final(self)@ == old(self)@.drained(),
            final(self)@.wf(),
    {
        loop
            invariant
                self@.wf(),
                self@.drained() == old(self)@.drained(),
            decreases u64::MAX - self@.net.seq, self@.net.queue.len(),
        {
            proof {
                simulation::lemma_pump_progress(self@);
            }
            if !self.pump_step() {
                return;
            }
        }
    }

    /// Run heartbeats and re-replication until every referenced chunk has the
    /// target number of live replicas or a bounded number of rounds elapses.
    /// Returns whether full replication was achieved.
    pub fn stabilize(&mut self) -> (r: bool)
        requires
            old(self)@.wf(),
        ensures
            final(self)@ == old(self)@.stabilized().0,
            r == old(self)@.stabilized().1,
            final(self)@.wf(),
    {
        self.refresh_meta_roles();
        let primary = match self.primary_meta() {
            None => return false,
            Some(p) => p,
        };
        let rounds: u64 = self.opts.node_count as u64 * 2 + 8;
        let mut done: u64 = 0;
        while done < rounds
            invariant
                done <= rounds,
                self@.wf(),
                self@.healed_within(primary, (rounds - done) as nat) == old(self)@.stabilized(),
            decreases rounds - done,
        {
            self.report_all(primary);
            self.drain();
            if self.fully_replicated() {
                return true;
            }
            done += 1;
        }
        self.fully_replicated()
    }

    fn target_replicas(&self) -> (r: usize)
        ensures
            r == self@.target(),
    {
        let live = self.live_storage().len();
        if self.opts.replication_factor <= live {
            self.opts.replication_factor
        } else {
            live
        }
    }

    fn live_replica_count(&self, id: &crate::hash::Hash) -> (r: usize)
        requires
            self@.wf(),
        ensures
            r == self@.live_replicas(id@).len(),
    {
        let live = self.live_storage();
        proof {
            simulation::lemma_live(self@);
        }
        let ghost keep = |i: u32| self@.storages[i as int].store.dom().contains(id@);
        let mut count: usize = 0;
        let mut i: usize = 0;
        assert(live@.take(0).filter(keep) =~= seq![]);
        while i < live.len()
            invariant
                i <= live@.len(),
                self@.wf(),
                forall|j: int| 0 <= j < live@.len() ==> #[trigger] live@[j] < self@.opts.node_count,
                keep == (|i: u32| self@.storages[i as int].store.dom().contains(id@)),
                count == live@.take(i as int).filter(keep).len(),
                count <= i,
            decreases live@.len() - i,
        {
            proof {
                crate::namespace::lemma_filter_step(live@, i as int, keep);
            }
            let n = live[i];
            assert(self@.storages[n as int] == self.storages@[n as int]@);
            if self.storages[n as usize].has(id) {
                count += 1;
            }
            i += 1;
        }
        assert(live@.take(live@.len() as int) =~= live@);
        count
    }

    fn fully_replicated(&self) -> (r: bool)
        requires
            self@.wf(),
        ensures
            r == self@.fully_replicated(),
    {
        let target = self.target_replicas();
        let primary = match self.primary_meta() {
            None => return false,
            Some(p) => p,
        };
        assert(self@.metas[primary as int] == self.metas@[primary as int]@);
        let ids = self.metas[primary as usize].referenced_chunks();
        let n = ids.len();
        let ghost ks = ordmap::in_order::<crate::hash::Hash>(ids@);
        let mut i: usize = 0;
        while i < n
            invariant
                i <= n,
                n == ks.len(),
                self@.wf(),
                target == self@.target(),
                ks == ordmap::in_order::<crate::hash::Hash>(ids@),
                self@.primary() == Some(primary),
                ids@ == metadata::referenced(self@.metas[primary as int].ns.files),
                forall|j: int|
                    0 <= j < i ==> self@.live_replicas(#[trigger] ks[j]).len() >= target,
            decreases n - i,
        {
            let id = ids.at(i);
            if self.live_replica_count(id) < target {
                assert(!self@.enough_for(self@.metas[primary as int].ns.files)) by {
                    let want = metadata::referenced(self@.metas[primary as int].ns.files);
                    assert(want.contains(id@));
                }
                return false;
            }
            i += 1;
        }
        proof {
            assert forall|id: Seq<u8>| #[trigger] ids@.contains(id) implies self@.live_replicas(
                id,
            ).len() >= target by {
                assert(ks.to_set().contains(id));
                let j = choose|j: int| 0 <= j < ks.len() && ks[j] == id;
                assert(self@.live_replicas(ks[j]).len() >= target);
            }
        }
        true
    }

    fn min_replicas(&self, ids: &Vec<crate::hash::Hash>) -> (r: usize)
        requires
            self@.wf(),
        ensures
            r == fewest(self@, chunk::ids_view(ids@), ids@.len()),
    {
        let ghost iv = chunk::ids_view(ids@);
        if ids.len() == 0 {
            return self.target_replicas();
        }
        let mut min = self.live_replica_count(&ids[0]);
        let mut i: usize = 1;
        while i < ids.len()
            invariant
                1 <= i <= ids@.len(),
                self@.wf(),
                iv == chunk::ids_view(ids@),
                min == fewest(self@, iv, i as nat),
            decreases ids@.len() - i,
        {
            let c = self.live_replica_count(&ids[i]);
            if c < min {
                min = c;
            }
            i += 1;
        }
        min
    }

    fn node_statuses(&self) -> (r: Vec<NodeStatus>)
        requires
            self@.wf(),
        ensures
            r@.len() == self@.opts.node_count,
            forall|i: int|
                0 <= i < r@.len() ==> #[trigger] r@[i] == node_status(self@, i as u32),
    {
        let mut nodes: Vec<NodeStatus> = Vec::new();
        let mut i: u32 = 0;
        while i < self.opts.node_count
            invariant
                i <= self.opts.node_count,
                self@.wf(),
                self.opts == self@.opts,
                nodes@.len() == i,
                forall|j: int|
                    0 <= j < i ==> #[trigger] nodes@[j] == node_status(self@, j as u32),
            decreases self.opts.node_count - i,
        {
            assert(self@.storages[i as int] == self.storages@[i as int]@);
            nodes.push(
                NodeStatus {
                    idx: i,
                    live: !self.net.is_down(NodeId::Storage(i)),
                    chunks: self.storages[i as usize].count(),
                },
            );
            i += 1;
        }
        nodes
    }

    fn file_healths(&self, primary: u32) -> (r: Vec<FileHealth>)
        requires
            self@.wf(),
            primary < self@.metas.len(),
        ensures
            file_health(self@, primary, r@),
    {
        assert(self@.metas[primary as int] == self.metas@[primary as int]@);
        let (files, _) = self.metas[primary as usize].namespace();
        let n = files.len();
        let ghost fm = self@.metas[primary as int].ns.files;
        let ghost ks = ordmap::in_order::<String>(fm.dom());
        let mut out: Vec<FileHealth> = Vec::new();
        let mut i: usize = 0;
        while i < n
            invariant
                i <= n,
                n == ks.len(),
                self@.wf(),
                files@ == fm,
                ks == ordmap::in_order::<String>(fm.dom()),
                out@.len() == i,
                forall|j: int|
                    0 <= j < i ==> describes(#[trigger] out@[j], self@, ks[j], fm[ks[j]]),
            decreases n - i,
        {
            let m = files.value_at(i);
            out.push(
                FileHealth {
                    path: files.key_at(i).clone(),
                    size: m.size,
                    chunk_count: m.chunks.len(),
                    min_live_replicas: self.min_replicas(&m.chunks),
                },
            );
            i += 1;
        }
        out
    }

    /// A health snapshot.
    pub fn status(&self) -> (r: Status)
        requires
            self@.wf(),
        ensures
            reports(self@, r),
    {
        let nodes = self.node_statuses();
        let files = match self.primary_meta() {
            None => Vec::new(),
            Some(p) => self.file_healths(p),
        };
        Status { clock: self.clock(), nodes, files }
    }

    /// Placement of a chunk over the current live storage set.
    pub fn placement_of(&self, id: &crate::hash::Hash) -> (r: Vec<u32>)
        ensures
            r@ == placement::placed(
                id@,
                self@.live_storage(),
                self@.opts.replication_factor as nat,
            ),
    {
        place(id, self.live_storage().as_slice(), self.opts.replication_factor)
    }

    fn encode_storages(&self, e: &mut Encoder)
        requires
            self@.wf(),
        ensures
            final(e)@ == old(e)@ + storage_bytes(self@, self@.storages.len()),
    {
        let mut i: u32 = 0;
        assert(e@ =~= old(e)@ + storage_bytes(self@, 0));
        while i < self.opts.node_count
            invariant
                i <= self.opts.node_count,
                self@.wf(),
                self.opts == self@.opts,
                e@ == old(e)@ + storage_bytes(self@, i as nat),
            decreases self.opts.node_count - i,
        {
            assert(self@.storages[i as int] == self.storages@[i as int]@);
            e.put_uvarint(i as u64);
            let down = self.net.is_down(NodeId::Storage(i));
            e.put_u8(
                if down {
                    1
                } else {
                    0
                },
            );
            let ids = self.storages[i as usize].chunk_ids();
            e.put_uvarint(ids.len() as u64);
            chunk::encode_ids(&ids, e);
            i += 1;
            assert(e@ =~= old(e)@ + storage_bytes(self@, i as nat));
        }
    }

    fn encode_namespace(&self, primary: u32, e: &mut Encoder)
        requires
            self@.wf(),
            primary < self@.metas.len(),
        ensures
            final(e)@ == old(e)@ + ({
                let ns = self@.metas[primary as int].ns;
                let fs = ordmap::in_order::<String>(ns.files.dom());
                let ds = ordmap::in_order::<String>(ns.dirs);
                varint::leb(fs.len()) + file_bytes(ns.files, fs, fs.len()) + varint::leb(ds.len())
                    + dir_bytes(ds, ds.len())
            }),
    {
        assert(self@.metas[primary as int] == self.metas@[primary as int]@);
        let (files, dirs) = self.metas[primary as usize].namespace();
        let n = files.len();
        let ghost fm = self@.metas[primary as int].ns.files;
        let ghost fs = ordmap::in_order::<String>(fm.dom());
        e.put_uvarint(n as u64);
        let ghost start = e@;
        let mut i: usize = 0;
        assert(e@ =~= start + file_bytes(fm, fs, 0));
        while i < n
            invariant
                i <= n,
                n == fs.len(),
                files@ == fm,
                fs == ordmap::in_order::<String>(fm.dom()),
                e@ == start + file_bytes(fm, fs, i as nat),
            decreases n - i,
        {
            let m = files.value_at(i);
            e.put_str(files.key_at(i).as_str());
            e.put_uvarint(m.size);
            e.put_hash(&m.content_hash);
            e.put_uvarint(m.chunks.len() as u64);
            chunk::encode_ids(&m.chunks, e);
            i += 1;
            assert(e@ =~= start + file_bytes(fm, fs, i as nat));
        }
        let k = dirs.len();
        let ghost ds = ordmap::in_order::<String>(dirs@);
        e.put_uvarint(k as u64);
        let ghost middle = e@;
        let mut j: usize = 0;
        assert(e@ =~= middle + dir_bytes(ds, 0));
        while j < k
            invariant
                j <= k,
                k == ds.len(),
                ds == ordmap::in_order::<String>(dirs@),
                e@ == middle + dir_bytes(ds, j as nat),
            decreases k - j,
        {
            e.put_str(dirs.at(j).as_str());
            j += 1;
            assert(e@ =~= middle + dir_bytes(ds, j as nat));
        }
        assert(e@ =~= old(e)@ + (varint::leb(fs.len()) + file_bytes(fm, fs, fs.len())
            + varint::leb(ds.len()) + dir_bytes(ds, ds.len())));
    }

    /// A hash of the durable cluster state: every storage node's chunk set plus
    /// the primary metadata namespace. Two runs with the same seed and script
    /// must produce the same digest.
    pub fn state_hash(&self) -> (r: crate::hash::Hash)
        requires
            self@.wf(),
        ensures
            r@ == hash::digest(state_bytes(self@)),
    {
        let mut e = Encoder::new();
        self.encode_storages(&mut e);
        match self.primary_meta() {
            None => {},
            Some(p) => self.encode_namespace(p, &mut e),
        }
        assert(e@ =~= state_bytes(self@));
        sha256(e.finish().as_slice())
    }

    /// A hash of the full network delivery order.
    pub fn delivery_digest(&self) -> (r: crate::hash::Hash)
        ensures
            r@ == hash::digest(delivery_bytes(self@.net.log, self@.net.log.len())),
    {
        let mut e = Encoder::new();
        let log = self.net.deliveries();
        let mut i: usize = 0;
        assert(e@ =~= delivery_bytes(log@, 0));
        while i < log.len()
            invariant
                i <= log@.len(),
                e@ == delivery_bytes(log@, i as nat),
            decreases log@.len() - i,
        {
            let d = log[i];
            e.put_uvarint(d.time);
            e.put_u8(d.tag);
            d.from.encode(&mut e);
            d.to.encode(&mut e);
            i += 1;
            assert(e@ =~= delivery_bytes(log@, i as nat));
        }
        sha256(e.finish().as_slice())
    }
}

/// Whether an entry describes the file at `path` with `manifest`.
pub open spec fn describes(
    h: FileHealth,
    v: ClusterV,
    path: Seq<char>,
    manifest: chunk::ManifestV,
) -> bool {
    &&& h.path@ == path
    &&& h.size == manifest.size
    &&& h.chunk_count == manifest.chunks.len()
    &&& h.min_live_replicas == fewest(v, manifest.chunks, manifest.chunks.len())
}

/// Whether a status says what the cluster is like: the time, every storage node, and the files
/// that the primary knows.
pub open spec fn reports(v: ClusterV, s: Status) -> bool {
    &&& s.clock == v.net.clock
    &&& s.nodes@.len() == v.opts.node_count
    &&& forall|i: int|
        0 <= i < s.nodes@.len() ==> #[trigger] s.nodes@[i] == node_status(v, i as u32)
    &&& match v.primary() {
        None => s.files@.len() == 0,
        Some(p) => file_health(v, p, s.files@),
    }
}

/// Whether the entries describe every file of the primary, in path order.
pub open spec fn file_health(v: ClusterV, primary: u32, out: Seq<FileHealth>) -> bool {
    let files = v.metas[primary as int].ns.files;
    let ks = ordmap::in_order::<String>(files.dom());
    &&& out.len() == ks.len()
    &&& forall|j: int|
        0 <= j < out.len() ==> describes(#[trigger] out[j], v, ks[j], files[ks[j]])
}

} // verus!

//! The metadata service: the namespace, the replicated op-log, and the
//! placement bookkeeping that drives self-healing.
//!
//! One metadata node is the primary. Clients send mutating ops to it. The
//! primary assigns each op a sequence number and replicates it to the backups,
//! committing only when a quorum of metadata nodes have logged it. This is
//! primary-backup replication with a replicated op-log. Reads are served from
//! the primary. Placement of chunk replicas is tracked here so the primary can
//! order re-replication of under-replicated chunks.

use crate::chunk::{self, Manifest, ManifestV};
use crate::message::{
    nothing, routed, routed_view, Message, MessageV, MetaOp, MetaOpV, MetaResult, NodeId,
};
use crate::namespace::{Namespace, NsV};
use crate::ordmap::{self, Dup, OrdMap, OrdSet};
use crate::placement::{self, place};
use crate::wire;
use vstd::prelude::*;

pub use crate::path::normalize;

verus! {

/// A log entry: its sequence number and its operation.
pub struct LogEntry {
    pub seq: u64,
    pub op: MetaOp,
}

/// The mathematical value of a [`LogEntry`].
pub struct LogEntryV {
    pub seq: u64,
    pub op: MetaOpV,
}

/// The value of a log.
pub open spec fn log_view(log: Seq<LogEntry>) -> Seq<LogEntryV> {
    Seq::new(log.len(), |i: int| LogEntryV { seq: log[i].seq, op: log[i].op@ })
}

/// A committed-state snapshot used when promoting a new primary and when
/// catching backups up after role changes.
pub struct MetaSnapshot {
    ns: Namespace,
    log: Vec<LogEntry>,
    next_seq: u64,
    applied_seq: u64,
}

/// The mathematical value of a [`MetaSnapshot`].
pub struct SnapshotV {
    pub ns: NsV,
    pub log: Seq<LogEntryV>,
    pub next_seq: u64,
    pub applied_seq: u64,
}

impl View for MetaSnapshot {
    type V = SnapshotV;

    closed spec fn view(&self) -> SnapshotV {
        SnapshotV {
            ns: self.ns@,
            log: log_view(self.log@),
            next_seq: self.next_seq,
            applied_seq: self.applied_seq,
        }
    }
}

/// An operation that waits for a quorum.
pub struct Pending {
    req_id: u64,
    client: NodeId,
    op: MetaOp,
    acks: OrdSet<u32>,
}

/// The mathematical value of a [`Pending`].
pub struct PendingV {
    pub req_id: u64,
    pub client: NodeId,
    pub op: MetaOpV,
    pub acks: Set<u32>,
}

impl View for Pending {
    type V = PendingV;

    closed spec fn view(&self) -> PendingV {
        PendingV { req_id: self.req_id, client: self.client, op: self.op@, acks: self.acks@ }
    }
}

/// A metadata node. Holds a copy of the namespace and log.
pub struct MetaNode {
    /// Node index.
    pub idx: u32,
    ns: Namespace,
    log: Vec<LogEntry>,
    next_seq: u64,
    applied_seq: u64,
    is_primary: bool,
    meta_quorum: usize,
    peers: Vec<u32>,
    pending: OrdMap<u64, Pending>,
    buffer: OrdMap<u64, MetaOp>,
    // Placement bookkeeping, meaningful on the primary.
    r: usize,
    live_storage: Vec<u32>,
    holders: OrdMap<crate::hash::Hash, OrdSet<u32>>,
}

/// The mathematical value of a [`MetaNode`].
#[verifier::ext_equal]
pub struct MetaV {
    pub idx: u32,
    pub ns: NsV,
    pub log: Seq<LogEntryV>,
    pub next_seq: u64,
    pub applied_seq: u64,
    pub is_primary: bool,
    pub meta_quorum: usize,
    pub peers: Seq<u32>,
    pub pending: Map<u64, PendingV>,
    pub buffer: Map<u64, MetaOpV>,
    pub r: usize,
    pub live_storage: Seq<u32>,
    pub holders: Map<Seq<u8>, Set<u32>>,
}

impl View for MetaNode {
    type V = MetaV;

    closed spec fn view(&self) -> MetaV {
        MetaV {
            idx: self.idx,
            ns: self.ns@,
            log: log_view(self.log@),
            next_seq: self.next_seq,
            applied_seq: self.applied_seq,
            is_primary: self.is_primary,
            meta_quorum: self.meta_quorum,
            peers: self.peers@,
            pending: self.pending@,
            buffer: self.buffer@,
            r: self.r,
            live_storage: self.live_storage@,
            holders: self.holders@,
        }
    }
}

/// The chunk ids that some files refer to.
pub open spec fn referenced(files: Map<Seq<char>, ManifestV>) -> Set<Seq<u8>> {
    Set::new(
        |c: Seq<u8>|
            exists|p: Seq<char>| #[trigger]
                files.dom().contains(p) && files[p].chunks.contains(c),
    )
}

/// The messages that replicate an operation to the first `n` of `peers`, the sender left out.
pub open spec fn replication(
    idx: u32,
    peers: Seq<u32>,
    seq: u64,
    op: MetaOpV,
    n: nat,
) -> Seq<wire::Envelope>
    decreases n,
{
    if n == 0 {
        seq![]
    } else {
        let before = replication(idx, peers, seq, op, (n - 1) as nat);
        if peers[n - 1] == idx {
            before
        } else {
            before.push(
                wire::Envelope {
                    from: NodeId::Meta(idx),
                    to: NodeId::Meta(peers[n - 1]),
                    msg: MessageV::MetaReplicate { seq, op },
                },
            )
        }
    }
}

/// The acknowledgements of some sequence numbers.
pub open spec fn acknowledgements(me: NodeId, to: NodeId, seqs: Seq<u64>) -> Seq<wire::Envelope> {
    Seq::new(
        seqs.len(),
        |i: int|
            wire::Envelope { from: me, to, msg: MessageV::MetaReplicateAck { seq: seqs[i] } },
    )
}

/// A holder's report: `node` holds exactly `chunks`.
pub open spec fn reported(
    holders: Map<Seq<u8>, Set<u32>>,
    node: u32,
    chunks: Seq<Seq<u8>>,
) -> Map<Seq<u8>, Set<u32>> {
    Map::new(
        |id: Seq<u8>| holders.dom().contains(id) || chunks.contains(id),
        |id: Seq<u8>| now_holding(holders, node, chunks, id),
    )
}

/// Who holds a chunk after a report.
pub open spec fn now_holding(
    holders: Map<Seq<u8>, Set<u32>>,
    node: u32,
    chunks: Seq<Seq<u8>>,
    id: Seq<u8>,
) -> Set<u32> {
    let others = holding(holders, id).remove(node);
    if chunks.contains(id) {
        others.insert(node)
    } else {
        others
    }
}

/// Who is known to hold a chunk.
pub open spec fn holding(holders: Map<Seq<u8>, Set<u32>>, id: Seq<u8>) -> Set<u32> {
    if holders.dom().contains(id) {
        holders[id]
    } else {
        Set::empty()
    }
}

impl MetaV {
    /// A fresh node.
    pub open spec fn fresh(idx: u32, meta_quorum: usize, peers: Seq<u32>, r: usize) -> MetaV {
        MetaV {
            idx,
            ns: NsV::fresh(),
            log: Seq::empty(),
            next_seq: 0,
            applied_seq: 0,
            is_primary: false,
            meta_quorum,
            peers,
            pending: Map::empty(),
            buffer: Map::empty(),
            r,
            live_storage: Seq::empty(),
            holders: Map::empty(),
        }
    }

    /// The node's committed state.
    pub open spec fn snapshot(self) -> SnapshotV {
        SnapshotV {
            ns: self.ns,
            log: self.log,
            next_seq: self.next_seq,
            applied_seq: self.applied_seq,
        }
    }

    /// The node with a committed state installed.
    pub open spec fn restored(self, s: SnapshotV) -> MetaV {
        MetaV {
            ns: s.ns,
            log: s.log,
            next_seq: if s.next_seq > self.next_seq {
                s.next_seq
            } else {
                self.next_seq
            },
            applied_seq: s.applied_seq,
            pending: Map::empty(),
            buffer: Map::empty(),
            ..self
        }
    }

    /// The node with one operation applied and logged.
    pub open spec fn logged(self, seq: u64, op: MetaOpV) -> MetaV {
        MetaV { ns: self.ns.applied(op), log: self.log.push(LogEntryV { seq, op }), ..self }
    }

    /// The node after an operation from a client, and what it sends. An operation that is not
    /// allowed is refused; one that a single node may commit is committed; any other waits
    /// for a quorum and goes to the peers. Past the last sequence number nothing is done.
    pub open spec fn submitted(self, from: NodeId, req_id: u64, op: MetaOpV) -> (
        MetaV,
        Seq<wire::Envelope>,
    ) {
        let me = NodeId::Meta(self.idx);
        match self.ns.validated(op) {
            Err(c) => (
                self,
                seq![
                    wire::Envelope {
                        from: me,
                        to: from,
                        msg: MessageV::MetaCommitted { req_id, result: MetaResult::Rejected(c) },
                    },
                ],
            ),
            Ok(_) => if self.next_seq == u64::MAX {
                (self, seq![])
            } else if self.meta_quorum <= 1 {
                (
                    MetaV {
                        next_seq: (self.next_seq + 1) as u64,
                        applied_seq: (self.next_seq + 1) as u64,
                        ..self.logged(self.next_seq, op)
                    },
                    seq![
                        wire::Envelope {
                            from: me,
                            to: from,
                            msg: MessageV::MetaCommitted { req_id, result: MetaResult::Committed },
                        },
                    ],
                )
            } else {
                (
                    MetaV {
                        next_seq: (self.next_seq + 1) as u64,
                        pending: self.pending.insert(
                            self.next_seq,
                            PendingV {
                                req_id,
                                client: from,
                                op,
                                acks: Set::empty().insert(self.idx),
                            },
                        ),
                        ..self
                    },
                    replication(self.idx, self.peers, self.next_seq, op, self.peers.len()),
                )
            },
        }
    }

    /// The node after applying buffered operations for as long as the next one in sequence is
    /// there, and the sequence numbers it applied.
    pub open spec fn caught_up(self) -> (MetaV, Seq<u64>)
        decreases self.buffer.dom().len(),
        when self.buffer.dom().finite()
    {
        if self.buffer.dom().contains(self.applied_seq) && self.applied_seq < u64::MAX {
            let s = self.applied_seq;
            let next = MetaV {
                buffer: self.buffer.remove(s),
                applied_seq: (s + 1) as u64,
                ..self.logged(s, self.buffer[s])
            };
            let (v, seqs) = next.caught_up();
            (v, seq![s] + seqs)
        } else {
            (self, seq![])
        }
    }

    /// The node after a replicated operation, and the acknowledgements it sends: one for each
    /// operation that it has applied by now because of it.
    pub open spec fn replicated(self, from: NodeId, seq: u64, op: MetaOpV) -> (
        MetaV,
        Seq<wire::Envelope>,
    ) {
        let (v, seqs) = (MetaV { buffer: self.buffer.insert(seq, op), ..self }).caught_up();
        (v, acknowledgements(NodeId::Meta(self.idx), from, seqs))
    }

    /// Who has acknowledged an operation once `from` has.
    pub open spec fn acks_with(self, from: NodeId, seq: u64) -> Set<u32> {
        match from {
            NodeId::Meta(i) => self.pending[seq].acks.insert(i),
            _ => self.pending[seq].acks,
        }
    }

    /// The node after an acknowledgement, and what it sends: an operation that a quorum has
    /// acknowledged is applied, logged and confirmed to its client.
    pub open spec fn acknowledged(self, from: NodeId, seq: u64) -> (MetaV, Seq<wire::Envelope>) {
        if !self.pending.dom().contains(seq) {
            (self, seq![])
        } else {
            let p = self.pending[seq];
            let acks = self.acks_with(from, seq);
            if acks.len() >= self.meta_quorum {
                let done = crate::net::later(seq as nat, 1);
                (
                    MetaV {
                        pending: self.pending.remove(seq),
                        applied_seq: if done > self.applied_seq {
                            done
                        } else {
                            self.applied_seq
                        },
                        ..self.logged(seq, p.op)
                    },
                    seq![
                        wire::Envelope {
                            from: NodeId::Meta(self.idx),
                            to: p.client,
                            msg: MessageV::MetaCommitted {
                                req_id: p.req_id,
                                result: MetaResult::Committed,
                            },
                        },
                    ],
                )
            } else {
                (
                    MetaV {
                        pending: self.pending.insert(seq, PendingV { acks, ..p }),
                        ..self
                    },
                    seq![],
                )
            }
        }
    }

    /// Who among the live nodes is known to hold a chunk.
    pub open spec fn live_holders(self, id: Seq<u8>) -> Set<u32> {
        holding(self.holders, id).intersect(self.live_storage.to_set())
    }

    /// The orders that bring one chunk to every node that should hold it: the first live
    /// holder ships it to each desired node that is not known to hold it.
    pub open spec fn orders(self, id: Seq<u8>) -> Seq<wire::Envelope> {
        let live = self.live_holders(id);
        if live.is_empty() {
            seq![]
        } else {
            let source = ordmap::in_order::<u32>(live)[0];
            self.lacking(id).map_values(
                |dest: u32|
                    wire::Envelope {
                        from: NodeId::Meta(self.idx),
                        to: NodeId::Storage(source),
                        msg: MessageV::ReplicateOrder { id, dest },
                    },
            )
        }
    }

    /// The desired holders of a chunk that are not known to hold it.
    pub open spec fn lacking(self, id: Seq<u8>) -> Seq<u32> {
        placement::placed(id, self.live_storage, self.r as nat).filter(
            |n: u32| !holding(self.holders, id).contains(n),
        )
    }

    /// The orders for the first `n` of some chunks.
    pub open spec fn orders_for(self, ids: Seq<Seq<u8>>, n: nat) -> Seq<wire::Envelope>
        decreases n,
    {
        if n == 0 {
            seq![]
        } else {
            self.orders_for(ids, (n - 1) as nat) + self.orders(ids[n - 1])
        }
    }

    /// The orders for every referenced chunk. Only a primary gives any.
    pub open spec fn plan(self) -> Seq<wire::Envelope> {
        if self.is_primary {
            let ids = ordmap::in_order::<crate::hash::Hash>(referenced(self.ns.files));
            self.orders_for(ids, ids.len())
        } else {
            seq![]
        }
    }

    /// The node after a message, and what it sends in response.
    pub open spec fn handled(self, from: NodeId, msg: MessageV) -> (MetaV, Seq<wire::Envelope>) {
        match msg {
            MessageV::MetaQueryMsg { req_id, q } => (
                self,
                seq![
                    wire::Envelope {
                        from: NodeId::Meta(self.idx),
                        to: from,
                        msg: MessageV::MetaQueryResp { req_id, result: self.ns.answered(q) },
                    },
                ],
            ),
            MessageV::MetaOpMsg { req_id, op } => self.submitted(from, req_id, op),
            MessageV::MetaReplicate { seq, op } => self.replicated(from, seq, op),
            MessageV::MetaReplicateAck { seq } => self.acknowledged(from, seq),
            MessageV::Heartbeat { node, chunks } => {
                let v = MetaV { holders: reported(self.holders, node, chunks), ..self };
                (v, v.plan())
            },
            _ => (self, seq![]),
        }
    }
}

fn copy_log(log: &Vec<LogEntry>) -> (r: Vec<LogEntry>)
    ensures
        log_view(r@) == log_view(log@),
{
    let mut out: Vec<LogEntry> = Vec::with_capacity(log.len());
    let mut i: usize = 0;
    while i < log.len()
        invariant
            i <= log@.len(),
            out@.len() == i,
            forall|j: int|
                0 <= j < i ==> (#[trigger] out@[j]).seq == log@[j].seq && out@[j].op@
                    == log@[j].op@,
        decreases log@.len() - i,
    {
        out.push(LogEntry { seq: log[i].seq, op: log[i].op.copy_value() });
        i += 1;
    }
    assert(log_view(out@) =~= log_view(log@));
    out
}

impl MetaSnapshot {
    /// A copy of this snapshot.
    pub fn dup(&self) -> (r: Self)
        ensures
            r@ == self@,
    {
        MetaSnapshot {
            ns: self.ns.dup(),
            log: copy_log(&self.log),
            next_seq: self.next_seq,
            applied_seq: self.applied_seq,
        }
    }
}

/// Add some ids to a set.
pub fn collect_ids(set: &mut OrdSet<crate::hash::Hash>, ids: &Vec<crate::hash::Hash>)
    ensures
        final(set)@ == old(set)@.union(chunk::ids_view(ids@).to_set()),
{
    let ghost iv = chunk::ids_view(ids@);
    let mut i: usize = 0;
    assert(set@ =~= old(set)@.union(iv.take(0).to_set()));
    while i < ids.len()
        invariant
            i <= ids@.len(),
            iv == chunk::ids_view(ids@),
            set@ == old(set)@.union(iv.take(i as int).to_set()),
        decreases ids@.len() - i,
    {
        let _ = set.insert(ids[i]);
        proof {
            assert(iv.take(i + 1) =~= iv.take(i as int).push(iv[i as int]));
            crate::net::lemma_to_set_push(iv.take(i as int), iv[i as int]);
            assert(set@ =~= old(set)@.union(iv.take(i + 1).to_set()));
        }
        i += 1;
    }
    assert(iv.take(iv.len() as int) =~= iv);
}

proof fn lemma_acknowledgements_push(me: NodeId, to: NodeId, seqs: Seq<u64>, s: u64)
    ensures
        acknowledgements(me, to, seqs.push(s)) == acknowledgements(me, to, seqs).push(
            wire::Envelope { from: me, to, msg: MessageV::MetaReplicateAck { seq: s } },
        ),
{
    assert(acknowledgements(me, to, seqs.push(s)) =~= acknowledgements(me, to, seqs).push(
        wire::Envelope { from: me, to, msg: MessageV::MetaReplicateAck { seq: s } },
    ));
}

impl MetaNode {
    /// Create a metadata node.
    pub fn new(idx: u32, meta_quorum: usize, peers: Vec<u32>, r: usize) -> (node: Self)
        ensures
            node@ == MetaV::fresh(idx, meta_quorum, peers@, r),
    {
        let node = MetaNode {
            idx,
            ns: Namespace::new(),
            log: Vec::new(),
            next_seq: 0,
            applied_seq: 0,
            is_primary: false,
            meta_quorum,
            peers,
            pending: OrdMap::new(),
            buffer: OrdMap::new(),
            r,
            live_storage: Vec::new(),
            holders: OrdMap::new(),
        };
        assert(node@ =~= MetaV::fresh(idx, meta_quorum, peers@, r));
        node
    }

    /// Highest applied sequence number, used to pick the most current node on
    /// promotion.
    pub fn applied_seq(&self) -> (r: u64)
        ensures
            r == self@.applied_seq,
    {
        self.applied_seq
    }

    /// Whether this node currently believes it is the primary.
    pub fn is_primary(&self) -> (r: bool)
        ensures
            r == self@.is_primary,
    {
        self.is_primary
    }

    /// A file manifest if present.
    pub fn manifest(&self, path: &str) -> (r: Option<&Manifest>)
        ensures
            match r {
                Some(m) => self@.ns.files.dom().contains(path@) && m@ == self@.ns.files[path@],
                None => !self@.ns.files.dom().contains(path@),
            },
    {
        self.ns.files.get(&path.to_owned())
    }

    /// All chunk ids referenced by any file, in sorted order.
    pub fn referenced_chunks(&self) -> (r: OrdSet<crate::hash::Hash>)
        ensures
            r@ == referenced(self@.ns.files),
    {
        let mut set: OrdSet<crate::hash::Hash> = OrdSet::new();
        let n = self.ns.files.len();
        let ghost files = self.ns.files@;
        let ghost ks = ordmap::in_order::<String>(files.dom());
        let mut i: usize = 0;
        while i < n
            invariant
                i <= n,
                n == ks.len(),
                files == self.ns.files@,
                ks == ordmap::in_order::<String>(files.dom()),
                forall|c: Seq<u8>| #[trigger]
                    set@.contains(c) <==> exists|j: int|
                        0 <= j < i && files[#[trigger] ks[j]].chunks.contains(c),
            decreases n - i,
        {
            let m = self.ns.files.value_at(i);
            let ghost before = set@;
            collect_ids(&mut set, &m.chunks);
            proof {
                assert forall|c: Seq<u8>| #[trigger] set@.contains(c) <==> exists|j: int|
                    0 <= j < i + 1 && files[#[trigger] ks[j]].chunks.contains(c) by {
                    assert(m@.chunks.to_set().contains(c) <==> m@.chunks.contains(c));
                    if before.contains(c) {
                        let j = choose|j: int|
                            0 <= j < i && files[#[trigger] ks[j]].chunks.contains(c);
                        assert(files[ks[j]].chunks.contains(c));
                    }
                    if m@.chunks.contains(c) {
                        assert(files[ks[i as int]].chunks.contains(c));
                    }
                }
            }
            i += 1;
        }
        proof {
            assert forall|c: Seq<u8>| #[trigger] set@.contains(c) <==> referenced(files).contains(
                c,
            ) by {
                if set@.contains(c) {
                    let j = choose|j: int|
                        0 <= j < n && files[#[trigger] ks[j]].chunks.contains(c);
                    assert(ks.to_set().contains(ks[j]));
                    assert(files.dom().contains(ks[j]));
                }
                if referenced(files).contains(c) {
                    let p = choose|p: Seq<char>| #[trigger]
                        files.dom().contains(p) && files[p].chunks.contains(c);
                    assert(ks.to_set().contains(p));
                    let j = choose|j: int| 0 <= j < ks.len() && ks[j] == p;
                    assert(files[ks[j]].chunks.contains(c));
                }
            }
            assert(set@ =~= referenced(files));
        }
        set
    }

    /// The files and directories, for state hashing and status.
    pub fn namespace(&self) -> (r: (&OrdMap<String, Manifest>, &OrdSet<String>))
        ensures
            r.0@ == self@.ns.files,
            r.1@ == self@.ns.dirs,
    {
        (&self.ns.files, &self.ns.dirs)
    }

    /// Configure this node as primary or backup and refresh its peer list.
    pub fn set_role(&mut self, is_primary: bool, peers: Vec<u32>)
        ensures
            final(self)@ == (MetaV { is_primary, peers: peers@, ..old(self)@ }),
    {
        self.is_primary = is_primary;
        self.peers = peers;
    }

    /// Update the live storage set and replication factor for healing decisions.
    pub fn update_membership(&mut self, live: Vec<u32>, r: usize)
        ensures
            final(self)@ == (MetaV { live_storage: live@, r, ..old(self)@ }),
    {
        self.live_storage = live;
        self.r = r;
    }

    /// Export committed state for promotion reconciliation.
    pub fn snapshot(&self) -> (r: MetaSnapshot)
        ensures
            r@ == self@.snapshot(),
    {
        MetaSnapshot {
            ns: self.ns.dup(),
            log: copy_log(&self.log),
            next_seq: self.next_seq,
            applied_seq: self.applied_seq,
        }
    }

    /// Install a snapshot taken from the most current live node when promoting.
    pub fn restore(&mut self, s: MetaSnapshot)
        ensures
            final(self)@ == old(self)@.restored(s@),
    {
        if s.next_seq > self.next_seq {
            self.next_seq = s.next_seq;
        }
        self.applied_seq = s.applied_seq;
        self.ns = s.ns;
        self.log = s.log;
        self.buffer = OrdMap::new();
        self.pending = OrdMap::new();
        assert(self@ =~= old(self)@.restored(s@));
    }

    fn log_op(&mut self, seq: u64, op: MetaOp)
        ensures
            final(self)@ == old(self)@.logged(seq, op@),
    {
        self.ns.apply(&op);
        let ghost before = log_view(self.log@);
        let ghost ov = op@;
        self.log.push(LogEntry { seq, op });
        assert(log_view(self.log@) =~= before.push(LogEntryV { seq, op: ov }));
        assert(self@ =~= old(self)@.logged(seq, ov));
    }

    fn submit(&mut self, from: NodeId, req_id: u64, op: MetaOp) -> (r: Vec<
        (NodeId, NodeId, Message),
    >)
        ensures
            final(self)@ == old(self)@.submitted(from, req_id, op@).0,
            routed_view(r@) == old(self)@.submitted(from, req_id, op@).1,
    {
        let me = NodeId::Meta(self.idx);
        match self.ns.validate(&op) {
            Err(c) => {
                return routed(
                    me,
                    from,
                    Message::MetaCommitted { req_id, result: MetaResult::Rejected(c) },
                );
            },
            Ok(_) => {},
        }
        if self.next_seq == u64::MAX {
            return nothing();
        }
        let seq = self.next_seq;
        if self.meta_quorum <= 1 {
            // Quorum of one: commit immediately.
            self.log_op(seq, op);
            self.next_seq = seq + 1;
            self.applied_seq = seq + 1;
            assert(self@ =~= old(self)@.submitted(from, req_id, op@).0);
            return routed(
                me,
                from,
                Message::MetaCommitted { req_id, result: MetaResult::Committed },
            );
        }
        self.next_seq = seq + 1;
        let mut out: Vec<(NodeId, NodeId, Message)> = Vec::new();
        let mut i: usize = 0;
        assert(routed_view(out@) =~= replication(self@.idx, self@.peers, seq, op@, 0));
        while i < self.peers.len()
            invariant
                i <= self.peers@.len(),
                me == NodeId::Meta(self@.idx),
                self.idx == self@.idx,
                self@ == (MetaV { next_seq: (seq + 1) as u64, ..old(self)@ }),
                self.peers@ == self@.peers,
                routed_view(out@) == replication(self@.idx, self@.peers, seq, op@, i as nat),
            decreases self.peers@.len() - i,
        {
            let p = self.peers[i];
            if p != self.idx {
                let ghost before = routed_view(out@);
                let msg = Message::MetaReplicate { seq, op: op.copy_value() };
                out.push((me, NodeId::Meta(p), msg));
                assert(routed_view(out@) =~= before.push(
                    wire::Envelope { from: me, to: NodeId::Meta(p), msg: msg@ },
                ));
            }
            i += 1;
        }
        let mut acks: OrdSet<u32> = OrdSet::new();
        let _ = acks.insert(self.idx);
        self.pending.insert(seq, Pending { req_id, client: from, op, acks });
        assert(self@ =~= old(self)@.submitted(from, req_id, op@).0);
        out
    }

    fn accept(&mut self, from: NodeId, seq: u64, op: MetaOp) -> (r: Vec<(NodeId, NodeId, Message)>)
        ensures
            final(self)@ == old(self)@.replicated(from, seq, op@).0,
            routed_view(r@) == old(self)@.replicated(from, seq, op@).1,
    {
        let me = NodeId::Meta(self.idx);
        self.buffer.insert(seq, op);
        let ghost start = self@;
        assert(start =~= (MetaV { buffer: old(self)@.buffer.insert(seq, op@), ..old(self)@ }));
        // Apply as far through the log as the buffer allows, then
        // acknowledge only the sequence numbers that are now durably
        // applied here. Acknowledging an op that is merely buffered
        // (because an earlier op is missing) would let a commit
        // quorum form without a second node holding the op, so one
        // primary crash could lose a committed write.
        let mut out: Vec<(NodeId, NodeId, Message)> = Vec::new();
        let ghost seqs: Seq<u64> = seq![];
        assert(routed_view(out@) =~= acknowledgements(me, from, seqs));
        proof {
            self.buffer.lemma_finite();
            assert(start.caught_up().1 =~= seqs + self@.caught_up().1);
        }
        loop
            invariant
                me == NodeId::Meta(old(self)@.idx),
                self@.buffer == self.buffer@,
                self@.applied_seq == self.applied_seq,
                self@.buffer.dom().finite(),
                start.caught_up().0 == self@.caught_up().0,
                start.caught_up().1 == seqs + self@.caught_up().1,
                routed_view(out@) == acknowledgements(me, from, seqs),
            ensures
                self@ == start.caught_up().0,
                routed_view(out@) == acknowledgements(me, from, start.caught_up().1),
            decreases self@.buffer.dom().len(),
        {
            let s = self.applied_seq;
            let ghost before = self@;
            if s == u64::MAX {
                assert(seqs + Seq::<u64>::empty() =~= seqs);
                break;
            }
            match self.buffer.remove(&s) {
                None => {
                    assert(self@ =~= before);
                    assert(seqs + Seq::<u64>::empty() =~= seqs);
                    break;
                },
                Some(next) => {
                    self.log_op(s, next);
                    self.applied_seq = s + 1;
                    let ghost step = MetaV {
                        buffer: before.buffer.remove(s),
                        applied_seq: (s + 1) as u64,
                        ..before.logged(s, before.buffer[s])
                    };
                    assert(self@ =~= step);
                    let ghost acked = routed_view(out@);
                    out.push((me, from, Message::MetaReplicateAck { seq: s }));
                    proof {
                        lemma_acknowledgements_push(me, from, seqs, s);
                        assert(routed_view(out@) =~= acked.push(
                            wire::Envelope {
                                from: me,
                                to: from,
                                msg: MessageV::MetaReplicateAck { seq: s },
                            },
                        ));
                        let rest = step.caught_up().1;
                        assert(before.caught_up().1 == seq![s] + rest);
                        assert(seqs + (seq![s] + rest) =~= seqs.push(s) + rest);
                        seqs = seqs.push(s);
                    }
                },
            }
        }
        out
    }

    fn acknowledge(&mut self, from: NodeId, seq: u64) -> (r: Vec<(NodeId, NodeId, Message)>)
        ensures
            final(self)@ == old(self)@.acknowledged(from, seq).0,
            routed_view(r@) == old(self)@.acknowledged(from, seq).1,
    {
        let me = NodeId::Meta(self.idx);
        match self.pending.remove(&seq) {
            None => {
                assert(self@ =~= old(self)@);
                nothing()
            },
            Some(waiting) => {
                let mut p = waiting;
                match from {
                    NodeId::Meta(i) => {
                        let _ = p.acks.insert(i);
                    },
                    _ => {},
                }
                assert(p.acks@ == old(self)@.acks_with(from, seq));
                if p.acks.len() >= self.meta_quorum {
                    let Pending { req_id, client, op, acks: _ } = p;
                    self.log_op(seq, op);
                    let done = seq.saturating_add(1);
                    if done > self.applied_seq {
                        self.applied_seq = done;
                    }
                    assert(self@ =~= old(self)@.acknowledged(from, seq).0);
                    routed(
                        me,
                        client,
                        Message::MetaCommitted { req_id, result: MetaResult::Committed },
                    )
                } else {
                    self.pending.insert(seq, p);
                    assert(self@.pending =~= old(self)@.acknowledged(from, seq).0.pending);
                    assert(self@ =~= old(self)@.acknowledged(from, seq).0);
                    nothing()
                }
            },
        }
    }

    fn forget_holder(&mut self, node: u32)
        ensures
            final(self)@ == (MetaV {
                holders: reported(old(self)@.holders, node, seq![]),
                ..old(self)@
            }),
    {
        let n = self.holders.len();
        let ghost before = self.holders@;
        let ghost ks = ordmap::in_order::<crate::hash::Hash>(before.dom());
        let mut next: OrdMap<crate::hash::Hash, OrdSet<u32>> = OrdMap::new();
        let mut i: usize = 0;
        assert(next@.dom() =~= ks.take(0).to_set());
        while i < n
            invariant
                i <= n,
                n == ks.len(),
                before == self.holders@,
                ks == ordmap::in_order::<crate::hash::Hash>(before.dom()),
                ks.to_set() == before.dom(),
                next@.dom() == ks.take(i as int).to_set(),
                forall|id: Seq<u8>| #[trigger]
                    next@.dom().contains(id) ==> next@[id] == before[id].remove(node),
            decreases n - i,
        {
            let id = *self.holders.key_at(i);
            let mut set = self.holders.value_at(i).dup();
            let _ = set.remove(&node);
            next.insert(id, set);
            proof {
                assert(ks.take(i + 1) =~= ks.take(i as int).push(id@));
                crate::net::lemma_to_set_push(ks.take(i as int), id@);
            }
            i += 1;
        }
        proof {
            assert(ks.take(n as int) =~= ks);
            let want = reported(before, node, seq![]);
            assert(next@.dom() =~= want.dom());
            assert(next@ =~= want);
        }
        self.holders = next;
        assert(self@ =~= (MetaV {
            holders: reported(old(self)@.holders, node, seq![]),
            ..old(self)@
        }));
    }

    fn refresh_holder(&mut self, node: u32, chunks: &Vec<crate::hash::Hash>)
        ensures
            final(self)@ == (MetaV {
                holders: reported(old(self)@.holders, node, chunk::ids_view(chunks@)),
                ..old(self)@
            }),
    {
        self.forget_holder(node);
        let ghost start = old(self)@.holders;
        let ghost ids = chunk::ids_view(chunks@);
        let mut i: usize = 0;
        assert(ids.take(0) =~= seq![]);
        while i < chunks.len()
            invariant
                i <= chunks@.len(),
                ids == chunk::ids_view(chunks@),
                start == old(self)@.holders,
                self@ == (MetaV {
                    holders: reported(start, node, ids.take(i as int)),
                    ..old(self)@
                }),
            decreases chunks@.len() - i,
        {
            let ghost now = self.holders@;
            let mut set = match self.holders.remove(&chunks[i]) {
                Some(s) => s,
                None => OrdSet::new(),
            };
            let _ = set.insert(node);
            self.holders.insert(chunks[i], set);
            proof {
                let id = ids[i as int];
                let want = reported(start, node, ids.take(i + 1));
                assert(ids.take(i + 1) =~= ids.take(i as int).push(id));
                assert(now == reported(start, node, ids.take(i as int)));
                assert forall|x: Seq<u8>| #[trigger]
                    self.holders@.dom().contains(x) <==> want.dom().contains(x) by {
                    crate::net::lemma_push_contains(ids.take(i as int), id, x);
                }
                assert(self.holders@.dom() =~= want.dom());
                assert forall|x: Seq<u8>| #[trigger]
                    self.holders@.dom().contains(x) implies self.holders@[x] == want[x] by {
                    crate::net::lemma_push_contains(ids.take(i as int), id, x);
                    if x == id {
                        assert(self.holders@[x] =~= now_holding(start, node, ids.take(i + 1), x));
                    } else {
                        assert(now.dom().contains(x));
                        assert(self.holders@[x] == now[x]);
                    }
                }
                assert(self.holders@ =~= want);
                assert(self@ =~= (MetaV {
                    holders: reported(start, node, ids.take(i + 1)),
                    ..old(self)@
                }));
            }
            i += 1;
        }
        assert(ids.take(ids.len() as int) =~= ids);
    }

    fn live_holders_of(&self, id: &crate::hash::Hash, live: &OrdSet<u32>) -> (r: OrdSet<u32>)
        requires
            live@ == self@.live_storage.to_set(),
        ensures
            r@ == self@.live_holders(id@),
    {
        let mut out: OrdSet<u32> = OrdSet::new();
        match self.holders.get(id) {
            None => {
                assert(out@ =~= self@.live_holders(id@));
            },
            Some(set) => {
                let n = set.len();
                let ghost ks = ordmap::in_order::<u32>(set@);
                let mut i: usize = 0;
                while i < n
                    invariant
                        i <= n,
                        n == ks.len(),
                        ks == ordmap::in_order::<u32>(set@),
                        forall|x: u32| #[trigger]
                            out@.contains(x) <==> live@.contains(x) && ks.take(i as int).contains(
                                x,
                            ),
                    decreases n - i,
                {
                    let h = *set.at(i);
                    proof {
                        assert(ks.take(i + 1) =~= ks.take(i as int).push(h));
                        assert forall|x: u32|
                            ks.take(i + 1).contains(x) <==> (ks.take(i as int).contains(x) || x
                                == h) by {
                            crate::net::lemma_push_contains(ks.take(i as int), h, x);
                        }
                    }
                    if live.contains(&h) {
                        let _ = out.insert(h);
                    }
                    i += 1;
                }
                proof {
                    assert(ks.take(n as int) =~= ks);
                    assert forall|x: u32| #[trigger] out@.contains(x) <==> self@.live_holders(
                        id@,
                    ).contains(x) by {
                        assert(ks.contains(x) <==> ks.to_set().contains(x));
                    }
                    assert(out@ =~= self@.live_holders(id@));
                }
            },
        }
        out
    }

    fn order_copies(
        &self,
        id: &crate::hash::Hash,
        live: &OrdSet<u32>,
        out: &mut Vec<(NodeId, NodeId, Message)>,
    )
        requires
            live@ == self@.live_storage.to_set(),
        ensures
            routed_view(final(out)@) == routed_view(old(out)@) + self@.orders(id@),
    {
        let alive = self.live_holders_of(id, live);
        let n = alive.len();
        if n == 0 {
            proof {
                assert(alive@ =~= Set::empty()) by {
                    alive@.lemma_len0_is_empty();
                }
                assert(routed_view(out@) =~= routed_view(old(out)@) + self@.orders(id@));
            }
            return;
        }
        let source = *alive.at(0);
        assert(!self@.live_holders(id@).is_empty());
        let me = NodeId::Meta(self.idx);
        let none: OrdSet<u32> = OrdSet::new();
        let holders = match self.holders.get(id) {
            Some(s) => s,
            None => &none,
        };
        assert(holders@ == holding(self@.holders, id@));
        let desired = place(id, self.live_storage.as_slice(), self.r);
        let ghost keep = |n: u32| !holding(self@.holders, id@).contains(n);
        let ghost order = |dest: u32|
            wire::Envelope {
                from: me,
                to: NodeId::Storage(source),
                msg: MessageV::ReplicateOrder { id: id@, dest },
            };
        let ghost start = routed_view(out@);
        let mut i: usize = 0;
        assert(desired@.take(0).filter(keep).map_values(order) =~= seq![]);
        assert(routed_view(out@) =~= start + desired@.take(0).filter(keep).map_values(order));
        while i < desired.len()
            invariant
                i <= desired@.len(),
                holders@ == holding(self@.holders, id@),
                keep == (|n: u32| !holding(self@.holders, id@).contains(n)),
                order == (|dest: u32|
                    wire::Envelope {
                        from: me,
                        to: NodeId::Storage(source),
                        msg: MessageV::ReplicateOrder { id: id@, dest },
                    }),
                routed_view(out@) == start + desired@.take(i as int).filter(keep).map_values(order),
            decreases desired@.len() - i,
        {
            let dest = desired[i];
            let ghost before = routed_view(out@);
            proof {
                crate::namespace::lemma_filter_step(desired@, i as int, keep);
            }
            if !holders.contains(&dest) {
                out.push((me, NodeId::Storage(source), Message::ReplicateOrder { id: *id, dest }));
                proof {
                    let old_part = desired@.take(i as int).filter(keep);
                    assert(old_part.push(dest).map_values(order) =~= old_part.map_values(
                        order,
                    ).push(order(dest)));
                    assert(routed_view(out@) =~= before.push(order(dest)));
                    assert(routed_view(out@) =~= start + old_part.push(dest).map_values(order));
                }
            }
            i += 1;
        }
        proof {
            assert(desired@.take(desired@.len() as int) =~= desired@);
            assert(self@.orders(id@) =~= self@.lacking(id@).map_values(order));
        }
    }

    /// For every under-replicated referenced chunk, order a live holder to copy
    /// it to a desired node that lacks it.
    fn plan_replication(&self) -> (r: Vec<(NodeId, NodeId, Message)>)
        ensures
            routed_view(r@) == self@.plan(),
    {
        if !self.is_primary {
            return nothing();
        }
        let mut live: OrdSet<u32> = OrdSet::new();
        let mut j: usize = 0;
        assert(live@ =~= self.live_storage@.take(0).to_set());
        while j < self.live_storage.len()
            invariant
                j <= self.live_storage@.len(),
                live@ == self.live_storage@.take(j as int).to_set(),
            decreases self.live_storage@.len() - j,
        {
            let _ = live.insert(self.live_storage[j]);
            proof {
                let s = self.live_storage@;
                assert(s.take(j + 1) =~= s.take(j as int).push(s[j as int]));
                crate::net::lemma_to_set_push(s.take(j as int), s[j as int]);
            }
            j += 1;
        }
        assert(self.live_storage@.take(self.live_storage@.len() as int) =~= self.live_storage@);
        let chunks = self.referenced_chunks();
        let n = chunks.len();
        let ghost ids = ordmap::in_order::<crate::hash::Hash>(chunks@);
        let mut out = nothing();
        let mut i: usize = 0;
        while i < n
            invariant
                i <= n,
                n == ids.len(),
                ids == ordmap::in_order::<crate::hash::Hash>(chunks@),
                live@ == self@.live_storage.to_set(),
                routed_view(out@) == self@.orders_for(ids, i as nat),
            decreases n - i,
        {
            let id = chunks.at(i);
            self.order_copies(id, &live, &mut out);
            i += 1;
        }
        out
    }

    /// Handle one message. Returns (from, to, message) tuples to send.
    pub fn handle(&mut self, from: NodeId, msg: Message) -> (r: Vec<(NodeId, NodeId, Message)>)
        ensures
            final(self)@ == old(self)@.handled(from, msg@).0,
            routed_view(r@) == old(self)@.handled(from, msg@).1,
    {
        match msg {
            Message::MetaQueryMsg { req_id, q } => {
                let result = self.ns.answer(&q);
                routed(NodeId::Meta(self.idx), from, Message::MetaQueryResp { req_id, result })
            },
            Message::MetaOpMsg { req_id, op } => self.submit(from, req_id, op),
            Message::MetaReplicate { seq, op } => self.accept(from, seq, op),
            Message::MetaReplicateAck { seq } => self.acknowledge(from, seq),
            Message::Heartbeat { node, chunks } => {
                self.refresh_holder(node, &chunks);
                self.plan_replication()
            },
            _ => nothing(),
        }
    }
}

/// Catching up applies the buffered operations from the next one on without a gap, and logs
/// each.
pub proof fn lemma_caught_up(v: MetaV)
    requires
        v.buffer.dom().finite(),
    ensures
        v.caught_up().0.idx == v.idx,
        v.caught_up().0.applied_seq == v.applied_seq + v.caught_up().1.len(),
        v.caught_up().0.log.len() == v.log.len() + v.caught_up().1.len(),
        v.caught_up().0.buffer.dom().finite(),
        v.caught_up().0.buffer.dom().subset_of(v.buffer.dom()),
        forall|i: int| 0 <= i < v.log.len() ==> #[trigger] v.caught_up().0.log[i] == v.log[i],
        forall|i: int|
            0 <= i < v.caught_up().1.len() ==> {
                &&& (#[trigger] v.caught_up().1[i]) == v.applied_seq + i
                &&& v.buffer.dom().contains(v.caught_up().1[i])
                &&& v.caught_up().0.log[v.log.len() + i] == LogEntryV {
                    seq: v.caught_up().1[i],
                    op: v.buffer[v.caught_up().1[i]],
                }
            },
        v.caught_up().0 == (MetaV {
            ns: v.caught_up().0.ns,
            log: v.caught_up().0.log,
            applied_seq: v.caught_up().0.applied_seq,
            buffer: v.caught_up().0.buffer,
            ..v
        }),
    decreases v.buffer.dom().len(),
{
    if v.buffer.dom().contains(v.applied_seq) && v.applied_seq < u64::MAX {
        let s = v.applied_seq;
        let next = MetaV {
            buffer: v.buffer.remove(s),
            applied_seq: (s + 1) as u64,
            ..v.logged(s, v.buffer[s])
        };
        lemma_caught_up(next);
        let r = v.caught_up();
        let n = next.caught_up();
        assert(r.1 == seq![s] + n.1);
        assert forall|i: int| 0 <= i < v.log.len() implies #[trigger] r.0.log[i] == v.log[i] by {
            assert(next.log[i] == v.log[i]);
            assert(n.0.log[i] == next.log[i]);
        }
        assert forall|i: int| 0 <= i < r.1.len() implies {
            &&& (#[trigger] r.1[i]) == v.applied_seq + i
            &&& v.buffer.dom().contains(r.1[i])
            &&& r.0.log[v.log.len() + i] == LogEntryV { seq: r.1[i], op: v.buffer[r.1[i]] }
        } by {
            if i > 0 {
                assert(r.1[i] == n.1[i - 1]);
                assert(n.0.log[next.log.len() + (i - 1)] == LogEntryV {
                    seq: n.1[i - 1],
                    op: next.buffer[n.1[i - 1]],
                });
            } else {
                assert(next.log[v.log.len() as int] == LogEntryV { seq: s, op: v.buffer[s] });
                assert(n.0.log[v.log.len() as int] == next.log[v.log.len() as int]);
            }
        }
    }
}

/// A backup acknowledges an operation only once it has applied and logged it.
pub proof fn law_acknowledged_is_applied(v: MetaV, from: NodeId, seq: u64, op: MetaOpV, i: int)
    requires
        v.buffer.dom().finite(),
        0 <= i < v.replicated(from, seq, op).1.len(),
    ensures
        v.replicated(from, seq, op).1[i].to == from,
        v.replicated(from, seq, op).1[i].msg matches MessageV::MetaReplicateAck { seq: s } ==> {
            &&& v.applied_seq <= s < v.replicated(from, seq, op).0.applied_seq
            &&& exists|j: int|
                0 <= j < v.replicated(from, seq, op).0.log.len() && (#[trigger] v.replicated(
                    from,
                    seq,
                    op,
                ).0.log[j]).seq == s
        },
        v.replicated(from, seq, op).1[i].msg is MetaReplicateAck,
{
    let w = MetaV { buffer: v.buffer.insert(seq, op), ..v };
    lemma_caught_up(w);
    let s = w.caught_up().1[i];
    assert(w.caught_up().0.log[w.log.len() + i].seq == s);
}

/// An operation that only waits behind a missing one is not acknowledged, and nothing is
/// applied.
pub proof fn law_buffered_is_not_acknowledged(v: MetaV, from: NodeId, seq: u64, op: MetaOpV)
    requires
        v.buffer.dom().finite(),
        !v.buffer.dom().contains(v.applied_seq),
        seq != v.applied_seq,
    ensures
        v.replicated(from, seq, op).1.len() == 0,
        v.replicated(from, seq, op).0.ns == v.ns,
        v.replicated(from, seq, op).0.log == v.log,
{
}

/// A refused operation leaves the node as it was, and the client is told why.
pub proof fn law_refused_changes_nothing(v: MetaV, from: NodeId, req_id: u64, op: MetaOpV)
    requires
        v.ns.validated(op) is Err,
    ensures
        v.submitted(from, req_id, op).0 == v,
        v.submitted(from, req_id, op).1 == seq![
            wire::Envelope {
                from: NodeId::Meta(v.idx),
                to: from,
                msg: MessageV::MetaCommitted {
                    req_id,
                    result: MetaResult::Rejected(v.ns.validated(op)->Err_0),
                },
            },
        ],
{
}

/// A client hears that its operation committed only when a quorum has acknowledged it, and by
/// then the operation is applied and logged.
pub proof fn law_commit_needs_quorum(v: MetaV, from: NodeId, seq: u64)
    requires
        v.acknowledged(from, seq).1.len() > 0,
    ensures
        v.pending.dom().contains(seq),
        v.acks_with(from, seq).len() >= v.meta_quorum,
        v.acknowledged(from, seq).0.ns == v.ns.applied(v.pending[seq].op),
        v.acknowledged(from, seq).0.log.last() == (LogEntryV { seq, op: v.pending[seq].op }),
        v.acknowledged(from, seq).1 == seq![
            wire::Envelope {
                from: NodeId::Meta(v.idx),
                to: v.pending[seq].client,
                msg: MessageV::MetaCommitted {
                    req_id: v.pending[seq].req_id,
                    result: MetaResult::Committed,
                },
            },
        ],
{
}

/// Until a quorum has acknowledged it, an operation changes neither namespace nor log.
pub proof fn law_no_commit_below_quorum(v: MetaV, from: NodeId, seq: u64)
    requires
        v.pending.dom().contains(seq) ==> v.acks_with(from, seq).len() < v.meta_quorum,
    ensures
        v.acknowledged(from, seq).0.ns == v.ns,
        v.acknowledged(from, seq).0.log == v.log,
        v.acknowledged(from, seq).1.len() == 0,
{
}

/// A node that installs a snapshot has the committed state of the node it came from, and
/// waits for nothing.
pub proof fn law_restore_adopts_state(v: MetaV, best: MetaV)
    ensures
        v.restored(best.snapshot()).ns == best.ns,
        v.restored(best.snapshot()).log == best.log,
        v.restored(best.snapshot()).applied_seq == best.applied_seq,
        v.restored(best.snapshot()).next_seq >= best.next_seq,
        v.restored(best.snapshot()).next_seq >= v.next_seq,
        v.restored(best.snapshot()).pending.dom().is_empty(),
        v.restored(best.snapshot()).buffer.dom().is_empty(),
{
}

/// A report replaces what was known of the reporting node and of no other.
pub proof fn law_report_replaces_one_node(
    holders: Map<Seq<u8>, Set<u32>>,
    node: u32,
    chunks: Seq<Seq<u8>>,
    id: Seq<u8>,
    other: u32,
)
    ensures
        holding(reported(holders, node, chunks), id).contains(node) <==> chunks.contains(id),
        other != node ==> (holding(reported(holders, node, chunks), id).contains(other) <==> holding(
            holders,
            id,
        ).contains(other)),
{
}

/// Every order of the plan for one chunk goes to a live holder and names a desired node that
/// is not known to hold the chunk; and every such node is named when there is a live holder.
pub proof fn law_orders_fill_gaps(v: MetaV, id: Seq<u8>)
    requires
        holding(v.holders, id).finite(),
    ensures
        forall|i: int|
            0 <= i < v.orders(id).len() ==> {
                &&& (#[trigger] v.orders(id)[i]).to matches NodeId::Storage(s) && v.live_holders(
                    id,
                ).contains(s)
                &&& v.orders(id)[i].msg matches MessageV::ReplicateOrder { id: c, dest } && c == id
                    && !holding(v.holders, id).contains(dest) && placement::placed(
                    id,
                    v.live_storage,
                    v.r as nat,
                ).contains(dest)
            },
        forall|dest: u32|
            !v.live_holders(id).is_empty() && !holding(v.holders, id).contains(dest)
                && #[trigger] placement::placed(id, v.live_storage, v.r as nat).contains(dest)
                ==> exists|i: int|
                0 <= i < v.orders(id).len() && (#[trigger] v.orders(id)[i]).msg
                    == (MessageV::ReplicateOrder { id, dest }),
{
    let live = v.live_holders(id);
    if !live.is_empty() {
        assert(live.finite());
        ordmap::lemma_order_of::<u32>(live);
        let ks = ordmap::in_order::<u32>(live);
        assert(ks.len() > 0) by {
            let x = live.choose();
            assert(ks.to_set().contains(x));
        }
        assert(ks.to_set().contains(ks[0]));
        let all = placement::placed(id, v.live_storage, v.r as nat);
        let keep = |n: u32| !holding(v.holders, id).contains(n);
        let l = v.lacking(id);
        lemma_filter_members(all, keep);
        assert forall|i: int| 0 <= i < v.orders(id).len() implies {
            &&& (#[trigger] v.orders(id)[i]).to matches NodeId::Storage(s) && v.live_holders(
                id,
            ).contains(s)
            &&& v.orders(id)[i].msg matches MessageV::ReplicateOrder { id: c, dest } && c == id
                && !holding(v.holders, id).contains(dest) && all.contains(dest)
        } by {
            assert(l.contains(l[i]));
        }
        assert forall|dest: u32|
            !holding(v.holders, id).contains(dest) && #[trigger] all.contains(
                dest,
            ) implies exists|i: int|
            0 <= i < v.orders(id).len() && (#[trigger] v.orders(id)[i]).msg == (
            MessageV::ReplicateOrder { id, dest }) by {
            assert(l.contains(dest));
            let i = choose|i: int| 0 <= i < l.len() && l[i] == dest;
            assert(v.orders(id)[i].msg == (MessageV::ReplicateOrder { id, dest }));
        }
    }
}

/// The members that pass a filter.
pub proof fn lemma_filter_members<A>(s: Seq<A>, f: spec_fn(A) -> bool)
    ensures
        forall|x: A| #[trigger] s.filter(f).contains(x) <==> s.contains(x) && f(x),
    decreases s.len(),
{
    reveal(Seq::filter);
    if s.len() > 0 {
        let front = s.drop_last();
        lemma_filter_members(front, f);
        assert forall|x: A| #[trigger] s.filter(f).contains(x) <==> s.contains(x) && f(x) by {
            crate::net::lemma_push_contains(front, s.last(), x);
            assert(front.push(s.last()) =~= s);
            crate::net::lemma_push_contains(front.filter(f), s.last(), x);
            assert(front.filter(f).contains(x) <==> front.contains(x) && f(x));
        }
    } else {
        assert(s.filter(f) =~= s);
    }
}

} // verus!

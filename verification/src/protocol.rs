//! What the client's operations do to the cluster, step by step.

use crate::chunk::{self, ChunkV, ManifestV};
use crate::erasure::{self, Erasure};
use crate::error::ErrorV;
use crate::hash;
use crate::message::{
    self, DirEntryV, MessageV, MetaOpV, MetaResult, NodeId, QueryResultV, QueryV, StatInfoV,
};
use crate::net;
use crate::ordmap;
use crate::path;
use crate::placement;
use crate::simulation::{self, ClusterV, Letter};
use crate::text;
use crate::wire;
use vstd::prelude::*;

verus! {

/// The outcome of the operation `req` among the first `n` letters.
pub open spec fn commit_among(inbox: Seq<Letter>, req: u64, n: nat) -> Option<MetaResult>
    decreases n,
{
    if n == 0 {
        None
    } else {
        match commit_among(inbox, req, (n - 1) as nat) {
            Some(r) => Some(r),
            None => match inbox[n - 1].msg {
                MessageV::MetaCommitted { req_id, result } => if req_id == req {
                    Some(result)
                } else {
                    None
                },
                _ => None,
            },
        }
    }
}

/// The answer to the query `req` among the first `n` letters.
pub open spec fn answer_among(inbox: Seq<Letter>, req: u64, n: nat) -> Option<QueryResultV>
    decreases n,
{
    if n == 0 {
        None
    } else {
        match answer_among(inbox, req, (n - 1) as nat) {
            Some(r) => Some(r),
            None => match inbox[n - 1].msg {
                MessageV::MetaQueryResp { req_id, result } => if req_id == req {
                    Some(result)
                } else {
                    None
                },
                _ => None,
            },
        }
    }
}

/// Who acknowledged which chunk, after the first `n` letters.
pub open spec fn acks_after(
    acks: Map<Seq<u8>, Set<u32>>,
    inbox: Seq<Letter>,
    n: nat,
) -> Map<Seq<u8>, Set<u32>>
    decreases n,
{
    if n == 0 {
        acks
    } else {
        let before = acks_after(acks, inbox, (n - 1) as nat);
        match (inbox[n - 1].from, inbox[n - 1].msg) {
            (NodeId::Storage(i), MessageV::StoreAck { id }) => noted(before, id, i),
            _ => before,
        }
    }
}

/// The nodes noted for an id.
pub open spec fn noted_for(m: Map<Seq<u8>, Set<u32>>, id: Seq<u8>) -> Set<u32> {
    if m.dom().contains(id) {
        m[id]
    } else {
        Set::empty()
    }
}

/// One more node noted for an id.
pub open spec fn noted(m: Map<Seq<u8>, Set<u32>>, id: Seq<u8>, i: u32) -> Map<
    Seq<u8>,
    Set<u32>,
> {
    m.insert(id, noted_for(m, id).insert(i))
}

/// Whether every one of some chunks has a quorum of acknowledgements.
pub open spec fn quorum_met(acks: Map<Seq<u8>, Set<u32>>, ids: Seq<Seq<u8>>, quorum: nat) -> bool {
    forall|i: int| 0 <= i < ids.len() ==> noted_for(acks, #[trigger] ids[i]).len() >= quorum
}

/// The fewest acknowledgements among the first `n` of some chunks, zero for none.
pub open spec fn fewest_acks(acks: Map<Seq<u8>, Set<u32>>, ids: Seq<Seq<u8>>, n: nat) -> nat
    decreases n,
{
    if n == 0 {
        0
    } else if n == 1 {
        noted_for(acks, ids[0]).len()
    } else {
        let m = fewest_acks(acks, ids, (n - 1) as nat);
        let c = noted_for(acks, ids[n - 1]).len();
        if c < m {
            c
        } else {
            m
        }
    }
}

/// The distinct chunks among the first `n`, each with the bytes of its first occurrence.
pub open spec fn distinct_chunks(chunks: Seq<ChunkV>, n: nat) -> Map<Seq<u8>, Seq<u8>>
    decreases n,
{
    if n == 0 {
        Map::empty()
    } else {
        let before = distinct_chunks(chunks, (n - 1) as nat);
        let c = chunks[n - 1];
        if before.dom().contains(c.id) {
            before
        } else {
            before.insert(c.id, c.data)
        }
    }
}

/// The message that hands a chunk to a storage node.
pub open spec fn store_msg(node: u32, id: Seq<u8>, data: Seq<u8>) -> wire::Envelope {
    wire::Envelope {
        from: NodeId::Client,
        to: NodeId::Storage(node),
        msg: MessageV::StoreChunk { id, data },
    }
}

/// The message that asks a storage node for a chunk.
pub open spec fn fetch_msg(node: u32, id: Seq<u8>) -> wire::Envelope {
    wire::Envelope {
        from: NodeId::Client,
        to: NodeId::Storage(node),
        msg: MessageV::FetchChunk { id },
    }
}

/// The messages that hand the first `n` of some chunks to the nodes they are placed on.
pub open spec fn store_msgs(
    data: Map<Seq<u8>, Seq<u8>>,
    ids: Seq<Seq<u8>>,
    live: Seq<u32>,
    r: nat,
    n: nat,
) -> Seq<wire::Envelope>
    decreases n,
{
    if n == 0 {
        seq![]
    } else {
        let id = ids[n - 1];
        store_msgs(data, ids, live, r, (n - 1) as nat) + placement::placed(id, live, r).map_values(
            |node: u32| store_msg(node, id, data[id]),
        )
    }
}

/// The messages that ask every live node for the first `n` of some chunks.
pub open spec fn fetch_msgs(ids: Seq<Seq<u8>>, live: Seq<u32>, n: nat) -> Seq<wire::Envelope>
    decreases n,
{
    if n == 0 {
        seq![]
    } else {
        let id = ids[n - 1];
        fetch_msgs(ids, live, (n - 1) as nat) + live.map_values(|node: u32| fetch_msg(node, id))
    }
}

/// What a read has gathered: verified bytes, who sent them, and who lacks a chunk.
#[verifier::ext_equal]
pub struct Gathered {
    pub have: Map<Seq<u8>, Seq<u8>>,
    pub sources: Map<Seq<u8>, Set<u32>>,
    pub missing: Map<Seq<u8>, Set<u32>>,
}

impl Gathered {
    /// Nothing yet.
    pub open spec fn nothing() -> Gathered {
        Gathered { have: Map::empty(), sources: Map::empty(), missing: Map::empty() }
    }

    /// After one letter: bytes that hash to their id are kept, the first copy staying; any
    /// other answer marks its sender as lacking the chunk.
    pub open spec fn with(self, l: Letter) -> Gathered {
        match l.msg {
            MessageV::ChunkData { id, data } => {
                let good = data matches Some(d) && hash::digest(d) == id;
                if good {
                    Gathered {
                        have: if self.have.dom().contains(id) {
                            self.have
                        } else {
                            self.have.insert(id, data->Some_0)
                        },
                        sources: match l.from {
                            NodeId::Storage(i) => noted(self.sources, id, i),
                            _ => self.sources,
                        },
                        ..self
                    }
                } else {
                    match l.from {
                        NodeId::Storage(i) => Gathered {
                            missing: noted(self.missing, id, i),
                            ..self
                        },
                        _ => self,
                    }
                }
            },
            _ => self,
        }
    }

    /// After the first `n` letters.
    pub open spec fn with_all(self, inbox: Seq<Letter>, n: nat) -> Gathered
        decreases n,
    {
        if n == 0 {
            self
        } else {
            self.with_all(inbox, (n - 1) as nat).with(inbox[n - 1])
        }
    }

    /// Whether a chunk has been sent, verified, by enough distinct nodes.
    pub open spec fn enough(self, id: Seq<u8>, quorum: nat) -> bool {
        self.have.dom().contains(id) && (quorum <= 1 || noted_for(self.sources, id).len()
            >= quorum)
    }

    /// Whether every one of some chunks has.
    pub open spec fn enough_all(self, ids: Seq<Seq<u8>>, quorum: nat) -> bool {
        forall|i: int| 0 <= i < ids.len() ==> self.enough(#[trigger] ids[i], quorum)
    }
}

/// The first of some chunks, from position `n` on, that was not gathered.
pub open spec fn first_short(g: Gathered, ids: Seq<Seq<u8>>, quorum: nat, n: nat) -> Option<
    Seq<u8>,
>
    decreases ids.len() - n,
{
    if n >= ids.len() {
        None
    } else if !g.enough(ids[n as int], quorum) {
        Some(ids[n as int])
    } else {
        first_short(g, ids, quorum, n + 1)
    }
}

/// The messages that hand the first `n` of some chunks to those of their nodes that lack them.
pub open spec fn repair_msgs(
    g: Gathered,
    ids: Seq<Seq<u8>>,
    live: Seq<u32>,
    r: nat,
    n: nat,
) -> Seq<wire::Envelope>
    decreases n,
{
    if n == 0 {
        seq![]
    } else {
        let id = ids[n - 1];
        repair_msgs(g, ids, live, r, (n - 1) as nat) + placement::placed(id, live, r).filter(
            |node: u32| noted_for(g.missing, id).contains(node),
        ).map_values(|node: u32| store_msg(node, id, g.have[id]))
    }
}

/// The shards of one chunk with their ids, by position.
pub open spec fn shard_group(piece: Seq<u8>, er: Erasure) -> Seq<ChunkV> {
    let ss = erasure::shards(piece, er.k as nat, er.m as nat);
    Seq::new(ss.len(), |i: int| ChunkV { id: hash::digest(ss[i]), data: ss[i] })
}

/// The shard groups of a file.
pub open spec fn shard_groups(bytes: Seq<u8>, size: nat, er: Erasure) -> Seq<Seq<ChunkV>> {
    let ps = chunk::pieces(bytes, size);
    Seq::new(ps.len(), |g: int| shard_group(ps[g], er))
}

/// The ids of some chunks.
pub open spec fn ids_of(group: Seq<ChunkV>) -> Seq<Seq<u8>> {
    Seq::new(group.len(), |i: int| group[i].id)
}

/// The ids of the first `n` groups, one after the other.
pub open spec fn flat_ids(groups: Seq<Seq<ChunkV>>, n: nat) -> Seq<Seq<u8>>
    decreases n,
{
    if n == 0 {
        seq![]
    } else {
        flat_ids(groups, (n - 1) as nat) + ids_of(groups[n - 1])
    }
}

/// The manifest of an erasure-coded file.
pub open spec fn erasure_manifest(bytes: Seq<u8>, size: nat, er: Erasure) -> ManifestV {
    let groups = shard_groups(bytes, size, er);
    ManifestV {
        size: bytes.len() as u64,
        content_hash: hash::digest(bytes),
        chunks: flat_ids(groups, groups.len()),
        erasure: Some((er.k as u8, er.m as u8)),
    }
}

/// Where shards go: what is sent, the node that each id was last sent to, and, for the group
/// at hand, the nodes that its shards are on and the ids that were dealt with.
#[verifier::ext_equal]
pub struct Spread {
    pub msgs: Seq<wire::Envelope>,
    pub assigned: Map<Seq<u8>, u32>,
    pub used: Set<u32>,
    pub here: Set<Seq<u8>>,
}

/// The first of some nodes, from position `n` on, that is not in use; the first of all when
/// every one is.
pub open spec fn first_free(ranking: Seq<u32>, used: Set<u32>, n: nat) -> u32
    decreases ranking.len() - n,
{
    if n >= ranking.len() {
        ranking[0]
    } else if !used.contains(ranking[n as int]) {
        ranking[n as int]
    } else {
        first_free(ranking, used, n + 1)
    }
}

impl Spread {
    /// Nothing spread yet.
    pub open spec fn nothing() -> Spread {
        Spread {
            msgs: Seq::empty(),
            assigned: Map::empty(),
            used: Set::empty(),
            here: Set::empty(),
        }
    }

    /// Ready for the next group.
    pub open spec fn next_group(self) -> Spread {
        Spread { used: Set::empty(), here: Set::empty(), ..self }
    }

    /// One shard spread: a shard met in this group before stays where it is; one that an
    /// earlier group put on a node that this group does not use yet stays there too; any other
    /// goes to the best node that this group does not use yet.
    pub open spec fn with(self, c: ChunkV, live: Seq<u32>) -> Spread {
        if self.here.contains(c.id) {
            self
        } else if self.assigned.dom().contains(c.id) && !self.used.contains(self.assigned[c.id]) {
            Spread {
                used: self.used.insert(self.assigned[c.id]),
                here: self.here.insert(c.id),
                ..self
            }
        } else {
            let node = first_free(placement::placed(c.id, live, live.len()), self.used, 0);
            Spread {
                msgs: self.msgs.push(store_msg(node, c.id, c.data)),
                assigned: self.assigned.insert(c.id, node),
                used: self.used.insert(node),
                here: self.here.insert(c.id),
            }
        }
    }

    /// The first `n` shards of a group spread.
    pub open spec fn with_group(self, group: Seq<ChunkV>, live: Seq<u32>, n: nat) -> Spread
        decreases n,
    {
        if n == 0 {
            self.next_group()
        } else {
            self.with_group(group, live, (n - 1) as nat).with(group[n - 1], live)
        }
    }
}

/// The first `n` groups spread.
pub open spec fn spread(groups: Seq<Seq<ChunkV>>, live: Seq<u32>, n: nat) -> Spread
    decreases n,
{
    if n == 0 {
        Spread::nothing()
    } else {
        spread(groups, live, (n - 1) as nat).with_group(
            groups[n - 1],
            live,
            groups[n - 1].len(),
        )
    }
}

/// Which shards some storage node acknowledged, after the first `n` letters.
pub open spec fn acked_after(acked: Set<Seq<u8>>, inbox: Seq<Letter>, n: nat) -> Set<Seq<u8>>
    decreases n,
{
    if n == 0 {
        acked
    } else {
        let before = acked_after(acked, inbox, (n - 1) as nat);
        match (inbox[n - 1].from, inbox[n - 1].msg) {
            (NodeId::Storage(i), MessageV::StoreAck { id }) => before.insert(id),
            _ => before,
        }
    }
}

/// How many positions of a group are acknowledged.
pub open spec fn acked_positions(group: Seq<ChunkV>, acked: Set<Seq<u8>>) -> nat {
    ids_of(group).filter(|id: Seq<u8>| acked.contains(id)).len()
}

/// Whether every group has enough acknowledged positions.
pub open spec fn groups_met(groups: Seq<Seq<ChunkV>>, acked: Set<Seq<u8>>, quorum: nat) -> bool {
    forall|g: int|
        0 <= g < groups.len() ==> acked_positions(#[trigger] groups[g], acked) >= quorum
}

/// The fewest acknowledged positions among the first `n` groups, zero for none.
pub open spec fn fewest_positions(
    groups: Seq<Seq<ChunkV>>,
    acked: Set<Seq<u8>>,
    n: nat,
) -> nat
    decreases n,
{
    if n == 0 {
        0
    } else if n == 1 {
        acked_positions(groups[0], acked)
    } else {
        let m = fewest_positions(groups, acked, (n - 1) as nat);
        let c = acked_positions(groups[n - 1], acked);
        if c < m {
            c
        } else {
            m
        }
    }
}

/// The length of chunk group `g` of a file.
pub open spec fn group_len(size: nat, cs: nat, g: nat) -> nat {
    if g * cs >= size {
        0
    } else if size - g * cs < cs {
        (size - g * cs) as nat
    } else {
        cs
    }
}

/// The shards of a group that were gathered and have the right length.
pub open spec fn group_slots(
    g: Gathered,
    ids: Seq<Seq<u8>>,
    len: nat,
    er: Erasure,
) -> Seq<Option<Seq<u8>>> {
    Seq::new(
        ids.len(),
        |i: int|
            if g.have.dom().contains(ids[i]) && g.have[ids[i]].len() == erasure::stored_len(
                len,
                er.k as nat,
            ) {
                Some(g.have[ids[i]])
            } else {
                None
            },
    )
}

/// The messages that bring the first `n` missing shards of a group back, each to the best
/// live node.
pub open spec fn rebuild_msgs(
    slots: Seq<Option<Seq<u8>>>,
    ids: Seq<Seq<u8>>,
    full: Seq<Seq<u8>>,
    live: Seq<u32>,
    n: nat,
) -> Seq<wire::Envelope>
    decreases n,
{
    if n == 0 {
        seq![]
    } else {
        let before = rebuild_msgs(slots, ids, full, live, (n - 1) as nat);
        let id = ids[n - 1];
        if slots[n - 1] is None && hash::digest(full[n - 1]) == id && live.len() > 0 {
            before.push(store_msg(placement::placed(id, live, 1)[0], id, full[n - 1]))
        } else {
            before
        }
    }
}

/// The larger of two numbers.
pub open spec fn larger(a: nat, b: nat) -> nat {
    if a > b {
        a
    } else {
        b
    }
}

impl ClusterV {
    /// The cluster with an empty inbox.
    pub open spec fn inbox_taken(self) -> ClusterV {
        ClusterV { inbox: Seq::empty(), ..self }
    }

    /// The cluster after sending some messages.
    pub open spec fn sent_all(self, out: Seq<wire::Envelope>) -> ClusterV {
        self.with_net(self.net.sent_all(out))
    }

    /// When an operation that starts now gives up.
    pub open spec fn deadline(self) -> u64 {
        net::later(self.net.clock as nat, self.opts.op_deadline as nat)
    }

    /// Waiting for the outcome of operation `req`.
    pub open spec fn commit_awaited(self, req: u64, deadline: u64) -> (
        ClusterV,
        Option<MetaResult>,
    )
        decreases u64::MAX - self.net.seq, self.net.queue.len(),
    {
        proof {
            simulation::lemma_pump_progress(self.inbox_taken());
        }
        let v = self.inbox_taken();
        match commit_among(self.inbox, req, self.inbox.len()) {
            Some(r) => (v, Some(r)),
            None => if v.net.clock >= deadline {
                (v, None)
            } else if v.pumped().1 {
                v.pumped().0.commit_awaited(req, deadline)
            } else {
                (v.pumped().0, None)
            },
        }
    }

    /// Waiting for the answer to query `req`.
    pub open spec fn answer_awaited(self, req: u64, deadline: u64) -> (
        ClusterV,
        Option<QueryResultV>,
    )
        decreases u64::MAX - self.net.seq, self.net.queue.len(),
    {
        proof {
            simulation::lemma_pump_progress(self.inbox_taken());
        }
        let v = self.inbox_taken();
        match answer_among(self.inbox, req, self.inbox.len()) {
            Some(r) => (v, Some(r)),
            None => if v.net.clock >= deadline {
                (v, None)
            } else if v.pumped().1 {
                v.pumped().0.answer_awaited(req, deadline)
            } else {
                (v.pumped().0, None)
            },
        }
    }

    /// Sending a request to the primary under the next correlation id.
    pub open spec fn asked(self, primary: u32, msg: MessageV) -> ClusterV {
        (ClusterV { next_req: (self.next_req + 1) as u64, ..self }).sent(
            NodeId::Client,
            NodeId::Meta(primary),
            msg,
        )
    }

    /// A mutating metadata operation.
    pub open spec fn meta_applied(self, op: MetaOpV, err_path: Seq<char>) -> (
        ClusterV,
        Result<(), ErrorV>,
    ) {
        if self.primary() is None || self.next_req == u64::MAX {
            (self, Err(ErrorV::MetadataUnavailable))
        } else {
            let req = self.next_req;
            let v = self.asked(
                self.primary()->Some_0,
                MessageV::MetaOpMsg { req_id: req, op },
            );
            let (w, r) = v.commit_awaited(req, v.deadline());
            (
                w,
                match r {
                    None => Err(ErrorV::MetadataUnavailable),
                    Some(MetaResult::Committed) => Ok(()),
                    Some(MetaResult::Rejected(c)) => Err(message::meta_error(c, err_path)),
                },
            )
        }
    }

    /// A metadata query.
    pub open spec fn meta_queried(self, q: QueryV) -> (ClusterV, Result<QueryResultV, ErrorV>) {
        if self.primary() is None || self.next_req == u64::MAX {
            (self, Err(ErrorV::MetadataUnavailable))
        } else {
            let req = self.next_req;
            let v = self.asked(
                self.primary()->Some_0,
                MessageV::MetaQueryMsg { req_id: req, q },
            );
            let (w, r) = v.answer_awaited(req, v.deadline());
            (
                w,
                match r {
                    None => Err(ErrorV::MetadataUnavailable),
                    Some(a) => Ok(a),
                },
            )
        }
    }

    /// Waiting for a quorum of acknowledgements of each of some chunks. `None` when it came,
    /// else the fewest that any chunk got.
    pub open spec fn acks_awaited(
        self,
        acks: Map<Seq<u8>, Set<u32>>,
        ids: Seq<Seq<u8>>,
        quorum: nat,
        deadline: u64,
    ) -> (ClusterV, Option<nat>)
        decreases u64::MAX - self.net.seq, self.net.queue.len(),
    {
        proof {
            simulation::lemma_pump_progress(self.inbox_taken());
        }
        let v = self.inbox_taken();
        let now = acks_after(acks, self.inbox, self.inbox.len());
        if quorum_met(now, ids, quorum) {
            (v, None)
        } else if v.net.clock >= deadline {
            (v, Some(fewest_acks(now, ids, ids.len())))
        } else if v.pumped().1 {
            v.pumped().0.acks_awaited(now, ids, quorum, deadline)
        } else {
            (v.pumped().0, Some(fewest_acks(now, ids, ids.len())))
        }
    }

    /// A replicated write.
    pub open spec fn written_replicated(self, p: Seq<char>, bytes: Seq<u8>) -> (
        ClusterV,
        Result<(), ErrorV>,
    ) {
        let live = self.live_storage();
        let quorum = self.opts.write_quorum as nat;
        if live.len() < quorum {
            (self, Err(ErrorV::WriteQuorumFailed { needed: quorum, got: live.len() }))
        } else {
            let chunks = chunk::chunks_of(bytes, self.opts.chunk_size as nat);
            let data = distinct_chunks(chunks, chunks.len());
            let ids = ordmap::in_order::<crate::hash::Hash>(data.dom());
            let v = self.sent_all(
                store_msgs(data, ids, live, self.opts.replication_factor as nat, ids.len()),
            );
            let (w, short) = v.acks_awaited(Map::empty(), ids, quorum, v.deadline());
            match short {
                Some(got) => (w, Err(ErrorV::WriteQuorumFailed { needed: quorum, got })),
                None => w.meta_applied(
                    MetaOpV::Put {
                        path: p,
                        manifest: chunk::manifest_of(bytes, self.opts.chunk_size as nat),
                    },
                    p,
                ),
            }
        }
    }

    /// Waiting until every group has enough acknowledged positions. `None` when it has, else
    /// the fewest that any group got.
    pub open spec fn groups_awaited(
        self,
        acked: Set<Seq<u8>>,
        groups: Seq<Seq<ChunkV>>,
        quorum: nat,
        deadline: u64,
    ) -> (ClusterV, Option<nat>)
        decreases u64::MAX - self.net.seq, self.net.queue.len(),
    {
        proof {
            simulation::lemma_pump_progress(self.inbox_taken());
        }
        let v = self.inbox_taken();
        let now = acked_after(acked, self.inbox, self.inbox.len());
        if groups_met(groups, now, quorum) {
            (v, None)
        } else if v.net.clock >= deadline {
            (v, Some(fewest_positions(groups, now, groups.len())))
        } else if v.pumped().1 {
            v.pumped().0.groups_awaited(now, groups, quorum, deadline)
        } else {
            (v.pumped().0, Some(fewest_positions(groups, now, groups.len())))
        }
    }

    /// The chunk size, at least one.
    pub open spec fn group_size(self) -> nat {
        larger(self.opts.chunk_size as nat, 1)
    }

    /// An erasure-coded write.
    pub open spec fn written_erasure(self, p: Seq<char>, bytes: Seq<u8>, er: Erasure) -> (
        ClusterV,
        Result<(), ErrorV>,
    ) {
        let live = self.live_storage();
        let total = er.k as nat + er.m as nat;
        if live.len() < total {
            (self, Err(ErrorV::WriteQuorumFailed { needed: total, got: live.len() }))
        } else {
            let groups = shard_groups(bytes, self.group_size(), er);
            let quorum = larger(self.opts.write_quorum as nat, er.k as nat);
            let v = self.sent_all(spread(groups, live, groups.len()).msgs);
            let (w, short) = v.groups_awaited(Set::empty(), groups, quorum, v.deadline());
            match short {
                Some(got) => (w, Err(ErrorV::WriteQuorumFailed { needed: quorum, got })),
                None => w.meta_applied(
                    MetaOpV::Put {
                        path: p,
                        manifest: erasure_manifest(bytes, self.group_size(), er),
                    },
                    p,
                ),
            }
        }
    }

    /// Writing a file.
    pub open spec fn written(self, p: Seq<char>, bytes: Seq<u8>) -> (
        ClusterV,
        Result<(), ErrorV>,
    ) {
        if !path::normal(p) {
            (self, Err(ErrorV::InvalidPath(p)))
        } else {
            match self.opts.erasure {
                Some(er) => self.written_erasure(p, bytes, er),
                None => self.written_replicated(p, bytes),
            }
        }
    }

    /// Gathering chunks until every one of `ids` has enough copies or time is up.
    pub open spec fn chunks_gathered(
        self,
        g: Gathered,
        ids: Seq<Seq<u8>>,
        quorum: nat,
        deadline: u64,
    ) -> (ClusterV, Gathered)
        decreases u64::MAX - self.net.seq, self.net.queue.len(),
    {
        proof {
            simulation::lemma_pump_progress(self.inbox_taken());
        }
        let v = self.inbox_taken();
        let now = g.with_all(self.inbox, self.inbox.len());
        if now.enough_all(ids, quorum) || v.net.clock >= deadline {
            (v, now)
        } else if v.pumped().1 {
            v.pumped().0.chunks_gathered(now, ids, quorum, deadline)
        } else {
            (v.pumped().0, now)
        }
    }

    /// Asking every live node for some chunks and gathering the answers.
    pub open spec fn fetched(self, ids: Seq<Seq<u8>>, quorum: nat) -> (ClusterV, Gathered) {
        let v = self.sent_all(fetch_msgs(ids, self.live_storage(), ids.len()));
        v.chunks_gathered(Gathered::nothing(), ids, quorum, v.deadline())
    }

    /// A replicated read.
    pub open spec fn read_replicated(self, m: ManifestV) -> (ClusterV, Result<Seq<u8>, ErrorV>) {
        let ids = ordmap::in_order::<crate::hash::Hash>(m.chunks.to_set());
        let quorum = self.opts.read_quorum as nat;
        let live = self.live_storage();
        let (v, g) = self.fetched(ids, quorum);
        match first_short(g, ids, quorum, 0) {
            Some(id) => (v, Err(ErrorV::ChunkUnavailable(text::hex(id.take(4))))),
            None => {
                let w = v.sent_all(
                    repair_msgs(g, ids, live, self.opts.replication_factor as nat, ids.len()),
                );
                let bytes = m.chunks.map_values(|id: Seq<u8>| g.have[id]).flatten();
                if hash::digest(bytes) == m.content_hash {
                    (w, Ok(bytes))
                } else {
                    (w, Err(ErrorV::IntegrityError))
                }
            },
        }
    }

    /// Reconstructing the groups from `g` on: the cluster after the repairs, and the bytes of
    /// those groups or the first group that could not be reconstructed.
    pub open spec fn groups_rebuilt(
        self,
        p: Seq<char>,
        m: ManifestV,
        er: Erasure,
        live: Seq<u32>,
        got: Gathered,
        g: nat,
    ) -> (ClusterV, Result<Seq<Seq<u8>>, ErrorV>)
        decreases m.chunks.len() / (er.k as nat + er.m as nat) - g,
    {
        let total = er.k as nat + er.m as nat;
        if g >= m.chunks.len() / total {
            (self, Ok(seq![]))
        } else {
            let ids = m.chunks.subrange((g * total) as int, ((g + 1) * total) as int);
            let len = group_len(m.size as nat, self.group_size(), g);
            let slots = group_slots(got, ids, len, er);
            match erasure::decoded(slots, er.k as nat, er.m as nat, len) {
                Err(_) => (
                    self,
                    Err(ErrorV::ChunkUnavailable(p + " chunk group "@ + text::decimal(g))),
                ),
                Ok(piece) => {
                    let full = erasure::shards(piece, er.k as nat, er.m as nat);
                    let v = self.sent_all(rebuild_msgs(slots, ids, full, live, total));
                    let (w, r) = v.groups_rebuilt(p, m, er, live, got, g + 1);
                    match r {
                        Err(e) => (w, Err(e)),
                        Ok(rest) => (w, Ok(seq![piece] + rest)),
                    }
                },
            }
        }
    }

    /// An erasure-coded read.
    pub open spec fn read_erasure(self, p: Seq<char>, m: ManifestV, er: Erasure) -> (
        ClusterV,
        Result<Seq<u8>, ErrorV>,
    ) {
        let ids = ordmap::in_order::<crate::hash::Hash>(m.chunks.to_set());
        let live = self.live_storage();
        let (v, got) = self.fetched(ids, 1);
        let (w, r) = v.groups_rebuilt(p, m, er, live, got, 0);
        match r {
            Err(e) => (w, Err(e)),
            Ok(parts) => if hash::digest(parts.flatten()) == m.content_hash {
                (w, Ok(parts.flatten()))
            } else {
                (w, Err(ErrorV::IntegrityError))
            },
        }
    }

    /// Reading the file that a manifest describes.
    pub open spec fn read_manifest(self, p: Seq<char>, m: ManifestV) -> (
        ClusterV,
        Result<Seq<u8>, ErrorV>,
    ) {
        match m.erasure {
            None => self.read_replicated(m),
            Some((k, par)) => if 1 <= k && 1 <= par && k + par <= 64 {
                self.read_erasure(p, m, Erasure { k: k as usize, m: par as usize })
            } else {
                (self, Err(ErrorV::IntegrityError))
            },
        }
    }

    /// Reading a file.
    pub open spec fn read(self, p: Seq<char>) -> (ClusterV, Result<Seq<u8>, ErrorV>) {
        if !path::normal(p) {
            (self, Err(ErrorV::InvalidPath(p)))
        } else {
            let (v, r) = self.meta_queried(QueryV::Get { path: p });
            match r {
                Err(e) => (v, Err(e)),
                Ok(QueryResultV::Manifest(Some(m))) => v.read_manifest(p, m),
                Ok(QueryResultV::Manifest(None)) => (v, Err(ErrorV::NotFound(p))),
                Ok(QueryResultV::Rejected(c)) => (v, Err(message::meta_error(c, p))),
                Ok(_) => (v, Err(ErrorV::MetadataUnavailable)),
            }
        }
    }

    /// Deleting a path.
    pub open spec fn deleted(self, p: Seq<char>) -> (ClusterV, Result<(), ErrorV>) {
        if !path::normal(p) {
            (self, Err(ErrorV::InvalidPath(p)))
        } else {
            self.meta_applied(MetaOpV::Delete { path: p }, p)
        }
    }

    /// Making a directory.
    pub open spec fn made_dir(self, p: Seq<char>) -> (ClusterV, Result<(), ErrorV>) {
        if !path::normal(p) {
            (self, Err(ErrorV::InvalidPath(p)))
        } else {
            self.meta_applied(MetaOpV::Mkdir { path: p }, p)
        }
    }

    /// Renaming a path.
    pub open spec fn renamed(self, from: Seq<char>, to: Seq<char>) -> (
        ClusterV,
        Result<(), ErrorV>,
    ) {
        if !path::normal(from) {
            (self, Err(ErrorV::InvalidPath(from)))
        } else if !path::normal(to) {
            (self, Err(ErrorV::InvalidPath(to)))
        } else {
            self.meta_applied(MetaOpV::Rename { from, to }, to)
        }
    }

    /// Listing a directory.
    pub open spec fn listed(self, p: Seq<char>) -> (ClusterV, Result<Seq<DirEntryV>, ErrorV>) {
        if !path::normal(p) {
            (self, Err(ErrorV::InvalidPath(p)))
        } else {
            let (v, r) = self.meta_queried(QueryV::List { path: p });
            match r {
                Err(e) => (v, Err(e)),
                Ok(QueryResultV::Listing(es)) => (v, Ok(es)),
                Ok(QueryResultV::Rejected(c)) => (v, Err(message::meta_error(c, p))),
                Ok(_) => (v, Err(ErrorV::MetadataUnavailable)),
            }
        }
    }

    /// Asking about a path.
    pub open spec fn statted(self, p: Seq<char>) -> (ClusterV, Result<StatInfoV, ErrorV>) {
        if !path::normal(p) {
            (self, Err(ErrorV::InvalidPath(p)))
        } else {
            let (v, r) = self.meta_queried(QueryV::Stat { path: p });
            match r {
                Err(e) => (v, Err(e)),
                Ok(QueryResultV::Stat(Some(s))) => (v, Ok(s)),
                Ok(QueryResultV::Stat(None)) => (v, Err(ErrorV::NotFound(p))),
                Ok(QueryResultV::Rejected(c)) => (v, Err(message::meta_error(c, p))),
                Ok(_) => (v, Err(ErrorV::MetadataUnavailable)),
            }
        }
    }
}

} // verus!

//! The file system API layered over the cluster.
//!
//! Each call drives messages through the deterministic network and blocks in
//! logical time until it reaches quorum or the operation deadline. Because the
//! whole cluster is in process, "blocking" means pumping the event loop until
//! the awaited replies arrive.

use crate::chunk::{self, chunk_bytes, reassemble, Chunk, ChunkV, Manifest};
use crate::cluster::{letters_view, Cluster};
use crate::erasure::{self, Erasure};
use crate::error::{Error, ErrorV};
use crate::hash::{self, sha256};
use crate::message::{
    entries_view, meta_err, routed_view, DirEntry, DirEntryV, Message, MessageV, MetaOp,
    MetaResult, NodeId, Query, QueryResult, QueryResultV, StatInfo, StatInfoV,
};
use crate::metadata::collect_ids;
use crate::ordmap::{self, Dup, OrdMap, OrdSet};
use crate::path::{self, normalize};
use crate::placement::{self, place};
use crate::protocol::{self, Gathered, Spread};
use crate::simulation::{self, Letter};
use crate::text;
use vstd::prelude::*;

verus! {

fn find_commit(letters: &Vec<(NodeId, Message)>, req: u64) -> (r: Option<MetaResult>)
    ensures
        r == protocol::commit_among(letters_view(letters@), req, letters@.len()),
{
    let ghost lv = letters_view(letters@);
    let mut i: usize = 0;
    while i < letters.len()
        invariant
            i <= letters@.len(),
            lv == letters_view(letters@),
            protocol::commit_among(lv, req, i as nat) is None,
        decreases letters@.len() - i,
    {
        match &letters[i].1 {
            Message::MetaCommitted { req_id, result } => {
                if *req_id == req {
                    let found = Some(*result);
                    proof {
                        assert(protocol::commit_among(lv, req, (i + 1) as nat) == found);
                        lemma_commit_stays(lv, req, (i + 1) as nat, lv.len());
                    }
                    return found;
                }
            },
            _ => {},
        }
        i += 1;
    }
    None
}

proof fn lemma_commit_stays(lv: Seq<Letter>, req: u64, i: nat, n: nat)
    requires
        i <= n,
        protocol::commit_among(lv, req, i) is Some,
    ensures
        protocol::commit_among(lv, req, n) == protocol::commit_among(lv, req, i),
    decreases n,
{
    if i < n {
        lemma_commit_stays(lv, req, i, (n - 1) as nat);
    }
}

proof fn lemma_answer_stays(lv: Seq<Letter>, req: u64, i: nat, n: nat)
    requires
        i <= n,
        protocol::answer_among(lv, req, i) is Some,
    ensures
        protocol::answer_among(lv, req, n) == protocol::answer_among(lv, req, i),
    decreases n,
{
    if i < n {
        lemma_answer_stays(lv, req, i, (n - 1) as nat);
    }
}

fn find_answer(inbox: Vec<(NodeId, Message)>, req: u64) -> (r: Option<QueryResult>)
    ensures
        protocol::answer_among(letters_view(inbox@), req, inbox@.len()) == (match r {
            Some(a) => Some(a@),
            None => None::<QueryResultV>,
        }),
{
    let ghost lv = letters_view(inbox@);
    let mut letters = inbox;
    let mut i: usize = 0;
    let n = letters.len();
    while i < n
        invariant
            i <= n,
            n == letters@.len(),
            lv == letters_view(letters@),
            lv == letters_view(inbox@),
            lv.len() == inbox@.len(),
            protocol::answer_among(lv, req, i as nat) is None,
        decreases n - i,
    {
        let hit = match &letters[i].1 {
            Message::MetaQueryResp { req_id, result: _ } => *req_id == req,
            _ => false,
        };
        if hit {
            let ghost m = letters@[i as int].1@;
            assert(lv[i as int].msg == m);
            let (_, msg) = letters.swap_remove(i);
            assert(msg@ == m);
            proof {
                lemma_answer_stays(lv, req, (i + 1) as nat, lv.len());
            }
            match msg {
                Message::MetaQueryResp { req_id: _, result } => return Some(result),
                _ => return None,
            }
        }
        i += 1;
    }
    None
}

impl Cluster {
    fn deadline(&self) -> (r: u64)
        ensures
            r == self@.deadline(),
    {
        self.clock().saturating_add(self.options().op_deadline)
    }

    fn await_commit(&mut self, req: u64, deadline: u64) -> (r: Option<MetaResult>)
        requires
            old(self)@.wf(),
        ensures
            (final(self)@, r) == old(self)@.commit_awaited(req, deadline),
            final(self)@.wf(),
    {
        loop
            invariant
                self@.wf(),
                self@.commit_awaited(req, deadline) == old(self)@.commit_awaited(req, deadline),
            decreases u64::MAX - self@.net.seq, self@.net.queue.len(),
        {
            let letters = self.take_inbox();
            proof {
                simulation::lemma_pump_progress(self@);
            }
            match find_commit(&letters, req) {
                Some(r) => return Some(r),
                None => {},
            }
            if self.clock() >= deadline {
                return None;
            }
            if !self.pump_step() {
                return None;
            }
        }
    }

    fn await_answer(&mut self, req: u64, deadline: u64) -> (r: Option<QueryResult>)
        requires
            old(self)@.wf(),
        ensures
            final(self)@ == old(self)@.answer_awaited(req, deadline).0,
            old(self)@.answer_awaited(req, deadline).1 == (match r {
                Some(a) => Some(a@),
                None => None::<QueryResultV>,
            }),
            final(self)@.wf(),
    {
        loop
            invariant
                self@.wf(),
                self@.answer_awaited(req, deadline) == old(self)@.answer_awaited(req, deadline),
            decreases u64::MAX - self@.net.seq, self@.net.queue.len(),
        {
            let letters = self.take_inbox();
            proof {
                simulation::lemma_pump_progress(self@);
            }
            match find_answer(letters, req) {
                Some(r) => return Some(r),
                None => {},
            }
            if self.clock() >= deadline {
                return None;
            }
            if !self.pump_step() {
                return None;
            }
        }
    }

    fn meta_apply(&mut self, op: MetaOp, err_path: &str) -> (r: Result<(), Error>)
        requires
            old(self)@.wf(),
        ensures
            final(self)@ == old(self)@.meta_applied(op@, err_path@).0,
            crate::error::outcome(r) == old(self)@.meta_applied(op@, err_path@).1,
            final(self)@.wf(),
    {
        let primary = match self.primary_meta() {
            None => return Err(Error::MetadataUnavailable),
            Some(p) => p,
        };
        let req = match self.alloc_req() {
            None => return Err(Error::MetadataUnavailable),
            Some(id) => id,
        };
        self.send(
            NodeId::Client,
            NodeId::Meta(primary),
            &Message::MetaOpMsg { req_id: req, op },
        );
        let deadline = self.deadline();
        match self.await_commit(req, deadline) {
            None => Err(Error::MetadataUnavailable),
            Some(MetaResult::Committed) => Ok(()),
            Some(MetaResult::Rejected(c)) => Err(meta_err(c, err_path)),
        }
    }

    fn meta_query(&mut self, q: Query) -> (r: Result<QueryResult, Error>)
        requires
            old(self)@.wf(),
        ensures
            final(self)@ == old(self)@.meta_queried(q@).0,
            old(self)@.meta_queried(q@).1 == (match r {
                Ok(a) => Ok::<QueryResultV, ErrorV>(a@),
                Err(e) => Err(e@),
            }),
            final(self)@.wf(),
    {
        let primary = match self.primary_meta() {
            None => return Err(Error::MetadataUnavailable),
            Some(p) => p,
        };
        let req = match self.alloc_req() {
            None => return Err(Error::MetadataUnavailable),
            Some(id) => id,
        };
        self.send(
            NodeId::Client,
            NodeId::Meta(primary),
            &Message::MetaQueryMsg { req_id: req, q },
        );
        let deadline = self.deadline();
        match self.await_answer(req, deadline) {
            None => Err(Error::MetadataUnavailable),
            Some(a) => Ok(a),
        }
    }

    /// Delete a file or empty directory.
    ///
    /// Returns [`Error::InvalidPath`] for a malformed path,
    /// [`Error::DirectoryNotEmpty`] when a directory still has children, and
    /// [`Error::NotFound`] when the path does not exist.
    pub fn delete(&mut self, path: &str) -> (r: Result<(), Error>)
        requires
            old(self)@.wf(),
        ensures
            final(self)@ == old(self)@.deleted(path@).0,
            crate::error::outcome(r) == old(self)@.deleted(path@).1,
            final(self)@.wf(),
    {
        match normalize(path) {
            None => Err(Error::InvalidPath(path.to_owned())),
            Some(p) => self.meta_apply(MetaOp::Delete { path: p }, path),
        }
    }

    /// Create a directory. The parent must already exist.
    ///
    /// Returns [`Error::InvalidPath`] for a malformed path,
    /// [`Error::AlreadyExists`] when the path exists, and
    /// [`Error::NotFound`] or [`Error::NotADirectory`] when the parent cannot
    /// hold a new directory.
    pub fn mkdir(&mut self, path: &str) -> (r: Result<(), Error>)
        requires
            old(self)@.wf(),
        ensures
            final(self)@ == old(self)@.made_dir(path@).0,
            crate::error::outcome(r) == old(self)@.made_dir(path@).1,
            final(self)@.wf(),
    {
        match normalize(path) {
            None => Err(Error::InvalidPath(path.to_owned())),
            Some(p) => self.meta_apply(MetaOp::Mkdir { path: p }, path),
        }
    }

    /// Rename a file or directory subtree.
    ///
    /// Returns [`Error::InvalidPath`] for malformed paths or a rename into the
    /// source's own subtree, [`Error::NotFound`] when the source is missing, and
    /// [`Error::AlreadyExists`] when the destination exists.
    pub fn rename(&mut self, from: &str, to: &str) -> (r: Result<(), Error>)
        requires
            old(self)@.wf(),
        ensures
            final(self)@ == old(self)@.renamed(from@, to@).0,
            crate::error::outcome(r) == old(self)@.renamed(from@, to@).1,
            final(self)@.wf(),
    {
        let f = match normalize(from) {
            None => return Err(Error::InvalidPath(from.to_owned())),
            Some(p) => p,
        };
        let t = match normalize(to) {
            None => return Err(Error::InvalidPath(to.to_owned())),
            Some(p) => p,
        };
        self.meta_apply(MetaOp::Rename { from: f, to: t }, to)
    }

    /// List the immediate children of a directory.
    ///
    /// Returns [`Error::InvalidPath`] for a malformed path,
    /// [`Error::NotFound`] when the directory does not exist, and
    /// [`Error::NotADirectory`] when the path is a file.
    pub fn list(&mut self, path: &str) -> (r: Result<Vec<DirEntry>, Error>)
        requires
            old(self)@.wf(),
        ensures
            final(self)@ == old(self)@.listed(path@).0,
            old(self)@.listed(path@).1 == (match r {
                Ok(es) => Ok::<Seq<DirEntryV>, ErrorV>(entries_view(es@)),
                Err(e) => Err(e@),
            }),
            final(self)@.wf(),
    {
        let p = match normalize(path) {
            None => return Err(Error::InvalidPath(path.to_owned())),
            Some(p) => p,
        };
        match self.meta_query(Query::List { path: p }) {
            Err(e) => Err(e),
            Ok(QueryResult::Listing(entries)) => Ok(entries),
            Ok(QueryResult::Rejected(c)) => Err(meta_err(c, path)),
            Ok(_) => Err(Error::MetadataUnavailable),
        }
    }

    /// Stat a single path.
    ///
    /// Returns [`Error::InvalidPath`] for a malformed path and
    /// [`Error::NotFound`] when the path does not exist.
    pub fn stat(&mut self, path: &str) -> (r: Result<StatInfo, Error>)
        requires
            old(self)@.wf(),
        ensures
            final(self)@ == old(self)@.statted(path@).0,
            old(self)@.statted(path@).1 == (match r {
                Ok(s) => Ok::<StatInfoV, ErrorV>(s@),
                Err(e) => Err(e@),
            }),
            final(self)@.wf(),
    {
        let p = match normalize(path) {
            None => return Err(Error::InvalidPath(path.to_owned())),
            Some(p) => p,
        };
        match self.meta_query(Query::Stat { path: p }) {
            Err(e) => Err(e),
            Ok(QueryResult::Stat(Some(s))) => Ok(s),
            Ok(QueryResult::Stat(None)) => Err(Error::NotFound(path.to_owned())),
            Ok(QueryResult::Rejected(c)) => Err(meta_err(c, path)),
            Ok(_) => Err(Error::MetadataUnavailable),
        }
    }
}

fn note(m: &mut OrdMap<crate::hash::Hash, OrdSet<u32>>, id: crate::hash::Hash, i: u32)
    ensures
        final(m)@ == protocol::noted(old(m)@, id@, i),
{
    let mut set = match m.remove(&id) {
        Some(s) => s,
        None => OrdSet::new(),
    };
    let _ = set.insert(i);
    m.insert(id, set);
    assert(m@ =~= protocol::noted(old(m)@, id@, i));
}

fn noted_count(m: &OrdMap<crate::hash::Hash, OrdSet<u32>>, id: &crate::hash::Hash) -> (r: usize)
    ensures
        r == protocol::noted_for(m@, id@).len(),
{
    match m.get(id) {
        Some(s) => s.len(),
        None => 0,
    }
}

fn gather_acks(
    acks: &mut OrdMap<crate::hash::Hash, OrdSet<u32>>,
    letters: &Vec<(NodeId, Message)>,
)
    ensures
        final(acks)@ == protocol::acks_after(
            old(acks)@,
            letters_view(letters@),
            letters@.len(),
        ),
{
    let ghost lv = letters_view(letters@);
    let mut i: usize = 0;
    while i < letters.len()
        invariant
            i <= letters@.len(),
            lv == letters_view(letters@),
            acks@ == protocol::acks_after(old(acks)@, lv, i as nat),
        decreases letters@.len() - i,
    {
        match (&letters[i].0, &letters[i].1) {
            (NodeId::Storage(n), Message::StoreAck { id }) => {
                note(acks, *id, *n);
            },
            _ => {},
        }
        i += 1;
    }
}

/// The distinct chunks, each stored once.
fn distinct(chunks: &Vec<Chunk>, Ghost(cv): Ghost<Seq<ChunkV>>) -> (r: OrdMap<
    crate::hash::Hash,
    Vec<u8>,
>)
    requires
        cv.len() == chunks@.len(),
        forall|i: int| 0 <= i < chunks@.len() ==> (#[trigger] chunks@[i])@ == cv[i],
    ensures
        r@ == protocol::distinct_chunks(cv, cv.len()),
{
    let mut out: OrdMap<crate::hash::Hash, Vec<u8>> = OrdMap::new();
    let mut i: usize = 0;
    while i < chunks.len()
        invariant
            i <= chunks@.len(),
            cv.len() == chunks@.len(),
            forall|i: int| 0 <= i < chunks@.len() ==> (#[trigger] chunks@[i])@ == cv[i],
            out@ == protocol::distinct_chunks(cv, i as nat),
        decreases chunks@.len() - i,
    {
        let c = &chunks[i];
        assert(c@ == cv[i as int]);
        if !out.contains_key(&c.id) {
            out.insert(c.id, c.data.copy_value());
        }
        i += 1;
    }
    out
}

/// The messages that hand a chunk to some nodes.
fn stores_for(id: &crate::hash::Hash, data: &Vec<u8>, nodes: &Vec<u32>) -> (r: Vec<
    (NodeId, NodeId, Message),
>)
    ensures
        routed_view(r@) == nodes@.map_values(|n: u32| protocol::store_msg(n, id@, data@)),
{
    let mut out: Vec<(NodeId, NodeId, Message)> = Vec::with_capacity(nodes.len());
    let mut i: usize = 0;
    while i < nodes.len()
        invariant
            i <= nodes@.len(),
            out@.len() == i,
            forall|j: int|
                0 <= j < i ==> (#[trigger] out@[j]).0 == NodeId::Client && out@[j].1
                    == NodeId::Storage(nodes@[j]) && out@[j].2@ == (MessageV::StoreChunk {
                    id: id@,
                    data: data@,
                }),
        decreases nodes@.len() - i,
    {
        out.push(
            (
                NodeId::Client,
                NodeId::Storage(nodes[i]),
                Message::StoreChunk { id: *id, data: data.copy_value() },
            ),
        );
        i += 1;
    }
    assert(routed_view(out@) =~= nodes@.map_values(
        |n: u32| protocol::store_msg(n, id@, data@),
    ));
    out
}

impl Cluster {
    fn await_acks(
        &mut self,
        unique: &OrdMap<crate::hash::Hash, Vec<u8>>,
        quorum: usize,
        deadline: u64,
    ) -> (r: Option<usize>)
        requires
            old(self)@.wf(),
        ensures
            final(self)@.wf(),
            (final(self)@, match r {
                Some(n) => Some(n as nat),
                None => None::<nat>,
            }) == old(self)@.acks_awaited(
                Map::empty(),
                ordmap::in_order::<crate::hash::Hash>(unique@.dom()),
                quorum as nat,
                deadline,
            ),
    {
        let mut acks: OrdMap<crate::hash::Hash, OrdSet<u32>> = OrdMap::new();
        let ghost ids = ordmap::in_order::<crate::hash::Hash>(unique@.dom());
        loop
            invariant
                self@.wf(),
                ids == ordmap::in_order::<crate::hash::Hash>(unique@.dom()),
                self@.acks_awaited(acks@, ids, quorum as nat, deadline)
                    == old(self)@.acks_awaited(Map::empty(), ids, quorum as nat, deadline),
            decreases u64::MAX - self@.net.seq, self@.net.queue.len(),
        {
            let letters = self.take_inbox();
            gather_acks(&mut acks, &letters);
            proof {
                simulation::lemma_pump_progress(self@);
            }
            if quorum_reached(&acks, unique, quorum) {
                return None;
            }
            let got = fewest_acks(&acks, unique);
            if self.clock() >= deadline {
                return Some(got);
            }
            if !self.pump_step() {
                return Some(got);
            }
        }
    }

    /// The replicated write path.
    fn write_file_replicated(&mut self, path: &str, bytes: &[u8]) -> (r: Result<(), Error>)
        requires
            old(self)@.wf(),
            old(self)@.opts.chunk_size > 0,
        ensures
            final(self)@ == old(self)@.written_replicated(path@, bytes@).0,
            crate::error::outcome(r) == old(self)@.written_replicated(path@, bytes@).1,
            final(self)@.wf(),
    {
        let opts = self.options();
        let (chunks, manifest) = chunk_bytes(bytes, opts.chunk_size);
        let live = self.live_storage();
        let wq = opts.write_quorum;
        if live.len() < wq {
            return Err(Error::WriteQuorumFailed { needed: wq, got: live.len() });
        }
        // Dedupe identical chunks. Each distinct chunk is stored once.
        let ghost cv = chunk::chunks_of(bytes@, opts.chunk_size as nat);
        let unique = distinct(&chunks, Ghost(cv));
        let n = unique.len();
        let ghost start = self@;
        let ghost data = unique@;
        let ghost ids = ordmap::in_order::<crate::hash::Hash>(unique@.dom());
        let ghost r = opts.replication_factor as nat;
        let mut i: usize = 0;
        assert(self@ =~= start.sent_all(protocol::store_msgs(data, ids, live@, r, 0)));
        while i < n
            invariant
                i <= n,
                n == ids.len(),
                data == unique@,
                opts == start.opts,
                r == opts.replication_factor,
                ids == ordmap::in_order::<crate::hash::Hash>(unique@.dom()),
                self@ == start.sent_all(protocol::store_msgs(data, ids, live@, r, i as nat)),
            decreases n - i,
        {
            let id = unique.key_at(i);
            let nodes = place(id, live.as_slice(), opts.replication_factor);
            let out = stores_for(id, unique.value_at(i), &nodes);
            proof {
                let before = protocol::store_msgs(data, ids, live@, r, i as nat);
                simulation::lemma_sent_all_concat(start.net, before, routed_view(out@));
            }
            self.send_all(out);
            assert(self@ =~= start.sent_all(
                protocol::store_msgs(data, ids, live@, r, (i + 1) as nat),
            ));
            i += 1;
        }
        assert(self@.wf());
        let deadline = self.deadline();
        match self.await_acks(&unique, wq, deadline) {
            Some(got) => Err(Error::WriteQuorumFailed { needed: wq, got }),
            None => self.meta_apply(MetaOp::Put { path: path.to_owned(), manifest }, path),
        }
    }
}

fn quorum_reached(
    acks: &OrdMap<crate::hash::Hash, OrdSet<u32>>,
    unique: &OrdMap<crate::hash::Hash, Vec<u8>>,
    quorum: usize,
) -> (r: bool)
    ensures
        r == protocol::quorum_met(
            acks@,
            ordmap::in_order::<crate::hash::Hash>(unique@.dom()),
            quorum as nat,
        ),
{
    let n = unique.len();
    let ghost ids = ordmap::in_order::<crate::hash::Hash>(unique@.dom());
    let mut i: usize = 0;
    while i < n
        invariant
            i <= n,
            n == ids.len(),
            ids == ordmap::in_order::<crate::hash::Hash>(unique@.dom()),
            forall|j: int|
                0 <= j < i ==> protocol::noted_for(acks@, #[trigger] ids[j]).len() >= quorum,
        decreases n - i,
    {
        if noted_count(acks, unique.key_at(i)) < quorum {
            assert(protocol::noted_for(acks@, ids[i as int]).len() < quorum);
            return false;
        }
        i += 1;
    }
    true
}

fn fewest_acks(
    acks: &OrdMap<crate::hash::Hash, OrdSet<u32>>,
    unique: &OrdMap<crate::hash::Hash, Vec<u8>>,
) -> (r: usize)
    ensures
        r == ({
            let ids = ordmap::in_order::<crate::hash::Hash>(unique@.dom());
            protocol::fewest_acks(acks@, ids, ids.len())
        }),
{
    let n = unique.len();
    let ghost ids = ordmap::in_order::<crate::hash::Hash>(unique@.dom());
    if n == 0 {
        return 0;
    }
    let mut min = noted_count(acks, unique.key_at(0));
    let mut i: usize = 1;
    while i < n
        invariant
            1 <= i <= n,
            n == ids.len(),
            ids == ordmap::in_order::<crate::hash::Hash>(unique@.dom()),
            min == protocol::fewest_acks(acks@, ids, i as nat),
        decreases n - i,
    {
        let c = noted_count(acks, unique.key_at(i));
        if c < min {
            min = c;
        }
        i += 1;
    }
    min
}

/// The values of some chunks.
spec fn group_view(g: Seq<Chunk>) -> Seq<ChunkV> {
    Seq::new(g.len(), |i: int| g[i]@)
}

/// The values of some groups.
spec fn groups_view(gs: Seq<Vec<Chunk>>) -> Seq<Seq<ChunkV>> {
    Seq::new(gs.len(), |i: int| group_view(gs[i]@))
}

/// Encode a chunk into its shard group.
fn encode_group(piece: &Vec<u8>, er: &Erasure) -> (r: Vec<Chunk>)
    requires
        er.wf(),
    ensures
        group_view(r@) == protocol::shard_group(piece@, *er),
{
    let shards = er.encode(piece.as_slice());
    let ghost ss = erasure::shards(piece@, er.k as nat, er.m as nat);
    assert(erasure::grid(shards@) == ss);
    assert(erasure::grid(shards@).len() == shards@.len());
    let mut out: Vec<Chunk> = Vec::with_capacity(shards.len());
    let mut i: usize = 0;
    while i < shards.len()
        invariant
            i <= shards@.len(),
            shards@.len() == ss.len(),
            erasure::grid(shards@) == ss,
            out@.len() == i,
            forall|j: int|
                0 <= j < i ==> (#[trigger] out@[j])@ == (ChunkV {
                    id: hash::digest(ss[j]),
                    data: ss[j],
                }),
        decreases shards@.len() - i,
    {
        assert(erasure::grid(shards@)[i as int] == shards@[i as int]@);
        let data = shards[i].copy_value();
        out.push(Chunk { id: sha256(data.as_slice()), data });
        i += 1;
    }
    assert(group_view(out@) =~= protocol::shard_group(piece@, *er));
    out
}

/// Encode every chunk of a file into its shard group.
fn encode_groups(bytes: &[u8], size: usize, er: &Erasure) -> (r: Vec<Vec<Chunk>>)
    requires
        er.wf(),
        size > 0,
    ensures
        groups_view(r@) == protocol::shard_groups(bytes@, size as nat, *er),
{
    let parts = chunk::split(bytes, size);
    let ghost ps = chunk::pieces(bytes@, size as nat);
    assert(chunk::parts_view(parts@).len() == parts@.len());
    let mut out: Vec<Vec<Chunk>> = Vec::with_capacity(parts.len());
    let mut i: usize = 0;
    while i < parts.len()
        invariant
            i <= parts@.len(),
            parts@.len() == ps.len(),
            chunk::parts_view(parts@) == ps,
            er.wf(),
            out@.len() == i,
            forall|j: int|
                0 <= j < i ==> group_view((#[trigger] out@[j])@) == protocol::shard_group(
                    ps[j],
                    *er,
                ),
        decreases parts@.len() - i,
    {
        assert(chunk::parts_view(parts@)[i as int] == parts@[i as int]@);
        out.push(encode_group(&parts[i], er));
        i += 1;
    }
    assert(groups_view(out@) =~= protocol::shard_groups(bytes@, size as nat, *er));
    out
}

/// The shard ids of all groups, one after the other.
fn flat_ids(groups: &Vec<Vec<Chunk>>) -> (r: Vec<crate::hash::Hash>)
    ensures
        chunk::ids_view(r@) == protocol::flat_ids(groups_view(groups@), groups@.len()),
{
    let ghost gv = groups_view(groups@);
    let mut out: Vec<crate::hash::Hash> = Vec::new();
    let mut g: usize = 0;
    assert(chunk::ids_view(out@) =~= protocol::flat_ids(gv, 0));
    while g < groups.len()
        invariant
            g <= groups@.len(),
            gv == groups_view(groups@),
            chunk::ids_view(out@) == protocol::flat_ids(gv, g as nat),
        decreases groups@.len() - g,
    {
        let group = &groups[g];
        let ghost before = chunk::ids_view(out@);
        let ghost ids = protocol::ids_of(gv[g as int]);
        let mut i: usize = 0;
        assert(before + ids.take(0) =~= before);
        while i < group.len()
            invariant
                i <= group@.len(),
                gv[g as int] == group_view(group@),
                ids == protocol::ids_of(gv[g as int]),
                chunk::ids_view(out@) == before + ids.take(i as int),
            decreases group@.len() - i,
        {
            let ghost so_far = chunk::ids_view(out@);
            out.push(group[i].id);
            proof {
                assert(chunk::ids_view(out@) =~= so_far.push(group@[i as int].id@));
                assert(ids[i as int] == group@[i as int].id@);
                assert(so_far.push(ids[i as int]) =~= before + ids.take(i + 1));
            }
            i += 1;
        }
        assert(ids.take(ids.len() as int) =~= ids);
        g += 1;
    }
    out
}

struct Spreading {
    msgs: Vec<(NodeId, NodeId, Message)>,
    assigned: OrdMap<crate::hash::Hash, u32>,
    used: OrdSet<u32>,
    here: OrdSet<crate::hash::Hash>,
}

impl View for Spreading {
    type V = Spread;

    closed spec fn view(&self) -> Spread {
        Spread {
            msgs: routed_view(self.msgs@),
            assigned: self.assigned@,
            used: self.used@,
            here: self.here@,
        }
    }
}

fn first_free(ranking: &Vec<u32>, used: &OrdSet<u32>) -> (r: u32)
    requires
        ranking@.len() > 0,
    ensures
        r == protocol::first_free(ranking@, used@, 0),
{
    let mut n: usize = 0;
    while n < ranking.len()
        invariant
            n <= ranking@.len(),
            protocol::first_free(ranking@, used@, 0) == protocol::first_free(
                ranking@,
                used@,
                n as nat,
            ),
        decreases ranking@.len() - n,
    {
        if !used.contains(&ranking[n]) {
            return ranking[n];
        }
        n += 1;
    }
    ranking[0]
}

impl Spreading {
    fn new() -> (r: Self)
        ensures
            r@ == Spread::nothing(),
    {
        let r = Spreading {
            msgs: Vec::new(),
            assigned: OrdMap::new(),
            used: OrdSet::new(),
            here: OrdSet::new(),
        };
        assert(r@ =~= Spread::nothing());
        r
    }

    /// Choose a distinct node for one shard of the group at hand. Identical shard bytes at
    /// several positions of a group are stored once; every position sharing that content
    /// address is satisfied by the same blob.
    fn place_shard(&mut self, c: &Chunk, live: &Vec<u32>)
        requires
            live@.len() > 0,
        ensures
            final(self)@ == old(self)@.with(c@, live@),
    {
        if self.here.contains(&c.id) {
            return;
        }
        let earlier = match self.assigned.get(&c.id) {
            Some(n) => Some(*n),
            None => None,
        };
        match earlier {
            Some(n) => {
                if !self.used.contains(&n) {
                    let _ = self.used.insert(n);
                    let _ = self.here.insert(c.id);
                    assert(self@ =~= old(self)@.with(c@, live@));
                    return;
                }
            },
            None => {},
        }
        let ranking = place(&c.id, live.as_slice(), live.len());
        proof {
            placement::law_placement(c.id@, live@, live@.len());
        }
        let node = first_free(&ranking, &self.used);
        let _ = self.used.insert(node);
        let _ = self.here.insert(c.id);
        self.assigned.insert(c.id, node);
        let ghost before = routed_view(self.msgs@);
        self.msgs.push(
            (
                NodeId::Client,
                NodeId::Storage(node),
                Message::StoreChunk { id: c.id, data: c.data.copy_value() },
            ),
        );
        assert(routed_view(self.msgs@) =~= before.push(
            protocol::store_msg(node, c.id@, c.data@),
        ));
        assert(self@ =~= old(self)@.with(c@, live@));
    }

    fn place_group(&mut self, group: &Vec<Chunk>, live: &Vec<u32>)
        requires
            live@.len() > 0,
        ensures
            final(self)@ == old(self)@.with_group(group_view(group@), live@, group@.len()),
    {
        let ghost gv = group_view(group@);
        self.used = OrdSet::new();
        self.here = OrdSet::new();
        assert(self@ =~= old(self)@.next_group());
        let mut i: usize = 0;
        while i < group.len()
            invariant
                i <= group@.len(),
                live@.len() > 0,
                gv == group_view(group@),
                self@ == old(self)@.with_group(gv, live@, i as nat),
            decreases group@.len() - i,
        {
            self.place_shard(&group[i], live);
            i += 1;
        }
    }
}

fn spread(groups: &Vec<Vec<Chunk>>, live: &Vec<u32>) -> (r: Vec<(NodeId, NodeId, Message)>)
    requires
        live@.len() > 0,
    ensures
        routed_view(r@) == protocol::spread(groups_view(groups@), live@, groups@.len()).msgs,
{
    let ghost gv = groups_view(groups@);
    let mut s = Spreading::new();
    let mut g: usize = 0;
    while g < groups.len()
        invariant
            g <= groups@.len(),
            live@.len() > 0,
            gv == groups_view(groups@),
            s@ == protocol::spread(gv, live@, g as nat),
        decreases groups@.len() - g,
    {
        s.place_group(&groups[g], live);
        g += 1;
    }
    s.msgs
}

fn gather_acked(acked: &mut OrdSet<crate::hash::Hash>, letters: &Vec<(NodeId, Message)>)
    ensures
        final(acked)@ == protocol::acked_after(
            old(acked)@,
            letters_view(letters@),
            letters@.len(),
        ),
{
    let ghost lv = letters_view(letters@);
    let mut i: usize = 0;
    while i < letters.len()
        invariant
            i <= letters@.len(),
            lv == letters_view(letters@),
            acked@ == protocol::acked_after(old(acked)@, lv, i as nat),
        decreases letters@.len() - i,
    {
        match (&letters[i].0, &letters[i].1) {
            (NodeId::Storage(_), Message::StoreAck { id }) => {
                let _ = acked.insert(*id);
            },
            _ => {},
        }
        i += 1;
    }
}

fn acked_positions(group: &Vec<Chunk>, acked: &OrdSet<crate::hash::Hash>) -> (r: usize)
    ensures
        r == protocol::acked_positions(group_view(group@), acked@),
{
    let ghost ids = protocol::ids_of(group_view(group@));
    let ghost keep = |id: Seq<u8>| acked@.contains(id);
    let mut count: usize = 0;
    let mut i: usize = 0;
    assert(ids.take(0).filter(keep) =~= seq![]);
    while i < group.len()
        invariant
            i <= group@.len(),
            ids == protocol::ids_of(group_view(group@)),
            keep == (|id: Seq<u8>| acked@.contains(id)),
            count == ids.take(i as int).filter(keep).len(),
            count <= i,
        decreases group@.len() - i,
    {
        proof {
            crate::namespace::lemma_filter_step(ids, i as int, keep);
        }
        if acked.contains(&group[i].id) {
            count += 1;
        }
        i += 1;
    }
    assert(ids.take(ids.len() as int) =~= ids);
    count
}

fn groups_reached(
    groups: &Vec<Vec<Chunk>>,
    acked: &OrdSet<crate::hash::Hash>,
    quorum: usize,
) -> (r: bool)
    ensures
        r == protocol::groups_met(groups_view(groups@), acked@, quorum as nat),
{
    let ghost gv = groups_view(groups@);
    let mut g: usize = 0;
    while g < groups.len()
        invariant
            g <= groups@.len(),
            gv == groups_view(groups@),
            forall|j: int|
                0 <= j < g ==> protocol::acked_positions(#[trigger] gv[j], acked@) >= quorum,
        decreases groups@.len() - g,
    {
        if acked_positions(&groups[g], acked) < quorum {
            assert(protocol::acked_positions(gv[g as int], acked@) < quorum);
            return false;
        }
        g += 1;
    }
    true
}

fn fewest_positions(groups: &Vec<Vec<Chunk>>, acked: &OrdSet<crate::hash::Hash>) -> (r: usize)
    ensures
        r == protocol::fewest_positions(groups_view(groups@), acked@, groups@.len()),
{
    let ghost gv = groups_view(groups@);
    if groups.len() == 0 {
        return 0;
    }
    let mut min = acked_positions(&groups[0], acked);
    let mut g: usize = 1;
    while g < groups.len()
        invariant
            1 <= g <= groups@.len(),
            gv == groups_view(groups@),
            min == protocol::fewest_positions(gv, acked@, g as nat),
        decreases groups@.len() - g,
    {
        let c = acked_positions(&groups[g], acked);
        if c < min {
            min = c;
        }
        g += 1;
    }
    min
}

impl Cluster {
    fn await_groups(&mut self, groups: &Vec<Vec<Chunk>>, quorum: usize, deadline: u64) -> (r:
        Option<usize>)
        requires
            old(self)@.wf(),
        ensures
            final(self)@.wf(),
            (final(self)@, match r {
                Some(n) => Some(n as nat),
                None => None::<nat>,
            }) == old(self)@.groups_awaited(
                Set::empty(),
                groups_view(groups@),
                quorum as nat,
                deadline,
            ),
    {
        let mut acked: OrdSet<crate::hash::Hash> = OrdSet::new();
        let ghost gv = groups_view(groups@);
        loop
            invariant
                self@.wf(),
                gv == groups_view(groups@),
                self@.groups_awaited(acked@, gv, quorum as nat, deadline)
                    == old(self)@.groups_awaited(Set::empty(), gv, quorum as nat, deadline),
            decreases u64::MAX - self@.net.seq, self@.net.queue.len(),
        {
            let letters = self.take_inbox();
            gather_acked(&mut acked, &letters);
            proof {
                simulation::lemma_pump_progress(self@);
            }
            if groups_reached(groups, &acked, quorum) {
                return None;
            }
            let got = fewest_positions(groups, &acked);
            if self.clock() >= deadline {
                return Some(got);
            }
            if !self.pump_step() {
                return Some(got);
            }
        }
    }

    /// The erasure-coded write path. Every chunk becomes `k + m` shards; the
    /// shards of one chunk go to distinct storage nodes, so losing any `m`
    /// nodes still leaves `k` shards and the chunk stays readable. The write
    /// commits once every chunk group has `max(write_quorum, k)` durable
    /// shard positions, because fewer than k shards cannot reconstruct.
    fn write_file_erasure(&mut self, path: &str, bytes: &[u8], er: Erasure) -> (r: Result<
        (),
        Error,
    >)
        requires
            old(self)@.wf(),
            er.wf(),
        ensures
            final(self)@ == old(self)@.written_erasure(path@, bytes@, er).0,
            crate::error::outcome(r) == old(self)@.written_erasure(path@, bytes@, er).1,
            final(self)@.wf(),
    {
        let opts = self.options();
        let cs = if opts.chunk_size > 1 {
            opts.chunk_size
        } else {
            1
        };
        let live = self.live_storage();
        let total = er.total();
        if live.len() < total {
            return Err(Error::WriteQuorumFailed { needed: total, got: live.len() });
        }
        // Encode every chunk into its shard group and collect the flat shard
        // id list the manifest will carry.
        let groups = encode_groups(bytes, cs, &er);
        assert(groups_view(groups@).len() == groups@.len());
        let manifest = Manifest {
            size: bytes.len() as u64,
            content_hash: sha256(bytes),
            chunks: flat_ids(&groups),
            erasure: Some((er.k as u8, er.m as u8)),
        };
        assert(manifest@ =~= protocol::erasure_manifest(bytes@, cs as nat, er));
        let quorum = if opts.write_quorum > er.k {
            opts.write_quorum
        } else {
            er.k
        };
        let out = spread(&groups, &live);
        self.send_all(out);
        let deadline = self.deadline();
        match self.await_groups(&groups, quorum, deadline) {
            Some(got) => Err(Error::WriteQuorumFailed { needed: quorum, got }),
            None => self.meta_apply(MetaOp::Put { path: path.to_owned(), manifest }, path),
        }
    }

    /// Write `bytes` to `path`, creating or overwriting the file. Chunks are
    /// content-addressed and each is replicated to `write_quorum` nodes before
    /// the file manifest is committed to metadata. With erasure coding
    /// configured, chunks are instead encoded into `k + m` shards spread over
    /// distinct nodes.
    ///
    /// Returns [`Error::InvalidPath`] for a malformed path,
    /// [`Error::WriteQuorumFailed`] when chunk acknowledgements fall short of
    /// the quorum within the deadline, and [`Error::MetadataUnavailable`] when
    /// the manifest cannot be committed.
    pub fn write_file(&mut self, path: &str, bytes: &[u8]) -> (r: Result<(), Error>)
        requires
            old(self)@.wf(),
            path::normal(path@) && old(self)@.opts.erasure is None
                ==> old(self)@.opts.chunk_size > 0,
        ensures
            final(self)@ == old(self)@.written(path@, bytes@).0,
            crate::error::outcome(r) == old(self)@.written(path@, bytes@).1,
            final(self)@.wf(),
    {
        let p = match normalize(path) {
            None => return Err(Error::InvalidPath(path.to_owned())),
            Some(p) => p,
        };
        match self.options().erasure {
            Some(er) => self.write_file_erasure(p.as_str(), bytes, er),
            None => self.write_file_replicated(p.as_str(), bytes),
        }
    }
}

struct Gathering {
    have: OrdMap<crate::hash::Hash, Vec<u8>>,
    sources: OrdMap<crate::hash::Hash, OrdSet<u32>>,
    missing: OrdMap<crate::hash::Hash, OrdSet<u32>>,
}

impl View for Gathering {
    type V = Gathered;

    closed spec fn view(&self) -> Gathered {
        Gathered { have: self.have@, sources: self.sources@, missing: self.missing@ }
    }
}

impl Gathering {
    fn new() -> (r: Self)
        ensures
            r@ == Gathered::nothing(),
    {
        Gathering { have: OrdMap::new(), sources: OrdMap::new(), missing: OrdMap::new() }
    }

    fn absorb(&mut self, from: NodeId, msg: &Message)
        ensures
            final(self)@ == old(self)@.with(Letter { from, msg: msg@ }),
    {
        match msg {
            Message::ChunkData { id, data } => {
                let good = match data {
                    Some(d) => sha256(d.as_slice()).same(id),
                    None => false,
                };
                if good {
                    if let Some(d) = data {
                        if !self.have.contains_key(id) {
                            self.have.insert(*id, d.copy_value());
                        }
                    }
                    match from {
                        NodeId::Storage(i) => note(&mut self.sources, *id, i),
                        _ => {},
                    }
                } else {
                    match from {
                        NodeId::Storage(i) => note(&mut self.missing, *id, i),
                        _ => {},
                    }
                }
            },
            _ => {},
        }
        assert(self@ =~= old(self)@.with(Letter { from, msg: msg@ }));
    }

    fn absorb_all(&mut self, letters: &Vec<(NodeId, Message)>)
        ensures
            final(self)@ == old(self)@.with_all(letters_view(letters@), letters@.len()),
    {
        let ghost lv = letters_view(letters@);
        let mut i: usize = 0;
        while i < letters.len()
            invariant
                i <= letters@.len(),
                lv == letters_view(letters@),
                self@ == old(self)@.with_all(lv, i as nat),
            decreases letters@.len() - i,
        {
            self.absorb(letters[i].0, &letters[i].1);
            i += 1;
        }
    }

    fn enough(&self, id: &crate::hash::Hash, quorum: usize) -> (r: bool)
        ensures
            r == self@.enough(id@, quorum as nat),
    {
        self.have.contains_key(id) && (quorum <= 1 || noted_count(&self.sources, id) >= quorum)
    }

    fn first_short(&self, ids: &OrdSet<crate::hash::Hash>, quorum: usize) -> (r: Option<
        crate::hash::Hash,
    >)
        ensures
            protocol::first_short(
                self@,
                ordmap::in_order::<crate::hash::Hash>(ids@),
                quorum as nat,
                0,
            ) == (match r {
                Some(id) => Some(id@),
                None => None::<Seq<u8>>,
            }),
            r is None <==> self@.enough_all(
                ordmap::in_order::<crate::hash::Hash>(ids@),
                quorum as nat,
            ),
    {
        let n = ids.len();
        let ghost ks = ordmap::in_order::<crate::hash::Hash>(ids@);
        let mut i: usize = 0;
        while i < n
            invariant
                i <= n,
                n == ks.len(),
                ks == ordmap::in_order::<crate::hash::Hash>(ids@),
                forall|j: int| 0 <= j < i ==> self@.enough(#[trigger] ks[j], quorum as nat),
                protocol::first_short(self@, ks, quorum as nat, 0) == protocol::first_short(
                    self@,
                    ks,
                    quorum as nat,
                    i as nat,
                ),
            decreases n - i,
        {
            let id = ids.at(i);
            if !self.enough(id, quorum) {
                assert(!self@.enough(ks[i as int], quorum as nat));
                return Some(*id);
            }
            i += 1;
        }
        None
    }
}

/// The messages that ask some nodes for a chunk.
fn fetches_for(id: &crate::hash::Hash, nodes: &Vec<u32>) -> (r: Vec<(NodeId, NodeId, Message)>)
    ensures
        routed_view(r@) == nodes@.map_values(|n: u32| protocol::fetch_msg(n, id@)),
{
    let mut out: Vec<(NodeId, NodeId, Message)> = Vec::with_capacity(nodes.len());
    let mut i: usize = 0;
    while i < nodes.len()
        invariant
            i <= nodes@.len(),
            out@.len() == i,
            forall|j: int|
                0 <= j < i ==> (#[trigger] out@[j]).0 == NodeId::Client && out@[j].1
                    == NodeId::Storage(nodes@[j]) && out@[j].2@ == (MessageV::FetchChunk {
                    id: id@,
                }),
        decreases nodes@.len() - i,
    {
        out.push((NodeId::Client, NodeId::Storage(nodes[i]), Message::FetchChunk { id: *id }));
        i += 1;
    }
    assert(routed_view(out@) =~= nodes@.map_values(|n: u32| protocol::fetch_msg(n, id@)));
    out
}

/// Those of some nodes that lacked a chunk.
fn lacking(nodes: &Vec<u32>, missing: &OrdMap<crate::hash::Hash, OrdSet<u32>>, id: &crate::hash::Hash) -> (r:
    Vec<u32>)
    ensures
        r@ == nodes@.filter(|n: u32| protocol::noted_for(missing@, id@).contains(n)),
{
    let ghost keep = |n: u32| protocol::noted_for(missing@, id@).contains(n);
    let mut out: Vec<u32> = Vec::new();
    let mut i: usize = 0;
    assert(nodes@.take(0).filter(keep) =~= seq![]);
    while i < nodes.len()
        invariant
            i <= nodes@.len(),
            keep == (|n: u32| protocol::noted_for(missing@, id@).contains(n)),
            out@ == nodes@.take(i as int).filter(keep),
        decreases nodes@.len() - i,
    {
        proof {
            crate::namespace::lemma_filter_step(nodes@, i as int, keep);
        }
        let n = nodes[i];
        let lacks = match missing.get(id) {
            Some(s) => s.contains(&n),
            None => false,
        };
        if lacks {
            out.push(n);
        }
        i += 1;
    }
    assert(nodes@.take(nodes@.len() as int) =~= nodes@);
    out
}

impl Cluster {
    /// Ask every live node for each chunk and gather verified copies.
    fn fetch(&mut self, ids: &OrdSet<crate::hash::Hash>, quorum: usize) -> (r: Gathering)
        requires
            old(self)@.wf(),
        ensures
            final(self)@.wf(),
            (final(self)@, r@) == old(self)@.fetched(
                ordmap::in_order::<crate::hash::Hash>(ids@),
                quorum as nat,
            ),
    {
        let live = self.live_storage();
        let n = ids.len();
        let ghost start = self@;
        let ghost ks = ordmap::in_order::<crate::hash::Hash>(ids@);
        let mut i: usize = 0;
        assert(self@ =~= start.sent_all(protocol::fetch_msgs(ks, live@, 0)));
        while i < n
            invariant
                i <= n,
                n == ks.len(),
                ks == ordmap::in_order::<crate::hash::Hash>(ids@),
                self@ == start.sent_all(protocol::fetch_msgs(ks, live@, i as nat)),
            decreases n - i,
        {
            let out = fetches_for(ids.at(i), &live);
            proof {
                simulation::lemma_sent_all_concat(
                    start.net,
                    protocol::fetch_msgs(ks, live@, i as nat),
                    routed_view(out@),
                );
            }
            self.send_all(out);
            assert(self@ =~= start.sent_all(protocol::fetch_msgs(ks, live@, (i + 1) as nat)));
            i += 1;
        }
        assert(self@.wf());
        let deadline = self.deadline();
        let mut got = Gathering::new();
        loop
            invariant
                self@.wf(),
                start == old(self)@,
                ks == ordmap::in_order::<crate::hash::Hash>(ids@),
                self@.chunks_gathered(got@, ks, quorum as nat, deadline) == start.fetched(
                    ks,
                    quorum as nat,
                ),
            decreases u64::MAX - self@.net.seq, self@.net.queue.len(),
        {
            let letters = self.take_inbox();
            got.absorb_all(&letters);
            proof {
                simulation::lemma_pump_progress(self@);
            }
            let done = got.first_short(ids, quorum).is_none();
            if done || self.clock() >= deadline {
                return got;
            }
            if !self.pump_step() {
                return got;
            }
        }
    }

    /// Light read-repair: hand any live desired node that lacked a chunk a
    /// fresh copy. Fire and forget, the acks are drained by later ops.
    fn repair(&mut self, got: &Gathering, ids: &OrdSet<crate::hash::Hash>, live: &Vec<u32>, r: usize)
        requires
            old(self)@.wf(),
            forall|id: Seq<u8>| #[trigger] ids@.contains(id) ==> got@.have.dom().contains(id),
        ensures
            final(self)@.wf(),
            final(self)@ == ({
                let ks = ordmap::in_order::<crate::hash::Hash>(ids@);
                old(self)@.sent_all(protocol::repair_msgs(got@, ks, live@, r as nat, ks.len()))
            }),
    {
        let n = ids.len();
        let ghost start = self@;
        let ghost ks = ordmap::in_order::<crate::hash::Hash>(ids@);
        let mut i: usize = 0;
        assert(self@ =~= start.sent_all(protocol::repair_msgs(got@, ks, live@, r as nat, 0)));
        while i < n
            invariant
                i <= n,
                n == ks.len(),
                ks == ordmap::in_order::<crate::hash::Hash>(ids@),
                forall|id: Seq<u8>| #[trigger] ids@.contains(id) ==> got@.have.dom().contains(id),
                self@ == start.sent_all(
                    protocol::repair_msgs(got@, ks, live@, r as nat, i as nat),
                ),
            decreases n - i,
        {
            let id = ids.at(i);
            let nodes = place(id, live.as_slice(), r);
            let short = lacking(&nodes, &got.missing, id);
            match got.have.get(id) {
                Some(data) => {
                    let out = stores_for(id, data, &short);
                    proof {
                        simulation::lemma_sent_all_concat(
                            start.net,
                            protocol::repair_msgs(got@, ks, live@, r as nat, i as nat),
                            routed_view(out@),
                        );
                        assert(routed_view(out@) =~= placement::placed(
                            id@,
                            live@,
                            r as nat,
                        ).filter(
                            |node: u32| protocol::noted_for(got@.missing, id@).contains(node),
                        ).map_values(
                            |node: u32| protocol::store_msg(node, id@, got@.have[id@]),
                        ));
                    }
                    self.send_all(out);
                },
                None => {
                    assert(false);
                },
            }
            assert(self@ =~= start.sent_all(
                protocol::repair_msgs(got@, ks, live@, r as nat, (i + 1) as nat),
            ));
            i += 1;
        }
    }

    /// The replicated read path.
    fn read_file_replicated(&mut self, manifest: &Manifest) -> (r: Result<Vec<u8>, Error>)
        requires
            old(self)@.wf(),
        ensures
            final(self)@.wf(),
            final(self)@ == old(self)@.read_replicated(manifest@).0,
            old(self)@.read_replicated(manifest@).1 == (match r {
                Ok(b) => Ok::<Seq<u8>, ErrorV>(b@),
                Err(e) => Err(e@),
            }),
    {
        let opts = self.options();
        let live = self.live_storage();
        let ids = distinct_ids(manifest);
        let ghost ks = ordmap::in_order::<crate::hash::Hash>(ids@);
        let got = self.fetch(&ids, opts.read_quorum);
        match got.first_short(&ids, opts.read_quorum) {
            Some(id) => return Err(Error::ChunkUnavailable(id.short())),
            None => {},
        }
        proof {
            ids.lemma_finite();
            ordmap::lemma_order_of::<crate::hash::Hash>(ids@);
            assert forall|id: Seq<u8>| #[trigger]
                ids@.contains(id) implies got@.have.dom().contains(id) by {
                assert(ks.to_set().contains(id));
                let j = choose|j: int| 0 <= j < ks.len() && ks[j] == id;
                assert(got@.enough(ks[j], opts.read_quorum as nat));
            }
        }
        self.repair(&got, &ids, &live, opts.replication_factor);
        let parts = collect_parts(&manifest.chunks, &got.have);
        let bytes = reassemble(parts.as_slice());
        if !sha256(bytes.as_slice()).same(&manifest.content_hash) {
            return Err(Error::IntegrityError);
        }
        Ok(bytes)
    }
}

/// The distinct chunk ids of a manifest.
fn distinct_ids(manifest: &Manifest) -> (r: OrdSet<crate::hash::Hash>)
    ensures
        r@ == manifest@.chunks.to_set(),
{
    let mut ids: OrdSet<crate::hash::Hash> = OrdSet::new();
    collect_ids(&mut ids, &manifest.chunks);
    assert(ids@ =~= manifest@.chunks.to_set());
    ids
}

/// The bytes of some chunks in order.
fn collect_parts(
    ids: &Vec<crate::hash::Hash>,
    have: &OrdMap<crate::hash::Hash, Vec<u8>>,
) -> (r: Vec<Vec<u8>>)
    requires
        forall|id: Seq<u8>| #[trigger]
            chunk::ids_view(ids@).to_set().contains(id) ==> have@.dom().contains(id),
    ensures
        chunk::parts_view(r@) == chunk::ids_view(ids@).map_values(|id: Seq<u8>| have@[id]),
{
    let mut parts: Vec<Vec<u8>> = Vec::with_capacity(ids.len());
    let ghost iv = chunk::ids_view(ids@);
    let mut i: usize = 0;
    while i < ids.len()
        invariant
            i <= ids@.len(),
            iv == chunk::ids_view(ids@),
            forall|id: Seq<u8>| #[trigger] iv.to_set().contains(id) ==> have@.dom().contains(id),
            parts@.len() == i,
            forall|j: int| 0 <= j < i ==> (#[trigger] parts@[j])@ == have@[iv[j]],
        decreases ids@.len() - i,
    {
        assert(iv.contains(iv[i as int]));
        assert(iv.to_set().contains(iv[i as int]));
        match have.get(&ids[i]) {
            Some(d) => parts.push(d.copy_value()),
            None => {
                assert(false);
            },
        }
        i += 1;
    }
    assert(chunk::parts_view(parts@) =~= iv.map_values(|id: Seq<u8>| have@[id]));
    parts
}

/// Shards of a group that were gathered and have the right length, by position.
fn usable<'a>(
    have: &'a OrdMap<crate::hash::Hash, Vec<u8>>,
    ids: &Vec<crate::hash::Hash>,
    base: usize,
    total: usize,
    shard_len: usize,
) -> (r: Vec<Option<&'a [u8]>>)
    requires
        base + total <= ids@.len(),
    ensures
        r@.len() == total,
        forall|i: int|
            0 <= i < total ==> (match #[trigger] r@[i] {
                Some(d) => have@.dom().contains(ids@[base + i]@) && d@ == have@[ids@[base + i]@]
                    && d@.len() == shard_len,
                None => !(have@.dom().contains(ids@[base + i]@) && have@[ids@[base + i]@].len()
                    == shard_len),
            }),
{
    let mut slots: Vec<Option<&'a [u8]>> = Vec::with_capacity(total);
    let mut i: usize = 0;
    let n = ids.len();
    while i < total
        invariant
            i <= total,
            n == ids@.len(),
            base + total <= n,
            slots@.len() == i,
            forall|j: int|
                0 <= j < i ==> (match #[trigger] slots@[j] {
                    Some(d) => have@.dom().contains(ids@[base + j]@) && d@
                        == have@[ids@[base + j]@] && d@.len() == shard_len,
                    None => !(have@.dom().contains(ids@[base + j]@)
                        && have@[ids@[base + j]@].len() == shard_len),
                }),
        decreases total - i,
    {
        let slot = match have.get(&ids[base + i]) {
            Some(d) => {
                if d.len() == shard_len {
                    Some(d.as_slice())
                } else {
                    None
                }
            },
            None => None,
        };
        slots.push(slot);
        i += 1;
    }
    slots
}

/// The messages that bring missing shards back: rebuild every missing position from the
/// reconstructed chunk and hand it to the best live node for that shard.
fn rebuilds(
    slots: &Vec<Option<&[u8]>>,
    ids: &Vec<crate::hash::Hash>,
    base: usize,
    full: &Vec<Vec<u8>>,
    live: &Vec<u32>,
) -> (r: Vec<(NodeId, NodeId, Message)>)
    requires
        base + slots@.len() <= ids@.len(),
        full@.len() == slots@.len(),
    ensures
        routed_view(r@) == protocol::rebuild_msgs(
            erasure::slots_view(slots@),
            chunk::ids_view(ids@).subrange(base as int, base + slots@.len()),
            erasure::grid(full@),
            live@,
            slots@.len(),
        ),
{
    let ghost sv = erasure::slots_view(slots@);
    let ghost iv = chunk::ids_view(ids@).subrange(base as int, base + slots@.len());
    let ghost fv = erasure::grid(full@);
    let n = ids.len();
    let mut out: Vec<(NodeId, NodeId, Message)> = Vec::new();
    let mut i: usize = 0;
    assert(routed_view(out@) =~= protocol::rebuild_msgs(sv, iv, fv, live@, 0));
    while i < slots.len()
        invariant
            i <= slots@.len(),
            n == ids@.len(),
            base + slots@.len() <= n,
            full@.len() == slots@.len(),
            sv == erasure::slots_view(slots@),
            iv == chunk::ids_view(ids@).subrange(base as int, base + slots@.len()),
            fv == erasure::grid(full@),
            routed_view(out@) == protocol::rebuild_msgs(sv, iv, fv, live@, i as nat),
        decreases slots@.len() - i,
    {
        let id = &ids[base + i];
        proof {
            assert(sv[i as int] is None <==> slots@[i as int] is None);
            assert(iv[i as int] == id@);
            assert(fv[i as int] == full@[i as int]@);
        }
        let absent = slots[i].is_none();
        if absent && sha256(full[i].as_slice()).same(id) && live.len() > 0 {
            let nodes = place(id, live.as_slice(), 1);
            proof {
                placement::law_placement(id@, live@, 1);
            }
            let node = nodes[0];
            let ghost before = routed_view(out@);
            out.push(
                (
                    NodeId::Client,
                    NodeId::Storage(node),
                    Message::StoreChunk { id: *id, data: full[i].copy_value() },
                ),
            );
            assert(routed_view(out@) =~= before.push(
                protocol::store_msg(node, id@, full@[i as int]@),
            ));
        }
        i += 1;
    }
    out
}

proof fn lemma_group_inside(len: nat, total: nat, g: nat)
    requires
        total > 0,
        g < len / total,
    ensures
        (g + 1) * total <= len,
        (g + 1) * total == g * total + total,
{
    let q = len / total;
    vstd::arithmetic::div_mod::lemma_fundamental_div_mod(len as int, total as int);
    assert((g + 1) * total <= q * total) by (nonlinear_arith)
        requires
            g + 1 <= q,
    ;
    assert(q * total == total * q) by (nonlinear_arith);
    assert((g + 1) * total == g * total + total) by (nonlinear_arith);
}

impl Cluster {
    /// Reconstruct every group, repairing lost shards on the way.
    fn rebuild_groups(
        &mut self,
        path: &str,
        manifest: &Manifest,
        er: &Erasure,
        live: &Vec<u32>,
        got: &Gathering,
    ) -> (r: Result<Vec<Vec<u8>>, Error>)
        requires
            old(self)@.wf(),
            er.wf(),
        ensures
            final(self)@.wf(),
            final(self)@ == old(self)@.groups_rebuilt(path@, manifest@, *er, live@, got@, 0).0,
            old(self)@.groups_rebuilt(path@, manifest@, *er, live@, got@, 0).1 == (match r {
                Ok(parts) => Ok::<Seq<Seq<u8>>, ErrorV>(chunk::parts_view(parts@)),
                Err(e) => Err(e@),
            }),
    {
        let ghost start = self@;
        let opts = self.options();
        let cs: u64 = if opts.chunk_size > 1 {
            opts.chunk_size as u64
        } else {
            1
        };
        let total = er.total();
        let n = manifest.chunks.len();
        let n_groups = n / total;
        let size = manifest.size;
        let ghost mv = manifest@;
        let mut out: Vec<Vec<u8>> = Vec::new();
        let mut g: usize = 0;
        let mut base: usize = 0;
        let mut off: u64 = 0;
        proof {
            assert(0 * total == 0) by (nonlinear_arith);
            assert(0 * cs == 0) by (nonlinear_arith);
            let r = start.groups_rebuilt(path@, mv, *er, live@, got@, 0);
            if let Ok(rest) = r.1 {
                assert(chunk::parts_view(out@) + rest =~= rest);
            }
        }
        while g < n_groups
            invariant
                g <= n_groups,
                self@.wf(),
                er.wf(),
                start == old(self)@,
                opts == start.opts,
                self@.opts == start.opts,
                cs == start.group_size(),
                total == er.k + er.m,
                mv == manifest@,
                n == manifest.chunks@.len(),
                n == mv.chunks.len(),
                size == mv.size,
                n_groups == n as nat / total as nat,
                base == g * total,
                off == (if g * cs <= size {
                    g * cs
                } else {
                    size as int
                }),
                ({
                    let a = start.groups_rebuilt(path@, mv, *er, live@, got@, 0);
                    let b = self@.groups_rebuilt(path@, mv, *er, live@, got@, g as nat);
                    match b.1 {
                        Ok(rest) => a == (
                            b.0,
                            Ok::<Seq<Seq<u8>>, ErrorV>(chunk::parts_view(out@) + rest),
                        ),
                        Err(e) => a == (b.0, Err::<Seq<Seq<u8>>, ErrorV>(e)),
                    }
                }),
            decreases n_groups - g,
        {
            proof {
                lemma_group_inside(n as nat, total as nat, g as nat);
                assert((g + 1) * cs == g * cs + cs) by (nonlinear_arith);
            }
            let left = size - off;
            let chunk_len: usize = if left < cs {
                left as usize
            } else {
                cs as usize
            };
            let ghost len = protocol::group_len(size as nat, cs as nat, g as nat);
            assert(chunk_len == len);
            let q = er.shard_len(chunk_len);
            let shard_len = if q == 0 {
                1
            } else {
                q
            };
            let slots = usable(&got.have, &manifest.chunks, base, total, shard_len);
            let ghost ids = mv.chunks.subrange((g * total) as int, ((g + 1) * total) as int);
            let ghost sv = protocol::group_slots(got@, ids, len, *er);
            proof {
                let seen = erasure::slots_view(slots@);
                assert forall|i: int| 0 <= i < total implies #[trigger] seen[i] == sv[i] by {
                    assert(ids[i] == manifest.chunks@[base + i]@);
                    assert(slots@[i] == slots@[i]);
                }
                assert(seen =~= sv);
            }
            let ghost step = self@.groups_rebuilt(path@, mv, *er, live@, got@, g as nat);
            match er.decode(slots.as_slice(), chunk_len) {
                Err(_) => {
                    let mut s = path.to_owned();
                    s.append(" chunk group ");
                    text::append_decimal(&mut s, g as u64);
                    return Err(Error::ChunkUnavailable(s));
                },
                Ok(piece) => {
                    let full = er.encode(piece.as_slice());
                    proof {
                        assert(erasure::grid(full@).len() == full@.len());
                    }
                    let msgs = rebuilds(&slots, &manifest.chunks, base, &full, live);
                    let ghost before = chunk::parts_view(out@);
                    let ghost pv = piece@;
                    proof {
                        assert(ids =~= chunk::ids_view(manifest.chunks@).subrange(
                            base as int,
                            base + slots@.len(),
                        ));
                    }
                    self.send_all(msgs);
                    out.push(piece);
                    proof {
                        assert(chunk::parts_view(out@) =~= before.push(pv));
                        let next = self@.groups_rebuilt(
                            path@,
                            mv,
                            *er,
                            live@,
                            got@,
                            (g + 1) as nat,
                        );
                        match next.1 {
                            Ok(rest) => {
                                assert(step == (
                                    next.0,
                                    Ok::<Seq<Seq<u8>>, ErrorV>(seq![pv] + rest),
                                ));
                                assert(before + (seq![pv] + rest) =~= before.push(pv) + rest);
                            },
                            Err(e) => {
                                assert(step == (next.0, Err::<Seq<Seq<u8>>, ErrorV>(e)));
                            },
                        }
                    }
                },
            }
            g += 1;
            base += total;
            off = if size - off > cs {
                off + cs
            } else {
                size
            };
        }
        assert(chunk::parts_view(out@) + Seq::<Seq<u8>>::empty() =~= chunk::parts_view(out@));
        Ok(out)
    }

    /// The erasure-coded read path. Every shard position is fetched from the
    /// live nodes and verified against its content address, so a corrupt or
    /// misplaced shard degrades to a missing one. Any k verified positions
    /// reconstruct a chunk; after reconstruction, lost shard positions are
    /// re-encoded and re-stored as fire-and-forget repair.
    fn read_file_erasure(&mut self, path: &str, manifest: &Manifest, er: Erasure) -> (r: Result<
        Vec<u8>,
        Error,
    >)
        requires
            old(self)@.wf(),
            er.wf(),
        ensures
            final(self)@.wf(),
            final(self)@ == old(self)@.read_erasure(path@, manifest@, er).0,
            old(self)@.read_erasure(path@, manifest@, er).1 == (match r {
                Ok(b) => Ok::<Seq<u8>, ErrorV>(b@),
                Err(e) => Err(e@),
            }),
    {
        let live = self.live_storage();
        let ids = distinct_ids(manifest);
        let got = self.fetch(&ids, 1);
        let parts = match self.rebuild_groups(path, manifest, &er, &live, &got) {
            Err(e) => return Err(e),
            Ok(p) => p,
        };
        let bytes = reassemble(parts.as_slice());
        if !sha256(bytes.as_slice()).same(&manifest.content_hash) {
            return Err(Error::IntegrityError);
        }
        Ok(bytes)
    }

    /// Read the whole file at `path`, verifying its content hash end to end.
    ///
    /// Returns [`Error::InvalidPath`] for a malformed path,
    /// [`Error::NotFound`] when the file does not exist,
    /// [`Error::MetadataUnavailable`] when the metadata service cannot answer,
    /// [`Error::ChunkUnavailable`] when no live copy of a needed chunk (or
    /// enough erasure shards) survives, and [`Error::IntegrityError`] when the
    /// reassembled bytes fail the content hash.
    pub fn read_file(&mut self, path: &str) -> (r: Result<Vec<u8>, Error>)
        requires
            old(self)@.wf(),
        ensures
            final(self)@.wf(),
            final(self)@ == old(self)@.read(path@).0,
            old(self)@.read(path@).1 == (match r {
                Ok(b) => Ok::<Seq<u8>, ErrorV>(b@),
                Err(e) => Err(e@),
            }),
    {
        let p = match normalize(path) {
            None => return Err(Error::InvalidPath(path.to_owned())),
            Some(p) => p,
        };
        let manifest = match self.meta_query(Query::Get { path: p }) {
            Err(e) => return Err(e),
            Ok(QueryResult::Manifest(Some(m))) => m,
            Ok(QueryResult::Manifest(None)) => return Err(Error::NotFound(path.to_owned())),
            Ok(QueryResult::Rejected(c)) => return Err(meta_err(c, path)),
            Ok(_) => return Err(Error::MetadataUnavailable),
        };
        match manifest.erasure {
            None => self.read_file_replicated(&manifest),
            Some((k, m)) => match Erasure::new(k as usize, m as usize) {
                Ok(er) => self.read_file_erasure(path, &manifest, er),
                Err(_) => Err(Error::IntegrityError),
            },
        }
    }
}

} // verus!

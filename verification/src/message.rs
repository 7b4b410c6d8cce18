//! Wire messages exchanged between the client coordinator, the metadata
//! service, and the storage nodes, plus their serialization.
//!
//! Every value here round-trips through [`crate::encode`]. Messages travel the
//! simulated network as bytes and are decoded on delivery, so the format is
//! exercised on every hop. The byte layout is stated in [`crate::wire`].

use crate::chunk::{self, Manifest, ManifestV};
use crate::encode::{self, Decoder, Encoder, Step};
use crate::error::{malformed, Error, ErrorV};
use crate::ordmap::Dup;
use crate::text;
use crate::wire;
use vstd::prelude::*;

pub use crate::code;

verus! {

/// Identity of a participant in the cluster.
#[derive(Clone, Copy, PartialEq, Eq, PartialOrd, Ord, Hash, Debug, Structural)]
pub enum NodeId {
    /// The client coordinator that drives file operations.
    Client,
    /// A storage node by index.
    Storage(u32),
    /// A metadata node by index.
    Meta(u32),
}

/// A directory listing entry.
#[derive(Clone, PartialEq, Eq, Debug)]
pub struct DirEntry {
    /// Final path component.
    pub name: String,
    /// Whether the entry is a directory.
    pub is_dir: bool,
    /// File size in bytes (zero for directories).
    pub size: u64,
}

/// The mathematical value of a [`DirEntry`].
pub struct DirEntryV {
    pub name: Seq<char>,
    pub is_dir: bool,
    pub size: u64,
}

impl View for DirEntry {
    type V = DirEntryV;

    open spec fn view(&self) -> DirEntryV {
        DirEntryV { name: self.name@, is_dir: self.is_dir, size: self.size }
    }
}

/// The values of some listing entries.
pub open spec fn entries_view(es: Seq<DirEntry>) -> Seq<DirEntryV> {
    Seq::new(es.len(), |i: int| es[i]@)
}

/// Metadata about a single path.
#[derive(Clone, PartialEq, Eq, Debug)]
pub struct StatInfo {
    /// Whether the path is a directory.
    pub is_dir: bool,
    /// File size in bytes (zero for directories).
    pub size: u64,
    /// Whole-file content hash (all zero for directories).
    pub content_hash: crate::hash::Hash,
}

/// The mathematical value of a [`StatInfo`].
pub struct StatInfoV {
    pub is_dir: bool,
    pub size: u64,
    pub content_hash: Seq<u8>,
}

impl View for StatInfo {
    type V = StatInfoV;

    open spec fn view(&self) -> StatInfoV {
        StatInfoV { is_dir: self.is_dir, size: self.size, content_hash: self.content_hash@ }
    }
}

/// A mutating metadata operation. These are the entries of the replicated log.
#[derive(Clone, PartialEq, Eq, Debug)]
pub enum MetaOp {
    /// Create or overwrite a file with the given manifest.
    Put {
        /// Absolute file path.
        path: String,
        /// The file manifest.
        manifest: Manifest,
    },
    /// Create a directory.
    Mkdir {
        /// Absolute directory path.
        path: String,
    },
    /// Delete a file or empty directory.
    Delete {
        /// Absolute path.
        path: String,
    },
    /// Rename a file or directory subtree.
    Rename {
        /// Source path.
        from: String,
        /// Destination path.
        to: String,
    },
}

/// The mathematical value of a [`MetaOp`].
pub enum MetaOpV {
    Put { path: Seq<char>, manifest: ManifestV },
    Mkdir { path: Seq<char> },
    Delete { path: Seq<char> },
    Rename { from: Seq<char>, to: Seq<char> },
}

impl View for MetaOp {
    type V = MetaOpV;

    open spec fn view(&self) -> MetaOpV {
        match *self {
            MetaOp::Put { path, manifest } => MetaOpV::Put { path: path@, manifest: manifest@ },
            MetaOp::Mkdir { path } => MetaOpV::Mkdir { path: path@ },
            MetaOp::Delete { path } => MetaOpV::Delete { path: path@ },
            MetaOp::Rename { from, to } => MetaOpV::Rename { from: from@, to: to@ },
        }
    }
}

/// A read-only metadata query.
#[derive(Clone, PartialEq, Eq, Debug)]
pub enum Query {
    /// Fetch the manifest for a file path.
    Get {
        /// Absolute file path.
        path: String,
    },
    /// List the immediate children of a directory.
    List {
        /// Absolute directory path.
        path: String,
    },
    /// Stat a single path.
    Stat {
        /// Absolute path.
        path: String,
    },
}

/// The mathematical value of a [`Query`].
pub enum QueryV {
    Get { path: Seq<char> },
    List { path: Seq<char> },
    Stat { path: Seq<char> },
}

impl View for Query {
    type V = QueryV;

    open spec fn view(&self) -> QueryV {
        match *self {
            Query::Get { path } => QueryV::Get { path: path@ },
            Query::List { path } => QueryV::List { path: path@ },
            Query::Stat { path } => QueryV::Stat { path: path@ },
        }
    }
}

/// The outcome of a mutating metadata operation.
#[derive(Clone, Copy, PartialEq, Eq, Debug, Structural)]
pub enum MetaResult {
    /// The op committed.
    Committed,
    /// The op was rejected. The code maps to an [`Error`] via [`meta_err`].
    Rejected(u8),
}

/// Result of a metadata query.
#[derive(Clone, PartialEq, Eq, Debug)]
pub enum QueryResult {
    /// Manifest for [`Query::Get`], `None` when the file is missing.
    Manifest(Option<Manifest>),
    /// Listing for [`Query::List`].
    Listing(Vec<DirEntry>),
    /// Stat for [`Query::Stat`], `None` when the path is missing.
    Stat(Option<StatInfo>),
    /// The query was rejected (for example listing a non-directory).
    Rejected(u8),
}

/// The mathematical value of a [`QueryResult`].
pub enum QueryResultV {
    Manifest(Option<ManifestV>),
    Listing(Seq<DirEntryV>),
    Stat(Option<StatInfoV>),
    Rejected(u8),
}

/// The value of an optional manifest.
pub open spec fn manifest_opt_view(m: Option<Manifest>) -> Option<ManifestV> {
    match m {
        Some(m) => Some(m@),
        None => None,
    }
}

impl View for QueryResult {
    type V = QueryResultV;

    open spec fn view(&self) -> QueryResultV {
        match *self {
            QueryResult::Manifest(m) => QueryResultV::Manifest(manifest_opt_view(m)),
            QueryResult::Listing(es) => QueryResultV::Listing(entries_view(es@)),
            QueryResult::Stat(Some(s)) => QueryResultV::Stat(Some(s@)),
            QueryResult::Stat(None) => QueryResultV::Stat(None),
            QueryResult::Rejected(c) => QueryResultV::Rejected(c),
        }
    }
}

/// The error that a metadata error code stands for.
pub open spec fn meta_error(c: u8, path: Seq<char>) -> ErrorV {
    if c == code::NOT_FOUND {
        ErrorV::NotFound(path)
    } else if c == code::ALREADY_EXISTS {
        ErrorV::AlreadyExists(path)
    } else if c == code::NOT_A_DIRECTORY {
        ErrorV::NotADirectory(path)
    } else if c == code::IS_A_DIRECTORY {
        ErrorV::IsADirectory(path)
    } else if c == code::NOT_EMPTY {
        ErrorV::DirectoryNotEmpty(path)
    } else {
        ErrorV::InvalidPath(path)
    }
}

/// Translate a metadata error code into an [`Error`], attaching `path`.
pub fn meta_err(c: u8, path: &str) -> (r: Error)
    ensures
        r@ == meta_error(c, path@),
{
    if c == code::NOT_FOUND {
        Error::NotFound(path.to_owned())
    } else if c == code::ALREADY_EXISTS {
        Error::AlreadyExists(path.to_owned())
    } else if c == code::NOT_A_DIRECTORY {
        Error::NotADirectory(path.to_owned())
    } else if c == code::IS_A_DIRECTORY {
        Error::IsADirectory(path.to_owned())
    } else if c == code::NOT_EMPTY {
        Error::DirectoryNotEmpty(path.to_owned())
    } else {
        Error::InvalidPath(path.to_owned())
    }
}

/// A message on the simulated wire.
#[derive(Clone, PartialEq, Eq, Debug)]
pub enum Message {
    /// Coordinator asks a storage node to persist a chunk.
    StoreChunk {
        /// Chunk id.
        id: crate::hash::Hash,
        /// Chunk bytes.
        data: Vec<u8>,
    },
    /// Storage node confirms a chunk is durable.
    StoreAck {
        /// Chunk id.
        id: crate::hash::Hash,
    },
    /// Coordinator asks a storage node for a chunk.
    FetchChunk {
        /// Chunk id.
        id: crate::hash::Hash,
    },
    /// Storage node returns chunk bytes, or `None` if it does not hold it.
    ChunkData {
        /// Chunk id.
        id: crate::hash::Hash,
        /// Chunk bytes if held.
        data: Option<Vec<u8>>,
    },
    /// Metadata asks a source node to copy a chunk to `dest`.
    ReplicateOrder {
        /// Chunk id.
        id: crate::hash::Hash,
        /// Destination storage node index.
        dest: u32,
    },
    /// A source node ships chunk bytes to a destination node.
    Replicate {
        /// Chunk id.
        id: crate::hash::Hash,
        /// Chunk bytes.
        data: Vec<u8>,
    },
    /// A storage node advertises which chunks it currently holds.
    Heartbeat {
        /// Reporting storage node index.
        node: u32,
        /// Chunk ids held.
        chunks: Vec<crate::hash::Hash>,
    },
    /// Client submits a mutating metadata op to the primary.
    MetaOpMsg {
        /// Correlation id.
        req_id: u64,
        /// The operation.
        op: MetaOp,
    },
    /// Primary replicates a committed-order op to a backup.
    MetaReplicate {
        /// Log sequence number.
        seq: u64,
        /// The operation.
        op: MetaOp,
    },
    /// Backup acknowledges a replicated op.
    MetaReplicateAck {
        /// Log sequence number.
        seq: u64,
    },
    /// Primary reports the outcome of a metadata op to the client.
    MetaCommitted {
        /// Correlation id.
        req_id: u64,
        /// Outcome.
        result: MetaResult,
    },
    /// Client submits a read-only metadata query to the primary.
    MetaQueryMsg {
        /// Correlation id.
        req_id: u64,
        /// The query.
        q: Query,
    },
    /// Primary answers a metadata query.
    MetaQueryResp {
        /// Correlation id.
        req_id: u64,
        /// The answer.
        result: QueryResult,
    },
}

/// The mathematical value of a [`Message`].
pub enum MessageV {
    StoreChunk { id: Seq<u8>, data: Seq<u8> },
    StoreAck { id: Seq<u8> },
    FetchChunk { id: Seq<u8> },
    ChunkData { id: Seq<u8>, data: Option<Seq<u8>> },
    ReplicateOrder { id: Seq<u8>, dest: u32 },
    Replicate { id: Seq<u8>, data: Seq<u8> },
    Heartbeat { node: u32, chunks: Seq<Seq<u8>> },
    MetaOpMsg { req_id: u64, op: MetaOpV },
    MetaReplicate { seq: u64, op: MetaOpV },
    MetaReplicateAck { seq: u64 },
    MetaCommitted { req_id: u64, result: MetaResult },
    MetaQueryMsg { req_id: u64, q: QueryV },
    MetaQueryResp { req_id: u64, result: QueryResultV },
}

/// The value of optional bytes.
pub open spec fn bytes_opt_view(d: Option<Vec<u8>>) -> Option<Seq<u8>> {
    match d {
        Some(d) => Some(d@),
        None => None,
    }
}

impl View for Message {
    type V = MessageV;

    open spec fn view(&self) -> MessageV {
        match *self {
            Message::StoreChunk { id, data } => MessageV::StoreChunk { id: id@, data: data@ },
            Message::StoreAck { id } => MessageV::StoreAck { id: id@ },
            Message::FetchChunk { id } => MessageV::FetchChunk { id: id@ },
            Message::ChunkData { id, data } => MessageV::ChunkData {
                id: id@,
                data: bytes_opt_view(data),
            },
            Message::ReplicateOrder { id, dest } => MessageV::ReplicateOrder { id: id@, dest },
            Message::Replicate { id, data } => MessageV::Replicate { id: id@, data: data@ },
            Message::Heartbeat { node, chunks } => MessageV::Heartbeat {
                node,
                chunks: chunk::ids_view(chunks@),
            },
            Message::MetaOpMsg { req_id, op } => MessageV::MetaOpMsg { req_id, op: op@ },
            Message::MetaReplicate { seq, op } => MessageV::MetaReplicate { seq, op: op@ },
            Message::MetaReplicateAck { seq } => MessageV::MetaReplicateAck { seq },
            Message::MetaCommitted { req_id, result } => MessageV::MetaCommitted { req_id, result },
            Message::MetaQueryMsg { req_id, q } => MessageV::MetaQueryMsg { req_id, q: q@ },
            Message::MetaQueryResp { req_id, result } => MessageV::MetaQueryResp {
                req_id,
                result: result@,
            },
        }
    }
}

/// The values of some routed messages.
pub open spec fn routed_view(out: Seq<(NodeId, NodeId, Message)>) -> Seq<wire::Envelope> {
    Seq::new(
        out.len(),
        |i: int| wire::Envelope { from: out[i].0, to: out[i].1, msg: out[i].2@ },
    )
}

/// No routed message.
pub fn nothing() -> (r: Vec<(NodeId, NodeId, Message)>)
    ensures
        routed_view(r@) == Seq::<wire::Envelope>::empty(),
{
    let r: Vec<(NodeId, NodeId, Message)> = Vec::new();
    assert(routed_view(r@) =~= Seq::<wire::Envelope>::empty());
    r
}

/// One routed message.
pub fn routed(from: NodeId, to: NodeId, msg: Message) -> (r: Vec<(NodeId, NodeId, Message)>)
    ensures
        routed_view(r@) == seq![wire::Envelope { from, to, msg: msg@ }],
{
    let mut r: Vec<(NodeId, NodeId, Message)> = Vec::new();
    r.push((from, to, msg));
    assert(routed_view(r@) =~= seq![wire::Envelope { from, to, msg: msg@ }]);
    r
}

impl NodeId {
    /// Serialize to bytes.
    pub fn encode(&self, e: &mut Encoder)
        ensures
            final(e)@ == old(e)@ + wire::node_wire(*self),
    {
        match self {
            NodeId::Client => e.put_u8(0),
            NodeId::Storage(i) => {
                e.put_u8(1);
                e.put_uvarint(*i as u64);
            },
            NodeId::Meta(i) => {
                e.put_u8(2);
                e.put_uvarint(*i as u64);
            },
        }
        assert(e@ =~= old(e)@ + wire::node_wire(*self));
    }

    /// Deserialize from bytes.
    pub fn decode(d: &mut Decoder<'_>) -> (r: Result<NodeId, Error>)
        ensures
            wire::node_at(old(d)@) == (Step {
                out: match r {
                    Ok(v) => Ok(v),
                    Err(e) => Err(e@),
                },
                rest: final(d)@,
            }),
    {
        proof {
            reveal(wire::node_at);
        }
        let tag = match d.get_u8() {
            Err(e) => return Err(e),
            Ok(v) => v,
        };
        match tag {
            0 => Ok(NodeId::Client),
            1 => {
                let i = match d.get_uvarint() {
                    Err(e) => return Err(e),
                    Ok(v) => v,
                };
                Ok(NodeId::Storage(i as u32))
            },
            2 => {
                let i = match d.get_uvarint() {
                    Err(e) => return Err(e),
                    Ok(v) => v,
                };
                Ok(NodeId::Meta(i as u32))
            },
            t => Err(Error::Decode(text::labelled("bad node tag ", t as u64))),
        }
    }
}

impl MetaOp {
    fn encode(&self, e: &mut Encoder)
        ensures
            final(e)@ == old(e)@ + wire::op_wire(self@),
            wire::op_fits(self@),
    {
        match self {
            MetaOp::Put { path, manifest } => {
                e.put_u8(0);
                e.put_str(path.as_str());
                manifest.encode(e);
            },
            MetaOp::Mkdir { path } => {
                e.put_u8(1);
                e.put_str(path.as_str());
            },
            MetaOp::Delete { path } => {
                e.put_u8(2);
                e.put_str(path.as_str());
            },
            MetaOp::Rename { from, to } => {
                e.put_u8(3);
                e.put_str(from.as_str());
                e.put_str(to.as_str());
            },
        }
        assert(e@ =~= old(e)@ + wire::op_wire(self@));
    }

    fn decode(d: &mut Decoder<'_>) -> (r: Result<MetaOp, Error>)
        ensures
            wire::op_at(old(d)@) == (Step {
                out: match r {
                    Ok(v) => Ok(v@),
                    Err(e) => Err(e@),
                },
                rest: final(d)@,
            }),
    {
        proof {
            reveal(wire::op_at);
        }
        let tag = match d.get_u8() {
            Err(e) => return Err(e),
            Ok(v) => v,
        };
        match tag {
            0 => {
                let path = match d.get_str() {
                    Err(e) => return Err(e),
                    Ok(v) => v,
                };
                let manifest = match Manifest::decode(d) {
                    Err(e) => return Err(e),
                    Ok(v) => v,
                };
                Ok(MetaOp::Put { path, manifest })
            },
            1 => {
                let path = match d.get_str() {
                    Err(e) => return Err(e),
                    Ok(v) => v,
                };
                Ok(MetaOp::Mkdir { path })
            },
            2 => {
                let path = match d.get_str() {
                    Err(e) => return Err(e),
                    Ok(v) => v,
                };
                Ok(MetaOp::Delete { path })
            },
            3 => {
                let from = match d.get_str() {
                    Err(e) => return Err(e),
                    Ok(v) => v,
                };
                let to = match d.get_str() {
                    Err(e) => return Err(e),
                    Ok(v) => v,
                };
                Ok(MetaOp::Rename { from, to })
            },
            t => Err(Error::Decode(text::labelled("bad metaop tag ", t as u64))),
        }
    }
}

impl Dup for MetaOp {
    fn copy_value(&self) -> (r: Self) {
        match self {
            MetaOp::Put { path, manifest } => MetaOp::Put {
                path: path.clone(),
                manifest: manifest.dup(),
            },
            MetaOp::Mkdir { path } => MetaOp::Mkdir { path: path.clone() },
            MetaOp::Delete { path } => MetaOp::Delete { path: path.clone() },
            MetaOp::Rename { from, to } => MetaOp::Rename { from: from.clone(), to: to.clone() },
        }
    }
}

impl Query {
    fn encode(&self, e: &mut Encoder)
        ensures
            final(e)@ == old(e)@ + wire::query_wire(self@),
            encode::str_fits(wire::query_path(self@)),
    {
        match self {
            Query::Get { path } => {
                e.put_u8(0);
                e.put_str(path.as_str());
            },
            Query::List { path } => {
                e.put_u8(1);
                e.put_str(path.as_str());
            },
            Query::Stat { path } => {
                e.put_u8(2);
                e.put_str(path.as_str());
            },
        }
        assert(e@ =~= old(e)@ + wire::query_wire(self@));
    }

    fn decode(d: &mut Decoder<'_>) -> (r: Result<Query, Error>)
        ensures
            wire::query_at(old(d)@) == (Step {
                out: match r {
                    Ok(v) => Ok(v@),
                    Err(e) => Err(e@),
                },
                rest: final(d)@,
            }),
    {
        proof {
            reveal(wire::query_at);
        }
        let tag = match d.get_u8() {
            Err(e) => return Err(e),
            Ok(v) => v,
        };
        match tag {
            0 => {
                let path = match d.get_str() {
                    Err(e) => return Err(e),
                    Ok(v) => v,
                };
                Ok(Query::Get { path })
            },
            1 => {
                let path = match d.get_str() {
                    Err(e) => return Err(e),
                    Ok(v) => v,
                };
                Ok(Query::List { path })
            },
            2 => {
                let path = match d.get_str() {
                    Err(e) => return Err(e),
                    Ok(v) => v,
                };
                Ok(Query::Stat { path })
            },
            t => Err(Error::Decode(text::labelled("bad query tag ", t as u64))),
        }
    }
}

fn encode_meta_result(r: &MetaResult, e: &mut Encoder)
    ensures
        final(e)@ == old(e)@ + wire::result_wire(*r),
{
    match r {
        MetaResult::Committed => e.put_u8(0),
        MetaResult::Rejected(c) => {
            e.put_u8(1);
            e.put_u8(*c);
        },
    }
    assert(e@ =~= old(e)@ + wire::result_wire(*r));
}

fn decode_meta_result(d: &mut Decoder<'_>) -> (r: Result<MetaResult, Error>)
    ensures
        wire::result_at(old(d)@) == (Step {
            out: match r {
                Ok(v) => Ok(v),
                Err(e) => Err(e@),
            },
            rest: final(d)@,
        }),
{
    proof {
        reveal(wire::result_at);
    }
    let tag = match d.get_u8() {
        Err(e) => return Err(e),
        Ok(v) => v,
    };
    match tag {
        0 => Ok(MetaResult::Committed),
        1 => {
            let c = match d.get_u8() {
                Err(e) => return Err(e),
                Ok(v) => v,
            };
            Ok(MetaResult::Rejected(c))
        },
        t => Err(Error::Decode(text::labelled("bad meta result tag ", t as u64))),
    }
}

fn flag_byte(b: bool) -> (r: u8)
    ensures
        r == wire::flag(b),
{
    if b {
        1
    } else {
        0
    }
}

fn encode_entries(entries: &Vec<DirEntry>, e: &mut Encoder)
    ensures
        final(e)@ == old(e)@ + wire::entries_wire(entries_view(entries@)),
        wire::entries_fit(entries_view(entries@)),
{
    let ghost es = entries_view(entries@);
    let mut i: usize = 0;
    assert(es.take(0) =~= seq![]);
    assert(e@ =~= old(e)@ + wire::entries_wire(es.take(0)));
    while i < entries.len()
        invariant
            i <= entries@.len(),
            es == entries_view(entries@),
            e@ == old(e)@ + wire::entries_wire(es.take(i as int)),
            forall|j: int| 0 <= j < i ==> encode::str_fits((#[trigger] es[j]).name),
        decreases entries@.len() - i,
    {
        let en = &entries[i];
        e.put_str(en.name.as_str());
        e.put_u8(flag_byte(en.is_dir));
        e.put_uvarint(en.size);
        proof {
            assert(es.take(i + 1).drop_last() =~= es.take(i as int));
            assert(es.take(i + 1).last() == en@);
            assert(e@ =~= old(e)@ + wire::entries_wire(es.take(i + 1)));
        }
        i += 1;
    }
    assert(es.take(es.len() as int) =~= es);
    assert(entries.len() == entries@.len());
}

fn encode_query_result(r: &QueryResult, e: &mut Encoder)
    ensures
        final(e)@ == old(e)@ + wire::answer_wire(r@),
        wire::answer_fits(r@),
{
    match r {
        QueryResult::Manifest(m) => {
            e.put_u8(0);
            match m {
                Some(m) => {
                    e.put_u8(1);
                    m.encode(e);
                },
                None => e.put_u8(0),
            }
        },
        QueryResult::Listing(entries) => {
            e.put_u8(1);
            e.put_uvarint(entries.len() as u64);
            encode_entries(entries, e);
        },
        QueryResult::Stat(s) => {
            e.put_u8(2);
            match s {
                Some(s) => {
                    e.put_u8(1);
                    e.put_u8(flag_byte(s.is_dir));
                    e.put_uvarint(s.size);
                    e.put_hash(&s.content_hash);
                },
                None => e.put_u8(0),
            }
        },
        QueryResult::Rejected(c) => {
            e.put_u8(3);
            e.put_u8(*c);
        },
    }
    assert(e@ =~= old(e)@ + wire::answer_wire(r@));
}

fn decode_entry(d: &mut Decoder<'_>) -> (r: Result<DirEntry, Error>)
    ensures
        wire::entry_at(old(d)@) == (Step {
            out: match r {
                Ok(v) => Ok(v@),
                Err(e) => Err(e@),
            },
            rest: final(d)@,
        }),
{
    proof {
        reveal(wire::entry_at);
    }
    let name = match d.get_str() {
        Err(e) => return Err(e),
        Ok(v) => v,
    };
    let b = match d.get_u8() {
        Err(e) => return Err(e),
        Ok(v) => v,
    };
    let size = match d.get_uvarint() {
        Err(e) => return Err(e),
        Ok(v) => v,
    };
    Ok(DirEntry { name, is_dir: b != 0, size })
}

fn decode_listing(d: &mut Decoder<'_>) -> (r: Result<Vec<DirEntry>, Error>)
    ensures
        wire::listing_at(old(d)@) == (Step {
            out: match r {
                Ok(v) => Ok(entries_view(v@)),
                Err(e) => Err(e@),
            },
            rest: final(d)@,
        }),
{
    proof {
        reveal(wire::listing_at);
    }
    let n = match d.get_uvarint() {
        Err(e) => return Err(e),
        Ok(v) => v,
    };
    if n > (d.remaining() / 2) as u64 {
        return Err(malformed("listing entry count out of range"));
    }
    let n = n as usize;
    let ghost start = d@;
    let mut entries: Vec<DirEntry> = Vec::new();
    let mut i: usize = 0;
    assert(entries_view(entries@) =~= seq![]);
    while i < n
        invariant
            i <= n,
            wire::entries_at(start, i as nat) == encode::done(entries_view(entries@), d@),
            wire::listing_at(old(d)@) == wire::entries_at(start, n as nat),
        decreases n - i,
    {
        let ghost before = entries_view(entries@);
        match decode_entry(d) {
            Err(e) => {
                proof {
                    wire::lemma_entries_stuck(start, (i + 1) as nat, n as nat);
                }
                return Err(e);
            },
            Ok(en) => {
                entries.push(en);
                assert(entries_view(entries@) =~= before.push(en@));
            },
        }
        i += 1;
    }
    Ok(entries)
}

fn decode_stat(d: &mut Decoder<'_>) -> (r: Result<StatInfo, Error>)
    ensures
        wire::stat_at(old(d)@) == (Step {
            out: match r {
                Ok(v) => Ok(v@),
                Err(e) => Err(e@),
            },
            rest: final(d)@,
        }),
{
    proof {
        reveal(wire::stat_at);
    }
    let b = match d.get_u8() {
        Err(e) => return Err(e),
        Ok(v) => v,
    };
    let size = match d.get_uvarint() {
        Err(e) => return Err(e),
        Ok(v) => v,
    };
    let content_hash = match d.get_hash() {
        Err(e) => return Err(e),
        Ok(v) => v,
    };
    Ok(StatInfo { is_dir: b != 0, size, content_hash })
}

fn decode_query_result(d: &mut Decoder<'_>) -> (r: Result<QueryResult, Error>)
    ensures
        wire::answer_at(old(d)@) == (Step {
            out: match r {
                Ok(v) => Ok(v@),
                Err(e) => Err(e@),
            },
            rest: final(d)@,
        }),
{
    proof {
        reveal(wire::answer_at);
    }
    let tag = match d.get_u8() {
        Err(e) => return Err(e),
        Ok(v) => v,
    };
    match tag {
        0 => {
            let b = match d.get_u8() {
                Err(e) => return Err(e),
                Ok(v) => v,
            };
            if b == 1 {
                let m = match Manifest::decode(d) {
                    Err(e) => return Err(e),
                    Ok(v) => v,
                };
                Ok(QueryResult::Manifest(Some(m)))
            } else {
                Ok(QueryResult::Manifest(None))
            }
        },
        1 => {
            let entries = match decode_listing(d) {
                Err(e) => return Err(e),
                Ok(v) => v,
            };
            Ok(QueryResult::Listing(entries))
        },
        2 => {
            let b = match d.get_u8() {
                Err(e) => return Err(e),
                Ok(v) => v,
            };
            if b == 1 {
                let s = match decode_stat(d) {
                    Err(e) => return Err(e),
                    Ok(v) => v,
                };
                Ok(QueryResult::Stat(Some(s)))
            } else {
                Ok(QueryResult::Stat(None))
            }
        },
        3 => {
            let c = match d.get_u8() {
                Err(e) => return Err(e),
                Ok(v) => v,
            };
            Ok(QueryResult::Rejected(c))
        },
        t => Err(Error::Decode(text::labelled("bad query result tag ", t as u64))),
    }
}

fn decode_blob(d: &mut Decoder<'_>) -> (r: Result<(crate::hash::Hash, Vec<u8>), Error>)
    ensures
        wire::blob_at(old(d)@) == (Step {
            out: match r {
                Ok(v) => Ok((v.0@, v.1@)),
                Err(e) => Err(e@),
            },
            rest: final(d)@,
        }),
{
    proof {
        reveal(wire::blob_at);
    }
    let id = match d.get_hash() {
        Err(e) => return Err(e),
        Ok(v) => v,
    };
    let data = match d.get_bytes() {
        Err(e) => return Err(e),
        Ok(v) => v,
    };
    Ok((id, data))
}

fn decode_held(d: &mut Decoder<'_>) -> (r: Result<(crate::hash::Hash, Option<Vec<u8>>), Error>)
    ensures
        wire::held_at(old(d)@) == (Step {
            out: match r {
                Ok(v) => Ok((v.0@, bytes_opt_view(v.1))),
                Err(e) => Err(e@),
            },
            rest: final(d)@,
        }),
{
    proof {
        reveal(wire::held_at);
    }
    let id = match d.get_hash() {
        Err(e) => return Err(e),
        Ok(v) => v,
    };
    let b = match d.get_u8() {
        Err(e) => return Err(e),
        Ok(v) => v,
    };
    if b == 1 {
        let data = match d.get_bytes() {
            Err(e) => return Err(e),
            Ok(v) => v,
        };
        return Ok((id, Some(data)));
    }
    Ok((id, None))
}

fn decode_order(d: &mut Decoder<'_>) -> (r: Result<(crate::hash::Hash, u32), Error>)
    ensures
        wire::order_at(old(d)@) == (Step {
            out: match r {
                Ok(v) => Ok((v.0@, v.1)),
                Err(e) => Err(e@),
            },
            rest: final(d)@,
        }),
{
    proof {
        reveal(wire::order_at);
    }
    let id = match d.get_hash() {
        Err(e) => return Err(e),
        Ok(v) => v,
    };
    let dest = match d.get_uvarint() {
        Err(e) => return Err(e),
        Ok(v) => v,
    };
    Ok((id, dest as u32))
}

fn decode_heartbeat(d: &mut Decoder<'_>) -> (r: Result<(u32, Vec<crate::hash::Hash>), Error>)
    ensures
        wire::heartbeat_at(old(d)@) == (Step {
            out: match r {
                Ok(v) => Ok((v.0, chunk::ids_view(v.1@))),
                Err(e) => Err(e@),
            },
            rest: final(d)@,
        }),
{
    proof {
        reveal(wire::heartbeat_at);
    }
    let node = match d.get_uvarint() {
        Err(e) => return Err(e),
        Ok(v) => v,
    };
    let n = match d.get_uvarint() {
        Err(e) => return Err(e),
        Ok(v) => v,
    };
    if n > (d.remaining() / 32) as u64 {
        return Err(malformed("heartbeat chunk count out of range"));
    }
    let chunks = match chunk::decode_ids(d, n as usize) {
        Err(e) => return Err(e),
        Ok(v) => v,
    };
    Ok((node as u32, chunks))
}

fn decode_numbered_op(d: &mut Decoder<'_>) -> (r: Result<(u64, MetaOp), Error>)
    ensures
        wire::numbered_op_at(old(d)@) == (Step {
            out: match r {
                Ok(v) => Ok((v.0, v.1@)),
                Err(e) => Err(e@),
            },
            rest: final(d)@,
        }),
{
    proof {
        reveal(wire::numbered_op_at);
    }
    let n = match d.get_uvarint() {
        Err(e) => return Err(e),
        Ok(v) => v,
    };
    let v = match MetaOp::decode(d) {
        Err(e) => return Err(e),
        Ok(v) => v,
    };
    Ok((n, v))
}

fn decode_numbered_result(d: &mut Decoder<'_>) -> (r: Result<(u64, MetaResult), Error>)
    ensures
        wire::numbered_result_at(old(d)@) == (Step {
            out: match r {
                Ok(v) => Ok((v.0, v.1)),
                Err(e) => Err(e@),
            },
            rest: final(d)@,
        }),
{
    proof {
        reveal(wire::numbered_result_at);
    }
    let n = match d.get_uvarint() {
        Err(e) => return Err(e),
        Ok(v) => v,
    };
    let v = match decode_meta_result(d) {
        Err(e) => return Err(e),
        Ok(v) => v,
    };
    Ok((n, v))
}

fn decode_numbered_query(d: &mut Decoder<'_>) -> (r: Result<(u64, Query), Error>)
    ensures
        wire::numbered_query_at(old(d)@) == (Step {
            out: match r {
                Ok(v) => Ok((v.0, v.1@)),
                Err(e) => Err(e@),
            },
            rest: final(d)@,
        }),
{
    proof {
        reveal(wire::numbered_query_at);
    }
    let n = match d.get_uvarint() {
        Err(e) => return Err(e),
        Ok(v) => v,
    };
    let v = match Query::decode(d) {
        Err(e) => return Err(e),
        Ok(v) => v,
    };
    Ok((n, v))
}

fn decode_numbered_answer(d: &mut Decoder<'_>) -> (r: Result<(u64, QueryResult), Error>)
    ensures
        wire::numbered_answer_at(old(d)@) == (Step {
            out: match r {
                Ok(v) => Ok((v.0, v.1@)),
                Err(e) => Err(e@),
            },
            rest: final(d)@,
        }),
{
    proof {
        reveal(wire::numbered_answer_at);
    }
    let n = match d.get_uvarint() {
        Err(e) => return Err(e),
        Ok(v) => v,
    };
    let v = match decode_query_result(d) {
        Err(e) => return Err(e),
        Ok(v) => v,
    };
    Ok((n, v))
}

impl Message {
    /// A compact tag identifying the message kind, used in delivery logs.
    pub fn tag(&self) -> (r: u8)
        ensures
            r == wire::message_tag(self@),
    {
        match self {
            Message::StoreChunk { .. } => 1,
            Message::StoreAck { .. } => 2,
            Message::FetchChunk { .. } => 3,
            Message::ChunkData { .. } => 4,
            Message::ReplicateOrder { .. } => 5,
            Message::Replicate { .. } => 6,
            Message::Heartbeat { .. } => 7,
            Message::MetaOpMsg { .. } => 8,
            Message::MetaReplicate { .. } => 9,
            Message::MetaReplicateAck { .. } => 10,
            Message::MetaCommitted { .. } => 11,
            Message::MetaQueryMsg { .. } => 12,
            Message::MetaQueryResp { .. } => 13,
        }
    }

    fn encode_body(&self, e: &mut Encoder)
        ensures
            final(e)@ == old(e)@ + wire::body_wire(self@),
            wire::message_fits(self@),
    {
        match self {
            Message::StoreChunk { id, data } => {
                e.put_hash(id);
                e.put_bytes(data.as_slice());
            },
            Message::StoreAck { id } => e.put_hash(id),
            Message::FetchChunk { id } => e.put_hash(id),
            Message::ChunkData { id, data } => {
                e.put_hash(id);
                match data {
                    Some(d) => {
                        e.put_u8(1);
                        e.put_bytes(d.as_slice());
                    },
                    None => e.put_u8(0),
                }
            },
            Message::ReplicateOrder { id, dest } => {
                e.put_hash(id);
                e.put_uvarint(*dest as u64);
            },
            Message::Replicate { id, data } => {
                e.put_hash(id);
                e.put_bytes(data.as_slice());
            },
            Message::Heartbeat { node, chunks } => {
                e.put_uvarint(*node as u64);
                e.put_uvarint(chunks.len() as u64);
                chunk::encode_ids(chunks, e);
            },
            Message::MetaOpMsg { req_id, op } => {
                e.put_uvarint(*req_id);
                op.encode(e);
            },
            Message::MetaReplicate { seq, op } => {
                e.put_uvarint(*seq);
                op.encode(e);
            },
            Message::MetaReplicateAck { seq } => e.put_uvarint(*seq),
            Message::MetaCommitted { req_id, result } => {
                e.put_uvarint(*req_id);
                encode_meta_result(result, e);
            },
            Message::MetaQueryMsg { req_id, q } => {
                e.put_uvarint(*req_id);
                q.encode(e);
            },
            Message::MetaQueryResp { req_id, result } => {
                e.put_uvarint(*req_id);
                encode_query_result(result, e);
            },
        }
        assert(e@ =~= old(e)@ + wire::body_wire(self@));
    }

    /// Serialize to bytes.
    pub fn encode(&self) -> (r: Vec<u8>)
        ensures
            r@ == wire::message_wire(self@),
            wire::message_fits(self@),
    {
        let mut e = Encoder::new();
        e.put_u8(self.tag());
        self.encode_body(&mut e);
        assert(e@ =~= wire::message_wire(self@));
        e.finish()
    }

    /// Deserialize from bytes.
    pub fn decode(bytes: &[u8]) -> (r: Result<Message, Error>)
        ensures
            wire::message_of(bytes@) == (match r {
                Ok(m) => Ok::<MessageV, ErrorV>(m@),
                Err(e) => Err(e@),
            }),
    {
        proof {
            reveal(wire::message_of);
        }
        let mut d = Decoder::new(bytes);
        let tag = match d.get_u8() {
            Err(e) => return Err(e),
            Ok(v) => v,
        };
        match tag {
            1 => match decode_blob(&mut d) {
                Err(e) => Err(e),
                Ok((id, data)) => Ok(Message::StoreChunk { id, data }),
            },
            2 => match d.get_hash() {
                Err(e) => Err(e),
                Ok(id) => Ok(Message::StoreAck { id }),
            },
            3 => match d.get_hash() {
                Err(e) => Err(e),
                Ok(id) => Ok(Message::FetchChunk { id }),
            },
            4 => match decode_held(&mut d) {
                Err(e) => Err(e),
                Ok((id, data)) => Ok(Message::ChunkData { id, data }),
            },
            5 => match decode_order(&mut d) {
                Err(e) => Err(e),
                Ok((id, dest)) => Ok(Message::ReplicateOrder { id, dest }),
            },
            6 => match decode_blob(&mut d) {
                Err(e) => Err(e),
                Ok((id, data)) => Ok(Message::Replicate { id, data }),
            },
            7 => match decode_heartbeat(&mut d) {
                Err(e) => Err(e),
                Ok((node, chunks)) => Ok(Message::Heartbeat { node, chunks }),
            },
            8 => match decode_numbered_op(&mut d) {
                Err(e) => Err(e),
                Ok((req_id, op)) => Ok(Message::MetaOpMsg { req_id, op }),
            },
            9 => match decode_numbered_op(&mut d) {
                Err(e) => Err(e),
                Ok((seq, op)) => Ok(Message::MetaReplicate { seq, op }),
            },
            10 => match d.get_uvarint() {
                Err(e) => Err(e),
                Ok(seq) => Ok(Message::MetaReplicateAck { seq }),
            },
            11 => match decode_numbered_result(&mut d) {
                Err(e) => Err(e),
                Ok((req_id, result)) => Ok(Message::MetaCommitted { req_id, result }),
            },
            12 => match decode_numbered_query(&mut d) {
                Err(e) => Err(e),
                Ok((req_id, q)) => Ok(Message::MetaQueryMsg { req_id, q }),
            },
            13 => match decode_numbered_answer(&mut d) {
                Err(e) => Err(e),
                Ok((req_id, result)) => Ok(Message::MetaQueryResp { req_id, result }),
            },
            t => Err(Error::Decode(text::labelled("bad message tag ", t as u64))),
        }
    }
}

/// Serialize a routed envelope (from, to, message) to bytes.
pub fn encode_envelope(from: NodeId, to: NodeId, msg: &Message) -> (r: Vec<u8>)
    ensures
        r@ == wire::envelope_wire(wire::Envelope { from, to, msg: msg@ }),
        wire::envelope_fits(wire::Envelope { from, to, msg: msg@ }),
{
    let mut e = Encoder::new();
    from.encode(&mut e);
    to.encode(&mut e);
    let body = msg.encode();
    e.put_bytes(body.as_slice());
    assert(e@ =~= wire::envelope_wire(wire::Envelope { from, to, msg: msg@ }));
    e.finish()
}

/// Deserialize a routed envelope produced by [`encode_envelope`].
pub fn decode_envelope(bytes: &[u8]) -> (r: Result<(NodeId, NodeId, Message), Error>)
    ensures
        wire::envelope_of(bytes@) == (match r {
            Ok((from, to, m)) => Ok::<wire::Envelope, ErrorV>(
                (wire::Envelope { from, to, msg: m@ }),
            ),
            Err(e) => Err(e@),
        }),
{
    proof {
        reveal(wire::envelope_of);
    }
    let mut d = Decoder::new(bytes);
    let from = match NodeId::decode(&mut d) {
        Err(e) => return Err(e),
        Ok(v) => v,
    };
    let to = match NodeId::decode(&mut d) {
        Err(e) => return Err(e),
        Ok(v) => v,
    };
    let body = match d.get_bytes() {
        Err(e) => return Err(e),
        Ok(v) => v,
    };
    let msg = match Message::decode(body.as_slice()) {
        Err(e) => return Err(e),
        Ok(v) => v,
    };
    Ok((from, to, msg))
}

} // verus!

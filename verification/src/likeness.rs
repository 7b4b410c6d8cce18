//! What contracts say of a value is what the value holds: nothing is left out or turned round
//! between the two.

use crate::chunk::{self, Chunk, Manifest};
use crate::error::{self, Error, ErrorV};
use crate::message::{
    self, DirEntry, Message, MessageV, MetaOp, MetaOpV, NodeId, Query, QueryResult, QueryResultV,
    QueryV, StatInfo,
};
use crate::shell::{self, Command, CommandV, Output, OutputV};
use vstd::prelude::*;

verus! {

/// What is said of an entry, a stat, a chunk, a manifest or a hash is what is in its fields.
pub proof fn law_fields_are_kept(
    e: DirEntry,
    s: StatInfo,
    c: Chunk,
    m: Manifest,
    h: crate::hash::Hash,
    i: int,
)
    ensures
        e@.name == e.name@,
        e@.is_dir == e.is_dir,
        e@.size == e.size,
        s@.is_dir == s.is_dir,
        s@.size == s.size,
        s@.content_hash == s.content_hash.0@,
        c@.id == c.id.0@,
        c@.data == c.data@,
        m@.size == m.size,
        m@.content_hash == m.content_hash.0@,
        m@.chunks.len() == m.chunks@.len(),
        0 <= i < m.chunks@.len() ==> m@.chunks[i] == m.chunks@[i].0@,
        m@.erasure == m.erasure,
        h@ == h.0@,
{
}

/// What is said of a list is what is said of its members, in order, with none left out.
pub proof fn law_lists_are_kept(
    es: Seq<DirEntry>,
    ids: Seq<crate::hash::Hash>,
    parts: Seq<Vec<u8>>,
    words: Seq<String>,
    i: int,
)
    ensures
        message::entries_view(es).len() == es.len(),
        0 <= i < es.len() ==> message::entries_view(es)[i] == es[i]@,
        chunk::ids_view(ids).len() == ids.len(),
        0 <= i < ids.len() ==> chunk::ids_view(ids)[i] == ids[i].0@,
        chunk::parts_view(parts).len() == parts.len(),
        0 <= i < parts.len() ==> chunk::parts_view(parts)[i] == parts[i]@,
        shell::views(words).len() == words.len(),
        0 <= i < words.len() ==> shell::views(words)[i] == words[i]@,
{
}

/// What is said of an operation or a query is its kind and its paths.
pub proof fn law_requests_are_kept(p: String, q: String, m: Manifest)
    ensures
        (MetaOp::Put { path: p, manifest: m })@ == (MetaOpV::Put { path: p@, manifest: m@ }),
        (MetaOp::Mkdir { path: p })@ == (MetaOpV::Mkdir { path: p@ }),
        (MetaOp::Delete { path: p })@ == (MetaOpV::Delete { path: p@ }),
        (MetaOp::Rename { from: p, to: q })@ == (MetaOpV::Rename { from: p@, to: q@ }),
        (Query::Get { path: p })@ == (QueryV::Get { path: p@ }),
        (Query::List { path: p })@ == (QueryV::List { path: p@ }),
        (Query::Stat { path: p })@ == (QueryV::Stat { path: p@ }),
{
}

/// What is said of an answer is its kind and what it holds.
pub proof fn law_answers_are_kept(m: Manifest, es: Vec<DirEntry>, s: StatInfo, c: u8)
    ensures
        QueryResult::Manifest(Some(m))@ == QueryResultV::Manifest(Some(m@)),
        QueryResult::Manifest(None)@ == QueryResultV::Manifest(None),
        QueryResult::Listing(es)@ == QueryResultV::Listing(message::entries_view(es@)),
        QueryResult::Stat(Some(s))@ == QueryResultV::Stat(Some(s@)),
        QueryResult::Stat(None)@ == QueryResultV::Stat(None),
        QueryResult::Rejected(c)@ == QueryResultV::Rejected(c),
{
}

/// What is said of an error is its kind and what it names, and what is said of an outcome is
/// whether it went well and what came of it.
pub proof fn law_errors_are_kept(p: String, a: usize, b: usize, e: Error)
    ensures
        Error::NotFound(p)@ == ErrorV::NotFound(p@),
        Error::AlreadyExists(p)@ == ErrorV::AlreadyExists(p@),
        Error::NotADirectory(p)@ == ErrorV::NotADirectory(p@),
        Error::IsADirectory(p)@ == ErrorV::IsADirectory(p@),
        Error::DirectoryNotEmpty(p)@ == ErrorV::DirectoryNotEmpty(p@),
        Error::InvalidPath(p)@ == ErrorV::InvalidPath(p@),
        Error::ChunkUnavailable(p)@ == ErrorV::ChunkUnavailable(p@),
        Error::Decode(p)@ == ErrorV::Decode(p@),
        Error::MetadataUnavailable@ == ErrorV::MetadataUnavailable,
        Error::IntegrityError@ == ErrorV::IntegrityError,
        (Error::WriteQuorumFailed { needed: a, got: b })@ == (ErrorV::WriteQuorumFailed {
            needed: a as nat,
            got: b as nat,
        }),
        error::outcome(Ok::<(), Error>(())) == Ok::<(), ErrorV>(()),
        error::outcome(Err::<(), Error>(e)) == Err::<(), ErrorV>(e@),
{
}

/// What is said of a command is its kind and its arguments, and what is said of what it shows is
/// what is shown.
pub proof fn law_commands_are_kept(
    p: String,
    q: String,
    n: u32,
    seed: u64,
    ns: Vec<u32>,
    ls: Vec<String>,
    b: Vec<u8>,
)
    ensures
        Command::Blank@ == CommandV::Blank,
        Command::Quit@ == CommandV::Quit,
        Command::Help@ == CommandV::Help,
        Command::Status@ == CommandV::Status,
        Command::Stabilize@ == CommandV::Stabilize,
        Command::Reconnect@ == CommandV::Reconnect,
        Command::Seed(seed)@ == CommandV::Seed(seed),
        Command::Mkdir(p)@ == CommandV::Mkdir(p@),
        Command::Get(p)@ == CommandV::Get(p@),
        Command::Put(p, q)@ == CommandV::Put(p@, q@),
        Command::Ls(p)@ == CommandV::Ls(p@),
        Command::Rm(p)@ == CommandV::Rm(p@),
        Command::Mv(p, q)@ == CommandV::Mv(p@, q@),
        Command::Stat(p)@ == CommandV::Stat(p@),
        Command::Fail(n)@ == CommandV::Fail(n),
        Command::Heal(n)@ == CommandV::Heal(n),
        Command::Partition(ns)@ == CommandV::Partition(ns@),
        Command::Say(p)@ == CommandV::Say(p@),
        Output::Lines(ls)@ == OutputV::Lines(shell::views(ls@)),
        Output::Bytes(b)@ == OutputV::Bytes(b@),
        Output::Help@ == OutputV::Help,
        Output::Quit@ == OutputV::Quit,
{
}

/// What is said of routed messages is who sent each, to whom, and what it says.
pub proof fn law_routes_are_kept(out: Seq<(NodeId, NodeId, Message)>, i: int)
    requires
        0 <= i < out.len(),
    ensures
        message::routed_view(out).len() == out.len(),
        message::routed_view(out)[i].from == out[i].0,
        message::routed_view(out)[i].to == out[i].1,
        message::routed_view(out)[i].msg == out[i].2@,
{
}

/// What is said of a message is its kind and what it holds.
pub proof fn law_messages_are_kept(
    id: crate::hash::Hash,
    data: Vec<u8>,
    n: u32,
    ids: Vec<crate::hash::Hash>,
    seq: u64,
    op: MetaOp,
    q: Query,
    r: QueryResult,
    o: message::MetaResult,
)
    ensures
        (Message::StoreChunk { id, data })@ == (MessageV::StoreChunk { id: id@, data: data@ }),
        (Message::StoreAck { id })@ == (MessageV::StoreAck { id: id@ }),
        (Message::FetchChunk { id })@ == (MessageV::FetchChunk { id: id@ }),
        (Message::ChunkData { id, data: Some(data) })@ == (MessageV::ChunkData {
            id: id@,
            data: Some(data@),
        }),
        (Message::ChunkData { id, data: None })@ == (MessageV::ChunkData { id: id@, data: None }),
        (Message::ReplicateOrder { id, dest: n })@ == (MessageV::ReplicateOrder {
            id: id@,
            dest: n,
        }),
        (Message::Replicate { id, data })@ == (MessageV::Replicate { id: id@, data: data@ }),
        (Message::Heartbeat { node: n, chunks: ids })@ == (MessageV::Heartbeat {
            node: n,
            chunks: chunk::ids_view(ids@),
        }),
        (Message::MetaOpMsg { req_id: seq, op })@ == (MessageV::MetaOpMsg { req_id: seq, op: op@ }),
        (Message::MetaReplicate { seq, op })@ == (MessageV::MetaReplicate { seq, op: op@ }),
        (Message::MetaReplicateAck { seq })@ == (MessageV::MetaReplicateAck { seq }),
        (Message::MetaCommitted { req_id: seq, result: o })@ == (MessageV::MetaCommitted {
            req_id: seq,
            result: o,
        }),
        (Message::MetaQueryMsg { req_id: seq, q })@ == (MessageV::MetaQueryMsg {
            req_id: seq,
            q: q@,
        }),
        (Message::MetaQueryResp { req_id: seq, result: r })@ == (MessageV::MetaQueryResp {
            req_id: seq,
            result: r@,
        }),
{
}

} // verus!

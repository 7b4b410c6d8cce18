//! A storage node: a content-addressed local store plus a message handler.
//!
//! Durability model: the local store is durable. A crash takes the node offline
//! (it stops sending and receiving) but does not lose bytes that were already
//! stored. Recovery brings the node back with its store intact. Volatile state
//! is only what is in flight on the network, which the simulator drops.

use crate::chunk;
use crate::hash::{self, sha256};
use crate::message::{nothing, routed, routed_view, Message, MessageV, NodeId};
use crate::ordmap::{self, Dup, OrdMap};
use crate::wire;
use vstd::prelude::*;

verus! {

/// A single storage node identified by index.
pub struct StorageNode {
    /// Node index within the cluster.
    pub idx: u32,
    store: OrdMap<crate::hash::Hash, Vec<u8>>,
}

/// The mathematical value of a [`StorageNode`].
#[verifier::ext_equal]
pub struct StorageV {
    pub idx: u32,
    pub store: Map<Seq<u8>, Seq<u8>>,
}

impl View for StorageNode {
    type V = StorageV;

    closed spec fn view(&self) -> StorageV {
        StorageV { idx: self.idx, store: self.store@ }
    }
}

impl StorageV {
    /// The node holds finitely many chunks, and each hashes to its id.
    pub open spec fn sound(self) -> bool {
        &&& self.store.dom().finite()
        &&& forall|id: Seq<u8>| #[trigger]
            self.store.dom().contains(id) ==> hash::digest(self.store[id]) == id
    }

    /// The node after being handed a chunk: bytes that do not match the id are refused.
    pub open spec fn stored(self, id: Seq<u8>, data: Seq<u8>) -> StorageV {
        if hash::digest(data) == id {
            StorageV { store: self.store.insert(id, data), ..self }
        } else {
            self
        }
    }

    /// The chunk held under an id.
    pub open spec fn held(self, id: Seq<u8>) -> Option<Seq<u8>> {
        if self.store.dom().contains(id) {
            Some(self.store[id])
        } else {
            None
        }
    }

    /// The node after a message.
    pub open spec fn after(self, msg: MessageV) -> StorageV {
        match msg {
            MessageV::StoreChunk { id, data } => self.stored(id, data),
            MessageV::Replicate { id, data } => self.stored(id, data),
            _ => self,
        }
    }

    /// What the node sends in response to a message.
    pub open spec fn replies(self, from: NodeId, msg: MessageV) -> Seq<wire::Envelope> {
        let me = NodeId::Storage(self.idx);
        match msg {
            MessageV::StoreChunk { id, data } => if self.stored(id, data).store.dom().contains(id) {
                seq![wire::Envelope { from: me, to: from, msg: MessageV::StoreAck { id } }]
            } else {
                seq![]
            },
            MessageV::FetchChunk { id } => seq![
                wire::Envelope {
                    from: me,
                    to: from,
                    msg: MessageV::ChunkData { id, data: self.held(id) },
                },
            ],
            MessageV::ReplicateOrder { id, dest } => if self.store.dom().contains(id) {
                seq![
                    wire::Envelope {
                        from: me,
                        to: NodeId::Storage(dest),
                        msg: MessageV::Replicate { id, data: self.store[id] },
                    },
                ]
            } else {
                seq![]
            },
            _ => seq![],
        }
    }
}

/// Corrupt bytes never enter a store, and a store only grows: whatever the message, a sound
/// node stays sound and keeps every chunk it held.
pub proof fn law_store_stays_sound(n: StorageV, msg: MessageV)
    requires
        n.sound(),
    ensures
        n.after(msg).sound(),
        n.after(msg).idx == n.idx,
        forall|id: Seq<u8>| #[trigger]
            n.store.dom().contains(id) ==> n.after(msg).store.dom().contains(id),
{
}

/// An acknowledged chunk is held.
pub proof fn law_acknowledged_chunk_is_held(n: StorageV, from: NodeId, msg: MessageV, i: int)
    requires
        0 <= i < n.replies(from, msg).len(),
    ensures
        n.replies(from, msg)[i].msg matches MessageV::StoreAck { id } ==> n.after(
            msg,
        ).store.dom().contains(id),
{
}

/// Storing a chunk again changes nothing: duplicate content is held once.
pub proof fn law_duplicate_is_held_once(n: StorageV, data: Seq<u8>)
    ensures
        ({
            let msg = MessageV::StoreChunk { id: hash::digest(data), data };
            n.after(msg).after(msg) == n.after(msg)
        }),
{
    let msg = MessageV::StoreChunk { id: hash::digest(data), data };
    assert(n.after(msg).after(msg).store =~= n.after(msg).store);
}

/// A stored chunk is given back by a fetch.
pub proof fn law_fetch_after_store(n: StorageV, client: NodeId, data: Seq<u8>)
    ensures
        n.after(MessageV::StoreChunk { id: hash::digest(data), data }).replies(
            client,
            MessageV::FetchChunk { id: hash::digest(data) },
        ) == seq![
            wire::Envelope {
                from: NodeId::Storage(n.idx),
                to: client,
                msg: MessageV::ChunkData { id: hash::digest(data), data: Some(data) },
            },
        ],
{
}

impl StorageNode {
    /// Create an empty storage node.
    pub fn new(idx: u32) -> (r: Self)
        ensures
            r@ == (StorageV { idx, store: Map::empty() }),
    {
        StorageNode { idx, store: OrdMap::new() }
    }

    /// Whether this node holds a chunk.
    pub fn has(&self, id: &crate::hash::Hash) -> (r: bool)
        ensures
            r == self@.store.dom().contains(id@),
    {
        self.store.contains_key(id)
    }

    /// Number of distinct chunks held.
    pub fn count(&self) -> (r: usize)
        ensures
            self@.store.dom().finite(),
            r == self@.store.dom().len(),
    {
        self.store.len()
    }

    /// All held chunk ids in sorted order.
    pub fn chunk_ids(&self) -> (r: Vec<crate::hash::Hash>)
        ensures
            chunk::ids_view(r@) == ordmap::in_order::<crate::hash::Hash>(self@.store.dom()),
            self@.store.dom().finite(),
    {
        let n = self.store.len();
        let mut out: Vec<crate::hash::Hash> = Vec::with_capacity(n);
        let mut i: usize = 0;
        while i < n
            invariant
                i <= n,
                n == ordmap::in_order::<crate::hash::Hash>(self.store@.dom()).len(),
                out@.len() == i,
                forall|j: int|
                    0 <= j < i ==> (#[trigger] out@[j])@ == ordmap::in_order::<crate::hash::Hash>(
                        self.store@.dom(),
                    )[j],
            decreases n - i,
        {
            out.push(*self.store.key_at(i));
            i += 1;
        }
        assert(chunk::ids_view(out@) =~= ordmap::in_order::<crate::hash::Hash>(self@.store.dom()));
        out
    }

    /// Store a chunk only if its bytes match its id. Rejecting a mismatch keeps
    /// corrupt bytes from ever entering the store.
    fn put(&mut self, id: crate::hash::Hash, data: Vec<u8>)
        ensures
            final(self)@ == old(self)@.stored(id@, data@),
    {
        if sha256(data.as_slice()).same(&id) {
            self.store.insert(id, data);
        }
    }

    /// Handle one message and return the messages to send in response, each as
    /// (from, to, message) with `from` set to this node.
    pub fn handle(&mut self, from: NodeId, msg: Message) -> (r: Vec<(NodeId, NodeId, Message)>)
        ensures
            final(self)@ == old(self)@.after(msg@),
            routed_view(r@) == old(self)@.replies(from, msg@),
    {
        let me = NodeId::Storage(self.idx);
        match msg {
            Message::StoreChunk { id, data } => {
                self.put(id, data);
                if self.has(&id) {
                    routed(me, from, Message::StoreAck { id })
                } else {
                    nothing()
                }
            },
            Message::FetchChunk { id } => {
                let data = match self.store.get(&id) {
                    Some(d) => Some(d.copy_value()),
                    None => None,
                };
                routed(me, from, Message::ChunkData { id, data })
            },
            Message::Replicate { id, data } => {
                self.put(id, data);
                nothing()
            },
            Message::ReplicateOrder { id, dest } => {
                let held = match self.store.get(&id) {
                    Some(d) => Some(d.copy_value()),
                    None => None,
                };
                match held {
                    Some(data) => routed(
                        me,
                        NodeId::Storage(dest),
                        Message::Replicate { id, data },
                    ),
                    None => nothing(),
                }
            },
            _ => nothing(),
        }
    }
}

} // verus!

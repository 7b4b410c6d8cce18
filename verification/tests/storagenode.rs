//! The storage node.

use archipelago::message::Message;
use archipelago::storagenode::StorageNode;
use archipelago::{sha256, NodeId};

#[test]
fn store_and_fetch() {
    let mut n = StorageNode::new(0);
    let data = vec![1u8, 2, 3];
    let id = sha256(&data);
    let out = n.handle(NodeId::Client, Message::StoreChunk { id, data: data.clone() });
    assert_eq!(out, vec![(NodeId::Storage(0), NodeId::Client, Message::StoreAck { id })]);
    assert!(n.has(&id));

    let out = n.handle(NodeId::Client, Message::FetchChunk { id });
    assert_eq!(
        out,
        vec![(
            NodeId::Storage(0),
            NodeId::Client,
            Message::ChunkData { id, data: Some(data) }
        )]
    );
}

#[test]
fn fetch_missing_returns_none() {
    let mut n = StorageNode::new(1);
    let id = sha256(b"absent");
    let out = n.handle(NodeId::Client, Message::FetchChunk { id });
    assert_eq!(
        out,
        vec![(
            NodeId::Storage(1),
            NodeId::Client,
            Message::ChunkData { id, data: None }
        )]
    );
}

#[test]
fn corrupt_store_is_rejected() {
    let mut n = StorageNode::new(0);
    let id = sha256(b"real");
    let out = n.handle(
        NodeId::Client,
        Message::StoreChunk {
            id,
            data: b"tampered".to_vec(),
        },
    );
    assert!(out.is_empty());
    assert!(!n.has(&id));
}

#[test]
fn replicate_order_ships_data() {
    let mut n = StorageNode::new(0);
    let data = vec![5u8; 10];
    let id = sha256(&data);
    n.handle(NodeId::Client, Message::StoreChunk { id, data: data.clone() });
    let out = n.handle(NodeId::Meta(0), Message::ReplicateOrder { id, dest: 3 });
    assert_eq!(
        out,
        vec![(NodeId::Storage(0), NodeId::Storage(3), Message::Replicate { id, data })]
    );
}

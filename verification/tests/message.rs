//! Wire messages.

use archipelago::message::{
    code, decode_envelope, encode_envelope, Message, MetaOp, MetaResult, Query, QueryResult,
};
use archipelago::{sha256, DirEntry, Error, Manifest, NodeId, StatInfo};

fn m(size: u64) -> Manifest {
    Manifest {
        size,
        content_hash: sha256(b"file"),
        chunks: vec![sha256(b"a"), sha256(b"b")],
        erasure: None,
    }
}

#[test]
fn all_messages_round_trip() {
    let msgs = vec![
        Message::StoreChunk {
            id: sha256(b"x"),
            data: vec![1, 2, 3],
        },
        Message::StoreAck { id: sha256(b"x") },
        Message::FetchChunk { id: sha256(b"x") },
        Message::ChunkData {
            id: sha256(b"x"),
            data: Some(vec![9, 9]),
        },
        Message::ChunkData {
            id: sha256(b"x"),
            data: None,
        },
        Message::ReplicateOrder {
            id: sha256(b"x"),
            dest: 4,
        },
        Message::Replicate {
            id: sha256(b"x"),
            data: vec![7],
        },
        Message::Heartbeat {
            node: 2,
            chunks: vec![sha256(b"a"), sha256(b"b")],
        },
        Message::MetaOpMsg {
            req_id: 5,
            op: MetaOp::Put {
                path: "/a".into(),
                manifest: m(10),
            },
        },
        Message::MetaReplicate {
            seq: 7,
            op: MetaOp::Rename {
                from: "/a".into(),
                to: "/b".into(),
            },
        },
        Message::MetaReplicateAck { seq: 7 },
        Message::MetaCommitted {
            req_id: 5,
            result: MetaResult::Rejected(code::ALREADY_EXISTS),
        },
        Message::MetaQueryMsg {
            req_id: 6,
            q: Query::List { path: "/".into() },
        },
        Message::MetaQueryResp {
            req_id: 6,
            result: QueryResult::Listing(vec![DirEntry {
                name: "a".into(),
                is_dir: false,
                size: 10,
            }]),
        },
        Message::MetaQueryResp {
            req_id: 6,
            result: QueryResult::Stat(Some(StatInfo {
                is_dir: true,
                size: 0,
                content_hash: sha256(b""),
            })),
        },
    ];
    for msg in msgs {
        let bytes = msg.encode();
        let back = Message::decode(&bytes).unwrap();
        assert_eq!(back, msg);
    }
}

#[test]
fn envelope_round_trip() {
    let msg = Message::StoreAck { id: sha256(b"z") };
    let bytes = encode_envelope(NodeId::Client, NodeId::Storage(3), &msg);
    let (from, to, back) = decode_envelope(&bytes).unwrap();
    assert_eq!(from, NodeId::Client);
    assert_eq!(to, NodeId::Storage(3));
    assert_eq!(back, msg);
}

#[test]
fn hostile_counts_are_errors_not_panics() {
    // A heartbeat whose chunk count varint decodes to u64::MAX must be
    // rejected, not turned into an absurd allocation.
    let mut bytes = vec![7u8];
    bytes.push(0);
    bytes.extend_from_slice(&[0xffu8, 0xff, 0xff, 0xff, 0xff, 0xff, 0xff, 0xff, 0xff, 0x7f]);
    assert!(Message::decode(&bytes).is_err());

    // A listing whose entry count varint decodes to u64::MAX as well.
    let mut bytes = vec![13u8];
    bytes.extend_from_slice(&[0u8]); // req_id
    bytes.push(1); // QueryResult::Listing
    bytes.extend_from_slice(&[0xffu8, 0xff, 0xff, 0xff, 0xff, 0xff, 0xff, 0xff, 0xff, 0x7f]);
    assert!(Message::decode(&bytes).is_err());
}

#[test]
fn random_envelopes_never_panic() {
    // xorshift-driven malformed envelopes. Every decode must return an
    // outcome rather than panic, whatever the bytes contain.
    let mut state = 0xfeed_faceu64;
    for _ in 0..5000 {
        state ^= state << 13;
        state ^= state >> 7;
        state ^= state << 17;
        let len = (state % 96) as usize;
        let buf: Vec<u8> = (0..len)
            .map(|_| {
                state ^= state << 13;
                state ^= state >> 7;
                state ^= state << 17;
                (state >> 16) as u8
            })
            .collect();
        let _ = decode_envelope(&buf);
    }
}

fn assorted() -> Vec<Message> {
    let id = sha256(b"x");
    let stat = StatInfo { is_dir: true, size: 300, content_hash: id };
    let entry = DirEntry { name: "name".into(), is_dir: false, size: 129 };
    let coded = Manifest { erasure: Some((2, 1)), ..m(200) };
    let answers = vec![
        QueryResult::Manifest(Some(m(10))),
        QueryResult::Manifest(None),
        QueryResult::Listing(vec![entry.clone(), entry]),
        QueryResult::Stat(Some(stat)),
        QueryResult::Stat(None),
        QueryResult::Rejected(code::NOT_FOUND),
    ];
    let ops = vec![
        MetaOp::Put { path: "/a".into(), manifest: coded },
        MetaOp::Mkdir { path: "/d".into() },
        MetaOp::Delete { path: "/a".into() },
        MetaOp::Rename { from: "/a".into(), to: "/b".into() },
    ];
    let mut all = vec![
        Message::StoreChunk { id, data: vec![1; 200] },
        Message::StoreAck { id },
        Message::FetchChunk { id },
        Message::ChunkData { id, data: Some(vec![9, 9]) },
        Message::ChunkData { id, data: None },
        Message::ReplicateOrder { id, dest: 400 },
        Message::Replicate { id, data: vec![] },
        Message::Heartbeat { node: 2, chunks: vec![id, id] },
        Message::MetaReplicateAck { seq: 1 << 40 },
        Message::MetaCommitted { req_id: 5, result: MetaResult::Committed },
        Message::MetaCommitted { req_id: 5, result: MetaResult::Rejected(3) },
        Message::MetaQueryMsg { req_id: 6, q: Query::Stat { path: "/p".into() } },
    ];
    for op in ops {
        all.push(Message::MetaOpMsg { req_id: 77, op: op.clone() });
        all.push(Message::MetaReplicate { seq: 1000, op });
    }
    for result in answers {
        all.push(Message::MetaQueryResp { req_id: 6, result });
    }
    all
}

#[test]
fn a_truncated_message_is_malformed() {
    for msg in assorted() {
        let bytes = msg.encode();
        for n in 0..bytes.len() {
            assert!(matches!(Message::decode(&bytes[..n]), Err(Error::Decode(_))));
        }
        let routed = encode_envelope(NodeId::Meta(1), NodeId::Storage(200), &msg);
        for n in 0..routed.len() {
            assert!(matches!(decode_envelope(&routed[..n]), Err(Error::Decode(_))));
        }
    }
}

#[test]
fn bytes_after_a_message_are_ignored() {
    for msg in assorted() {
        for tail in [vec![0u8], vec![255; 40]] {
            let mut bytes = msg.encode();
            bytes.extend_from_slice(&tail);
            assert_eq!(Message::decode(&bytes), Ok(msg.clone()));
            let mut routed = encode_envelope(NodeId::Client, NodeId::Meta(0), &msg);
            routed.extend_from_slice(&tail);
            assert_eq!(decode_envelope(&routed), Ok((NodeId::Client, NodeId::Meta(0), msg.clone())));
        }
    }
}

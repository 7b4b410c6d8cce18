//! The building blocks, on exact values.

use archipelago::chunk::{chunk_bytes, reassemble, split};
use archipelago::encode::{Decoder, Encoder};
use archipelago::erasure::{gf_div, gf_inv, gf_mul, Erasure};
use archipelago::message::{decode_envelope, encode_envelope, Message, MetaOp};
use archipelago::net::{Delivery, LinkParams, Network, Prng, ALWAYS};
use archipelago::ordmap::{bytes_precede, OrdMap, OrdSet};
use archipelago::path::{basename, is_root, is_under, normalize, parent, relocate};
use archipelago::placement::{place, weight};
use archipelago::storagenode::StorageNode;
use archipelago::varint::{decode_uvarint, encode_uvarint};
use archipelago::{sha256, Error, Manifest, NodeId, Options};

#[test]
fn generator_values() {
    let mut p = Prng::new(42);
    assert_eq!(p.next_u64(), 0xfb4d_394f_8ead_bd08);
    assert_eq!(p.next_u64(), 0x5eca_1bf6_459a_a472);
    let mut p = Prng::new(1);
    assert_eq!(p.next_u53(), 0xe_4e8c_b179_6de9);
    let mut p = Prng::new(0);
    assert_eq!(p.next_u64(), 0x6661_260e_8cc5_7df4);
}

#[test]
fn chances_at_the_ends() {
    let mut p = Prng::new(9);
    for _ in 0..100 {
        assert!(!p.chance(0));
        assert!(p.chance(ALWAYS));
    }
    // The draw is below the threshold exactly.
    let mut p = Prng::new(1);
    assert!(!p.chance(0xe_4e8c_b179_6de9));
    let mut p = Prng::new(1);
    assert!(p.chance(0xe_4e8c_b179_6dea));
}

#[test]
fn varints_of_ten_bytes() {
    let mut out = Vec::new();
    encode_uvarint(u64::MAX, &mut out);
    assert_eq!(out, vec![0xff, 0xff, 0xff, 0xff, 0xff, 0xff, 0xff, 0xff, 0xff, 0x01]);
    assert_eq!(decode_uvarint(&out), Ok((u64::MAX, 10)));
    // One more bit would be lost.
    out[9] = 0x03;
    assert!(matches!(decode_uvarint(&out), Err(Error::Decode(_))));
    // An eleventh byte is one too many.
    assert!(matches!(decode_uvarint(&[0x80; 11]), Err(Error::Decode(_))));
    assert!(matches!(decode_uvarint(&[0x80]), Err(Error::Decode(_))));
    assert!(matches!(decode_uvarint(&[]), Err(Error::Decode(_))));
}

#[test]
fn encoded_layout() {
    let mut e = Encoder::new();
    e.put_u8(7);
    e.put_uvarint(300);
    e.put_bytes(&[1, 2]);
    e.put_str("hi");
    let bytes = e.finish();
    assert_eq!(bytes, vec![7, 0xac, 0x02, 2, 1, 2, 2, b'h', b'i']);
    let mut d = Decoder::new(&bytes);
    assert_eq!(d.get_u8(), Ok(7));
    assert_eq!(d.get_uvarint(), Ok(300));
    assert_eq!(d.get_bytes(), Ok(vec![1, 2]));
    assert_eq!(d.get_str(), Ok("hi".to_string()));
    assert!(d.get_u8().is_err());
}

#[test]
fn absurd_lengths_are_rejected() {
    let mut e = Encoder::new();
    e.put_uvarint(u64::MAX);
    let bytes = e.finish();
    assert!(matches!(Decoder::new(&bytes).get_bytes(), Err(Error::Decode(_))));
    // A manifest that claims more chunks than there are bytes for.
    let mut e = Encoder::new();
    e.put_uvarint(1);
    e.put_hash(&sha256(b"x"));
    e.put_uvarint(1 << 40);
    let bytes = e.finish();
    assert!(matches!(Manifest::decode(&mut Decoder::new(&bytes)), Err(Error::Decode(_))));
}

#[test]
fn manifest_bytes() {
    let (_, m) = chunk_bytes(b"abcde", 2);
    assert_eq!(m.size, 5);
    assert_eq!(m.content_hash, sha256(b"abcde"));
    assert_eq!(m.chunks, vec![sha256(b"ab"), sha256(b"cd"), sha256(b"e")]);
    let mut e = Encoder::new();
    m.encode(&mut e);
    let bytes = e.finish();
    assert_eq!(bytes.len(), 1 + 32 + 1 + 3 * 32 + 1);
    assert_eq!(bytes[0], 5);
    assert_eq!(bytes[33], 3);
    assert_eq!(bytes[bytes.len() - 1], 0);
    assert_eq!(Manifest::decode(&mut Decoder::new(&bytes)), Ok(m));
}

#[test]
fn pieces_cover_the_file() {
    for len in 0..20usize {
        let data: Vec<u8> = (0..len as u8).collect();
        let parts = split(&data, 4);
        assert_eq!(parts.len(), len.div_ceil(4));
        for p in &parts {
            assert!(!p.is_empty() && p.len() <= 4);
        }
        assert_eq!(reassemble(&parts), data);
    }
}

#[test]
fn field_values() {
    assert_eq!(gf_mul(2, 0x80), 0x1d);
    assert_eq!(gf_mul(3, 7), 9);
    assert_eq!(gf_mul(0x53, 0xca), 143);
    assert_eq!(gf_inv(2), 142);
    assert_eq!(gf_inv(255), 253);
    assert_eq!(gf_div(9, 7), 3);
}

#[test]
fn any_k_shards_give_the_chunk_back() {
    let er = Erasure::new(3, 2).unwrap();
    let chunk = b"twenty bytes of data";
    let shards = er.encode(chunk);
    assert_eq!(shards.len(), 5);
    assert_eq!(er.shard_len(20), 7);
    for a in 0..5 {
        for b in a + 1..5 {
            let mut slots: Vec<Option<&[u8]>> = shards.iter().map(|s| Some(s.as_slice())).collect();
            slots[a] = None;
            slots[b] = None;
            assert_eq!(er.decode(&slots, 20), Ok(chunk.to_vec()));
        }
    }
    for pos in 0..5 {
        assert_eq!(er.encode_position(&shards[..3], pos), shards[pos]);
    }
}

#[test]
fn erasure_parameters() {
    assert!(Erasure::new(0, 1).is_err());
    assert!(Erasure::new(1, 0).is_err());
    assert!(Erasure::new(33, 32).is_err());
    assert_eq!(Erasure::new(32, 32).unwrap().total(), 64);
    assert_eq!(
        Erasure::new(60, 5),
        Err(Error::InvalidPath("erasure k+m=65; the scheme is capped at 64 shards".into()))
    );
    let sum = usize::MAX as u128 + 3;
    assert_eq!(
        Erasure::new(usize::MAX, 3),
        Err(Error::InvalidPath(format!("erasure k+m={sum}; the scheme is capped at 64 shards")))
    );
    assert_eq!(
        Erasure::new(0, 3),
        Err(Error::InvalidPath("erasure needs k and m of at least one, got k=0 m=3".into()))
    );
}

#[test]
fn weights_of_nodes() {
    let id = sha256(b"abc");
    assert_eq!(weight(0, &id), 0xf55a_e10f_6db6_a17e);
    assert_eq!(weight(1, &id), 0x36cc_ec26_fa39_a80d);
    let nodes = [0, 1, 2, 3, 4, 5, 6, 7];
    let mut by_weight = nodes.to_vec();
    by_weight.sort_by_key(|n| (std::cmp::Reverse(weight(*n, &id)), *n));
    for r in 0..10 {
        assert_eq!(place(&id, &nodes, r), by_weight[..r.min(8)].to_vec());
    }
}

#[test]
fn removing_a_node_moves_only_its_chunks() {
    let all = [0, 1, 2, 3, 4, 5];
    let rest = [0, 1, 2, 4, 5];
    for i in 0..200u32 {
        let id = sha256(&i.to_be_bytes());
        let before = place(&id, &all, 3);
        let after = place(&id, &rest, 3);
        if before.contains(&3) {
            for n in before {
                assert!(n == 3 || after.contains(&n));
            }
        } else {
            assert_eq!(before, after);
        }
    }
}

#[test]
fn deliveries_come_in_time_order() {
    let params = LinkParams { base_latency: 2, jitter: 6, drop_prob: 0 };
    let mut net = Network::new(5, params, true);
    for i in 0..30u32 {
        net.send(NodeId::Client, NodeId::Storage(i), &Message::FetchChunk { id: sha256(b"x") });
    }
    let mut count: usize = 0;
    while let Some((from, to, _)) = net.step() {
        assert_eq!(from, NodeId::Client);
        assert!(matches!(to, NodeId::Storage(_)));
        count += 1;
    }
    assert_eq!(count, 30);
    let log: &Vec<Delivery> = net.deliveries();
    assert_eq!(log.len(), 30);
    for w in log.windows(2) {
        assert!(w[0].time <= w[1].time);
    }
    assert!(log.iter().all(|d| d.time >= 2 && d.time <= 8));
    assert_eq!(net.clock(), log[29].time);
    assert!(!net.has_pending());
}

#[test]
fn down_nodes_are_cut_off() {
    let mut net = Network::new(5, LinkParams::default(), true);
    net.crash(NodeId::Storage(1));
    assert!(net.is_down(NodeId::Storage(1)));
    net.send(NodeId::Storage(1), NodeId::Client, &Message::StoreAck { id: sha256(b"x") });
    net.send(NodeId::Client, NodeId::Storage(1), &Message::FetchChunk { id: sha256(b"x") });
    assert!(!net.has_pending());
    net.recover(NodeId::Storage(1));
    assert!(!net.is_down(NodeId::Storage(1)));
}

#[test]
fn envelopes_round_trip() {
    let msg = Message::MetaReplicate {
        seq: 9,
        op: MetaOp::Rename { from: "/a".into(), to: "/b".into() },
    };
    let bytes = encode_envelope(NodeId::Meta(2), NodeId::Storage(300), &msg);
    assert_eq!(decode_envelope(&bytes), Ok((NodeId::Meta(2), NodeId::Storage(300), msg)));
    assert!(decode_envelope(&bytes[..bytes.len() - 1]).is_err());
    assert!(Message::decode(&[200]).is_err());
    assert!(Message::decode(&[]).is_err());
}

#[test]
fn stored_chunks_are_held_and_given_back() {
    let mut n = StorageNode::new(4);
    let id = sha256(b"data");
    let acks = n.handle(NodeId::Client, Message::StoreChunk { id, data: b"data".to_vec() });
    assert_eq!(acks, vec![(NodeId::Storage(4), NodeId::Client, Message::StoreAck { id })]);
    assert!(n.has(&id));
    assert_eq!(n.count(), 1);
    let out = n.handle(NodeId::Client, Message::FetchChunk { id });
    assert_eq!(
        out,
        vec![(
            NodeId::Storage(4),
            NodeId::Client,
            Message::ChunkData { id, data: Some(b"data".to_vec()) }
        )]
    );
    let other = sha256(b"other");
    let out = n.handle(NodeId::Meta(0), Message::ReplicateOrder { id: other, dest: 1 });
    assert!(out.is_empty());
    let out = n.handle(NodeId::Meta(0), Message::ReplicateOrder { id, dest: 1 });
    assert_eq!(
        out,
        vec![(
            NodeId::Storage(4),
            NodeId::Storage(1),
            Message::Replicate { id, data: b"data".to_vec() }
        )]
    );
}

#[test]
fn ordered_sets_and_maps() {
    let mut s: OrdSet<u32> = OrdSet::new();
    assert!(s.insert(5));
    assert!(s.insert(1));
    assert!(!s.insert(5));
    assert_eq!(s.len(), 2);
    assert_eq!(*s.at(0), 1);
    assert_eq!(*s.at(1), 5);
    assert!(s.contains(&5));
    assert!(s.remove(&5));
    assert!(!s.remove(&5));
    let mut m: OrdMap<String, u64> = OrdMap::new();
    m.insert("b".into(), 2);
    m.insert("a".into(), 1);
    m.insert("b".into(), 3);
    assert_eq!(m.len(), 2);
    assert_eq!(m.key_at(0), "a");
    assert_eq!(*m.value_at(1), 3);
    assert_eq!(m.get(&"b".to_string()), Some(&3));
    assert_eq!(m.remove(&"a".to_string()), Some(1));
    assert!(!m.contains_key(&"a".to_string()));
    assert!(bytes_precede(&[1, 2], &[1, 2, 0]));
    assert!(!bytes_precede(&[2], &[1, 9]));
    assert!(!bytes_precede(&[1], &[1]));
}

#[test]
fn path_helpers() {
    assert!(is_root("/"));
    assert!(!is_root("/a"));
    assert_eq!(parent("/"), None);
    assert_eq!(parent("/a"), Some("/".to_string()));
    assert_eq!(parent("/a/b"), Some("/a".to_string()));
    assert_eq!(basename("/a/b"), "b");
    assert!(is_under("/a/b/c", "/a"));
    assert!(!is_under("/ab", "/a"));
    assert!(!is_under("/a", "/a"));
    assert_eq!(relocate("/a/b/c", "/a", "/x/y"), "/x/y/b/c");
    assert_eq!(normalize("/a/./b"), None);
    assert_eq!(normalize(""), None);
}

#[test]
fn option_presets() {
    let d = Options::default();
    assert_eq!(
        (d.chunk_size, d.replication_factor, d.write_quorum, d.read_quorum),
        (65536, 3, 2, 1)
    );
    assert_eq!((d.node_count, d.meta_count, d.meta_quorum, d.op_deadline), (5, 3, 2, 10_000));
    assert!(d.erasure.is_none());
    assert_eq!(Options::small().chunk_size, 1024);
    let e = Options::small_erasure(2, 1);
    assert_eq!(e.erasure.map(|x| (x.k, x.m)), Some((2, 1)));
    assert_eq!(e.replication_factor, 1);
}

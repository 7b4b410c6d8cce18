//! What the cluster promises as a whole, on concrete runs.

use archipelago::erasure::Erasure;
use archipelago::message::{Message, MetaOp, MetaResult, Query, QueryResult};
use archipelago::metadata::MetaNode;
use archipelago::net::{LinkParams, ALWAYS};
use archipelago::{sha256, Cluster, Error, Manifest, NodeId, Options};

fn bytes(len: usize, salt: u8) -> Vec<u8> {
    (0..len).map(|i| (i as u8).wrapping_mul(31).wrapping_add(salt) ^ ((i >> 8) as u8)).collect()
}

/// Live nodes, by what the status shows.
fn live_counts(c: &Cluster) -> Vec<usize> {
    c.status().files.iter().map(|f| f.min_live_replicas).collect()
}

#[test]
fn a_write_is_read_back() {
    for len in [0usize, 1, 1023, 1024, 1025, 5000] {
        let mut c = Cluster::new(Options::small(), len as u64);
        let data = bytes(len, 3);
        c.write_file("/f", &data).unwrap();
        assert_eq!(c.read_file("/f").unwrap(), data);
        let s = c.stat("/f").unwrap();
        assert_eq!(s.size, len as u64);
        assert_eq!(s.content_hash, sha256(&data));
        assert!(!s.is_dir);
    }
}

#[test]
fn a_write_survives_one_loss_less_than_its_quorum() {
    for lost in 0..5u32 {
        let mut c = Cluster::new(Options::small(), 70 + u64::from(lost));
        let data = bytes(4000, 9);
        c.write_file("/f", &data).unwrap();
        c.crash_node(lost);
        assert_eq!(c.read_file("/f").unwrap(), data);
    }
}

#[test]
fn full_replication_survives_all_but_one() {
    let mut c = Cluster::new(Options::small(), 8);
    let data = bytes(3000, 1);
    c.write_file("/f", &data).unwrap();
    assert!(c.stabilize());
    assert!(live_counts(&c).iter().all(|n| *n >= 3));
    for a in 0..5u32 {
        for b in a + 1..5 {
            c.crash_node(a);
            c.crash_node(b);
            assert_eq!(c.read_file("/f").unwrap(), data);
            c.recover_node(a);
            c.recover_node(b);
        }
    }
}

#[test]
fn stabilizing_restores_the_replicas() {
    let mut c = Cluster::new(Options::small(), 12);
    for i in 0..6u8 {
        c.write_file(&format!("/f{i}"), &bytes(2500, i)).unwrap();
    }
    assert!(c.stabilize());
    c.crash_node(1);
    c.crash_node(3);
    assert!(c.stabilize());
    assert!(live_counts(&c).iter().all(|n| *n >= 3));
    // With two nodes left the target is two.
    c.crash_node(0);
    assert!(c.stabilize());
    assert!(live_counts(&c).iter().all(|n| *n >= 2));
    for i in 0..6u8 {
        assert_eq!(c.read_file(&format!("/f{i}")).unwrap(), bytes(2500, i));
    }
}

#[test]
fn stabilizing_fails_when_a_chunk_is_lost() {
    let mut c = Cluster::new(Options::small(), 13);
    c.write_file("/f", b"gone").unwrap();
    assert!(c.stabilize());
    let holders = c.placement_of(&sha256(b"gone"));
    assert_eq!(holders.len(), 3);
    for n in holders {
        c.crash_node(n);
    }
    assert!(!c.stabilize());
    assert!(matches!(c.read_file("/f"), Err(Error::ChunkUnavailable(_))));
}

#[test]
fn the_namespace_survives_any_one_metadata_node() {
    for lost in 0..3u32 {
        let mut c = Cluster::new(Options::small(), 90 + u64::from(lost));
        c.mkdir("/d").unwrap();
        c.write_file("/d/f", b"kept").unwrap();
        c.rename("/d", "/e").unwrap();
        c.crash_meta(lost);
        assert_eq!(c.read_file("/e/f").unwrap(), b"kept".to_vec());
        assert!(matches!(c.stat("/d"), Err(Error::NotFound(_))));
        c.recover_meta(lost);
        assert_eq!(c.read_file("/e/f").unwrap(), b"kept".to_vec());
    }
}

#[test]
fn backups_come_and_go() {
    let mut c = Cluster::new(Options { meta_count: 5, meta_quorum: 3, ..Options::small() }, 3);
    c.mkdir("/a").unwrap();
    c.crash_meta(3);
    c.mkdir("/b").unwrap();
    c.crash_meta(4);
    c.mkdir("/c").unwrap();
    c.recover_meta(3);
    c.recover_meta(4);
    c.crash_meta(1);
    c.crash_meta(2);
    c.mkdir("/d").unwrap();
    c.recover_meta(1);
    c.recover_meta(2);
    c.crash_meta(0);
    let names: Vec<String> = c.list("/").unwrap().into_iter().map(|e| e.name).collect();
    assert_eq!(names, vec!["a", "b", "c", "d"]);
}

#[test]
fn a_refused_operation_changes_nothing() {
    let mut c = Cluster::new(Options::small(), 6);
    c.mkdir("/d").unwrap();
    c.write_file("/d/f", b"one").unwrap();
    let before = c.list("/d").unwrap();
    assert!(c.mkdir("/d").is_err());
    assert!(c.delete("/d").is_err());
    assert!(c.rename("/d", "/d/x").is_err());
    assert!(c.rename("/d/f", "/d").is_err());
    assert!(c.write_file("/d", b"two").is_err());
    assert_eq!(c.list("/d").unwrap(), before);
    assert_eq!(c.read_file("/d/f").unwrap(), b"one".to_vec());
}

#[test]
fn listings_are_in_name_order() {
    let mut c = Cluster::new(Options::small(), 6);
    for n in ["/zeta", "/alpha", "/mid"] {
        c.mkdir(n).unwrap();
    }
    c.write_file("/beta", b"12345").unwrap();
    let es = c.list("/").unwrap();
    let shown: Vec<(String, bool, u64)> = es.into_iter().map(|e| (e.name, e.is_dir, e.size)).collect();
    assert_eq!(
        shown,
        vec![
            ("alpha".to_string(), true, 0),
            ("beta".to_string(), false, 5),
            ("mid".to_string(), true, 0),
            ("zeta".to_string(), true, 0),
        ]
    );
}

#[test]
fn a_rename_moves_the_whole_subtree() {
    let mut c = Cluster::new(Options::small(), 6);
    c.mkdir("/a").unwrap();
    c.mkdir("/a/b").unwrap();
    c.write_file("/a/b/f", b"deep").unwrap();
    c.write_file("/ab", b"beside").unwrap();
    c.rename("/a", "/z").unwrap();
    assert_eq!(c.read_file("/z/b/f").unwrap(), b"deep".to_vec());
    assert_eq!(c.read_file("/ab").unwrap(), b"beside".to_vec());
    assert!(matches!(c.read_file("/a/b/f"), Err(Error::NotFound(_))));
}

#[test]
fn a_read_quorum_needs_that_many_copies() {
    let opts = Options { read_quorum: 2, ..Options::small() };
    let mut c = Cluster::new(opts, 21);
    c.write_file("/f", b"two copies").unwrap();
    assert!(c.stabilize());
    assert_eq!(c.read_file("/f").unwrap(), b"two copies".to_vec());
    let id = sha256(b"two copies");
    let holders = c.placement_of(&id);
    c.crash_node(holders[0]);
    c.crash_node(holders[1]);
    assert_eq!(c.read_file("/f"), Err(Error::ChunkUnavailable(id.short())));
    c.recover_node(holders[1]);
    assert_eq!(c.read_file("/f").unwrap(), b"two copies".to_vec());
    // That read brought the chunk to a third live node.
    c.crash_node(holders[1]);
    assert_eq!(c.read_file("/f").unwrap(), b"two copies".to_vec());
}

#[test]
fn erasure_shards_of_a_chunk_sit_on_distinct_nodes() {
    let mut c = Cluster::new(Options::small_erasure(2, 2), 31);
    let data = bytes(1024, 5);
    c.write_file("/f", &data).unwrap();
    c.stabilize();
    // Four different shards of one chunk: four nodes hold one each.
    let held: Vec<usize> = c.status().nodes.iter().map(|n| n.chunks).collect();
    assert_eq!(held.iter().filter(|n| **n > 0).count(), 4);
    // Any two of them can go.
    for a in 0..5u32 {
        for b in a + 1..5 {
            let mut c = Cluster::new(Options::small_erasure(2, 2), 31);
            c.write_file("/f", &data).unwrap();
            c.stabilize();
            c.crash_node(a);
            c.crash_node(b);
            assert_eq!(c.read_file("/f").unwrap(), data);
        }
    }
}

#[test]
fn erasure_shards_shared_between_chunks_still_spread() {
    // The second chunk repeats half of the first, so that one shard is common to both.
    let mut data = bytes(1024, 5);
    let half = data[..512].to_vec();
    data.extend_from_slice(&half);
    data.extend_from_slice(&bytes(512, 77));
    for seed in 0..4u64 {
        let mut c = Cluster::new(Options::small_erasure(2, 2), seed);
        c.write_file("/f", &data).unwrap();
        c.stabilize();
        for a in 0..5u32 {
            for b in a + 1..5 {
                c.crash_node(a);
                c.crash_node(b);
                assert_eq!(c.read_file("/f").unwrap(), data);
                c.recover_node(a);
                c.recover_node(b);
            }
        }
    }
}

#[test]
fn erasure_beyond_its_margin_is_reported() {
    let mut c = Cluster::new(Options::small_erasure(2, 2), 31);
    c.write_file("/f", &bytes(900, 5)).unwrap();
    c.stabilize();
    for i in 0..4 {
        c.crash_node(i);
    }
    assert!(matches!(c.read_file("/f"), Err(Error::ChunkUnavailable(_))));
}

#[test]
fn a_run_without_faults_reads_the_last_write() {
    let modes = [
        Options::small(),
        Options { read_quorum: 2, ..Options::small() },
        Options::small_erasure(2, 2),
        Options::small_erasure(3, 2),
        Options::default(),
    ];
    for (i, opts) in modes.into_iter().enumerate() {
        let mut c = Cluster::new(opts, 40 + i as u64);
        c.mkdir("/d").unwrap();
        c.write_file("/d/other", &bytes(2500, 8)).unwrap();
        // Growing, shrinking, emptied, on the edge of a chunk: the last write counts.
        for (turn, len) in [5000usize, 1024, 0, 2048, 2049, 1, 3072].into_iter().enumerate() {
            let data = bytes(len, turn as u8);
            c.write_file("/d/f", &data).unwrap();
            // None of this touches the file.
            c.write_file("/d/other", &bytes(900 + len, 60 + turn as u8)).unwrap();
            c.write_file("/d/gone", &data).unwrap();
            c.rename("/d/gone", "/moved").unwrap();
            c.delete("/moved").unwrap();
            assert!(c.mkdir("/d/f").is_err());
            assert!(c.rename("/d/other", "/d/f").is_err());
            assert_eq!(c.read_file("/d/other").unwrap(), bytes(900 + len, 60 + turn as u8));
            c.list("/d").unwrap();
            c.stat("/d/f").unwrap();
            c.stabilize();
            c.heal();
            c.recover_node(1);
            c.recover_meta(0);
            assert_eq!(c.read_file("/d/f").unwrap(), data);
        }
    }
}

#[test]
fn a_run_without_faults_writes_what_the_namespace_allows() {
    for opts in [Options::small(), Options::small_erasure(2, 2)] {
        let mut c = Cluster::new(opts, 12);
        c.mkdir("/d").unwrap();
        assert_eq!(c.write_file("/d/f", b"one"), Ok(()));
        assert_eq!(c.write_file("/d", b"two"), Err(Error::IsADirectory("/d".to_string())));
        assert_eq!(c.write_file("/no/f", b"two"), Err(Error::NotFound("/no/f".to_string())));
        assert_eq!(c.write_file("/d/f/g", b"two"), Err(Error::NotADirectory("/d/f/g".to_string())));
        assert_eq!(c.write_file("/d/f", b"two"), Ok(()));
        assert_eq!(c.read_file("/d/f"), Ok(b"two".to_vec()));
    }
}

#[test]
fn a_chunk_out_of_reach_is_reported() {
    let id = sha256(b"cut off");
    for need in 1..4usize {
        let opts = Options { read_quorum: need, ..Options::small() };
        let mut c = Cluster::new(opts, 60 + need as u64);
        c.write_file("/f", b"cut off").unwrap();
        assert!(c.stabilize());
        let holders = c.placement_of(&id);
        assert_eq!(holders.len(), 3);
        // One copy too few is left on the client's side.
        c.partition(&holders[need - 1..]);
        assert_eq!(c.read_file("/f"), Err(Error::ChunkUnavailable(id.short())));
        c.heal();
        assert_eq!(c.read_file("/f"), Ok(b"cut off".to_vec()));
    }
}

#[test]
fn erasure_shards_out_of_reach_are_reported() {
    let mut c = Cluster::new(Options::small_erasure(2, 2), 31);
    let data = bytes(900, 5);
    c.write_file("/f", &data).unwrap();
    c.stabilize();
    c.partition(&[0, 1, 2, 3]);
    assert!(matches!(c.read_file("/f"), Err(Error::ChunkUnavailable(_))));
    c.heal();
    assert_eq!(c.read_file("/f"), Ok(data));
}

#[test]
fn a_read_finds_more_copies_than_its_write_waited_for() {
    // The link is prompt, so that all three copies are there when the read asks.
    for seed in 0..40u64 {
        for (write_quorum, meta_quorum) in [(0usize, 1usize), (1, 1), (1, 2), (2, 2)] {
            let opts = Options {
                write_quorum,
                meta_quorum,
                read_quorum: 3,
                link: LinkParams::default(),
                ..Options::small()
            };
            let mut c = Cluster::new(opts, seed);
            for len in [3000usize, 1024, 0, 1] {
                let data = bytes(len, seed as u8);
                c.write_file("/f", &data).unwrap();
                assert_eq!(c.read_file("/f"), Ok(data));
            }
        }
    }
}

#[test]
fn stabilizing_says_whether_replication_is_full() {
    let mut c = Cluster::new(Options::small(), 19);
    c.write_file("/f", &bytes(2500, 4)).unwrap();
    assert!(c.stabilize());
    assert!(live_counts(&c).iter().all(|n| *n == 3));
    let id = sha256(&bytes(2500, 4)[..1024]);
    for n in c.placement_of(&id) {
        c.crash_node(n);
    }
    assert!(!c.stabilize());
    assert!(live_counts(&c).iter().any(|n| *n < 2));
}

#[test]
fn the_same_seed_replays_the_same_run() {
    let run = |seed: u64| {
        let mut c = Cluster::new(
            Options {
                link: LinkParams { base_latency: 1, jitter: 9, drop_prob: ALWAYS / 20 },
                ..Options::small()
            },
            seed,
        );
        let mut outcomes = Vec::new();
        outcomes.push(c.mkdir("/d").is_ok());
        outcomes.push(c.write_file("/d/f", &bytes(3000, 2)).is_ok());
        c.crash_node(2);
        outcomes.push(c.read_file("/d/f").is_ok());
        outcomes.push(c.stabilize());
        (outcomes, c.clock(), c.state_hash(), c.delivery_digest())
    };
    assert_eq!(run(5), run(5));
    assert_ne!(run(5).3, run(6).3);
}

fn meta(idx: u32, quorum: usize) -> MetaNode {
    let mut n = MetaNode::new(idx, quorum, vec![0, 1, 2], 3);
    n.set_role(idx == 0, vec![0, 1, 2]);
    n
}

fn op(path: &str) -> MetaOp {
    MetaOp::Mkdir { path: path.into() }
}

#[test]
fn a_commit_waits_for_its_quorum() {
    let mut p = meta(0, 3);
    let out = p.handle(NodeId::Client, Message::MetaOpMsg { req_id: 7, op: op("/d") });
    assert_eq!(out.len(), 2);
    assert!(out.iter().all(|m| matches!(m.2, Message::MetaReplicate { seq: 0, .. })));
    assert_eq!(p.applied_seq(), 0);
    let ack = |i| (NodeId::Meta(i), Message::MetaReplicateAck { seq: 0 });
    let (from, msg) = ack(1);
    assert!(p.handle(from, msg).is_empty());
    // The same acknowledgement again counts once.
    let (from, msg) = ack(1);
    assert!(p.handle(from, msg).is_empty());
    let (from, msg) = ack(2);
    let out = p.handle(from, msg);
    assert_eq!(
        out,
        vec![(
            NodeId::Meta(0),
            NodeId::Client,
            Message::MetaCommitted { req_id: 7, result: MetaResult::Committed }
        )]
    );
    assert_eq!(p.applied_seq(), 1);
}

#[test]
fn a_gap_is_not_acknowledged() {
    let mut b = meta(1, 2);
    let out = b.handle(NodeId::Meta(0), Message::MetaReplicate { seq: 1, op: op("/d/e") });
    assert!(out.is_empty());
    assert_eq!(b.applied_seq(), 0);
    let out = b.handle(NodeId::Meta(0), Message::MetaReplicate { seq: 0, op: op("/d") });
    let seqs: Vec<u64> = out
        .iter()
        .map(|m| match m.2 {
            Message::MetaReplicateAck { seq } => seq,
            _ => panic!("expected an acknowledgement"),
        })
        .collect();
    assert_eq!(seqs, vec![0, 1]);
    assert_eq!(b.applied_seq(), 2);
}

#[test]
fn a_restored_node_has_the_state() {
    let mut p = meta(0, 1);
    let m = Manifest {
        size: 1,
        content_hash: sha256(b"x"),
        chunks: vec![sha256(b"x")],
        erasure: None,
    };
    p.handle(
        NodeId::Client,
        Message::MetaOpMsg { req_id: 1, op: MetaOp::Put { path: "/x".into(), manifest: m.clone() } },
    );
    let mut b = meta(1, 1);
    b.restore(p.snapshot());
    assert_eq!(b.applied_seq(), 1);
    assert_eq!(b.manifest("/x"), Some(&m));
    assert!(b.referenced_chunks().contains(&sha256(b"x")));
    let out = b.handle(
        NodeId::Client,
        Message::MetaQueryMsg { req_id: 2, q: Query::Get { path: "/x".into() } },
    );
    assert_eq!(
        out[0].2,
        Message::MetaQueryResp { req_id: 2, result: QueryResult::Manifest(Some(m)) }
    );
}

#[test]
fn the_primary_orders_missing_copies() {
    let mut p = meta(0, 1);
    let id = sha256(b"x");
    let m = Manifest { size: 1, content_hash: id, chunks: vec![id], erasure: None };
    p.handle(
        NodeId::Client,
        Message::MetaOpMsg { req_id: 1, op: MetaOp::Put { path: "/x".into(), manifest: m } },
    );
    p.update_membership(vec![0, 1, 2, 3], 4);
    let out = p.handle(NodeId::Storage(2), Message::Heartbeat { node: 2, chunks: vec![id] });
    let mut dests: Vec<u32> = out
        .iter()
        .map(|m| match (&m.1, &m.2) {
            (NodeId::Storage(2), Message::ReplicateOrder { id: i, dest }) if *i == id => *dest,
            other => panic!("unexpected {other:?}"),
        })
        .collect();
    dests.sort_unstable();
    assert_eq!(dests, vec![0, 1, 3]);
    // A report without the chunk takes it away again.
    let out = p.handle(NodeId::Storage(2), Message::Heartbeat { node: 2, chunks: vec![] });
    assert!(out.is_empty());
}

#[test]
fn a_partitioned_node_is_not_missed() {
    for cut in 0..5u32 {
        let mut c = Cluster::new(Options::small(), 200 + u64::from(cut));
        let data = bytes(2048, 4);
        c.write_file("/before", &data).unwrap();
        c.partition(&[cut]);
        assert_eq!(c.read_file("/before").unwrap(), data);
        c.write_file("/during", &data[..1500]).unwrap();
        assert_eq!(c.read_file("/during").unwrap(), data[..1500].to_vec());
        c.heal();
        assert!(c.stabilize());
        assert_eq!(c.read_file("/during").unwrap(), data[..1500].to_vec());
        assert!(live_counts(&c).iter().all(|n| *n >= 3));
    }
}

#[test]
fn duplicate_content_is_held_once() {
    let mut c = Cluster::new(Options::small(), 44);
    c.write_file("/a", &[5; 4096]).unwrap();
    c.write_file("/b", &[5; 1024]).unwrap();
    assert!(c.stabilize());
    let held: usize = c.status().nodes.iter().map(|n| n.chunks).sum();
    assert_eq!(held, 3);
    assert_eq!(c.read_file("/a").unwrap(), vec![5; 4096]);
}

#[test]
fn stores_keep_their_chunks_through_crashes() {
    let mut c = Cluster::new(Options::small(), 45);
    c.write_file("/a", &bytes(5000, 8)).unwrap();
    assert!(c.stabilize());
    let before: Vec<usize> = c.status().nodes.iter().map(|n| n.chunks).collect();
    for i in 0..5 {
        c.crash_node(i);
    }
    for i in 0..5 {
        c.recover_node(i);
    }
    c.delete("/a").unwrap();
    let after: Vec<usize> = c.status().nodes.iter().map(|n| n.chunks).collect();
    assert_eq!(before, after);
}

#[test]
fn what_was_committed_outlives_one_failover_after_another() {
    for seed in 0..4u64 {
        let mut c = Cluster::new(Options::small(), 400 + seed);
        c.mkdir("/d").unwrap();
        c.write_file("/d/first", &bytes(3000, 1)).unwrap();
        c.crash_meta(0);
        assert_eq!(c.read_file("/d/first").unwrap(), bytes(3000, 1));
        c.recover_meta(0);
        assert_eq!(c.read_file("/d/first").unwrap(), bytes(3000, 1));
        c.crash_meta(1);
        c.write_file("/d/second", &bytes(2000, 2)).unwrap();
        c.recover_meta(1);
        c.crash_meta(0);
        assert_eq!(c.read_file("/d/first").unwrap(), bytes(3000, 1));
        assert_eq!(c.read_file("/d/second").unwrap(), bytes(2000, 2));
        assert!(c.stabilize());
        c.recover_meta(0);
        c.crash_meta(2);
        assert_eq!(c.read_file("/d/second").unwrap(), bytes(2000, 2));
        c.recover_meta(2);
        let names: Vec<String> = c.list("/d").unwrap().into_iter().map(|e| e.name).collect();
        assert_eq!(names, vec!["first", "second"]);
    }
}

#[test]
fn a_promoted_primary_commits_once_its_numbers_have_caught_up() {
    let mut c = Cluster::new(Options::small(), 21);
    for d in ["/a", "/b", "/c"] {
        c.mkdir(d).unwrap();
    }
    c.crash_meta(0);
    // Three numbers are taken, so three proposals come too late.
    for _ in 0..3 {
        assert!(matches!(c.mkdir("/late"), Err(Error::MetadataUnavailable)));
        let names: Vec<String> = c.list("/").unwrap().into_iter().map(|e| e.name).collect();
        assert_eq!(names, vec!["a", "b", "c"]);
    }
    c.mkdir("/late").unwrap();
    c.write_file("/late/f", b"after the failover").unwrap();
    c.recover_meta(0);
    c.mkdir("/more").unwrap();
    for lost in 0..3u32 {
        c.crash_meta(lost);
        let names: Vec<String> = c.list("/").unwrap().into_iter().map(|e| e.name).collect();
        assert_eq!(names, vec!["a", "b", "c", "late", "more"]);
        assert_eq!(c.read_file("/late/f").unwrap(), b"after the failover".to_vec());
        c.recover_meta(lost);
    }
}

#[test]
fn a_late_proposal_is_lost_for_good() {
    let mut c = Cluster::new(Options::small(), 22);
    c.mkdir("/a").unwrap();
    c.write_file("/a/f", b"before").unwrap();
    c.crash_meta(0);
    assert!(matches!(c.mkdir("/a"), Err(Error::AlreadyExists(_))));
    assert!(matches!(c.delete("/b"), Err(Error::NotFound(_))));
    assert!(matches!(c.write_file("/a/f", b"late"), Err(Error::MetadataUnavailable)));
    assert!(matches!(c.delete("/a/f"), Err(Error::MetadataUnavailable)));
    assert_eq!(c.read_file("/a/f").unwrap(), b"before".to_vec());
    assert!(c.stabilize());
    c.recover_meta(0);
    assert_eq!(c.read_file("/a/f").unwrap(), b"before".to_vec());
    c.crash_meta(1);
    assert_eq!(c.read_file("/a/f").unwrap(), b"before".to_vec());
    c.write_file("/a/f", b"again").unwrap();
    assert_eq!(c.read_file("/a/f").unwrap(), b"again".to_vec());
}

#[test]
fn the_namespace_follows_the_operations_that_succeed() {
    // One metadata node out of three down at a time, storage nodes coming and going, the network
    // splitting and healing: the listing is what the successful operations made of it.
    for seed in 1..9u64 {
        let mut c = Cluster::new(Options::small(), seed);
        let mut x = seed.wrapping_mul(0x9e37_79b9_7f4a_7c15) | 1;
        let mut kept: Vec<(String, Vec<u8>)> = Vec::new();
        let mut lost: Option<u32> = None;
        for step in 0..60u32 {
            x ^= x << 13;
            x ^= x >> 7;
            x ^= x << 17;
            let name = format!("/f{}", (x >> 20) % 5);
            match (x >> 40) % 8 {
                0 | 1 | 2 => {
                    let data = bytes(((x >> 30) % 2500) as usize, step as u8);
                    if c.write_file(&name, &data).is_ok() {
                        kept.retain(|(n, _)| *n != name);
                        kept.push((name, data));
                    }
                }
                3 => {
                    if c.delete(&name).is_ok() {
                        kept.retain(|(n, _)| *n != name);
                    }
                }
                4 => match lost {
                    Some(n) => {
                        c.recover_meta(n);
                        lost = None;
                    }
                    None => {
                        let n = ((x >> 25) % 3) as u32;
                        c.crash_meta(n);
                        lost = Some(n);
                    }
                },
                5 => c.crash_node(((x >> 25) % 2) as u32),
                6 => {
                    c.recover_node(0);
                    c.recover_node(1);
                    c.heal();
                }
                _ => {
                    c.partition(&[((x >> 25) % 5) as u32]);
                    c.stabilize();
                }
            }
            let mut names: Vec<String> = kept.iter().map(|(n, _)| n[1..].to_string()).collect();
            names.sort();
            let listed: Vec<String> = c.list("/").unwrap().into_iter().map(|e| e.name).collect();
            assert_eq!(listed, names, "seed {seed}, step {step}");
            for (n, data) in &kept {
                assert_eq!(c.stat(n).unwrap().content_hash, sha256(data));
                match c.read_file(n) {
                    Ok(got) => assert_eq!(&got, data),
                    Err(e) => assert!(matches!(e, Error::ChunkUnavailable(_))),
                }
            }
        }
    }
}

#[test]
fn a_read_brings_every_lost_shard_back() {
    let opts = Options {
        erasure: Some(Erasure::new(3, 2).unwrap()),
        node_count: 7,
        chunk_size: 300,
        ..Options::small()
    };
    let mut c = Cluster::new(opts, 17);
    let data = bytes(1000, 5);
    c.write_file("/f", &data).unwrap();
    c.crash_node(1);
    c.crash_node(4);
    assert_eq!(live_counts(&c), vec![0]);
    assert_eq!(c.read_file("/f").unwrap(), data);
    // What the read sent arrives while the cluster is asked for something else.
    c.mkdir("/d").unwrap();
    c.stabilize();
    assert!(live_counts(&c).iter().all(|n| *n >= 1));
}

#[test]
fn a_read_brings_missing_replicas_back() {
    let mut mended = 0;
    for seed in 0..20u64 {
        let mut c = Cluster::new(Options { read_quorum: 2, ..Options::small() }, 500 + seed);
        let data = bytes(700, seed as u8);
        let home = c.placement_of(&sha256(&data))[0];
        c.crash_node(home);
        c.write_file("/f", &data).unwrap();
        c.recover_node(home);
        assert_eq!(c.placement_of(&sha256(&data))[0], home);
        let chunks = |c: &Cluster| c.status().nodes.iter().find(|n| n.idx == home).unwrap().chunks;
        assert_eq!(chunks(&c), 0);
        assert_eq!(c.read_file("/f").unwrap(), data);
        // What the read sent arrives while the cluster is asked for something else.
        for _ in 0..3 {
            assert_eq!(c.read_file("/f").unwrap(), data);
        }
        if chunks(&c) == 1 {
            mended += 1;
        }
    }
    assert!(mended > 0);
}

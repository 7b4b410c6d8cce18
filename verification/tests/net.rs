//! The network simulator.

use archipelago::message::Message;
use archipelago::net::{LinkParams, Network, Prng, ALWAYS};
use archipelago::{sha256, NodeId};

fn msg() -> Message {
    Message::StoreAck { id: sha256(b"x") }
}

#[test]
fn prng_deterministic() {
    let mut a = Prng::new(42);
    let mut b = Prng::new(42);
    for _ in 0..1000 {
        assert_eq!(a.next_u64(), b.next_u64());
    }
}

#[test]
fn prng_spreads() {
    let mut p = Prng::new(1);
    let mut ones = 0u32;
    for _ in 0..64 {
        ones += (p.next_u64() & 1) as u32;
    }
    assert!(ones > 15 && ones < 49);
}

#[test]
fn partition_blocks_then_heals() {
    let mut net = Network::new(1, LinkParams::default(), true);
    let all = [NodeId::Storage(0), NodeId::Storage(1)];
    net.partition(&[NodeId::Storage(1)], &all);
    net.send(NodeId::Storage(0), NodeId::Storage(1), &msg());
    assert!(!net.has_pending(), "cross-partition send should be dropped");

    net.heal();
    net.send(NodeId::Storage(0), NodeId::Storage(1), &msg());
    assert!(net.step().is_some());
}

#[test]
fn crash_drops_in_flight() {
    let mut net = Network::new(1, LinkParams::default(), true);
    net.send(NodeId::Storage(0), NodeId::Storage(1), &msg());
    net.crash(NodeId::Storage(1));
    assert!(net.step().is_none());
    net.recover(NodeId::Storage(1));
    net.send(NodeId::Storage(0), NodeId::Storage(1), &msg());
    assert!(net.step().is_some());
}

#[test]
fn reliable_never_drops() {
    let params = LinkParams {
        base_latency: 1,
        jitter: 3,
        drop_prob: ALWAYS,
    };
    let mut net = Network::new(7, params, true);
    for _ in 0..50 {
        net.send(NodeId::Storage(0), NodeId::Meta(0), &msg());
    }
    let mut delivered = 0;
    while net.step().is_some() {
        delivered += 1;
    }
    assert_eq!(delivered, 50);
}

#[test]
fn same_seed_same_delivery_order() {
    let run = || {
        let params = LinkParams {
            base_latency: 1,
            jitter: 6,
            drop_prob: (0.2 * ALWAYS as f64).ceil() as u64,
        };
        let mut net = Network::new(99, params, false);
        for i in 0..200u32 {
            net.send(NodeId::Storage(i % 5), NodeId::Meta(0), &msg());
        }
        let mut order = Vec::new();
        while let Some((f, t, _)) = net.step() {
            order.push((f, t, net.clock()));
        }
        order
    };
    assert_eq!(run(), run());
}

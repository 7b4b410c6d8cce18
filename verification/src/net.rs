//! The deterministic network simulator.
//!
//! The whole cluster runs in one process. The "network" is a seeded priority
//! queue of envelopes ordered by delivery time. A seeded generator drives per-link
//! latency, message drops, and reordering. Nodes can be crashed and healed, and
//! the node set can be split into partitions. Given the same seed and the same
//! sequence of sends and control operations, deliveries happen in the identical
//! order every run, which is what makes the distributed system testable.

use crate::message::{decode_envelope, encode_envelope, Message, NodeId};
use crate::ordmap::{OrdMap, OrdSet};
use crate::wire;
use vstd::prelude::*;

verus! {

/// The drop probability at which every message is dropped: probabilities are counted in
/// units of two to the power of minus 53.
pub const ALWAYS: u64 = 0x20_0000_0000_0000;

/// The first state for a seed: a splitmix64 mix, made odd so that it is not zero.
pub open spec fn seeded(seed: u64) -> u64 {
    let a = seed.wrapping_add(0x9e37_79b9_7f4a_7c15);
    let b = (a ^ (a >> 30)).wrapping_mul(0xbf58_476d_1ce4_e5b9);
    let c = (b ^ (b >> 27)).wrapping_mul(0x94d0_49bb_1331_11eb);
    (c ^ (c >> 31)) | 1
}

/// The state after one draw, which is also the value drawn: one xorshift64 round.
pub open spec fn drawn(state: u64) -> u64 {
    let a = state ^ (state << 13);
    let b = a ^ (a >> 7);
    b ^ (b << 17)
}

/// A seeded generator. xorshift64 with a splitmix64 seed mixer.
#[derive(Clone)]
pub struct Prng {
    state: u64,
}

impl View for Prng {
    type V = u64;

    closed spec fn view(&self) -> u64 {
        self.state
    }
}

impl Prng {
    /// Seed the generator. Any seed value is accepted.
    pub fn new(seed: u64) -> (r: Self)
        ensures
            r@ == seeded(seed),
    {
        let a = seed.wrapping_add(0x9e37_79b9_7f4a_7c15);
        let b = (a ^ (a >> 30)).wrapping_mul(0xbf58_476d_1ce4_e5b9);
        let c = (b ^ (b >> 27)).wrapping_mul(0x94d0_49bb_1331_11eb);
        let state = (c ^ (c >> 31)) | 1;
        Prng { state }
    }

    /// Next 64 bit value.
    pub fn next_u64(&mut self) -> (r: u64)
        ensures
            final(self)@ == drawn(old(self)@),
            r == drawn(old(self)@),
    {
        let a = self.state ^ (self.state << 13);
        let b = a ^ (a >> 7);
        let c = b ^ (b << 17);
        self.state = c;
        c
    }

    /// Next value of 53 bits: a uniform draw from `0..ALWAYS`.
    pub fn next_u53(&mut self) -> (r: u64)
        ensures
            final(self)@ == drawn(old(self)@),
            r == drawn(old(self)@) >> 11,
            r < ALWAYS,
    {
        let x = self.next_u64();
        assert(x >> 11 < 0x20_0000_0000_0000) by (bit_vector);
        x >> 11
    }

    /// True with probability `p` in units of two to the power of minus 53.
    pub fn chance(&mut self, p: u64) -> (r: bool)
        ensures
            final(self)@ == drawn(old(self)@),
            r == (drawn(old(self)@) >> 11 < p),
            p == 0 ==> !r,
            p >= ALWAYS ==> r,
    {
        self.next_u53() < p
    }
}

/// Tunable link behaviour for the simulator.
#[derive(Clone, Copy, Debug)]
pub struct LinkParams {
    /// Minimum one-way latency in logical ticks.
    pub base_latency: u64,
    /// Extra latency drawn uniformly from `0..=jitter`. Drives reordering.
    pub jitter: u64,
    /// Probability a message is dropped on send (ignored in reliable mode), in units of two
    /// to the power of minus 53.
    pub drop_prob: u64,
}

impl Default for LinkParams {
    fn default() -> (r: Self)
        ensures
            r == (LinkParams { base_latency: 1, jitter: 4, drop_prob: 0 }),
    {
        LinkParams { base_latency: 1, jitter: 4, drop_prob: 0 }
    }
}

/// A message in flight.
pub struct Flight {
    pub time: u64,
    pub seq: u64,
    pub env: wire::Envelope,
}

/// Whether `a` is delivered before `b`: earlier first, then in send order.
pub open spec fn due_before(a: Flight, b: Flight) -> bool {
    a.time < b.time || (a.time == b.time && a.seq < b.seq)
}

/// The queue with one more message in its place.
pub open spec fn enqueued(q: Seq<Flight>, f: Flight) -> Seq<Flight>
    decreases q.len(),
{
    if q.len() == 0 || due_before(q.last(), f) {
        q.push(f)
    } else {
        enqueued(q.drop_last(), f).push(q.last())
    }
}

proof fn lemma_enqueued_at(q: Seq<Flight>, f: Flight, at: int)
    requires
        0 <= at <= q.len(),
        at > 0 ==> due_before(q[at - 1], f),
        forall|i: int| at <= i < q.len() ==> !due_before(#[trigger] q[i], f),
    ensures
        enqueued(q, f) == q.insert(at, f),
    decreases q.len(),
{
    if at < q.len() {
        assert(!due_before(q[q.len() - 1], f));
        assert forall|i: int| at <= i < q.drop_last().len() implies !due_before(
            #[trigger] q.drop_last()[i],
            f,
        ) by {
            assert(q.drop_last()[i] == q[i]);
        }
        lemma_enqueued_at(q.drop_last(), f, at);
        assert(q.insert(at, f) =~= q.drop_last().insert(at, f).push(q.last()));
    } else {
        assert(q.insert(at, f) =~= q.push(f));
    }
}

/// Where a message goes when it is queued.
pub proof fn lemma_enqueued_split(q: Seq<Flight>, f: Flight) -> (at: int)
    ensures
        0 <= at <= q.len(),
        enqueued(q, f) == q.insert(at, f),
        at > 0 ==> due_before(q[at - 1], f),
        forall|i: int| at <= i < q.len() ==> !due_before(#[trigger] q[i], f),
    decreases q.len(),
{
    if q.len() == 0 || due_before(q.last(), f) {
        assert(q.insert(q.len() as int, f) =~= q.push(f));
        q.len() as int
    } else {
        let at = lemma_enqueued_split(q.drop_last(), f);
        assert forall|i: int| at <= i < q.len() implies !due_before(#[trigger] q[i], f) by {
            if i < q.len() - 1 {
                assert(q.drop_last()[i] == q[i]);
            }
        }
        assert(q.insert(at, f) =~= q.drop_last().insert(at, f).push(q.last()));
        at
    }
}

struct Parcel {
    time: u64,
    seq: u64,
    bytes: Vec<u8>,
}

/// Messages in flight, as bytes, earliest first.
struct Queue {
    items: Vec<Parcel>,
}

spec fn parcel_view(p: Parcel) -> Flight {
    Flight { time: p.time, seq: p.seq, env: wire::envelope_of(p.bytes@)->Ok_0 }
}

impl View for Queue {
    type V = Seq<Flight>;

    closed spec fn view(&self) -> Seq<Flight> {
        Seq::new(self.items@.len(), |i: int| parcel_view(self.items@[i]))
    }
}

impl Queue {
    #[verifier::type_invariant]
    spec fn decodable(self) -> bool {
        forall|i: int|
            0 <= i < self.items@.len() ==> wire::envelope_of((#[trigger] self.items@[i]).bytes@)
                is Ok
    }

    fn new() -> (r: Self)
        ensures
            r@ == Seq::<Flight>::empty(),
    {
        let r = Queue { items: Vec::new() };
        assert(r@ =~= Seq::<Flight>::empty());
        r
    }

    fn is_empty(&self) -> (r: bool)
        ensures
            r == (self@.len() == 0),
    {
        self.items.len() == 0
    }

    fn take_items(&mut self) -> (r: Vec<Parcel>)
        ensures
            r@ == old(self).items@,
    {
        let mut other = Queue { items: Vec::new() };
        std::mem::swap(self, &mut other);
        let Queue { items } = other;
        items
    }

    fn push(&mut self, time: u64, seq: u64, from: NodeId, to: NodeId, msg: &Message)
        ensures
            final(self)@ == enqueued(
                old(self)@,
                Flight { time, seq, env: wire::Envelope { from, to, msg: msg@ } },
            ),
    {
        proof {
            use_type_invariant(&*self);
        }
        let ghost q = self@;
        let ghost env = wire::Envelope { from, to, msg: msg@ };
        let ghost f = Flight { time, seq, env };
        let bytes = encode_envelope(from, to, msg);
        proof {
            wire::law_envelope_round_trip(env);
        }
        let mut items = self.take_items();
        let mut at: usize = items.len();
        while at > 0 && (time < items[at - 1].time || (time == items[at - 1].time && seq
            <= items[at - 1].seq))
            invariant
                at <= items@.len(),
                q == Seq::new(items@.len(), |i: int| parcel_view(items@[i])),
                f.time == time,
                f.seq == seq,
                forall|i: int| at <= i < q.len() ==> !due_before(#[trigger] q[i], f),
            decreases at,
        {
            at -= 1;
            assert(q[at as int] == parcel_view(items@[at as int]));
        }
        proof {
            if at > 0 {
                assert(q[at - 1] == parcel_view(items@[at - 1]));
            }
            lemma_enqueued_at(q, f, at as int);
        }
        let ghost before = items@;
        let parcel = Parcel { time, seq, bytes };
        items.insert(at, parcel);
        proof {
            assert(parcel_view(parcel) == f);
            assert forall|i: int| 0 <= i < items@.len() implies wire::envelope_of(
                (#[trigger] items@[i]).bytes@,
            ) is Ok by {
                if i < at {
                    assert(items@[i] == before[i]);
                } else if i > at {
                    assert(items@[i] == before[i - 1]);
                }
            }
            assert(Seq::new(items@.len(), |i: int| parcel_view(items@[i])) =~= q.insert(
                at as int,
                f,
            ));
        }
        *self = Queue { items };
    }

    fn pop(&mut self) -> (r: Option<(u64, NodeId, NodeId, Message)>)
        ensures
            match r {
                None => old(self)@.len() == 0 && final(self)@ == old(self)@,
                Some((time, from, to, msg)) => {
                    &&& old(self)@.len() > 0
                    &&& old(self)@[0].time == time
                    &&& old(self)@[0].env == wire::Envelope { from, to, msg: msg@ }
                    &&& final(self)@ == old(self)@.skip(1)
                },
            },
    {
        if self.items.len() == 0 {
            return None;
        }
        proof {
            use_type_invariant(&*self);
        }
        let ghost q = self@;
        let mut items = self.take_items();
        let ghost before = items@;
        let parcel = items.remove(0);
        proof {
            assert(q[0] == parcel_view(parcel));
            assert(wire::envelope_of(before[0].bytes@) is Ok);
            assert forall|i: int| 0 <= i < items@.len() implies wire::envelope_of(
                (#[trigger] items@[i]).bytes@,
            ) is Ok by {
                assert(items@[i] == before[i + 1]);
            }
            assert(Seq::new(items@.len(), |i: int| parcel_view(items@[i])) =~= q.skip(1));
        }
        *self = Queue { items };
        match decode_envelope(parcel.bytes.as_slice()) {
            Ok((from, to, msg)) => Some((parcel.time, from, to, msg)),
            Err(_) => None,
        }
    }
}

/// One recorded delivery, used to compare runs.
#[derive(Clone, Copy, PartialEq, Eq, Debug, Structural)]
pub struct Delivery {
    /// Logical time of delivery.
    pub time: u64,
    /// Sender.
    pub from: NodeId,
    /// Receiver.
    pub to: NodeId,
    /// Message kind tag.
    pub tag: u8,
}

/// The simulated network.
pub struct Network {
    clock: u64,
    seq: u64,
    rng: Prng,
    params: LinkParams,
    reliable: bool,
    queue: Queue,
    down: OrdSet<NodeId>,
    partition: OrdMap<NodeId, u8>,
    /// Ordered record of every delivered envelope.
    pub delivery_log: Vec<Delivery>,
}

/// The mathematical value of a [`Network`].
#[verifier::ext_equal]
pub struct NetV {
    pub clock: u64,
    pub seq: u64,
    pub rng: u64,
    pub params: LinkParams,
    pub reliable: bool,
    pub queue: Seq<Flight>,
    pub down: Set<NodeId>,
    pub partition: Map<NodeId, u8>,
    pub log: Seq<Delivery>,
}

impl View for Network {
    type V = NetV;

    closed spec fn view(&self) -> NetV {
        NetV {
            clock: self.clock,
            seq: self.seq,
            rng: self.rng@,
            params: self.params,
            reliable: self.reliable,
            queue: self.queue@,
            down: self.down@,
            partition: self.partition@,
            log: self.delivery_log@,
        }
    }
}

/// The sum of two times, or the last time there is.
pub open spec fn later(a: nat, b: nat) -> u64 {
    if a + b <= u64::MAX {
        (a + b) as u64
    } else {
        u64::MAX
    }
}

/// The partition that a node goes to.
pub open spec fn side(group_b: Seq<NodeId>, n: NodeId) -> u8 {
    if group_b.contains(n) {
        1
    } else {
        0
    }
}

impl NetV {
    /// A fresh network.
    pub open spec fn fresh(seed: u64, params: LinkParams, reliable: bool) -> NetV {
        NetV {
            clock: 0,
            seq: 0,
            rng: seeded(seed),
            params,
            reliable,
            queue: Seq::empty(),
            down: Set::empty(),
            partition: Map::empty(),
            log: Seq::empty(),
        }
    }

    /// Whether two nodes can exchange messages: both are up, and no partition separates them.
    pub open spec fn connected(self, a: NodeId, b: NodeId) -> bool {
        &&& !self.down.contains(a)
        &&& !self.down.contains(b)
        &&& self.partition.dom().contains(a) && self.partition.dom().contains(b)
            ==> self.partition[a] == self.partition[b]
    }

    /// The latency that the next message gets.
    pub open spec fn latency(self) -> nat {
        self.params.base_latency as nat + if self.params.jitter > 0 {
            drawn(self.rng) as nat % (self.params.jitter as nat + 1)
        } else {
            0
        }
    }

    /// The generator after the latency of a message was drawn.
    pub open spec fn rng_after_latency(self) -> u64 {
        if self.params.jitter > 0 {
            drawn(self.rng)
        } else {
            self.rng
        }
    }

    /// The generator after a message was sent.
    pub open spec fn rng_after_send(self) -> u64 {
        if self.reliable {
            self.rng_after_latency()
        } else {
            drawn(self.rng_after_latency())
        }
    }

    /// Whether the next message is dropped at random.
    pub open spec fn drops(self) -> bool {
        !self.reliable && drawn(self.rng_after_latency()) >> 11 < self.params.drop_prob
    }

    /// Whether a message sent now is lost: dropped at random, cut off, or past the last
    /// sequence number.
    pub open spec fn loses(self, env: wire::Envelope) -> bool {
        self.drops() || !self.connected(env.from, env.to) || self.seq == u64::MAX
    }

    /// The network after a send.
    pub open spec fn sent(self, env: wire::Envelope) -> NetV {
        let v = NetV { rng: self.rng_after_send(), ..self };
        if self.loses(env) {
            v
        } else {
            NetV {
                queue: enqueued(
                    self.queue,
                    Flight { time: later(self.clock as nat, self.latency()), seq: self.seq, env },
                ),
                seq: (self.seq + 1) as u64,
                ..v
            }
        }
    }

    /// The network after sending some messages in order.
    pub open spec fn sent_all(self, out: Seq<wire::Envelope>) -> NetV
        decreases out.len(),
    {
        if out.len() == 0 {
            self
        } else {
            self.sent_all(out.drop_last()).sent(out.last())
        }
    }

    /// The network with its first message taken off the queue.
    pub open spec fn advanced(self) -> NetV {
        NetV {
            clock: if self.queue[0].time > self.clock {
                self.queue[0].time
            } else {
                self.clock
            },
            queue: self.queue.skip(1),
            ..self
        }
    }

    /// The network after the next delivery, and what was delivered. Messages that are cut
    /// off by now are passed over.
    pub open spec fn stepped(self) -> (NetV, Option<wire::Envelope>)
        decreases self.queue.len(),
    {
        if self.queue.len() == 0 {
            (self, None)
        } else {
            let env = self.queue[0].env;
            let v = self.advanced();
            if v.connected(env.from, env.to) {
                let d = Delivery {
                    time: v.clock,
                    from: env.from,
                    to: env.to,
                    tag: wire::message_tag(env.msg),
                };
                (NetV { log: v.log.push(d), ..v }, Some(env))
            } else {
                v.stepped()
            }
        }
    }

    /// The network with a node offline.
    pub open spec fn crashed(self, node: NodeId) -> NetV {
        NetV { down: self.down.insert(node), ..self }
    }

    /// The network with a node online.
    pub open spec fn recovered(self, node: NodeId) -> NetV {
        NetV { down: self.down.remove(node), ..self }
    }

    /// The network split: the nodes of `group_b` on one side, all others of `all` on the
    /// other.
    pub open spec fn split(self, group_b: Seq<NodeId>, all: Seq<NodeId>) -> NetV {
        NetV {
            partition: Map::new(
                |n: NodeId| all.contains(n),
                |n: NodeId| side(group_b, n),
            ),
            ..self
        }
    }

    /// The network without a partition.
    pub open spec fn healed(self) -> NetV {
        NetV { partition: Map::empty(), ..self }
    }

    /// Messages wait in delivery order, and each was sent before the next to be sent.
    pub open spec fn ordered(self) -> bool {
        &&& forall|i: int, j: int|
            0 <= i < j < self.queue.len() ==> due_before(
                #[trigger] self.queue[i],
                #[trigger] self.queue[j],
            )
        &&& forall|i: int| 0 <= i < self.queue.len() ==> (#[trigger] self.queue[i]).seq < self.seq
    }
}

impl Network {
    /// Create a network. In `reliable` mode no messages are ever dropped at random.
    pub fn new(seed: u64, params: LinkParams, reliable: bool) -> (r: Self)
        ensures
            r@ == NetV::fresh(seed, params, reliable),
    {
        let r = Network {
            clock: 0,
            seq: 0,
            rng: Prng::new(seed),
            params,
            reliable,
            queue: Queue::new(),
            down: OrdSet::new(),
            partition: OrdMap::new(),
            delivery_log: Vec::new(),
        };
        assert(r@ =~= NetV::fresh(seed, params, reliable));
        r
    }

    /// Current logical clock.
    pub fn clock(&self) -> (r: u64)
        ensures
            r == self@.clock,
    {
        self.clock
    }

    /// Whether `a` and `b` can currently exchange messages.
    fn connected(&self, a: NodeId, b: NodeId) -> (r: bool)
        ensures
            r == self@.connected(a, b),
    {
        if self.down.contains(&a) || self.down.contains(&b) {
            return false;
        }
        match (self.partition.get(&a), self.partition.get(&b)) {
            (Some(ga), Some(gb)) => *ga == *gb,
            _ => true,
        }
    }

    /// Enqueue a message. Latency and (outside reliable mode) drops are decided
    /// here so the generator is consumed in send order.
    pub fn send(&mut self, from: NodeId, to: NodeId, msg: &Message)
        ensures
            final(self)@ == old(self)@.sent(wire::Envelope { from, to, msg: msg@ }),
    {
        let extra = if self.params.jitter > 0 {
            let x = self.rng.next_u64();
            if self.params.jitter == u64::MAX {
                x
            } else {
                x % (self.params.jitter + 1)
            }
        } else {
            0
        };
        proof {
            let j = old(self)@.params.jitter as nat;
            let x = drawn(old(self)@.rng) as nat;
            if j == u64::MAX {
                vstd::arithmetic::div_mod::lemma_small_mod(x, j + 1);
            }
            assert(extra as nat == if j > 0 { x % (j + 1) } else { 0 });
        }
        let dropped = if self.reliable {
            false
        } else {
            self.rng.chance(self.params.drop_prob)
        };
        // A send from or to a down node, across a partition, or randomly dropped
        // simply never lands. The generator is consumed all the same, so that the stream
        // does not depend on the topology.
        if dropped || !self.connected(from, to) || self.seq == u64::MAX {
            assert(self@ =~= old(self)@.sent(wire::Envelope { from, to, msg: msg@ }));
            return;
        }
        let time = self.clock.saturating_add(self.params.base_latency).saturating_add(extra);
        self.queue.push(time, self.seq, from, to, msg);
        self.seq += 1;
        assert(self@ =~= old(self)@.sent(wire::Envelope { from, to, msg: msg@ }));
    }

    /// Deliver the next due message. Messages whose endpoints became
    /// disconnected while in flight are dropped. Returns the decoded delivery.
    pub fn step(&mut self) -> (r: Option<(NodeId, NodeId, Message)>)
        ensures
            final(self)@ == old(self)@.stepped().0,
            match r {
                Some((from, to, msg)) => old(self)@.stepped().1 == Some(
                    wire::Envelope { from, to, msg: msg@ },
                ),
                None => old(self)@.stepped().1 is None,
            },
    {
        loop
            invariant
                self@.stepped() == old(self)@.stepped(),
            decreases self@.queue.len(),
        {
            let ghost before = self@;
            match self.queue.pop() {
                None => {
                    assert(self@ =~= before);
                    return None;
                },
                Some((time, from, to, msg)) => {
                    if time > self.clock {
                        self.clock = time;
                    }
                    assert(self@ =~= before.advanced());
                    if self.connected(from, to) {
                        self.delivery_log.push(
                            Delivery { time: self.clock, from, to, tag: msg.tag() },
                        );
                        assert(self@ =~= before.stepped().0);
                        return Some((from, to, msg));
                    }
                },
            }
        }
    }

    /// Every delivery so far, in order.
    pub fn deliveries(&self) -> (r: &Vec<Delivery>)
        ensures
            r@ == self@.log,
    {
        &self.delivery_log
    }

    /// Whether any messages remain queued.
    pub fn has_pending(&self) -> (r: bool)
        ensures
            r == (self@.queue.len() > 0),
    {
        !self.queue.is_empty()
    }

    /// Take a node offline. Queued messages to or from it will be dropped when
    /// they come due.
    pub fn crash(&mut self, node: NodeId)
        ensures
            final(self)@ == old(self)@.crashed(node),
    {
        let _ = self.down.insert(node);
        assert(self@ =~= old(self)@.crashed(node));
    }

    /// Bring a node back online.
    pub fn recover(&mut self, node: NodeId)
        ensures
            final(self)@ == old(self)@.recovered(node),
    {
        let _ = self.down.remove(&node);
        assert(self@ =~= old(self)@.recovered(node));
    }

    /// Whether a node is currently offline.
    pub fn is_down(&self, node: NodeId) -> (r: bool)
        ensures
            r == self@.down.contains(node),
    {
        self.down.contains(&node)
    }

    /// Split the cluster: every node in `group_b` goes to partition 1, all other
    /// referenced nodes to partition 0. Cross-partition messages are dropped.
    pub fn partition(&mut self, group_b: &[NodeId], all: &[NodeId])
        ensures
            final(self)@ == old(self)@.split(group_b@, all@),
    {
        let mut b: OrdSet<NodeId> = OrdSet::new();
        let mut i: usize = 0;
        while i < group_b.len()
            invariant
                i <= group_b@.len(),
                b@ == group_b@.take(i as int).to_set(),
            decreases group_b@.len() - i,
        {
            let n = group_b[i];
            let _ = b.insert(n);
            proof {
                assert(group_b@.take(i + 1) =~= group_b@.take(i as int).push(n));
                lemma_to_set_push(group_b@.take(i as int), n);
            }
            i += 1;
        }
        assert(group_b@.take(group_b@.len() as int) =~= group_b@);
        let mut split: OrdMap<NodeId, u8> = OrdMap::new();
        let mut j: usize = 0;
        while j < all.len()
            invariant
                j <= all@.len(),
                b@ == group_b@.to_set(),
                split@ == self@.split(group_b@, all@.take(j as int)).partition,
            decreases all@.len() - j,
        {
            let n = all[j];
            let side = if b.contains(&n) {
                1u8
            } else {
                0u8
            };
            split.insert(n, side);
            proof {
                assert(all@.take(j + 1) =~= all@.take(j as int).push(n));
                assert(group_b@.to_set().contains(n) == group_b@.contains(n));
                let want = self@.split(group_b@, all@.take(j + 1)).partition;
                assert forall|x: NodeId| #[trigger]
                    split@.dom().contains(x) <==> want.dom().contains(x) by {
                    lemma_push_contains(all@.take(j as int), n, x);
                }
                assert(split@.dom() =~= want.dom());
                assert(split@ =~= want);
            }
            j += 1;
        }
        assert(all@.take(all@.len() as int) =~= all@);
        self.partition = split;
        assert(self@ =~= old(self)@.split(group_b@, all@));
    }

    /// Remove any active partition.
    pub fn heal(&mut self)
        ensures
            final(self)@ == old(self)@.healed(),
    {
        self.partition = OrdMap::new();
        assert(self@ =~= old(self)@.healed());
    }
}

/// Membership after a push.
pub proof fn lemma_push_contains<A>(s: Seq<A>, a: A, x: A)
    ensures
        s.push(a).contains(x) <==> (s.contains(x) || x == a),
{
    if s.contains(x) {
        let i = choose|i: int| 0 <= i < s.len() && s[i] == x;
        assert(s.push(a)[i] == x);
    }
    if x == a {
        assert(s.push(a)[s.len() as int] == x);
    }
    if s.push(a).contains(x) {
        let i = choose|i: int| 0 <= i < s.push(a).len() && s.push(a)[i] == x;
        if i < s.len() {
            assert(s[i] == x);
        }
    }
}

/// The members after a push.
pub proof fn lemma_to_set_push<A>(s: Seq<A>, a: A)
    ensures
        s.push(a).to_set() == s.to_set().insert(a),
{
    assert forall|x: A| s.push(a).to_set().contains(x) <==> s.to_set().insert(a).contains(x) by {
        lemma_push_contains(s, a, x);
    }
    assert(s.push(a).to_set() =~= s.to_set().insert(a));
}

/// What one delivery does: messages that are cut off are passed over, and the first one that
/// is not is delivered. Returns its place in the queue, or the queue's length.
pub proof fn law_step(v: NetV) -> (at: int)
    ensures
        0 <= at <= v.queue.len(),
        forall|i: int|
            0 <= i < at ==> !v.connected(
                (#[trigger] v.queue[i]).env.from,
                v.queue[i].env.to,
            ),
        match v.stepped().1 {
            None => at == v.queue.len() && v.stepped().0.queue.len() == 0 && v.stepped().0.log
                == v.log,
            Some(env) => {
                &&& at < v.queue.len()
                &&& env == v.queue[at].env
                &&& v.connected(env.from, env.to)
                &&& v.stepped().0.queue == v.queue.skip(at + 1)
                &&& v.stepped().0.clock >= v.queue[at].time
                &&& v.ordered() ==> v.stepped().0.clock == if v.queue[at].time > v.clock {
                    v.queue[at].time
                } else {
                    v.clock
                }
                &&& v.stepped().0.log == v.log.push(
                    Delivery {
                        time: v.stepped().0.clock,
                        from: env.from,
                        to: env.to,
                        tag: wire::message_tag(env.msg),
                    },
                )
            },
        },
        v.stepped().0.clock >= v.clock,
        v.stepped().0.seq == v.seq,
        v.stepped().0.rng == v.rng,
        v.stepped().0.params == v.params,
        v.stepped().0.reliable == v.reliable,
        v.stepped().0.down == v.down,
        v.stepped().0.partition == v.partition,
    decreases v.queue.len(),
{
    if v.queue.len() == 0 {
        0
    } else {
        let env = v.queue[0].env;
        let w = v.advanced();
        if w.connected(env.from, env.to) {
            0
        } else {
            let at = law_step(w);
            assert forall|i: int| 0 <= i < at + 1 implies !v.connected(
                (#[trigger] v.queue[i]).env.from,
                v.queue[i].env.to,
            ) by {
                if i > 0 {
                    assert(w.queue[i - 1] == v.queue[i]);
                }
            }
            if v.ordered() {
                assert(w.ordered()) by {
                    assert forall|i: int, j: int| 0 <= i < j < w.queue.len() implies due_before(
                        #[trigger] w.queue[i],
                        #[trigger] w.queue[j],
                    ) by {
                        assert(due_before(v.queue[i + 1], v.queue[j + 1]));
                    }
                }
                if at < w.queue.len() {
                    assert(due_before(v.queue[0], v.queue[at + 1]));
                }
            }
            if at < w.queue.len() {
                assert(w.queue.skip(at + 1) =~= v.queue.skip(at + 2));
            }
            at + 1
        }
    }
}

/// Sending and delivering keep the queue in delivery order.
pub proof fn law_delivery_order_is_kept(v: NetV, env: wire::Envelope)
    requires
        v.ordered(),
    ensures
        v.sent(env).ordered(),
        v.stepped().0.ordered(),
{
    let s = v.sent(env);
    if !v.loses(env) {
        let f = Flight { time: later(v.clock as nat, v.latency()), seq: v.seq, env };
        let at = lemma_enqueued_split(v.queue, f);
        assert forall|i: int, j: int| 0 <= i < j < s.queue.len() implies due_before(
            #[trigger] s.queue[i],
            #[trigger] s.queue[j],
        ) by {
            if j < at {
                assert(s.queue[i] == v.queue[i] && s.queue[j] == v.queue[j]);
            } else if j == at {
                assert(s.queue[i] == v.queue[i]);
                if i < at - 1 {
                    assert(due_before(v.queue[i], v.queue[at - 1]));
                }
            } else if i < at {
                assert(s.queue[i] == v.queue[i] && s.queue[j] == v.queue[j - 1]);
            } else if i == at {
                assert(s.queue[j] == v.queue[j - 1]);
                assert(v.queue[j - 1].seq < v.seq);
            } else {
                assert(s.queue[i] == v.queue[i - 1] && s.queue[j] == v.queue[j - 1]);
            }
        }
        assert forall|i: int| 0 <= i < s.queue.len() implies (#[trigger] s.queue[i]).seq
            < s.seq by {
            if i < at {
                assert(s.queue[i] == v.queue[i]);
            } else if i > at {
                assert(s.queue[i] == v.queue[i - 1]);
            }
        }
    }
    let at = law_step(v);
    let w = v.stepped().0;
    assert forall|i: int, j: int| 0 <= i < j < w.queue.len() implies due_before(
        #[trigger] w.queue[i],
        #[trigger] w.queue[j],
    ) by {
        assert(due_before(v.queue[at + 1 + i], v.queue[at + 1 + j]));
    }
    assert forall|i: int| 0 <= i < w.queue.len() implies (#[trigger] w.queue[i]).seq < w.seq by {
        assert(w.queue[i] == v.queue[at + 1 + i]);
    }
}

/// A delivered message is the earliest of those whose ends can reach each other, send order
/// deciding between equal times.
pub proof fn law_earliest_is_delivered(v: NetV, i: int)
    requires
        v.ordered(),
        0 <= i < v.queue.len(),
        v.connected(v.queue[i].env.from, v.queue[i].env.to),
    ensures
        v.stepped().1 is Some,
        exists|at: int|
            0 <= at <= i && v.stepped().1 == Some((#[trigger] v.queue[at]).env) && (at == i
                || due_before(v.queue[at], v.queue[i])),
{
    let at = law_step(v);
    if at < i {
        assert(due_before(v.queue[at], v.queue[i]));
    }
}

/// The random stream does not depend on who sends what to whom, nor on crashes, partitions or
/// queued messages.
pub proof fn law_stream_ignores_topology(a: NetV, b: NetV, x: wire::Envelope, y: wire::Envelope)
    requires
        a.rng == b.rng,
        a.params == b.params,
        a.reliable == b.reliable,
    ensures
        a.sent(x).rng == b.sent(y).rng,
{
}

/// In reliable mode a message between connected nodes is queued, due no earlier than the base
/// latency and no later than the jitter allows.
pub proof fn law_reliable_send_is_queued(v: NetV, env: wire::Envelope)
    requires
        v.reliable,
        v.connected(env.from, env.to),
        v.seq < u64::MAX,
        v.clock + v.params.base_latency + v.params.jitter <= u64::MAX,
    ensures
        v.sent(env).queue.len() == v.queue.len() + 1,
        exists|i: int|
            0 <= i < v.sent(env).queue.len() && (#[trigger] v.sent(env).queue[i]).env == env
                && v.sent(env).queue[i].seq == v.seq && v.clock + v.params.base_latency
                <= v.sent(env).queue[i].time <= v.clock + v.params.base_latency + v.params.jitter,
{
    let f = Flight { time: later(v.clock as nat, v.latency()), seq: v.seq, env };
    let at = lemma_enqueued_split(v.queue, f);
    assert(v.sent(env).queue[at] == f);
}

/// A message sent across a partition or to or from a crashed node is lost at once.
pub proof fn law_cut_off_send_is_lost(v: NetV, env: wire::Envelope)
    requires
        !v.connected(env.from, env.to),
    ensures
        v.sent(env).queue == v.queue,
{
}

/// A crashed node can reach nobody until it recovers, and recovery undoes a crash.
pub proof fn law_crash_isolates(v: NetV, node: NodeId, other: NodeId)
    ensures
        !v.crashed(node).connected(node, other),
        !v.crashed(node).connected(other, node),
        !v.down.contains(node) ==> v.crashed(node).recovered(node) == v,
{
    assert(!v.down.contains(node) ==> v.crashed(node).recovered(node) =~= v);
}

/// A partition separates its two sides and nothing else, and healing removes it.
pub proof fn law_partition_separates(
    v: NetV,
    group_b: Seq<NodeId>,
    all: Seq<NodeId>,
    x: NodeId,
    y: NodeId,
)
    requires
        all.contains(x),
        all.contains(y),
    ensures
        v.split(group_b, all).connected(x, y) <==> !v.down.contains(x) && !v.down.contains(y)
            && group_b.contains(x) == group_b.contains(y),
        v.split(group_b, all).healed().connected(x, y) <==> !v.down.contains(x) && !v.down.contains(
            y,
        ),
{
}

} // verus!

//! What becomes of a message: which are lost and which are queued, when they are due, who reaches
//! whom, and what crashes, recoveries and partitions change about it.

use crate::message::NodeId;
use crate::net::{self, Flight, LinkParams, NetV};
use crate::wire;
use vstd::prelude::*;

verus! {

/// Whether two nodes are both up and no partition has put them on different sides.
pub open spec fn in_touch(v: NetV, a: NodeId, b: NodeId) -> bool {
    &&& !v.down.contains(a)
    &&& !v.down.contains(b)
    &&& !(v.partition.dom().contains(a) && v.partition.dom().contains(b) && v.partition[a]
        != v.partition[b])
}

/// Whether one network comes from another by drawing random values only.
pub open spec fn only_drew(v: NetV, w: NetV) -> bool {
    w == NetV { rng: w.rng, ..v }
}

/// Whether one network comes from another by queueing a message that is due at a given time, and
/// by drawing random values.
pub open spec fn queued_one(v: NetV, w: NetV, env: wire::Envelope, due: int) -> bool {
    &&& w == NetV { rng: w.rng, queue: w.queue, seq: w.seq, ..v }
    &&& w.seq == v.seq + 1
    &&& exists|at: int|
        0 <= at < w.queue.len() && #[trigger] w.queue.remove(at) == v.queue && w.queue[at].env
            == env && w.queue[at].seq == v.seq && w.queue[at].time == due
}

/// The time that a message sent now is due when its jitter is `extra`: never past the last time
/// there is.
pub open spec fn due_time(v: NetV, extra: int) -> int {
    if v.clock + v.params.base_latency + extra <= u64::MAX {
        v.clock + v.params.base_latency + extra
    } else {
        u64::MAX as int
    }
}

/// What a send does. With jitter, the first value drawn decides how much later than the base
/// latency the message is due; outside reliable mode one more value is drawn, and the message is
/// lost exactly when the top 53 bits of it are below the drop probability. A message between
/// nodes that are not in touch is lost, and so is one past the last sequence number. Any other
/// is queued, and nothing else changes.
pub proof fn law_send_is_lost_or_queued(v: NetV, env: wire::Envelope)
    ensures
        ({
            let w = v.sent(env);
            let a = net::drawn(v.rng);
            let b = net::drawn(a);
            let jitter = v.params.jitter as int;
            let dice = if jitter > 0 {
                b
            } else {
                a
            };
            let extra = if jitter > 0 {
                a as int % (jitter + 1)
            } else {
                0
            };
            let unlucky = !v.reliable && dice >> 11 < v.params.drop_prob;
            &&& unlucky || !in_touch(v, env.from, env.to) || v.seq == u64::MAX ==> only_drew(v, w)
            &&& !unlucky && in_touch(v, env.from, env.to) && v.seq < u64::MAX ==> queued_one(
                v,
                w,
                env,
                due_time(v, extra),
            )
            &&& w.rng == (if jitter > 0 && !v.reliable {
                b
            } else if jitter > 0 || !v.reliable {
                a
            } else {
                v.rng
            })
        }),
{
    let w = v.sent(env);
    assert(v.connected(env.from, env.to) == in_touch(v, env.from, env.to));
    if v.loses(env) {
        assert(w =~= NetV { rng: w.rng, ..v });
    } else {
        let f = Flight { time: net::later(v.clock as nat, v.latency()), seq: v.seq, env };
        let at = net::lemma_enqueued_split(v.queue, f);
        assert(w.queue == v.queue.insert(at, f));
        assert(w.queue.remove(at) =~= v.queue);
        assert(w.queue[at] == f);
        assert(w =~= NetV { rng: w.rng, queue: w.queue, seq: w.seq, ..v });
    }
}

/// A message that is queued is due no sooner than the base latency allows and no later than the
/// jitter allows.
pub proof fn law_send_takes_its_time(v: NetV, env: wire::Envelope, extra: int)
    requires
        0 <= extra <= v.params.jitter,
        v.clock + v.params.base_latency + v.params.jitter <= u64::MAX,
        queued_one(v, v.sent(env), env, due_time(v, extra)),
    ensures
        exists|at: int|
            0 <= at < v.sent(env).queue.len() && (#[trigger] v.sent(env).queue[at]).env == env
                && v.clock + v.params.base_latency <= v.sent(env).queue[at].time <= v.clock
                + v.params.base_latency + v.params.jitter,
{
    let w = v.sent(env);
    let at = choose|at: int|
        0 <= at < w.queue.len() && #[trigger] w.queue.remove(at) == v.queue && w.queue[at].env
            == env && w.queue[at].seq == v.seq && w.queue[at].time == due_time(v, extra);
    assert(w.queue[at].env == env);
}

/// A link that never drops loses no message between nodes that are in touch, and one that always
/// drops loses every message.
pub proof fn law_extreme_links(v: NetV, env: wire::Envelope)
    requires
        !v.reliable,
        in_touch(v, env.from, env.to),
        v.seq < u64::MAX,
    ensures
        v.params.drop_prob == 0 ==> v.sent(env).queue.len() == v.queue.len() + 1,
        v.params.drop_prob >= 0x20_0000_0000_0000 ==> v.sent(env).queue == v.queue,
{
    law_send_is_lost_or_queued(v, env);
    let a = net::drawn(v.rng);
    let b = net::drawn(a);
    assert(a >> 11 < 0x20_0000_0000_0000) by (bit_vector);
    assert(b >> 11 < 0x20_0000_0000_0000) by (bit_vector);
    let f = Flight { time: net::later(v.clock as nat, v.latency()), seq: v.seq, env };
    let at = net::lemma_enqueued_split(v.queue, f);
}

/// Raising the drop probability saves no message: what is lost at one probability is lost at
/// every higher one.
pub proof fn law_lossier_links_lose_more(v: NetV, env: wire::Envelope, drop_prob: u64)
    requires
        v.params.drop_prob <= drop_prob,
        v.sent(env).queue == v.queue,
    ensures
        ({
            let worse = NetV { params: LinkParams { drop_prob, ..v.params }, ..v };
            worse.sent(env).queue == v.queue
        }),
{
    let worse = NetV { params: LinkParams { drop_prob, ..v.params }, ..v };
    let f = Flight { time: net::later(v.clock as nat, v.latency()), seq: v.seq, env };
    let at = net::lemma_enqueued_split(v.queue, f);
}

/// Who reaches whom: nodes that are in touch, and nobody else.
pub proof fn law_who_reaches_whom(v: NetV, a: NodeId, b: NodeId)
    ensures
        v.connected(a, b) <==> in_touch(v, a, b),
        v.connected(a, b) <==> v.connected(b, a),
{
}

/// A crash takes one node down, a recovery brings one node up, and neither changes anything else.
pub proof fn law_crash_and_recovery(v: NetV, n: NodeId, x: NodeId)
    ensures
        v.crashed(n).down.contains(x) <==> x == n || v.down.contains(x),
        v.recovered(n).down.contains(x) <==> x != n && v.down.contains(x),
        v.crashed(n) == (NetV { down: v.crashed(n).down, ..v }),
        v.recovered(n) == (NetV { down: v.recovered(n).down, ..v }),
{
}

/// A split puts the nodes of one group on one side and all other listed nodes on the other, and
/// concerns nobody else; healing puts nobody on any side. Neither changes anything else.
pub proof fn law_split_and_heal(v: NetV, group: Seq<NodeId>, all: Seq<NodeId>, x: NodeId, y: NodeId)
    ensures
        v.split(group, all).partition.dom().contains(x) <==> all.contains(x),
        all.contains(x) && all.contains(y) ==> (v.split(group, all).partition[x] == v.split(
            group,
            all,
        ).partition[y] <==> group.contains(x) == group.contains(y)),
        v.split(group, all) == (NetV { partition: v.split(group, all).partition, ..v }),
        !v.healed().partition.dom().contains(x),
        v.healed() == (NetV { partition: v.healed().partition, ..v }),
{
}

/// In a fresh network nothing is in flight or delivered, everybody is up and in touch, and time
/// and numbers start at zero.
pub proof fn law_fresh_network(seed: u64, params: LinkParams, reliable: bool, a: NodeId, b: NodeId)
    ensures
        ({
            let v = NetV::fresh(seed, params, reliable);
            &&& v.clock == 0
            &&& v.seq == 0
            &&& v.queue.len() == 0
            &&& v.log.len() == 0
            &&& v.params == params
            &&& v.reliable == reliable
            &&& in_touch(v, a, b)
            &&& v.rng % 2 == 1
            &&& v.rng == net::seeded(seed)
        }),
{
    let a0 = seed.wrapping_add(0x9e37_79b9_7f4a_7c15);
    let b0 = (a0 ^ (a0 >> 30)).wrapping_mul(0xbf58_476d_1ce4_e5b9);
    let c0 = (b0 ^ (b0 >> 27)).wrapping_mul(0x94d0_49bb_1331_11eb);
    assert(((c0 ^ (c0 >> 31)) | 1) % 2 == 1) by (bit_vector);
}

/// The state that a drawn value came from.
pub open spec fn undrawn(r: u64) -> u64 {
    let b = r ^ (r << 17) ^ (r << 34) ^ (r << 51);
    let a = b ^ (b >> 7) ^ (b >> 14) ^ (b >> 21) ^ (b >> 28) ^ (b >> 35) ^ (b >> 42) ^ (b >> 49) ^ (b
        >> 56) ^ (b >> 63);
    a ^ (a << 13) ^ (a << 26) ^ (a << 39) ^ (a << 52)
}

/// A draw can be undone: the value drawn tells the state before, so no two states draw the same
/// value, and a generator that is not at zero never gets there.
pub proof fn law_draws_can_be_undone(state: u64)
    ensures
        undrawn(net::drawn(state)) == state,
        state != 0 ==> net::drawn(state) != 0,
{
    let a = state ^ (state << 13);
    let b = a ^ (a >> 7);
    let r = b ^ (b << 17);
    assert(r ^ (r << 17) ^ (r << 34) ^ (r << 51) == b) by (bit_vector)
        requires
            r == b ^ (b << 17),
    ;
    assert(b ^ (b >> 7) ^ (b >> 14) ^ (b >> 21) ^ (b >> 28) ^ (b >> 35) ^ (b >> 42) ^ (b >> 49) ^ (b
        >> 56) ^ (b >> 63) == a) by (bit_vector)
        requires
            b == a ^ (a >> 7),
    ;
    assert(a ^ (a << 13) ^ (a << 26) ^ (a << 39) ^ (a << 52) == state) by (bit_vector)
        requires
            a == state ^ (state << 13),
    ;
    if r == 0 {
        assert(0u64 ^ (0u64 << 17) ^ (0u64 << 34) ^ (0u64 << 51) == 0) by (bit_vector);
        assert(0u64 ^ (0u64 >> 7) ^ (0u64 >> 14) ^ (0u64 >> 21) ^ (0u64 >> 28) ^ (0u64 >> 35) ^ (
        0u64 >> 42) ^ (0u64 >> 49) ^ (0u64 >> 56) ^ (0u64 >> 63) == 0) by (bit_vector);
        assert(0u64 ^ (0u64 << 13) ^ (0u64 << 26) ^ (0u64 << 39) ^ (0u64 << 52) == 0)
            by (bit_vector);
    }
}

/// The number that becomes `y` when it is multiplied by `c`, whose inverse is `inverse`, modulo the
/// size of a word.
proof fn lemma_undo_product(x: u64, c: u64, inverse: u64, k: int)
    requires
        c * inverse == 1 + k * 0x1_0000_0000_0000_0000,
    ensures
        x.wrapping_mul(c).wrapping_mul(inverse) == x,
{
    let m = 0x1_0000_0000_0000_0000int;
    let y = x.wrapping_mul(c);
    vstd::arithmetic::div_mod::lemma_mul_mod_noop_left(x * c, inverse as int, m);
    assert((x * c) * inverse == x + (x * k) * m) by (nonlinear_arith)
        requires
            c * inverse == 1 + k * m,
    ;
    vstd::arithmetic::div_mod::lemma_mod_multiples_vanish(x * k, x as int, m);
    assert(m * (x * k) + x == x + (x * k) * m) by (nonlinear_arith);
    vstd::arithmetic::div_mod::lemma_small_mod(x as nat, m as nat);
    assert(y == (x * c) % m);
    assert(y.wrapping_mul(inverse) == (y * inverse) % m);
}

/// The seed that a mixed value came from.
pub open spec fn unmixed(z: u64) -> u64 {
    let c = z ^ (z >> 31) ^ (z >> 62);
    let y = c.wrapping_mul(0x3196_42b2_d24d_8ec3);
    let b = y ^ (y >> 27) ^ (y >> 54);
    let x = b.wrapping_mul(0x96de_1b17_3f11_9089);
    let a = x ^ (x >> 30) ^ (x >> 60);
    a.wrapping_sub(0x9e37_79b9_7f4a_7c15)
}

/// A seed can be told from the state that it gives, but for the lowest bit of that state, which is
/// always set: so at most two seeds give the same state.
pub proof fn law_seeds_give_different_states(seed: u64)
    ensures
        net::seeded(seed) % 2 == 1,
        unmixed(net::seeded(seed)) == seed || unmixed((net::seeded(seed) - 1) as u64) == seed,
{
    let a = seed.wrapping_add(0x9e37_79b9_7f4a_7c15);
    let x = a ^ (a >> 30);
    let b = x.wrapping_mul(0xbf58_476d_1ce4_e5b9);
    let y = b ^ (b >> 27);
    let c = y.wrapping_mul(0x94d0_49bb_1331_11eb);
    let z = c ^ (c >> 31);
    assert((z | 1) % 2 == 1 && ((z | 1) == z || (z | 1) - 1 == z)) by (bit_vector);
    assert(z ^ (z >> 31) ^ (z >> 62) == c) by (bit_vector)
        requires
            z == c ^ (c >> 31),
    ;
    assert(y ^ (y >> 27) ^ (y >> 54) == b) by (bit_vector)
        requires
            y == b ^ (b >> 27),
    ;
    assert(x ^ (x >> 30) ^ (x >> 60) == a) by (bit_vector)
        requires
            x == a ^ (a >> 30),
    ;
    lemma_undo_product(y, 0x94d0_49bb_1331_11eb, 0x3196_42b2_d24d_8ec3, 0x1cd336eda85f1453int);
    lemma_undo_product(x, 0xbf58_476d_1ce4_e5b9, 0x96de_1b17_3f11_9089, 0x70c3bca78f27f46cint);
    assert(a.wrapping_sub(0x9e37_79b9_7f4a_7c15) == seed);
    assert(unmixed(z) == seed);
}

/// Messages are sent one after the other: sending none changes nothing, and one more is sent after
/// the rest.
pub proof fn law_messages_are_sent_in_turn(v: NetV, out: Seq<wire::Envelope>, env: wire::Envelope)
    ensures
        v.sent_all(Seq::empty()) == v,
        v.sent_all(out.push(env)) == v.sent_all(out).sent(env),
{
    assert(out.push(env).drop_last() =~= out);
}

/// When nothing that is in flight can arrive, all of it is passed over, and it is the time that the
/// last of it was due, unless that was before.
pub proof fn law_time_passes_with_lost_messages(v: NetV)
    requires
        v.ordered(),
        v.stepped().1 is None,
    ensures
        v.stepped().0.queue.len() == 0,
        v.stepped().0.log == v.log,
        v.queue.len() == 0 ==> v.stepped().0 == v,
        v.queue.len() > 0 ==> v.stepped().0.clock == if v.queue.last().time > v.clock {
            v.queue.last().time
        } else {
            v.clock
        },
    decreases v.queue.len(),
{
    if v.queue.len() > 0 {
        let w = v.advanced();
        assert(w.ordered()) by {
            assert forall|i: int, j: int| 0 <= i < j < w.queue.len() implies net::due_before(
                #[trigger] w.queue[i],
                #[trigger] w.queue[j],
            ) by {
                assert(w.queue[i] == v.queue[i + 1]);
                assert(w.queue[j] == v.queue[j + 1]);
            }
        }
        law_time_passes_with_lost_messages(w);
        if w.queue.len() > 0 {
            assert(w.queue.last() == v.queue.last());
        } else {
            assert(v.queue.last() == v.queue[0]);
        }
    }
}

} // verus!

//! What a quiet network is good for: when nothing is dropped at random, messages between nodes
//! that can reach each other arrive in time, so queries are answered, operations commit, writes
//! reach their quorum and reads find their chunks.

use crate::durability;
use crate::error::ErrorV;
use crate::message::{self, DirEntryV, MessageV, NodeId, QueryResultV, QueryV, StatInfoV};
use crate::net::{self, Flight, NetV};
use crate::path;
use crate::protocol;
use crate::simulation::{self, ClusterV, Letter};
use crate::soundness;
use crate::truth;
use crate::wire;
use vstd::prelude::*;

verus! {

/// The longest that a message takes.
pub open spec fn hop(n: NetV) -> nat {
    n.params.base_latency as nat + n.params.jitter as nat
}

/// Nothing is dropped at random.
pub open spec fn quiet(n: NetV) -> bool {
    n.reliable
}

/// Nothing is dropped at random, and no partition stands.
pub open spec fn united(n: NetV) -> bool {
    quiet(n) && n.partition.dom() =~= Set::empty()
}

/// Whether the client can reach a metadata node.
pub open spec fn reaches_meta(n: NetV, i: u32) -> bool {
    n.connected(NodeId::Client, NodeId::Meta(i))
}

/// Whether the client can reach a storage node.
pub open spec fn reaches_storage(n: NetV, i: u32) -> bool {
    n.connected(NodeId::Client, NodeId::Storage(i))
}

/// Whether a message is in flight that arrives by time `t`.
pub open spec fn coming(n: NetV, env: wire::Envelope, t: nat) -> bool {
    exists|i: int| 0 <= i < n.queue.len() && #[trigger] n.queue[i].env == env && n.queue[i].time <= t
}

/// Whether the ends of a message can reach each other.
pub open spec fn linked(n: NetV, env: wire::Envelope) -> bool {
    n.connected(env.from, env.to)
}

/// Neither time nor the numbers for messages and requests have run out.
pub open spec fn room_left(v: ClusterV) -> bool {
    &&& v.net.seq < u64::MAX
    &&& v.next_req < u64::MAX
    &&& v.net.clock + 4 * hop(v.net) < u64::MAX
}

/// A message in flight between nodes that reach each other is delivered next or stays in
/// flight, and the clock does not pass it.
pub proof fn lemma_coming_stepped(n: NetV, env: wire::Envelope, t: nat)
    requires
        n.ordered(),
        quiet(n),
        linked(n, env),
        coming(n, env, t),
        n.clock <= t,
    ensures
        n.stepped().1 is Some,
        n.stepped().0.clock <= t,
        n.stepped().1 == Some(env) || coming(n.stepped().0, env, t),
{
    let at = net::law_step(n);
    let i = choose|i: int|
        0 <= i < n.queue.len() && #[trigger] n.queue[i].env == env && n.queue[i].time <= t;
    assert(n.connected(n.queue[i].env.from, n.queue[i].env.to));
    assert(at <= i);
    if at < i {
        assert(net::due_before(n.queue[at], n.queue[i]));
        let q = n.stepped().0.queue;
        assert(q[i - at - 1] == n.queue[i]);
        assert(q[i - at - 1].env == env);
    }
}

/// A message in flight stays in flight when others are sent.
pub proof fn lemma_coming_sends(n: NetV, out: Seq<wire::Envelope>, env: wire::Envelope, t: nat)
    requires
        coming(n, env, t),
    ensures
        coming(n.sent_all(out), env, t),
    decreases out.len(),
{
    if out.len() > 0 {
        lemma_coming_sends(n, out.drop_last(), env, t);
        let w = n.sent_all(out.drop_last());
        let i = choose|i: int|
            0 <= i < w.queue.len() && #[trigger] w.queue[i].env == env && w.queue[i].time <= t;
        if !w.loses(out.last()) {
            let f = Flight {
                time: net::later(w.clock as nat, w.latency()),
                seq: w.seq,
                env: out.last(),
            };
            let at = net::lemma_enqueued_split(w.queue, f);
            let q = w.sent(out.last()).queue;
            if i < at {
                assert(q[i].env == env);
            } else {
                assert(q[i + 1].env == env);
            }
        }
    }
}

/// The latency of a message is at most a hop.
proof fn lemma_latency(n: NetV)
    ensures
        n.latency() <= hop(n),
{
    if n.params.jitter > 0 {
        let j = n.params.jitter as nat + 1;
        assert(net::drawn(n.rng) as nat % j < j) by (nonlinear_arith)
            requires
                j > 0,
        ;
    }
}

/// A message sent between nodes that reach each other is in flight and arrives within a hop,
/// as long as there are sequence numbers.
pub proof fn lemma_sent_is_coming(n: NetV, out: Seq<wire::Envelope>, k: int, t: nat)
    requires
        quiet(n),
        0 <= k < out.len(),
        linked(n, out[k]),
        n.sent_all(out).seq < u64::MAX,
        n.clock + hop(n) <= t || u64::MAX <= t,
    ensures
        coming(n.sent_all(out), out[k], t),
    decreases out.len(),
{
    let front = out.drop_last();
    let w = n.sent_all(front);
    let e = out.last();
    simulation::lemma_sent_all_frame(n, front);
    if k < out.len() - 1 {
        lemma_sent_is_coming(n, front, k, t);
        lemma_coming_sends(w, seq![e], out[k], t);
        assert(seq![e].drop_last() =~= seq![]);
        assert(w.sent_all(seq![e]) == w.sent_all(seq![e].drop_last()).sent(e));
    } else {
        lemma_latency(w);
        let f = Flight { time: net::later(w.clock as nat, w.latency()), seq: w.seq, env: e };
        let at = net::lemma_enqueued_split(w.queue, f);
        assert(w.sent(e).queue[at] == f);
        assert(w.sent(e).queue[at].env == e);
    }
}

/// What is in flight stays in flight, unchanged, when others are sent.
pub proof fn lemma_flight_stays(n: NetV, out: Seq<wire::Envelope>, i: int) -> (k: int)
    requires
        0 <= i < n.queue.len(),
    ensures
        0 <= k < n.sent_all(out).queue.len(),
        n.sent_all(out).queue[k] == n.queue[i],
    decreases out.len(),
{
    if out.len() == 0 {
        i
    } else {
        let w = n.sent_all(out.drop_last());
        let j = lemma_flight_stays(n, out.drop_last(), i);
        if w.loses(out.last()) {
            j
        } else {
            let f = Flight {
                time: net::later(w.clock as nat, w.latency()),
                seq: w.seq,
                env: out.last(),
            };
            let at = net::lemma_enqueued_split(w.queue, f);
            if j < at {
                j
            } else {
                j + 1
            }
        }
    }
}

/// A message takes at least the base latency, and it is numbered after those sent before.
pub proof fn lemma_sent_takes_time(n: NetV, out: Seq<wire::Envelope>, k: int, t: nat) -> (j: int)
    requires
        quiet(n),
        0 <= k < out.len(),
        linked(n, out[k]),
        n.sent_all(out).seq < u64::MAX,
        n.clock + hop(n) <= t <= u64::MAX,
    ensures
        0 <= j < n.sent_all(out).queue.len(),
        n.sent_all(out).queue[j].env == out[k],
        n.clock + n.params.base_latency <= n.sent_all(out).queue[j].time <= t,
        n.seq <= n.sent_all(out).queue[j].seq,
    decreases out.len(),
{
    let front = out.drop_last();
    let w = n.sent_all(front);
    let e = out.last();
    simulation::lemma_sent_all_frame(n, front);
    simulation::lemma_sent_all_progress(n, front);
    if k < out.len() - 1 {
        let i = lemma_sent_takes_time(n, front, k, t);
        assert(seq![e].drop_last() =~= seq![]);
        assert(w.sent_all(seq![e]) == w.sent_all(seq![e].drop_last()).sent(e));
        lemma_flight_stays(w, seq![e], i)
    } else {
        lemma_latency(w);
        let f = Flight { time: net::later(w.clock as nat, w.latency()), seq: w.seq, env: e };
        let at = net::lemma_enqueued_split(w.queue, f);
        assert(w.sent(e).queue[at] == f);
        at
    }
}

/// Time has not passed a message that is in flight.
pub proof fn lemma_coming_in_time(v: ClusterV, env: wire::Envelope, t: nat)
    requires
        soundness::sound(v),
        coming(v.net, env, t),
    ensures
        v.net.clock <= t,
{
}

/// The query on its way to the primary.
pub open spec fn query_env(p: u32, req: u64, q: QueryV) -> wire::Envelope {
    wire::Envelope {
        from: NodeId::Client,
        to: NodeId::Meta(p),
        msg: MessageV::MetaQueryMsg { req_id: req, q },
    }
}

/// The answer on its way to the client.
pub open spec fn answer_env(p: u32, req: u64, result: QueryResultV) -> wire::Envelope {
    wire::Envelope {
        from: NodeId::Meta(p),
        to: NodeId::Client,
        msg: MessageV::MetaQueryResp { req_id: req, result },
    }
}

/// Whether a letter answers the query `req`.
pub open spec fn answers(l: Letter, req: u64) -> bool {
    l.msg matches MessageV::MetaQueryResp { req_id, result } && req_id == req
}

/// The query or its answer arrives in time, or the answer is in the inbox.
spec fn answer_due(v: ClusterV, p: u32, req: u64, q: QueryV, t: nat) -> bool {
    ||| coming(v.net, query_env(p, req, q), t)
    ||| exists|r: QueryResultV| coming(v.net, #[trigger] answer_env(p, req, r), t + hop(v.net))
    ||| exists|i: int| 0 <= i < v.inbox.len() && answers(#[trigger] v.inbox[i], req)
}

proof fn lemma_answer_found(inbox: Seq<Letter>, req: u64, n: nat, i: int)
    requires
        0 <= i < n <= inbox.len(),
        answers(inbox[i], req),
    ensures
        protocol::answer_among(inbox, req, n) is Some,
    decreases n,
{
    if i < n - 1 {
        lemma_answer_found(inbox, req, (n - 1) as nat, i);
    }
}

proof fn lemma_answer_due_pumped(v: ClusterV, p: u32, req: u64, q: QueryV, t: nat)
    requires
        soundness::sound(v),
        quiet(v.net),
        v.primary() == Some(p),
        reaches_meta(v.net, p),
        answer_due(v, p, req, q, t),
        v.inbox.len() == 0,
        v.pumped().0.net.seq < u64::MAX,
    ensures
        v.pumped().1,
        answer_due(v.pumped().0, p, req, q, t),
{
    let (n, d) = v.net.stepped();
    let y = v.pumped().0;
    let at = net::law_step(v.net);
    truth::lemma_primary(v, p);
    let h = hop(v.net);
    soundness::lemma_pumped_sound(v);
    if coming(v.net, query_env(p, req, q), t) {
        let e = query_env(p, req, q);
        lemma_coming_in_time(v, e, t);
        lemma_coming_stepped(v.net, e, t);
        let env = d->Some_0;
        let (x, out) = v.with_net(n).delivered(env);
        simulation::lemma_sent_all_frame(x.net, out);
        if env == e {
            let r = v.metas[p as int].ns.answered(q);
            assert(v.metas[p as int].idx == p);
            assert(out[0] == answer_env(p, req, r));
            lemma_sent_is_coming(x.net, out, 0, t + h);
            assert(coming(y.net, answer_env(p, req, r), t + hop(y.net)));
        } else {
            lemma_coming_sends(x.net, out, e, t);
        }
    } else {
        let r = choose|r: QueryResultV| coming(v.net, #[trigger] answer_env(p, req, r), t + h);
        let e = answer_env(p, req, r);
        lemma_coming_in_time(v, e, t + h);
        lemma_coming_stepped(v.net, e, t + h);
        let env = d->Some_0;
        let (x, out) = v.with_net(n).delivered(env);
        simulation::lemma_sent_all_frame(x.net, out);
        if env == e {
            assert(answers(y.inbox[0], req));
        } else {
            lemma_coming_sends(x.net, out, e, t + h);
            assert(coming(y.net, answer_env(p, req, r), t + hop(y.net)));
        }
    }
}

proof fn lemma_answer_comes(v: ClusterV, p: u32, req: u64, q: QueryV, t: nat, deadline: u64)
    requires
        soundness::sound(v),
        quiet(v.net),
        v.primary() == Some(p),
        reaches_meta(v.net, p),
        answer_due(v, p, req, q, t),
        t + hop(v.net) < deadline,
        v.answer_awaited(req, deadline).0.net.seq < u64::MAX,
    ensures
        v.answer_awaited(req, deadline).1 is Some,
    decreases u64::MAX - v.net.seq, v.net.queue.len(),
{
    let w = v.inbox_taken();
    soundness::lemma_inbox_taken_sound(v);
    truth::lemma_primary_stays(v, w);
    let found = protocol::answer_among(v.inbox, req, v.inbox.len());
    if exists|i: int| 0 <= i < v.inbox.len() && answers(#[trigger] v.inbox[i], req) {
        let i = choose|i: int| 0 <= i < v.inbox.len() && answers(#[trigger] v.inbox[i], req);
        lemma_answer_found(v.inbox, req, v.inbox.len(), i);
    } else if found is None {
        assert(answer_due(w, p, req, q, t));
        assert(w.net.clock < deadline);
        soundness::lemma_pumped_sound(w);
        simulation::lemma_pump_progress(w);
        let y = w.pumped().0;
        durability::lemma_answer_awaited(y, req, deadline);
        lemma_answer_due_pumped(w, p, req, q, t);
        truth::lemma_primary_stays(w, y);
        lemma_answer_comes(y, p, req, q, t, deadline);
    }
}

/// On a quiet network, and with time for a message there and back, a query to a primary that
/// the client can reach is answered from its namespace.
pub proof fn law_queries_succeed(v: ClusterV, p: u32, q: QueryV)
    requires
        soundness::sound(v),
        truth::idle(v, p),
        quiet(v.net),
        reaches_meta(v.net, p),
        2 * hop(v.net) < v.opts.op_deadline,
        room_left(v.meta_queried(q).0),
    ensures
        v.meta_queried(q).1 == Ok::<QueryResultV, ErrorV>(truth::names(v, p).answered(q)),
{
    truth::law_queries_are_answered_truly(v, p, q);
    durability::law_meta_query_keeps_sound(v, q);
    truth::lemma_primary(v, p);
    let req = v.next_req;
    let msg = MessageV::MetaQueryMsg { req_id: req, q };
    let w = v.asked(p, msg);
    durability::lemma_asked(v, p, msg);
    truth::lemma_primary_stays(v, w);
    durability::lemma_answer_awaited(w, req, w.deadline());
    let t = v.net.clock as nat + hop(v.net);
    lemma_one_sent(v.net, query_env(p, req, q), t);
    lemma_answer_comes(w, p, req, q, t, w.deadline());
}

/// [`lemma_sent_is_coming`] for a single message.
pub proof fn lemma_one_sent(n: NetV, e: wire::Envelope, t: nat)
    requires
        quiet(n),
        linked(n, e),
        n.sent(e).seq < u64::MAX,
        n.clock + hop(n) <= t,
    ensures
        coming(n.sent(e), e, t),
{
    let out = seq![e];
    assert(out.drop_last() =~= seq![]);
    assert(n.sent_all(out) == n.sent_all(out.drop_last()).sent(out.last()));
    lemma_sent_is_coming(n, out, 0, t);
}

/// On a quiet network a listing and a stat give what the namespace holds.
pub proof fn law_listings_succeed(v: ClusterV, p: u32, at: Seq<char>)
    requires
        soundness::sound(v),
        truth::idle(v, p),
        quiet(v.net),
        reaches_meta(v.net, p),
        2 * hop(v.net) < v.opts.op_deadline,
        path::normal(at),
        room_left(v.listed(at).0),
        room_left(v.statted(at).0),
    ensures
        v.listed(at).1 == (match truth::names(v, p).answered(QueryV::List { path: at }) {
            QueryResultV::Listing(es) => Ok::<Seq<DirEntryV>, ErrorV>(es),
            QueryResultV::Rejected(c) => Err::<Seq<DirEntryV>, ErrorV>(message::meta_error(c, at)),
            _ => Err::<Seq<DirEntryV>, ErrorV>(ErrorV::MetadataUnavailable),
        }),
        v.statted(at).1 == (match truth::names(v, p).answered(QueryV::Stat { path: at }) {
            QueryResultV::Stat(Some(s)) => Ok::<StatInfoV, ErrorV>(s),
            _ => Err::<StatInfoV, ErrorV>(ErrorV::NotFound(at)),
        }),
{
    law_queries_succeed(v, p, QueryV::List { path: at });
    law_queries_succeed(v, p, QueryV::Stat { path: at });
}

} // verus!

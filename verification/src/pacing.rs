//! How long a request takes at least: a message takes the base latency of the link, so that
//! nobody is answered before a message went there and another came back.

use crate::durability;
use crate::message::{MessageV, MetaOpV, NodeId, QueryV};
use crate::metadata::{self, MetaV};
use crate::net::{self, Flight, NetV};
use crate::ordmap;
use crate::protocol;
use crate::simulation::{self, ClusterV, Letter};
use crate::soundness;
use crate::wire;
use vstd::prelude::*;

verus! {

/// Whether a message is the request `req`.
pub open spec fn asks(msg: MessageV, req: u64) -> bool {
    match msg {
        MessageV::MetaOpMsg { req_id, .. } => req_id == req,
        MessageV::MetaQueryMsg { req_id, .. } => req_id == req,
        _ => false,
    }
}

/// Whether a message is a reply to the request `req`.
pub open spec fn replies(msg: MessageV, req: u64) -> bool {
    match msg {
        MessageV::MetaCommitted { req_id, .. } => req_id == req,
        MessageV::MetaQueryResp { req_id, .. } => req_id == req,
        _ => false,
    }
}

/// Whether a metadata node has yet to reply to the request `req`.
pub open spec fn owes(m: MetaV, req: u64) -> bool {
    exists|s: u64| #[trigger] m.pending.dom().contains(s) && m.pending[s].req_id == req
}

/// Whether a message in flight, if it is about `req`, arrives no sooner than a request made at
/// time `t`, or the reply to it, can.
pub open spec fn on_pace(req: u64, t: nat, base: nat) -> spec_fn(Flight) -> bool {
    |f: Flight|
        {
            &&& asks(f.env.msg, req) ==> f.time >= t + base
            &&& replies(f.env.msg, req) ==> f.time >= t + 2 * base
        }
}

/// Whether every message in flight has some property.
pub open spec fn all_flights(q: Seq<Flight>, p: spec_fn(Flight) -> bool) -> bool {
    forall|i: int| 0 <= i < q.len() ==> p(#[trigger] q[i])
}

/// What a request made at time `t` has come to takes the time that it takes.
spec fn paced(v: ClusterV, req: u64, t: nat) -> bool {
    let base = v.net.params.base_latency as nat;
    &&& all_flights(v.net.queue, on_pace(req, t, base))
    &&& forall|i: int|
        0 <= i < v.inbox.len() && replies((#[trigger] v.inbox[i]).msg, req) ==> v.net.clock >= t + 2
            * base
    &&& forall|i: int|
        0 <= i < v.metas.len() && owes(#[trigger] v.metas[i], req) ==> v.net.clock >= t + base
}

/// A property that every message in flight has, and that every message gets that is sent now
/// and takes at least the base latency.
proof fn lemma_sent_all_flights(
    n: NetV,
    out: Seq<wire::Envelope>,
    p: spec_fn(Flight) -> bool,
)
    requires
        all_flights(n.queue, p),
        forall|k: int, f: Flight|
            0 <= k < out.len() && f.env == #[trigger] out[k] && f.time >= net::later(
                n.clock as nat,
                n.params.base_latency as nat,
            ) ==> #[trigger] p(f),
    ensures
        all_flights(n.sent_all(out).queue, p),
    decreases out.len(),
{
    if out.len() > 0 {
        let front = out.drop_last();
        assert forall|k: int, f: Flight|
            0 <= k < front.len() && f.env == #[trigger] front[k] && f.time >= net::later(
                n.clock as nat,
                n.params.base_latency as nat,
            ) implies #[trigger] p(f) by {
            assert(front[k] == out[k]);
        }
        lemma_sent_all_flights(n, front, p);
        simulation::lemma_sent_all_frame(n, front);
        let w = n.sent_all(front);
        let env = out[out.len() - 1];
        assert(out.last() == env);
        if !w.loses(env) {
            let f = Flight { time: net::later(w.clock as nat, w.latency()), seq: w.seq, env };
            let at = net::lemma_enqueued_split(w.queue, f);
            let q = w.sent(env).queue;
            assert(p(f));
            assert forall|i: int| 0 <= i < q.len() implies p(#[trigger] q[i]) by {
                if i < at {
                    assert(q[i] == w.queue[i]);
                } else if i > at {
                    assert(q[i] == w.queue[i - 1]);
                } else {
                    assert(q[i] == f);
                }
            }
        }
    }
}

/// A metadata node replies to `req` only when it is asked, or when it owes the reply.
proof fn lemma_metas_reply(m: MetaV, from: NodeId, msg: MessageV, req: u64)
    requires
        m.buffer.dom().finite(),
    ensures
        owes(m.handled(from, msg).0, req) ==> asks(msg, req) || owes(m, req),
        forall|i: int|
            0 <= i < m.handled(from, msg).1.len() ==> {
                let e = #[trigger] m.handled(from, msg).1[i];
                &&& !asks(e.msg, req)
                &&& replies(e.msg, req) ==> asks(msg, req) || owes(m, req)
            },
{
    let w = m.handled(from, msg).0;
    match msg {
        MessageV::MetaOpMsg { req_id, op } => {
            soundness::lemma_replication_kind(m.idx, m.peers, m.next_seq, op, m.peers.len());
            if owes(w, req) && req_id != req {
                let s = choose|s: u64| #[trigger]
                    w.pending.dom().contains(s) && w.pending[s].req_id == req;
                assert(m.pending.dom().contains(s) && m.pending[s].req_id == req);
            }
        },
        MessageV::MetaReplicate { seq, op } => {
            metadata::lemma_caught_up(MetaV { buffer: m.buffer.insert(seq, op), ..m });
        },
        MessageV::MetaReplicateAck { seq } => {
            if owes(w, req) {
                let s = choose|s: u64| #[trigger]
                    w.pending.dom().contains(s) && w.pending[s].req_id == req;
                assert(m.pending.dom().contains(s) && m.pending[s].req_id == req);
            }
            if m.pending.dom().contains(seq) && m.pending[seq].req_id == req {
                assert(owes(m, req));
            }
        },
        MessageV::Heartbeat { node, chunks } => {
            let x = MetaV { holders: metadata::reported(m.holders, node, chunks), ..m };
            if x.is_primary {
                let ids = ordmap::in_order::<crate::hash::Hash>(metadata::referenced(x.ns.files));
                soundness::lemma_orders_kind(x, ids, ids.len());
            }
        },
        _ => {},
    }
}

proof fn lemma_paced_pumped(v: ClusterV, req: u64, t: nat)
    requires
        soundness::sound(v),
        paced(v, req, t),
        t + 2 * (v.net.params.base_latency as nat) <= u64::MAX,
    ensures
        paced(v.pumped().0, req, t),
{
    let base = v.net.params.base_latency as nat;
    let p = on_pace(req, t, base);
    let (n, d) = v.net.stepped();
    let y = v.pumped().0;
    let at = net::law_step(v.net);
    soundness::lemma_pumped_sound(v);
    if let Some(env) = d {
        let (x, out) = v.with_net(n).delivered(env);
        simulation::lemma_sent_all_frame(x.net, out);
        assert(p(v.net.queue[at]));
        assert(n.clock >= v.net.clock);
        assert(all_flights(n.queue, p)) by {
            assert forall|i: int| 0 <= i < n.queue.len() implies p(#[trigger] n.queue[i]) by {
                assert(n.queue[i] == v.net.queue[at + 1 + i]);
            }
        }
        if let NodeId::Meta(k) = env.to {
            if k < v.metas.len() {
                lemma_metas_reply(v.metas[k as int], env.from, env.msg, req);
            }
        }
        assert forall|k: int, f: Flight|
            0 <= k < out.len() && f.env == #[trigger] out[k] && f.time >= net::later(
                x.net.clock as nat,
                x.net.params.base_latency as nat,
            ) implies #[trigger] p(f) by {
            if let NodeId::Meta(i) = env.to {
                if i < v.metas.len() && replies(out[k].msg, req) {
                    assert(n.clock >= t + base);
                }
            }
        }
        lemma_sent_all_flights(x.net, out, p);
        assert forall|i: int|
            0 <= i < y.inbox.len() && replies(
                (#[trigger] y.inbox[i]).msg,
                req,
            ) implies y.net.clock >= t + 2 * base by {
            if i < v.inbox.len() {
                assert(y.inbox[i] == v.inbox[i]);
            }
        }
        assert forall|i: int|
            0 <= i < y.metas.len() && owes(#[trigger] y.metas[i], req) implies y.net.clock >= t
            + base by {
            if y.metas[i] != v.metas[i] {
                assert(env.to == NodeId::Meta(i as u32));
            }
        }
    }
}

proof fn lemma_commit_among(inbox: Seq<Letter>, req: u64, n: nat) -> (i: int)
    requires
        n <= inbox.len(),
        protocol::commit_among(inbox, req, n) is Some,
    ensures
        0 <= i < n,
        replies(inbox[i].msg, req),
    decreases n,
{
    if protocol::commit_among(inbox, req, (n - 1) as nat) is Some {
        lemma_commit_among(inbox, req, (n - 1) as nat)
    } else {
        n - 1
    }
}

proof fn lemma_answer_among(inbox: Seq<Letter>, req: u64, n: nat) -> (i: int)
    requires
        n <= inbox.len(),
        protocol::answer_among(inbox, req, n) is Some,
    ensures
        0 <= i < n,
        replies(inbox[i].msg, req),
    decreases n,
{
    if protocol::answer_among(inbox, req, (n - 1) as nat) is Some {
        lemma_answer_among(inbox, req, (n - 1) as nat)
    } else {
        n - 1
    }
}

proof fn lemma_commit_takes_time(v: ClusterV, req: u64, t: nat, deadline: u64)
    requires
        soundness::sound(v),
        paced(v, req, t),
        t + 2 * (v.net.params.base_latency as nat) <= u64::MAX,
        v.commit_awaited(req, deadline).1 is Some,
    ensures
        v.commit_awaited(req, deadline).0.net.clock >= t + 2 * (v.net.params.base_latency as nat),
    decreases u64::MAX - v.net.seq, v.net.queue.len(),
{
    let w = v.inbox_taken();
    soundness::lemma_inbox_taken_sound(v);
    soundness::lemma_pumped_sound(w);
    simulation::lemma_pump_progress(w);
    lemma_paced_pumped(w, req, t);
    if protocol::commit_among(v.inbox, req, v.inbox.len()) is Some {
        let i = lemma_commit_among(v.inbox, req, v.inbox.len());
    } else if w.net.clock < deadline && w.pumped().1 {
        lemma_commit_takes_time(w.pumped().0, req, t, deadline);
    }
}

proof fn lemma_answer_takes_time(v: ClusterV, req: u64, t: nat, deadline: u64)
    requires
        soundness::sound(v),
        paced(v, req, t),
        t + 2 * (v.net.params.base_latency as nat) <= u64::MAX,
        v.answer_awaited(req, deadline).1 is Some,
    ensures
        v.answer_awaited(req, deadline).0.net.clock >= t + 2 * (v.net.params.base_latency as nat),
    decreases u64::MAX - v.net.seq, v.net.queue.len(),
{
    let w = v.inbox_taken();
    soundness::lemma_inbox_taken_sound(v);
    soundness::lemma_pumped_sound(w);
    simulation::lemma_pump_progress(w);
    lemma_paced_pumped(w, req, t);
    if protocol::answer_among(v.inbox, req, v.inbox.len()) is Some {
        let i = lemma_answer_among(v.inbox, req, v.inbox.len());
    } else if w.net.clock < deadline && w.pumped().1 {
        lemma_answer_takes_time(w.pumped().0, req, t, deadline);
    }
}

/// A fresh request is on pace.
proof fn lemma_asked_paced(v: ClusterV, p: u32, msg: MessageV)
    requires
        soundness::sound(v),
        asks(msg, v.next_req),
        v.net.clock + 2 * (v.net.params.base_latency as nat) <= u64::MAX,
    ensures
        paced(v.asked(p, msg), v.next_req, v.net.clock as nat),
{
    let req = v.next_req;
    let t = v.net.clock as nat;
    let f = on_pace(req, t, v.net.params.base_latency as nat);
    let env = wire::Envelope { from: NodeId::Client, to: NodeId::Meta(p), msg };
    let out = seq![env];
    assert(all_flights(v.net.queue, f)) by {
        assert forall|i: int| 0 <= i < v.net.queue.len() implies f(#[trigger] v.net.queue[i]) by {
            assert(soundness::given_out(v.net.queue[i].env.msg, v.next_req));
        }
    }
    lemma_sent_all_flights(v.net, out, f);
    simulation::lemma_sent_all_frame(v.net, out);
    assert(out.drop_last() =~= seq![]);
    assert(v.net.sent_all(out) == v.net.sent_all(out.drop_last()).sent(env));
    assert forall|i: int| 0 <= i < v.inbox.len() implies !replies(
        (#[trigger] v.inbox[i]).msg,
        req,
    ) by {
        assert(soundness::given_out(v.inbox[i].msg, v.next_req));
    }
    assert forall|i: int| 0 <= i < v.metas.len() implies !owes(#[trigger] v.metas[i], req) by {
        assert(soundness::meta_sound(v.metas[i], v.next_req));
    }
}

/// An operation that was answered took at least two messages' time.
pub proof fn law_operations_take_time(v: ClusterV, op: MetaOpV, err_path: Seq<char>)
    requires
        soundness::sound(v),
        v.meta_applied(op, err_path).1 is Ok,
        v.net.clock + 2 * (v.net.params.base_latency as nat) <= u64::MAX,
    ensures
        v.meta_applied(op, err_path).0.net.clock >= v.net.clock + 2 * (
        v.net.params.base_latency as nat),
{
    let p = v.primary()->Some_0;
    let msg = MessageV::MetaOpMsg { req_id: v.next_req, op };
    durability::lemma_asked(v, p, msg);
    lemma_asked_paced(v, p, msg);
    let w = v.asked(p, msg);
    lemma_commit_takes_time(w, v.next_req, v.net.clock as nat, w.deadline());
}

/// A query that was answered took at least two messages' time.
pub proof fn law_queries_take_time(v: ClusterV, q: QueryV)
    requires
        soundness::sound(v),
        v.meta_queried(q).1 is Ok,
        v.net.clock + 2 * (v.net.params.base_latency as nat) <= u64::MAX,
    ensures
        v.meta_queried(q).0.net.clock >= v.net.clock + 2 * (v.net.params.base_latency as nat),
{
    let p = v.primary()->Some_0;
    let msg = MessageV::MetaQueryMsg { req_id: v.next_req, q };
    durability::lemma_asked(v, p, msg);
    lemma_asked_paced(v, p, msg);
    let w = v.asked(p, msg);
    lemma_answer_takes_time(w, v.next_req, v.net.clock as nat, w.deadline());
}

} // verus!

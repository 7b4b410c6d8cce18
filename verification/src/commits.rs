//! Operations commit: on a quiet network, when enough metadata nodes are up and up to date, the
//! client learns the outcome of an operation in time.

use crate::chunk::ChunkV;
use crate::cluster;
use crate::durability;
use crate::error::ErrorV;
use crate::message::{self, MessageV, MetaOpV, MetaResult, NodeId};
use crate::metadata::{self, MetaV};
use crate::namespace::NsV;
use crate::net;
use crate::options::Options;
use crate::path;
use crate::progress;
use crate::protocol;
use crate::replicas;
use crate::simulation::{self, ClusterV, Letter};
use crate::soundness;
use crate::truth;
use crate::wire;
use vstd::prelude::*;

verus! {

/// The operation on its way to the primary.
pub open spec fn op_env(p: u32, req: u64, op: MetaOpV) -> wire::Envelope {
    wire::Envelope {
        from: NodeId::Client,
        to: NodeId::Meta(p),
        msg: MessageV::MetaOpMsg { req_id: req, op },
    }
}

/// The operation on its way from the primary to a backup.
pub open spec fn replica_env(p: u32, b: u32, seq: u64, op: MetaOpV) -> wire::Envelope {
    wire::Envelope {
        from: NodeId::Meta(p),
        to: NodeId::Meta(b),
        msg: MessageV::MetaReplicate { seq, op },
    }
}

/// A backup's acknowledgement on its way to the primary.
pub open spec fn logged_env(p: u32, b: u32, seq: u64) -> wire::Envelope {
    wire::Envelope {
        from: NodeId::Meta(b),
        to: NodeId::Meta(p),
        msg: MessageV::MetaReplicateAck { seq },
    }
}

/// The outcome on its way to the client.
pub open spec fn outcome_env(p: u32, req: u64, result: MetaResult) -> wire::Envelope {
    wire::Envelope {
        from: NodeId::Meta(p),
        to: NodeId::Client,
        msg: MessageV::MetaCommitted { req_id: req, result },
    }
}

/// Whether a letter tells the outcome of `req`.
pub open spec fn tells(l: Letter, req: u64) -> bool {
    l.msg matches MessageV::MetaCommitted { req_id, result } && req_id == req
}

/// A node that has applied what comes before `n` and buffers nothing from `n` on.
pub open spec fn level(m: MetaV, n: u64) -> bool {
    &&& m.applied_seq == n
    &&& m.buffer.dom().finite()
    &&& forall|s: u64| #[trigger] m.buffer.dom().contains(s) ==> s < n
}

/// What an operation is about: who commits it, under which numbers, and after which history.
pub struct Matter {
    /// The primary.
    pub p: u32,
    /// What the primary had applied when the operation was sent.
    pub a: u64,
    /// Its namespace then.
    pub ns: NsV,
    /// The correlation id.
    pub req: u64,
    /// The operation.
    pub op: MetaOpV,
    /// The history before it.
    pub history: Seq<MetaOpV>,
    /// The backups that will acknowledge it.
    pub backups: Set<u32>,
    /// When the operation reaches the primary at the latest.
    pub t: nat,
}

impl Matter {
    /// The sequence number that the operation gets.
    pub open spec fn seq(self) -> u64 {
        self.history.len() as u64
    }

    /// Enough backups, all in reach of the primary, none of them the primary itself.
    pub open spec fn enough_backups(self, v: ClusterV) -> bool {
        &&& self.backups.finite()
        &&& self.backups.len() + 1 >= v.metas[self.p as int].meta_quorum
        &&& forall|b: u32| #[trigger]
            self.backups.contains(b) ==> b != self.p && b < v.metas.len() && v.net.connected(
                NodeId::Meta(self.p),
                NodeId::Meta(b),
            )
    }

    /// Whether the namespace allows the operation.
    pub open spec fn allowed(self) -> bool {
        self.ns.validated(self.op) is Ok
    }

    /// The history is mirrored, the primary's numbers are those of the history, and the backups
    /// are up to date.
    pub open spec fn ready(self, v: ClusterV) -> bool {
        &&& replicas::mirrored(v, self.p, self.history)
        &&& v.metas[self.p as int].next_seq == self.seq()
        &&& forall|b: u32| #[trigger]
            self.backups.contains(b) ==> v.metas[b as int].applied_seq == self.seq()
                && v.metas[self.p as int].peers.contains(b)
    }

    /// The operation is on its way to the primary, and if it is allowed it can be committed.
    pub open spec fn sending(self, v: ClusterV) -> bool {
        &&& truth::unhandled(v, self.p, self.ns, self.req)
        &&& progress::coming(v.net, op_env(self.p, self.req, self.op), self.t)
        &&& self.allowed() ==> self.ready(v)
    }

    /// A backup has acknowledged, or will in time.
    pub open spec fn backup_due(self, v: ClusterV, b: u32) -> bool {
        ||| v.metas[self.p as int].pending[self.seq()].acks.contains(b)
        ||| progress::coming(
            v.net,
            logged_env(self.p, b, self.seq()),
            self.t + 2 * progress::hop(v.net),
        )
        ||| progress::coming(
            v.net,
            replica_env(self.p, b, self.seq(), self.op),
            self.t + progress::hop(v.net),
        ) && level(v.metas[b as int], self.seq())
    }

    /// Only the primary replicates the operation to the backups.
    pub open spec fn one_source(self) -> spec_fn(wire::Envelope) -> bool {
        |e: wire::Envelope|
            e.msg matches MessageV::MetaReplicate { seq, op } ==> seq == self.seq() ==> (
            e.to matches NodeId::Meta(b) ==> self.backups.contains(b) ==> e.from == NodeId::Meta(
                self.p,
            ))
    }

    /// The primary waits for its quorum.
    pub open spec fn collecting(self, v: ClusterV) -> bool {
        let m = v.metas[self.p as int];
        &&& truth::waiting(v, self.p, self.ns, self.req, self.op)
        &&& replicas::mirrored(v, self.p, self.history.push(self.op))
        &&& m.applied_seq == self.seq()
        &&& m.pending.dom().contains(self.seq())
        &&& m.pending[self.seq()].acks.contains(self.p)
        &&& m.pending[self.seq()].acks.len() < m.meta_quorum
        &&& forall|b: u32| #[trigger] self.backups.contains(b) ==> self.backup_due(v, b)
        &&& simulation::every(v.net.queue, self.one_source())
    }

    /// The outcome is on its way to the client.
    pub open spec fn reporting(self, v: ClusterV) -> bool {
        exists|r: MetaResult|
            progress::coming(
                v.net,
                #[trigger] outcome_env(self.p, self.req, r),
                self.t + 3 * progress::hop(v.net),
            )
    }

    /// The outcome lies in the inbox.
    pub open spec fn told(self, v: ClusterV) -> bool {
        exists|i: int| 0 <= i < v.inbox.len() && tells(#[trigger] v.inbox[i], self.req)
    }

    /// The client learns the outcome in time.
    pub open spec fn due(self, v: ClusterV) -> bool {
        ||| self.sending(v)
        ||| self.collecting(v)
        ||| self.reporting(v)
        ||| self.told(v)
    }

    /// What holds around it.
    pub open spec fn around(self, v: ClusterV) -> bool {
        &&& soundness::sound(v)
        &&& progress::quiet(v.net)
        &&& progress::reaches_meta(v.net, self.p)
        &&& truth::underway(v, self.p, self.a, self.ns, self.req, self.op)
        &&& self.allowed() ==> self.history.len() < u64::MAX && self.enough_backups(v)
    }
}

/// The place of a backup's copy among those that are sent.
proof fn lemma_replica_at(idx: u32, peers: Seq<u32>, seq: u64, op: MetaOpV, n: nat, j: int) -> (k:
    int)
    requires
        0 <= j < n <= peers.len(),
        peers[j] != idx,
    ensures
        0 <= k < metadata::replication(idx, peers, seq, op, n).len(),
        metadata::replication(idx, peers, seq, op, n)[k] == replica_env(idx, peers[j], seq, op),
    decreases n,
{
    let before = metadata::replication(idx, peers, seq, op, (n - 1) as nat);
    if j < n - 1 {
        lemma_replica_at(idx, peers, seq, op, (n - 1) as nat, j)
    } else {
        before.len() as int
    }
}

/// The operation on its way stays on its way or reaches the primary, which refuses it, commits
/// it or sends it to the backups.
proof fn lemma_sending_pumped(o: Matter, v: ClusterV)
    requires
        o.around(v),
        o.sending(v),
        v.pumped().0.net.seq < u64::MAX,
    ensures
        v.pumped().1,
        o.due(v.pumped().0),
{
    let (n, d) = v.net.stepped();
    let y = v.pumped().0;
    let at = net::law_step(v.net);
    let h = progress::hop(v.net);
    let e = op_env(o.p, o.req, o.op);
    truth::lemma_primary(v, o.p);
    soundness::lemma_pumped_sound(v);
    progress::lemma_coming_in_time(v, e, o.t);
    progress::lemma_coming_stepped(v.net, e, o.t);
    let env = d->Some_0;
    let (x, out) = v.with_net(n).delivered(env);
    simulation::lemma_sent_all_frame(x.net, out);
    simulation::lemma_stepped_every(v.net, truth::only_op(o.p, o.a, o.req, o.op));
    assert(truth::only_op(o.p, o.a, o.req, o.op)(env));
    let m = v.metas[o.p as int];
    if o.allowed() {
        assert(replicas::in_turn(v, o.p, env));
        replicas::lemma_mirrored_pumped(v, o.p, o.history);
    }
    if env.msg is MetaOpMsg {
        assert(env == e);
        truth::lemma_op_delivered(v, o.p, o.a, o.ns, o.req, o.op);
        assert(m.idx == o.p);
        assert(out == m.submitted(NodeId::Client, o.req, o.op).1);
        match o.ns.validated(o.op) {
            Err(c) => {
                let r = MetaResult::Rejected(c);
                assert(out[0] == outcome_env(o.p, o.req, r));
                progress::lemma_sent_is_coming(x.net, out, 0, o.t + 3 * h);
                assert(o.reporting(y));
            },
            Ok(_) => {
                if m.meta_quorum <= 1 {
                    let r = MetaResult::Committed;
                    assert(out[0] == outcome_env(o.p, o.req, r));
                    progress::lemma_sent_is_coming(x.net, out, 0, o.t + 3 * h);
                    assert(o.reporting(y));
                } else {
                    lemma_collecting_starts(o, v);
                }
            },
        }
    } else {
        truth::lemma_other_delivered(v, o.p, o.a, o.ns, o.req, o.op);
        progress::lemma_coming_sends(x.net, out, e, o.t);
        assert forall|b: u32|
            o.allowed() && #[trigger] o.backups.contains(b) implies y.metas[b as int].applied_seq
            == o.seq() && y.metas[o.p as int].peers.contains(b) by {
            assert(replicas::mirrors(y.metas[b as int], o.history));
            if env.to == NodeId::Meta(b) {
                truth::lemma_keeps_pace(v.metas[b as int], env.from, env.msg);
            }
            if env.to == NodeId::Meta(o.p) {
                truth::lemma_keeps_pace(m, env.from, env.msg);
            }
        }
        if env.to == NodeId::Meta(o.p) {
            truth::lemma_keeps_pace(m, env.from, env.msg);
        }
        assert(o.sending(y));
    }
}

/// The primary sends the operation to the backups.
proof fn lemma_collecting_starts(o: Matter, v: ClusterV)
    requires
        o.around(v),
        o.sending(v),
        v.pumped().0.net.seq < u64::MAX,
        v.net.stepped().1 == Some(op_env(o.p, o.req, o.op)),
        o.ns.validated(o.op) is Ok,
        v.metas[o.p as int].meta_quorum > 1,
    ensures
        o.collecting(v.pumped().0),
{
    let (n, d) = v.net.stepped();
    let y = v.pumped().0;
    let at = net::law_step(v.net);
    let h = progress::hop(v.net);
    let e = op_env(o.p, o.req, o.op);
    truth::lemma_primary(v, o.p);
    soundness::lemma_pumped_sound(v);
    progress::lemma_coming_in_time(v, e, o.t);
    progress::lemma_coming_stepped(v.net, e, o.t);
    let (x, out) = v.with_net(n).delivered(e);
    simulation::lemma_sent_all_frame(x.net, out);
    let m = v.metas[o.p as int];
    let s = o.seq();
    assert(m.next_seq == s);
    assert(replicas::in_turn(v, o.p, e));
    replicas::lemma_mirrored_pumped(v, o.p, o.history);
    truth::lemma_op_delivered(v, o.p, o.a, o.ns, o.req, o.op);
    assert(m.idx == o.p);
    assert(out == metadata::replication(o.p, m.peers, s, o.op, m.peers.len()));
    let m2 = y.metas[o.p as int];
    assert(m2 == m.submitted(NodeId::Client, o.req, o.op).0);
    assert(m2.pending.dom().contains(s));
    assert(m2.pending[s].acks =~= Set::empty().insert(o.p));
    assert(m2.pending[s].acks.len() == 1);
    assert forall|b: u32| #[trigger] o.backups.contains(b) implies o.backup_due(y, b) by {
        let j = choose|j: int| 0 <= j < m.peers.len() && m.peers[j] == b;
        let k = lemma_replica_at(o.p, m.peers, s, o.op, m.peers.len(), j);
        progress::lemma_sent_is_coming(x.net, out, k, o.t + h);
        assert(y.metas[b as int] == v.metas[b as int]);
        assert(replicas::mirrors(v.metas[b as int], o.history));
    }
    assert(simulation::every(n.queue, o.one_source())) by {
        simulation::lemma_stepped_every(v.net, replicas::about_log(o.p, v.metas, o.history));
        assert forall|i: int| 0 <= i < n.queue.len() implies o.one_source()(
            (#[trigger] n.queue[i]).env,
        ) by {
            let g = n.queue[i].env;
            assert(replicas::about_log(o.p, v.metas, o.history)(g));
            if let NodeId::Meta(b) = g.to {
                if o.backups.contains(b) {
                    assert(v.metas[b as int].applied_seq == s);
                }
            }
        }
    }
    soundness::lemma_replication_kind(o.p, m.peers, s, o.op, m.peers.len());
    simulation::lemma_sent_all_every(x.net, out, o.one_source());
}

/// A level node stays level unless it gets the next operation.
proof fn lemma_level_stands(m: MetaV, from: NodeId, msg: MessageV, n: u64)
    requires
        level(m, n),
        !(msg is MetaOpMsg),
        msg matches MessageV::MetaReplicate { seq, op } ==> seq < n,
        m.pending.dom() =~= Set::empty(),
    ensures
        level(m.handled(from, msg).0, n),
{
}

/// A level node that gets the next operation applies and acknowledges it.
proof fn lemma_level_logs(m: MetaV, from: NodeId, n: u64, op: MetaOpV)
    requires
        level(m, n),
        n < u64::MAX,
    ensures
        m.replicated(from, n, op).1.len() > 0,
        m.replicated(from, n, op).1[0] == (wire::Envelope {
            from: NodeId::Meta(m.idx),
            to: from,
            msg: MessageV::MetaReplicateAck { seq: n },
        }),
{
    let b = MetaV { buffer: m.buffer.insert(n, op), ..m };
    assert(b.buffer.dom().contains(n));
    metadata::lemma_caught_up(b);
    let next = MetaV {
        buffer: b.buffer.remove(n),
        applied_seq: (n + 1) as u64,
        ..b.logged(n, b.buffer[n])
    };
    assert(b.caught_up().1 == seq![n] + next.caught_up().1);
}

/// What becomes of one backup's acknowledgement while the primary goes on waiting.
proof fn lemma_backup_pumped(o: Matter, v: ClusterV, b: u32)
    requires
        o.around(v),
        o.collecting(v),
        o.backups.contains(b),
        o.backup_due(v, b),
        v.pumped().0.net.seq < u64::MAX,
        v.net.stepped().1 is Some,
        v.pumped().0.metas[o.p as int].pending.dom().contains(o.seq()),
    ensures
        o.backup_due(v.pumped().0, b),
{
    let (n, d) = v.net.stepped();
    let y = v.pumped().0;
    let at = net::law_step(v.net);
    let h = progress::hop(v.net);
    let s = o.seq();
    let env = d->Some_0;
    let (x, out) = v.with_net(n).delivered(env);
    let m = v.metas[o.p as int];
    truth::lemma_primary(v, o.p);
    soundness::lemma_pumped_sound(v);
    simulation::lemma_sent_all_frame(x.net, out);
    simulation::lemma_stepped_every(v.net, truth::not_op());
    assert(truth::not_op()(env));
    if env.to == NodeId::Meta(o.p) {
        lemma_pending_acks(m, env.from, env.msg, s);
    }
    let back = logged_env(o.p, b, s);
    let copy = replica_env(o.p, b, s, o.op);
    if m.pending[s].acks.contains(b) {
    } else if progress::coming(v.net, back, o.t + 2 * h) {
        progress::lemma_coming_in_time(v, back, o.t + 2 * h);
        progress::lemma_coming_stepped(v.net, back, o.t + 2 * h);
        if env != back {
            progress::lemma_coming_sends(x.net, out, back, o.t + 2 * h);
        }
    } else {
        progress::lemma_coming_in_time(v, copy, o.t + h);
        progress::lemma_coming_stepped(v.net, copy, o.t + h);
        let mb = v.metas[b as int];
        assert(mb.idx == b);
        if env == copy {
            lemma_level_logs(mb, NodeId::Meta(o.p), s, o.op);
            assert(out[0] == back);
            progress::lemma_sent_is_coming(x.net, out, 0, o.t + 2 * h);
        } else {
            progress::lemma_coming_sends(x.net, out, copy, o.t + h);
            if env.to == NodeId::Meta(b) {
                simulation::lemma_stepped_every(v.net, o.one_source());
                simulation::lemma_stepped_every(
                    v.net,
                    replicas::about_log(o.p, v.metas, o.history.push(o.op)),
                );
                assert(o.one_source()(env));
                assert(replicas::about_log(o.p, v.metas, o.history.push(o.op))(env));
                lemma_level_stands(mb, env.from, env.msg, s);
            }
        }
    }
}

/// While an operation stays pending, its acknowledgements only grow, by the sender of the one
/// that came.
proof fn lemma_pending_acks(m: MetaV, from: NodeId, msg: MessageV, s: u64)
    requires
        m.buffer.dom().finite(),
        !(msg is MetaOpMsg),
        m.pending.dom().contains(s),
        m.handled(from, msg).0.pending.dom().contains(s),
    ensures
        m.pending[s].acks.subset_of(m.handled(from, msg).0.pending[s].acks),
        msg == (MessageV::MetaReplicateAck { seq: s }) ==> (from matches NodeId::Meta(b) ==> m.handled(
            from,
            msg,
        ).0.pending[s].acks.contains(b)),
{
    if let MessageV::MetaReplicate { seq, op } = msg {
        metadata::lemma_caught_up(MetaV { buffer: m.buffer.insert(seq, op), ..m });
    }
}

/// Some message about an operation that waits for its quorum is on its way.
proof fn lemma_collecting_comes(o: Matter, v: ClusterV)
    requires
        o.around(v),
        o.collecting(v),
    ensures
        v.net.stepped().1 is Some,
        v.net.clock <= o.t + 2 * progress::hop(v.net),
        v.net.stepped().0.clock <= o.t + 2 * progress::hop(v.net),
{
    let m = v.metas[o.p as int];
    let have = m.pending[o.seq()].acks;
    let h = progress::hop(v.net);
    truth::lemma_primary(v, o.p);
    assert(soundness::meta_sound(m, v.next_req));
    if forall|b: u32| #[trigger] o.backups.contains(b) ==> have.contains(b) {
        assert(o.backups.insert(o.p).subset_of(have));
        assert(!o.backups.contains(o.p));
        vstd::set_lib::lemma_len_subset(o.backups.insert(o.p), have);
    }
    let b = choose|b: u32| #[trigger] o.backups.contains(b) && !have.contains(b);
    assert(o.backup_due(v, b));
    let back = logged_env(o.p, b, o.seq());
    let copy = replica_env(o.p, b, o.seq(), o.op);
    if progress::coming(v.net, back, o.t + 2 * h) {
        progress::lemma_coming_in_time(v, back, o.t + 2 * h);
        progress::lemma_coming_stepped(v.net, back, o.t + 2 * h);
    } else {
        progress::lemma_coming_in_time(v, copy, o.t + h);
        progress::lemma_coming_stepped(v.net, copy, o.t + h);
    }
}

/// An operation that waits for its quorum goes on waiting, closer to it, or commits.
proof fn lemma_collecting_pumped(o: Matter, v: ClusterV)
    requires
        o.around(v),
        o.collecting(v),
        v.pumped().0.net.seq < u64::MAX,
    ensures
        v.pumped().1,
        o.due(v.pumped().0),
{
    lemma_collecting_comes(o, v);
    let (n, d) = v.net.stepped();
    let y = v.pumped().0;
    let at = net::law_step(v.net);
    let h = progress::hop(v.net);
    let s = o.seq();
    let env = d->Some_0;
    let (x, out) = v.with_net(n).delivered(env);
    let m = v.metas[o.p as int];
    let now = o.history.push(o.op);
    truth::lemma_primary(v, o.p);
    soundness::lemma_pumped_sound(v);
    simulation::lemma_sent_all_frame(x.net, out);
    simulation::lemma_stepped_every(v.net, truth::not_op());
    simulation::lemma_stepped_every(v.net, truth::only_op(o.p, o.a, o.req, o.op));
    assert(truth::not_op()(env));
    assert(truth::only_op(o.p, o.a, o.req, o.op)(env));
    assert(replicas::in_turn(v, o.p, env));
    truth::lemma_other_delivered(v, o.p, o.a, o.ns, o.req, o.op);
    replicas::lemma_mirrored_pumped(v, o.p, now);
    let w = choose|w: u64| #[trigger] truth::waits(v, o.p, o.req, o.op, w);
    if w != s {
        assert(m.pending.dom().remove(w).contains(s));
        assert(s < v.metas[o.p as int].applied_seq);
    }
    if y.metas[o.p as int].pending.dom().contains(s) {
        assert(!truth::decided(y, o.p, o.ns, o.req, o.op));
        assert forall|b: u32| #[trigger] o.backups.contains(b) implies o.backup_due(y, b) by {
            lemma_backup_pumped(o, v, b);
        }
        if env.to == NodeId::Meta(o.p) {
            lemma_pending_acks(m, env.from, env.msg, s);
            lemma_below_quorum(m, env.from, env.msg, s);
            simulation::lemma_stepped_every(v.net, replicas::about_log(o.p, v.metas, now));
            assert(replicas::about_log(o.p, v.metas, now)(env));
            if env.msg is MetaReplicateAck {
                assert(y.metas[o.p as int].applied_seq == m.applied_seq);
            } else {
                truth::lemma_namespace_stands(m, env.from, env.msg, o.a);
            }
        }
        simulation::lemma_stepped_every(v.net, o.one_source());
        assert forall|i: int| 0 <= i < out.len() implies o.one_source()(#[trigger] out[i]) by {
            match env.to {
                NodeId::Meta(k) => {
                    if k < v.metas.len() {
                        truth::lemma_replies_kind(v.metas[k as int], env.from, env.msg);
                    }
                },
                _ => {},
            }
        }
        simulation::lemma_sent_all_every(x.net, out, o.one_source());
        assert(o.collecting(y));
    } else {
        lemma_leaves_pending(m, env.from, env.msg, s);
        assert(env.to == NodeId::Meta(o.p));
        assert(m.idx == o.p);
        assert(out[0] == outcome_env(o.p, o.req, MetaResult::Committed));
        progress::lemma_sent_is_coming(x.net, out, 0, o.t + 3 * h);
        assert(o.reporting(y));
    }
}

/// An operation that stays pending is below its quorum.
proof fn lemma_below_quorum(m: MetaV, from: NodeId, msg: MessageV, s: u64)
    requires
        m.buffer.dom().finite(),
        !(msg is MetaOpMsg),
        m.pending.dom().contains(s),
        m.pending[s].acks.len() < m.meta_quorum,
        m.handled(from, msg).0.pending.dom().contains(s),
    ensures
        m.handled(from, msg).0.pending[s].acks.len() < m.handled(from, msg).0.meta_quorum,
{
    if let MessageV::MetaReplicate { seq, op } = msg {
        metadata::lemma_caught_up(MetaV { buffer: m.buffer.insert(seq, op), ..m });
    }
}

/// An operation stops being pending only by committing.
proof fn lemma_leaves_pending(m: MetaV, from: NodeId, msg: MessageV, s: u64)
    requires
        m.buffer.dom().finite(),
        !(msg is MetaOpMsg),
        m.pending.dom().contains(s),
    ensures
        !m.handled(from, msg).0.pending.dom().contains(s) ==> m.handled(from, msg).1 == seq![
            wire::Envelope {
                from: NodeId::Meta(m.idx),
                to: m.pending[s].client,
                msg: MessageV::MetaCommitted {
                    req_id: m.pending[s].req_id,
                    result: MetaResult::Committed,
                },
            },
        ],
{
    if let MessageV::MetaReplicate { seq, op } = msg {
        metadata::lemma_caught_up(MetaV { buffer: m.buffer.insert(seq, op), ..m });
    }
}

/// The outcome on its way stays on its way or reaches the client.
proof fn lemma_reporting_pumped(o: Matter, v: ClusterV)
    requires
        o.around(v),
        o.reporting(v),
        v.inbox.len() == 0,
    ensures
        v.pumped().1,
        o.due(v.pumped().0),
{
    let (n, d) = v.net.stepped();
    let y = v.pumped().0;
    let at = net::law_step(v.net);
    let h = progress::hop(v.net);
    truth::lemma_primary(v, o.p);
    let r = choose|r: MetaResult|
        progress::coming(v.net, #[trigger] outcome_env(o.p, o.req, r), o.t + 3 * h);
    let e = outcome_env(o.p, o.req, r);
    progress::lemma_coming_in_time(v, e, o.t + 3 * h);
    progress::lemma_coming_stepped(v.net, e, o.t + 3 * h);
    let env = d->Some_0;
    let (x, out) = v.with_net(n).delivered(env);
    simulation::lemma_sent_all_frame(x.net, out);
    if env == e {
        assert(tells(y.inbox[0], o.req));
        assert(o.told(y));
    } else {
        progress::lemma_coming_sends(x.net, out, e, o.t + 3 * h);
        assert(progress::coming(
            y.net,
            outcome_env(o.p, o.req, r),
            o.t + 3 * progress::hop(y.net),
        ));
        assert(o.reporting(y));
    }
}

proof fn lemma_told_is_found(inbox: Seq<Letter>, req: u64, n: nat, i: int)
    requires
        0 <= i < n <= inbox.len(),
        tells(inbox[i], req),
    ensures
        protocol::commit_among(inbox, req, n) is Some,
    decreases n,
{
    if i < n - 1 {
        lemma_told_is_found(inbox, req, (n - 1) as nat, i);
    }
}

proof fn lemma_around_stays(o: Matter, v: ClusterV)
    requires
        o.around(v),
    ensures
        o.around(v.pumped().0),
{
    let y = v.pumped().0;
    let at = net::law_step(v.net);
    soundness::lemma_pumped_sound(v);
    truth::lemma_primary(v, o.p);
    truth::lemma_underway_pumped(v, o.p, o.a, o.ns, o.req, o.op);
    simulation::lemma_stepped_every(v.net, truth::only_op(o.p, o.a, o.req, o.op));
    if let Some(env) = v.net.stepped().1 {
        if env.to == NodeId::Meta(o.p) && !(env.msg is MetaOpMsg) {
            truth::lemma_keeps_pace(v.metas[o.p as int], env.from, env.msg);
        }
    }
}

proof fn lemma_due_frame(o: Matter, v: ClusterV)
    requires
        o.around(v),
        o.due(v),
        !o.told(v),
    ensures
        o.around(v.inbox_taken()),
        o.due(v.inbox_taken()),
{
    let w = v.inbox_taken();
    soundness::lemma_inbox_taken_sound(v);
    truth::lemma_underway_taken(v, o.p, o.a, o.ns, o.req, o.op);
    if o.sending(v) {
        if o.allowed() {
            replicas::lemma_mirrored_frame(v, w, o.p, o.history);
        }
        assert(o.sending(w));
    } else if o.collecting(v) {
        replicas::lemma_mirrored_frame(v, w, o.p, o.history.push(o.op));
        assert forall|b: u32| #[trigger] o.backups.contains(b) implies o.backup_due(w, b) by {
            assert(o.backup_due(v, b));
        }
        assert(o.collecting(w));
    } else {
        let r = choose|r: MetaResult|
            progress::coming(
                v.net,
                #[trigger] outcome_env(o.p, o.req, r),
                o.t + 3 * progress::hop(v.net),
            );
        assert(progress::coming(
            w.net,
            outcome_env(o.p, o.req, r),
            o.t + 3 * progress::hop(w.net),
        ));
        assert(o.reporting(w));
    }
}

proof fn lemma_outcome_comes(o: Matter, v: ClusterV, deadline: u64)
    requires
        o.around(v),
        o.due(v),
        o.t + 3 * progress::hop(v.net) < deadline,
        v.commit_awaited(o.req, deadline).0.net.seq < u64::MAX,
    ensures
        v.commit_awaited(o.req, deadline).1 is Some,
    decreases u64::MAX - v.net.seq, v.net.queue.len(),
{
    let w = v.inbox_taken();
    let found = protocol::commit_among(v.inbox, o.req, v.inbox.len());
    if o.told(v) {
        let i = choose|i: int| 0 <= i < v.inbox.len() && tells(#[trigger] v.inbox[i], o.req);
        lemma_told_is_found(v.inbox, o.req, v.inbox.len(), i);
    } else if found is None {
        lemma_due_frame(o, v);
        let y = w.pumped().0;
        soundness::lemma_pumped_sound(w);
        simulation::lemma_pump_progress(w);
        durability::lemma_commit_awaited(y, o.req, deadline);
        lemma_due_in_time(o, w);
        if o.sending(w) {
            lemma_sending_pumped(o, w);
        } else if o.collecting(w) {
            lemma_collecting_pumped(o, w);
        } else {
            lemma_reporting_pumped(o, w);
        }
        lemma_around_stays(o, w);
        lemma_outcome_comes(o, y, deadline);
    }
}

proof fn lemma_due_in_time(o: Matter, v: ClusterV)
    requires
        o.around(v),
        o.due(v),
        v.inbox.len() == 0,
    ensures
        v.net.clock <= o.t + 3 * progress::hop(v.net),
{
    if o.sending(v) {
        progress::lemma_coming_in_time(v, op_env(o.p, o.req, o.op), o.t);
    } else if o.collecting(v) {
        lemma_collecting_comes(o, v);
    } else {
        let r = choose|r: MetaResult|
            progress::coming(
                v.net,
                #[trigger] outcome_env(o.p, o.req, r),
                o.t + 3 * progress::hop(v.net),
            );
        progress::lemma_coming_in_time(
            v,
            outcome_env(o.p, o.req, r),
            o.t + 3 * progress::hop(v.net),
        );
    }
}

/// A primary whose numbers are those of the history, with enough backups that it can reach and
/// knows, and that are up to date, for an operation to commit.
pub open spec fn can_commit(v: ClusterV, p: u32, history: Seq<MetaOpV>, backups: Set<u32>) -> bool {
    &&& v.metas[p as int].next_seq == history.len()
    &&& backups.finite()
    &&& backups.len() + 1 >= v.metas[p as int].meta_quorum
    &&& forall|b: u32| #[trigger]
        backups.contains(b) ==> {
            &&& b != p
            &&& b < v.metas.len()
            &&& v.net.connected(NodeId::Meta(p), NodeId::Meta(b))
            &&& v.metas[b as int].applied_seq == history.len()
            &&& v.metas[p as int].peers.contains(b)
        }
}

/// On a quiet network, with time for four messages and enough backups, an operation that the
/// namespace allows commits, and one that it does not allow is refused.
pub proof fn law_operations_succeed(
    v: ClusterV,
    p: u32,
    history: Seq<MetaOpV>,
    backups: Set<u32>,
    op: MetaOpV,
    err_path: Seq<char>,
)
    requires
        soundness::sound(v),
        replicas::steady(v, p, history),
        can_commit(v, p, history, backups),
        history.len() < u64::MAX,
        progress::quiet(v.net),
        progress::reaches_meta(v.net, p),
        4 * progress::hop(v.net) < v.opts.op_deadline,
        progress::room_left(v.meta_applied(op, err_path).0),
    ensures
        v.meta_applied(op, err_path).1 == (match truth::names(v, p).validated(op) {
            Ok(_) => Ok::<(), ErrorV>(()),
            Err(c) => Err::<(), ErrorV>(message::meta_error(c, err_path)),
        }),
{
    truth::lemma_primary(v, p);
    durability::law_meta_operation_keeps_sound(v, op, err_path);
    let req = v.next_req;
    let msg = MessageV::MetaOpMsg { req_id: req, op };
    let w = v.asked(p, msg);
    let o = Matter {
        p,
        a: v.metas[p as int].applied_seq,
        ns: truth::names(v, p),
        req,
        op,
        history,
        backups,
        t: v.net.clock as nat + progress::hop(v.net),
    };
    truth::lemma_operation_sent(v, p, op);
    durability::lemma_asked(v, p, msg);
    durability::lemma_commit_awaited(w, req, w.deadline());
    let env = op_env(p, req, op);
    progress::lemma_one_sent(v.net, env, o.t);
    replicas::lemma_mirrored_asked(v, p, history, msg);
    assert(o.around(w));
    assert(o.sending(w));
    lemma_outcome_comes(o, w, w.deadline());
    truth::lemma_commit_is_true(w, p, o.a, o.ns, req, op, w.deadline());
}

/// On a quiet network, with time for four messages, an operation that the namespace does not
/// allow is refused, however many metadata nodes are up.
pub proof fn law_refusals_are_answered(v: ClusterV, p: u32, op: MetaOpV, err_path: Seq<char>)
    requires
        soundness::sound(v),
        truth::idle(v, p),
        truth::names(v, p).validated(op) is Err,
        progress::quiet(v.net),
        progress::reaches_meta(v.net, p),
        4 * progress::hop(v.net) < v.opts.op_deadline,
        progress::room_left(v.meta_applied(op, err_path).0),
    ensures
        v.meta_applied(op, err_path).1 == Err::<(), ErrorV>(
            message::meta_error(truth::names(v, p).validated(op)->Err_0, err_path),
        ),
{
    truth::lemma_primary(v, p);
    durability::law_meta_operation_keeps_sound(v, op, err_path);
    let req = v.next_req;
    let msg = MessageV::MetaOpMsg { req_id: req, op };
    let w = v.asked(p, msg);
    let o = Matter {
        p,
        a: v.metas[p as int].applied_seq,
        ns: truth::names(v, p),
        req,
        op,
        history: seq![],
        backups: Set::empty(),
        t: v.net.clock as nat + progress::hop(v.net),
    };
    truth::lemma_operation_sent(v, p, op);
    durability::lemma_asked(v, p, msg);
    durability::lemma_commit_awaited(w, req, w.deadline());
    progress::lemma_one_sent(v.net, op_env(p, req, op), o.t);
    assert(o.around(w));
    assert(o.sending(w));
    lemma_outcome_comes(o, w, w.deadline());
    truth::lemma_commit_is_true(w, p, o.a, o.ns, req, op, w.deadline());
}

/// An operation on its way reaches the primary in time.
proof fn lemma_operation_arrives(
    v: ClusterV,
    p: u32,
    a: u64,
    ns: NsV,
    req: u64,
    op: MetaOpV,
    t: nat,
    deadline: u64,
)
    requires
        soundness::sound(v),
        progress::quiet(v.net),
        progress::reaches_meta(v.net, p),
        truth::underway(v, p, a, ns, req, op),
        truth::waiting(v, p, ns, req, op) || truth::decided(v, p, ns, req, op) || (truth::unhandled(
            v,
            p,
            ns,
            req,
        ) && progress::coming(v.net, op_env(p, req, op), t) && v.metas[p as int].next_seq
            < u64::MAX),
        t < deadline,
    ensures
        ({
            let z = v.commit_awaited(req, deadline).0;
            truth::waiting(z, p, ns, req, op) || truth::decided(z, p, ns, req, op)
        }),
    decreases u64::MAX - v.net.seq, v.net.queue.len(),
{
    let w = v.inbox_taken();
    let y = w.pumped().0;
    let e = op_env(p, req, op);
    let at = net::law_step(w.net);
    soundness::lemma_inbox_taken_sound(v);
    truth::lemma_underway_taken(v, p, a, ns, req, op);
    truth::lemma_primary_stays(v, w);
    truth::lemma_primary(w, p);
    soundness::lemma_pumped_sound(w);
    simulation::lemma_pump_progress(w);
    truth::lemma_underway_pumped(w, p, a, ns, req, op);
    let early = !truth::waiting(w, p, ns, req, op) && !truth::decided(w, p, ns, req, op);
    if early {
        truth::lemma_commit_among(v.inbox, req, v.inbox.len(), None);
        progress::lemma_coming_in_time(w, e, t);
        progress::lemma_coming_stepped(w.net, e, t);
    }
    if let Some(env) = w.net.stepped().1 {
        let (x, out) = w.with_net(w.net.stepped().0).delivered(env);
        simulation::lemma_sent_all_frame(x.net, out);
        if env.msg is MetaOpMsg {
            truth::lemma_op_delivered(w, p, a, ns, req, op);
            if !early {
                // An operation on its way is not one that was dealt with.
                simulation::lemma_stepped_every(w.net, truth::not_op());
                assert(truth::not_op()(env));
            }
        } else {
            truth::lemma_other_delivered(w, p, a, ns, req, op);
            if early {
                progress::lemma_coming_sends(x.net, out, e, t);
                if env.to == NodeId::Meta(p) {
                    truth::lemma_keeps_pace(w.metas[p as int], env.from, env.msg);
                }
            }
        }
    } else {
        truth::lemma_underway_lost(w, p, a, ns, req, op);
    }
    if protocol::commit_among(v.inbox, req, v.inbox.len()) is None && w.net.clock < deadline
        && w.pumped().1 {
        lemma_operation_arrives(y, p, a, ns, req, op, t, deadline);
    }
}

/// A primary whose numbers lag behind the history, as one does that was promoted after others
/// had committed operations, commits nothing: on a quiet network an operation that the namespace
/// allows stays without an answer, one that it does not allow is refused, and the history stays as
/// it is.
pub proof fn law_late_numbers_commit_nothing(
    v: ClusterV,
    p: u32,
    history: Seq<MetaOpV>,
    op: MetaOpV,
    err_path: Seq<char>,
)
    requires
        soundness::sound(v),
        replicas::steady(v, p, history),
        v.metas[p as int].next_seq < history.len(),
        progress::quiet(v.net),
        progress::reaches_meta(v.net, p),
        4 * progress::hop(v.net) < v.opts.op_deadline,
        progress::room_left(v.meta_applied(op, err_path).0),
    ensures
        replicas::steady(v.meta_applied(op, err_path).0, p, history),
        truth::names(v.meta_applied(op, err_path).0, p) == truth::names(v, p),
        v.meta_applied(op, err_path).1 == (match truth::names(v, p).validated(op) {
            Ok(_) => Err::<(), ErrorV>(ErrorV::MetadataUnavailable),
            Err(c) => Err::<(), ErrorV>(message::meta_error(c, err_path)),
        }),
{
    let req = v.next_req;
    let msg = MessageV::MetaOpMsg { req_id: req, op };
    let w = v.asked(p, msg);
    let a = v.metas[p as int].applied_seq;
    let ns = truth::names(v, p);
    let t = v.net.clock as nat + progress::hop(v.net);
    truth::lemma_primary(v, p);
    truth::law_operations_take_effect(v, p, op, err_path);
    durability::law_meta_operation_keeps_sound(v, op, err_path);
    truth::lemma_operation_sent(v, p, op);
    durability::lemma_asked(v, p, msg);
    durability::lemma_commit_awaited(w, req, w.deadline());
    replicas::lemma_history_is_counted(v, p, history);
    progress::lemma_one_sent(v.net, op_env(p, req, op), t);
    lemma_operation_arrives(w, p, a, ns, req, op, t, w.deadline());
    replicas::lemma_lost_is_steady(v, p, history, op, w.deadline());
    if ns.validated(op) is Err {
        law_refusals_are_answered(v, p, op, err_path);
    }
}

/// On a quiet network, with time for four messages and enough backups, directories are made,
/// paths deleted and subtrees renamed exactly when the namespace allows it.
pub proof fn law_namespace_operations_succeed(
    v: ClusterV,
    p: u32,
    history: Seq<MetaOpV>,
    backups: Set<u32>,
    at: Seq<char>,
    to: Seq<char>,
)
    requires
        soundness::sound(v),
        replicas::steady(v, p, history),
        can_commit(v, p, history, backups),
        history.len() < u64::MAX,
        progress::quiet(v.net),
        progress::reaches_meta(v.net, p),
        4 * progress::hop(v.net) < v.opts.op_deadline,
        path::normal(at),
        path::normal(to),
        progress::room_left(v.made_dir(at).0),
        progress::room_left(v.deleted(at).0),
        progress::room_left(v.renamed(at, to).0),
    ensures
        v.made_dir(at).1 is Ok <==> truth::names(v, p).validated(
            MetaOpV::Mkdir { path: at },
        ) is Ok,
        v.deleted(at).1 is Ok <==> truth::names(v, p).validated(MetaOpV::Delete { path: at }) is Ok,
        v.renamed(at, to).1 is Ok <==> truth::names(v, p).validated(
            MetaOpV::Rename { from: at, to },
        ) is Ok,
{
    law_operations_succeed(v, p, history, backups, MetaOpV::Mkdir { path: at }, at);
    law_operations_succeed(v, p, history, backups, MetaOpV::Delete { path: at }, at);
    law_operations_succeed(v, p, history, backups, MetaOpV::Rename { from: at, to }, to);
}

/// Deliveries in a steady cluster keep the backups up to date.
pub proof fn lemma_can_commit_pumped(
    v: ClusterV,
    p: u32,
    history: Seq<MetaOpV>,
    backups: Set<u32>,
)
    requires
        soundness::sound(v),
        replicas::steady(v, p, history),
        can_commit(v, p, history, backups),
    ensures
        can_commit(v.pumped().0, p, history, backups),
{
    let y = v.pumped().0;
    let a = v.metas[p as int].applied_seq;
    truth::lemma_primary(v, p);
    soundness::lemma_pumped_sound(v);
    replicas::lemma_steady_pumped(v, p, history);
    simulation::lemma_stepped_every(v.net, truth::harmless(p, a));
    if let Some(env) = v.net.stepped().1 {
        assert(truth::harmless(p, a)(env));
        if env.to == NodeId::Meta(p) {
            truth::lemma_keeps_pace(v.metas[p as int], env.from, env.msg);
        }
        assert forall|b: u32| #[trigger] backups.contains(b) implies {
            &&& b != p
            &&& b < y.metas.len()
            &&& y.net.connected(NodeId::Meta(p), NodeId::Meta(b))
            &&& y.metas[b as int].applied_seq == history.len()
            &&& y.metas[p as int].peers.contains(b)
        } by {
            assert(replicas::mirrors(y.metas[b as int], history));
            if env.to == NodeId::Meta(b) {
                truth::lemma_keeps_pace(v.metas[b as int], env.from, env.msg);
            }
        }
    }
}

/// Waiting for acknowledgements keeps the backups up to date.
pub proof fn lemma_can_commit_acks(
    v: ClusterV,
    p: u32,
    history: Seq<MetaOpV>,
    backups: Set<u32>,
    acks: Map<Seq<u8>, Set<u32>>,
    ids: Seq<Seq<u8>>,
    quorum: nat,
    deadline: u64,
)
    requires
        soundness::sound(v),
        replicas::steady(v, p, history),
        can_commit(v, p, history, backups),
    ensures
        can_commit(v.acks_awaited(acks, ids, quorum, deadline).0, p, history, backups),
    decreases u64::MAX - v.net.seq, v.net.queue.len(),
{
    let w = v.inbox_taken();
    let now = protocol::acks_after(acks, v.inbox, v.inbox.len());
    soundness::lemma_inbox_taken_sound(v);
    replicas::lemma_steady_frame(v, w, p, history);
    soundness::lemma_pumped_sound(w);
    simulation::lemma_pump_progress(w);
    replicas::lemma_steady_pumped(w, p, history);
    lemma_can_commit_pumped(w, p, history, backups);
    if !protocol::quorum_met(now, ids, quorum) && w.net.clock < deadline && w.pumped().1 {
        lemma_can_commit_acks(
            w.pumped().0,
            p,
            history,
            backups,
            now,
            ids,
            quorum,
            deadline,
        );
    }
}

/// Waiting for shards to be acknowledged keeps the backups up to date.
pub proof fn lemma_can_commit_groups(
    v: ClusterV,
    p: u32,
    history: Seq<MetaOpV>,
    backups: Set<u32>,
    acked: Set<Seq<u8>>,
    groups: Seq<Seq<ChunkV>>,
    quorum: nat,
    deadline: u64,
)
    requires
        soundness::sound(v),
        replicas::steady(v, p, history),
        can_commit(v, p, history, backups),
    ensures
        can_commit(v.groups_awaited(acked, groups, quorum, deadline).0, p, history, backups),
    decreases u64::MAX - v.net.seq, v.net.queue.len(),
{
    let w = v.inbox_taken();
    let now = protocol::acked_after(acked, v.inbox, v.inbox.len());
    soundness::lemma_inbox_taken_sound(v);
    replicas::lemma_steady_frame(v, w, p, history);
    soundness::lemma_pumped_sound(w);
    simulation::lemma_pump_progress(w);
    replicas::lemma_steady_pumped(w, p, history);
    lemma_can_commit_pumped(w, p, history, backups);
    if !protocol::groups_met(groups, now, quorum) && w.net.clock < deadline && w.pumped().1 {
        lemma_can_commit_groups(
            w.pumped().0,
            p,
            history,
            backups,
            now,
            groups,
            quorum,
            deadline,
        );
    }
}

/// A fresh cluster with a metadata quorum can commit.
pub proof fn law_fresh_cluster_can_commit(opts: Options, seed: u64) -> (backups: Set<u32>)
    requires
        opts.wf(),
        0 < opts.meta_count,
        opts.meta_quorum <= opts.meta_count,
    ensures
        can_commit(cluster::unsettled(opts, seed).settled(), 0, seq![], backups),
{
    let v = cluster::unsettled(opts, seed).settled();
    replicas::law_fresh_cluster_is_steady(opts, seed);
    replicas::lemma_upto(opts.meta_count);
    let all = Set::new(|i: u32| i < opts.meta_count as nat);
    let backups = all.remove(0);
    let h: Seq<MetaOpV> = seq![];
    truth::lemma_primary(v, 0);
    let peers = simulation::indices(opts.meta_count);
    assert forall|b: u32| #[trigger] backups.contains(b) implies {
        &&& b != 0
        &&& b < v.metas.len()
        &&& v.net.connected(NodeId::Meta(0), NodeId::Meta(b))
        &&& v.metas[b as int].applied_seq == h.len()
        &&& v.metas[0].peers.contains(b)
    } by {
        assert(all.contains(b));
        assert(replicas::mirrors(v.metas[b as int], h));
        assert(peers[b as int] == b);
    }
    assert(all.contains(0));
    backups
}

} // verus!

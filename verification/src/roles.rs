//! What every node does with every message, who it answers, and how the metadata roles are
//! settled.

use crate::census;
use crate::hash;
use crate::message::{MessageV, MetaOpV, MetaResult, NodeId, QueryV};
use crate::metadata::{self, LogEntryV, MetaV};
use crate::namespace::NsV;
use crate::ordmap;
use crate::placement;
use crate::simulation::{self, ClusterV, Letter};
use crate::storagenode::StorageV;
use crate::wire;
use vstd::prelude::*;

verus! {

/// Whether the only message sent is this one.
pub open spec fn sends_only(
    out: Seq<wire::Envelope>,
    from: NodeId,
    to: NodeId,
    msg: MessageV,
) -> bool {
    out.len() == 1 && out[0].from == from && out[0].to == to && out[0].msg == msg
}

/// A storage node that is handed a chunk, by a client or by another node, keeps it under its id
/// when the bytes match the id, and stays as it is when they do not. It keeps all else. A client
/// hears of it exactly when the node then holds a chunk under the id.
pub proof fn law_storage_node_keeps_chunks(
    n: StorageV,
    from: NodeId,
    id: Seq<u8>,
    data: Seq<u8>,
    other: Seq<u8>,
)
    ensures
        ({
            let store = MessageV::StoreChunk { id, data };
            let ship = MessageV::Replicate { id, data };
            let w = n.after(store);
            let good = hash::digest(data) == id;
            &&& n.after(ship) == w
            &&& w.idx == n.idx
            &&& good ==> w.store.dom().contains(id) && w.store[id] == data
            &&& !good ==> w == n
            &&& other != id ==> w.store.dom().contains(other) == n.store.dom().contains(other)
                && w.store[other] == n.store[other]
            &&& good || n.store.dom().contains(id) ==> sends_only(
                n.replies(from, store),
                NodeId::Storage(n.idx),
                from,
                MessageV::StoreAck { id },
            )
            &&& !good && !n.store.dom().contains(id) ==> n.replies(from, store).len() == 0
            &&& n.replies(from, ship).len() == 0
        }),
{
}

/// A storage node that is asked for a chunk sends what it holds under the id to who asked, or that
/// it holds nothing, and one that is ordered to ship a chunk sends it to the node that should have
/// it, if it holds it. Neither changes what it holds.
pub proof fn law_storage_node_gives_chunks(n: StorageV, from: NodeId, id: Seq<u8>, dest: u32)
    ensures
        ({
            let fetch = MessageV::FetchChunk { id };
            let order = MessageV::ReplicateOrder { id, dest };
            let me = NodeId::Storage(n.idx);
            let held = n.store.dom().contains(id);
            &&& n.after(fetch) == n
            &&& n.after(order) == n
            &&& held ==> sends_only(
                n.replies(from, fetch),
                me,
                from,
                MessageV::ChunkData { id, data: Some(n.store[id]) },
            )
            &&& !held ==> sends_only(
                n.replies(from, fetch),
                me,
                from,
                MessageV::ChunkData { id, data: None },
            )
            &&& held ==> sends_only(
                n.replies(from, order),
                me,
                NodeId::Storage(dest),
                MessageV::Replicate { id, data: n.store[id] },
            )
            &&& !held ==> n.replies(from, order).len() == 0
        }),
{
}

/// Any other message means nothing to a storage node.
pub proof fn law_storage_node_ignores_the_rest(n: StorageV, from: NodeId, msg: MessageV)
    requires
        !(msg is StoreChunk || msg is Replicate || msg is FetchChunk || msg is ReplicateOrder),
    ensures
        n.after(msg) == n,
        n.replies(from, msg).len() == 0,
{
}

/// A metadata node answers a query from its namespace, under the number that it was asked with,
/// to who asked, and stays as it is.
pub proof fn law_meta_node_answers(m: MetaV, from: NodeId, req_id: u64, q: QueryV)
    ensures
        ({
            let (w, out) = m.handled(from, MessageV::MetaQueryMsg { req_id, q });
            &&& w == m
            &&& sends_only(
                out,
                NodeId::Meta(m.idx),
                from,
                MessageV::MetaQueryResp { req_id, result: m.ns.answered(q) },
            )
        }),
{
}

/// Messages between storage nodes and clients, and answers of metadata nodes, mean nothing to a
/// metadata node.
pub proof fn law_meta_node_ignores_the_rest(m: MetaV, from: NodeId, msg: MessageV)
    requires
        !(msg is MetaQueryMsg || msg is MetaOpMsg || msg is MetaReplicate || msg is MetaReplicateAck
            || msg is Heartbeat),
    ensures
        m.handled(from, msg).0 == m,
        m.handled(from, msg).1.len() == 0,
{
}

/// Whether a participant is one of some metadata nodes other than the one at hand.
pub open spec fn is_other(me: u32, peers: Seq<u32>, x: NodeId) -> bool {
    x matches NodeId::Meta(i) && i != me && peers.contains(i)
}

/// An operation that is not allowed is refused with its code, to the client that sent it, and
/// changes nothing. One that is allowed takes the next sequence number. Where one node may commit
/// on its own, it does so at once. Elsewhere it changes no namespace yet, waits with its own
/// acknowledgement, and goes to every other peer and nobody else.
pub proof fn law_primary_takes_operations(
    m: MetaV,
    from: NodeId,
    req_id: u64,
    op: MetaOpV,
    x: wire::Envelope,
)
    requires
        m.next_seq < u64::MAX,
    ensures
        ({
            let (w, out) = m.handled(from, MessageV::MetaOpMsg { req_id, op });
            let me = NodeId::Meta(m.idx);
            &&& m.ns.validated(op) matches Err(c) ==> w == m && sends_only(
                out,
                me,
                from,
                MessageV::MetaCommitted { req_id, result: MetaResult::Rejected(c) },
            )
            &&& m.ns.validated(op) is Ok ==> w.next_seq == m.next_seq + 1
            &&& m.ns.validated(op) is Ok && m.meta_quorum <= 1 ==> {
                &&& w.ns == m.ns.applied(op)
                &&& w.log == m.log.push(LogEntryV { seq: m.next_seq, op })
                &&& w.applied_seq == m.next_seq + 1
                &&& w.pending == m.pending
                &&& sends_only(
                    out,
                    me,
                    from,
                    MessageV::MetaCommitted { req_id, result: MetaResult::Committed },
                )
            }
            &&& m.ns.validated(op) is Ok && m.meta_quorum > 1 ==> {
                &&& w.ns == m.ns
                &&& w.log == m.log
                &&& w.applied_seq == m.applied_seq
                &&& w.pending.dom() == m.pending.dom().insert(m.next_seq)
                &&& w.pending[m.next_seq].req_id == req_id
                &&& w.pending[m.next_seq].client == from
                &&& w.pending[m.next_seq].op == op
                &&& forall|i: u32| #[trigger] w.pending[m.next_seq].acks.contains(i) <==> i == m.idx
                &&& out.contains(x) <==> x.from == me && x.msg == (MessageV::MetaReplicate {
                    seq: m.next_seq,
                    op,
                }) && is_other(m.idx, m.peers, x.to)
            }
        }),
{
    lemma_replication(m.idx, m.peers, m.next_seq, op, m.peers.len(), x);
    assert(m.peers.take(m.peers.len() as int) =~= m.peers);
}

proof fn lemma_replication(
    idx: u32,
    peers: Seq<u32>,
    seq: u64,
    op: MetaOpV,
    n: nat,
    x: wire::Envelope,
)
    requires
        n <= peers.len(),
    ensures
        metadata::replication(idx, peers, seq, op, n).contains(x) <==> x.from == NodeId::Meta(idx)
            && x.msg == (MessageV::MetaReplicate { seq, op }) && is_other(
            idx,
            peers.take(n as int),
            x.to,
        ),
        metadata::replication(idx, peers, seq, op, n).len() <= n,
    decreases n,
{
    if n > 0 {
        lemma_replication(idx, peers, seq, op, (n - 1) as nat, x);
        let before = metadata::replication(idx, peers, seq, op, (n - 1) as nat);
        let p = peers[n - 1];
        let e = wire::Envelope {
            from: NodeId::Meta(idx),
            to: NodeId::Meta(p),
            msg: MessageV::MetaReplicate { seq, op },
        };
        crate::net::lemma_push_contains(before, e, x);
        assert(peers.take(n as int) =~= peers.take(n - 1).push(p));
        if let NodeId::Meta(i) = x.to {
            crate::net::lemma_push_contains(peers.take(n - 1), p, i);
        }
    } else {
        assert(peers.take(0).len() == 0);
    }
}

/// An acknowledgement by another metadata node counts once for that node; one by anybody else
/// counts for nobody. Once as many have acknowledged as the quorum asks for, the operation is
/// applied, logged, no longer waited for, and its client is told, under its number. Until then
/// nothing but the count changes, and nobody is told.
pub proof fn law_primary_counts_acknowledgements(m: MetaV, from: NodeId, seq: u64, i: u32)
    requires
        m.pending.dom().contains(seq),
        seq < u64::MAX,
    ensures
        ({
            let (w, out) = m.handled(from, MessageV::MetaReplicateAck { seq });
            let p = m.pending[seq];
            let acks = match from {
                NodeId::Meta(j) => p.acks.insert(j),
                _ => p.acks,
            };
            &&& acks.len() >= m.meta_quorum ==> {
                &&& w.ns == m.ns.applied(p.op)
                &&& w.log == m.log.push(LogEntryV { seq, op: p.op })
                &&& w.pending == m.pending.remove(seq)
                &&& w.applied_seq >= seq + 1
                &&& w.applied_seq == seq + 1 || w.applied_seq == m.applied_seq
                &&& w.applied_seq >= m.applied_seq
                &&& sends_only(
                    out,
                    NodeId::Meta(m.idx),
                    p.client,
                    MessageV::MetaCommitted { req_id: p.req_id, result: MetaResult::Committed },
                )
            }
            &&& acks.len() < m.meta_quorum ==> {
                &&& w.ns == m.ns
                &&& w.log == m.log
                &&& w.applied_seq == m.applied_seq
                &&& w.pending.dom() == m.pending.dom()
                &&& w.pending[seq].op == p.op
                &&& w.pending[seq].client == p.client
                &&& w.pending[seq].req_id == p.req_id
                &&& w.pending[seq].acks.contains(i) <==> p.acks.contains(i) || from == NodeId::Meta(
                    i,
                )
                &&& out.len() == 0
            }
            &&& w.next_seq == m.next_seq
            &&& w.buffer == m.buffer
            &&& w.holders == m.holders
        }),
{
    assert(m.acks_with(from, seq) == match from {
        NodeId::Meta(j) => m.pending[seq].acks.insert(j),
        _ => m.pending[seq].acks,
    });
    let w = m.handled(from, MessageV::MetaReplicateAck { seq }).0;
    assert(w.pending.dom() =~= m.pending.dom() || w.pending == m.pending.remove(seq));
}

/// A namespace after some operations.
pub open spec fn in_turn(ns: NsV, ops: Seq<MetaOpV>) -> NsV
    decreases ops.len(),
{
    if ops.len() == 0 {
        ns
    } else {
        in_turn(ns, ops.drop_last()).applied(ops.last())
    }
}

proof fn lemma_in_turn_front(ns: NsV, op: MetaOpV, ops: Seq<MetaOpV>)
    ensures
        in_turn(ns, seq![op] + ops) == in_turn(ns.applied(op), ops),
    decreases ops.len(),
{
    let all = seq![op] + ops;
    if ops.len() == 0 {
        assert(all.drop_last() =~= seq![]);
        assert(in_turn(ns, all.drop_last()) == ns);
        assert(all.last() == op);
    } else {
        lemma_in_turn_front(ns, op, ops.drop_last());
        assert(all.drop_last() =~= seq![op] + ops.drop_last());
        assert(all.last() == ops.last());
    }
}

proof fn lemma_caught_up(m: MetaV)
    requires
        m.buffer.dom().finite(),
    ensures
        ({
            let (w, seqs) = m.caught_up();
            let n = seqs.len();
            let ops = Seq::new(n, |i: int| m.buffer[(m.applied_seq + i) as u64]);
            &&& w.applied_seq == m.applied_seq + n
            &&& forall|i: int|
                0 <= i < n ==> #[trigger] seqs[i] == m.applied_seq + i && m.buffer.dom().contains(
                    seqs[i],
                )
            &&& w.applied_seq < u64::MAX ==> !m.buffer.dom().contains(w.applied_seq)
            &&& w.ns == in_turn(m.ns, ops)
            &&& w.log == m.log + Seq::new(
                n,
                |i: int| LogEntryV { seq: (m.applied_seq + i) as u64, op: ops[i] },
            )
            &&& forall|s: u64| #[trigger]
                w.buffer.dom().contains(s) <==> m.buffer.dom().contains(s) && !(m.applied_seq <= s
                    < m.applied_seq + n)
            &&& w == (MetaV {
                ns: w.ns,
                log: w.log,
                applied_seq: w.applied_seq,
                buffer: w.buffer,
                ..m
            })
        }),
    decreases m.buffer.dom().len(),
{
    let (w, seqs) = m.caught_up();
    let n = seqs.len();
    let ops = Seq::new(n, |i: int| m.buffer[(m.applied_seq + i) as u64]);
    let entries = Seq::new(n, |i: int| LogEntryV { seq: (m.applied_seq + i) as u64, op: ops[i] });
    if m.buffer.dom().contains(m.applied_seq) && m.applied_seq < u64::MAX {
        let s = m.applied_seq;
        let next = MetaV {
            buffer: m.buffer.remove(s),
            applied_seq: (s + 1) as u64,
            ..m.logged(s, m.buffer[s])
        };
        assert(next.buffer.dom() =~= m.buffer.dom().remove(s));
        lemma_caught_up(next);
        let (w2, seqs2) = next.caught_up();
        assert(seqs == seq![s] + seqs2);
        assert(w == w2);
        let ops2 = Seq::new(seqs2.len(), |i: int| next.buffer[(next.applied_seq + i) as u64]);
        assert forall|i: int| 0 <= i < n implies #[trigger] seqs[i] == m.applied_seq + i
            && m.buffer.dom().contains(seqs[i]) by {
            if i > 0 {
                assert(seqs[i] == seqs2[i - 1]);
                assert(next.buffer.dom().contains(seqs2[i - 1]));
            }
        }
        assert(ops =~= seq![m.buffer[s]] + ops2) by {
            assert forall|i: int| 0 <= i < n implies #[trigger] ops[i] == (seq![m.buffer[s]]
                + ops2)[i] by {
                if i > 0 {
                    assert(seqs2[i - 1] == next.applied_seq + (i - 1));
                    assert(next.buffer.dom().contains(seqs2[i - 1]));
                    assert(ops2[i - 1] == next.buffer[(s + 1 + (i - 1)) as u64]);
                }
            }
        }
        lemma_in_turn_front(m.ns, m.buffer[s], ops2);
        let entries2 = Seq::new(
            seqs2.len(),
            |i: int| LogEntryV { seq: (next.applied_seq + i) as u64, op: ops2[i] },
        );
        assert(next.log + entries2 =~= m.log + entries) by {
            assert(entries.len() == entries2.len() + 1);
            assert forall|i: int| 0 <= i < entries2.len() implies #[trigger] entries2[i]
                == entries[i + 1] by {
                assert(ops[i + 1] == ops2[i]);
            }
            assert(entries[0] == (LogEntryV { seq: s, op: m.buffer[s] }));
            let a = next.log + entries2;
            let b = m.log + entries;
            assert forall|i: int| 0 <= i < a.len() implies #[trigger] a[i] == b[i] by {
                if i > m.log.len() {
                    assert(a[i] == entries2[i - m.log.len() - 1]);
                }
            }
        }
    } else {
        assert(ops =~= seq![]);
        assert(in_turn(m.ns, ops) == m.ns);
        assert(m.log + entries =~= m.log);
    }
}

/// A backup that gets an operation puts it by, then applies and logs, in sequence and without a
/// gap, all that it has from its next number on, and stops at the first that it lacks. It
/// acknowledges each number that it applied, once and in sequence, to who sent the operation, and
/// keeps the rest for later.
pub proof fn law_backup_applies_in_sequence(m: MetaV, from: NodeId, seq: u64, op: MetaOpV)
    requires
        m.buffer.dom().finite(),
    ensures
        ({
            let (w, out) = m.handled(from, MessageV::MetaReplicate { seq, op });
            let have = m.buffer.insert(seq, op);
            let n = out.len();
            let ops = Seq::new(n, |i: int| have[(m.applied_seq + i) as u64]);
            &&& w.applied_seq == m.applied_seq + n
            &&& forall|i: int|
                0 <= i < n ==> (#[trigger] out[i]).from == NodeId::Meta(m.idx) && out[i].to == from
                    && out[i].msg == (MessageV::MetaReplicateAck {
                    seq: (m.applied_seq + i) as u64,
                })
            &&& forall|s: int|
                m.applied_seq <= s < m.applied_seq + n ==> have.dom().contains(#[trigger] (s as u64))
            &&& w.applied_seq < u64::MAX ==> !have.dom().contains(w.applied_seq)
            &&& w.ns == in_turn(m.ns, ops)
            &&& w.log.len() == m.log.len() + n
            &&& forall|i: int|
                0 <= i < n ==> #[trigger] w.log[m.log.len() + i] == (LogEntryV {
                    seq: (m.applied_seq + i) as u64,
                    op: ops[i],
                })
            &&& forall|i: int| 0 <= i < m.log.len() ==> #[trigger] w.log[i] == m.log[i]
            &&& forall|s: u64| #[trigger]
                w.buffer.dom().contains(s) <==> have.dom().contains(s) && !(m.applied_seq <= s
                    < m.applied_seq + n)
            &&& w.pending == m.pending
            &&& w.next_seq == m.next_seq
            &&& w.is_primary == m.is_primary
        }),
{
    let b = MetaV { buffer: m.buffer.insert(seq, op), ..m };
    assert(b.buffer.dom() =~= m.buffer.dom().insert(seq));
    lemma_caught_up(b);
    let (w, seqs) = b.caught_up();
    assert forall|s: int| m.applied_seq <= s < m.applied_seq + seqs.len() implies b.buffer.dom().contains(
        #[trigger] (s as u64),
    ) by {
        assert(seqs[s - m.applied_seq] == s);
    }
    assert forall|i: int| 0 <= i < seqs.len() implies #[trigger] seqs[i] == (m.applied_seq
        + i) as u64 by {}
}

/// A heartbeat changes only who is known to hold what: the reporting node holds exactly what it
/// reported. A primary then orders, for every chunk that a file refers to, and for no other, what
/// that chunk needs; a backup orders nothing.
pub proof fn law_heartbeats_bring_orders(
    m: MetaV,
    from: NodeId,
    node: u32,
    chunks: Seq<Seq<u8>>,
    x: wire::Envelope,
)
    requires
        metadata::referenced(m.ns.files).finite(),
    ensures
        ({
            let (w, out) = m.handled(from, MessageV::Heartbeat { node, chunks });
            &&& w == (MetaV { holders: w.holders, ..m })
            &&& !m.is_primary ==> out.len() == 0
            &&& m.is_primary ==> (out.contains(x) <==> exists|id: Seq<u8>| #[trigger]
                w.orders(id).contains(x) && metadata::referenced(m.ns.files).contains(id))
        }),
{
    let w = m.handled(from, MessageV::Heartbeat { node, chunks }).0;
    let ids = ordmap::in_order::<hash::Hash>(metadata::referenced(m.ns.files));
    ordmap::lemma_order_of::<hash::Hash>(metadata::referenced(m.ns.files));
    lemma_orders_for(w, ids, ids.len(), x);
    if exists|id: Seq<u8>| #[trigger]
        w.orders(id).contains(x) && metadata::referenced(m.ns.files).contains(id) {
        let id = choose|id: Seq<u8>| #[trigger]
            w.orders(id).contains(x) && metadata::referenced(m.ns.files).contains(id);
        assert(ids.to_set().contains(id));
        let k = choose|k: int| 0 <= k < ids.len() && ids[k] == id;
        assert(w.orders(ids[k]).contains(x));
    }
    if exists|k: int| 0 <= k < ids.len() && (#[trigger] w.orders(ids[k])).contains(x) {
        let k = choose|k: int| 0 <= k < ids.len() && (#[trigger] w.orders(ids[k])).contains(x);
        assert(ids.to_set().contains(ids[k]));
    }
}

proof fn lemma_orders_for(m: MetaV, ids: Seq<Seq<u8>>, n: nat, x: wire::Envelope)
    requires
        n <= ids.len(),
    ensures
        m.orders_for(ids, n).contains(x) <==> exists|k: int|
            0 <= k < n && (#[trigger] m.orders(ids[k])).contains(x),
    decreases n,
{
    if n > 0 {
        lemma_orders_for(m, ids, (n - 1) as nat, x);
        let a = m.orders_for(ids, (n - 1) as nat);
        let b = m.orders(ids[n - 1]);
        if (a + b).contains(x) {
            let k = choose|k: int| 0 <= k < (a + b).len() && (a + b)[k] == x;
            if k < a.len() {
                assert(a[k] == x);
                assert(a.contains(x));
            } else {
                assert(b[k - a.len()] == x);
                assert(m.orders(ids[n - 1]).contains(x));
            }
        }
        if a.contains(x) {
            let k = choose|k: int| 0 <= k < a.len() && a[k] == x;
            assert((a + b)[k] == x);
        }
        if b.contains(x) {
            let k = choose|k: int| 0 <= k < b.len() && b[k] == x;
            assert((a + b)[a.len() + k] == x);
        }
    }
}

/// The orders for a chunk: the lowest numbered live node that is known to hold it ships it to each
/// of the nodes that it belongs on and that is not known to hold it. Without such a holder there is
/// no order.
pub proof fn law_orders_come_from_lowest_holder(m: MetaV, id: Seq<u8>, x: wire::Envelope)
    requires
        metadata::holding(m.holders, id).finite(),
    ensures
        m.orders(id).contains(x) <==> {
            &&& x.from == NodeId::Meta(m.idx)
            &&& x.to matches NodeId::Storage(s) && m.live_storage.contains(s) && metadata::holding(
                m.holders,
                id,
            ).contains(s) && forall|t: u32|
                #![trigger m.live_storage.contains(t)]
                m.live_storage.contains(t) && metadata::holding(m.holders, id).contains(t) ==> s <= t
            &&& x.msg matches MessageV::ReplicateOrder { id: c, dest } && c == id
                && placement::placed(id, m.live_storage, m.r as nat).contains(dest)
                && !metadata::holding(m.holders, id).contains(dest)
        },
{
    let live = m.live_holders(id);
    let h = metadata::holding(m.holders, id);
    let f = |n: u32| !h.contains(n);
    let wanted = placement::placed(id, m.live_storage, m.r as nat);
    metadata::lemma_filter_members(wanted, f);
    let lacking = m.lacking(id);
    assert(live.finite()) by {
        assert(live =~= h.intersect(m.live_storage.to_set()));
    }
    assert forall|t: u32| live.contains(t) <==> h.contains(t) && #[trigger] m.live_storage.contains(
        t,
    ) by {
        assert(m.live_storage.to_set().contains(t) <==> m.live_storage.contains(t));
    }
    ordmap::lemma_order_of::<u32>(live);
    let ks = ordmap::in_order::<u32>(live);
    if live.is_empty() {
        if let NodeId::Storage(s) = x.to {
            assert(!live.contains(s));
        }
    } else {
        let y = live.choose();
        assert(ks.to_set().contains(y));
        let source = ks[0];
        assert(ks.to_set().contains(source));
        assert forall|t: u32| live.contains(t) implies source <= t by {
            assert(ks.to_set().contains(t));
            let k = choose|k: int| 0 <= k < ks.len() && ks[k] == t;
            if k > 0 {
                assert(<u32 as ordmap::Key>::before(ks[0], ks[k]));
            }
        }
        let out = m.orders(id);
        if out.contains(x) {
            let k = choose|k: int| 0 <= k < out.len() && out[k] == x;
            assert(lacking.contains(lacking[k]));
        }
        if let MessageV::ReplicateOrder { id: c, dest } = x.msg {
            if let NodeId::Storage(s) = x.to {
                if x.from == NodeId::Meta(m.idx) && c == id && lacking.contains(dest) && s
                    == source {
                    let k = choose|k: int| 0 <= k < lacking.len() && lacking[k] == dest;
                    assert(out[k] == x);
                }
                if live.contains(s) && (forall|t: u32|
                    #![trigger m.live_storage.contains(t)]
                    m.live_storage.contains(t) && h.contains(t) ==> s <= t) {
                    assert(m.live_storage.contains(source));
                    assert(s <= source);
                    assert(source <= s);
                }
            }
        }
    }
}

/// Whether a metadata node has applied as much as any that is up, and is up.
pub open spec fn most_applied(v: ClusterV, b: u32) -> bool {
    &&& b < v.opts.meta_count
    &&& !v.net.down.contains(NodeId::Meta(b))
    &&& forall|q: u32|
        q < v.opts.meta_count && !(#[trigger] v.net.down.contains(NodeId::Meta(q)))
            ==> v.metas[q as int].applied_seq <= v.metas[b as int].applied_seq
}

/// After the roles are settled, the first metadata node that is up is the primary, and no other
/// is. All nodes have the namespace and log of one and the same node that is up and has applied as
/// much as any. The primary knows which storage nodes are up, in ascending order. Nothing outside
/// the metadata nodes changed.
pub proof fn law_settling_gives_roles(v: ClusterV, p: u32)
    requires
        v.wf(),
        census::leads(v, p),
    ensures
        ({
            let w = v.settled();
            &&& w == (ClusterV { metas: w.metas, ..v })
            &&& w.metas.len() == v.metas.len()
            &&& forall|i: int|
                0 <= i < w.metas.len() ==> ((#[trigger] w.metas[i]).is_primary <==> i == p)
            &&& exists|b: u32| #[trigger]
                most_applied(v, b) && forall|i: int|
                0 <= i < w.metas.len() ==> (#[trigger] w.metas[i]).ns == v.metas[b as int].ns
                    && w.metas[i].log == v.metas[b as int].log && w.metas[i].applied_seq
                    == v.metas[b as int].applied_seq && w.metas[i].next_seq >= v.metas[b as int].next_seq
            &&& forall|i: int|
                0 <= i < w.metas.len() ==> (#[trigger] w.metas[i]).idx == i && w.metas[i].next_seq
                    >= v.metas[i].next_seq && w.metas[i].next_seq <= w.metas[p as int].next_seq
                    + v.metas[i].next_seq && (w.metas[i].next_seq == v.metas[i].next_seq
                    || w.metas[i].next_seq == w.metas[p as int].next_seq) && w.metas[i].meta_quorum
                    == v.metas[i].meta_quorum
                    && w.metas[i].holders == v.metas[i].holders && w.metas[i].peers.len()
                    == v.opts.meta_count
            &&& forall|i: int, j: int|
                0 <= i < w.metas.len() && 0 <= j < v.opts.meta_count
                    ==> #[trigger] w.metas[i].peers[j] == j
            &&& forall|i: int|
                0 <= i < w.metas.len() && i != p ==> (#[trigger] w.metas[i]).pending == Map::<
                    u64,
                    metadata::PendingV,
                >::empty() && w.metas[i].buffer == Map::<u64, MetaOpV>::empty()
                    && w.metas[i].live_storage == v.metas[i].live_storage && w.metas[i].r
                    == v.metas[i].r
            &&& w.metas[p as int].live_storage.to_set() == census::up_nodes(v)
            &&& forall|i: int, j: int|
                0 <= i < j < w.metas[p as int].live_storage.len()
                    ==> #[trigger] w.metas[p as int].live_storage[i]
                    < #[trigger] w.metas[p as int].live_storage[j]
            &&& w.metas[p as int].r == v.opts.replication_factor
        }),
{
    census::law_primary_leads(v, p);
    census::law_live_nodes_are_up(v);
    simulation::lemma_live(v);
    let live = v.live_meta();
    simulation::lemma_most_current(v.metas, live, live.len());
    let b = simulation::most_current(v.metas, live, live.len());
    let k = choose|k: int| 0 <= k < live.len() && #[trigger] live[k] == b;
    assert(live.contains(b));
    assert(most_applied(v, b)) by {
        assert forall|q: u32|
            q < v.opts.meta_count && !(#[trigger] v.net.down.contains(
                NodeId::Meta(q),
            )) implies v.metas[q as int].applied_seq <= v.metas[b as int].applied_seq by {
            assert(live.contains(q));
            let j = choose|j: int| 0 <= j < live.len() && live[j] == q;
            assert(v.metas[live[j] as int].applied_seq <= v.metas[b as int].applied_seq);
        }
    }
}

/// Without a metadata node that is up, settling the roles changes nothing.
pub proof fn law_nobody_to_settle(v: ClusterV)
    requires
        forall|q: u32| q < v.opts.meta_count ==> #[trigger] v.net.down.contains(NodeId::Meta(q)),
    ensures
        v.settled() == v,
{
    census::law_primary_leads(v, 0);
}

/// A message changes its receiver and nobody else: the client finds it among its letters, last,
/// with who sent it; a storage node or metadata node does with it what that node does, and what it
/// sends is sent.
pub proof fn law_delivery_reaches_its_receiver(v: ClusterV, env: wire::Envelope, i: int)
    requires
        v.wf(),
    ensures
        ({
            let (w, out) = v.delivered(env);
            &&& w == (ClusterV { storages: w.storages, metas: w.metas, inbox: w.inbox, ..v })
            &&& w.storages.len() == v.storages.len()
            &&& w.metas.len() == v.metas.len()
            &&& env.to == NodeId::Client ==> w.inbox == v.inbox.push(
                Letter { from: env.from, msg: env.msg },
            )
            &&& env.to != NodeId::Client ==> w.inbox == v.inbox
            &&& 0 <= i < v.storages.len() && env.to == NodeId::Storage(i as u32) ==> w.storages[i]
                == v.storages[i].after(env.msg) && out == v.storages[i].replies(env.from, env.msg)
            &&& 0 <= i < v.storages.len() && env.to != NodeId::Storage(i as u32) ==> w.storages[i]
                == v.storages[i]
            &&& 0 <= i < v.metas.len() && env.to == NodeId::Meta(i as u32) ==> w.metas[i]
                == v.metas[i].handled(env.from, env.msg).0 && out == v.metas[i].handled(
                env.from,
                env.msg,
            ).1
            &&& 0 <= i < v.metas.len() && env.to != NodeId::Meta(i as u32) ==> w.metas[i]
                == v.metas[i]
        }),
{
}

/// A storage node reports, to the primary, itself and exactly the chunks that it holds.
pub proof fn law_report_is_true(v: ClusterV, i: u32, primary: u32, id: Seq<u8>)
    requires
        v.storages[i as int].store.dom().finite(),
    ensures
        v.heartbeat(i, primary).from == NodeId::Storage(i),
        v.heartbeat(i, primary).to == NodeId::Meta(primary),
        v.heartbeat(i, primary).msg matches MessageV::Heartbeat { node, chunks } && node == i && (
        chunks.contains(id) <==> v.storages[i as int].store.dom().contains(id)),
{
    ordmap::lemma_order_of::<hash::Hash>(v.storages[i as int].store.dom());
    let s = ordmap::in_order::<hash::Hash>(v.storages[i as int].store.dom());
    assert(s.to_set().contains(id) <==> s.contains(id));
}

/// A step of the cluster delivers the next message that can be delivered, and sends what its
/// receiver sends. There is none when nothing that can arrive is in flight.
pub proof fn law_pump(v: ClusterV)
    ensures
        match v.net.stepped().1 {
            None => !v.pumped().1 && v.pumped().0 == (ClusterV { net: v.net.stepped().0, ..v })
                && v.pumped().0.net.queue.len() == 0,
            Some(env) => {
                let u = ClusterV { net: v.net.stepped().0, ..v };
                let (w, out) = u.delivered(env);
                &&& v.pumped().1
                &&& v.pumped().0 == (ClusterV { net: u.net.sent_all(out), ..w })
            },
        },
{
    let at = crate::net::law_step(v.net);
}

/// Once all that can be delivered is delivered, nothing is in flight.
pub proof fn law_drained_is_empty(v: ClusterV)
    ensures
        v.drained().net.queue.len() == 0,
        !v.pumped().1 ==> v.drained() == v.pumped().0,
        v.pumped().1 ==> v.drained() == v.pumped().0.drained(),
    decreases u64::MAX - v.net.seq, v.net.queue.len(),
{
    law_pump(v);
    simulation::lemma_pump_progress(v);
    if v.pumped().1 {
        law_drained_is_empty(v.pumped().0);
    }
}

/// The chunks that files refer to are those in their manifests, and who is known to hold a chunk is
/// who is noted for it.
pub proof fn law_what_is_referred_to(
    files: Map<Seq<char>, crate::chunk::ManifestV>,
    holders: Map<Seq<u8>, Set<u32>>,
    id: Seq<u8>,
    n: u32,
)
    ensures
        metadata::referenced(files).contains(id) <==> exists|p: Seq<char>, i: int|
            files.dom().contains(p) && 0 <= i < files[p].chunks.len() && #[trigger] files[p].chunks[i]
                == id,
        metadata::holding(holders, id).contains(n) <==> holders.dom().contains(id)
            && holders[id].contains(n),
{
    if metadata::referenced(files).contains(id) {
        let p = choose|p: Seq<char>| #[trigger]
            files.dom().contains(p) && files[p].chunks.contains(id);
        let i = choose|i: int| 0 <= i < files[p].chunks.len() && files[p].chunks[i] == id;
        assert(files[p].chunks[i] == id);
    }
    if exists|p: Seq<char>, i: int|
        files.dom().contains(p) && 0 <= i < files[p].chunks.len() && #[trigger] files[p].chunks[i]
            == id {
        let (p, i) = choose|p: Seq<char>, i: int|
            files.dom().contains(p) && 0 <= i < files[p].chunks.len()
                && #[trigger] files[p].chunks[i] == id;
        assert(files[p].chunks.contains(id));
    }
}

/// An acknowledgement of an operation that is not waited for means nothing, and past the last
/// sequence number an operation that is allowed is not taken.
pub proof fn law_what_a_primary_passes_over(
    m: MetaV,
    from: NodeId,
    seq: u64,
    req_id: u64,
    op: MetaOpV,
)
    ensures
        !m.pending.dom().contains(seq) ==> m.handled(from, MessageV::MetaReplicateAck { seq }).0 == m
            && m.handled(from, MessageV::MetaReplicateAck { seq }).1.len() == 0,
        m.next_seq == u64::MAX && m.ns.validated(op) is Ok ==> m.handled(
            from,
            MessageV::MetaOpMsg { req_id, op },
        ).0 == m && m.handled(from, MessageV::MetaOpMsg { req_id, op }).1.len() == 0,
{
}

proof fn lemma_first_most_current(metas: Seq<MetaV>, live: Seq<u32>, n: nat, k: int)
    requires
        1 <= n <= live.len(),
        0 <= k < n,
        live.no_duplicates(),
        live[k] == simulation::most_current(metas, live, n),
    ensures
        forall|j: int|
            0 <= j < k ==> metas[(#[trigger] live[j]) as int].applied_seq
                < metas[live[k] as int].applied_seq,
    decreases n,
{
    if n > 1 {
        let m = (n - 1) as nat;
        simulation::lemma_most_current(metas, live, m);
        let b = simulation::most_current(metas, live, m);
        let i = choose|i: int| 0 <= i < m && #[trigger] live[i] == b;
        if k < m {
            assert(live[k] == b) by {
                if live[k] != b {
                    assert(live[k] == live[n - 1]);
                }
            }
            lemma_first_most_current(metas, live, m, k);
        } else {
            assert(live[k] == live[n - 1]);
            if metas[live[n - 1] as int].applied_seq <= metas[b as int].applied_seq {
                assert(live[k] == b);
                assert(live[i] == live[k]);
            }
        }
    }
}

/// Of the metadata nodes that are up and have applied most, the first is the one whose state the
/// primary takes over.
pub proof fn law_first_most_applied_is_adopted(v: ClusterV, p: u32, b: u32)
    requires
        v.wf(),
        census::leads(v, p),
        most_applied(v, b),
        forall|q: u32|
            q < b && !(#[trigger] v.net.down.contains(NodeId::Meta(q)))
                ==> v.metas[q as int].applied_seq < v.metas[b as int].applied_seq,
    ensures
        ({
            let w = v.settled();
            let m = w.metas[p as int];
            let n = v.metas[b as int];
            &&& m.ns == n.ns
            &&& m.log == n.log
            &&& m.applied_seq == n.applied_seq
            &&& m.next_seq == if n.next_seq > v.metas[p as int].next_seq {
                n.next_seq
            } else {
                v.metas[p as int].next_seq
            }
            &&& b == p ==> m.pending == v.metas[p as int].pending && m.buffer
                == v.metas[p as int].buffer
            &&& b != p ==> m.pending == Map::<u64, metadata::PendingV>::empty() && m.buffer == Map::<
                u64,
                MetaOpV,
            >::empty()
        }),
{
    census::law_primary_leads(v, p);
    simulation::lemma_live(v);
    let live = v.live_meta();
    let c = simulation::most_current(v.metas, live, live.len());
    simulation::lemma_most_current(v.metas, live, live.len());
    let k = choose|k: int| 0 <= k < live.len() && #[trigger] live[k] == c;
    lemma_first_most_current(v.metas, live, live.len(), k);
    assert(live.contains(c));
    assert(live.contains(b));
    let j = choose|j: int| 0 <= j < live.len() && live[j] == b;
    assert(v.metas[live[j] as int].applied_seq <= v.metas[c as int].applied_seq);
    assert(!v.net.down.contains(NodeId::Meta(c)));
    if j < k {
        assert(v.metas[live[j] as int].applied_seq < v.metas[live[k] as int].applied_seq);
    }
    if k < j {
        assert(live[k] < live[j]);
    }
    assert(c == b);
}

} // verus!

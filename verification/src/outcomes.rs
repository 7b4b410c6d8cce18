//! What the client makes of what it hears: which answer counts, how acknowledgements are counted,
//! how long it waits, and which error it reports.

use crate::census;
use crate::chunk::{ChunkV, ManifestV};
use crate::code;
use crate::erasure::Erasure;
use crate::error::ErrorV;
use crate::hash;
use crate::message::{self, MessageV, MetaOpV, MetaResult, NodeId, QueryResultV, QueryV};
use crate::net;
use crate::ordmap;
use crate::path;
use crate::protocol::{self, Gathered};
use crate::simulation::{self, ClusterV, Letter};
use crate::text;
use crate::wire;
use vstd::prelude::*;

verus! {

/// Whether a letter tells the outcome of an operation.
pub open spec fn tells_outcome(l: Letter, req: u64, r: MetaResult) -> bool {
    l.msg == (MessageV::MetaCommitted { req_id: req, result: r })
}

/// Whether a letter tells some outcome of an operation.
pub open spec fn tells_some_outcome(l: Letter, req: u64) -> bool {
    l.msg matches MessageV::MetaCommitted { req_id, .. } && req_id == req
}

/// The outcome of an operation is the first that a letter tells under its number, if any does.
pub proof fn law_first_outcome_counts(inbox: Seq<Letter>, req: u64, n: nat)
    requires
        n <= inbox.len(),
    ensures
        match protocol::commit_among(inbox, req, n) {
            Some(r) => exists|i: int|
                0 <= i < n && tells_outcome(#[trigger] inbox[i], req, r) && forall|j: int|
                    0 <= j < i ==> !tells_some_outcome(#[trigger] inbox[j], req),
            None => forall|i: int| 0 <= i < n ==> !tells_some_outcome(#[trigger] inbox[i], req),
        },
    decreases n,
{
    if n > 0 {
        law_first_outcome_counts(inbox, req, (n - 1) as nat);
        match protocol::commit_among(inbox, req, (n - 1) as nat) {
            Some(r) => {
                let i = choose|i: int|
                    0 <= i < n - 1 && tells_outcome(#[trigger] inbox[i], req, r) && forall|j: int|
                        0 <= j < i ==> !tells_some_outcome(#[trigger] inbox[j], req);
                assert(tells_outcome(inbox[i], req, r));
            },
            None => {
                if let Some(r) = protocol::commit_among(inbox, req, n) {
                    assert(tells_outcome(inbox[n - 1], req, r));
                }
            },
        }
    }
}

/// Whether a letter answers a query.
pub open spec fn tells_answer(l: Letter, req: u64, r: QueryResultV) -> bool {
    l.msg == (MessageV::MetaQueryResp { req_id: req, result: r })
}

/// Whether a letter answers a query in some way.
pub open spec fn tells_some_answer(l: Letter, req: u64) -> bool {
    l.msg matches MessageV::MetaQueryResp { req_id, .. } && req_id == req
}

/// The answer to a query is the first that a letter gives under its number, if any does.
pub proof fn law_first_answer_counts(inbox: Seq<Letter>, req: u64, n: nat)
    requires
        n <= inbox.len(),
    ensures
        match protocol::answer_among(inbox, req, n) {
            Some(r) => exists|i: int|
                0 <= i < n && tells_answer(#[trigger] inbox[i], req, r) && forall|j: int|
                    0 <= j < i ==> !tells_some_answer(#[trigger] inbox[j], req),
            None => forall|i: int| 0 <= i < n ==> !tells_some_answer(#[trigger] inbox[i], req),
        },
    decreases n,
{
    if n > 0 {
        law_first_answer_counts(inbox, req, (n - 1) as nat);
        match protocol::answer_among(inbox, req, (n - 1) as nat) {
            Some(r) => {
                let i = choose|i: int|
                    0 <= i < n - 1 && tells_answer(#[trigger] inbox[i], req, r) && forall|j: int|
                        0 <= j < i ==> !tells_some_answer(#[trigger] inbox[j], req);
                assert(tells_answer(inbox[i], req, r));
            },
            None => {
                if let Some(r) = protocol::answer_among(inbox, req, n) {
                    assert(tells_answer(inbox[n - 1], req, r));
                }
            },
        }
    }
}

/// Whether a letter acknowledges a chunk for a storage node.
pub open spec fn acknowledges(l: Letter, i: u32, id: Seq<u8>) -> bool {
    l.from == NodeId::Storage(i) && l.msg == (MessageV::StoreAck { id })
}

/// Whether a node is noted for an id.
pub open spec fn is_noted(m: Map<Seq<u8>, Set<u32>>, id: Seq<u8>, i: u32) -> bool {
    m.dom().contains(id) && m[id].contains(i)
}

/// A node counts for a chunk when it did before or a letter of it acknowledges that chunk, and
/// only then.
pub proof fn law_acknowledgements_are_counted(
    acks: Map<Seq<u8>, Set<u32>>,
    inbox: Seq<Letter>,
    n: nat,
    id: Seq<u8>,
    i: u32,
)
    requires
        n <= inbox.len(),
    ensures
        is_noted(protocol::acks_after(acks, inbox, n), id, i) <==> is_noted(acks, id, i) || exists|
            j: int,
        |
            0 <= j < n && acknowledges(#[trigger] inbox[j], i, id),
    decreases n,
{
    if n > 0 {
        law_acknowledgements_are_counted(acks, inbox, (n - 1) as nat, id, i);
        assert(acknowledges(inbox[n - 1], i, id) || !acknowledges(inbox[n - 1], i, id));
    }
}

/// A shard counts when it did before or a letter of some storage node acknowledges it, and only
/// then.
pub proof fn law_shard_acknowledgements_are_counted(
    acked: Set<Seq<u8>>,
    inbox: Seq<Letter>,
    n: nat,
    id: Seq<u8>,
)
    requires
        n <= inbox.len(),
    ensures
        protocol::acked_after(acked, inbox, n).contains(id) <==> acked.contains(id) || exists|
            j: int,
            i: u32,
        |
            0 <= j < n && #[trigger] acknowledges(inbox[j], i, id),
    decreases n,
{
    if n > 0 {
        law_shard_acknowledgements_are_counted(acked, inbox, (n - 1) as nat, id);
        let l = inbox[n - 1];
        match (l.from, l.msg) {
            (NodeId::Storage(i), MessageV::StoreAck { id: x }) => {
                if x == id {
                    assert(acknowledges(inbox[n - 1], i, id));
                }
            },
            _ => {},
        }
        if exists|j: int, i: u32| 0 <= j < n && #[trigger] acknowledges(inbox[j], i, id) {
            let (j, i) = choose|j: int, i: u32| 0 <= j < n && #[trigger] acknowledges(inbox[j], i, id);
            if j < n - 1 {
                assert(acknowledges(inbox[j], i, id));
            }
        }
    }
}

/// The number of nodes that count for a chunk.
pub open spec fn count(m: Map<Seq<u8>, Set<u32>>, id: Seq<u8>) -> nat {
    if m.dom().contains(id) {
        m[id].len()
    } else {
        0
    }
}

/// The fewest acknowledgements are no more than any chunk has, and as many as some chunk has.
pub proof fn law_fewest_acknowledgements(
    acks: Map<Seq<u8>, Set<u32>>,
    ids: Seq<Seq<u8>>,
    n: nat,
    i: int,
)
    requires
        0 <= i < n <= ids.len(),
    ensures
        protocol::fewest_acks(acks, ids, n) <= count(acks, ids[i]),
        exists|j: int|
            0 <= j < n && protocol::fewest_acks(acks, ids, n) == count(acks, #[trigger] ids[j]),
    decreases n,
{
    if n == 1 {
        assert(protocol::fewest_acks(acks, ids, n) == count(acks, ids[0]));
    } else {
        law_fewest_acknowledgements(
            acks,
            ids,
            (n - 1) as nat,
            if i < n - 1 {
                i
            } else {
                0
            },
        );
        let m = protocol::fewest_acks(acks, ids, (n - 1) as nat);
        let j = choose|j: int| 0 <= j < n - 1 && m == count(acks, #[trigger] ids[j]);
        if count(acks, ids[n - 1]) < m {
            assert(protocol::fewest_acks(acks, ids, n) == count(acks, ids[n - 1]));
        } else {
            assert(protocol::fewest_acks(acks, ids, n) == count(acks, ids[j]));
        }
    }
}

/// The fewest acknowledged shards are no more than any group has, and as many as some group has.
pub proof fn law_fewest_shards(
    groups: Seq<Seq<ChunkV>>,
    acked: Set<Seq<u8>>,
    n: nat,
    g: int,
)
    requires
        0 <= g < n <= groups.len(),
    ensures
        protocol::fewest_positions(groups, acked, n) <= protocol::acked_positions(groups[g], acked),
        exists|j: int|
            0 <= j < n && protocol::fewest_positions(groups, acked, n) == protocol::acked_positions(
                #[trigger] groups[j],
                acked,
            ),
    decreases n,
{
    if n == 1 {
        assert(protocol::fewest_positions(groups, acked, n) == protocol::acked_positions(
            groups[0],
            acked,
        ));
    } else {
        law_fewest_shards(
            groups,
            acked,
            (n - 1) as nat,
            if g < n - 1 {
                g
            } else {
                0
            },
        );
        let m = protocol::fewest_positions(groups, acked, (n - 1) as nat);
        let j = choose|j: int|
            0 <= j < n - 1 && m == protocol::acked_positions(#[trigger] groups[j], acked);
        if protocol::acked_positions(groups[n - 1], acked) < m {
            assert(protocol::fewest_positions(groups, acked, n) == protocol::acked_positions(
                groups[n - 1],
                acked,
            ));
        } else {
            assert(protocol::fewest_positions(groups, acked, n) == protocol::acked_positions(
                groups[j],
                acked,
            ));
        }
    }
}

/// An acknowledged shard more is one position more; a shard that is not acknowledged is none.
pub proof fn law_acknowledged_positions(group: Seq<ChunkV>, c: ChunkV, acked: Set<Seq<u8>>)
    ensures
        protocol::acked_positions(Seq::empty(), acked) == 0,
        acked.contains(c.id) ==> protocol::acked_positions(group.push(c), acked)
            == protocol::acked_positions(group, acked) + 1,
        !acked.contains(c.id) ==> protocol::acked_positions(group.push(c), acked)
            == protocol::acked_positions(group, acked),
{
    reveal(Seq::filter);
    let ids = protocol::ids_of(group);
    let more = protocol::ids_of(group.push(c));
    assert(more =~= ids.push(c.id));
    assert(more.drop_last() =~= ids);
    assert(protocol::ids_of(Seq::<ChunkV>::empty()).len() == 0);
}

/// Whether a client that stopped waiting had reason to: its time was up, or nothing was in flight
/// that could still reach it.
pub open spec fn waited_out(w: ClusterV, deadline: u64) -> bool {
    w.net.clock >= deadline || w.net.queue.len() == 0
}

/// Nobody gives up on an operation before the deadline while messages are in flight.
pub proof fn law_commit_is_waited_for(v: ClusterV, req: u64, deadline: u64)
    ensures
        v.commit_awaited(req, deadline).1 is None ==> waited_out(
            v.commit_awaited(req, deadline).0,
            deadline,
        ),
    decreases u64::MAX - v.net.seq, v.net.queue.len(),
{
    let t = v.inbox_taken();
    simulation::lemma_pump_progress(t);
    let at = net::law_step(t.net);
    if protocol::commit_among(v.inbox, req, v.inbox.len()) is None && t.net.clock < deadline
        && t.pumped().1 {
        law_commit_is_waited_for(t.pumped().0, req, deadline);
    }
}

/// Nobody gives up on a query before the deadline while messages are in flight.
pub proof fn law_answer_is_waited_for(v: ClusterV, req: u64, deadline: u64)
    ensures
        v.answer_awaited(req, deadline).1 is None ==> waited_out(
            v.answer_awaited(req, deadline).0,
            deadline,
        ),
    decreases u64::MAX - v.net.seq, v.net.queue.len(),
{
    let t = v.inbox_taken();
    simulation::lemma_pump_progress(t);
    let at = net::law_step(t.net);
    if protocol::answer_among(v.inbox, req, v.inbox.len()) is None && t.net.clock < deadline
        && t.pumped().1 {
        law_answer_is_waited_for(t.pumped().0, req, deadline);
    }
}

proof fn lemma_fewest_grows(
    a: Map<Seq<u8>, Set<u32>>,
    b: Map<Seq<u8>, Set<u32>>,
    ids: Seq<Seq<u8>>,
)
    requires
        ids.len() > 0,
        forall|id: Seq<u8>| #[trigger] count(a, id) <= count(b, id),
    ensures
        protocol::fewest_acks(a, ids, ids.len()) <= protocol::fewest_acks(b, ids, ids.len()),
{
    law_fewest_acknowledgements(b, ids, ids.len(), 0);
    let j = choose|j: int|
        0 <= j < ids.len() && protocol::fewest_acks(b, ids, ids.len()) == count(
            b,
            #[trigger] ids[j],
        );
    law_fewest_acknowledgements(a, ids, ids.len(), j);
    assert(count(a, ids[j]) <= count(b, ids[j]));
}

/// Whether everybody is counted among finitely many.
pub open spec fn countable(m: Map<Seq<u8>, Set<u32>>) -> bool {
    forall|id: Seq<u8>| #[trigger] m.dom().contains(id) ==> m[id].finite()
}

proof fn lemma_acks_grow(acks: Map<Seq<u8>, Set<u32>>, inbox: Seq<Letter>, n: nat)
    requires
        n <= inbox.len(),
        countable(acks),
    ensures
        countable(protocol::acks_after(acks, inbox, n)),
        forall|id: Seq<u8>| #[trigger]
            count(acks, id) <= count(protocol::acks_after(acks, inbox, n), id),
    decreases n,
{
    if n > 0 {
        lemma_acks_grow(acks, inbox, (n - 1) as nat);
        let before = protocol::acks_after(acks, inbox, (n - 1) as nat);
        let now = protocol::acks_after(acks, inbox, n);
        assert forall|id: Seq<u8>| #[trigger] count(acks, id) <= count(now, id) by {
            assert(count(acks, id) <= count(before, id));
            if before.dom().contains(id) && now[id] != before[id] {
                vstd::set_lib::lemma_len_subset(before[id], now[id]);
            }
        }
    }
}

/// A client that waits for acknowledgements is told of a shortage only when time is up or nothing
/// is in flight; and then of fewer than a quorum, and of no fewer than it had counted at the start.
pub proof fn law_acknowledgements_are_waited_for(
    v: ClusterV,
    acks: Map<Seq<u8>, Set<u32>>,
    ids: Seq<Seq<u8>>,
    quorum: nat,
    deadline: u64,
)
    requires
        countable(acks),
        ids.len() > 0,
    ensures
        v.acks_awaited(acks, ids, quorum, deadline).1 matches Some(got) ==> {
            &&& waited_out(v.acks_awaited(acks, ids, quorum, deadline).0, deadline)
            &&& got < quorum
            &&& got >= protocol::fewest_acks(acks, ids, ids.len())
            &&& got >= protocol::fewest_acks(
                protocol::acks_after(acks, v.inbox, v.inbox.len()),
                ids,
                ids.len(),
            )
        },
    decreases u64::MAX - v.net.seq, v.net.queue.len(),
{
    let t = v.inbox_taken();
    let now = protocol::acks_after(acks, v.inbox, v.inbox.len());
    simulation::lemma_pump_progress(t);
    let at = net::law_step(t.net);
    lemma_acks_grow(acks, v.inbox, v.inbox.len());
    lemma_fewest_grows(acks, now, ids);
    if !protocol::quorum_met(now, ids, quorum) {
        let i = choose|i: int|
            0 <= i < ids.len() && !(protocol::noted_for(now, #[trigger] ids[i]).len() >= quorum);
        law_fewest_acknowledgements(now, ids, ids.len(), i);
        if t.net.clock < deadline && t.pumped().1 {
            law_acknowledgements_are_waited_for(t.pumped().0, now, ids, quorum, deadline);
        }
    }
}

/// A client that waits for shards is told of a shortage only when time is up or nothing is in
/// flight, and then of fewer than it asked for.
pub proof fn law_shards_are_waited_for(
    v: ClusterV,
    acked: Set<Seq<u8>>,
    groups: Seq<Seq<ChunkV>>,
    quorum: nat,
    deadline: u64,
)
    requires
        groups.len() > 0,
    ensures
        v.groups_awaited(acked, groups, quorum, deadline).1 matches Some(got) ==> {
            &&& waited_out(v.groups_awaited(acked, groups, quorum, deadline).0, deadline)
            &&& got < quorum
            &&& got >= protocol::fewest_positions(groups, acked, groups.len())
        },
    decreases u64::MAX - v.net.seq, v.net.queue.len(),
{
    let t = v.inbox_taken();
    let now = protocol::acked_after(acked, v.inbox, v.inbox.len());
    simulation::lemma_pump_progress(t);
    let at = net::law_step(t.net);
    lemma_positions_grow(acked, v.inbox, v.inbox.len(), groups);
    if !protocol::groups_met(groups, now, quorum) {
        let g = choose|g: int|
            0 <= g < groups.len() && !(protocol::acked_positions(#[trigger] groups[g], now)
                >= quorum);
        law_fewest_shards(groups, now, groups.len(), g);
        if t.net.clock < deadline && t.pumped().1 {
            law_shards_are_waited_for(t.pumped().0, now, groups, quorum, deadline);
        }
    }
}

proof fn lemma_filter_grows(ids: Seq<Seq<u8>>, a: Set<Seq<u8>>, b: Set<Seq<u8>>)
    requires
        a.subset_of(b),
    ensures
        ids.filter(|id: Seq<u8>| a.contains(id)).len() <= ids.filter(
            |id: Seq<u8>| b.contains(id),
        ).len(),
    decreases ids.len(),
{
    reveal(Seq::filter);
    if ids.len() > 0 {
        lemma_filter_grows(ids.drop_last(), a, b);
    }
}

proof fn lemma_positions_grow(
    acked: Set<Seq<u8>>,
    inbox: Seq<Letter>,
    n: nat,
    groups: Seq<Seq<ChunkV>>,
)
    requires
        n <= inbox.len(),
        groups.len() > 0,
    ensures
        protocol::fewest_positions(groups, acked, groups.len()) <= protocol::fewest_positions(
            groups,
            protocol::acked_after(acked, inbox, n),
            groups.len(),
        ),
{
    let now = protocol::acked_after(acked, inbox, n);
    assert forall|id: Seq<u8>| acked.contains(id) implies now.contains(id) by {
        law_shard_acknowledgements_are_counted(acked, inbox, n, id);
    }
    law_fewest_shards(groups, now, groups.len(), 0);
    let j = choose|j: int|
        0 <= j < groups.len() && protocol::fewest_positions(groups, now, groups.len())
            == protocol::acked_positions(#[trigger] groups[j], now);
    law_fewest_shards(groups, acked, groups.len(), j);
    lemma_filter_grows(protocol::ids_of(groups[j]), acked, now);
}

/// A client that gathers chunks stops only when it has enough of each, when time is up, or when
/// nothing is in flight.
pub proof fn law_chunks_are_waited_for(
    v: ClusterV,
    g: Gathered,
    ids: Seq<Seq<u8>>,
    quorum: nat,
    deadline: u64,
)
    ensures
        ({
            let (w, got) = v.chunks_gathered(g, ids, quorum, deadline);
            waited_out(w, deadline) || forall|i: int|
                0 <= i < ids.len() ==> got.have.dom().contains(#[trigger] ids[i]) && (quorum <= 1
                    || count(got.sources, ids[i]) >= quorum)
        }),
    decreases u64::MAX - v.net.seq, v.net.queue.len(),
{
    let t = v.inbox_taken();
    let now = g.with_all(v.inbox, v.inbox.len());
    simulation::lemma_pump_progress(t);
    let at = net::law_step(t.net);
    if now.enough_all(ids, quorum) {
        assert forall|i: int| 0 <= i < ids.len() implies now.have.dom().contains(#[trigger] ids[i])
            && (quorum <= 1 || count(now.sources, ids[i]) >= quorum) by {
            assert(now.enough(ids[i], quorum));
        }
    } else if t.net.clock < deadline && t.pumped().1 {
        law_chunks_are_waited_for(t.pumped().0, now, ids, quorum, deadline);
    }
}

/// Whether a letter holds bytes that match the id they were sent under.
pub open spec fn brings(l: Letter, id: Seq<u8>) -> bool {
    l.msg matches MessageV::ChunkData { id: x, data: Some(d) } && x == id && hash::digest(d) == id
}

/// Whether a letter says, by an empty answer or by bytes that do not match, that its sender lacks a
/// chunk.
pub open spec fn denies(l: Letter, id: Seq<u8>) -> bool {
    l.msg matches MessageV::ChunkData { id: x, data } && x == id && !(data matches Some(d)
        && hash::digest(d) == id)
}

/// What is gathered from letters: a chunk once some letter brought it, with bytes that match its
/// id; a node as a source of it once a letter of that node brought it; and a node as lacking it
/// once a letter of that node denied it.
pub proof fn law_what_is_gathered(g: Gathered, inbox: Seq<Letter>, n: nat, id: Seq<u8>, i: u32)
    requires
        n <= inbox.len(),
    ensures
        ({
            let w = g.with_all(inbox, n);
            &&& w.have.dom().contains(id) <==> g.have.dom().contains(id) || exists|j: int|
                0 <= j < n && brings(#[trigger] inbox[j], id)
            &&& g.have.dom().contains(id) ==> w.have[id] == g.have[id]
            &&& w.have.dom().contains(id) && !g.have.dom().contains(id) ==> hash::digest(w.have[id])
                == id
            &&& is_noted(w.sources, id, i) <==> is_noted(g.sources, id, i) || exists|j: int|
                0 <= j < n && brings(#[trigger] inbox[j], id) && inbox[j].from == NodeId::Storage(i)
            &&& is_noted(w.missing, id, i) <==> is_noted(g.missing, id, i) || exists|j: int|
                0 <= j < n && denies(#[trigger] inbox[j], id) && inbox[j].from == NodeId::Storage(i)
        }),
    decreases n,
{
    if n > 0 {
        law_what_is_gathered(g, inbox, (n - 1) as nat, id, i);
        let l = inbox[n - 1];
        assert(brings(l, id) || !brings(l, id));
        assert(denies(l, id) || !denies(l, id));
    }
}

/// An operation gives up when its time budget has passed, or at the last time there is.
pub proof fn law_deadline(v: ClusterV)
    ensures
        v.net.clock + v.opts.op_deadline <= u64::MAX ==> v.deadline() == v.net.clock
            + v.opts.op_deadline,
        v.net.clock + v.opts.op_deadline > u64::MAX ==> v.deadline() == u64::MAX,
{
}

/// Whether a cluster has run out the time budget of an operation that began in another.
pub open spec fn out_of_time(v: ClusterV, w: ClusterV) -> bool {
    ||| w.net.clock >= v.net.clock + v.opts.op_deadline
    ||| w.net.clock == u64::MAX
    ||| w.net.queue.len() == 0
}

/// Where no metadata node is up, the metadata service is called unavailable and nothing is sent. It
/// is called so besides only when the client has used up its numbers or no answer came in time.
pub proof fn law_unavailable_metadata(v: ClusterV, op: MetaOpV, q: QueryV, p: Seq<char>)
    ensures
        (forall|i: u32| i < v.opts.meta_count ==> #[trigger] v.net.down.contains(NodeId::Meta(i)))
            ==> v.meta_applied(op, p) == (v, Err::<(), ErrorV>(ErrorV::MetadataUnavailable))
            && v.meta_queried(q) == (v, Err::<QueryResultV, ErrorV>(ErrorV::MetadataUnavailable)),
        v.meta_applied(op, p).1 == Err::<(), ErrorV>(ErrorV::MetadataUnavailable) ==> {
            ||| forall|i: u32|
                i < v.opts.meta_count ==> #[trigger] v.net.down.contains(NodeId::Meta(i))
            ||| v.next_req == u64::MAX
            ||| out_of_time(v, v.meta_applied(op, p).0)
        },
        v.meta_queried(q).1 is Err ==> v.meta_queried(q).1 == Err::<QueryResultV, ErrorV>(
            ErrorV::MetadataUnavailable,
        ) && {
            ||| forall|i: u32|
                i < v.opts.meta_count ==> #[trigger] v.net.down.contains(NodeId::Meta(i))
            ||| v.next_req == u64::MAX
            ||| out_of_time(v, v.meta_queried(q).0)
        },
{
    census::law_primary_leads(v, 0);
    if !(v.primary() is None || v.next_req == u64::MAX) {
        let req = v.next_req;
        let a = v.asked(v.primary()->Some_0, MessageV::MetaOpMsg { req_id: req, op });
        let b = v.asked(v.primary()->Some_0, MessageV::MetaQueryMsg { req_id: req, q });
        law_commit_is_waited_for(a, req, a.deadline());
        law_answer_is_waited_for(b, req, b.deadline());
        law_deadline(v);
        assert(a.net.clock == v.net.clock);
        assert(b.net.clock == v.net.clock);
        assert(a.deadline() == v.deadline());
        assert(b.deadline() == v.deadline());
    }
}

/// The error that each code stands for, with the path that was asked about.
pub proof fn law_codes_name_errors(p: Seq<char>)
    ensures
        message::meta_error(code::NOT_FOUND, p) == ErrorV::NotFound(p),
        message::meta_error(code::ALREADY_EXISTS, p) == ErrorV::AlreadyExists(p),
        message::meta_error(code::NOT_A_DIRECTORY, p) == ErrorV::NotADirectory(p),
        message::meta_error(code::IS_A_DIRECTORY, p) == ErrorV::IsADirectory(p),
        message::meta_error(code::NOT_EMPTY, p) == ErrorV::DirectoryNotEmpty(p),
        message::meta_error(code::INVALID_PATH, p) == ErrorV::InvalidPath(p),
{
}

/// A path that is not absolute or has an empty or dotted part is refused by every operation, which
/// names it and does nothing. A rename looks at the old path first.
pub proof fn law_malformed_paths_are_refused(
    v: ClusterV,
    p: Seq<char>,
    q: Seq<char>,
    bytes: Seq<u8>,
)
    requires
        !path::normal(p),
    ensures
        v.written(p, bytes) == (v, Err::<(), ErrorV>(ErrorV::InvalidPath(p))),
        v.read(p) == (v, Err::<Seq<u8>, ErrorV>(ErrorV::InvalidPath(p))),
        v.deleted(p) == (v, Err::<(), ErrorV>(ErrorV::InvalidPath(p))),
        v.made_dir(p) == (v, Err::<(), ErrorV>(ErrorV::InvalidPath(p))),
        v.renamed(p, q) == (v, Err::<(), ErrorV>(ErrorV::InvalidPath(p))),
        path::normal(q) ==> v.renamed(q, p) == (v, Err::<(), ErrorV>(ErrorV::InvalidPath(p))),
        v.listed(p).0 == v && v.listed(p).1 is Err && v.listed(p).1->Err_0 == ErrorV::InvalidPath(
            p,
        ),
        v.statted(p).0 == v && v.statted(p).1 is Err && v.statted(p).1->Err_0
            == ErrorV::InvalidPath(p),
{
}

/// Whether an error names a path, or says that the metadata service is unavailable.
pub open spec fn is_about(e: ErrorV, p: Seq<char>) -> bool {
    ||| e == ErrorV::NotFound(p)
    ||| e == ErrorV::AlreadyExists(p)
    ||| e == ErrorV::NotADirectory(p)
    ||| e == ErrorV::IsADirectory(p)
    ||| e == ErrorV::DirectoryNotEmpty(p)
    ||| e == ErrorV::InvalidPath(p)
    ||| e == ErrorV::MetadataUnavailable
}

/// An operation on the namespace fails with an error about its path; a rename, whose paths are in
/// order, with one about the new path.
pub proof fn law_errors_name_the_path(v: ClusterV, p: Seq<char>, q: Seq<char>)
    ensures
        v.deleted(p).1 matches Err(e) ==> is_about(e, p),
        v.made_dir(p).1 matches Err(e) ==> is_about(e, p),
        path::normal(p) ==> (v.renamed(p, q).1 matches Err(e) ==> is_about(e, q)),
        v.listed(p).1 matches Err(e) ==> is_about(e, p),
        v.statted(p).1 matches Err(e) ==> is_about(e, p),
{
}

/// A replicated write to fewer storage nodes than the write quorum fails at once, says how many it
/// needs and how many there are, and does nothing. Any other that fails for want of a quorum says
/// how many it needed and fewer that it got, after it has waited.
pub proof fn law_short_writes_say_so(v: ClusterV, p: Seq<char>, bytes: Seq<u8>)
    requires
        path::normal(p),
        v.opts.erasure is None,
    ensures
        census::up_nodes(v).len() < v.opts.write_quorum ==> v.written(p, bytes) == (
            v,
            Err::<(), ErrorV>(
                ErrorV::WriteQuorumFailed {
                    needed: v.opts.write_quorum as nat,
                    got: census::up_nodes(v).len(),
                },
            ),
        ),
        v.written(p, bytes).1 matches Err(ErrorV::WriteQuorumFailed { needed, got }) ==> {
            &&& needed == v.opts.write_quorum
            &&& got < needed
            &&& census::up_nodes(v).len() >= v.opts.write_quorum ==> out_of_time(
                v,
                v.written(p, bytes).0,
            )
        },
{
    census::law_live_nodes_are_up(v);
    let live = v.live_storage();
    let quorum = v.opts.write_quorum as nat;
    if live.len() >= quorum {
        let chunks = crate::chunk::chunks_of(bytes, v.opts.chunk_size as nat);
        let data = protocol::distinct_chunks(chunks, chunks.len());
        let ids = ordmap::in_order::<hash::Hash>(data.dom());
        let msgs = protocol::store_msgs(
            data,
            ids,
            live,
            v.opts.replication_factor as nat,
            ids.len(),
        );
        let s = v.sent_all(msgs);
        lemma_sending_takes_no_time(v.net, msgs);
        law_deadline(v);
        let none = Map::<Seq<u8>, Set<u32>>::empty();
        let (w, short) = s.acks_awaited(none, ids, quorum, s.deadline());
        if ids.len() > 0 {
            law_acknowledgements_are_waited_for(s, none, ids, quorum, s.deadline());
        } else {
            assert(protocol::quorum_met(
                protocol::acks_after(none, s.inbox, s.inbox.len()),
                ids,
                quorum,
            ));
            assert(short is None);
        }
        if short is None {
            lemma_not_quorum(w, MetaOpV::Put {
                path: p,
                manifest: crate::chunk::manifest_of(bytes, v.opts.chunk_size as nat),
            }, p);
        }
    }
}

proof fn lemma_not_quorum(v: ClusterV, op: MetaOpV, p: Seq<char>)
    ensures
        v.meta_applied(op, p).1 matches Err(e) ==> !(e is WriteQuorumFailed),
{
}

proof fn lemma_sending_takes_no_time(v: net::NetV, out: Seq<wire::Envelope>)
    ensures
        v.sent_all(out).clock == v.clock,
    decreases out.len(),
{
    if out.len() > 0 {
        lemma_sending_takes_no_time(v, out.drop_last());
    }
}

/// An erasure-coded write to fewer storage nodes than there are shards fails at once, says how many
/// it needs and how many there are, and does nothing. Any other that fails for want of shards says
/// how many of each chunk it needed, which is the write quorum and at least the number that a read
/// needs, and fewer that it got, after it has waited.
pub proof fn law_short_erasure_writes_say_so(v: ClusterV, p: Seq<char>, bytes: Seq<u8>, er: Erasure)
    requires
        path::normal(p),
        v.opts.erasure == Some(er),
    ensures
        census::up_nodes(v).len() < er.k + er.m ==> v.written(p, bytes) == (
            v,
            Err::<(), ErrorV>(
                ErrorV::WriteQuorumFailed {
                    needed: (er.k + er.m) as nat,
                    got: census::up_nodes(v).len(),
                },
            ),
        ),
        census::up_nodes(v).len() >= er.k + er.m ==> (v.written(p, bytes).1 matches Err(
            ErrorV::WriteQuorumFailed { needed, got },
        ) ==> {
            &&& needed >= v.opts.write_quorum && needed >= er.k
            &&& needed == v.opts.write_quorum || needed == er.k
            &&& got < needed
            &&& out_of_time(v, v.written(p, bytes).0)
        }),
{
    census::law_live_nodes_are_up(v);
    let live = v.live_storage();
    if live.len() >= er.k + er.m {
        let groups = protocol::shard_groups(bytes, v.group_size(), er);
        let quorum = protocol::larger(v.opts.write_quorum as nat, er.k as nat);
        let msgs = protocol::spread(groups, live, groups.len()).msgs;
        let s = v.sent_all(msgs);
        lemma_sending_takes_no_time(v.net, msgs);
        law_deadline(v);
        let none = Set::<Seq<u8>>::empty();
        let (w, short) = s.groups_awaited(none, groups, quorum, s.deadline());
        if groups.len() > 0 {
            law_shards_are_waited_for(s, none, groups, quorum, s.deadline());
        } else {
            assert(protocol::groups_met(
                groups,
                protocol::acked_after(none, s.inbox, s.inbox.len()),
                quorum,
            ));
            assert(short is None);
        }
        if short is None {
            lemma_not_quorum(w, MetaOpV::Put {
                path: p,
                manifest: protocol::erasure_manifest(bytes, v.group_size(), er),
            }, p);
        }
    }
}

/// A replicated read that says a chunk is unavailable names one of the file's chunks, by the first
/// four bytes of its id.
pub proof fn law_missing_chunk_is_named(v: ClusterV, m: ManifestV, t: Seq<char>)
    requires
        v.read_replicated(m).1 == Err::<Seq<u8>, ErrorV>(ErrorV::ChunkUnavailable(t)),
    ensures
        exists|i: int|
            0 <= i < m.chunks.len() && t == text::hex((#[trigger] m.chunks[i]).subrange(0, 4)),
{
    let ids = ordmap::in_order::<hash::Hash>(m.chunks.to_set());
    vstd::seq_lib::seq_to_set_is_finite(m.chunks);
    ordmap::lemma_order_of::<hash::Hash>(m.chunks.to_set());
    let (w, g) = v.fetched(ids, v.opts.read_quorum as nat);
    law_first_short(g, ids, v.opts.read_quorum as nat, 0);
    let id = protocol::first_short(g, ids, v.opts.read_quorum as nat, 0)->Some_0;
    let k = choose|k: int|
        0 <= k < ids.len() && #[trigger] ids[k] == id && !g.enough(ids[k], v.opts.read_quorum as nat)
            && forall|j: int|
            0 <= j < k ==> g.enough(#[trigger] ids[j], v.opts.read_quorum as nat);
    assert(ids.to_set().contains(ids[k]));
    let i = choose|i: int| 0 <= i < m.chunks.len() && m.chunks[i] == id;
    assert(m.chunks[i] == id);
}

/// The first chunk that is short is short, and none before it is.
pub proof fn law_first_short(g: Gathered, ids: Seq<Seq<u8>>, quorum: nat, n: nat)
    ensures
        match protocol::first_short(g, ids, quorum, n) {
            Some(id) => exists|k: int|
                n <= k < ids.len() && #[trigger] ids[k] == id && !g.enough(ids[k], quorum)
                    && forall|j: int| n <= j < k ==> g.enough(#[trigger] ids[j], quorum),
            None => forall|j: int| n <= j < ids.len() ==> g.enough(#[trigger] ids[j], quorum),
        },
    decreases ids.len() - n,
{
    if n < ids.len() {
        if !g.enough(ids[n as int], quorum) {
            assert(ids[n as int] == ids[n as int]);
        } else {
            law_first_short(g, ids, quorum, n + 1);
            if let Some(id) = protocol::first_short(g, ids, quorum, n + 1) {
                let k = choose|k: int|
                    n + 1 <= k < ids.len() && #[trigger] ids[k] == id && !g.enough(ids[k], quorum)
                        && forall|j: int| n + 1 <= j < k ==> g.enough(#[trigger] ids[j], quorum);
                assert(ids[k] == id);
            }
        }
    }
}

/// An erasure-coded read that says a chunk is unavailable names the file and the number of one of
/// its chunks.
pub proof fn law_missing_group_is_named(
    v: ClusterV,
    p: Seq<char>,
    m: ManifestV,
    er: Erasure,
    live: Seq<u32>,
    got: Gathered,
    g: nat,
)
    ensures
        v.groups_rebuilt(p, m, er, live, got, g).1 matches Err(e) ==> exists|h: nat|
            g <= h < m.chunks.len() / (er.k as nat + er.m as nat) && e == ErrorV::ChunkUnavailable(
                p + " chunk group "@ + #[trigger] text::decimal(h),
            ),
        v.groups_rebuilt(p, m, er, live, got, g).1 matches Ok(parts) ==> g + parts.len() == if g
            > m.chunks.len() / (er.k as nat + er.m as nat) {
            g as int
        } else {
            (m.chunks.len() / (er.k as nat + er.m as nat)) as int
        },
    decreases m.chunks.len() / (er.k as nat + er.m as nat) - g,
{
    let total = er.k as nat + er.m as nat;
    if g < m.chunks.len() / total {
        let ids = m.chunks.subrange((g * total) as int, ((g + 1) * total) as int);
        let len = protocol::group_len(m.size as nat, v.group_size(), g);
        let slots = protocol::group_slots(got, ids, len, er);
        match crate::erasure::decoded(slots, er.k as nat, er.m as nat, len) {
            Err(_) => {
                assert(v.groups_rebuilt(p, m, er, live, got, g).1 == Err::<Seq<Seq<u8>>, ErrorV>(
                    ErrorV::ChunkUnavailable(p + " chunk group "@ + text::decimal(g)),
                ));
            },
            Ok(piece) => {
                let full = crate::erasure::shards(piece, er.k as nat, er.m as nat);
                let w = v.sent_all(protocol::rebuild_msgs(slots, ids, full, live, total));
                law_missing_group_is_named(w, p, m, er, live, got, g + 1);
                if let Err(e) = v.groups_rebuilt(p, m, er, live, got, g).1 {
                    let h = choose|h: nat|
                        g + 1 <= h < m.chunks.len() / total && e == ErrorV::ChunkUnavailable(
                            p + " chunk group "@ + #[trigger] text::decimal(h),
                        );
                    assert(e == ErrorV::ChunkUnavailable(p + " chunk group "@ + text::decimal(h)));
                }
            },
        }
    }
}

proof fn lemma_commit_keeps_number(v: ClusterV, req: u64, deadline: u64)
    requires
        v.wf(),
    ensures
        v.commit_awaited(req, deadline).0.next_req == v.next_req,
    decreases u64::MAX - v.net.seq, v.net.queue.len(),
{
    let t = v.inbox_taken();
    simulation::lemma_pump_progress(t);
    simulation::lemma_pumped_wf(t);
    if protocol::commit_among(v.inbox, req, v.inbox.len()) is None && t.net.clock < deadline
        && t.pumped().1 {
        lemma_commit_keeps_number(t.pumped().0, req, deadline);
    }
}

proof fn lemma_answer_keeps_number(v: ClusterV, req: u64, deadline: u64)
    requires
        v.wf(),
    ensures
        v.answer_awaited(req, deadline).0.next_req == v.next_req,
    decreases u64::MAX - v.net.seq, v.net.queue.len(),
{
    let t = v.inbox_taken();
    simulation::lemma_pump_progress(t);
    simulation::lemma_pumped_wf(t);
    if protocol::answer_among(v.inbox, req, v.inbox.len()) is None && t.net.clock < deadline
        && t.pumped().1 {
        lemma_answer_keeps_number(t.pumped().0, req, deadline);
    }
}

/// Every request takes the next number, so that no answer is taken for that to another: a request
/// that finds a metadata node uses up one number, and one that does not uses up none.
pub proof fn law_requests_are_numbered(v: ClusterV, op: MetaOpV, q: QueryV, p: Seq<char>)
    requires
        v.wf(),
        v.next_req < u64::MAX,
    ensures
        v.primary() is Some ==> v.meta_applied(op, p).0.next_req == v.next_req + 1
            && v.meta_queried(q).0.next_req == v.next_req + 1,
        v.primary() is None ==> v.meta_applied(op, p).0 == v && v.meta_queried(q).0 == v,
{
    if let Some(l) = v.primary() {
        let req = v.next_req;
        let a = v.asked(l, MessageV::MetaOpMsg { req_id: req, op });
        let b = v.asked(l, MessageV::MetaQueryMsg { req_id: req, q });
        lemma_commit_keeps_number(a, req, a.deadline());
        lemma_answer_keeps_number(b, req, b.deadline());
    }
}

/// A request to a metadata node is one message from the client to that node. It uses up one number
/// and changes nothing else.
pub proof fn law_request_is_one_message(v: ClusterV, p: u32, msg: MessageV)
    requires
        v.next_req < u64::MAX,
    ensures
        v.asked(p, msg).net == v.net.sent(
            wire::Envelope { from: NodeId::Client, to: NodeId::Meta(p), msg },
        ),
        v.asked(p, msg) == (ClusterV {
            net: v.asked(p, msg).net,
            next_req: (v.next_req + 1) as u64,
            ..v
        }),
{
}

/// What a chunk group of an erasure-coded file decodes to, from the shards that were gathered.
pub open spec fn group_decoded(
    m: ManifestV,
    er: Erasure,
    got: Gathered,
    size: nat,
    h: nat,
) -> Result<Seq<u8>, ErrorV> {
    let total = er.k as nat + er.m as nat;
    let ids = m.chunks.subrange((h * total) as int, ((h + 1) * total) as int);
    let len = protocol::group_len(m.size as nat, size, h);
    crate::erasure::decoded(
        protocol::group_slots(got, ids, len, er),
        er.k as nat,
        er.m as nat,
        len,
    )
}

/// Groups are decoded one after the other. When all can be, what each decodes to is given, in
/// order; else the first that cannot be is named.
pub proof fn law_groups_are_decoded_in_turn(
    v: ClusterV,
    p: Seq<char>,
    m: ManifestV,
    er: Erasure,
    live: Seq<u32>,
    got: Gathered,
    g: nat,
)
    ensures
        ({
            let n = m.chunks.len() / (er.k as nat + er.m as nat);
            let size = v.group_size();
            let r = v.groups_rebuilt(p, m, er, live, got, g).1;
            &&& r matches Ok(parts) ==> parts.len() == (if g < n {
                n - g
            } else {
                0
            })
            &&& r matches Ok(parts) ==> forall|h: nat|
                g <= h < n ==> #[trigger] group_decoded(m, er, got, size, h) == Ok::<
                    Seq<u8>,
                    ErrorV,
                >(parts[h - g])
            &&& r matches Err(e) ==> exists|h: nat|
                g <= h < n && (#[trigger] group_decoded(m, er, got, size, h)) is Err && e
                    == ErrorV::ChunkUnavailable(p + " chunk group "@ + text::decimal(h)) && forall|
                    j: nat,
                |
                    g <= j < h ==> (#[trigger] group_decoded(m, er, got, size, j)) is Ok
        }),
    decreases m.chunks.len() / (er.k as nat + er.m as nat) - g,
{
    let total = er.k as nat + er.m as nat;
    let n = m.chunks.len() / total;
    let size = v.group_size();
    if g < n {
        let ids = m.chunks.subrange((g * total) as int, ((g + 1) * total) as int);
        let len = protocol::group_len(m.size as nat, size, g);
        let slots = protocol::group_slots(got, ids, len, er);
        match group_decoded(m, er, got, size, g) {
            Err(_) => {
                assert(group_decoded(m, er, got, size, g) is Err);
            },
            Ok(piece) => {
                let full = crate::erasure::shards(piece, er.k as nat, er.m as nat);
                let w = v.sent_all(protocol::rebuild_msgs(slots, ids, full, live, total));
                assert(w.group_size() == size);
                law_groups_are_decoded_in_turn(w, p, m, er, live, got, g + 1);
                match w.groups_rebuilt(p, m, er, live, got, g + 1).1 {
                    Ok(rest) => {
                        let parts = seq![piece] + rest;
                        assert(v.groups_rebuilt(p, m, er, live, got, g).1 == Ok::<
                            Seq<Seq<u8>>,
                            ErrorV,
                        >(parts));
                        assert(rest.len() == n - g - 1);
                        assert forall|h: nat| g <= h < n implies #[trigger] group_decoded(
                            m,
                            er,
                            got,
                            size,
                            h,
                        ) == Ok::<Seq<u8>, ErrorV>(parts[h - g]) by {
                            if h > g {
                                assert(parts[h - g] == rest[h - (g + 1)]);
                            }
                        }
                    },
                    Err(e) => {
                        let h = choose|h: nat|
                            g + 1 <= h < n && (#[trigger] group_decoded(m, er, got, size, h)) is Err
                                && e == ErrorV::ChunkUnavailable(
                                p + " chunk group "@ + text::decimal(h),
                            ) && forall|j: nat|
                                g + 1 <= j < h ==> (#[trigger] group_decoded(
                                    m,
                                    er,
                                    got,
                                    size,
                                    j,
                                )) is Ok;
                        assert(group_decoded(m, er, got, size, h) is Err);
                        assert forall|j: nat| g <= j < h implies (#[trigger] group_decoded(
                            m,
                            er,
                            got,
                            size,
                            j,
                        )) is Ok by {}
                    },
                }
            },
        }
    }
}

/// An erasure-coded read gives what the chunk groups decode to, one after the other, when all of
/// them can be decoded and the whole matches the file's hash. It says that a chunk is unavailable
/// exactly when some group cannot be decoded, and that the contents are damaged exactly when all
/// can and the whole does not match.
pub proof fn law_what_an_erasure_read_gives(v: ClusterV, p: Seq<char>, m: ManifestV, er: Erasure)
    requires
        er.wf(),
    ensures
        ({
            let n = m.chunks.len() / (er.k as nat + er.m as nat);
            let ids = ordmap::in_order::<hash::Hash>(m.chunks.to_set());
            let (u, got) = v.fetched(ids, 1);
            let size = u.group_size();
            let all = forall|h: nat| h < n ==> (#[trigger] group_decoded(m, er, got, size, h)) is Ok;
            let whole = Seq::new(
                n,
                |h: int| group_decoded(m, er, got, size, h as nat)->Ok_0,
            ).flatten();
            let r = v.read_erasure(p, m, er).1;
            &&& r is Ok <==> all && hash::digest(whole) == m.content_hash
            &&& r matches Ok(bytes) ==> bytes == whole
            &&& r matches Err(e) ==> (e is ChunkUnavailable <==> !all)
            &&& r matches Err(e) ==> (e == ErrorV::IntegrityError <==> all)
        }),
{
    let n = m.chunks.len() / (er.k as nat + er.m as nat);
    let ids = ordmap::in_order::<hash::Hash>(m.chunks.to_set());
    let live = v.live_storage();
    let (u, got) = v.fetched(ids, 1);
    let size = u.group_size();
    law_groups_are_decoded_in_turn(u, p, m, er, live, got, 0);
    match u.groups_rebuilt(p, m, er, live, got, 0).1 {
        Ok(parts) => {
            vstd::arithmetic::div_mod::lemma_div_pos_is_pos(
                m.chunks.len() as int,
                er.k + er.m,
            );
            assert(parts.len() == n);
            let each = Seq::new(n, |h: int| group_decoded(m, er, got, size, h as nat)->Ok_0);
            assert forall|h: int| 0 <= h < n implies #[trigger] each[h] == parts[h] by {
                assert(group_decoded(m, er, got, size, h as nat) == Ok::<Seq<u8>, ErrorV>(
                    parts[h as nat - 0],
                ));
            }
            assert(each =~= parts);
            assert forall|h: nat| h < n implies (#[trigger] group_decoded(
                m,
                er,
                got,
                size,
                h,
            )) is Ok by {
                assert(group_decoded(m, er, got, size, h) == Ok::<Seq<u8>, ErrorV>(parts[h - 0]));
            }
        },
        Err(e) => {
            let h = choose|h: nat|
                0 <= h < n && (#[trigger] group_decoded(m, er, got, size, h)) is Err && e
                    == ErrorV::ChunkUnavailable(p + " chunk group "@ + text::decimal(h)) && forall|
                    j: nat,
                |
                    0 <= j < h ==> (#[trigger] group_decoded(m, er, got, size, j)) is Ok;
            assert(group_decoded(m, er, got, size, h) is Err);
        },
    }
}

} // verus!

//! Quorums are reached: on a quiet network the nodes that a write is sent to acknowledge it,
//! and metadata nodes that are up to date acknowledge an operation, so that it commits.

use crate::chunk::{self, ChunkV};
use crate::commits;
use crate::durability;
use crate::erasure::Erasure;
use crate::error::ErrorV;
use crate::hash;
use crate::message::{self, MessageV, MetaOpV, NodeId};
use crate::net;
use crate::ordmap;
use crate::path;
use crate::placement;
use crate::progress;
use crate::protocol;
use crate::replicas;
use crate::simulation::{self, ClusterV, Letter};
use crate::soundness;
use crate::spreading;
use crate::truth;
use crate::wire;
use vstd::prelude::*;

verus! {

/// An acknowledgement on its way from a storage node to the client.
pub open spec fn ack_env(node: u32, id: Seq<u8>) -> wire::Envelope {
    wire::Envelope {
        from: NodeId::Storage(node),
        to: NodeId::Client,
        msg: MessageV::StoreAck { id },
    }
}

/// Whether a letter is a node's acknowledgement of a chunk.
pub open spec fn acks(l: Letter, node: u32, id: Seq<u8>) -> bool {
    l.from == NodeId::Storage(node) && l.msg == MessageV::StoreAck { id }
}

/// A chunk on its way to a node, or the node's acknowledgement, arrives in time.
spec fn ack_coming(v: ClusterV, node: u32, id: Seq<u8>, t: nat) -> bool {
    ||| exists|d: Seq<u8>|
        hash::digest(d) == id && progress::coming(
            v.net,
            #[trigger] protocol::store_msg(node, id, d),
            t,
        )
    ||| progress::coming(v.net, ack_env(node, id), t + progress::hop(v.net))
}

/// An acknowledgement lies in the inbox.
spec fn ack_here(v: ClusterV, node: u32, id: Seq<u8>) -> bool {
    exists|i: int| 0 <= i < v.inbox.len() && acks(#[trigger] v.inbox[i], node, id)
}

proof fn lemma_ack_pumped(v: ClusterV, node: u32, id: Seq<u8>, t: nat)
    requires
        soundness::sound(v),
        progress::quiet(v.net),
        progress::reaches_storage(v.net, node),
        node < v.storages.len(),
        ack_coming(v, node, id, t),
        v.inbox.len() == 0,
        v.pumped().0.net.seq < u64::MAX,
    ensures
        v.pumped().1,
        ack_coming(v.pumped().0, node, id, t) || ack_here(v.pumped().0, node, id),
{
    let (n, d) = v.net.stepped();
    let y = v.pumped().0;
    let at = net::law_step(v.net);
    let h = progress::hop(v.net);
    let back = ack_env(node, id);
    if progress::coming(v.net, back, t + h) {
        progress::lemma_coming_in_time(v, back, t + h);
        progress::lemma_coming_stepped(v.net, back, t + h);
        let env = d->Some_0;
        let (x, out) = v.with_net(n).delivered(env);
        simulation::lemma_sent_all_frame(x.net, out);
        if env == back {
            assert(acks(y.inbox[0], node, id));
        } else {
            progress::lemma_coming_sends(x.net, out, back, t + h);
        }
    } else {
        let data = choose|d: Seq<u8>|
            hash::digest(d) == id && progress::coming(
                v.net,
                #[trigger] protocol::store_msg(node, id, d),
                t,
            );
        let e = protocol::store_msg(node, id, data);
        progress::lemma_coming_in_time(v, e, t);
        progress::lemma_coming_stepped(v.net, e, t);
        let env = d->Some_0;
        let (x, out) = v.with_net(n).delivered(env);
        simulation::lemma_sent_all_frame(x.net, out);
        if env == e {
            assert(v.storages[node as int].idx == node);
            assert(out[0] == back);
            progress::lemma_sent_is_coming(x.net, out, 0, t + h);
        } else {
            progress::lemma_coming_sends(x.net, out, e, t);
            assert(progress::coming(y.net, protocol::store_msg(node, id, data), t));
        }
    }
}

proof fn lemma_ack_in_time(v: ClusterV, node: u32, id: Seq<u8>, t: nat)
    requires
        soundness::sound(v),
        ack_coming(v, node, id, t),
    ensures
        v.net.clock <= t + progress::hop(v.net),
{
    if progress::coming(v.net, ack_env(node, id), t + progress::hop(v.net)) {
        progress::lemma_coming_in_time(v, ack_env(node, id), t + progress::hop(v.net));
    } else {
        let d = choose|d: Seq<u8>|
            hash::digest(d) == id && progress::coming(
                v.net,
                #[trigger] protocol::store_msg(node, id, d),
                t,
            );
        progress::lemma_coming_in_time(v, protocol::store_msg(node, id, d), t);
    }
}

proof fn lemma_ack_coming_frame(v: ClusterV, w: ClusterV, node: u32, id: Seq<u8>, t: nat)
    requires
        ack_coming(v, node, id, t),
        w.net == v.net,
    ensures
        ack_coming(w, node, id, t),
{
    if !progress::coming(v.net, ack_env(node, id), t + progress::hop(v.net)) {
        let d = choose|d: Seq<u8>|
            hash::digest(d) == id && progress::coming(
                v.net,
                #[trigger] protocol::store_msg(node, id, d),
                t,
            );
        assert(progress::coming(w.net, protocol::store_msg(node, id, d), t));
    }
}

proof fn lemma_noted_stays(
    m: Map<Seq<u8>, Set<u32>>,
    inbox: Seq<Letter>,
    n: nat,
    node: u32,
    id: Seq<u8>,
)
    requires
        protocol::noted_for(m, id).contains(node),
    ensures
        protocol::noted_for(protocol::acks_after(m, inbox, n), id).contains(node),
    decreases n,
{
    if n > 0 {
        lemma_noted_stays(m, inbox, (n - 1) as nat, node, id);
    }
}

proof fn lemma_ack_is_noted(
    m: Map<Seq<u8>, Set<u32>>,
    inbox: Seq<Letter>,
    n: nat,
    i: int,
    node: u32,
    id: Seq<u8>,
)
    requires
        0 <= i < n <= inbox.len(),
        acks(inbox[i], node, id),
    ensures
        protocol::noted_for(protocol::acks_after(m, inbox, n), id).contains(node),
    decreases n,
{
    if i < n - 1 {
        lemma_ack_is_noted(m, inbox, (n - 1) as nat, i, node, id);
    }
}

/// Who should acknowledge each of some chunks: nodes that the client reaches, and enough of
/// them.
spec fn askers(
    v: ClusterV,
    ids: Seq<Seq<u8>>,
    quorum: nat,
    from: spec_fn(Seq<u8>) -> Set<u32>,
) -> bool {
    forall|i: int|
        0 <= i < ids.len() ==> {
            let s = from(#[trigger] ids[i]);
            &&& s.finite()
            &&& quorum <= s.len()
            &&& forall|node: u32| #[trigger]
                s.contains(node) ==> node < v.storages.len() && progress::reaches_storage(
                    v.net,
                    node,
                )
        }
}

proof fn lemma_acks_come(
    v: ClusterV,
    m: Map<Seq<u8>, Set<u32>>,
    ids: Seq<Seq<u8>>,
    quorum: nat,
    from: spec_fn(Seq<u8>) -> Set<u32>,
    t: nat,
    deadline: u64,
)
    requires
        soundness::sound(v),
        progress::quiet(v.net),
        askers(v, ids, quorum, from),
        durability::true_acks(v, m),
        durability::finite_acks(m),
        forall|i: int, node: u32|
            0 <= i < ids.len() && #[trigger] from(#[trigger] ids[i]).contains(node)
                ==> protocol::noted_for(m, ids[i]).contains(node) || ack_here(v, node, ids[i])
                || ack_coming(v, node, ids[i], t),
        t + progress::hop(v.net) < deadline,
        v.acks_awaited(m, ids, quorum, deadline).0.net.seq < u64::MAX,
    ensures
        v.acks_awaited(m, ids, quorum, deadline).1 is None,
    decreases u64::MAX - v.net.seq, v.net.queue.len(),
{
    let w = v.inbox_taken();
    let now = protocol::acks_after(m, v.inbox, v.inbox.len());
    soundness::lemma_inbox_taken_sound(v);
    durability::lemma_acks_after(v, m, v.inbox.len());
    assert forall|i: int, node: u32|
        0 <= i < ids.len() && #[trigger] from(#[trigger] ids[i]).contains(
            node,
        ) implies protocol::noted_for(now, ids[i]).contains(node) || ack_coming(
        w,
        node,
        ids[i],
        t,
    ) by {
        let id = ids[i];
        if protocol::noted_for(m, id).contains(node) {
            lemma_noted_stays(m, v.inbox, v.inbox.len(), node, id);
        } else if ack_here(v, node, id) {
            let k = choose|k: int| 0 <= k < v.inbox.len() && acks(#[trigger] v.inbox[k], node, id);
            lemma_ack_is_noted(m, v.inbox, v.inbox.len(), k, node, id);
        } else {
            lemma_ack_coming_frame(v, w, node, id, t);
        }
    }
    if !protocol::quorum_met(now, ids, quorum) {
        let i = choose|i: int|
            0 <= i < ids.len() && protocol::noted_for(now, #[trigger] ids[i]).len() < quorum;
        let id = ids[i];
        let s = from(id);
        let have = protocol::noted_for(now, id);
        if forall|node: u32| #[trigger] s.contains(node) ==> have.contains(node) {
            assert(s.subset_of(have));
            vstd::set_lib::lemma_len_subset(s, have);
        }
        let node = choose|node: u32| #[trigger] s.contains(node) && !have.contains(node);
        assert(from(ids[i]).contains(node));
        assert(ack_coming(w, node, id, t));
        lemma_ack_in_time(w, node, id, t);
        let y = w.pumped().0;
        soundness::lemma_pumped_sound(w);
        simulation::lemma_pump_progress(w);
        durability::lemma_true_acks_grow(v, y, now);
        durability::lemma_acks_awaited(y, now, ids, quorum, deadline);
        lemma_ack_pumped(w, node, id, t);
        assert forall|k: int, o: u32|
            0 <= k < ids.len() && #[trigger] from(#[trigger] ids[k]).contains(
                o,
            ) implies protocol::noted_for(now, ids[k]).contains(o) || ack_here(y, o, ids[k])
            || ack_coming(y, o, ids[k], t) by {
            if !protocol::noted_for(now, ids[k]).contains(o) {
                assert(ack_coming(w, o, ids[k], t));
                lemma_ack_pumped(w, o, ids[k], t);
            }
        }
        lemma_acks_come(y, now, ids, quorum, from, t, deadline);
    }
}

/// The place of a chunk among those that are sent.
pub proof fn lemma_stored_at(
    data: Map<Seq<u8>, Seq<u8>>,
    ids: Seq<Seq<u8>>,
    live: Seq<u32>,
    r: nat,
    n: nat,
    i: int,
    j: int,
) -> (k: int)
    requires
        0 <= i < n <= ids.len(),
        0 <= j < placement::placed(ids[i], live, r).len(),
    ensures
        0 <= k < protocol::store_msgs(data, ids, live, r, n).len(),
        protocol::store_msgs(data, ids, live, r, n)[k] == protocol::store_msg(
            placement::placed(ids[i], live, r)[j],
            ids[i],
            data[ids[i]],
        ),
    decreases n,
{
    let before = protocol::store_msgs(data, ids, live, r, (n - 1) as nat);
    if i < n - 1 {
        lemma_stored_at(data, ids, live, r, (n - 1) as nat, i, j)
    } else {
        before.len() + j
    }
}

/// Whether the live storage nodes that the client cannot reach are among some.
pub open spec fn cut_off(v: ClusterV, cut: Set<u32>) -> bool {
    cut.finite() && forall|i: u32|
        v.live_storage().contains(i) && !progress::reaches_storage(v.net, i)
            ==> #[trigger] cut.contains(i)
}

/// On a quiet network, chunks that are sent to enough nodes that the client reaches get their
/// quorum.
proof fn lemma_store_succeeds(
    v: ClusterV,
    data: Map<Seq<u8>, Seq<u8>>,
    ids: Seq<Seq<u8>>,
    r: nat,
    quorum: nat,
    cut: Set<u32>,
)
    requires
        soundness::sound(v),
        progress::quiet(v.net),
        cut_off(v, cut),
        quorum + cut.len() <= r,
        quorum + cut.len() <= v.live_storage().len(),
        forall|i: int| 0 <= i < ids.len() ==> hash::digest(data[#[trigger] ids[i]]) == ids[i],
        2 * progress::hop(v.net) < v.opts.op_deadline,
        ({
            let w = v.sent_all(protocol::store_msgs(data, ids, v.live_storage(), r, ids.len()));
            progress::room_left(w.acks_awaited(Map::empty(), ids, quorum, w.deadline()).0)
        }),
    ensures
        ({
            let w = v.sent_all(protocol::store_msgs(data, ids, v.live_storage(), r, ids.len()));
            w.acks_awaited(Map::empty(), ids, quorum, w.deadline()).1 is None
        }),
{
    let live = v.live_storage();
    let out = protocol::store_msgs(data, ids, live, r, ids.len());
    let w = v.sent_all(out);
    let m: Map<Seq<u8>, Set<u32>> = Map::empty();
    let t = v.net.clock as nat + progress::hop(v.net);
    durability::lemma_store_msgs_kind(data, ids, live, r, ids.len());
    durability::lemma_client_sends(v, out);
    simulation::lemma_sent_all_frame(v.net, out);
    simulation::lemma_live(v);
    durability::lemma_acks_awaited(w, m, ids, quorum, w.deadline());
    let from = |id: Seq<u8>| placement::placed(id, live, r).to_set().difference(cut);
    assert forall|i: int| 0 <= i < ids.len() implies {
        let s = from(#[trigger] ids[i]);
        &&& s.finite()
        &&& quorum <= s.len()
        &&& forall|node: u32| #[trigger]
            s.contains(node) ==> node < w.storages.len() && progress::reaches_storage(w.net, node)
    } by {
        let to = placement::placed(ids[i], live, r);
        let s = from(ids[i]);
        placement::law_placement(ids[i], live, r);
        to.unique_seq_to_set();
        assert(to.to_set().subset_of(s + cut));
        vstd::set_lib::lemma_len_union(s, cut);
        vstd::set_lib::lemma_len_subset(to.to_set(), s + cut);
        assert forall|node: u32| #[trigger] s.contains(node) implies node < w.storages.len()
            && progress::reaches_storage(w.net, node) by {
            assert(to.contains(node));
            assert(live.contains(node));
        }
    }
    assert forall|i: int, node: u32|
        0 <= i < ids.len() && #[trigger] from(#[trigger] ids[i]).contains(
            node,
        ) implies ack_coming(w, node, ids[i], t) by {
        let to = placement::placed(ids[i], live, r);
        assert(to.contains(node));
        let j = choose|j: int| 0 <= j < to.len() && to[j] == node;
        let k = lemma_stored_at(data, ids, live, r, ids.len(), i, j);
        assert(progress::reaches_storage(w.net, node));
        progress::lemma_sent_is_coming(v.net, out, k, t);
        assert(progress::coming(w.net, protocol::store_msg(node, ids[i], data[ids[i]]), t));
    }
    lemma_acks_come(w, m, ids, quorum, from, t, w.deadline());
}

/// On a quiet network, with enough storage nodes and metadata nodes in reach, a replicated write
/// succeeds when the namespace allows it, and is refused when it does not.
pub proof fn law_replicated_writes_succeed(
    v: ClusterV,
    p: u32,
    history: Seq<MetaOpV>,
    backups: Set<u32>,
    at: Seq<char>,
    bytes: Seq<u8>,
    cut: Set<u32>,
)
    requires
        soundness::sound(v),
        replicas::steady(v, p, history),
        commits::can_commit(v, p, history, backups),
        history.len() < u64::MAX,
        progress::quiet(v.net),
        progress::reaches_meta(v.net, p),
        v.opts.erasure is None,
        path::normal(at),
        cut_off(v, cut),
        v.opts.write_quorum + cut.len() <= v.target(),
        4 * progress::hop(v.net) < v.opts.op_deadline,
        progress::room_left(v.written(at, bytes).0),
    ensures
        v.written(at, bytes).1 == (match truth::names(v, p).validated(
            MetaOpV::Put { path: at, manifest: truth::manifest_for(v, bytes) },
        ) {
            Ok(_) => Ok::<(), ErrorV>(()),
            Err(c) => Err::<(), ErrorV>(message::meta_error(c, at)),
        }),
{
    let live = v.live_storage();
    let quorum = v.opts.write_quorum as nat;
    let size = v.opts.chunk_size as nat;
    let op = MetaOpV::Put { path: at, manifest: truth::manifest_for(v, bytes) };
    let chunks = chunk::chunks_of(bytes, size);
    let data = protocol::distinct_chunks(chunks, chunks.len());
    let ids = ordmap::in_order::<crate::hash::Hash>(data.dom());
    let r = v.opts.replication_factor as nat;
    let out = protocol::store_msgs(data, ids, live, r, ids.len());
    let none: Map<Seq<u8>, Set<u32>> = Map::empty();
    durability::lemma_store_msgs_kind(data, ids, live, r, ids.len());
    durability::lemma_client_sends(v, out);
    replicas::lemma_steady_sends(v, p, history, out);
    simulation::lemma_sent_all_frame(v.net, out);
    let w = v.sent_all(out);
    durability::lemma_acks_awaited(w, none, ids, quorum, w.deadline());
    replicas::lemma_steady_acks(w, p, history, none, ids, quorum, w.deadline());
    commits::lemma_can_commit_acks(w, p, history, backups, none, ids, quorum, w.deadline());
    truth::lemma_idle_acks(w, p, none, ids, quorum, w.deadline());
    let x = w.acks_awaited(none, ids, quorum, w.deadline()).0;
    soundness::lemma_extends_transitive(v, w, x);
    durability::law_meta_operation_keeps_sound(x, op, at);
    durability::lemma_distinct_chunks(chunks, chunks.len());
    ordmap::lemma_order_of::<crate::hash::Hash>(data.dom());
    assert forall|i: int| 0 <= i < ids.len() implies hash::digest(data[#[trigger] ids[i]])
        == ids[i] by {
        assert(ids.to_set().contains(ids[i]));
        let j = choose|j: int|
            0 <= j < chunks.len() && (#[trigger] chunks[j]).id == ids[i] && chunks[j].data
                == data[ids[i]];
        assert(chunks[j].id == hash::digest(chunks[j].data));
    }
    lemma_store_succeeds(v, data, ids, r, quorum, cut);
    commits::law_operations_succeed(x, p, history, backups, op, at);
}

/// What is acknowledged stays acknowledged.
proof fn lemma_acked_stays(acked: Set<Seq<u8>>, inbox: Seq<Letter>, n: nat, id: Seq<u8>)
    requires
        acked.contains(id),
    ensures
        protocol::acked_after(acked, inbox, n).contains(id),
    decreases n,
{
    if n > 0 {
        lemma_acked_stays(acked, inbox, (n - 1) as nat, id);
    }
}

proof fn lemma_ack_is_acked(
    acked: Set<Seq<u8>>,
    inbox: Seq<Letter>,
    n: nat,
    i: int,
    node: u32,
    id: Seq<u8>,
)
    requires
        0 <= i < n <= inbox.len(),
        acks(inbox[i], node, id),
    ensures
        protocol::acked_after(acked, inbox, n).contains(id),
    decreases n,
{
    if i < n - 1 {
        lemma_ack_is_acked(acked, inbox, (n - 1) as nat, i, node, id);
    }
}

/// Every shard of a group is acknowledged, or its node's acknowledgement is here or arrives in
/// time.
spec fn group_due(
    v: ClusterV,
    acked: Set<Seq<u8>>,
    group: Seq<ChunkV>,
    homes: Map<Seq<u8>, u32>,
    t: nat,
) -> bool {
    forall|i: int|
        0 <= i < group.len() ==> {
            let id = (#[trigger] group[i]).id;
            let node = homes[id];
            &&& node < v.storages.len()
            &&& progress::reaches_storage(v.net, node)
            &&& acked.contains(id) || ack_here(v, node, id) || ack_coming(v, node, id, t)
        }
}

/// When every shard is acknowledged, every position counts.
proof fn lemma_all_positions(group: Seq<ChunkV>, acked: Set<Seq<u8>>)
    requires
        forall|i: int| 0 <= i < group.len() ==> acked.contains((#[trigger] group[i]).id),
    ensures
        protocol::acked_positions(group, acked) == group.len(),
{
    let ids = protocol::ids_of(group);
    let f = |id: Seq<u8>| acked.contains(id);
    assert forall|i: int| 0 <= i < ids.len() implies f(#[trigger] ids[i]) by {
        assert(acked.contains(group[i].id));
    }
    lemma_filter_all(ids, f);
}

proof fn lemma_filter_all(s: Seq<Seq<u8>>, f: spec_fn(Seq<u8>) -> bool)
    requires
        forall|i: int| 0 <= i < s.len() ==> f(#[trigger] s[i]),
    ensures
        s.filter(f).len() == s.len(),
    decreases s.len(),
{
    reveal(Seq::filter);
    if s.len() > 0 {
        assert forall|i: int| 0 <= i < s.drop_last().len() implies f(
            #[trigger] s.drop_last()[i],
        ) by {
            assert(f(s[i]));
        }
        lemma_filter_all(s.drop_last(), f);
        assert(f(s[s.len() - 1]));
    }
}

proof fn lemma_groups_come(
    v: ClusterV,
    acked: Set<Seq<u8>>,
    groups: Seq<Seq<ChunkV>>,
    quorum: nat,
    homes: Seq<Map<Seq<u8>, u32>>,
    t: nat,
    deadline: u64,
)
    requires
        soundness::sound(v),
        progress::quiet(v.net),
        durability::true_acked(v, acked),
        homes.len() == groups.len(),
        forall|g: int| 0 <= g < groups.len() ==> quorum <= (#[trigger] groups[g]).len(),
        forall|g: int|
            0 <= g < groups.len() ==> group_due(v, acked, #[trigger] groups[g], homes[g], t),
        t + progress::hop(v.net) < deadline,
        v.groups_awaited(acked, groups, quorum, deadline).0.net.seq < u64::MAX,
    ensures
        v.groups_awaited(acked, groups, quorum, deadline).1 is None,
    decreases u64::MAX - v.net.seq, v.net.queue.len(),
{
    let w = v.inbox_taken();
    let now = protocol::acked_after(acked, v.inbox, v.inbox.len());
    soundness::lemma_inbox_taken_sound(v);
    durability::lemma_acked_after(v, acked, v.inbox.len());
    assert forall|g: int, i: int|
        #![trigger groups[g][i]]
        0 <= g < groups.len() && 0 <= i < groups[g].len() implies now.contains(groups[g][i].id)
        || ack_coming(w, homes[g][groups[g][i].id], groups[g][i].id, t) by {
        let id = groups[g][i].id;
        let node = homes[g][id];
        assert(group_due(v, acked, groups[g], homes[g], t));
        assert(groups[g][i].id == id);
        if acked.contains(id) {
            lemma_acked_stays(acked, v.inbox, v.inbox.len(), id);
        } else if ack_here(v, node, id) {
            let k = choose|k: int| 0 <= k < v.inbox.len() && acks(#[trigger] v.inbox[k], node, id);
            lemma_ack_is_acked(acked, v.inbox, v.inbox.len(), k, node, id);
        } else {
            lemma_ack_coming_frame(v, w, node, id, t);
        }
    }
    if !protocol::groups_met(groups, now, quorum) {
        let g = choose|g: int|
            0 <= g < groups.len() && protocol::acked_positions(#[trigger] groups[g], now) < quorum;
        let group = groups[g];
        if forall|i: int| 0 <= i < group.len() ==> now.contains((#[trigger] group[i]).id) {
            lemma_all_positions(group, now);
        }
        let i = choose|i: int| 0 <= i < group.len() && !now.contains((#[trigger] group[i]).id);
        let id = groups[g][i].id;
        let node = homes[g][id];
        assert(group_due(v, acked, groups[g], homes[g], t));
        assert(ack_coming(w, node, id, t));
        lemma_ack_in_time(w, node, id, t);
        let y = w.pumped().0;
        soundness::lemma_pumped_sound(w);
        simulation::lemma_pump_progress(w);
        durability::lemma_true_acked_grows(v, y, now);
        durability::lemma_groups_awaited(y, now, groups, quorum, deadline);
        lemma_ack_pumped(w, node, id, t);
        assert forall|h: int| 0 <= h < groups.len() implies group_due(
            y,
            now,
            #[trigger] groups[h],
            homes[h],
            t,
        ) by {
            assert forall|j: int| 0 <= j < groups[h].len() implies {
                let id = (#[trigger] groups[h][j]).id;
                let node = homes[h][id];
                &&& node < y.storages.len()
                &&& progress::reaches_storage(y.net, node)
                &&& now.contains(id) || ack_here(y, node, id) || ack_coming(y, node, id, t)
            } by {
                let id = groups[h][j].id;
                let node = homes[h][id];
                assert(group_due(v, acked, groups[h], homes[h], t));
                if !now.contains(id) {
                    assert(ack_coming(w, node, id, t));
                    lemma_ack_pumped(w, node, id, t);
                }
            }
        }
        lemma_groups_come(y, now, groups, quorum, homes, t, deadline);
    }
}

/// On a quiet network, with enough storage nodes and metadata nodes, all in reach, an
/// erasure-coded write succeeds when the namespace allows it, and is refused when it does not.
pub proof fn law_erasure_writes_succeed(
    v: ClusterV,
    p: u32,
    history: Seq<MetaOpV>,
    backups: Set<u32>,
    at: Seq<char>,
    bytes: Seq<u8>,
    er: Erasure,
)
    requires
        soundness::sound(v),
        replicas::steady(v, p, history),
        commits::can_commit(v, p, history, backups),
        history.len() < u64::MAX,
        progress::quiet(v.net),
        progress::reaches_meta(v.net, p),
        v.opts.erasure == Some(er),
        path::normal(at),
        forall|i: u32| #[trigger]
            v.live_storage().contains(i) ==> progress::reaches_storage(v.net, i),
        er.k + er.m <= v.live_storage().len(),
        v.opts.write_quorum <= er.k + er.m,
        4 * progress::hop(v.net) < v.opts.op_deadline,
        progress::room_left(v.written(at, bytes).0),
    ensures
        v.written(at, bytes).1 == (match truth::names(v, p).validated(
            MetaOpV::Put { path: at, manifest: truth::manifest_for(v, bytes) },
        ) {
            Ok(_) => Ok::<(), ErrorV>(()),
            Err(c) => Err::<(), ErrorV>(message::meta_error(c, at)),
        }),
{
    let live = v.live_storage();
    let groups = protocol::shard_groups(bytes, v.group_size(), er);
    let quorum = protocol::larger(v.opts.write_quorum as nat, er.k as nat);
    let op = MetaOpV::Put { path: at, manifest: truth::manifest_for(v, bytes) };
    let out = protocol::spread(groups, live, groups.len()).msgs;
    let none: Set<Seq<u8>> = Set::empty();
    durability::lemma_spread_kind(groups, live, groups.len());
    durability::lemma_client_sends(v, out);
    replicas::lemma_steady_sends(v, p, history, out);
    simulation::lemma_sent_all_frame(v.net, out);
    simulation::lemma_live(v);
    let w = v.sent_all(out);
    let t = v.net.clock as nat + progress::hop(v.net);
    assert(durability::true_acked(w, none));
    durability::lemma_groups_awaited(w, none, groups, quorum, w.deadline());
    replicas::lemma_steady_groups(w, p, history, none, groups, quorum, w.deadline());
    commits::lemma_can_commit_groups(w, p, history, backups, none, groups, quorum, w.deadline());
    truth::lemma_idle_groups(w, p, none, groups, quorum, w.deadline());
    let x = w.groups_awaited(none, groups, quorum, w.deadline()).0;
    soundness::lemma_extends_transitive(v, w, x);
    durability::law_meta_operation_keeps_sound(x, op, at);
    let homes = Seq::new(
        groups.len(),
        |g: int|
            choose|h: Map<Seq<u8>, u32>| #[trigger] spreading::homes_for(out, groups[g], live, h),
    );
    assert forall|g: int| 0 <= g < groups.len() implies group_due(
        w,
        none,
        #[trigger] groups[g],
        homes[g],
        t,
    ) by {
        let h = spreading::law_shards_on_distinct_nodes(groups, live, g, groups.len());
        assert(spreading::homes_for(out, groups[g], live, homes[g]));
        assert forall|i: int| 0 <= i < groups[g].len() implies {
            let id = (#[trigger] groups[g][i]).id;
            let node = homes[g][id];
            &&& node < w.storages.len()
            &&& progress::reaches_storage(w.net, node)
            &&& ack_coming(w, node, id, t)
        } by {
            let id = groups[g][i].id;
            let node = homes[g][id];
            assert(live.contains(node));
            let d = choose|d: Seq<u8>| #[trigger]
                out.contains(protocol::store_msg(node, id, d));
            let k = choose|k: int| 0 <= k < out.len() && out[k] == protocol::store_msg(node, id, d);
            spreading::lemma_spread_is_genuine(groups, live, groups.len());
            assert(spreading::genuine_store(out[k]));
            progress::lemma_sent_is_coming(v.net, out, k, t);
            assert(progress::coming(w.net, protocol::store_msg(node, id, d), t));
        }
    }
    lemma_groups_come(w, none, groups, quorum, homes, t, w.deadline());
    commits::law_operations_succeed(x, p, history, backups, op, at);
}

} // verus!

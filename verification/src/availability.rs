//! What is stored can be read: on a quiet network a read finds every chunk that enough
//! nodes in reach hold, and the file that was written comes back byte for byte.

use crate::chunk::{ChunkV, ManifestV};
use crate::durability;
use crate::error::ErrorV;
use crate::hash;
use crate::message::{MessageV, MetaOpV, NodeId, QueryV};
use crate::metadata::{self, MetaV};
use crate::net::{self, NetV};
use crate::ordmap;
use crate::progress;
use crate::protocol::{self, Gathered};
use crate::simulation::{self, ClusterV, Letter};
use crate::soundness;
use crate::truth;
use crate::wire;
use vstd::prelude::*;

verus! {

/// A chunk on its way from a storage node to the client.
pub open spec fn data_env(node: u32, id: Seq<u8>, data: Seq<u8>) -> wire::Envelope {
    wire::Envelope {
        from: NodeId::Storage(node),
        to: NodeId::Client,
        msg: MessageV::ChunkData { id, data: Some(data) },
    }
}

/// Whether a letter brings a chunk, verified, from a node.
pub open spec fn brings(l: Letter, node: u32, id: Seq<u8>) -> bool {
    l.from == NodeId::Storage(node) && (l.msg matches MessageV::ChunkData { id: i, data: Some(d) }
        && i == id && hash::digest(d) == id)
}

/// Whether a chunk was gathered from a node.
pub open spec fn got(g: Gathered, node: u32, id: Seq<u8>) -> bool {
    g.have.dom().contains(id) && protocol::noted_for(g.sources, id).contains(node)
}

/// A node's copy of a chunk was gathered, lies in the inbox, or arrives in time.
spec fn fetch_due(v: ClusterV, g: Gathered, node: u32, id: Seq<u8>, t: nat) -> bool {
    ||| got(g, node, id)
    ||| exists|i: int| 0 <= i < v.inbox.len() && brings(#[trigger] v.inbox[i], node, id)
    ||| fetch_coming(v, node, id, t)
}

/// Whether a message hands a chunk to a node.
pub open spec fn hands(e: wire::Envelope, node: u32, id: Seq<u8>) -> bool {
    e.from == NodeId::Client && e.to == NodeId::Storage(node) && (
    e.msg matches MessageV::StoreChunk { id: i, data } && i == id && hash::digest(data) == id)
}

/// The request for a node's copy arrives in time, and behind the copy.
spec fn fetch_behind(n: NetV, node: u32, id: Seq<u8>, t: nat) -> bool {
    exists|i: int, j: int|
        0 <= i < j < n.queue.len() && hands((#[trigger] n.queue[i]).env, node, id) && (
        #[trigger] n.queue[j]).env == protocol::fetch_msg(node, id) && n.queue[j].time <= t
}

/// The request for a node's copy, or the copy itself, arrives in time.
spec fn fetch_coming(v: ClusterV, node: u32, id: Seq<u8>, t: nat) -> bool {
    ||| progress::coming(v.net, protocol::fetch_msg(node, id), t) && soundness::holds(
        v.storages,
        node,
        id,
    )
    ||| fetch_behind(v.net, node, id, t)
    ||| exists|d: Seq<u8>|
        hash::digest(d) == id && progress::coming(
            v.net,
            #[trigger] data_env(node, id, d),
            t + progress::hop(v.net),
        )
}

/// What was gathered stays gathered.
proof fn lemma_got_stays(g: Gathered, inbox: Seq<Letter>, n: nat, node: u32, id: Seq<u8>)
    requires
        got(g, node, id),
    ensures
        got(g.with_all(inbox, n), node, id),
    decreases n,
{
    if n > 0 {
        lemma_got_stays(g, inbox, (n - 1) as nat, node, id);
    }
}

proof fn lemma_brought_is_got(
    g: Gathered,
    inbox: Seq<Letter>,
    n: nat,
    i: int,
    node: u32,
    id: Seq<u8>,
)
    requires
        0 <= i < n <= inbox.len(),
        brings(inbox[i], node, id),
    ensures
        got(g.with_all(inbox, n), node, id),
    decreases n,
{
    if i < n - 1 {
        lemma_brought_is_got(g, inbox, (n - 1) as nat, i, node, id);
    }
}

/// The nodes noted for each chunk are finitely many.
spec fn finite_sources(g: Gathered) -> bool {
    forall|id: Seq<u8>| (#[trigger] protocol::noted_for(g.sources, id)).finite()
}

proof fn lemma_finite_sources(g: Gathered, inbox: Seq<Letter>, n: nat)
    requires
        finite_sources(g),
    ensures
        finite_sources(g.with_all(inbox, n)),
    decreases n,
{
    if n > 0 {
        lemma_finite_sources(g, inbox, (n - 1) as nat);
        let b = g.with_all(inbox, (n - 1) as nat);
        let c = g.with_all(inbox, n);
        assert forall|id: Seq<u8>| (#[trigger] protocol::noted_for(c.sources, id)).finite() by {
            assert(protocol::noted_for(b.sources, id).finite());
        }
    }
}

proof fn lemma_fetch_behind_sends(
    n: NetV,
    out: Seq<wire::Envelope>,
    node: u32,
    id: Seq<u8>,
    t: nat,
)
    requires
        fetch_behind(n, node, id, t),
    ensures
        fetch_behind(n.sent_all(out), node, id, t),
    decreases out.len(),
{
    if out.len() > 0 {
        let w = n.sent_all(out.drop_last());
        lemma_fetch_behind_sends(n, out.drop_last(), node, id, t);
        let (i, j) = choose|i: int, j: int|
            0 <= i < j < w.queue.len() && hands((#[trigger] w.queue[i]).env, node, id) && (
            #[trigger] w.queue[j]).env == protocol::fetch_msg(node, id) && w.queue[j].time <= t;
        if !w.loses(out.last()) {
            let f = net::Flight {
                time: net::later(w.clock as nat, w.latency()),
                seq: w.seq,
                env: out.last(),
            };
            let at = net::lemma_enqueued_split(w.queue, f);
            let q = n.sent_all(out).queue;
            let a = if i < at {
                i
            } else {
                i + 1
            };
            let b = if j < at {
                j
            } else {
                j + 1
            };
            assert(q[a] == w.queue[i] && q[b] == w.queue[j]);
        }
    }
}

/// The copy that a request comes behind is delivered first.
proof fn lemma_fetch_behind_pumped(v: ClusterV, node: u32, id: Seq<u8>, t: nat)
    requires
        soundness::sound(v),
        progress::quiet(v.net),
        progress::reaches_storage(v.net, node),
        node < v.storages.len(),
        fetch_behind(v.net, node, id, t),
    ensures
        v.pumped().1,
        fetch_coming(v.pumped().0, node, id, t),
{
    let (n, d) = v.net.stepped();
    let at = net::law_step(v.net);
    let q = v.net.queue;
    let ask = protocol::fetch_msg(node, id);
    let (i, j) = choose|i: int, j: int|
        0 <= i < j < q.len() && hands((#[trigger] q[i]).env, node, id) && (#[trigger] q[j]).env == ask
            && q[j].time <= t;
    assert(v.net.connected(q[i].env.from, q[i].env.to));
    assert(at <= i);
    let env = d->Some_0;
    let (x, out) = v.with_net(n).delivered(env);
    assert(n.queue[j - at - 1] == q[j]);
    if at == i {
        assert(n.queue[j - at - 1].env == ask);
        progress::lemma_coming_sends(x.net, out, ask, t);
        assert(soundness::holds(v.pumped().0.storages, node, id));
    } else {
        assert(n.queue[i - at - 1] == q[i]);
        lemma_fetch_behind_sends(x.net, out, node, id, t);
    }
}

proof fn lemma_fetch_pumped(v: ClusterV, node: u32, id: Seq<u8>, t: nat)
    requires
        soundness::sound(v),
        progress::quiet(v.net),
        progress::reaches_storage(v.net, node),
        node < v.storages.len(),
        fetch_coming(v, node, id, t),
        v.inbox.len() == 0,
        v.pumped().0.net.seq < u64::MAX,
    ensures
        v.pumped().1,
        fetch_due(v.pumped().0, Gathered::nothing(), node, id, t),
{
    let (n, d) = v.net.stepped();
    let y = v.pumped().0;
    let at = net::law_step(v.net);
    let h = progress::hop(v.net);
    soundness::lemma_pumped_sound(v);
    let ask = protocol::fetch_msg(node, id);
    if progress::coming(v.net, ask, t) && soundness::holds(v.storages, node, id) {
        progress::lemma_coming_in_time(v, ask, t);
        progress::lemma_coming_stepped(v.net, ask, t);
        let env = d->Some_0;
        let (x, out) = v.with_net(n).delivered(env);
        simulation::lemma_sent_all_frame(x.net, out);
        if env == ask {
            let data = v.storages[node as int].store[id];
            assert(v.storages[node as int].sound());
            assert(v.storages[node as int].idx == node);
            assert(out[0] == data_env(node, id, data));
            progress::lemma_sent_is_coming(x.net, out, 0, t + h);
            assert(progress::coming(y.net, data_env(node, id, data), t + progress::hop(y.net)));
        } else {
            progress::lemma_coming_sends(x.net, out, ask, t);
            assert(soundness::holds(y.storages, node, id));
        }
    } else if fetch_behind(v.net, node, id, t) {
        lemma_fetch_behind_pumped(v, node, id, t);
    } else {
        let data = choose|d: Seq<u8>|
            hash::digest(d) == id && progress::coming(
                v.net,
                #[trigger] data_env(node, id, d),
                t + h,
            );
        let e = data_env(node, id, data);
        progress::lemma_coming_in_time(v, e, t + h);
        progress::lemma_coming_stepped(v.net, e, t + h);
        let env = d->Some_0;
        let (x, out) = v.with_net(n).delivered(env);
        simulation::lemma_sent_all_frame(x.net, out);
        if env == e {
            assert(brings(y.inbox[0], node, id));
        } else {
            progress::lemma_coming_sends(x.net, out, e, t + h);
            assert(progress::coming(y.net, data_env(node, id, data), t + progress::hop(y.net)));
        }
    }
}

/// Who should send each of some chunks: nodes that the client reaches.
pub open spec fn senders(v: ClusterV, ids: Seq<Seq<u8>>, from: Map<Seq<u8>, Set<u32>>) -> bool {
    forall|i: int|
        0 <= i < ids.len() ==> {
            let s = from[#[trigger] ids[i]];
            &&& s.finite()
            &&& forall|node: u32| #[trigger]
                s.contains(node) ==> progress::reaches_storage(v.net, node) && node
                    < v.storages.len()
        }
}

/// Whether every chunk that enough nodes should send was gathered.
pub open spec fn all_gathered(
    g: Gathered,
    ids: Seq<Seq<u8>>,
    quorum: nat,
    from: Map<Seq<u8>, Set<u32>>,
) -> bool {
    forall|i: int|
        0 <= i < ids.len() && from[#[trigger] ids[i]].len() >= protocol::larger(quorum, 1)
            ==> g.enough(ids[i], quorum)
}

/// Every copy that should come was gathered, lies in the inbox or arrives in time.
spec fn all_due(
    v: ClusterV,
    g: Gathered,
    ids: Seq<Seq<u8>>,
    from: Map<Seq<u8>, Set<u32>>,
    t: nat,
) -> bool {
    forall|i: int, node: u32|
        0 <= i < ids.len() && #[trigger] from[#[trigger] ids[i]].contains(node) ==> fetch_due(
            v,
            g,
            node,
            ids[i],
            t,
        )
}

proof fn lemma_gathered_comes(
    v: ClusterV,
    g: Gathered,
    ids: Seq<Seq<u8>>,
    quorum: nat,
    from: Map<Seq<u8>, Set<u32>>,
    t: nat,
    deadline: u64,
)
    requires
        soundness::sound(v),
        progress::quiet(v.net),
        senders(v, ids, from),
        finite_sources(g),
        durability::genuine(g),
        all_due(v, g, ids, from, t),
        t + progress::hop(v.net) < deadline,
        v.chunks_gathered(g, ids, quorum, deadline).0.net.seq < u64::MAX,
    ensures
        all_gathered(v.chunks_gathered(g, ids, quorum, deadline).1, ids, quorum, from),
    decreases u64::MAX - v.net.seq, v.net.queue.len(),
{
    let w = v.inbox_taken();
    let now = g.with_all(v.inbox, v.inbox.len());
    soundness::lemma_inbox_taken_sound(v);
    lemma_finite_sources(g, v.inbox, v.inbox.len());
    durability::lemma_with_all_genuine(g, v.inbox, v.inbox.len());
    // What is still missing is on its way.
    assert forall|i: int, node: u32|
        0 <= i < ids.len() && #[trigger] from[#[trigger] ids[i]].contains(node) implies got(
        now,
        node,
        ids[i],
    ) || fetch_coming(w, node, ids[i], t) by {
        let id = ids[i];
        assert(fetch_due(v, g, node, id, t));
        if got(g, node, id) {
            lemma_got_stays(g, v.inbox, v.inbox.len(), node, id);
        } else if exists|k: int|
            0 <= k < v.inbox.len() && brings(#[trigger] v.inbox[k], node, id) {
            let k = choose|k: int|
                0 <= k < v.inbox.len() && brings(#[trigger] v.inbox[k], node, id);
            lemma_brought_is_got(g, v.inbox, v.inbox.len(), k, node, id);
        } else {
            assert(fetch_coming(v, node, id, t));
            if progress::coming(v.net, protocol::fetch_msg(node, id), t) && soundness::holds(
                v.storages,
                node,
                id,
            ) {
            } else if fetch_behind(v.net, node, id, t) {
                assert(fetch_behind(w.net, node, id, t));
            } else {
                let d = choose|d: Seq<u8>|
                    hash::digest(d) == id && progress::coming(
                        v.net,
                        #[trigger] data_env(node, id, d),
                        t + progress::hop(v.net),
                    );
                assert(progress::coming(
                    w.net,
                    data_env(node, id, d),
                    t + progress::hop(w.net),
                ));
            }
        }
    }
    if !now.enough_all(ids, quorum) {
        let y = w.pumped().0;
        soundness::lemma_pumped_sound(w);
        simulation::lemma_pump_progress(w);
        durability::lemma_chunks_gathered(y, now, ids, quorum, deadline);
        if w.net.clock < deadline && w.pumped().1 {
            assert forall|k: int, o: u32|
                0 <= k < ids.len() && #[trigger] from[#[trigger] ids[k]].contains(
                    o,
                ) implies fetch_due(y, now, o, ids[k], t) by {
                if !got(now, o, ids[k]) {
                    assert(fetch_coming(w, o, ids[k], t));
                    lemma_fetch_pumped(w, o, ids[k], t);
                }
            }
            lemma_gathered_comes(y, now, ids, quorum, from, t, deadline);
        } else {
            assert forall|i: int|
                0 <= i < ids.len() && from[#[trigger] ids[i]].len() >= protocol::larger(
                    quorum,
                    1,
                ) implies now.enough(ids[i], quorum) by {
                let id = ids[i];
                let s = from[id];
                let have = protocol::noted_for(now.sources, id);
                assert forall|node: u32| #[trigger] s.contains(node) implies got(now, node, id) by {
                    assert(from[ids[i]].contains(node));
                    if !got(now, node, id) {
                        lemma_fetch_in_time(w, node, id, t);
                        lemma_fetch_pumped(w, node, id, t);
                    }
                }
                assert(s.subset_of(have));
                vstd::set_lib::lemma_len_subset(s, have);
                let some = s.choose();
                assert(s.contains(some));
            }
        }
    }
}

proof fn lemma_fetch_in_time(v: ClusterV, node: u32, id: Seq<u8>, t: nat)
    requires
        soundness::sound(v),
        fetch_coming(v, node, id, t),
    ensures
        v.net.clock <= t + progress::hop(v.net),
{
    if progress::coming(v.net, protocol::fetch_msg(node, id), t) {
        progress::lemma_coming_in_time(v, protocol::fetch_msg(node, id), t);
    } else if fetch_behind(v.net, node, id, t) {
    } else {
        let d = choose|d: Seq<u8>|
            hash::digest(d) == id && progress::coming(
                v.net,
                #[trigger] data_env(node, id, d),
                t + progress::hop(v.net),
            );
        progress::lemma_coming_in_time(v, data_env(node, id, d), t + progress::hop(v.net));
    }
}

/// The place of a request among those that are sent.
proof fn lemma_asked_for(ids: Seq<Seq<u8>>, live: Seq<u32>, n: nat, i: int, j: int) -> (k: int)
    requires
        0 <= i < n <= ids.len(),
        0 <= j < live.len(),
    ensures
        0 <= k < protocol::fetch_msgs(ids, live, n).len(),
        protocol::fetch_msgs(ids, live, n)[k] == protocol::fetch_msg(live[j], ids[i]),
    decreases n,
{
    let before = protocol::fetch_msgs(ids, live, (n - 1) as nat);
    if i < n - 1 {
        lemma_asked_for(ids, live, (n - 1) as nat, i, j)
    } else {
        before.len() + j
    }
}

/// Whether a node holds a chunk, or gets it before any request that is sent now reaches it.
pub open spec fn supplies(v: ClusterV, node: u32, id: Seq<u8>) -> bool {
    ||| soundness::holds(v.storages, node, id)
    ||| node < v.storages.len() && exists|i: int|
        0 <= i < v.net.queue.len() && hands((#[trigger] v.net.queue[i]).env, node, id)
            && v.net.queue[i].time <= v.net.clock + v.net.params.base_latency
}

/// A request that is sent now comes behind a copy that is due within the base latency.
proof fn lemma_asked_behind(v: ClusterV, out: Seq<wire::Envelope>, k: int, node: u32, id: Seq<u8>)
    requires
        soundness::sound(v),
        soundness::sound(v.sent_all(out)),
        progress::quiet(v.net),
        progress::reaches_storage(v.net, node),
        0 <= k < out.len(),
        out[k] == protocol::fetch_msg(node, id),
        v.net.sent_all(out).seq < u64::MAX,
        v.net.clock + progress::hop(v.net) < u64::MAX,
        exists|i: int|
            0 <= i < v.net.queue.len() && hands((#[trigger] v.net.queue[i]).env, node, id)
                && v.net.queue[i].time <= v.net.clock + v.net.params.base_latency,
    ensures
        fetch_behind(
            v.sent_all(out).net,
            node,
            id,
            v.net.clock as nat + progress::hop(v.net),
        ),
{
    let t = v.net.clock as nat + progress::hop(v.net);
    let i = choose|i: int|
        0 <= i < v.net.queue.len() && hands((#[trigger] v.net.queue[i]).env, node, id)
            && v.net.queue[i].time <= v.net.clock + v.net.params.base_latency;
    let q = v.net.sent_all(out).queue;
    let a = progress::lemma_flight_stays(v.net, out, i);
    let b = progress::lemma_sent_takes_time(v.net, out, k, t);
    assert(v.net.queue[i].seq < v.net.seq);
    assert(net::due_before(q[a], q[b]));
    if b < a {
        assert(net::due_before(q[b], q[a]));
    }
    assert(a < b);
}

/// On a quiet network a fetch gathers every chunk that enough nodes in reach hold, or get
/// before they are asked.
pub proof fn lemma_fetch_succeeds(
    v: ClusterV,
    ids: Seq<Seq<u8>>,
    quorum: nat,
    from: Map<Seq<u8>, Set<u32>>,
)
    requires
        soundness::sound(v),
        progress::quiet(v.net),
        senders(v, ids, from),
        forall|i: int, node: u32|
            0 <= i < ids.len() && #[trigger] from[#[trigger] ids[i]].contains(node) ==> supplies(
                v,
                node,
                ids[i],
            ),
        2 * progress::hop(v.net) < v.opts.op_deadline,
        progress::room_left(v.fetched(ids, quorum).0),
    ensures
        all_gathered(v.fetched(ids, quorum).1, ids, quorum, from),
{
    let live = v.live_storage();
    let out = protocol::fetch_msgs(ids, live, ids.len());
    let w = v.sent_all(out);
    let g = Gathered::nothing();
    let t = v.net.clock as nat + progress::hop(v.net);
    durability::lemma_fetch_msgs_kind(ids, live, ids.len());
    durability::lemma_client_sends(v, out);
    simulation::lemma_sent_all_frame(v.net, out);
    simulation::lemma_live(v);
    assert(durability::genuine(g));
    durability::lemma_chunks_gathered(w, g, ids, quorum, w.deadline());
    assert forall|i: int, node: u32|
        0 <= i < ids.len() && #[trigger] from[#[trigger] ids[i]].contains(
            node,
        ) implies fetch_due(w, g, node, ids[i], t) by {
        assert(supplies(v, node, ids[i]));
        assert(progress::reaches_storage(v.net, node));
        assert(live.contains(node));
        let j = choose|j: int| 0 <= j < live.len() && live[j] == node;
        let k = lemma_asked_for(ids, live, ids.len(), i, j);
        progress::lemma_sent_is_coming(v.net, out, k, t);
        if !soundness::holds(v.storages, node, ids[i]) {
            lemma_asked_behind(v, out, k, node, ids[i]);
        }
    }
    lemma_gathered_comes(w, g, ids, quorum, from, t, w.deadline());
}

/// When every chunk has enough copies, none is short.
proof fn lemma_none_short(g: Gathered, ids: Seq<Seq<u8>>, quorum: nat, n: nat)
    requires
        g.enough_all(ids, quorum),
    ensures
        protocol::first_short(g, ids, quorum, n) is None,
    decreases ids.len() - n,
{
    if n < ids.len() {
        assert(g.enough(ids[n as int], quorum));
        lemma_none_short(g, ids, quorum, n + 1);
    }
}

/// Whether a message, if it carries the chunk `id`, carries `data`.
pub open spec fn agrees(msg: MessageV, id: Seq<u8>, data: Seq<u8>) -> bool {
    match msg {
        MessageV::StoreChunk { id: i, data: d } => i == id ==> d == data,
        MessageV::Replicate { id: i, data: d } => i == id ==> d == data,
        MessageV::ChunkData { id: i, data: Some(d) } => i == id ==> d == data,
        _ => true,
    }
}

/// [`agrees`] for messages in flight.
pub open spec fn agreeing(id: Seq<u8>, data: Seq<u8>) -> spec_fn(wire::Envelope) -> bool {
    |e: wire::Envelope| agrees(e.msg, id, data)
}

/// Whatever the cluster knows under `id` is `data`: no other bytes with the same hash are
/// stored, in flight or in the inbox.
pub open spec fn single(v: ClusterV, id: Seq<u8>, data: Seq<u8>) -> bool {
    &&& forall|i: int|
        0 <= i < v.storages.len() && (#[trigger] v.storages[i]).store.dom().contains(id)
            ==> v.storages[i].store[id] == data
    &&& simulation::every(v.net.queue, agreeing(id, data))
    &&& forall|i: int| 0 <= i < v.inbox.len() ==> agrees((#[trigger] v.inbox[i]).msg, id, data)
}

pub proof fn lemma_single_sends(
    v: ClusterV,
    id: Seq<u8>,
    data: Seq<u8>,
    out: Seq<wire::Envelope>,
)
    requires
        single(v, id, data),
        forall|i: int| 0 <= i < out.len() ==> agrees((#[trigger] out[i]).msg, id, data),
    ensures
        single(v.sent_all(out), id, data),
{
    simulation::lemma_sent_all_every(v.net, out, agreeing(id, data));
}

/// Metadata nodes send no chunks.
pub proof fn lemma_metas_send_no_chunks(m: MetaV, from: NodeId, msg: MessageV)
    requires
        m.buffer.dom().finite(),
    ensures
        forall|i: int|
            0 <= i < m.handled(from, msg).1.len() ==> {
                let e = #[trigger] m.handled(from, msg).1[i];
                !(e.msg is StoreChunk) && !(e.msg is Replicate) && !(e.msg is ChunkData)
            },
{
    match msg {
        MessageV::MetaOpMsg { req_id, op } => {
            soundness::lemma_replication_kind(m.idx, m.peers, m.next_seq, op, m.peers.len());
        },
        MessageV::Heartbeat { node, chunks } => {
            let w = MetaV { holders: metadata::reported(m.holders, node, chunks), ..m };
            if w.is_primary {
                let ids = ordmap::in_order::<crate::hash::Hash>(metadata::referenced(w.ns.files));
                soundness::lemma_orders_kind(w, ids, ids.len());
            }
        },
        _ => {},
    }
}

/// Deliveries bring no other bytes under an id.
pub proof fn lemma_single_pumped(v: ClusterV, id: Seq<u8>, data: Seq<u8>)
    requires
        soundness::sound(v),
        single(v, id, data),
    ensures
        single(v.pumped().0, id, data),
{
    let (n, d) = v.net.stepped();
    let y = v.pumped().0;
    simulation::lemma_stepped_every(v.net, agreeing(id, data));
    if let Some(env) = d {
        let (x, out) = v.with_net(n).delivered(env);
        assert(agreeing(id, data)(env));
        assert forall|i: int| 0 <= i < out.len() implies agreeing(id, data)(#[trigger] out[i]) by {
            match env.to {
                NodeId::Meta(k) => {
                    if k < v.metas.len() {
                        lemma_metas_send_no_chunks(v.metas[k as int], env.from, env.msg);
                    }
                },
                _ => {},
            }
        }
        simulation::lemma_sent_all_every(x.net, out, agreeing(id, data));
        assert forall|i: int| 0 <= i < y.inbox.len() implies agrees(
            (#[trigger] y.inbox[i]).msg,
            id,
            data,
        ) by {
            if i < v.inbox.len() {
                assert(y.inbox[i] == v.inbox[i]);
            }
        }
    }
}

proof fn lemma_single_answer(
    v: ClusterV,
    id: Seq<u8>,
    data: Seq<u8>,
    req: u64,
    deadline: u64,
)
    requires
        soundness::sound(v),
        single(v, id, data),
    ensures
        single(v.answer_awaited(req, deadline).0, id, data),
    decreases u64::MAX - v.net.seq, v.net.queue.len(),
{
    let w = v.inbox_taken();
    soundness::lemma_inbox_taken_sound(v);
    soundness::lemma_pumped_sound(w);
    simulation::lemma_pump_progress(w);
    lemma_single_pumped(w, id, data);
    if protocol::answer_among(v.inbox, req, v.inbox.len()) is None && w.net.clock < deadline
        && w.pumped().1 {
        lemma_single_answer(w.pumped().0, id, data, req, deadline);
    }
}

proof fn lemma_single_commit(
    v: ClusterV,
    id: Seq<u8>,
    data: Seq<u8>,
    req: u64,
    deadline: u64,
)
    requires
        soundness::sound(v),
        single(v, id, data),
    ensures
        single(v.commit_awaited(req, deadline).0, id, data),
    decreases u64::MAX - v.net.seq, v.net.queue.len(),
{
    let w = v.inbox_taken();
    soundness::lemma_inbox_taken_sound(v);
    soundness::lemma_pumped_sound(w);
    simulation::lemma_pump_progress(w);
    lemma_single_pumped(w, id, data);
    if protocol::commit_among(v.inbox, req, v.inbox.len()) is None && w.net.clock < deadline
        && w.pumped().1 {
        lemma_single_commit(w.pumped().0, id, data, req, deadline);
    }
}

pub proof fn lemma_single_acks(
    v: ClusterV,
    id: Seq<u8>,
    data: Seq<u8>,
    acks: Map<Seq<u8>, Set<u32>>,
    ids: Seq<Seq<u8>>,
    quorum: nat,
    deadline: u64,
)
    requires
        soundness::sound(v),
        single(v, id, data),
    ensures
        single(v.acks_awaited(acks, ids, quorum, deadline).0, id, data),
    decreases u64::MAX - v.net.seq, v.net.queue.len(),
{
    let w = v.inbox_taken();
    let now = protocol::acks_after(acks, v.inbox, v.inbox.len());
    soundness::lemma_inbox_taken_sound(v);
    soundness::lemma_pumped_sound(w);
    simulation::lemma_pump_progress(w);
    lemma_single_pumped(w, id, data);
    if !protocol::quorum_met(now, ids, quorum) && w.net.clock < deadline && w.pumped().1 {
        lemma_single_acks(w.pumped().0, id, data, now, ids, quorum, deadline);
    }
}

pub proof fn lemma_single_groups(
    v: ClusterV,
    id: Seq<u8>,
    data: Seq<u8>,
    acked: Set<Seq<u8>>,
    groups: Seq<Seq<ChunkV>>,
    quorum: nat,
    deadline: u64,
)
    requires
        soundness::sound(v),
        single(v, id, data),
    ensures
        single(v.groups_awaited(acked, groups, quorum, deadline).0, id, data),
    decreases u64::MAX - v.net.seq, v.net.queue.len(),
{
    let w = v.inbox_taken();
    let now = protocol::acked_after(acked, v.inbox, v.inbox.len());
    soundness::lemma_inbox_taken_sound(v);
    soundness::lemma_pumped_sound(w);
    simulation::lemma_pump_progress(w);
    lemma_single_pumped(w, id, data);
    if !protocol::groups_met(groups, now, quorum) && w.net.clock < deadline && w.pumped().1 {
        lemma_single_groups(w.pumped().0, id, data, now, groups, quorum, deadline);
    }
}

/// Whether the bytes gathered under `id`, if any, are `data`.
pub open spec fn gathered_single(g: Gathered, id: Seq<u8>, data: Seq<u8>) -> bool {
    g.have.dom().contains(id) ==> g.have[id] == data
}

proof fn lemma_with_all_single(
    g: Gathered,
    inbox: Seq<Letter>,
    n: nat,
    id: Seq<u8>,
    data: Seq<u8>,
)
    requires
        n <= inbox.len(),
        gathered_single(g, id, data),
        forall|i: int| 0 <= i < inbox.len() ==> agrees((#[trigger] inbox[i]).msg, id, data),
    ensures
        gathered_single(g.with_all(inbox, n), id, data),
    decreases n,
{
    if n > 0 {
        lemma_with_all_single(g, inbox, (n - 1) as nat, id, data);
        assert(agrees(inbox[n - 1].msg, id, data));
    }
}

proof fn lemma_single_gathered(
    v: ClusterV,
    id: Seq<u8>,
    data: Seq<u8>,
    g: Gathered,
    ids: Seq<Seq<u8>>,
    quorum: nat,
    deadline: u64,
)
    requires
        soundness::sound(v),
        single(v, id, data),
        gathered_single(g, id, data),
    ensures
        single(v.chunks_gathered(g, ids, quorum, deadline).0, id, data),
        gathered_single(v.chunks_gathered(g, ids, quorum, deadline).1, id, data),
    decreases u64::MAX - v.net.seq, v.net.queue.len(),
{
    let w = v.inbox_taken();
    let now = g.with_all(v.inbox, v.inbox.len());
    lemma_with_all_single(g, v.inbox, v.inbox.len(), id, data);
    soundness::lemma_inbox_taken_sound(v);
    soundness::lemma_pumped_sound(w);
    simulation::lemma_pump_progress(w);
    lemma_single_pumped(w, id, data);
    if !now.enough_all(ids, quorum) && w.net.clock < deadline && w.pumped().1 {
        lemma_single_gathered(w.pumped().0, id, data, now, ids, quorum, deadline);
    }
}

proof fn lemma_single_asked(v: ClusterV, id: Seq<u8>, data: Seq<u8>, p: u32, msg: MessageV)
    requires
        single(v, id, data),
        agrees(msg, id, data),
    ensures
        single(v.asked(p, msg), id, data),
{
    let env = wire::Envelope { from: NodeId::Client, to: NodeId::Meta(p), msg };
    truth::lemma_sent_every(v.net, env, agreeing(id, data));
}

/// A query brings no other bytes under an id.
pub proof fn lemma_single_queried(v: ClusterV, id: Seq<u8>, data: Seq<u8>, q: QueryV)
    requires
        soundness::sound(v),
        single(v, id, data),
    ensures
        single(v.meta_queried(q).0, id, data),
{
    if v.primary() is Some && v.next_req < u64::MAX {
        let p = v.primary()->Some_0;
        let msg = MessageV::MetaQueryMsg { req_id: v.next_req, q };
        durability::lemma_asked(v, p, msg);
        lemma_single_asked(v, id, data, p, msg);
        let w = v.asked(p, msg);
        lemma_single_answer(w, id, data, v.next_req, w.deadline());
    }
}

/// An operation brings no other bytes under an id.
pub proof fn lemma_single_applied(
    v: ClusterV,
    id: Seq<u8>,
    data: Seq<u8>,
    op: MetaOpV,
    err_path: Seq<char>,
)
    requires
        soundness::sound(v),
        single(v, id, data),
    ensures
        single(v.meta_applied(op, err_path).0, id, data),
{
    if v.primary() is Some && v.next_req < u64::MAX {
        let p = v.primary()->Some_0;
        let msg = MessageV::MetaOpMsg { req_id: v.next_req, op };
        durability::lemma_asked(v, p, msg);
        lemma_single_asked(v, id, data, p, msg);
        let w = v.asked(p, msg);
        lemma_single_commit(w, id, data, v.next_req, w.deadline());
    }
}

pub proof fn lemma_single_fetched(
    v: ClusterV,
    id: Seq<u8>,
    data: Seq<u8>,
    ids: Seq<Seq<u8>>,
    quorum: nat,
)
    requires
        soundness::sound(v),
        single(v, id, data),
    ensures
        single(v.fetched(ids, quorum).0, id, data),
        gathered_single(v.fetched(ids, quorum).1, id, data),
{
    let live = v.live_storage();
    let out = protocol::fetch_msgs(ids, live, ids.len());
    durability::lemma_fetch_msgs_kind(ids, live, ids.len());
    durability::lemma_client_sends(v, out);
    assert forall|i: int| 0 <= i < out.len() implies agrees((#[trigger] out[i]).msg, id, data) by {
        assert(out[i].msg is FetchChunk);
    }
    lemma_single_sends(v, id, data, out);
    let w = v.sent_all(out);
    lemma_single_gathered(w, id, data, Gathered::nothing(), ids, quorum, w.deadline());
}

/// Whether at least `n` nodes that the client reaches hold a chunk.
pub open spec fn available(v: ClusterV, id: Seq<u8>, n: nat) -> bool {
    exists|s: Set<u32>| #[trigger] all_reached_hold(v, s, id) && s.finite() && s.len() >= n
}

/// Whether every one of some nodes is in reach of the client and holds a chunk.
pub open spec fn all_reached_hold(v: ClusterV, s: Set<u32>, id: Seq<u8>) -> bool {
    forall|i: u32| #[trigger]
        s.contains(i) ==> soundness::holds(v.storages, i, id) && progress::reaches_storage(
            v.net,
            i,
        )
}

/// Whether at least `n` nodes that the client reaches hold a chunk, or get it before any request
/// that is sent now reaches them.
pub open spec fn supplied(v: ClusterV, id: Seq<u8>, n: nat) -> bool {
    exists|s: Set<u32>| #[trigger] all_reached_supply(v, s, id) && s.finite() && s.len() >= n
}

/// Whether every one of some nodes is in reach of the client and supplies a chunk.
pub open spec fn all_reached_supply(v: ClusterV, s: Set<u32>, id: Seq<u8>) -> bool {
    forall|i: u32| #[trigger]
        s.contains(i) ==> supplies(v, i, id) && progress::reaches_storage(v.net, i)
}

/// On a quiet network, a file whose chunks are each held by enough nodes in reach is read, byte
/// for byte, from what they hold.
pub proof fn law_replicated_reads_succeed(
    v: ClusterV,
    m: ManifestV,
    data: Map<Seq<u8>, Seq<u8>>,
)
    requires
        soundness::sound(v),
        progress::quiet(v.net),
        2 * progress::hop(v.net) < v.opts.op_deadline,
        progress::room_left(v.read_replicated(m).0),
        forall|i: int|
            0 <= i < m.chunks.len() ==> {
                &&& single(v, #[trigger] m.chunks[i], data[m.chunks[i]])
                &&& available(
                    v,
                    m.chunks[i],
                    protocol::larger(v.opts.read_quorum as nat, 1),
                )
            },
        hash::digest(m.chunks.map_values(|id: Seq<u8>| data[id]).flatten()) == m.content_hash,
    ensures
        v.read_replicated(m).1 == Ok::<Seq<u8>, ErrorV>(
            m.chunks.map_values(|id: Seq<u8>| data[id]).flatten(),
        ),
{
    let n = protocol::larger(v.opts.read_quorum as nat, 1);
    assert forall|i: int| 0 <= i < m.chunks.len() implies supplied(v, #[trigger] m.chunks[i], n) by {
        let id = m.chunks[i];
        assert(available(v, id, n));
        let s = choose|s: Set<u32>| #[trigger]
            all_reached_hold(v, s, id) && s.finite() && s.len() >= n;
        assert(all_reached_supply(v, s, id));
    }
    law_supplied_reads_succeed(v, m, data);
}

/// On a quiet network, a file whose chunks are each held by enough nodes in reach, or get there
/// before they are asked for, is read byte for byte.
pub proof fn law_supplied_reads_succeed(
    v: ClusterV,
    m: ManifestV,
    data: Map<Seq<u8>, Seq<u8>>,
)
    requires
        soundness::sound(v),
        progress::quiet(v.net),
        2 * progress::hop(v.net) < v.opts.op_deadline,
        progress::room_left(v.read_replicated(m).0),
        forall|i: int|
            0 <= i < m.chunks.len() ==> {
                &&& single(v, #[trigger] m.chunks[i], data[m.chunks[i]])
                &&& supplied(
                    v,
                    m.chunks[i],
                    protocol::larger(v.opts.read_quorum as nat, 1),
                )
            },
        hash::digest(m.chunks.map_values(|id: Seq<u8>| data[id]).flatten()) == m.content_hash,
    ensures
        v.read_replicated(m).1 == Ok::<Seq<u8>, ErrorV>(
            m.chunks.map_values(|id: Seq<u8>| data[id]).flatten(),
        ),
{
    let ids = ordmap::in_order::<crate::hash::Hash>(m.chunks.to_set());
    let quorum = v.opts.read_quorum as nat;
    let live = v.live_storage();
    let n = protocol::larger(quorum, 1);
    let r = v.opts.replication_factor as nat;
    lemma_ids_of_set(m.chunks, ids);
    let from = Map::new(
        |id: Seq<u8>| true,
        |id: Seq<u8>|
            choose|s: Set<u32>| #[trigger] all_reached_supply(v, s, id) && s.finite() && s.len() >= n,
    );
    assert forall|i: int| 0 <= i < ids.len() implies {
        let s = from[#[trigger] ids[i]];
        all_reached_supply(v, s, ids[i]) && s.finite() && s.len() >= n
    } by {
        assert(ids.contains(ids[i]));
        assert(m.chunks.contains(ids[i]));
        let k = choose|k: int| 0 <= k < m.chunks.len() && m.chunks[k] == ids[i];
        assert(supplied(v, m.chunks[k], n));
    }
    durability::lemma_fetched(v, ids, quorum);
    let (w, g) = v.fetched(ids, quorum);
    let out = protocol::repair_msgs(g, ids, live, r, ids.len());
    durability::lemma_repair_msgs_kind(g, ids, live, r, ids.len());
    durability::lemma_client_sends(w, out);
    lemma_fetch_succeeds(v, ids, quorum, from);
    assert(g.enough_all(ids, quorum));
    lemma_none_short(g, ids, quorum, 0);
    let got = m.chunks.map_values(|id: Seq<u8>| g.have[id]);
    let want = m.chunks.map_values(|id: Seq<u8>| data[id]);
    assert forall|k: int| 0 <= k < m.chunks.len() implies #[trigger] got[k] == want[k] by {
        let id = m.chunks[k];
        assert(single(v, m.chunks[k], data[id]));
        lemma_single_fetched(v, id, data[id], ids, quorum);
        assert(ids.contains(id));
        let i = choose|i: int| 0 <= i < ids.len() && ids[i] == id;
        assert(g.enough(ids[i], quorum));
    }
    assert(got =~= want);
}

/// The distinct ids of a file are its chunks.
pub proof fn lemma_ids_of_set(chunks: Seq<Seq<u8>>, ids: Seq<Seq<u8>>)
    requires
        ids == ordmap::in_order::<crate::hash::Hash>(chunks.to_set()),
    ensures
        forall|id: Seq<u8>| #[trigger] ids.contains(id) <==> chunks.contains(id),
{
    ordmap::lemma_order_of::<crate::hash::Hash>(chunks.to_set());
    assert forall|id: Seq<u8>| #[trigger] ids.contains(id) <==> chunks.contains(id) by {
        assert(ids.to_set().contains(id) <==> chunks.to_set().contains(id));
    }
}

} // verus!

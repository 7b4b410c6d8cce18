//! In a run without faults a file reads as it was last written.

use crate::arrival;
use crate::availability;
use crate::chunk::{self, ManifestV};
use crate::cluster;
use crate::durability;
use crate::erasure::{self, Erasure};
use crate::error::ErrorV;
use crate::faultless;
use crate::hash;
use crate::message::{self, MetaOpV, NodeId, QueryResultV, QueryV};
use crate::namespace::NsV;
use crate::options::Options;
use crate::ordmap;
use crate::path;
use crate::progress;
use crate::protocol::{self, Gathered};
use crate::quorums;
use crate::readback;
use crate::reconstruction;
use crate::replay::{self, Step};
use crate::replicas;
use crate::simulation::{self, ClusterV};
use crate::soundness;
use crate::tree;
use crate::truth;
use vstd::prelude::*;

verus! {

/// Whether the erasure scheme, if any, is one that [`Erasure::new`] makes.
pub open spec fn proper(opts: Options) -> bool {
    opts.erasure matches Some(er) ==> 1 <= er.k && 1 <= er.m && er.k + er.m <= 64
}

/// The manifest under which some bytes are filed.
pub open spec fn filed(opts: Options, bytes: Seq<u8>) -> ManifestV {
    match opts.erasure {
        None => chunk::manifest_of(bytes, opts.chunk_size as nat),
        Some(er) => protocol::erasure_manifest(
            bytes,
            protocol::larger(opts.chunk_size as nat, 1),
            er,
        ),
    }
}

/// The shards of a file, by chunk and position.
pub open spec fn shards_of(opts: Options, bytes: Seq<u8>, er: Erasure) -> Seq<Seq<chunk::ChunkV>> {
    protocol::shard_groups(bytes, protocol::larger(opts.chunk_size as nat, 1), er)
}

/// Whether some bytes are stored as a part of a file: a chunk of it or, with erasure coding, a
/// shard of a chunk.
pub open spec fn is_part(opts: Options, bytes: Seq<u8>, d: Seq<u8>) -> bool {
    match opts.erasure {
        None => readback::is_piece(bytes, opts.chunk_size as nat, d),
        Some(er) => exists|g: int, i: int|
            0 <= g < shards_of(opts, bytes, er).len() && 0 <= i < shards_of(opts, bytes, er)[g].len()
                && (#[trigger] shards_of(opts, bytes, er)[g][i]).data == d,
    }
}

/// Whether a script writes some bytes.
pub open spec fn writes(script: Seq<Step>, bytes: Seq<u8>) -> bool {
    exists|i: int|
        0 <= i < script.len() && (#[trigger] script[i] matches Step::Write { bytes: b, .. } && b
            == bytes)
}

/// Whether a script stores some bytes as a part of a file.
pub open spec fn stores(opts: Options, script: Seq<Step>, d: Seq<u8>) -> bool {
    exists|bytes: Seq<u8>| #[trigger] writes(script, bytes) && is_part(opts, bytes, d)
}

/// Whether no two different parts of the files that a script writes have the same hash.
pub open spec fn collision_free(opts: Options, script: Seq<Step>) -> bool {
    forall|a: Seq<u8>, b: Seq<u8>| #[trigger]
        stores(opts, script, a) && #[trigger] stores(opts, script, b) && hash::digest(a)
            == hash::digest(b) ==> a == b
}

/// Whether the length of everything that a script writes fits its manifest.
pub open spec fn fits(script: Seq<Step>) -> bool {
    forall|bytes: Seq<u8>| #[trigger] writes(script, bytes) ==> bytes.len() <= u64::MAX
}

/// Whatever the cluster knows under the hash of a part is that part.
pub open spec fn clear(v: ClusterV, opts: Options, script: Seq<Step>) -> bool {
    forall|d: Seq<u8>| #[trigger]
        stores(opts, script, d) ==> availability::single(v, hash::digest(d), d)
}

/// Every file in the namespace is one that the script writes.
pub open spec fn authored(ns: NsV, opts: Options, script: Seq<Step>) -> bool {
    forall|p: Seq<char>| #[trigger]
        ns.files.dom().contains(p) ==> exists|bytes: Seq<u8>| #[trigger]
            writes(script, bytes) && ns.files[p] == filed(opts, bytes)
}

/// A repair hands on what was gathered.
proof fn lemma_repairs_agree(
    g: Gathered,
    ids: Seq<Seq<u8>>,
    live: Seq<u32>,
    r: nat,
    n: nat,
    id: Seq<u8>,
    data: Seq<u8>,
)
    requires
        n <= ids.len(),
        ids.contains(id) ==> g.have.dom().contains(id),
        availability::gathered_single(g, id, data),
    ensures
        forall|i: int|
            0 <= i < protocol::repair_msgs(g, ids, live, r, n).len() ==> availability::agrees(
                (#[trigger] protocol::repair_msgs(g, ids, live, r, n)[i]).msg,
                id,
                data,
            ),
    decreases n,
{
    if n > 0 {
        lemma_repairs_agree(g, ids, live, r, (n - 1) as nat, id, data);
        let a = protocol::repair_msgs(g, ids, live, r, (n - 1) as nat);
        let x = ids[n - 1];
        assert(ids.contains(x));
        let b = crate::placement::placed(x, live, r).filter(
            |node: u32| protocol::noted_for(g.missing, x).contains(node),
        ).map_values(|node: u32| protocol::store_msg(node, x, g.have[x]));
        assert forall|i: int| 0 <= i < (a + b).len() implies availability::agrees(
            (#[trigger] (a + b)[i]).msg,
            id,
            data,
        ) by {
            if i < a.len() {
                assert((a + b)[i] == a[i]);
            } else {
                assert((a + b)[i] == b[i - a.len()]);
            }
        }
    }
}

/// A reconstruction sends the shards of the chunk.
proof fn lemma_rebuilds_agree(
    slots: Seq<Option<Seq<u8>>>,
    ids: Seq<Seq<u8>>,
    full: Seq<Seq<u8>>,
    live: Seq<u32>,
    n: nat,
    id: Seq<u8>,
    data: Seq<u8>,
)
    requires
        forall|j: int|
            0 <= j < n && #[trigger] ids[j] == id && hash::digest(full[j]) == id ==> full[j]
                == data,
    ensures
        forall|i: int|
            0 <= i < protocol::rebuild_msgs(slots, ids, full, live, n).len()
                ==> availability::agrees(
                (#[trigger] protocol::rebuild_msgs(slots, ids, full, live, n)[i]).msg,
                id,
                data,
            ),
    decreases n,
{
    if n > 0 {
        lemma_rebuilds_agree(slots, ids, full, live, (n - 1) as nat, id, data);
        assert(ids[n - 1] == id && hash::digest(full[n - 1]) == id ==> full[n - 1] == data);
    }
}

/// When no chunk is short, every chunk was gathered.
pub proof fn lemma_all_gathered(g: Gathered, ids: Seq<Seq<u8>>, quorum: nat, n: nat, i: int)
    requires
        protocol::first_short(g, ids, quorum, n) is None,
        n <= i < ids.len(),
    ensures
        g.have.dom().contains(ids[i]),
    decreases ids.len() - n,
{
    if n < i {
        lemma_all_gathered(g, ids, quorum, n + 1, i);
    }
}

/// Rebuilding the groups of a file that the script writes sends parts of the script only.
proof fn lemma_rebuilt_clear(
    v: ClusterV,
    opts: Options,
    script: Seq<Step>,
    at: Seq<char>,
    bytes: Seq<u8>,
    er: Erasure,
    live: Seq<u32>,
    got: Gathered,
    g: nat,
    d: Seq<u8>,
)
    requires
        v.opts == opts,
        opts.erasure == Some(er),
        er.wf(),
        writes(script, bytes),
        bytes.len() <= u64::MAX,
        collision_free(opts, script),
        forall|e: Seq<u8>| #[trigger]
            stores(opts, script, e) ==> availability::gathered_single(got, hash::digest(e), e),
        stores(opts, script, d),
        availability::single(v, hash::digest(d), d),
        g <= shards_of(opts, bytes, er).len(),
    ensures
        availability::single(
            v.groups_rebuilt(at, filed(opts, bytes), er, live, got, g).0,
            hash::digest(d),
            d,
        ),
    decreases shards_of(opts, bytes, er).len() - g,
{
    let size = v.group_size();
    let groups = shards_of(opts, bytes, er);
    let k = er.k as nat;
    let total = er.k as nat + er.m as nat;
    let m = filed(opts, bytes);
    let ps = chunk::pieces(bytes, size);
    let n = groups.len();
    assert forall|i: int| 0 <= i < groups.len() implies (#[trigger] groups[i]).len() == total by {}
    reconstruction::lemma_flat_ids(groups, total, n, g as int);
    assert(m.chunks.len() / total == n) by {
        vstd::arithmetic::div_mod::lemma_div_multiples_vanish(n as int, total as int);
        assert(n * total == total * n) by (nonlinear_arith);
    }
    if g < n {
        let ids = m.chunks.subrange((g * total) as int, ((g + 1) * total) as int);
        let piece = ps[g as int];
        let group = groups[g as int];
        assert(group == protocol::shard_group(piece, er));
        assert(ids == protocol::ids_of(group));
        reconstruction::lemma_group_len(bytes, size, g as int);
        let len = protocol::group_len(m.size as nat, size, g);
        assert(len == piece.len());
        let slots = protocol::group_slots(got, ids, len, er);
        assert forall|i: int| 0 <= i < group.len() implies stores(
            opts,
            script,
            (#[trigger] group[i]).data,
        ) && group[i].id == hash::digest(group[i].data) && group[i].data == erasure::shard(
            piece,
            k,
            i as nat,
        ) && ids[i] == group[i].id by {
            assert(shards_of(opts, bytes, er)[g as int][i].data == group[i].data);
            assert(is_part(opts, bytes, group[i].data));
        }
        match erasure::decoded(slots, k, er.m as nat, len) {
            Err(_) => {},
            Ok(_) => {
                assert forall|i: int|
                    0 <= i < slots.len() && (#[trigger] slots[i]) is Some implies slots[i] == Some(
                    erasure::shard(piece, k, i as nat),
                ) by {
                    assert(stores(opts, script, group[i].data));
                }
                erasure::law_any_k_shards_reconstruct(piece, k, er.m as nat, slots);
                let full = erasure::shards(piece, k, er.m as nat);
                let out = protocol::rebuild_msgs(slots, ids, full, live, total);
                assert forall|j: int|
                    0 <= j < total && #[trigger] ids[j] == hash::digest(d) && hash::digest(full[j])
                        == hash::digest(d) implies full[j] == d by {
                    assert(full[j] == group[j].data);
                    assert(stores(opts, script, group[j].data));
                }
                lemma_rebuilds_agree(slots, ids, full, live, total, hash::digest(d), d);
                availability::lemma_single_sends(v, hash::digest(d), d, out);
                lemma_rebuilt_clear(
                    v.sent_all(out),
                    opts,
                    script,
                    at,
                    bytes,
                    er,
                    live,
                    got,
                    g + 1,
                    d,
                );
            },
        }
    }
}

/// A read brings no other bytes under the hash of a part.
proof fn lemma_read_clear(v: ClusterV, opts: Options, script: Seq<Step>, at: Seq<char>)
    requires
        faultless::calm(v, opts),
        proper(opts),
        fits(script),
        collision_free(opts, script),
        clear(v, opts, script),
        authored(truth::names(v, 0), opts, script),
    ensures
        clear(v.read(at).0, opts, script),
{
    let q = QueryV::Get { path: at };
    let y = v.meta_queried(q).0;
    if path::normal(at) {
        truth::law_queries_are_answered_truly(v, 0, q);
        durability::law_meta_query_keeps_sound(v, q);
        assert(clear(y, opts, script)) by {
            assert forall|d: Seq<u8>| #[trigger] stores(
                opts,
                script,
                d,
            ) implies availability::single(y, hash::digest(d), d) by {
                availability::lemma_single_queried(v, hash::digest(d), d, q);
            }
        }
        if let Ok(QueryResultV::Manifest(Some(m))) = v.meta_queried(q).1 {
            let ns = truth::names(v, 0);
            assert(ns.answered(q) == QueryResultV::Manifest(Some(m)));
            assert(ns.files.dom().contains(at) && ns.files[at] == m);
            let bytes = choose|bytes: Seq<u8>| #[trigger]
                writes(script, bytes) && ns.files[at] == filed(opts, bytes);
            let ids = ordmap::in_order::<crate::hash::Hash>(m.chunks.to_set());
            let live = y.live_storage();
            match opts.erasure {
                None => {
                    let quorum = y.opts.read_quorum as nat;
                    let r = y.opts.replication_factor as nat;
                    let (w, g) = y.fetched(ids, quorum);
                    assert forall|d: Seq<u8>| #[trigger] stores(
                        opts,
                        script,
                        d,
                    ) implies availability::single(v.read(at).0, hash::digest(d), d) by {
                        let id = hash::digest(d);
                        availability::lemma_single_fetched(y, id, d, ids, quorum);
                        if protocol::first_short(g, ids, quorum, 0) is None {
                            if ids.contains(id) {
                                let i = choose|i: int| 0 <= i < ids.len() && ids[i] == id;
                                lemma_all_gathered(g, ids, quorum, 0, i);
                            }
                            lemma_repairs_agree(g, ids, live, r, ids.len(), id, d);
                            availability::lemma_single_sends(
                                w,
                                id,
                                d,
                                protocol::repair_msgs(g, ids, live, r, ids.len()),
                            );
                        }
                    }
                },
                Some(er) => {
                    let (w, got) = y.fetched(ids, 1);
                    durability::lemma_fetched(y, ids, 1);
                    assert(Erasure { k: (er.k as u8) as usize, m: (er.m as u8) as usize } == er);
                    assert forall|e: Seq<u8>| #[trigger] stores(
                        opts,
                        script,
                        e,
                    ) implies availability::gathered_single(got, hash::digest(e), e) by {
                        availability::lemma_single_fetched(y, hash::digest(e), e, ids, 1);
                    }
                    assert forall|d: Seq<u8>| #[trigger] stores(
                        opts,
                        script,
                        d,
                    ) implies availability::single(v.read(at).0, hash::digest(d), d) by {
                        availability::lemma_single_fetched(y, hash::digest(d), d, ids, 1);
                        lemma_rebuilt_clear(w, opts, script, at, bytes, er, live, got, 0, d);
                    }
                },
            }
        }
    }
}

/// A write of the script brings no other bytes under the hash of a part.
proof fn lemma_write_clear(
    v: ClusterV,
    opts: Options,
    script: Seq<Step>,
    at: Seq<char>,
    bytes: Seq<u8>,
)
    requires
        soundness::sound(v),
        v.opts == opts,
        collision_free(opts, script),
        clear(v, opts, script),
        writes(script, bytes),
    ensures
        clear(v.written(at, bytes).0, opts, script),
{
    let live = v.live_storage();
    let y = v.written(at, bytes).0;
    let op = MetaOpV::Put { path: at, manifest: truth::manifest_for(v, bytes) };
    if path::normal(at) {
        match opts.erasure {
            None => {
                let quorum = v.opts.write_quorum as nat;
                let size = opts.chunk_size as nat;
                if live.len() >= quorum {
                    let chunks = chunk::chunks_of(bytes, size);
                    let data = protocol::distinct_chunks(chunks, chunks.len());
                    let ids = ordmap::in_order::<crate::hash::Hash>(data.dom());
                    let r = v.opts.replication_factor as nat;
                    let out = protocol::store_msgs(data, ids, live, r, ids.len());
                    durability::lemma_store_msgs_kind(data, ids, live, r, ids.len());
                    durability::lemma_client_sends(v, out);
                    let w = v.sent_all(out);
                    durability::lemma_acks_awaited(w, Map::empty(), ids, quorum, w.deadline());
                    let x = w.acks_awaited(Map::empty(), ids, quorum, w.deadline()).0;
                    durability::lemma_distinct_chunks(chunks, chunks.len());
                    ordmap::lemma_order_of::<crate::hash::Hash>(data.dom());
                    assert forall|d: Seq<u8>| #[trigger] stores(
                        opts,
                        script,
                        d,
                    ) implies availability::single(y, hash::digest(d), d) by {
                        let id = hash::digest(d);
                        if ids.contains(id) {
                            assert(ids.to_set().contains(id));
                            let j = choose|j: int|
                                0 <= j < chunks.len() && (#[trigger] chunks[j]).id == id
                                    && chunks[j].data == data[id];
                            assert(chunk::piece(bytes, size, j) == data[id]);
                            assert(is_part(opts, bytes, data[id]));
                            assert(stores(opts, script, data[id]));
                        }
                        readback::lemma_store_msgs_agree(data, ids, live, r, ids.len(), id, d);
                        availability::lemma_single_sends(v, id, d, out);
                        availability::lemma_single_acks(
                            w,
                            id,
                            d,
                            Map::empty(),
                            ids,
                            quorum,
                            w.deadline(),
                        );
                        availability::lemma_single_applied(x, id, d, op, at);
                    }
                }
            },
            Some(er) => {
                if live.len() >= er.k as nat + er.m as nat {
                    let groups = shards_of(opts, bytes, er);
                    let quorum = protocol::larger(v.opts.write_quorum as nat, er.k as nat);
                    let out = protocol::spread(groups, live, groups.len()).msgs;
                    let none: Set<Seq<u8>> = Set::empty();
                    durability::lemma_spread_kind(groups, live, groups.len());
                    durability::lemma_client_sends(v, out);
                    let w = v.sent_all(out);
                    assert(durability::true_acked(w, none));
                    durability::lemma_groups_awaited(w, none, groups, quorum, w.deadline());
                    let x = w.groups_awaited(none, groups, quorum, w.deadline()).0;
                    assert forall|d: Seq<u8>| #[trigger] stores(
                        opts,
                        script,
                        d,
                    ) implies availability::single(y, hash::digest(d), d) by {
                        let id = hash::digest(d);
                        assert forall|g: int, i: int|
                            #![trigger groups[g][i]]
                            0 <= g < groups.len() && 0 <= i < groups[g].len() && groups[g][i].id
                                == id implies groups[g][i].data == d by {
                            let e = groups[g][i].data;
                            assert(shards_of(opts, bytes, er)[g][i].data == e);
                            assert(is_part(opts, bytes, e));
                            assert(stores(opts, script, e));
                        }
                        reconstruction::lemma_spread_agrees(groups, live, groups.len(), id, d);
                        availability::lemma_single_sends(v, id, d, out);
                        availability::lemma_single_groups(
                            w,
                            id,
                            d,
                            none,
                            groups,
                            quorum,
                            w.deadline(),
                        );
                        availability::lemma_single_applied(x, id, d, op, at);
                    }
                }
            },
        }
    }
}

/// Rounds of healing bring no other bytes under an id.
proof fn lemma_rounds_single(v: ClusterV, p: u32, n: nat, id: Seq<u8>, data: Seq<u8>)
    requires
        soundness::sound(v),
        availability::single(v, id, data),
    ensures
        availability::single(v.healed_within(p, n).0, id, data),
    decreases n,
{
    if n > 0 {
        let live = v.live_storage();
        let beats = Seq::new(live.len(), |j: int| v.heartbeat(live[j], p));
        let w = v.reporting(p, live.len());
        assert(w == v.sent_all(beats));
        durability::lemma_reporting(v, p);
        durability::lemma_healing_round(v, p);
        availability::lemma_single_sends(v, id, data, beats);
        readback::lemma_single_drained(w, id, data);
        if !v.healing_round(p).fully_replicated() {
            lemma_rounds_single(v.healing_round(p), p, (n - 1) as nat, id, data);
        }
    }
}

/// No operation of the script brings other bytes under the hash of a part.
proof fn lemma_step_clear(v: ClusterV, opts: Options, script: Seq<Step>, s: Step)
    requires
        faultless::calm(v, opts),
        proper(opts),
        fits(script),
        collision_free(opts, script),
        clear(v, opts, script),
        authored(truth::names(v, 0), opts, script),
        faultless::faultless(s),
        script.contains(s),
    ensures
        clear(replay::stepped(v, s), opts, script),
{
    match s {
        Step::Write { path, bytes } => {
            assert(writes(script, bytes)) by {
                let i = choose|i: int| 0 <= i < script.len() && script[i] == s;
                assert(script[i] == s);
            }
            lemma_write_clear(v, opts, script, path, bytes);
        },
        Step::Read { path } => {
            lemma_read_clear(v, opts, script, path);
        },
        _ => {
            assert forall|d: Seq<u8>| #[trigger] stores(
                opts,
                script,
                d,
            ) implies availability::single(replay::stepped(v, s), hash::digest(d), d) by {
                let id = hash::digest(d);
                match s {
                    Step::Delete { path } => {
                        let op = MetaOpV::Delete { path };
                        availability::lemma_single_applied(v, id, d, op, path);
                    },
                    Step::Mkdir { path } => {
                        let op = MetaOpV::Mkdir { path };
                        availability::lemma_single_applied(v, id, d, op, path);
                    },
                    Step::Rename { from, to } => {
                        let op = MetaOpV::Rename { from, to };
                        availability::lemma_single_applied(v, id, d, op, to);
                    },
                    Step::List { path } => {
                        availability::lemma_single_queried(v, id, d, QueryV::List { path });
                    },
                    Step::Stat { path } => {
                        availability::lemma_single_queried(v, id, d, QueryV::Stat { path });
                    },
                    Step::RecoverNode { idx } => {
                        faultless::lemma_nothing_to_mend(v, NodeId::Storage(idx));
                    },
                    Step::RecoverMeta { idx } => {
                        faultless::lemma_nothing_to_mend(v, NodeId::Meta(idx));
                    },
                    Step::Heal => {
                        faultless::lemma_nothing_to_mend(v, NodeId::Client);
                    },
                    _ => {
                        let w = v.settled();
                        soundness::law_settling_keeps_sound(v);
                        assert(availability::single(w, id, d));
                        if let Some(p) = w.primary() {
                            lemma_rounds_single(w, p, w.opts.node_count as nat * 2 + 8, id, d);
                        }
                    },
                }
            }
        },
    }
}

/// What an operation does to the namespace when it succeeds.
pub open spec fn op_of(opts: Options, s: Step) -> Option<MetaOpV> {
    match s {
        Step::Write { path, bytes } => Some(MetaOpV::Put { path, manifest: filed(opts, bytes) }),
        Step::Delete { path } => Some(MetaOpV::Delete { path }),
        Step::Mkdir { path } => Some(MetaOpV::Mkdir { path }),
        Step::Rename { from, to } => Some(MetaOpV::Rename { from, to }),
        _ => None,
    }
}

/// An operation without faults leaves a calm cluster calm; it takes effect on the namespace or
/// leaves it as it is.
proof fn lemma_step_calm(v: ClusterV, opts: Options, s: Step)
    requires
        faultless::calm(v, opts),
        faultless::patient(opts),
        faultless::faultless(s),
        progress::room_left(replay::stepped(v, s)),
    ensures
        faultless::calm(replay::stepped(v, s), opts),
        ({
            let ns = truth::names(v, 0);
            let after = truth::names(replay::stepped(v, s), 0);
            after == ns || (op_of(opts, s) matches Some(op) && ns.validated(op) is Ok && after
                == ns.applied(op))
        }),
{
    match s {
        Step::Write { path, bytes } => {
            faultless::lemma_write_calm(v, opts, path, bytes);
        },
        Step::Read { path } => {
            faultless::lemma_read_calm(v, opts, path);
        },
        Step::Delete { path } => {
            if path::normal(path) {
                faultless::lemma_op_calm(v, opts, MetaOpV::Delete { path }, path);
            }
        },
        Step::Mkdir { path } => {
            if path::normal(path) {
                faultless::lemma_op_calm(v, opts, MetaOpV::Mkdir { path }, path);
            }
        },
        Step::Rename { from, to } => {
            if path::normal(from) && path::normal(to) {
                faultless::lemma_op_calm(v, opts, MetaOpV::Rename { from, to }, to);
            }
        },
        Step::List { path } => {
            if path::normal(path) {
                faultless::lemma_query_calm(v, opts, QueryV::List { path });
            }
        },
        Step::Stat { path } => {
            if path::normal(path) {
                faultless::lemma_query_calm(v, opts, QueryV::Stat { path });
            }
        },
        Step::RecoverNode { idx } => {
            faultless::lemma_nothing_to_mend(v, NodeId::Storage(idx));
        },
        Step::RecoverMeta { idx } => {
            faultless::lemma_nothing_to_mend(v, NodeId::Meta(idx));
            faultless::lemma_stabilize_calm(v, opts);
        },
        Step::Heal => {
            faultless::lemma_nothing_to_mend(v, NodeId::Client);
        },
        _ => {
            faultless::lemma_stabilize_calm(v, opts);
        },
    }
}

/// The files of the namespace stay files that the script writes.
proof fn lemma_step_authored(ns: NsV, opts: Options, script: Seq<Step>, s: Step, op: MetaOpV)
    requires
        tree::tree(ns),
        authored(ns, opts, script),
        script.contains(s),
        op_of(opts, s) == Some(op),
        ns.validated(op) is Ok,
    ensures
        authored(ns.applied(op), opts, script),
{
    let after = ns.applied(op);
    match s {
        Step::Write { path, bytes } => {
            assert(writes(script, bytes)) by {
                let i = choose|i: int| 0 <= i < script.len() && script[i] == s;
                assert(script[i] == s);
            }
            assert forall|p: Seq<char>| #[trigger]
                after.files.dom().contains(p) implies exists|b: Seq<u8>| #[trigger]
                writes(script, b) && after.files[p] == filed(opts, b) by {
                if p == path {
                    assert(after.files[p] == filed(opts, bytes));
                } else {
                    assert(ns.files.dom().contains(p));
                }
            }
        },
        Step::Rename { from, to } => {
            if ns.dirs.contains(from) {
                tree::law_rename_moves_subtree(ns, from, to);
            }
            assert forall|p: Seq<char>| #[trigger]
                after.files.dom().contains(p) implies exists|b: Seq<u8>| #[trigger]
                writes(script, b) && after.files[p] == filed(opts, b) by {
                if ns.dirs.contains(from) {
                    if ns.files.dom().contains(p) && !path::under(p, from) {
                    } else {
                        let q = choose|q: Seq<char>| #[trigger]
                            ns.files.dom().contains(q) && path::under(q, from) && p
                                == path::moved(q, from, to);
                        assert(ns.files.dom().contains(q));
                        assert(after.files[p] == ns.files[q]);
                    }
                } else if p == to {
                    assert(ns.files.dom().contains(from));
                } else {
                    assert(ns.files.dom().contains(p));
                }
            }
        },
        _ => {
            assert forall|p: Seq<char>| #[trigger]
                after.files.dom().contains(p) implies ns.files.dom().contains(p)
                && after.files[p] == ns.files[p] by {}
        },
    }
}

/// Whether an operation leaves the file at a path alone: it neither writes nor deletes it, nor
/// moves it away.
pub open spec fn spares(s: Step, p: Seq<char>) -> bool {
    match s {
        Step::Write { path, .. } => path != p,
        Step::Delete { path } => path != p,
        Step::Rename { from, .. } => from != p && !path::under(p, from),
        _ => true,
    }
}

/// A file that an operation leaves alone keeps its manifest.
pub proof fn lemma_spared(ns: NsV, opts: Options, s: Step, op: MetaOpV, p: Seq<char>)
    requires
        tree::tree(ns),
        ns.files.dom().contains(p),
        op_of(opts, s) == Some(op),
        ns.validated(op) is Ok,
        spares(s, p),
    ensures
        ns.applied(op).files.dom().contains(p),
        ns.applied(op).files[p] == ns.files[p],
{
    if let MetaOpV::Rename { from, to } = op {
        if ns.dirs.contains(from) {
            tree::law_rename_moves_subtree(ns, from, to);
        }
    }
}

/// What holds throughout a run of a script without faults.
pub open spec fn on_course(v: ClusterV, opts: Options, script: Seq<Step>) -> bool {
    &&& faultless::calm(v, opts)
    &&& clear(v, opts, script)
    &&& authored(truth::names(v, 0), opts, script)
}

/// Whether every operation of a part of a script belongs to the script and is no fault.
pub open spec fn part_of(part: Seq<Step>, script: Seq<Step>) -> bool {
    forall|i: int|
        0 <= i < part.len() ==> script.contains(#[trigger] part[i]) && faultless::faultless(part[i])
}

/// Playing a part that holds no fault loses no chunk and runs nothing backwards.
proof fn lemma_part_extends(v: ClusterV, script: Seq<Step>, part: Seq<Step>)
    requires
        soundness::sound(v),
        faultless::whole(v),
        part_of(part, script),
    ensures
        soundness::sound(replay::played(v, part)),
        faultless::whole(replay::played(v, part)),
        soundness::extends(v, replay::played(v, part)),
    decreases part.len(),
{
    if part.len() > 0 {
        let front = part.drop_last();
        assert forall|i: int| 0 <= i < front.len() implies script.contains(#[trigger] front[i])
            && faultless::faultless(front[i]) by {
            assert(front[i] == part[i]);
        }
        assert(part.last() == part[part.len() - 1]);
        lemma_part_extends(v, script, front);
        let w = replay::played(v, front);
        faultless::lemma_step_extends(w, part.last());
        soundness::lemma_extends_transitive(v, w, replay::played(v, part));
    }
}

/// A part of the script keeps the run on course, and files that it leaves alone keep their
/// manifests.
proof fn lemma_part_on_course(
    v: ClusterV,
    opts: Options,
    script: Seq<Step>,
    part: Seq<Step>,
)
    requires
        on_course(v, opts, script),
        faultless::patient(opts),
        proper(opts),
        fits(script),
        collision_free(opts, script),
        part_of(part, script),
        progress::room_left(replay::played(v, part)),
    ensures
        on_course(replay::played(v, part), opts, script),
        forall|p: Seq<char>|
            truth::names(v, 0).files.dom().contains(p) && (forall|i: int|
                0 <= i < part.len() ==> spares(#[trigger] part[i], p)) ==> #[trigger] truth::names(
                replay::played(v, part),
                0,
            ).files.dom().contains(p) && truth::names(replay::played(v, part), 0).files[p]
                == truth::names(v, 0).files[p],
    decreases part.len(),
{
    if part.len() > 0 {
        let front = part.drop_last();
        let s = part.last();
        assert forall|i: int| 0 <= i < front.len() implies script.contains(#[trigger] front[i])
            && faultless::faultless(front[i]) by {
            assert(front[i] == part[i]);
        }
        assert(s == part[part.len() - 1]);
        let w = replay::played(v, front);
        let x = replay::played(v, part);
        lemma_part_extends(v, script, front);
        faultless::lemma_step_extends(w, s);
        lemma_part_on_course(v, opts, script, front);
        lemma_step_clear(w, opts, script, s);
        lemma_step_calm(w, opts, s);
        let ns = truth::names(w, 0);
        if truth::names(x, 0) != ns {
            lemma_step_authored(ns, opts, script, s, op_of(opts, s)->Some_0);
        }
        assert forall|p: Seq<char>|
            truth::names(v, 0).files.dom().contains(p) && (forall|i: int|
                0 <= i < part.len() ==> spares(
                    #[trigger] part[i],
                    p,
                )) implies #[trigger] truth::names(x, 0).files.dom().contains(p) && truth::names(
            x,
            0,
        ).files[p] == truth::names(v, 0).files[p] by {
            assert forall|i: int| 0 <= i < front.len() implies spares(#[trigger] front[i], p) by {
                assert(front[i] == part[i]);
            }
            assert(ns.files.dom().contains(p));
            assert(spares(part[part.len() - 1], p));
            if truth::names(x, 0) != ns {
                lemma_spared(ns, opts, s, op_of(opts, s)->Some_0, p);
            }
        }
    }
}

/// A fresh cluster is on course.
proof fn lemma_fresh_on_course(opts: Options, seed: u64, script: Seq<Step>)
    requires
        opts.wf(),
        0 < opts.meta_count,
        opts.meta_quorum <= opts.meta_count,
        opts.link.drop_prob == 0,
    ensures
        on_course(cluster::unsettled(opts, seed).settled(), opts, script),
{
    let v = cluster::unsettled(opts, seed).settled();
    let h: Seq<MetaOpV> = seq![];
    soundness::law_fresh_cluster_is_sound(opts, seed);
    replicas::law_fresh_cluster_is_steady(opts, seed);
    tree::law_fresh_is_tree();
    assert(faultless::regular(v, h));
}

/// Playing one script after another is playing them as one.
pub proof fn lemma_played_on(v: ClusterV, a: Seq<Step>, b: Seq<Step>)
    ensures
        replay::played(v, a + b) == replay::played(replay::played(v, a), b),
    decreases b.len(),
{
    if b.len() == 0 {
        assert(a + b =~= a);
    } else {
        lemma_played_on(v, a, b.drop_last());
        assert((a + b).drop_last() =~= a + b.drop_last());
        assert((a + b).last() == b.last());
    }
}

/// A script that writes a file in its course.
pub open spec fn script_with(
    before: Seq<Step>,
    at: Seq<char>,
    bytes: Seq<u8>,
    after: Seq<Step>,
) -> Seq<Step> {
    before.push(Step::Write { path: at, bytes }) + after
}

/// Whether enough nodes hold the parts of a file.
pub open spec fn stored(v: ClusterV, opts: Options, bytes: Seq<u8>) -> bool {
    match opts.erasure {
        None => forall|i: int|
            0 <= i < chunk::piece_count(bytes.len(), opts.chunk_size as nat)
                ==> durability::held_by(
                v,
                hash::digest(#[trigger] chunk::piece(bytes, opts.chunk_size as nat, i)),
                opts.write_quorum as nat,
            ),
        Some(er) => durability::groups_held(
            v,
            shards_of(opts, bytes, er),
            protocol::larger(opts.write_quorum as nat, er.k as nat),
        ),
    }
}

/// What is stored stays stored.
proof fn lemma_stored_stays(v: ClusterV, w: ClusterV, opts: Options, bytes: Seq<u8>)
    requires
        stored(v, opts, bytes),
        soundness::extends(v, w),
    ensures
        stored(w, opts, bytes),
{
    match opts.erasure {
        None => {
            let size = opts.chunk_size as nat;
            let n = opts.write_quorum as nat;
            assert forall|i: int|
                0 <= i < chunk::piece_count(bytes.len(), size) implies durability::held_by(
                w,
                hash::digest(#[trigger] chunk::piece(bytes, size, i)),
                n,
            ) by {
                let id = hash::digest(chunk::piece(bytes, size, i));
                durability::lemma_held_by_grows(v, w, id, n);
            }
        },
        Some(er) => {
            let groups = shards_of(opts, bytes, er);
            let quorum = protocol::larger(opts.write_quorum as nat, er.k as nat);
            let acked = choose|acked: Set<Seq<u8>>| #[trigger]
                durability::true_acked(v, acked) && protocol::groups_met(groups, acked, quorum);
            assert forall|id: Seq<u8>| #[trigger] acked.contains(id) implies durability::held_by(
                w,
                id,
                1,
            ) by {
                durability::lemma_held_by_grows(v, w, id, 1);
            }
            assert(durability::true_acked(w, acked));
        },
    }
}

/// A file that the namespace holds and whose parts are stored is read.
proof fn lemma_stored_file_is_read(
    x: ClusterV,
    opts: Options,
    script: Seq<Step>,
    at: Seq<char>,
    bytes: Seq<u8>,
)
    requires
        on_course(x, opts, script),
        faultless::patient(opts),
        proper(opts),
        fits(script),
        collision_free(opts, script),
        writes(script, bytes),
        path::normal(at),
        truth::names(x, 0).files.dom().contains(at),
        truth::names(x, 0).files[at] == filed(opts, bytes),
        opts.erasure is None ==> 0 < opts.chunk_size && protocol::larger(
            opts.read_quorum as nat,
            1,
        ) <= opts.write_quorum,
        stored(x, opts, bytes),
        progress::room_left(x.read(at).0),
    ensures
        x.read(at).1 == Ok::<Seq<u8>, ErrorV>(bytes),
{
    let history = choose|history: Seq<MetaOpV>| faultless::regular(x, history);
    assert(!truth::names(x, 0).dirs.contains(at));
    assert forall|i: u32| #[trigger] progress::reaches_storage(x.net, i) by {}
    match opts.erasure {
        None => {
            lemma_no_collision(x, opts, script, bytes);
            readback::law_held_file_is_read(
                x,
                0,
                at,
                bytes,
                opts.write_quorum as nat,
                Set::empty(),
            );
        },
        Some(er) => {
            let groups = shards_of(opts, bytes, er);
            assert forall|g: int, i: int|
                #![trigger groups[g][i]]
                0 <= g < groups.len() && 0 <= i < groups[g].len() implies availability::single(
                x,
                groups[g][i].id,
                groups[g][i].data,
            ) by {
                assert(shards_of(opts, bytes, er)[g][i].data == groups[g][i].data);
                assert(is_part(opts, bytes, groups[g][i].data));
                assert(stores(opts, script, groups[g][i].data));
            }
            let quorum = protocol::larger(opts.write_quorum as nat, er.k as nat);
            let acked = choose|acked: Set<Seq<u8>>| #[trigger]
                durability::true_acked(x, acked) && protocol::groups_met(groups, acked, quorum);
            assert(reconstruction::all_available(x, acked)) by {
                assert forall|id: Seq<u8>| #[trigger] acked.contains(
                    id,
                ) implies availability::available(x, id, 1) by {
                    assert(durability::held_by(x, id, 1));
                    let s = choose|s: Set<u32>| #[trigger]
                        durability::all_hold(x, s, id) && s.finite() && s.len() >= 1;
                    assert(availability::all_reached_hold(x, s, id));
                }
            }
            assert(protocol::groups_met(groups, acked, er.k as nat));
            reconstruction::law_readable_file_is_read(x, 0, at, bytes, er);
        },
    }
}

/// A write that succeeds files the bytes and stores their parts.
proof fn lemma_write_stores(v: ClusterV, opts: Options, at: Seq<char>, bytes: Seq<u8>)
    requires
        faultless::calm(v, opts),
        faultless::patient(opts),
        progress::room_left(v.written(at, bytes).0),
        v.written(at, bytes).1 is Ok,
    ensures
        path::normal(at),
        truth::names(v.written(at, bytes).0, 0).files.dom().contains(at),
        truth::names(v.written(at, bytes).0, 0).files[at] == filed(opts, bytes),
        stored(v.written(at, bytes).0, opts, bytes),
{
    faultless::lemma_write_calm(v, opts, at, bytes);
    assert(truth::manifest_for(v, bytes) == filed(opts, bytes));
    match opts.erasure {
        None => durability::law_replicated_write(v, at, bytes),
        Some(er) => durability::law_erasure_write(v, at, bytes, er),
    }
}

/// The parts of a script that writes a file.
proof fn lemma_parts(before: Seq<Step>, at: Seq<char>, bytes: Seq<u8>, after: Seq<Step>)
    requires
        forall|i: int| 0 <= i < before.len() ==> faultless::faultless(#[trigger] before[i]),
        forall|i: int| 0 <= i < after.len() ==> faultless::faultless(#[trigger] after[i]),
    ensures
        part_of(before, script_with(before, at, bytes, after)),
        part_of(
            before.push(Step::Write { path: at, bytes }),
            script_with(before, at, bytes, after),
        ),
        part_of(after, script_with(before, at, bytes, after)),
        writes(script_with(before, at, bytes, after), bytes),
{
    let script = script_with(before, at, bytes, after);
    let write = Step::Write { path: at, bytes };
    let first = before.push(write);
    assert forall|i: int| 0 <= i < first.len() implies script.contains(#[trigger] first[i])
        && faultless::faultless(first[i]) by {
        assert(script[i] == first[i]);
        if i < before.len() {
            assert(faultless::faultless(before[i]));
        }
    }
    assert forall|i: int| 0 <= i < before.len() implies script.contains(#[trigger] before[i])
        && faultless::faultless(before[i]) by {
        assert(script[i] == before[i]);
    }
    assert forall|i: int| 0 <= i < after.len() implies script.contains(#[trigger] after[i])
        && faultless::faultless(after[i]) by {
        assert(script[first.len() + i] == after[i]);
    }
    assert(script[before.len() as int] == write);
}

/// Whether the jitter of the link is at most four base latencies, so that what a write sends
/// arrives before what a later read sends.
pub open spec fn prompt(opts: Options) -> bool {
    opts.link.jitter <= 4 * (opts.link.base_latency as nat)
}

/// Whether a read of a replicated file finds as many copies of each chunk as it needs: the
/// write waited for so many, or so many arrive before the read asks. An empty file has no
/// chunks.
pub open spec fn enough_copies(opts: Options, bytes: Seq<u8>) -> bool {
    let needed = protocol::larger(opts.read_quorum as nat, 1);
    ||| bytes.len() == 0
    ||| needed <= opts.write_quorum
    ||| prompt(opts) && needed <= opts.replication_factor && needed <= opts.node_count
}

/// Playing a part without faults leaves a chunk on its way or lands it.
proof fn lemma_part_landing(
    v: ClusterV,
    script: Seq<Step>,
    part: Seq<Step>,
    node: u32,
    data: Seq<u8>,
    t: nat,
)
    requires
        arrival::open_way(v, node),
        faultless::whole(v),
        v.opts.erasure is None,
        part_of(part, script),
        readback::landing(v, node, data, t),
    ensures
        arrival::open_way(replay::played(v, part), node),
        readback::landing(replay::played(v, part), node, data, t),
    decreases part.len(),
{
    lemma_part_extends(v, script, part);
    if part.len() > 0 {
        let front = part.drop_last();
        assert forall|i: int| 0 <= i < front.len() implies script.contains(#[trigger] front[i])
            && faultless::faultless(front[i]) by {
            assert(front[i] == part[i]);
        }
        assert(part.last() == part[part.len() - 1]);
        lemma_part_extends(v, script, front);
        lemma_part_landing(v, script, front, node, data, t);
        arrival::lemma_landing_stepped(replay::played(v, front), part.last(), node, data, t);
    }
}

/// Nothing collides with the chunks of a file that the script writes.
proof fn lemma_no_collision(v: ClusterV, opts: Options, script: Seq<Step>, bytes: Seq<u8>)
    requires
        collision_free(opts, script),
        clear(v, opts, script),
        writes(script, bytes),
        opts.erasure is None,
    ensures
        readback::no_collision(v, bytes, opts.chunk_size as nat),
{
    let size = opts.chunk_size as nat;
    assert forall|i: int| 0 <= i < chunk::piece_count(bytes.len(), size) implies stores(
        opts,
        script,
        #[trigger] chunk::piece(bytes, size, i),
    ) by {
        assert(is_part(opts, bytes, chunk::piece(bytes, size, i)));
    }
}

/// A file without bytes is read as soon as the namespace holds it.
proof fn lemma_empty_file_is_read(
    x: ClusterV,
    opts: Options,
    script: Seq<Step>,
    at: Seq<char>,
    bytes: Seq<u8>,
)
    requires
        on_course(x, opts, script),
        faultless::patient(opts),
        collision_free(opts, script),
        writes(script, bytes),
        bytes.len() == 0,
        path::normal(at),
        truth::names(x, 0).files.dom().contains(at),
        truth::names(x, 0).files[at] == filed(opts, bytes),
        opts.erasure is None,
        0 < opts.chunk_size,
        progress::room_left(x.read(at).0),
    ensures
        x.read(at).1 == Ok::<Seq<u8>, ErrorV>(bytes),
{
    let history = choose|history: Seq<MetaOpV>| faultless::regular(x, history);
    let size = opts.chunk_size as nat;
    lemma_no_collision(x, opts, script, bytes);
    assert(chunk::piece_count(bytes.len(), size) == 0) by {
        vstd::arithmetic::div_mod::lemma_basic_div(size - 1, size as int);
    }
    readback::law_supplied_file_is_read(x, 0, at, bytes);
}

/// After a write over a prompt link, a file whose manifest is still there is read from all the
/// nodes that its chunks belong on.
proof fn lemma_prompt_file_is_read(
    v: ClusterV,
    opts: Options,
    script: Seq<Step>,
    at: Seq<char>,
    bytes: Seq<u8>,
    after: Seq<Step>,
)
    requires
        on_course(v, opts, script),
        on_course(replay::played(v.written(at, bytes).0, after), opts, script),
        faultless::patient(opts),
        prompt(opts),
        collision_free(opts, script),
        writes(script, bytes),
        part_of(after, script),
        v.written(at, bytes).1 is Ok,
        path::normal(at),
        truth::names(replay::played(v.written(at, bytes).0, after), 0).files.dom().contains(at),
        truth::names(replay::played(v.written(at, bytes).0, after), 0).files[at] == filed(
            opts,
            bytes,
        ),
        opts.erasure is None,
        0 < opts.chunk_size,
        protocol::larger(opts.read_quorum as nat, 1) <= opts.replication_factor,
        protocol::larger(opts.read_quorum as nat, 1) <= opts.node_count,
        progress::room_left(replay::played(v.written(at, bytes).0, after).read(at).0),
    ensures
        replay::played(v.written(at, bytes).0, after).read(at).1 == Ok::<Seq<u8>, ErrorV>(bytes),
{
    let w = v.written(at, bytes).0;
    let x = replay::played(w, after);
    let size = opts.chunk_size as nat;
    let needed = protocol::larger(opts.read_quorum as nat, 1);
    let t = v.net.clock as nat + progress::hop(v.net);
    let history = choose|history: Seq<MetaOpV>| faultless::regular(x, history);
    durability::law_file_operations_keep_sound(v, at, at, bytes);
    lemma_part_extends(w, script, after);
    durability::law_file_operations_keep_sound(x, at, at, bytes);
    lemma_no_collision(v, opts, script, bytes);
    lemma_no_collision(x, opts, script, bytes);
    lemma_all_live(v);
    assert forall|k: u32| #[trigger]
        v.live_storage().contains(k) implies progress::reaches_storage(v.net, k) by {}
    arrival::lemma_write_takes_time(v, at, bytes);
    assert forall|i: int| 0 <= i < chunk::piece_count(bytes.len(), size) implies arrival::landing_on(
        x,
        #[trigger] chunk::piece(bytes, size, i),
        needed,
        t,
    ) by {
        let piece = chunk::piece(bytes, size, i);
        arrival::law_written_chunks_land(v, at, bytes, i);
        let n = v.target();
        let s = choose|s: Set<u32>| #[trigger]
            arrival::all_landing(w, s, piece, t) && s.finite() && s.len() >= n;
        assert(arrival::all_landing(x, s, piece, t)) by {
            assert forall|k: u32| #[trigger] s.contains(k) implies arrival::open_way(x, k)
                && readback::landing(x, k, piece, t) by {
                lemma_part_landing(w, script, after, k, piece, t);
            }
        }
    }
    arrival::law_landing_file_is_read(x, 0, at, bytes, t);
}

/// In the middle of a run, a file that was just written is read after a part that leaves it
/// alone.
proof fn lemma_written_is_read(
    v: ClusterV,
    opts: Options,
    script: Seq<Step>,
    at: Seq<char>,
    bytes: Seq<u8>,
    after: Seq<Step>,
)
    requires
        on_course(v, opts, script),
        on_course(v.written(at, bytes).0, opts, script),
        faultless::patient(opts),
        proper(opts),
        fits(script),
        collision_free(opts, script),
        writes(script, bytes),
        part_of(after, script),
        forall|i: int| 0 <= i < after.len() ==> spares(#[trigger] after[i], at),
        v.written(at, bytes).1 is Ok,
        opts.erasure is None ==> 0 < opts.chunk_size && enough_copies(opts, bytes),
        progress::room_left(replay::played(v.written(at, bytes).0, after).read(at).0),
    ensures
        replay::played(v.written(at, bytes).0, after).read(at).1 == Ok::<Seq<u8>, ErrorV>(bytes),
{
    let w = v.written(at, bytes).0;
    let x = replay::played(w, after);
    lemma_part_extends(w, script, after);
    durability::law_file_operations_keep_sound(x, at, at, bytes);
    lemma_write_stores(v, opts, at, bytes);
    lemma_part_on_course(w, opts, script, after);
    assert(truth::names(x, 0).files.dom().contains(at));
    if opts.erasure is None && bytes.len() == 0 {
        lemma_empty_file_is_read(x, opts, script, at, bytes);
    } else if opts.erasure is Some || protocol::larger(opts.read_quorum as nat, 1)
        <= opts.write_quorum {
        lemma_stored_stays(w, x, opts, bytes);
        lemma_stored_file_is_read(x, opts, script, at, bytes);
    } else {
        lemma_prompt_file_is_read(v, opts, script, at, bytes, after);
    }
}

/// What has room left later has room left now.
proof fn lemma_room_before(v: ClusterV, w: ClusterV)
    requires
        soundness::extends(v, w),
        progress::room_left(w),
    ensures
        progress::room_left(v),
{
}

/// A run is on course before and after a write in its middle.
proof fn lemma_run_on_course(
    opts: Options,
    seed: u64,
    script: Seq<Step>,
    before: Seq<Step>,
    at: Seq<char>,
    bytes: Seq<u8>,
)
    requires
        proper(opts),
        0 < opts.meta_count,
        opts.meta_quorum <= opts.meta_count,
        opts.link.drop_prob == 0,
        faultless::patient(opts),
        fits(script),
        collision_free(opts, script),
        part_of(before, script),
        part_of(before.push(Step::Write { path: at, bytes }), script),
        progress::room_left(replay::run_of(opts, seed, before).written(at, bytes).0),
    ensures
        on_course(replay::run_of(opts, seed, before), opts, script),
        on_course(replay::run_of(opts, seed, before).written(at, bytes).0, opts, script),
{
    let first = before.push(Step::Write { path: at, bytes });
    let start = cluster::unsettled(opts, seed).settled();
    let v = replay::played(start, before);
    assert(first.drop_last() =~= before);
    assert(first.last() == (Step::Write { path: at, bytes }));
    assert(replay::played(start, first) == replay::stepped(v, first.last()));
    lemma_fresh_on_course(opts, seed, script);
    assert(progress::room_left(v)) by {
        lemma_part_extends(start, script, before);
        faultless::lemma_step_extends(v, first.last());
        lemma_room_before(v, replay::stepped(v, first.last()));
    }
    assert(on_course(v, opts, script)) by {
        lemma_part_on_course(start, opts, script, before);
    }
    assert(on_course(replay::played(start, first), opts, script)) by {
        lemma_part_on_course(start, opts, script, first);
    }
}

/// In a run without faults from a fresh cluster, a file reads as it was last written, whatever
/// was done before and whatever is done to other files later: in both storage modes, for bytes
/// of any length, as long as the link drops nothing, messages have time to travel, the
/// counters are not used up and no two parts of files collide. With replication a read needs as
/// many copies as the write waited for or, over a prompt link, as there are in all.
pub proof fn law_run_reads_last_write(
    opts: Options,
    seed: u64,
    before: Seq<Step>,
    at: Seq<char>,
    bytes: Seq<u8>,
    after: Seq<Step>,
)
    requires
        proper(opts),
        0 < opts.meta_count,
        opts.meta_quorum <= opts.meta_count,
        opts.link.drop_prob == 0,
        faultless::patient(opts),
        opts.erasure is None ==> 0 < opts.chunk_size && enough_copies(opts, bytes),
        forall|i: int| 0 <= i < before.len() ==> faultless::faultless(#[trigger] before[i]),
        forall|i: int|
            0 <= i < after.len() ==> faultless::faultless(#[trigger] after[i]) && spares(
                after[i],
                at,
            ),
        replay::run_of(opts, seed, before).written(at, bytes).1 is Ok,
        fits(script_with(before, at, bytes, after)),
        collision_free(opts, script_with(before, at, bytes, after)),
        progress::room_left(
            replay::run_of(opts, seed, script_with(before, at, bytes, after)).read(at).0,
        ),
    ensures
        replay::run_of(opts, seed, script_with(before, at, bytes, after)).read(at).1 == Ok::<
            Seq<u8>,
            ErrorV,
        >(bytes),
{
    let script = script_with(before, at, bytes, after);
    let first = before.push(Step::Write { path: at, bytes });
    let start = cluster::unsettled(opts, seed).settled();
    let v = replay::run_of(opts, seed, before);
    let w = v.written(at, bytes).0;
    lemma_parts(before, at, bytes, after);
    lemma_played_on(start, first, after);
    assert(first.drop_last() =~= before);
    assert(first.last() == (Step::Write { path: at, bytes }));
    assert(replay::played(start, first) == w);
    let x = replay::played(w, after);
    assert(progress::room_left(w)) by {
        soundness::law_fresh_cluster_is_sound(opts, seed);
        assert(faultless::whole(start));
        lemma_part_extends(start, script, first);
        lemma_part_extends(w, script, after);
        durability::law_file_operations_keep_sound(x, at, at, bytes);
        lemma_room_before(x, x.read(at).0);
        lemma_room_before(w, x);
    }
    lemma_run_on_course(opts, seed, script, before, at, bytes);
    lemma_written_is_read(v, opts, script, at, bytes, after);
}

/// A part that holds no fault keeps the cluster calm.
proof fn lemma_part_calm(v: ClusterV, opts: Options, part: Seq<Step>)
    requires
        faultless::calm(v, opts),
        faultless::patient(opts),
        part_of(part, part),
        progress::room_left(replay::played(v, part)),
    ensures
        faultless::calm(replay::played(v, part), opts),
    decreases part.len(),
{
    if part.len() > 0 {
        let front = part.drop_last();
        assert forall|i: int| 0 <= i < front.len() implies front.contains(#[trigger] front[i])
            && faultless::faultless(front[i]) by {
            assert(front[i] == part[i]);
        }
        assert(part.last() == part[part.len() - 1]);
        let w = replay::played(v, front);
        lemma_part_extends(v, front, front);
        faultless::lemma_step_extends(w, part.last());
        lemma_part_calm(v, opts, front);
        lemma_step_calm(w, opts, part.last());
    }
}

/// While nothing has failed every storage node is live.
proof fn lemma_all_live(v: ClusterV)
    requires
        faultless::whole(v),
    ensures
        v.live_storage().len() == v.opts.node_count,
{
    simulation::lemma_live(v);
    let live = v.live_storage();
    let all = Set::new(|i: u32| i < v.opts.node_count as nat);
    replicas::lemma_upto(v.opts.node_count);
    live.unique_seq_to_set();
    assert(live.to_set() =~= all) by {
        assert forall|i: u32| live.to_set().contains(i) <==> all.contains(i) by {
            assert(live.contains(i) <==> i < v.opts.node_count);
        }
    }
}

/// Whether there are enough storage nodes for a write to get its quorum.
pub open spec fn enough_nodes(opts: Options) -> bool {
    match opts.erasure {
        None => opts.write_quorum <= opts.replication_factor && opts.write_quorum
            <= opts.node_count,
        Some(er) => er.k + er.m <= opts.node_count && opts.write_quorum <= er.k + er.m,
    }
}

/// In a run without faults from a fresh cluster, a write to a normal path succeeds exactly when
/// the namespace allows it, and otherwise reports why not: as long as there are enough nodes,
/// the link drops nothing, messages have time to travel and the counters are not used up.
pub proof fn law_run_writes_succeed(
    opts: Options,
    seed: u64,
    before: Seq<Step>,
    at: Seq<char>,
    bytes: Seq<u8>,
)
    requires
        opts.wf(),
        0 < opts.meta_count,
        opts.meta_quorum <= opts.meta_count,
        opts.link.drop_prob == 0,
        faultless::patient(opts),
        enough_nodes(opts),
        forall|i: int| 0 <= i < before.len() ==> faultless::faultless(#[trigger] before[i]),
        path::normal(at),
        progress::room_left(replay::run_of(opts, seed, before).written(at, bytes).0),
    ensures
        replay::run_of(opts, seed, before).written(at, bytes).1 == (match truth::names(
            replay::run_of(opts, seed, before),
            0,
        ).validated(MetaOpV::Put { path: at, manifest: filed(opts, bytes) }) {
            Ok(_) => Ok::<(), ErrorV>(()),
            Err(c) => Err::<(), ErrorV>(message::meta_error(c, at)),
        }),
{
    let start = cluster::unsettled(opts, seed).settled();
    let v = replay::played(start, before);
    assert(part_of(before, before)) by {
        assert forall|i: int| 0 <= i < before.len() implies before.contains(#[trigger] before[i])
            && faultless::faultless(before[i]) by {}
    }
    lemma_fresh_on_course(opts, seed, before);
    lemma_part_extends(start, before, before);
    durability::law_file_operations_keep_sound(v, at, at, bytes);
    lemma_part_calm(start, opts, before);
    let history = choose|history: Seq<MetaOpV>| faultless::regular(v, history);
    let backups = faultless::lemma_enough_backups(v, opts, history);
    lemma_all_live(v);
    assert(truth::manifest_for(v, bytes) == filed(opts, bytes));
    assert forall|i: u32| #[trigger] progress::reaches_storage(v.net, i) by {}
    match opts.erasure {
        None => {
            quorums::law_replicated_writes_succeed(
                v,
                0,
                history,
                backups,
                at,
                bytes,
                Set::empty(),
            );
        },
        Some(er) => {
            quorums::law_erasure_writes_succeed(v, 0, history, backups, at, bytes, er);
        },
    }
}

} // verus!

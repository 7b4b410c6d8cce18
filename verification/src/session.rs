//! What the commands of a session do to the cluster, and what they show.

use crate::census;
use crate::cluster::{self, Status};
use crate::error::ErrorV;
use crate::message::{DirEntryV, NodeId};
use crate::net::{LinkParams, NetV};
use crate::options::Options;
use crate::shell::{self, CommandV, OutputV};
use crate::simulation::{self, ClusterV};
use crate::text;
use crate::transit;
use crate::wire;
use vstd::prelude::*;

verus! {

/// Whether all that is shown is one line.
pub open spec fn shows(out: OutputV, l: Seq<char>) -> bool {
    out matches OutputV::Lines(ls) && ls.len() == 1 && ls[0] == l
}

/// Whether a cluster comes from another by taking nodes down or bringing them up.
pub open spec fn same_but_for_health(v: ClusterV, w: ClusterV) -> bool {
    w == ClusterV { net: NetV { down: w.net.down, ..v.net }, ..v }
}

/// Whether a cluster comes from another by drawing or lifting partitions.
pub open spec fn same_but_for_sides(v: ClusterV, w: ClusterV) -> bool {
    w == ClusterV { net: NetV { partition: w.net.partition, ..v.net }, ..v }
}

/// After the command that fails a node, that node is down and can exchange messages with nobody:
/// whatever is sent to it or by it is lost. No other node changed, and nothing else did.
pub proof fn law_fail_takes_the_node_down(
    v: ClusterV,
    n: u32,
    w: ClusterV,
    out: OutputV,
    x: NodeId,
    env: wire::Envelope,
)
    requires
        shell::runs(v, CommandV::Fail(n), w, out),
    ensures
        w.net.down.contains(NodeId::Storage(n)),
        !transit::in_touch(w.net, NodeId::Storage(n), x),
        !transit::in_touch(w.net, x, NodeId::Storage(n)),
        env.from == NodeId::Storage(n) || env.to == NodeId::Storage(n) ==> w.net.sent(env).queue
            == w.net.queue,
        x != NodeId::Storage(n) ==> (w.net.down.contains(x) <==> v.net.down.contains(x)),
        same_but_for_health(v, w),
        shows(out, "crashed node "@ + text::decimal(n as nat)),
{
    reveal(shell::ran);
    transit::law_send_is_lost_or_queued(w.net, env);
}

/// After the command that heals a node, that node is up, no other node changed, and nothing else
/// did.
pub proof fn law_heal_brings_the_node_up(
    v: ClusterV,
    n: u32,
    w: ClusterV,
    out: OutputV,
    x: NodeId,
)
    requires
        shell::runs(v, CommandV::Heal(n), w, out),
    ensures
        !w.net.down.contains(NodeId::Storage(n)),
        x != NodeId::Storage(n) ==> (w.net.down.contains(x) <==> v.net.down.contains(x)),
        same_but_for_health(v, w),
        shows(out, "recovered node "@ + text::decimal(n as nat)),
{
    reveal(shell::ran);
}

/// A failed node that is healed again leaves the cluster as it was, when the node was up.
pub proof fn law_heal_undoes_fail(v: ClusterV, n: u32)
    requires
        !v.net.down.contains(NodeId::Storage(n)),
    ensures
        shell::ran(shell::ran(v, CommandV::Fail(n)).0, CommandV::Heal(n)).0 == v,
{
    reveal(shell::ran);
    let w = shell::ran(shell::ran(v, CommandV::Fail(n)).0, CommandV::Heal(n)).0;
    assert(w.net.down =~= v.net.down);
    assert(w.net =~= v.net);
    assert(w =~= v);
}

/// Whether a participant is one of the cluster's.
pub open spec fn takes_part(v: ClusterV, x: NodeId) -> bool {
    match x {
        NodeId::Client => true,
        NodeId::Storage(i) => i < v.opts.node_count,
        NodeId::Meta(i) => i < v.opts.meta_count,
    }
}

/// Whether a participant is one of some storage nodes.
pub open spec fn among(ns: Seq<u32>, x: NodeId) -> bool {
    x matches NodeId::Storage(i) && ns.contains(i)
}

proof fn lemma_everyone_takes_part(v: ClusterV, x: NodeId)
    ensures
        v.everyone().contains(x) <==> takes_part(v, x),
{
    let all = v.everyone();
    let n = v.opts.node_count as int;
    if takes_part(v, x) {
        let at = match x {
            NodeId::Client => 0int,
            NodeId::Storage(i) => 1 + i,
            NodeId::Meta(i) => 1 + n + i,
        };
        assert(all[at] == x);
    }
    if all.contains(x) {
        let at = choose|at: int| 0 <= at < all.len() && all[at] == x;
        if at == 0 {
            assert(x == NodeId::Client);
        } else if at <= n {
            assert(x == NodeId::Storage((at - 1) as u32));
        } else {
            assert(x == NodeId::Meta((at - 1 - n) as u32));
        }
    }
}

/// After the command that partitions some storage nodes off, two participants that are up are in
/// touch exactly when both or neither of them are among those nodes, whatever sides there were
/// before. Nothing else changed.
pub proof fn law_partition_cuts_the_nodes_off(
    v: ClusterV,
    ns: Seq<u32>,
    w: ClusterV,
    out: OutputV,
    a: NodeId,
    b: NodeId,
)
    requires
        shell::runs(v, CommandV::Partition(ns), w, out),
        takes_part(v, a),
        takes_part(v, b),
    ensures
        transit::in_touch(w.net, a, b) <==> !v.net.down.contains(a) && !v.net.down.contains(b)
            && among(ns, a) == among(ns, b),
        same_but_for_sides(v, w),
        shows(out, "partitioned ["@ + shell::listed_numbers(ns, ns.len()) + "] from the cluster"@),
{
    reveal(shell::ran);
    let group = Seq::new(ns.len(), |i: int| NodeId::Storage(ns[i]));
    assert forall|x: NodeId| group.contains(x) <==> #[trigger] among(ns, x) by {
        if among(ns, x) {
            let k = choose|k: int| 0 <= k < ns.len() && ns[k] == x->Storage_0;
            assert(group[k] == x);
        }
        if group.contains(x) {
            let k = choose|k: int| 0 <= k < group.len() && group[k] == x;
            assert(ns[k] == x->Storage_0);
        }
    }
    lemma_everyone_takes_part(v, a);
    lemma_everyone_takes_part(v, b);
    transit::law_split_and_heal(v.net, group, v.everyone(), a, b);
    transit::law_split_and_heal(v.net, group, v.everyone(), b, a);
    assert(among(ns, a) == group.contains(a));
    assert(among(ns, b) == group.contains(b));
}

/// After the command that reconnects, all participants that are up are in touch. Nothing else
/// changed.
pub proof fn law_reconnect_lifts_partitions(
    v: ClusterV,
    w: ClusterV,
    out: OutputV,
    a: NodeId,
    b: NodeId,
)
    requires
        shell::runs(v, CommandV::Reconnect, w, out),
    ensures
        transit::in_touch(w.net, a, b) <==> !v.net.down.contains(a) && !v.net.down.contains(b),
        same_but_for_sides(v, w),
        shows(out, "healed"@),
{
    reveal(shell::ran);
}

/// Whether a cluster is a new one: nothing is stored, sent, delivered or committed, everybody is
/// up and in touch, the first metadata node is the primary and the others are backups.
pub open spec fn brand_new(v: ClusterV, seed: u64) -> bool {
    &&& v.net == NetV::fresh(seed, v.opts.link, v.opts.link.drop_prob == 0)
    &&& v.inbox.len() == 0
    &&& v.next_req == 0
    &&& v.storages.len() == v.opts.node_count
    &&& v.metas.len() == v.opts.meta_count
    &&& forall|i: int|
        0 <= i < v.storages.len() ==> (#[trigger] v.storages[i]).idx == i && v.storages[i].store
            == Map::<Seq<u8>, Seq<u8>>::empty()
    &&& forall|i: int|
        0 <= i < v.metas.len() ==> {
            let m = #[trigger] v.metas[i];
            &&& m.idx == i
            &&& m.is_primary == (i == 0)
            &&& m.ns.files == Map::<Seq<char>, crate::chunk::ManifestV>::empty()
            &&& forall|p: Seq<char>| #[trigger] m.ns.dirs.contains(p) <==> p == seq!['/']
            &&& m.log.len() == 0
            &&& m.next_seq == 0
            &&& m.applied_seq == 0
            &&& m.pending == Map::<u64, crate::metadata::PendingV>::empty()
            &&& m.buffer == Map::<u64, crate::message::MetaOpV>::empty()
            &&& m.holders == Map::<Seq<u8>, Set<u32>>::empty()
            &&& m.meta_quorum == v.opts.meta_quorum
            &&& m.r == v.opts.replication_factor
            &&& m.peers.len() == v.opts.meta_count
            &&& forall|j: int| 0 <= j < m.peers.len() ==> #[trigger] m.peers[j] == j
        }
    &&& v.metas[0].live_storage.len() == v.opts.node_count
    &&& forall|j: int|
        0 <= j < v.opts.node_count ==> #[trigger] v.metas[0].live_storage[j] == j
}

proof fn lemma_all_live(v: ClusterV)
    requires
        v.net.down == Set::<NodeId>::empty(),
    ensures
        v.live_storage() == simulation::indices(v.opts.node_count),
        v.live_meta() == simulation::indices(v.opts.meta_count),
{
    lemma_filter_all(
        simulation::indices(v.opts.node_count),
        |i: u32| !v.net.down.contains(NodeId::Storage(i)),
    );
    lemma_filter_all(
        simulation::indices(v.opts.meta_count),
        |i: u32| !v.net.down.contains(NodeId::Meta(i)),
    );
}

proof fn lemma_filter_all(s: Seq<u32>, f: spec_fn(u32) -> bool)
    requires
        forall|x: u32| #[trigger] f(x),
    ensures
        s.filter(f) == s,
    decreases s.len(),
{
    reveal(Seq::filter);
    if s.len() > 0 {
        lemma_filter_all(s.drop_last(), f);
        assert(f(s.last()));
        assert(s.drop_last().push(s.last()) =~= s);
    } else {
        assert(s.filter(f) =~= s);
    }
}

proof fn lemma_first_is_most_current(v: ClusterV, n: nat)
    requires
        1 <= n <= v.opts.meta_count,
        v.metas.len() == v.opts.meta_count,
        forall|i: int| 0 <= i < v.metas.len() ==> (#[trigger] v.metas[i]).applied_seq == 0,
    ensures
        simulation::most_current(v.metas, simulation::indices(v.opts.meta_count), n) == 0,
    decreases n,
{
    if n > 1 {
        lemma_first_is_most_current(v, (n - 1) as nat);
    }
}

/// A cluster starts out brand new, with the options that it was given.
pub proof fn law_cluster_starts_new(opts: Options, seed: u64)
    requires
        opts.meta_count > 0,
    ensures
        brand_new(cluster::unsettled(opts, seed).settled(), seed),
        cluster::unsettled(opts, seed).settled().opts == opts,
{
    let v = cluster::unsettled(opts, seed);
    let w = v.settled();
    lemma_all_live(v);
    lemma_first_is_most_current(v, opts.meta_count as nat);
    assert(v.reconciled() == v.metas);
    assert(crate::path::root() == seq!['/']);
}

/// After the command that sets a seed, the cluster is a brand new one of that seed: five storage
/// nodes, three metadata nodes, two of which commit, three replicas of which two make a write,
/// chunks of 1024 bytes and links that lose nothing.
pub proof fn law_seed_restarts(v: ClusterV, n: u64, w: ClusterV, out: OutputV)
    requires
        shell::runs(v, CommandV::Seed(n), w, out),
    ensures
        brand_new(w, n),
        w.opts == (Options {
            chunk_size: 1024,
            replication_factor: 3,
            write_quorum: 2,
            read_quorum: 1,
            erasure: None,
            node_count: 5,
            meta_count: 3,
            meta_quorum: 2,
            op_deadline: 10_000,
            link: LinkParams { base_latency: 1, jitter: 4, drop_prob: 0 },
        }),
        shows(out, "restarted with seed "@ + text::decimal(n as nat)),
{
    reveal(shell::ran);
    law_cluster_starts_new(Options { chunk_size: 1024, ..Options::standard() }, n);
}

/// Commands that only speak change nothing.
pub proof fn law_speech_changes_nothing(v: ClusterV, cmd: CommandV, w: ClusterV, out: OutputV)
    requires
        shell::runs(v, cmd, w, out),
        cmd is Blank || cmd is Quit || cmd is Help || cmd is Status || cmd is Say,
    ensures
        w == v,
        cmd is Blank ==> (out matches OutputV::Lines(ls) && ls.len() == 0),
        cmd is Quit <==> out is Quit,
        cmd is Help <==> out is Help,
        cmd matches CommandV::Say(l) ==> shows(out, l),
{
    reveal(shell::ran);
}

/// The session ends on the command to quit, and on no other; the list of commands is shown on the
/// command for help, and on no other; and only the contents of a file are shown as bytes.
pub proof fn law_only_quit_ends(v: ClusterV, cmd: CommandV, w: ClusterV, out: OutputV)
    requires
        shell::runs(v, cmd, w, out),
    ensures
        cmd is Quit <==> out is Quit,
        cmd is Help <==> out is Help,
        out is Bytes ==> cmd is Get,
{
    reveal(shell::ran);
}

/// The command to stabilize says whether every chunk of every file is on enough nodes that are up.
pub proof fn law_stabilize_says_whether(v: ClusterV, w: ClusterV, out: OutputV)
    requires
        shell::runs(v, CommandV::Stabilize, w, out),
    ensures
        w == v.stabilized().0,
        shows(out, "converged: true"@) <==> exists|p: u32|
            census::leads(w, p) && #[trigger] census::all_copied(w, p),
        shows(out, "converged: false"@) <==> !exists|p: u32|
            census::leads(w, p) && #[trigger] census::all_copied(w, p),
{
    reveal(shell::ran);
    census::law_stabilize_reports_full_replication(v);
    reveal_strlit("converged: true");
    reveal_strlit("converged: false");
    assert("converged: true"@.len() != "converged: false"@.len());
}

/// The word for an outcome: a short yes, or the error.
pub open spec fn says_outcome(out: OutputV, r: Result<(), ErrorV>) -> bool {
    match r {
        Ok(_) => shows(out, "ok"@),
        Err(e) => shows(out, "error: "@ + e.text()),
    }
}

/// The commands that change the namespace do what the operation does, on the paths that were
/// given in the order they were given, and say what became of it.
pub proof fn law_changes_are_passed_on(
    v: ClusterV,
    p: Seq<char>,
    q: Seq<char>,
    w: ClusterV,
    out: OutputV,
)
    ensures
        shell::runs(v, CommandV::Mkdir(p), w, out) ==> w == v.made_dir(p).0 && says_outcome(
            out,
            v.made_dir(p).1,
        ),
        shell::runs(v, CommandV::Rm(p), w, out) ==> w == v.deleted(p).0 && says_outcome(
            out,
            v.deleted(p).1,
        ),
        shell::runs(v, CommandV::Mv(p, q), w, out) ==> w == v.renamed(p, q).0 && says_outcome(
            out,
            v.renamed(p, q).1,
        ),
{
    reveal(shell::ran);
}

/// A put writes the text's bytes and says how many; a get shows the bytes that were read.
pub proof fn law_contents_are_passed_on(
    v: ClusterV,
    p: Seq<char>,
    t: Seq<char>,
    w: ClusterV,
    out: OutputV,
)
    ensures
        shell::runs(v, CommandV::Put(p, t), w, out) ==> {
            let bytes = vstd::utf8::encode_utf8(t);
            &&& w == v.written(p, bytes).0
            &&& v.written(p, bytes).1 is Ok ==> shows(
                out,
                "wrote "@ + text::decimal(bytes.len()) + " bytes"@,
            )
            &&& v.written(p, bytes).1 matches Err(e) ==> shows(out, "error: "@ + e.text())
        },
        shell::runs(v, CommandV::Get(p), w, out) ==> {
            &&& w == v.read(p).0
            &&& v.read(p).1 matches Ok(bytes) ==> out == OutputV::Bytes(bytes)
            &&& v.read(p).1 matches Err(e) ==> shows(out, "error: "@ + e.text())
        },
{
    reveal(shell::ran);
}

/// The line of one directory entry: what it is, what it is called and how large it is.
pub open spec fn shows_entry(l: Seq<char>, e: DirEntryV) -> bool {
    let kind = if e.is_dir {
        "dir "@
    } else {
        "file"@
    };
    l == "  "@ + kind + " "@ + e.name + " ("@ + text::decimal(e.size as nat) + " bytes)"@
}

/// A listing shows one line for each entry, in the order of the entries, and a stat shows what is
/// there, how large it is and the first bytes of its hash.
pub proof fn law_answers_are_shown(v: ClusterV, p: Seq<char>, w: ClusterV, out: OutputV)
    ensures
        shell::runs(v, CommandV::Ls(p), w, out) ==> {
            &&& w == v.listed(p).0
            &&& v.listed(p).1 matches Ok(es) ==> out matches OutputV::Lines(ls) && ls.len()
                == es.len() && forall|i: int|
                0 <= i < es.len() ==> shows_entry(#[trigger] ls[i], es[i])
            &&& v.listed(p).1 matches Err(e) ==> shows(out, "error: "@ + e.text())
        },
        shell::runs(v, CommandV::Stat(p), w, out) ==> {
            &&& w == v.statted(p).0
            &&& v.statted(p).1 matches Ok(s) ==> {
                let kind = if s.is_dir {
                    "dir"@
                } else {
                    "file"@
                };
                shows(
                    out,
                    kind + " size="@ + text::decimal(s.size as nat) + " hash="@ + text::hex(
                        s.content_hash.subrange(0, 4),
                    ),
                )
            }
            &&& v.statted(p).1 matches Err(e) ==> shows(out, "error: "@ + e.text())
        },
{
    reveal(shell::ran);
}

/// The command for status shows a status of the cluster: a line with the time, a line with the
/// nodes, and a line for each file or one that says there is none.
pub proof fn law_status_is_shown(v: ClusterV, w: ClusterV, out: OutputV)
    requires
        shell::runs(v, CommandV::Status, w, out),
    ensures
        exists|s: Status| #[trigger]
            cluster::reports(v, s) && shows_status(out, s),
{
    let s = choose|s: Status| #[trigger]
        cluster::reports(v, s) && out == OutputV::Lines(shell::status_lines(s));
    lemma_marks(s.nodes@, s.nodes@.len());
    let marks = Seq::new(s.nodes@.len(), |i: int| mark(s.nodes@[i]));
    assert(marks.take(s.nodes@.len() as int) =~= marks);
    let ls = shell::status_lines(s);
    assert forall|j: int| 0 <= j < s.files@.len() implies shows_file(
        #[trigger] ls[j + 2],
        s.files@[j],
    ) by {
        assert(ls[j + 2] == shell::file_line(s.files@[j]));
    }
    assert(cluster::reports(v, s) && shows_status(out, s));
}

/// The mark of a node: its number, whether it is up, and how many chunks it holds.
pub open spec fn mark(n: cluster::NodeStatus) -> Seq<char> {
    let health = if n.live {
        "up"@
    } else {
        "DOWN"@
    };
    "[n"@ + text::decimal(n.idx as nat) + " "@ + health + " "@ + text::decimal(n.chunks as nat)
        + "c] "@
}

/// The line of a file: its path, size, number of chunks, and fewest live replicas.
pub open spec fn shows_file(l: Seq<char>, f: cluster::FileHealth) -> bool {
    l == "  "@ + f.path@ + " size="@ + text::decimal(f.size as nat) + " chunks="@ + text::decimal(
        f.chunk_count as nat,
    ) + " min_live_replicas="@ + text::decimal(f.min_live_replicas as nat)
}

/// Whether lines show a status.
pub open spec fn shows_status(out: OutputV, s: Status) -> bool {
    &&& out matches OutputV::Lines(ls)
    &&& ls.len() == 2 + (if s.files@.len() == 0 {
        1
    } else {
        s.files@.len()
    })
    &&& ls[0] == "clock "@ + text::decimal(s.clock as nat)
    &&& ls[1] == "nodes: "@ + Seq::new(s.nodes@.len(), |i: int| mark(s.nodes@[i])).flatten()
    &&& s.files@.len() == 0 ==> ls[2] == "files: none"@
    &&& forall|j: int| 0 <= j < s.files@.len() ==> shows_file(#[trigger] ls[j + 2], s.files@[j])
}

proof fn lemma_marks(ns: Seq<cluster::NodeStatus>, n: nat)
    requires
        n <= ns.len(),
    ensures
        shell::node_marks(ns, n) == "nodes: "@ + Seq::new(
            ns.len(),
            |i: int| mark(ns[i]),
        ).take(n as int).flatten(),
    decreases n,
{
    let all = Seq::new(ns.len(), |i: int| mark(ns[i]));
    let t = all.take(n as int);
    if n == 0 {
        assert(t =~= Seq::empty());
        assert(t.flatten() =~= Seq::empty());
        assert("nodes: "@ + Seq::<char>::empty() =~= "nodes: "@);
    } else {
        lemma_marks(ns, (n - 1) as nat);
        let f = all.take(n - 1);
        assert(t =~= f.push(mark(ns[n - 1])));
        f.lemma_flatten_push(mark(ns[n - 1]));
        assert(("nodes: "@ + f.flatten()) + mark(ns[n - 1]) =~= "nodes: "@ + (f.flatten() + mark(
            ns[n - 1],
        )));
    }
}

/// The sample file's bytes go up by 37 from one to the next, wrapping around, and begin with the
/// length of the path.
pub proof fn law_sample_bytes(len: nat, i: int)
    requires
        i >= 0,
    ensures
        shell::sample_byte(len, 0) == len % 256,
        shell::sample_byte(len, i + 1) == (shell::sample_byte(len, i) + 37) % 256,
{
    let a = i * 37 + len as int;
    assert((i + 1) * 37 + len as int == a + 37);
    vstd::arithmetic::div_mod::lemma_add_mod_noop(a, 37, 256);
}

} // verus!

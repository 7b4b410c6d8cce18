//! What the state hash and the delivery digest cover: clusters and runs that differ in what is
//! covered differ in the bytes that are hashed.

use crate::census;
use crate::chunk::ManifestV;
use crate::cluster;
use crate::encode;
use crate::hash;
use crate::message::NodeId;
use crate::namespace::NsV;
use crate::net::Delivery;
use crate::ordmap;
use crate::simulation::ClusterV;
use crate::varint;
use crate::wire;
use vstd::prelude::*;

verus! {

proof fn lemma_front(x: Seq<u8>, y: Seq<u8>, r: Seq<u8>, s: Seq<u8>)
    requires
        x.len() == y.len(),
        x + r == y + s,
    ensures
        x == y,
        r == s,
{
    assert(x =~= (x + r).take(x.len() as int));
    assert(y =~= (y + s).take(x.len() as int));
    assert(r =~= (x + r).skip(x.len() as int));
    assert(s =~= (y + s).skip(x.len() as int));
}

proof fn lemma_front_number(a: nat, b: nat, r: Seq<u8>, s: Seq<u8>)
    requires
        a <= u64::MAX,
        b <= u64::MAX,
        varint::leb(a) + r == varint::leb(b) + s,
    ensures
        a == b,
        r == s,
{
    varint::law_varint_round_trip(a as u64, r);
    varint::law_varint_round_trip(b as u64, s);
    lemma_front(varint::leb(a), varint::leb(b), r, s);
}

proof fn lemma_front_hashes(a: Seq<Seq<u8>>, b: Seq<Seq<u8>>, r: Seq<u8>, s: Seq<u8>)
    requires
        hashes(a),
        hashes(b),
        a.len() <= u64::MAX,
        b.len() <= u64::MAX,
        varint::leb(a.len()) + encode::hashes_wire(a) + r == varint::leb(b.len())
            + encode::hashes_wire(b) + s,
    ensures
        a == b,
        r == s,
{
    let x = encode::hashes_wire(a) + r;
    let y = encode::hashes_wire(b) + s;
    assert(varint::leb(a.len()) + encode::hashes_wire(a) + r =~= varint::leb(a.len()) + x);
    assert(varint::leb(b.len()) + encode::hashes_wire(b) + s =~= varint::leb(b.len()) + y);
    lemma_front_number(a.len(), b.len(), x, y);
    encode::law_hashes_round_trip(a, r);
    encode::law_hashes_round_trip(b, s);
}

proof fn lemma_front_string(a: Seq<char>, b: Seq<char>, r: Seq<u8>, s: Seq<u8>)
    requires
        encode::str_fits(a),
        encode::str_fits(b),
        encode::str_wire(a) + r == encode::str_wire(b) + s,
    ensures
        a == b,
        r == s,
{
    encode::law_str_round_trip(a, r);
    encode::law_str_round_trip(b, s);
}

/// Whether all of some ids have the length of a hash.
pub open spec fn hashes(ids: Seq<Seq<u8>>) -> bool {
    forall|i: int| 0 <= i < ids.len() ==> (#[trigger] ids[i]).len() == 32
}

/// Whether the ids of a set of chunks have the length of a hash, and can be counted.
pub open spec fn chunk_set(ids: Set<Seq<u8>>) -> bool {
    &&& ids.finite()
    &&& ids.len() <= u64::MAX
    &&& forall|id: Seq<u8>| #[trigger] ids.contains(id) ==> id.len() == 32
}

/// Whether a namespace can be written down: it is finite, and lengths fit.
pub open spec fn writable(ns: NsV) -> bool {
    &&& ns.files.dom().finite()
    &&& ns.dirs.finite()
    &&& ns.files.dom().len() <= u64::MAX
    &&& ns.dirs.len() <= u64::MAX
    &&& forall|p: Seq<char>| #[trigger]
        ns.files.dom().contains(p) ==> encode::str_fits(p) && ns.files[p].content_hash.len() == 32
            && hashes(ns.files[p].chunks) && ns.files[p].chunks.len() <= u64::MAX
    &&& forall|p: Seq<char>| #[trigger] ns.dirs.contains(p) ==> encode::str_fits(p)
}

proof fn lemma_order_is_hashes(ids: Set<Seq<u8>>)
    requires
        chunk_set(ids),
    ensures
        hashes(ordmap::in_order::<hash::Hash>(ids)),
        ordmap::in_order::<hash::Hash>(ids).len() == ids.len(),
        ordmap::in_order::<hash::Hash>(ids).to_set() == ids,
{
    let s = ordmap::in_order::<hash::Hash>(ids);
    ordmap::lemma_order_of::<hash::Hash>(ids);
    assert forall|i: int| 0 <= i < s.len() implies (#[trigger] s[i]).len() == 32 by {
        assert(s.to_set().contains(s[i]));
    }
}

/// Whether two clusters have a storage node up or down both, with the same chunks on it.
pub open spec fn same_node(v: ClusterV, w: ClusterV, i: int) -> bool {
    &&& v.storages[i].store.dom() == w.storages[i].store.dom()
    &&& v.net.down.contains(NodeId::Storage(i as u32)) == w.net.down.contains(
        NodeId::Storage(i as u32),
    )
}

/// Whether that is so of each of the first `n` storage nodes.
pub open spec fn same_storage(v: ClusterV, w: ClusterV, n: nat) -> bool {
    forall|i: int| 0 <= i < n ==> #[trigger] same_node(v, w, i)
}

spec fn storage_entry(i: int, down: bool, ids: Seq<Seq<u8>>) -> Seq<u8> {
    varint::leb(i as nat) + (seq![wire::flag(down)] + (varint::leb(ids.len())
        + encode::hashes_wire(ids)))
}

proof fn lemma_storage_entry(
    i: int,
    x: bool,
    y: bool,
    a: Seq<Seq<u8>>,
    b: Seq<Seq<u8>>,
    r: Seq<u8>,
    s: Seq<u8>,
)
    requires
        hashes(a),
        hashes(b),
        a.len() <= u64::MAX,
        b.len() <= u64::MAX,
        storage_entry(i, x, a) + r == storage_entry(i, y, b) + s,
    ensures
        x == y,
        a == b,
        r == s,
{
    let fx = seq![wire::flag(x)];
    let fy = seq![wire::flag(y)];
    let ta = varint::leb(a.len()) + encode::hashes_wire(a) + r;
    let tb = varint::leb(b.len()) + encode::hashes_wire(b) + s;
    assert(storage_entry(i, x, a) + r =~= varint::leb(i as nat) + (fx + ta));
    assert(storage_entry(i, y, b) + s =~= varint::leb(i as nat) + (fy + tb));
    lemma_front(varint::leb(i as nat), varint::leb(i as nat), fx + ta, fy + tb);
    lemma_front(fx, fy, ta, tb);
    assert(fx[0] == fy[0]);
    lemma_front_hashes(a, b, r, s);
}

proof fn lemma_storage_step(v: ClusterV, n: nat, r: Seq<u8>)
    requires
        n > 0,
    ensures
        cluster::storage_bytes(v, n) + r == cluster::storage_bytes(v, (n - 1) as nat) + (
        storage_entry(
            n - 1,
            v.net.down.contains(NodeId::Storage((n - 1) as u32)),
            ordmap::in_order::<hash::Hash>(v.storages[n - 1].store.dom()),
        ) + r),
{
    let ids = ordmap::in_order::<hash::Hash>(v.storages[n - 1].store.dom());
    let a = cluster::storage_bytes(v, (n - 1) as nat);
    let b = varint::leb((n - 1) as nat);
    let c = seq![wire::flag(v.net.down.contains(NodeId::Storage((n - 1) as u32)))];
    let d = varint::leb(ids.len());
    let e = encode::hashes_wire(ids);
    assert(a + b + c + d + e + r =~= a + ((b + (c + (d + e))) + r));
}

proof fn lemma_storage_bytes(v: ClusterV, w: ClusterV, n: nat, r: Seq<u8>, s: Seq<u8>)
    requires
        n <= u32::MAX,
        forall|i: int| 0 <= i < n ==> chunk_set((#[trigger] v.storages[i]).store.dom()),
        forall|i: int| 0 <= i < n ==> chunk_set((#[trigger] w.storages[i]).store.dom()),
        cluster::storage_bytes(v, n) + r == cluster::storage_bytes(w, n) + s,
    ensures
        same_storage(v, w, n),
        r == s,
    decreases n,
{
    if n == 0 {
        assert(cluster::storage_bytes(v, n) + r =~= r);
        assert(cluster::storage_bytes(w, n) + s =~= s);
    } else {
        let i = n - 1;
        let a = ordmap::in_order::<hash::Hash>(v.storages[i].store.dom());
        let b = ordmap::in_order::<hash::Hash>(w.storages[i].store.dom());
        let x = v.net.down.contains(NodeId::Storage(i as u32));
        let y = w.net.down.contains(NodeId::Storage(i as u32));
        lemma_order_is_hashes(v.storages[i].store.dom());
        lemma_order_is_hashes(w.storages[i].store.dom());
        lemma_storage_step(v, n, r);
        lemma_storage_step(w, n, s);
        lemma_storage_bytes(
            v,
            w,
            (n - 1) as nat,
            storage_entry(i, x, a) + r,
            storage_entry(i, y, b) + s,
        );
        lemma_storage_entry(i, x, y, a, b, r, s);
        assert(v.storages[i].store.dom() == a.to_set());
        assert(w.storages[i].store.dom() == b.to_set());
        assert(x == y);
        assert(same_storage(v, w, (n - 1) as nat));
        assert forall|j: int| 0 <= j < n implies #[trigger] same_node(v, w, j) by {
            if j < n - 1 {
                assert(same_node(v, w, j));
            } else {
                assert(j == i);
            }
        }
    }
}

spec fn manifest_bytes(p: Seq<char>, m: ManifestV) -> Seq<u8> {
    encode::str_wire(p) + (varint::leb(m.size as nat) + (m.content_hash + (varint::leb(
        m.chunks.len(),
    ) + encode::hashes_wire(m.chunks))))
}

proof fn lemma_manifest_bytes(
    p: Seq<char>,
    q: Seq<char>,
    x: ManifestV,
    y: ManifestV,
    r: Seq<u8>,
    s: Seq<u8>,
)
    requires
        encode::str_fits(p),
        encode::str_fits(q),
        x.content_hash.len() == 32,
        y.content_hash.len() == 32,
        hashes(x.chunks),
        hashes(y.chunks),
        x.chunks.len() <= u64::MAX,
        y.chunks.len() <= u64::MAX,
        manifest_bytes(p, x) + r == manifest_bytes(q, y) + s,
    ensures
        p == q,
        x.size == y.size,
        x.content_hash == y.content_hash,
        x.chunks == y.chunks,
        r == s,
{
    let x3 = varint::leb(x.chunks.len()) + encode::hashes_wire(x.chunks) + r;
    let y3 = varint::leb(y.chunks.len()) + encode::hashes_wire(y.chunks) + s;
    let x2 = x.content_hash + x3;
    let y2 = y.content_hash + y3;
    let x1 = varint::leb(x.size as nat) + x2;
    let y1 = varint::leb(y.size as nat) + y2;
    assert(manifest_bytes(p, x) + r =~= encode::str_wire(p) + x1);
    assert(manifest_bytes(q, y) + s =~= encode::str_wire(q) + y1);
    lemma_front_string(p, q, x1, y1);
    lemma_front_number(x.size as nat, y.size as nat, x2, y2);
    lemma_front(x.content_hash, y.content_hash, x3, y3);
    lemma_front_hashes(x.chunks, y.chunks, r, s);
}

proof fn lemma_file_step(f: Map<Seq<char>, ManifestV>, a: Seq<Seq<char>>, n: nat, r: Seq<u8>)
    requires
        n > 0,
    ensures
        cluster::file_bytes(f, a, n) + r == cluster::file_bytes(f, a, (n - 1) as nat) + (
        manifest_bytes(a[n - 1], f[a[n - 1]]) + r),
{
    let m = f[a[n - 1]];
    let x = cluster::file_bytes(f, a, (n - 1) as nat);
    let b = encode::str_wire(a[n - 1]);
    let c = varint::leb(m.size as nat);
    let d = m.content_hash;
    let e = varint::leb(m.chunks.len());
    let g = encode::hashes_wire(m.chunks);
    assert(x + b + c + d + e + g + r =~= x + ((b + (c + (d + (e + g)))) + r));
}

proof fn lemma_file_bytes(
    f: Map<Seq<char>, ManifestV>,
    g: Map<Seq<char>, ManifestV>,
    a: Seq<Seq<char>>,
    b: Seq<Seq<char>>,
    n: nat,
    r: Seq<u8>,
    s: Seq<u8>,
)
    requires
        n <= a.len(),
        n <= b.len(),
        forall|i: int|
            0 <= i < n ==> encode::str_fits(#[trigger] a[i]) && f[a[i]].content_hash.len() == 32
                && hashes(f[a[i]].chunks) && f[a[i]].chunks.len() <= u64::MAX,
        forall|i: int|
            0 <= i < n ==> encode::str_fits(#[trigger] b[i]) && g[b[i]].content_hash.len() == 32
                && hashes(g[b[i]].chunks) && g[b[i]].chunks.len() <= u64::MAX,
        cluster::file_bytes(f, a, n) + r == cluster::file_bytes(g, b, n) + s,
    ensures
        r == s,
        forall|i: int|
            0 <= i < n ==> #[trigger] a[i] == b[i] && f[a[i]].size == g[a[i]].size
                && f[a[i]].content_hash == g[a[i]].content_hash && f[a[i]].chunks == g[a[i]].chunks,
    decreases n,
{
    if n == 0 {
        assert(cluster::file_bytes(f, a, n) + r =~= r);
        assert(cluster::file_bytes(g, b, n) + s =~= s);
    } else {
        let p = a[n - 1];
        let q = b[n - 1];
        lemma_file_step(f, a, n, r);
        lemma_file_step(g, b, n, s);
        lemma_file_bytes(
            f,
            g,
            a,
            b,
            (n - 1) as nat,
            manifest_bytes(p, f[p]) + r,
            manifest_bytes(q, g[q]) + s,
        );
        lemma_manifest_bytes(p, q, f[p], g[q], r, s);
    }
}

proof fn lemma_dir_bytes(a: Seq<Seq<char>>, b: Seq<Seq<char>>, n: nat, r: Seq<u8>, s: Seq<u8>)
    requires
        n <= a.len(),
        n <= b.len(),
        forall|i: int| 0 <= i < n ==> encode::str_fits(#[trigger] a[i]),
        forall|i: int| 0 <= i < n ==> encode::str_fits(#[trigger] b[i]),
        cluster::dir_bytes(a, n) + r == cluster::dir_bytes(b, n) + s,
    ensures
        r == s,
        forall|i: int| 0 <= i < n ==> #[trigger] a[i] == b[i],
    decreases n,
{
    if n == 0 {
        assert(cluster::dir_bytes(a, n) + r =~= r);
        assert(cluster::dir_bytes(b, n) + s =~= s);
    } else {
        let m = (n - 1) as nat;
        let x = encode::str_wire(a[n - 1]) + r;
        let y = encode::str_wire(b[n - 1]) + s;
        assert(cluster::dir_bytes(a, n) + r =~= cluster::dir_bytes(a, m) + x);
        assert(cluster::dir_bytes(b, n) + s =~= cluster::dir_bytes(b, m) + y);
        lemma_dir_bytes(a, b, m, x, y);
        lemma_front_string(a[n - 1], b[n - 1], r, s);
    }
}

/// Whether two namespaces have the same directories and the same files, with the same sizes,
/// hashes and chunks.
pub open spec fn same_namespace(a: NsV, b: NsV) -> bool {
    &&& a.dirs == b.dirs
    &&& a.files.dom() == b.files.dom()
    &&& forall|p: Seq<char>| #[trigger]
        a.files.dom().contains(p) ==> a.files[p].size == b.files[p].size
            && a.files[p].content_hash == b.files[p].content_hash && a.files[p].chunks
            == b.files[p].chunks
}

proof fn lemma_namespace_bytes(a: NsV, b: NsV)
    requires
        writable(a),
        writable(b),
        ({
            let fa = ordmap::in_order::<String>(a.files.dom());
            let da = ordmap::in_order::<String>(a.dirs);
            let fb = ordmap::in_order::<String>(b.files.dom());
            let db = ordmap::in_order::<String>(b.dirs);
            varint::leb(fa.len()) + cluster::file_bytes(a.files, fa, fa.len()) + varint::leb(
                da.len(),
            ) + cluster::dir_bytes(da, da.len()) == varint::leb(fb.len()) + cluster::file_bytes(
                b.files,
                fb,
                fb.len(),
            ) + varint::leb(db.len()) + cluster::dir_bytes(db, db.len())
        }),
    ensures
        same_namespace(a, b),
{
    let fa = ordmap::in_order::<String>(a.files.dom());
    let da = ordmap::in_order::<String>(a.dirs);
    let fb = ordmap::in_order::<String>(b.files.dom());
    let db = ordmap::in_order::<String>(b.dirs);
    ordmap::lemma_order_of::<String>(a.files.dom());
    ordmap::lemma_order_of::<String>(a.dirs);
    ordmap::lemma_order_of::<String>(b.files.dom());
    ordmap::lemma_order_of::<String>(b.dirs);
    assert forall|i: int| 0 <= i < fa.len() implies a.files.dom().contains(#[trigger] fa[i]) by {
        assert(fa.to_set().contains(fa[i]));
    }
    assert forall|i: int| 0 <= i < fb.len() implies b.files.dom().contains(#[trigger] fb[i]) by {
        assert(fb.to_set().contains(fb[i]));
    }
    assert forall|i: int| 0 <= i < da.len() implies a.dirs.contains(#[trigger] da[i]) by {
        assert(da.to_set().contains(da[i]));
    }
    assert forall|i: int| 0 <= i < db.len() implies b.dirs.contains(#[trigger] db[i]) by {
        assert(db.to_set().contains(db[i]));
    }
    let e = Seq::<u8>::empty();
    let ra = varint::leb(da.len()) + (cluster::dir_bytes(da, da.len()) + e);
    let rb = varint::leb(db.len()) + (cluster::dir_bytes(db, db.len()) + e);
    let la = cluster::file_bytes(a.files, fa, fa.len()) + ra;
    let lb = cluster::file_bytes(b.files, fb, fb.len()) + rb;
    assert(varint::leb(fa.len()) + cluster::file_bytes(a.files, fa, fa.len()) + varint::leb(
        da.len(),
    ) + cluster::dir_bytes(da, da.len()) =~= varint::leb(fa.len()) + la);
    assert(varint::leb(fb.len()) + cluster::file_bytes(b.files, fb, fb.len()) + varint::leb(
        db.len(),
    ) + cluster::dir_bytes(db, db.len()) =~= varint::leb(fb.len()) + lb);
    lemma_front_number(fa.len(), fb.len(), la, lb);
    lemma_file_bytes(a.files, b.files, fa, fb, fa.len(), ra, rb);
    lemma_front_number(
        da.len(),
        db.len(),
        cluster::dir_bytes(da, da.len()) + e,
        cluster::dir_bytes(db, db.len()) + e,
    );
    lemma_dir_bytes(da, db, da.len(), e, e);
    assert(fa =~= fb);
    assert(da =~= db);
    assert forall|p: Seq<char>| #[trigger] a.files.dom().contains(p) implies a.files[p].size
        == b.files[p].size && a.files[p].content_hash == b.files[p].content_hash
        && a.files[p].chunks == b.files[p].chunks by {
        assert(fa.to_set().contains(p));
        let i = choose|i: int| 0 <= i < fa.len() && fa[i] == p;
        assert(fa[i] == fb[i]);
    }
}

/// What the state hash covers tells states apart: two clusters of as many storage nodes with the
/// same bytes under their state hash have the same nodes up, the same chunks on every node, a
/// primary both or neither, and the same namespace there.
pub proof fn law_state_bytes_tell_states_apart(v: ClusterV, w: ClusterV)
    requires
        v.wf(),
        w.wf(),
        v.opts.node_count == w.opts.node_count,
        forall|i: int|
            0 <= i < v.storages.len() ==> chunk_set((#[trigger] v.storages[i]).store.dom()),
        forall|i: int|
            0 <= i < w.storages.len() ==> chunk_set((#[trigger] w.storages[i]).store.dom()),
        forall|p: u32| #[trigger] census::leads(v, p) ==> writable(v.metas[p as int].ns),
        forall|p: u32| #[trigger] census::leads(w, p) ==> writable(w.metas[p as int].ns),
        cluster::state_bytes(v) == cluster::state_bytes(w),
    ensures
        same_storage(v, w, v.opts.node_count as nat),
        (exists|p: u32| #[trigger] census::leads(v, p)) <==> (exists|q: u32| #[trigger]
            census::leads(w, q)),
        forall|p: u32, q: u32| #[trigger]
            census::leads(v, p) && #[trigger] census::leads(w, q) ==> same_namespace(
                v.metas[p as int].ns,
                w.metas[q as int].ns,
            ),
{
    let n = v.storages.len();
    let tv = tail_bytes(v);
    let tw = tail_bytes(w);
    assert(cluster::state_bytes(v) == cluster::storage_bytes(v, n) + tv);
    assert(cluster::state_bytes(w) == cluster::storage_bytes(w, n) + tw);
    lemma_storage_bytes(v, w, n, tv, tw);
    lemma_tail(v);
    lemma_tail(w);
    assert forall|p: u32, q: u32| #[trigger]
        census::leads(v, p) && #[trigger] census::leads(w, q) implies same_namespace(
        v.metas[p as int].ns,
        w.metas[q as int].ns,
    ) by {
        census::law_primary_leads(v, p);
        census::law_primary_leads(w, q);
        lemma_namespace_bytes(v.metas[p as int].ns, w.metas[q as int].ns);
    }
}

spec fn tail_bytes(v: ClusterV) -> Seq<u8> {
    match v.primary() {
        None => seq![],
        Some(p) => {
            let ns = v.metas[p as int].ns;
            let fs = ordmap::in_order::<String>(ns.files.dom());
            let ds = ordmap::in_order::<String>(ns.dirs);
            varint::leb(fs.len()) + cluster::file_bytes(ns.files, fs, fs.len()) + varint::leb(
                ds.len(),
            ) + cluster::dir_bytes(ds, ds.len())
        },
    }
}

proof fn lemma_tail(v: ClusterV)
    ensures
        tail_bytes(v).len() > 0 <==> exists|p: u32| #[trigger] census::leads(v, p),
{
    match v.primary() {
        None => {
            if exists|p: u32| #[trigger] census::leads(v, p) {
                let p = choose|p: u32| #[trigger] census::leads(v, p);
                census::law_primary_leads(v, p);
            }
        },
        Some(p) => {
            census::law_primary_leads(v, p);
            let ns = v.metas[p as int].ns;
            let fs = ordmap::in_order::<String>(ns.files.dom());
            assert(varint::leb(fs.len()).len() > 0);
        },
    }
}

spec fn delivery_entry(d: Delivery) -> Seq<u8> {
    varint::leb(d.time as nat) + (seq![d.tag] + (wire::node_wire(d.from) + wire::node_wire(d.to)))
}

proof fn lemma_delivery_shift(log: Seq<Delivery>, n: nat)
    requires
        0 < n <= log.len(),
    ensures
        cluster::delivery_bytes(log, n) == delivery_entry(log[0]) + cluster::delivery_bytes(
            log.skip(1),
            (n - 1) as nat,
        ),
    decreases n,
{
    let t = log.skip(1);
    let m = (n - 1) as nat;
    let d = log[n - 1];
    assert(cluster::delivery_bytes(log, n) =~= cluster::delivery_bytes(log, m) + delivery_entry(d));
    if n == 1 {
        assert(cluster::delivery_bytes(log, m) =~= seq![]);
        assert(cluster::delivery_bytes(t, 0) =~= seq![]);
        assert(cluster::delivery_bytes(log, n) =~= delivery_entry(log[0])
            + cluster::delivery_bytes(t, 0));
    } else {
        lemma_delivery_shift(log, m);
        assert(t[n - 2] == d);
        let k = (n - 2) as nat;
        assert(cluster::delivery_bytes(t, m) =~= cluster::delivery_bytes(t, k) + delivery_entry(d));
        assert(delivery_entry(log[0]) + cluster::delivery_bytes(t, k) + delivery_entry(d)
            =~= delivery_entry(log[0]) + (cluster::delivery_bytes(t, k) + delivery_entry(d)));
    }
}

proof fn lemma_delivery_entry(d: Delivery, e: Delivery, r: Seq<u8>, s: Seq<u8>)
    requires
        delivery_entry(d) + r == delivery_entry(e) + s,
    ensures
        d == e,
        r == s,
{
    let d2 = wire::node_wire(d.to) + r;
    let e2 = wire::node_wire(e.to) + s;
    let d1 = wire::node_wire(d.from) + d2;
    let e1 = wire::node_wire(e.from) + e2;
    assert(delivery_entry(d) + r =~= varint::leb(d.time as nat) + (seq![d.tag] + d1));
    assert(delivery_entry(e) + s =~= varint::leb(e.time as nat) + (seq![e.tag] + e1));
    lemma_front_number(d.time as nat, e.time as nat, seq![d.tag] + d1, seq![e.tag] + e1);
    lemma_front(seq![d.tag], seq![e.tag], d1, e1);
    assert(seq![d.tag][0] == seq![e.tag][0]);
    wire::law_node_round_trip(d.from, d2);
    wire::law_node_round_trip(e.from, e2);
    wire::law_node_round_trip(d.to, r);
    wire::law_node_round_trip(e.to, s);
}

/// What the delivery digest covers tells runs apart: two logs with the same bytes under their
/// digest hold the same deliveries in the same order.
pub proof fn law_delivery_bytes_tell_runs_apart(a: Seq<Delivery>, b: Seq<Delivery>)
    requires
        cluster::delivery_bytes(a, a.len()) == cluster::delivery_bytes(b, b.len()),
    ensures
        a == b,
    decreases a.len(),
{
    if a.len() > 0 {
        lemma_delivery_shift(a, a.len());
    }
    if b.len() > 0 {
        lemma_delivery_shift(b, b.len());
    }
    if a.len() == 0 || b.len() == 0 {
        assert(a.len() > 0 ==> varint::leb(a[0].time as nat).len() > 0);
        assert(b.len() > 0 ==> varint::leb(b[0].time as nat).len() > 0);
        assert(a =~= b);
    } else {
        let x = cluster::delivery_bytes(a.skip(1), (a.len() - 1) as nat);
        let y = cluster::delivery_bytes(b.skip(1), (b.len() - 1) as nat);
        lemma_delivery_entry(a[0], b[0], x, y);
        law_delivery_bytes_tell_runs_apart(a.skip(1), b.skip(1));
        assert(a =~= seq![a[0]] + a.skip(1));
        assert(b =~= seq![b[0]] + b.skip(1));
    }
}

} // verus!

//! What the namespace keeps: it stays a tree, renames move whole subtrees and nothing else,
//! and listings show exactly what lies in a directory.

use crate::chunk::ManifestV;
use crate::message::{DirEntryV, MetaOpV, QueryResultV, QueryV, StatInfoV};
use crate::namespace::{self, NsV};
use crate::ordmap::{self, Key};
use crate::path;
use vstd::prelude::*;

verus! {

/// The namespace is a tree: the root is a directory, nothing is both a file and a directory,
/// and everything but the root lies in a directory.
pub open spec fn tree(ns: NsV) -> bool {
    &&& ns.files.dom().finite()
    &&& ns.dirs.finite()
    &&& ns.dirs.contains(path::root())
    &&& forall|p: Seq<char>| #[trigger] ns.files.dom().contains(p) ==> !ns.dirs.contains(p)
    &&& forall|p: Seq<char>| #[trigger]
        ns.files.dom().contains(p) ==> path::parent_of(p) is Some && ns.dirs.contains(
            path::parent_of(p)->Some_0,
        )
    &&& forall|p: Seq<char>| #[trigger]
        ns.dirs.contains(p) && p != path::root() ==> path::parent_of(p) is Some
            && ns.dirs.contains(path::parent_of(p)->Some_0)
}

/// A path lies below its parent.
pub proof fn lemma_under_parent(p: Seq<char>)
    requires
        path::parent_of(p) is Some,
        path::parent_of(p)->Some_0 != path::root(),
    ensures
        path::under(p, path::parent_of(p)->Some_0),
        path::parent_of(p)->Some_0.len() > 0,
        path::parent_of(p)->Some_0.len() < p.len(),
{
    path::lemma_last_slash(p);
    let i = path::last_slash(p)->Some_0;
    let q = p.take(i);
    assert(p.take(q.len() as int + 1) =~= q.push('/'));
}

/// Lying below is transitive.
pub proof fn lemma_under_transitive(p: Seq<char>, q: Seq<char>, a: Seq<char>)
    requires
        path::under(p, q),
        path::under(q, a),
        q != path::root(),
        a != path::root(),
    ensures
        path::under(p, a),
{
    let x = q.push('/');
    assert(p.take(q.len() as int + 1) == x);
    let n = a.len() as int + 1;
    assert(p.take(n) =~= x.take(n));
    assert(x.take(n) =~= q.take(n));
}

/// The parent of a path below `a` is `a` or lies below it.
pub proof fn lemma_parent_under(p: Seq<char>, a: Seq<char>)
    requires
        path::under(p, a),
        a != path::root(),
        a.len() > 0,
    ensures
        path::parent_of(p) is Some,
        path::parent_of(p)->Some_0 == a || path::under(path::parent_of(p)->Some_0, a),
        path::parent_of(p)->Some_0 != path::root(),
        path::last_slash(p) is Some,
        path::last_slash(p)->Some_0 >= a.len(),
        path::parent_of(p)->Some_0 == p.take(path::last_slash(p)->Some_0),
        path::parent_of(p)->Some_0.len() < p.len(),
{
    path::lemma_last_slash(p);
    let n = a.len() as int;
    assert(p.take(n + 1)[n] == '/');
    assert(p[n] == '/');
    let i = path::last_slash(p)->Some_0;
    assert(i >= n);
    assert(p.take(n) =~= p.take(n + 1).take(n));
    assert(p.take(n + 1).take(n) =~= a);
    if i == n {
        assert(p.take(i) == a);
    } else {
        let q = p.take(i);
        assert(q.take(n + 1) =~= p.take(n + 1));
        if q == path::root() {
            assert(q.len() == 1);
            assert(n < i);
        }
    }
}

/// What exists lies below directories only.
pub proof fn lemma_ancestors_are_dirs(ns: NsV, p: Seq<char>, a: Seq<char>)
    requires
        tree(ns),
        ns.exists_at(p),
        path::under(p, a),
        a.len() > 0,
    ensures
        ns.is_dir(a),
    decreases p.len(),
{
    if a != path::root() {
        if p == path::root() {
            assert(p.len() == 1);
            assert(p.len() > a.len());
        }
        lemma_parent_under(p, a);
        let q = path::parent_of(p)->Some_0;
        assert(ns.dirs.contains(q));
        if q != a {
            lemma_ancestors_are_dirs(ns, q, a);
        }
    }
}

/// A path below `from`, once moved, lies below `to`.
proof fn lemma_moved_under(q: Seq<char>, from: Seq<char>, to: Seq<char>)
    requires
        path::under(q, from),
        from != path::root(),
        to != path::root(),
    ensures
        path::under(path::moved(q, from, to), to),
{
    let m = path::moved(q, from, to);
    let n = from.len() as int;
    assert(q.take(n + 1)[n] == '/');
    assert(q.skip(n)[0] == '/');
    assert(m.take(to.len() as int + 1) =~= to.push('/'));
}

/// Moving does not confuse paths.
proof fn lemma_moved_injective(p: Seq<char>, q: Seq<char>, from: Seq<char>, to: Seq<char>)
    requires
        path::under(p, from),
        path::under(q, from),
        from != path::root(),
        path::moved(p, from, to) == path::moved(q, from, to),
    ensures
        p == q,
{
    let n = from.len() as int;
    let a = path::moved(p, from, to);
    assert(p.skip(n) =~= a.skip(to.len() as int));
    assert(q.skip(n) =~= a.skip(to.len() as int));
    assert(p.take(n) =~= p.take(n + 1).take(n));
    assert(q.take(n) =~= q.take(n + 1).take(n));
    assert(p =~= p.take(n) + p.skip(n));
    assert(q =~= q.take(n) + q.skip(n));
}

/// A path that lies below two others, neither below the other, cannot be.
pub proof fn lemma_under_two(m: Seq<char>, a: Seq<char>, b: Seq<char>)
    requires
        path::under(m, a),
        path::under(m, b),
        a != path::root(),
        b != path::root(),
    ensures
        a == b || path::under(a, b) || path::under(b, a),
{
    let na = a.len() as int;
    let nb = b.len() as int;
    assert(m.take(na) =~= m.take(na + 1).take(na));
    assert(m.take(na + 1).take(na) =~= a);
    assert(m.take(nb) =~= m.take(nb + 1).take(nb));
    assert(m.take(nb + 1).take(nb) =~= b);
    if na < nb {
        assert(b.take(na + 1) =~= m.take(na + 1));
    } else if nb < na {
        assert(a.take(nb + 1) =~= m.take(nb + 1));
    }
}

/// The parent of a moved path is the moved parent.
proof fn lemma_moved_parent(q: Seq<char>, from: Seq<char>, to: Seq<char>)
    requires
        path::under(q, from),
        from != path::root(),
        from.len() > 0,
        to != path::root(),
        to.len() > 0,
    ensures
        path::parent_of(q) is Some,
        path::parent_of(path::moved(q, from, to)) == Some(
            if path::parent_of(q)->Some_0 == from {
                to
            } else {
                path::moved(path::parent_of(q)->Some_0, from, to)
            },
        ),
{
    lemma_parent_under(q, from);
    lemma_moved_under(q, from, to);
    path::lemma_last_slash(q);
    let i = path::last_slash(q)->Some_0;
    let m = path::moved(q, from, to);
    let n = from.len() as int;
    let j = i - n + to.len();
    assert(m[j] == q[i]);
    assert forall|t: int| j < t < m.len() implies #[trigger] m[t] != '/' by {
        assert(m[t] == q[t - to.len() + n]);
    }
    path::lemma_last_slash_at(m, j);
    if m == path::root() {
        assert(m.len() == 1);
        assert(m.len() > to.len());
    }
    let r = q.take(i);
    if i == n {
        assert(m.take(j) =~= to);
        assert(r =~= from) by {
            assert(q.take(n) =~= q.take(n + 1).take(n));
            assert(q.take(n + 1).take(n) =~= from);
        }
    } else {
        assert(r != from) by {
            assert(r.len() != from.len());
        }
        assert(m.take(j) =~= path::moved(r, from, to));
    }
}

/// The members of [`namespace::below`].
proof fn lemma_below(ks: Seq<Seq<char>>, from: Seq<char>)
    requires
        ks.no_duplicates(),
    ensures
        namespace::below(ks, from).no_duplicates(),
        forall|p: Seq<char>| #[trigger]
            namespace::below(ks, from).contains(p) <==> ks.contains(p) && path::under(p, from),
    decreases ks.len(),
{
    reveal(Seq::filter);
    let b = namespace::below(ks, from);
    if ks.len() > 0 {
        let front = ks.drop_last();
        lemma_below(front, from);
        let c = namespace::below(front, from);
        let last = ks.last();
        assert(!front.contains(last)) by {
            if front.contains(last) {
                let i = choose|i: int| 0 <= i < front.len() && front[i] == last;
                assert(ks[i] == ks[ks.len() - 1]);
            }
        }
        assert forall|p: Seq<char>| ks.contains(p) <==> (front.contains(p) || p == last) by {
            crate::net::lemma_push_contains(front, last, p);
            assert(front.push(last) =~= ks);
        }
        assert forall|p: Seq<char>| #[trigger] b.contains(p) <==> ks.contains(p) && path::under(
            p,
            from,
        ) by {
            if path::under(last, from) {
                crate::net::lemma_push_contains(c, last, p);
            }
            assert(c.contains(p) <==> front.contains(p) && path::under(p, from));
        }
        assert(!c.contains(last));
        if path::under(last, from) {
            assert forall|i: int, j: int|
                0 <= i < b.len() && 0 <= j < b.len() && i != j implies b[i] != b[j] by {
                if i == b.len() - 1 {
                    assert(c.contains(c[j]));
                }
                if j == b.len() - 1 {
                    assert(c.contains(c[i]));
                }
            }
        }
    } else {
        assert forall|p: Seq<char>| #[trigger] b.contains(p) <==> ks.contains(p) && path::under(
            p,
            from,
        ) by {
            assert(b =~= ks);
        }
    }
}

/// Directories moved one after the other end up where each belongs, when no target is itself
/// to be moved.
proof fn lemma_moved_dirs(
    dirs: Set<Seq<char>>,
    from: Seq<char>,
    to: Seq<char>,
    ks: Seq<Seq<char>>,
    n: nat,
)
    requires
        n <= ks.len(),
        ks.no_duplicates(),
        forall|i: int, j: int|
            0 <= i < ks.len() && 0 <= j < ks.len() ==> path::moved(#[trigger] ks[i], from, to)
                != #[trigger] ks[j],
    ensures
        forall|p: Seq<char>| #[trigger]
            namespace::moved_dirs(dirs, from, to, ks, n).contains(p) <==> (dirs.contains(p)
                && !ks.take(n as int).contains(p)) || exists|i: int|
                0 <= i < n && p == path::moved(#[trigger] ks[i], from, to),
    decreases n,
{
    let now = namespace::moved_dirs(dirs, from, to, ks, n);
    if n > 0 {
        let m = (n - 1) as nat;
        lemma_moved_dirs(dirs, from, to, ks, m);
        let before = namespace::moved_dirs(dirs, from, to, ks, m);
        let k = ks[n - 1];
        assert(ks.take(n as int) =~= ks.take(m as int).push(k));
        assert forall|p: Seq<char>| #[trigger] now.contains(p) <==> (dirs.contains(p) && !ks.take(
            n as int,
        ).contains(p)) || exists|i: int|
            0 <= i < n && p == path::moved(#[trigger] ks[i], from, to) by {
            crate::net::lemma_push_contains(ks.take(m as int), k, p);
            if now.contains(p) {
                if p == path::moved(k, from, to) {
                    assert(p == path::moved(ks[n - 1], from, to));
                } else {
                    assert(before.contains(p));
                }
            }
            if exists|i: int| 0 <= i < n && p == path::moved(#[trigger] ks[i], from, to) {
                let i = choose|i: int| 0 <= i < n && p == path::moved(#[trigger] ks[i], from, to);
                assert(p != k);
                if i < m {
                    assert(before.contains(p));
                }
            }
        }
    } else {
        assert forall|p: Seq<char>| #[trigger] now.contains(p) <==> (dirs.contains(p) && !ks.take(
            n as int,
        ).contains(p)) || exists|i: int|
            0 <= i < n && p == path::moved(#[trigger] ks[i], from, to) by {
            assert(!ks.take(0).contains(p));
        }
    }
}

/// Files moved one after the other end up where each belongs, with their manifests, when no
/// target is itself to be moved or already taken.
proof fn lemma_moved_files(
    files: Map<Seq<char>, ManifestV>,
    from: Seq<char>,
    to: Seq<char>,
    ks: Seq<Seq<char>>,
    n: nat,
)
    requires
        n <= ks.len(),
        ks.no_duplicates(),
        forall|i: int| 0 <= i < ks.len() ==> files.dom().contains(#[trigger] ks[i]),
        forall|i: int| 0 <= i < ks.len() ==> path::under(#[trigger] ks[i], from),
        forall|i: int|
            0 <= i < ks.len() ==> !files.dom().contains(path::moved(#[trigger] ks[i], from, to)),
        from != path::root(),
    ensures
        forall|p: Seq<char>| #[trigger]
            namespace::moved_files(files, from, to, ks, n).dom().contains(p) <==> (
            files.dom().contains(p) && !ks.take(n as int).contains(p)) || exists|i: int|
                0 <= i < n && p == path::moved(#[trigger] ks[i], from, to),
        forall|p: Seq<char>|
            files.dom().contains(p) && !ks.take(n as int).contains(p)
                ==> #[trigger] namespace::moved_files(files, from, to, ks, n)[p] == files[p],
        forall|i: int|
            0 <= i < n ==> namespace::moved_files(files, from, to, ks, n)[path::moved(
                #[trigger] ks[i],
                from,
                to,
            )] == files[ks[i]],
    decreases n,
{
    let now = namespace::moved_files(files, from, to, ks, n);
    if n > 0 {
        let m = (n - 1) as nat;
        lemma_moved_files(files, from, to, ks, m);
        let before = namespace::moved_files(files, from, to, ks, m);
        let k = ks[n - 1];
        let t = path::moved(k, from, to);
        assert(ks.take(n as int) =~= ks.take(m as int).push(k));
        assert(!ks.take(m as int).contains(k)) by {
            if ks.take(m as int).contains(k) {
                let i = choose|i: int| 0 <= i < m && ks.take(m as int)[i] == k;
                assert(ks[i] == ks[n - 1]);
            }
        }
        assert(before[k] == files[k]);
        assert forall|p: Seq<char>| #[trigger] now.dom().contains(p) <==> (files.dom().contains(p)
            && !ks.take(n as int).contains(p)) || exists|i: int|
            0 <= i < n && p == path::moved(#[trigger] ks[i], from, to) by {
            crate::net::lemma_push_contains(ks.take(m as int), k, p);
            if now.dom().contains(p) {
                if p == t {
                    assert(p == path::moved(ks[n - 1], from, to));
                } else {
                    assert(before.dom().contains(p));
                }
            }
            if exists|i: int| 0 <= i < n && p == path::moved(#[trigger] ks[i], from, to) {
                let i = choose|i: int| 0 <= i < n && p == path::moved(#[trigger] ks[i], from, to);
                assert(p != k);
                if i < m {
                    assert(before.dom().contains(p));
                }
            }
        }
        assert forall|p: Seq<char>|
            files.dom().contains(p) && !ks.take(n as int).contains(p) implies #[trigger] now[p]
            == files[p] by {
            crate::net::lemma_push_contains(ks.take(m as int), k, p);
            assert(p != t);
        }
        assert forall|i: int| 0 <= i < n implies now[path::moved(#[trigger] ks[i], from, to)]
            == files[ks[i]] by {
            let x = path::moved(ks[i], from, to);
            if i < m {
                if x == t {
                    lemma_moved_injective(ks[i], k, from, to);
                }
                assert(x != k);
            }
        }
    } else {
        assert forall|p: Seq<char>| #[trigger] now.dom().contains(p) <==> (files.dom().contains(p)
            && !ks.take(n as int).contains(p)) || exists|i: int|
            0 <= i < n && p == path::moved(#[trigger] ks[i], from, to) by {
            assert(!ks.take(0).contains(p));
        }
    }
}

/// An allowed rename of a directory moves it and everything below it, manifests included, and
/// leaves everything else where it was.
pub proof fn law_rename_moves_subtree(ns: NsV, from: Seq<char>, to: Seq<char>)
    requires
        tree(ns),
        ns.validated(MetaOpV::Rename { from, to }) is Ok,
        ns.dirs.contains(from),
    ensures
        forall|p: Seq<char>| #[trigger]
            ns.renamed(from, to).dirs.contains(p) <==> {
                ||| p == to
                ||| ns.dirs.contains(p) && p != from && !path::under(p, from)
                ||| exists|q: Seq<char>| #[trigger]
                    ns.dirs.contains(q) && path::under(q, from) && p == path::moved(q, from, to)
            },
        forall|p: Seq<char>| #[trigger]
            ns.renamed(from, to).files.dom().contains(p) <==> {
                ||| ns.files.dom().contains(p) && !path::under(p, from)
                ||| exists|q: Seq<char>| #[trigger]
                    ns.files.dom().contains(q) && path::under(q, from) && p == path::moved(
                        q,
                        from,
                        to,
                    )
            },
        forall|p: Seq<char>|
            ns.files.dom().contains(p) && !path::under(p, from) ==> #[trigger] ns.renamed(
                from,
                to,
            ).files[p] == ns.files[p],
        forall|q: Seq<char>| #[trigger]
            ns.files.dom().contains(q) && path::under(q, from) ==> ns.renamed(
                from,
                to,
            ).files[path::moved(q, from, to)] == ns.files[q],
{
    let after = ns.renamed(from, to);
    let dirs = ns.dirs.remove(from).insert(to);
    let dk = ordmap::in_order::<String>(dirs);
    let fk = ordmap::in_order::<String>(ns.files.dom());
    ordmap::lemma_order_of::<String>(dirs);
    ordmap::lemma_order_of::<String>(ns.files.dom());
    let ds = namespace::below(dk, from);
    let fs = namespace::below(fk, from);
    lemma_below(dk, from);
    lemma_below(fk, from);
    path::lemma_last_slash(to);
    assert(to.len() > 0);
    assert(!ns.files.dom().contains(from));
    // No target is taken, and none is below the source.
    assert forall|q: Seq<char>| path::under(q, from) implies !ns.exists_at(
        #[trigger] path::moved(q, from, to),
    ) && !path::under(path::moved(q, from, to), from) && path::moved(q, from, to) != to by {
        let t = path::moved(q, from, to);
        lemma_moved_under(q, from, to);
        if ns.exists_at(t) {
            lemma_ancestors_are_dirs(ns, t, to);
        }
        if path::under(t, from) {
            lemma_under_two(t, from, to);
            if path::under(from, to) {
                lemma_ancestors_are_dirs(ns, from, to);
            }
        }
    }
    assert forall|p: Seq<char>| #[trigger] ds.contains(p) <==> ns.dirs.contains(p) && path::under(
        p,
        from,
    ) by {
        assert(dk.contains(p) <==> dk.to_set().contains(p));
        if path::under(from, from) {
            assert(from.len() > from.len());
        }
    }
    assert forall|p: Seq<char>| #[trigger] fs.contains(p) <==> ns.files.dom().contains(p)
        && path::under(p, from) by {
        assert(fk.contains(p) <==> fk.to_set().contains(p));
    }
    assert forall|i: int, j: int| 0 <= i < ds.len() && 0 <= j < ds.len() implies path::moved(
        #[trigger] ds[i],
        from,
        to,
    ) != #[trigger] ds[j] by {
        assert(ds.contains(ds[i]) && ds.contains(ds[j]));
    }
    lemma_moved_dirs(dirs, from, to, ds, ds.len());
    assert forall|i: int| 0 <= i < fs.len() implies ns.files.dom().contains(#[trigger] fs[i]) by {
        assert(fs.contains(fs[i]));
    }
    assert forall|i: int| 0 <= i < fs.len() implies path::under(#[trigger] fs[i], from) by {
        assert(fs.contains(fs[i]));
    }
    lemma_moved_files(ns.files, from, to, fs, fs.len());
    assert(ds.take(ds.len() as int) =~= ds);
    assert(fs.take(fs.len() as int) =~= fs);
    assert forall|p: Seq<char>| #[trigger] after.dirs.contains(p) <==> {
        ||| p == to
        ||| ns.dirs.contains(p) && p != from && !path::under(p, from)
        ||| exists|q: Seq<char>| #[trigger]
            ns.dirs.contains(q) && path::under(q, from) && p == path::moved(q, from, to)
    } by {
        if exists|i: int| 0 <= i < ds.len() && p == path::moved(#[trigger] ds[i], from, to) {
            let i = choose|i: int| 0 <= i < ds.len() && p == path::moved(#[trigger] ds[i], from, to);
            assert(ds.contains(ds[i]));
            assert(ns.dirs.contains(ds[i]));
        }
        if exists|q: Seq<char>| #[trigger]
            ns.dirs.contains(q) && path::under(q, from) && p == path::moved(q, from, to) {
            let q = choose|q: Seq<char>| #[trigger]
                ns.dirs.contains(q) && path::under(q, from) && p == path::moved(q, from, to);
            assert(ds.contains(q));
            let i = choose|i: int| 0 <= i < ds.len() && ds[i] == q;
            assert(p == path::moved(ds[i], from, to));
        }
        assert(!ds.contains(to));
    }
    assert forall|p: Seq<char>| #[trigger] after.files.dom().contains(p) <==> {
        ||| ns.files.dom().contains(p) && !path::under(p, from)
        ||| exists|q: Seq<char>| #[trigger]
            ns.files.dom().contains(q) && path::under(q, from) && p == path::moved(q, from, to)
    } by {
        if exists|i: int| 0 <= i < fs.len() && p == path::moved(#[trigger] fs[i], from, to) {
            let i = choose|i: int| 0 <= i < fs.len() && p == path::moved(#[trigger] fs[i], from, to);
            assert(ns.files.dom().contains(fs[i]));
        }
        if exists|q: Seq<char>| #[trigger]
            ns.files.dom().contains(q) && path::under(q, from) && p == path::moved(q, from, to) {
            let q = choose|q: Seq<char>| #[trigger]
                ns.files.dom().contains(q) && path::under(q, from) && p == path::moved(q, from, to);
            assert(fs.contains(q));
            let i = choose|i: int| 0 <= i < fs.len() && fs[i] == q;
            assert(p == path::moved(fs[i], from, to));
        }
    }
    assert forall|q: Seq<char>| #[trigger]
        ns.files.dom().contains(q) && path::under(q, from) implies after.files[path::moved(
        q,
        from,
        to,
    )] == ns.files[q] by {
        assert(fs.contains(q));
        let i = choose|i: int| 0 <= i < fs.len() && fs[i] == q;
        assert(after.files[path::moved(fs[i], from, to)] == ns.files[fs[i]]);
    }
}

proof fn lemma_tree_after_dir_rename(ns: NsV, from: Seq<char>, to: Seq<char>)
    requires
        tree(ns),
        ns.validated(MetaOpV::Rename { from, to }) is Ok,
        ns.dirs.contains(from),
    ensures
        tree(ns.renamed(from, to)),
{
    let after = ns.renamed(from, to);
    law_rename_moves_subtree(ns, from, to);
    path::lemma_last_slash(to);
    assert(to.len() > 0);
    path::lemma_last_slash(from);
    assert(from.len() > 0) by {
        assert(path::parent_of(from) is Some);
    }
    lemma_renamed_finite(ns, from, to);
    // Whatever lies outside the source and had its parent there still has it.
    assert forall|p: Seq<char>|
        path::parent_of(p) is Some && ns.dirs.contains(path::parent_of(p)->Some_0) && !path::under(
            p,
            from,
        ) implies after.dirs.contains(#[trigger] path::parent_of(p)->Some_0) by {
        let q = path::parent_of(p)->Some_0;
        if q != path::root() {
            lemma_under_parent(p);
            if path::under(q, from) {
                lemma_under_transitive(p, q, from);
            }
        } else if path::under(q, from) {
            assert(q.len() > from.len());
        }
    }
    assert forall|q: Seq<char>|
        path::under(q, from) && ns.dirs.contains(path::parent_of(q)->Some_0) implies path::parent_of(
        #[trigger] path::moved(q, from, to),
    ) is Some && after.dirs.contains(path::parent_of(path::moved(q, from, to))->Some_0) by {
        lemma_moved_parent(q, from, to);
        lemma_parent_under(q, from);
        let r = path::parent_of(q)->Some_0;
        if r != from {
            assert(ns.dirs.contains(r) && path::under(r, from));
        }
    }
    assert forall|p: Seq<char>| #[trigger] after.files.dom().contains(p) implies !after.dirs.contains(
        p,
    ) && path::parent_of(p) is Some && after.dirs.contains(path::parent_of(p)->Some_0) by {
        if ns.files.dom().contains(p) && !path::under(p, from) {
            if after.dirs.contains(p) {
                let q = choose|q: Seq<char>| #[trigger]
                    ns.dirs.contains(q) && path::under(q, from) && p == path::moved(q, from, to);
                lemma_moved_under(q, from, to);
                lemma_ancestors_are_dirs(ns, p, to);
            }
        } else {
            let q = choose|q: Seq<char>| #[trigger]
                ns.files.dom().contains(q) && path::under(q, from) && p == path::moved(q, from, to);
            lemma_moved_under(q, from, to);
            if after.dirs.contains(p) {
                if p == to {
                    assert(p.len() > to.len());
                } else if ns.dirs.contains(p) {
                    lemma_ancestors_are_dirs(ns, p, to);
                } else {
                    let d = choose|d: Seq<char>| #[trigger]
                        ns.dirs.contains(d) && path::under(d, from) && p == path::moved(
                            d,
                            from,
                            to,
                        );
                    lemma_moved_injective(q, d, from, to);
                }
            }
        }
    }
    assert forall|p: Seq<char>| #[trigger]
        after.dirs.contains(p) && p != path::root() implies path::parent_of(p) is Some
        && after.dirs.contains(path::parent_of(p)->Some_0) by {
        if p == to {
        } else if ns.dirs.contains(p) && p != from && !path::under(p, from) {
        } else {
            let q = choose|q: Seq<char>| #[trigger]
                ns.dirs.contains(q) && path::under(q, from) && p == path::moved(q, from, to);
            assert(q != path::root()) by {
                if q == path::root() {
                    assert(q.len() > from.len());
                }
            }
        }
    }
    if path::under(path::root(), from) {
        assert(path::root().len() > from.len());
    }
}

/// A rename keeps the namespace finite.
pub proof fn lemma_renamed_finite(ns: NsV, from: Seq<char>, to: Seq<char>)
    requires
        ns.files.dom().finite(),
        ns.dirs.finite(),
    ensures
        ns.renamed(from, to).files.dom().finite(),
        ns.renamed(from, to).dirs.finite(),
{
    if !ns.files.dom().contains(from) && ns.dirs.contains(from) {
        let dirs = ns.dirs.remove(from).insert(to);
        let ds = namespace::below(ordmap::in_order::<String>(dirs), from);
        let fs = namespace::below(ordmap::in_order::<String>(ns.files.dom()), from);
        lemma_moved_dirs_finite(dirs, from, to, ds, ds.len());
        lemma_moved_files_finite(ns.files, from, to, fs, fs.len());
    }
}

proof fn lemma_moved_dirs_finite(
    dirs: Set<Seq<char>>,
    from: Seq<char>,
    to: Seq<char>,
    ks: Seq<Seq<char>>,
    n: nat,
)
    requires
        dirs.finite(),
    ensures
        namespace::moved_dirs(dirs, from, to, ks, n).finite(),
    decreases n,
{
    if n > 0 {
        lemma_moved_dirs_finite(dirs, from, to, ks, (n - 1) as nat);
    }
}

proof fn lemma_moved_files_finite(
    files: Map<Seq<char>, ManifestV>,
    from: Seq<char>,
    to: Seq<char>,
    ks: Seq<Seq<char>>,
    n: nat,
)
    requires
        files.dom().finite(),
    ensures
        namespace::moved_files(files, from, to, ks, n).dom().finite(),
    decreases n,
{
    if n > 0 {
        lemma_moved_files_finite(files, from, to, ks, (n - 1) as nat);
    }
}

/// The fresh namespace is a tree.
pub proof fn law_fresh_is_tree()
    ensures
        tree(NsV::fresh()),
{
}

/// Every allowed operation keeps the namespace a tree.
pub proof fn law_tree_is_kept(ns: NsV, op: MetaOpV)
    requires
        tree(ns),
        ns.validated(op) is Ok,
    ensures
        tree(ns.applied(op)),
{
    let after = ns.applied(op);
    match op {
        MetaOpV::Put { path: p, manifest } => {},
        MetaOpV::Mkdir { path: p } => {},
        MetaOpV::Delete { path: p } => {
            assert forall|q: Seq<char>|
                path::parent_of(q) == Some(p) implies !ns.files.dom().contains(q) && !(
            ns.dirs.contains(q) && q != path::root()) by {
                if ns.files.dom().contains(p) && (ns.files.dom().contains(q) || ns.dirs.contains(
                    q,
                )) {
                    assert(q == path::root() || ns.dirs.contains(p));
                }
            }
        },
        MetaOpV::Rename { from, to } => {
            if ns.files.dom().contains(from) {
                assert forall|q: Seq<char>| ns.exists_at(q) && q != path::root() implies path::parent_of(
                    q,
                ) != Some(from) by {
                    if path::parent_of(q) == Some(from) {
                        assert(ns.dirs.contains(from));
                    }
                }
                assert(path::parent_of(to) != Some(from));
            } else {
                lemma_tree_after_dir_rename(ns, from, to);
            }
        },
    }
}

/// A file that was put is found with its manifest, and its stat shows its size and hash.
pub proof fn law_put_is_found(ns: NsV, p: Seq<char>, manifest: ManifestV)
    requires
        ns.validated(MetaOpV::Put { path: p, manifest }) is Ok,
    ensures
        ns.applied(MetaOpV::Put { path: p, manifest }).answered(QueryV::Get { path: p })
            == QueryResultV::Manifest(Some(manifest)),
        ns.applied(MetaOpV::Put { path: p, manifest }).answered(QueryV::Stat { path: p })
            == QueryResultV::Stat(
            Some(
                StatInfoV {
                    is_dir: false,
                    size: manifest.size,
                    content_hash: manifest.content_hash,
                },
            ),
        ),
{
}

/// An operation on one path leaves the answers about unrelated files alone.
pub proof fn law_other_files_keep(ns: NsV, op: MetaOpV, p: Seq<char>)
    requires
        tree(ns),
        ns.validated(op) is Ok,
        match op {
            MetaOpV::Put { path, .. } => p != path,
            MetaOpV::Mkdir { path } => p != path,
            MetaOpV::Delete { path } => p != path,
            MetaOpV::Rename { from, to } => p != from && !path::under(p, from) && p != to
                && !path::under(p, to),
        },
    ensures
        ns.applied(op).answered(QueryV::Get { path: p }) == ns.answered(QueryV::Get { path: p }),
        ns.applied(op).answered(QueryV::Stat { path: p }) == ns.answered(QueryV::Stat { path: p }),
{
    if let MetaOpV::Rename { from, to } = op {
        if !ns.files.dom().contains(from) {
            law_rename_moves_subtree(ns, from, to);
            let after = ns.renamed(from, to);
            assert forall|q: Seq<char>| path::under(q, from) implies #[trigger] path::moved(
                q,
                from,
                to,
            ) != p by {
                lemma_moved_under(q, from, to);
            }
            assert(after.dirs.contains(p) == ns.dirs.contains(p));
            assert(after.files.dom().contains(p) == ns.files.dom().contains(p));
        }
    }
}

/// A made directory is a directory, and nothing lies in it.
pub proof fn law_mkdir_makes_empty_directory(ns: NsV, p: Seq<char>)
    requires
        tree(ns),
        ns.validated(MetaOpV::Mkdir { path: p }) is Ok,
    ensures
        ns.applied(MetaOpV::Mkdir { path: p }).is_dir(p),
        !ns.applied(MetaOpV::Mkdir { path: p }).has_child(p),
{
    let after = ns.applied(MetaOpV::Mkdir { path: p });
    if path::parent_of(p) == Some(p) {
        if p != path::root() {
            lemma_under_parent(p);
        }
    }
    assert(!after.has_child(p)) by {
        assert forall|q: Seq<char>| after.files.dom().contains(q) implies path::parent_of(q)
            != Some(p) by {
            assert(ns.files.dom().contains(q));
        }
        assert forall|q: Seq<char>|
            after.dirs.contains(q) && q != path::root() implies path::parent_of(q) != Some(p) by {
            if q != p {
                assert(ns.dirs.contains(q));
            }
        }
    }
}

/// A deleted path is gone.
pub proof fn law_deleted_is_gone(ns: NsV, p: Seq<char>)
    requires
        ns.validated(MetaOpV::Delete { path: p }) is Ok,
    ensures
        !ns.applied(MetaOpV::Delete { path: p }).exists_at(p),
{
}

/// An allowed rename of a file moves its manifest to the new path.
pub proof fn law_rename_moves_file(ns: NsV, from: Seq<char>, to: Seq<char>)
    requires
        tree(ns),
        ns.validated(MetaOpV::Rename { from, to }) is Ok,
        ns.files.dom().contains(from),
    ensures
        ns.renamed(from, to).answered(QueryV::Get { path: to }) == QueryResultV::Manifest(
            Some(ns.files[from]),
        ),
        !ns.renamed(from, to).exists_at(from),
{
}

/// The root can be neither deleted nor renamed nor replaced, and nothing moves below itself.
pub proof fn law_root_is_protected(ns: NsV, p: Seq<char>, manifest: ManifestV)
    requires
        tree(ns),
    ensures
        ns.validated(MetaOpV::Delete { path: path::root() }) is Err,
        ns.validated(MetaOpV::Rename { from: path::root(), to: p }) is Err,
        ns.validated(MetaOpV::Rename { from: p, to: path::root() }) is Err,
        ns.validated(MetaOpV::Put { path: path::root(), manifest }) is Err,
        ns.validated(MetaOpV::Mkdir { path: path::root() }) is Err,
        ns.validated(MetaOpV::Rename { from: p, to: p }) is Err,
{
}

/// Members of a listing after one entry was slotted in.
proof fn lemma_slotted(es: Seq<DirEntryV>, e: DirEntryV)
    ensures
        namespace::slotted(es, e).len() == es.len() + 1,
        forall|x: DirEntryV| #[trigger]
            namespace::slotted(es, e).contains(x) <==> es.contains(x) || x == e,
    decreases es.len(),
{
    let r = namespace::slotted(es, e);
    if es.len() == 0 || !String::before(e.name, es.last().name) {
        assert forall|x: DirEntryV| #[trigger] r.contains(x) <==> es.contains(x) || x == e by {
            crate::net::lemma_push_contains(es, e, x);
        }
    } else {
        let front = es.drop_last();
        lemma_slotted(front, e);
        assert forall|x: DirEntryV| #[trigger] r.contains(x) <==> es.contains(x) || x == e by {
            crate::net::lemma_push_contains(namespace::slotted(front, e), es.last(), x);
            crate::net::lemma_push_contains(front, es.last(), x);
            assert(front.push(es.last()) =~= es);
        }
    }
}

/// No entry comes after one with a later name.
pub open spec fn names_ascend(es: Seq<DirEntryV>) -> bool {
    forall|i: int, j: int|
        0 <= i < j < es.len() ==> !String::before(
            (#[trigger] es[j]).name,
            (#[trigger] es[i]).name,
        )
}

proof fn lemma_slotted_ascends(es: Seq<DirEntryV>, e: DirEntryV)
    requires
        names_ascend(es),
    ensures
        names_ascend(namespace::slotted(es, e)),
        forall|x: Seq<char>|
            !String::before(x, e.name) && (es.len() > 0 ==> !String::before(x, es.last().name))
                ==> !String::before(x, #[trigger] namespace::slotted(es, e).last().name),
        namespace::slotted(es, e).len() > 0,
    decreases es.len(),
{
    let r = namespace::slotted(es, e);
    if es.len() == 0 || !String::before(e.name, es.last().name) {
        assert forall|i: int, j: int| 0 <= i < j < r.len() implies !String::before(
            (#[trigger] r[j]).name,
            (#[trigger] r[i]).name,
        ) by {
            if j == es.len() {
                let l = es.len() - 1;
                if i < l {
                    assert(!String::before(es[l].name, es[i].name));
                    String::lemma_order(es[l].name, e.name, es[i].name);
                    String::lemma_order(e.name, es[l].name, es[i].name);
                    String::lemma_order(e.name, es[i].name, es[l].name);
                    String::lemma_order(es[i].name, es[l].name, e.name);
                    String::lemma_order(es[l].name, es[i].name, e.name);
                }
            }
        }
    } else {
        let front = es.drop_last();
        assert(names_ascend(front)) by {
            assert forall|i: int, j: int| 0 <= i < j < front.len() implies !String::before(
                (#[trigger] front[j]).name,
                (#[trigger] front[i]).name,
            ) by {
                assert(front[i] == es[i] && front[j] == es[j]);
            }
        }
        lemma_slotted_ascends(front, e);
        lemma_slotted(front, e);
        let f = namespace::slotted(front, e);
        assert forall|i: int, j: int| 0 <= i < j < r.len() implies !String::before(
            (#[trigger] r[j]).name,
            (#[trigger] r[i]).name,
        ) by {
            if j == f.len() {
                assert(r[i] == f[i]);
                assert(f.contains(f[i]));
                if f[i] == e {
                    String::lemma_order(e.name, es.last().name, e.name);
                } else {
                    assert(front.contains(f[i]));
                    let k = choose|k: int| 0 <= k < front.len() && front[k] == f[i];
                    assert(!String::before(es[es.len() - 1].name, es[k].name));
                }
            } else {
                assert(r[i] == f[i] && r[j] == f[j]);
            }
        }
    }
}

/// Name order keeps the entries and puts their names in ascending order.
pub proof fn law_name_order(es: Seq<DirEntryV>)
    ensures
        names_ascend(namespace::by_name(es)),
        namespace::by_name(es).len() == es.len(),
        forall|x: DirEntryV| #[trigger] namespace::by_name(es).contains(x) <==> es.contains(x),
    decreases es.len(),
{
    if es.len() > 0 {
        let front = es.drop_last();
        law_name_order(front);
        lemma_slotted(namespace::by_name(front), es.last());
        lemma_slotted_ascends(namespace::by_name(front), es.last());
        assert forall|x: DirEntryV| #[trigger]
            namespace::by_name(es).contains(x) <==> es.contains(x) by {
            crate::net::lemma_push_contains(front, es.last(), x);
            assert(front.push(es.last()) =~= es);
        }
    }
}

proof fn lemma_lying_in(ks: Seq<Seq<char>>, dir: Seq<char>)
    ensures
        forall|p: Seq<char>| #[trigger]
            namespace::lying_in(ks, dir).contains(p) <==> ks.contains(p) && path::parent_of(p)
                == Some(dir),
{
    crate::metadata::lemma_filter_members(
        ks,
        |p: Seq<char>| path::parent_of(p) == Some(dir),
    );
}

/// A listing holds, in name order, the entry of every file and directory that lies in the
/// directory, and nothing else.
pub proof fn law_listing_shows_children(ns: NsV, dir: Seq<char>)
    requires
        tree(ns),
        ns.is_dir(dir),
    ensures
        ns.answered(QueryV::List { path: dir }) == QueryResultV::Listing(
            namespace::by_name(ns.children(dir)),
        ),
        names_ascend(namespace::by_name(ns.children(dir))),
        forall|e: DirEntryV| #[trigger]
            namespace::by_name(ns.children(dir)).contains(e) <==> {
                ||| exists|p: Seq<char>| #[trigger]
                    ns.files.dom().contains(p) && path::parent_of(p) == Some(dir) && e
                        == namespace::file_entry(ns.files, p)
                ||| exists|p: Seq<char>| #[trigger]
                    ns.dirs.contains(p) && path::parent_of(p) == Some(dir) && e
                        == namespace::dir_entry(p)
            },
{
    let fk = ordmap::in_order::<String>(ns.files.dom());
    let dk = ordmap::in_order::<String>(ns.dirs);
    ordmap::lemma_order_of::<String>(ns.files.dom());
    ordmap::lemma_order_of::<String>(ns.dirs);
    lemma_lying_in(fk, dir);
    lemma_lying_in(dk, dir);
    let fl = namespace::lying_in(fk, dir);
    let dl = namespace::lying_in(dk, dir);
    let fe = fl.map_values(|p: Seq<char>| namespace::file_entry(ns.files, p));
    let de = dl.map_values(|p: Seq<char>| namespace::dir_entry(p));
    let all = ns.children(dir);
    law_name_order(all);
    assert forall|e: DirEntryV| #[trigger] namespace::by_name(all).contains(e) <==> {
        ||| exists|p: Seq<char>| #[trigger]
            ns.files.dom().contains(p) && path::parent_of(p) == Some(dir) && e
                == namespace::file_entry(ns.files, p)
        ||| exists|p: Seq<char>| #[trigger]
            ns.dirs.contains(p) && path::parent_of(p) == Some(dir) && e == namespace::dir_entry(p)
    } by {
        if all.contains(e) {
            let i = choose|i: int| 0 <= i < all.len() && all[i] == e;
            if i < fe.len() {
                assert(fl.contains(fl[i]));
                assert(fk.to_set().contains(fl[i]));
                assert(ns.files.dom().contains(fl[i]));
            } else {
                let j = i - fe.len();
                assert(dl.contains(dl[j]));
                assert(dk.to_set().contains(dl[j]));
                assert(ns.dirs.contains(dl[j]));
            }
        }
        if exists|p: Seq<char>| #[trigger]
            ns.files.dom().contains(p) && path::parent_of(p) == Some(dir) && e
                == namespace::file_entry(ns.files, p) {
            let p = choose|p: Seq<char>| #[trigger]
                ns.files.dom().contains(p) && path::parent_of(p) == Some(dir) && e
                    == namespace::file_entry(ns.files, p);
            assert(fk.to_set().contains(p));
            assert(fl.contains(p));
            let i = choose|i: int| 0 <= i < fl.len() && fl[i] == p;
            assert(all[i] == e);
        }
        if exists|p: Seq<char>| #[trigger]
            ns.dirs.contains(p) && path::parent_of(p) == Some(dir) && e == namespace::dir_entry(
                p,
            ) {
            let p = choose|p: Seq<char>| #[trigger]
                ns.dirs.contains(p) && path::parent_of(p) == Some(dir) && e
                    == namespace::dir_entry(p);
            assert(dk.to_set().contains(p));
            assert(dl.contains(p));
            let i = choose|i: int| 0 <= i < dl.len() && dl[i] == p;
            assert(all[fe.len() + i] == e);
        }
    }
}

/// No two entries have the same name.
pub open spec fn names_differ(es: Seq<DirEntryV>) -> bool {
    forall|i: int, j: int|
        0 <= i < j < es.len() ==> (#[trigger] es[i]).name != (#[trigger] es[j]).name
}

proof fn lemma_slotted_differs(es: Seq<DirEntryV>, e: DirEntryV)
    requires
        names_differ(es),
        forall|i: int| 0 <= i < es.len() ==> (#[trigger] es[i]).name != e.name,
    ensures
        names_differ(namespace::slotted(es, e)),
    decreases es.len(),
{
    if es.len() > 0 && String::before(e.name, es.last().name) {
        let front = es.drop_last();
        assert forall|i: int| 0 <= i < front.len() implies (#[trigger] front[i]).name
            != e.name by {
            assert(front[i] == es[i]);
        }
        assert forall|i: int, j: int| 0 <= i < j < front.len() implies (
        #[trigger] front[i]).name != (#[trigger] front[j]).name by {
            assert(front[i] == es[i] && front[j] == es[j]);
        }
        lemma_slotted_differs(front, e);
        lemma_slotted(front, e);
        let f = namespace::slotted(front, e);
        let r = namespace::slotted(es, e);
        assert forall|i: int, j: int| 0 <= i < j < r.len() implies (#[trigger] r[i]).name != (
        #[trigger] r[j]).name by {
            assert(r[i] == f[i]);
            if j == f.len() {
                assert(r[j] == es[es.len() - 1]);
                assert(f.contains(f[i]));
                if f[i] != e {
                    let k = choose|k: int| 0 <= k < front.len() && front[k] == f[i];
                    assert(es[k] == f[i]);
                }
            } else {
                assert(r[j] == f[j]);
            }
        }
    }
}

proof fn lemma_by_name_differs(es: Seq<DirEntryV>)
    requires
        names_differ(es),
    ensures
        names_differ(namespace::by_name(es)),
    decreases es.len(),
{
    if es.len() > 0 {
        let front = es.drop_last();
        assert forall|i: int, j: int| 0 <= i < j < front.len() implies (
        #[trigger] front[i]).name != (#[trigger] front[j]).name by {
            assert(front[i] == es[i] && front[j] == es[j]);
        }
        lemma_by_name_differs(front);
        law_name_order(front);
        let f = namespace::by_name(front);
        assert forall|i: int| 0 <= i < f.len() implies (#[trigger] f[i]).name != es.last().name by {
            assert(f.contains(f[i]));
            let k = choose|k: int| 0 <= k < front.len() && front[k] == f[i];
            assert(es[k] == f[i] && es[es.len() - 1] == es.last());
        }
        lemma_slotted_differs(f, es.last());
    }
}

/// A normal path is determined by its directory and its name.
proof fn lemma_path_parts(p: Seq<char>, q: Seq<char>)
    requires
        path::normal(p),
        path::normal(q),
        path::parent_of(p) is Some,
        path::parent_of(p) == path::parent_of(q),
        path::name_of(p) == path::name_of(q),
    ensures
        p == q,
{
    path::lemma_last_slash(p);
    path::lemma_last_slash(q);
    let i = path::last_slash(p)->Some_0;
    let j = path::last_slash(q)->Some_0;
    assert(path::root().len() == 1);
    assert(0 <= i < p.len() && 0 <= j < q.len());
    assert(p.take(i).len() == i && q.take(j).len() == j);
    if i == 0 && j > 0 {
        assert(q.take(j) == path::root());
        assert(j == 1);
        assert(path::component(q, 0, 1));
        assert(path::good(q.subrange(1, 1)));
    }
    if j == 0 && i > 0 {
        assert(p.take(i) == path::root());
        assert(i == 1);
        assert(path::component(p, 0, 1));
        assert(path::good(p.subrange(1, 1)));
    }
    assert(i == j);
    assert(p =~= p.take(i).push('/') + p.skip(i + 1));
    assert(q =~= q.take(j).push('/') + q.skip(j + 1));
    if i == 0 {
        assert(p.take(0) =~= q.take(0));
    }
}

proof fn lemma_lying_in_distinct(ks: Seq<Seq<char>>, dir: Seq<char>)
    requires
        ks.no_duplicates(),
    ensures
        namespace::lying_in(ks, dir).no_duplicates(),
{
    crate::durability::lemma_filter_distinct(
        ks,
        |p: Seq<char>| path::parent_of(p) == Some(dir),
    );
}

/// Whether every path of a namespace is normal.
pub open spec fn all_normal(ns: NsV) -> bool {
    &&& forall|p: Seq<char>| #[trigger] ns.files.dom().contains(p) ==> path::normal(p)
    &&& forall|p: Seq<char>| #[trigger] ns.dirs.contains(p) ==> path::normal(p)
}

/// Whether the paths that an operation adds are normal.
pub open spec fn adds_normal(op: MetaOpV) -> bool {
    match op {
        MetaOpV::Put { path: p, manifest } => path::normal(p),
        MetaOpV::Mkdir { path: p } => path::normal(p),
        MetaOpV::Delete { path: p } => true,
        MetaOpV::Rename { from, to } => path::normal(to),
    }
}

/// A normal path moved below another stays normal.
proof fn lemma_moved_normal(p: Seq<char>, from: Seq<char>, to: Seq<char>)
    requires
        path::normal(p),
        path::normal(from),
        path::normal(to),
        to != path::root(),
        from != path::root(),
        path::under(p, from),
    ensures
        path::normal(path::moved(p, from, to)),
{
    let q = path::moved(p, from, to);
    let n = to.len() as int;
    let d = from.len() - to.len();
    assert(p[from.len() as int] == '/') by {
        assert(p.take(from.len() as int + 1)[from.len() as int] == '/');
    }
    assert(q[n] == '/');
    assert(to.len() == 1 ==> to =~= path::root());
    assert(p.len() > 1);
    assert forall|i: int, j: int| #[trigger] path::component(q, i, j) implies path::good(
        q.subrange(i + 1, j),
    ) by {
        if i < n {
            assert(j <= n) by {
                if j > n {
                    assert(q[n] != '/');
                }
            }
            assert(path::component(to, i, j)) by {
                assert(to[i] == q[i]);
                if j < n {
                    assert(to[j] == q[j]);
                }
                assert forall|t: int| i < t < j implies #[trigger] to[t] != '/' by {
                    assert(q[t] == to[t]);
                }
            }
            assert(to.subrange(i + 1, j) =~= q.subrange(i + 1, j));
        } else {
            assert(path::component(p, i + d, j + d)) by {
                assert(q[i] == p[i + d]);
                if j < q.len() {
                    assert(q[j] == p[j + d]);
                }
                assert forall|t: int| i + d < t < j + d implies #[trigger] p[t] != '/' by {
                    assert(q[t - d] == p[t]);
                }
            }
            assert(p.subrange(i + d + 1, j + d) =~= q.subrange(i + 1, j));
        }
    }
}

/// An allowed operation that adds normal paths keeps all paths normal.
pub proof fn law_paths_stay_normal(ns: NsV, op: MetaOpV)
    requires
        tree(ns),
        all_normal(ns),
        adds_normal(op),
        ns.validated(op) is Ok,
    ensures
        all_normal(ns.applied(op)),
{
    if let MetaOpV::Rename { from, to } = op {
        if !ns.files.dom().contains(from) && ns.dirs.contains(from) {
            law_rename_moves_subtree(ns, from, to);
            let after = ns.renamed(from, to);
            assert forall|p: Seq<char>| #[trigger] after.dirs.contains(p) implies path::normal(
                p,
            ) by {
                if p != to && !(ns.dirs.contains(p) && p != from && !path::under(p, from)) {
                    let q = choose|q: Seq<char>| #[trigger]
                        ns.dirs.contains(q) && path::under(q, from) && p == path::moved(
                            q,
                            from,
                            to,
                        );
                    lemma_moved_normal(q, from, to);
                }
            }
            assert forall|p: Seq<char>| #[trigger] after.files.dom().contains(
                p,
            ) implies path::normal(p) by {
                if !(ns.files.dom().contains(p) && !path::under(p, from)) {
                    let q = choose|q: Seq<char>| #[trigger]
                        ns.files.dom().contains(q) && path::under(q, from) && p == path::moved(
                            q,
                            from,
                            to,
                        );
                    lemma_moved_normal(q, from, to);
                }
            }
        }
    }
}

/// In a namespace of normal paths a listing names each child once.
pub proof fn law_listing_names_differ(ns: NsV, dir: Seq<char>)
    requires
        tree(ns),
        all_normal(ns),
    ensures
        names_differ(namespace::by_name(ns.children(dir))),
        namespace::by_name(ns.children(dir)).len() == ns.children(dir).len(),
{
    let fk = ordmap::in_order::<String>(ns.files.dom());
    let dk = ordmap::in_order::<String>(ns.dirs);
    ordmap::lemma_order_of::<String>(ns.files.dom());
    ordmap::lemma_order_of::<String>(ns.dirs);
    lemma_lying_in(fk, dir);
    lemma_lying_in(dk, dir);
    lemma_lying_in_distinct(fk, dir);
    lemma_lying_in_distinct(dk, dir);
    let fl = namespace::lying_in(fk, dir);
    let dl = namespace::lying_in(dk, dir);
    let all = ns.children(dir);
    let at = |i: int|
        if i < fl.len() {
            fl[i]
        } else {
            dl[i - fl.len()]
        };
    assert forall|i: int| 0 <= i < all.len() implies (#[trigger] all[i]).name == path::name_of(at(i))
        && path::parent_of(at(i)) == Some(dir) && path::normal(at(i)) && (i < fl.len()
        ==> ns.files.dom().contains(at(i))) && (i >= fl.len() ==> ns.dirs.contains(at(i))) by {
        if i < fl.len() {
            assert(fl.contains(fl[i]));
            assert(fk.to_set().contains(fl[i]));
        } else {
            assert(dl.contains(dl[i - fl.len()]));
            assert(dk.to_set().contains(dl[i - fl.len()]));
        }
    }
    assert forall|i: int, j: int| 0 <= i < j < all.len() implies (#[trigger] all[i]).name != (
    #[trigger] all[j]).name by {
        if all[i].name == all[j].name {
            lemma_path_parts(at(i), at(j));
        }
    }
    lemma_by_name_differs(all);
    law_name_order(all);
}

} // verus!

//! How paths are put together and taken apart: a path is the root or a name in a directory.

use crate::path;
use vstd::prelude::*;

verus! {

/// Whether a string can be one component of a path: no slash stands in it.
pub open spec fn slashless(name: Seq<char>) -> bool {
    forall|t: int| 0 <= t < name.len() ==> #[trigger] name[t] != '/'
}

/// The path of a name in a directory.
pub open spec fn join(dir: Seq<char>, name: Seq<char>) -> Seq<char> {
    if dir == seq!['/'] {
        dir + name
    } else {
        dir + seq!['/'] + name
    }
}

/// A name in a directory lies in that directory, under that name.
pub proof fn law_join_is_taken_apart(dir: Seq<char>, name: Seq<char>)
    requires
        dir.len() > 0,
        name.len() > 0,
        slashless(name),
    ensures
        path::parent_of(join(dir, name)) == Some(dir),
        path::name_of(join(dir, name)) == name,
{
    let p = join(dir, name);
    let i = if dir == seq!['/'] {
        0
    } else {
        dir.len() as int
    };
    assert(p[i] == '/');
    assert forall|t: int| i < t < p.len() implies #[trigger] p[t] != '/' by {
        assert(p[t] == name[t - i - 1]);
    }
    path::lemma_last_slash_at(p, i);
    assert(p.skip(i + 1) =~= name);
    assert(p.len() == i + 1 + name.len());
    assert(p != path::root());
    if i > 0 {
        assert(p.take(i) =~= dir);
    } else {
        assert(dir =~= path::root());
    }
}

/// Only the root and what has no slash at all lie in no directory.
pub proof fn law_who_has_no_parent(p: Seq<char>)
    ensures
        path::parent_of(p) is None <==> p == seq!['/'] || slashless(p),
{
    path::lemma_last_slash(p);
    if slashless(p) {
        match path::last_slash(p) {
            Some(i) => {
                assert(p[i] != '/');
            },
            None => {},
        }
    }
}

/// A normal path other than the root is its name in its parent, and the name is a good one.
pub proof fn law_normal_path_is_joined(p: Seq<char>)
    requires
        path::normal(p),
        p != seq!['/'],
    ensures
        path::parent_of(p) is Some,
        join(path::parent_of(p)->Some_0, path::name_of(p)) == p,
        slashless(path::name_of(p)),
        path::good(path::name_of(p)),
        path::parent_of(p)->Some_0.len() < p.len(),
        path::normal(path::parent_of(p)->Some_0),
{
    path::lemma_last_slash(p);
    if path::last_slash(p) is None {
        assert(p[0] != '/');
    }
    let i = path::last_slash(p)->Some_0;
    let n = path::name_of(p);
    if p.len() == 1 {
        assert(p =~= seq!['/']);
    }
    assert forall|t: int| 0 <= t < n.len() implies #[trigger] n[t] != '/' by {
        assert(n[t] == p[t + i + 1]);
    }
    assert(path::component(p, i, p.len() as int));
    assert(n =~= p.subrange(i + 1, p.len() as int));
    if i == 0 {
        assert(seq!['/'] + n =~= p);
    } else {
        let d = p.take(i);
        if d == seq!['/'] {
            assert(d.len() == 1);
            assert(path::component(p, 0, 1));
            assert(p.subrange(1, 1).len() == 0);
        }
        assert(d + seq!['/'] + n =~= p);
        assert(path::normal(d)) by {
            assert(d[0] == p[0]);
            assert forall|a: int, b: int| #[trigger] path::component(d, a, b) implies path::good(
                d.subrange(a + 1, b),
            ) by {
                assert(path::component(p, a, b)) by {
                    assert forall|t: int| a < t < b implies #[trigger] p[t] != '/' by {
                        assert(d[t] != '/');
                    }
                    assert(p[a] == d[a]);
                    if b < d.len() {
                        assert(p[b] == d[b]);
                    } else {
                        assert(p[b] == '/');
                    }
                }
                assert(d.subrange(a + 1, b) =~= p.subrange(a + 1, b));
            }
        }
    }
}

/// The root is a normal path, and a slashless name in a normal directory makes a normal path
/// exactly when it is not empty, one dot or two dots.
pub proof fn law_normal_paths(dir: Seq<char>, name: Seq<char>)
    requires
        path::normal(dir),
        slashless(name),
    ensures
        path::normal(seq!['/']),
        dir != seq!['/'] || name.len() > 0 ==> (path::normal(join(dir, name)) <==> name.len() > 0
            && name != seq!['.'] && name != seq!['.', '.']),
{
    let p = join(dir, name);
    let k = if dir == seq!['/'] {
        0
    } else {
        dir.len() as int
    };
    assert(p[k] == '/');
    assert forall|t: int| k < t < p.len() implies #[trigger] p[t] != '/' by {
        assert(p[t] == name[t - k - 1]);
    }
    assert(p.subrange(k + 1, p.len() as int) =~= name);
    assert(path::component(p, k, p.len() as int));
    if path::good(name) {
        assert forall|i: int, j: int| #[trigger] path::component(p, i, j) implies path::good(
            p.subrange(i + 1, j),
        ) by {
            if i >= k {
                if i > k {
                    assert(p[i] != '/');
                }
                if j < p.len() {
                    assert(p[j] != '/');
                }
            } else {
                if j > k {
                    assert(p[k] != '/');
                }
                assert forall|t: int| i < t < j implies #[trigger] dir[t] != '/' by {
                    assert(p[t] == dir[t]);
                }
                assert(dir[i] == p[i]);
                if j < dir.len() {
                    assert(dir[j] == p[j]);
                }
                assert(path::component(dir, i, j));
                assert(p.subrange(i + 1, j) =~= dir.subrange(i + 1, j));
                if dir.len() == 1 {
                    assert(dir =~= seq!['/']);
                }
            }
        }
        assert(p[0] == '/');
    }
}

/// A normal path begins with a slash, and only the root ends with one.
pub proof fn law_normal_paths_are_absolute(p: Seq<char>)
    requires
        path::normal(p),
    ensures
        p.len() > 0,
        p[0] == '/',
        p.last() == '/' ==> p == seq!['/'],
{
    if p.last() == '/' && p.len() > 1 {
        law_normal_path_is_joined(p);
        let n = path::name_of(p);
        let d = path::parent_of(p)->Some_0;
        assert(p.last() == n.last());
        assert(n[n.len() - 1] != '/');
    }
    if p.len() == 1 {
        assert(p =~= seq!['/']);
    }
}

/// What lies below a directory other than the root: what goes on with a slash after it. Below the
/// root lies all else.
pub proof fn law_what_lies_below(a: Seq<char>, p: Seq<char>, rest: Seq<char>)
    ensures
        a != seq!['/'] ==> path::under(a + seq!['/'] + rest, a),
        a != seq!['/'] && path::under(p, a) ==> exists|r: Seq<char>|
            p == #[trigger] (a + seq!['/'] + r),
        path::under(p, seq!['/']) <==> p != seq!['/'],
        !path::under(p, p),
{
    let q = a + seq!['/'] + rest;
    assert(q.take(a.len() as int + 1) =~= a.push('/'));
    assert(path::root() == seq!['/']);
    if a != seq!['/'] && path::under(p, a) {
        let r = p.skip(a.len() as int + 1);
        let t = p.take(a.len() as int + 1);
        assert(p =~= t + r);
        assert(t =~= a + seq!['/']);
        assert(p == a + seq!['/'] + r);
    }
}

/// A name in a directory lies below it, and below whatever the directory lies below.
pub proof fn law_below_by_steps(a: Seq<char>, dir: Seq<char>, name: Seq<char>)
    requires
        dir.len() > 0,
        name.len() > 0,
        slashless(name),
        a.len() > 0,
    ensures
        path::under(join(dir, name), a) <==> a == dir || path::under(dir, a),
{
    let p = join(dir, name);
    assert(path::root() == seq!['/']);
    assert(p != path::root()) by {
        assert(p.len() > 1);
    }
    if a != path::root() {
        let n = a.len() as int;
        let k = if dir == seq!['/'] {
            0
        } else {
            dir.len() as int
        };
        assert forall|t: int| k < t < p.len() implies #[trigger] p[t] != '/' by {
            assert(p[t] == name[t - k - 1]);
        }
        if a == dir {
            assert(p.take(n + 1) =~= a.push('/'));
        }
        if path::under(dir, a) {
            assert(p.take(n + 1) =~= dir.take(n + 1));
        }
        if path::under(p, a) {
            assert(p.take(n + 1)[n] == '/');
            assert(p[n] == '/');
            if n > k {
                assert(p[n] != '/');
            }
            assert(k > 0);
            assert(p.take(n + 1).take(n) =~= p.take(n));
            assert(a.push('/').take(n) =~= a);
            if n == k {
                assert(p.take(n) =~= dir);
            } else {
                assert(dir.take(n + 1) =~= p.take(n + 1));
            }
        }
    }
}

/// Moving changes the front of a path and keeps what follows.
pub proof fn law_moving_changes_the_front(from: Seq<char>, to: Seq<char>, rest: Seq<char>)
    ensures
        path::moved(from + rest, from, to) == to + rest,
{
    assert((from + rest).skip(from.len() as int) =~= rest);
}

} // verus!

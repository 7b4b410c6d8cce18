//! Absolute paths.

use crate::text::chars_of;
use vstd::prelude::*;
use vstd::string::StrSliceExecFns;

verus! {

/// The root path.
pub open spec fn root() -> Seq<char> {
    seq!['/']
}

/// Whether the characters after position `i` and before position `j` are a component: a run
/// between a slash and the next slash or the end.
pub open spec fn component(path: Seq<char>, i: int, j: int) -> bool {
    &&& 0 <= i < j <= path.len()
    &&& path[i] == '/'
    &&& j == path.len() || path[j] == '/'
    &&& forall|t: int| i < t < j ==> #[trigger] path[t] != '/'
}

/// Whether a component may stand in a path.
pub open spec fn good(name: Seq<char>) -> bool {
    name.len() > 0 && name != seq!['.'] && name != seq!['.', '.']
}

/// Whether a path is absolute and made of good components only. The root has none.
pub open spec fn normal(path: Seq<char>) -> bool {
    &&& path.len() > 0
    &&& path[0] == '/'
    &&& path.len() == 1 || forall|i: int, j: int| #[trigger]
        component(path, i, j) ==> good(path.subrange(i + 1, j))
}

/// The position of the last slash.
pub open spec fn last_slash(path: Seq<char>) -> Option<int>
    decreases path.len(),
{
    if path.len() == 0 {
        None
    } else if path.last() == '/' {
        Some(path.len() - 1)
    } else {
        last_slash(path.drop_last())
    }
}

/// The directory that a path lies in. The root lies in none.
pub open spec fn parent_of(path: Seq<char>) -> Option<Seq<char>> {
    if path == root() {
        None
    } else {
        match last_slash(path) {
            None => None,
            Some(i) => if i == 0 {
                Some(root())
            } else {
                Some(path.take(i))
            },
        }
    }
}

/// The last component of a path.
pub open spec fn name_of(path: Seq<char>) -> Seq<char> {
    match last_slash(path) {
        None => path,
        Some(i) => path.skip(i + 1),
    }
}

/// Whether a path lies below another.
pub open spec fn under(path: Seq<char>, ancestor: Seq<char>) -> bool {
    if ancestor == root() {
        path != root()
    } else {
        path.len() > ancestor.len() && path.take(ancestor.len() as int + 1) == ancestor.push('/')
    }
}

/// A path below `from`, moved to the same place below `to`.
pub open spec fn moved(path: Seq<char>, from: Seq<char>, to: Seq<char>) -> Seq<char> {
    if from.len() <= path.len() {
        to + path.skip(from.len() as int)
    } else {
        to
    }
}

/// The last slash is a slash with none after it.
pub proof fn lemma_last_slash(path: Seq<char>)
    ensures
        match last_slash(path) {
            None => forall|t: int| 0 <= t < path.len() ==> #[trigger] path[t] != '/',
            Some(i) => 0 <= i < path.len() && path[i] == '/' && forall|t: int|
                i < t < path.len() ==> #[trigger] path[t] != '/',
        },
    decreases path.len(),
{
    if path.len() > 0 && path.last() != '/' {
        let p = path.drop_last();
        lemma_last_slash(p);
        assert forall|t: int|
            0 <= t < path.len() && (last_slash(p) matches Some(i) ==> i < t) implies #[trigger] path[t]
            != '/' by {
            if t < p.len() {
                assert(p[t] == path[t]);
            }
        }
    }
}

/// A slash with none after it is the last.
pub proof fn lemma_last_slash_at(path: Seq<char>, i: int)
    requires
        0 <= i < path.len(),
        path[i] == '/',
        forall|t: int| i < t < path.len() ==> #[trigger] path[t] != '/',
    ensures
        last_slash(path) == Some(i),
{
    lemma_last_slash(path);
    match last_slash(path) {
        None => {
            assert(path[i] != '/');
        },
        Some(k) => {
            if k < i {
                assert(path[i] != '/');
            }
            if i < k {
                assert(path[k] != '/');
            }
        },
    }
}

fn find_last_slash(chars: &Vec<char>) -> (r: Option<usize>)
    ensures
        last_slash(chars@) == (match r {
            Some(i) => Some(i as int),
            None => None::<int>,
        }),
        r matches Some(i) ==> i < chars@.len(),
{
    let mut n: usize = chars.len();
    assert(chars@.take(n as int) =~= chars@);
    while n > 0
        invariant
            n <= chars@.len(),
            last_slash(chars@) == last_slash(chars@.take(n as int)),
        decreases n,
    {
        assert(chars@.take(n as int).last() == chars@[n - 1]);
        assert(chars@.take(n as int).drop_last() =~= chars@.take(n - 1));
        if chars[n - 1] == '/' {
            return Some(n - 1);
        }
        n -= 1;
    }
    None
}

/// Whether `path` is the root.
pub fn is_root(path: &str) -> (r: bool)
    ensures
        r == (path@ == root()),
{
    let chars = chars_of(path);
    let r = chars.len() == 1 && chars[0] == '/';
    assert(r ==> path@ =~= root());
    r
}

fn good_component(chars: &Vec<char>, i: usize, j: usize) -> (r: bool)
    requires
        i <= j <= chars@.len(),
    ensures
        r == good(chars@.subrange(i as int, j as int)),
{
    let ghost name = chars@.subrange(i as int, j as int);
    let r = if j - i == 0 {
        false
    } else if j - i == 1 {
        chars[i] != '.'
    } else if j - i == 2 {
        !(chars[i] == '.' && chars[i + 1] == '.')
    } else {
        true
    };
    proof {
        if name.len() == 1 {
            assert(name[0] == chars@[i as int]);
            assert(name == seq!['.'] <==> name[0] == '.') by {
                if name[0] == '.' {
                    assert(name =~= seq!['.']);
                }
            }
        }
        if name.len() == 2 {
            assert(name[0] == chars@[i as int] && name[1] == chars@[i + 1]);
            assert(name == seq!['.', '.'] <==> name[0] == '.' && name[1] == '.') by {
                if name[0] == '.' && name[1] == '.' {
                    assert(name =~= seq!['.', '.']);
                }
            }
        }
    }
    r
}

/// Normalize an absolute path. Returns `None` for anything malformed.
pub fn normalize(path: &str) -> (r: Option<String>)
    ensures
        r is Some <==> normal(path@),
        r matches Some(p) ==> p@ == path@,
{
    let chars = chars_of(path);
    let n = chars.len();
    if n == 0 || chars[0] != '/' {
        return None;
    }
    if n == 1 {
        return Some(path.to_owned());
    }
    let mut start: usize = 0;
    let mut j: usize = 1;
    while j < n
        invariant
            n == chars@.len(),
            n >= 2,
            chars@ == path@,
            start < j <= n,
            chars@[0] == '/',
            chars@[start as int] == '/',
            forall|t: int| start < t < j ==> #[trigger] chars@[t] != '/',
            forall|a: int, b: int| #[trigger]
                component(path@, a, b) && b < j ==> good(path@.subrange(a + 1, b)),
        decreases n - j,
    {
        if chars[j] == '/' {
            let ok = good_component(&chars, start + 1, j);
            if !ok {
                assert(component(path@, start as int, j as int));
                return None;
            }
            proof {
                assert forall|a: int, b: int| #[trigger]
                    component(path@, a, b) && b < j + 1 implies good(path@.subrange(a + 1, b)) by {
                    if b == j {
                        lemma_component_start(path@, a, start as int, j as int);
                    }
                }
            }
            start = j;
        }
        j += 1;
    }
    let ok = good_component(&chars, start + 1, n);
    proof {
        assert(component(path@, start as int, n as int));
        if ok {
            assert forall|a: int, b: int| #[trigger] component(path@, a, b) implies good(
                path@.subrange(a + 1, b),
            ) by {
                if b == n {
                    lemma_component_start(path@, a, start as int, n as int);
                }
            }
        }
    }
    if ok {
        Some(path.to_owned())
    } else {
        None
    }
}

proof fn lemma_component_start(path: Seq<char>, a: int, start: int, j: int)
    requires
        component(path, a, j),
        0 <= start < j,
        path[start] == '/',
        forall|t: int| start < t < j ==> #[trigger] path[t] != '/',
    ensures
        a == start,
{
    if a < start {
        assert(path[start] != '/');
    }
    if a > start {
        assert(path[a] != '/');
    }
}

/// The directory that `path` lies in.
pub fn parent(path: &str) -> (r: Option<String>)
    ensures
        parent_of(path@) == (match r {
            Some(p) => Some(p@),
            None => None::<Seq<char>>,
        }),
{
    if is_root(path) {
        return None;
    }
    let chars = chars_of(path);
    match find_last_slash(&chars) {
        None => None,
        Some(i) => {
            if i == 0 {
                proof {
                    reveal_strlit("/");
                    assert("/"@ =~= root());
                }
                Some("/".to_owned())
            } else {
                assert(path@.subrange(0, i as int) =~= path@.take(i as int));
                Some(path.substring_char(0, i).to_owned())
            }
        },
    }
}

/// The last component of `path`.
pub fn basename(path: &str) -> (r: &str)
    ensures
        r@ == name_of(path@),
{
    let chars = chars_of(path);
    let n = chars.len();
    match find_last_slash(&chars) {
        None => path,
        Some(i) => {
            assert(path@.subrange(i + 1, path@.len() as int) =~= path@.skip(i + 1));
            path.substring_char(i + 1, n)
        },
    }
}

/// Whether `path` lies below `ancestor`.
pub fn is_under(path: &str, ancestor: &str) -> (r: bool)
    ensures
        r == under(path@, ancestor@),
{
    if is_root(ancestor) {
        return !is_root(path);
    }
    let p = chars_of(path);
    let a = chars_of(ancestor);
    if p.len() <= a.len() {
        return false;
    }
    let mut i: usize = 0;
    while i < a.len()
        invariant
            i <= a@.len() < p@.len(),
            p@ == path@,
            a@ == ancestor@,
            ancestor@ != root(),
            forall|t: int| 0 <= t < i ==> #[trigger] p@[t] == a@[t],
        decreases a@.len() - i,
    {
        if p[i] != a[i] {
            proof {
                let lhs = path@.take(ancestor@.len() as int + 1);
                let rhs = ancestor@.push('/');
                assert(lhs[i as int] == p@[i as int] && rhs[i as int] == a@[i as int]);
            }
            return false;
        }
        i += 1;
    }
    let r = p[a.len()] == '/';
    proof {
        let lhs = path@.take(ancestor@.len() as int + 1);
        let rhs = ancestor@.push('/');
        if r {
            assert(lhs =~= rhs);
        } else {
            assert(lhs[a@.len() as int] != rhs[a@.len() as int]);
        }
    }
    r
}

/// `path`, which lies below `from`, moved to the same place below `to`.
pub fn relocate(path: &str, from: &str, to: &str) -> (r: String)
    ensures
        r@ == moved(path@, from@, to@),
{
    let n = path.unicode_len();
    let k = from.unicode_len();
    let mut out = to.to_owned();
    if k <= n {
        out.append(path.substring_char(k, n));
        assert(path@.subrange(k as int, n as int) =~= path@.skip(k as int));
    }
    out
}

} // verus!

//! Maps and sets kept in key order, so that walking one visits the keys in the same order
//! every time.

use crate::message::NodeId;
use vstd::prelude::*;

verus! {

/// A key: a value with a strict total order on what it stands for.
pub trait Key: View + Sized {
    /// Whether `a` comes before `b`.
    spec fn before(a: Self::V, b: Self::V) -> bool;

    /// The order is strict and total.
    proof fn lemma_order(a: Self::V, b: Self::V, c: Self::V)
        ensures
            !Self::before(a, a),
            Self::before(a, b) && Self::before(b, c) ==> Self::before(a, c),
            a == b || Self::before(a, b) || Self::before(b, a),
    ;

    /// Whether this key comes before `other`.
    fn precedes(&self, other: &Self) -> (r: bool)
        ensures
            r == Self::before(self@, other@),
    ;

    /// Whether this key is `other`.
    fn matches_key(&self, other: &Self) -> (r: bool)
        ensures
            r == (self@ == other@),
    ;

    /// A copy of this key.
    fn copy_key(&self) -> (r: Self)
        ensures
            r@ == self@,
    ;
}

/// Whether every entry comes before the next.
pub open spec fn ascending<K: Key>(s: Seq<K::V>) -> bool {
    forall|i: int, j: int| 0 <= i < j < s.len() ==> K::before(#[trigger] s[i], #[trigger] s[j])
}

/// The members of a set in ascending order.
pub open spec fn in_order<K: Key>(s: Set<K::V>) -> Seq<K::V> {
    choose|r: Seq<K::V>| ascending::<K>(r) && r.to_set() == s
}

proof fn lemma_ascending_unique<K: Key>(a: Seq<K::V>, b: Seq<K::V>)
    requires
        ascending::<K>(a),
        ascending::<K>(b),
        a.to_set() == b.to_set(),
    ensures
        a == b,
    decreases a.len(),
{
    if a.len() == 0 {
        if b.len() > 0 {
            assert(b.to_set().contains(b[0]));
            assert(a.to_set().contains(b[0]));
        }
        assert(a =~= b);
    } else {
        assert(a.to_set().contains(a.last()));
        assert(b.to_set().contains(a.last()));
        let j = choose|j: int| 0 <= j < b.len() && b[j] == a.last();
        assert(b.to_set().contains(b.last()));
        assert(a.to_set().contains(b.last()));
        let i = choose|i: int| 0 <= i < a.len() && a[i] == b.last();
        K::lemma_order(a.last(), b.last(), a.last());
        if j < b.len() - 1 {
            assert(K::before(b[j], b[b.len() - 1]));
            if i < a.len() - 1 {
                assert(K::before(a[i], a[a.len() - 1]));
            }
        }
        assert(a.last() == b.last());
        let a2 = a.drop_last();
        let b2 = b.drop_last();
        assert forall|x: K::V| a2.to_set().contains(x) implies b2.to_set().contains(x) by {
            let i = choose|i: int| 0 <= i < a2.len() && a2[i] == x;
            assert(K::before(a[i], a[a.len() - 1]));
            K::lemma_order(x, a.last(), x);
            assert(a.to_set().contains(a[i]));
            assert(b.to_set().contains(x));
            let j = choose|j: int| 0 <= j < b.len() && b[j] == x;
            assert(b2[j] == x);
        }
        assert forall|x: K::V| b2.to_set().contains(x) implies a2.to_set().contains(x) by {
            let i = choose|i: int| 0 <= i < b2.len() && b2[i] == x;
            assert(K::before(b[i], b[b.len() - 1]));
            K::lemma_order(x, b.last(), x);
            assert(b.to_set().contains(b[i]));
            assert(a.to_set().contains(x));
            let j = choose|j: int| 0 <= j < a.len() && a[j] == x;
            assert(a2[j] == x);
        }
        assert(a2.to_set() =~= b2.to_set());
        lemma_ascending_unique::<K>(a2, b2);
        assert(a =~= a2.push(a.last()));
        assert(b =~= b2.push(b.last()));
    }
}

/// An ascending sequence is the order of its members.
pub proof fn lemma_in_order<K: Key>(s: Seq<K::V>)
    requires
        ascending::<K>(s),
    ensures
        in_order::<K>(s.to_set()) == s,
{
    let r = in_order::<K>(s.to_set());
    assert(ascending::<K>(s) && s.to_set() == s.to_set());
    lemma_ascending_unique::<K>(r, s);
}

/// An ascending sequence does not repeat.
pub proof fn lemma_ascending_distinct<K: Key>(s: Seq<K::V>)
    requires
        ascending::<K>(s),
    ensures
        s.no_duplicates(),
        s.to_set().finite(),
        s.to_set().len() == s.len(),
{
    assert forall|i: int, j: int| 0 <= i < s.len() && 0 <= j < s.len() && i != j implies s[i]
        != s[j] by {
        if i < j {
            K::lemma_order(s[i], s[j], s[i]);
            assert(K::before(s[i], s[j]));
        } else {
            K::lemma_order(s[j], s[i], s[j]);
            assert(K::before(s[j], s[i]));
        }
    }
    s.unique_seq_to_set();
    vstd::seq_lib::seq_to_set_is_finite(s);
}

proof fn lemma_insert_ascending<K: Key>(s: Seq<K::V>, at: int, k: K::V)
    requires
        ascending::<K>(s),
        0 <= at <= s.len(),
        forall|i: int| 0 <= i < at ==> K::before(#[trigger] s[i], k),
        forall|i: int| at <= i < s.len() ==> K::before(k, #[trigger] s[i]),
    ensures
        ascending::<K>(s.insert(at, k)),
        s.insert(at, k).to_set() == s.to_set().insert(k),
{
    let t = s.insert(at, k);
    assert forall|i: int, j: int| 0 <= i < j < t.len() implies K::before(
        #[trigger] t[i],
        #[trigger] t[j],
    ) by {
        let i2 = if i < at {
            i
        } else {
            i - 1
        };
        let j2 = if j < at {
            j
        } else {
            j - 1
        };
        if i != at {
            assert(t[i] == s[i2]);
        }
        if j != at {
            assert(t[j] == s[j2]);
        }
    }
    assert forall|x: K::V| t.to_set().contains(x) <==> s.to_set().insert(k).contains(x) by {
        if t.to_set().contains(x) {
            let i = choose|i: int| 0 <= i < t.len() && t[i] == x;
            if i < at {
                assert(s[i] == x);
            } else if i > at {
                assert(s[i - 1] == x);
            }
        }
        if s.to_set().contains(x) {
            let i = choose|i: int| 0 <= i < s.len() && s[i] == x;
            if i < at {
                assert(t[i] == x);
            } else {
                assert(t[i + 1] == x);
            }
        }
        assert(t[at] == k);
    }
    assert(t.to_set() =~= s.to_set().insert(k));
}

proof fn lemma_remove_ascending<K: Key>(s: Seq<K::V>, at: int)
    requires
        ascending::<K>(s),
        0 <= at < s.len(),
    ensures
        ascending::<K>(s.remove(at)),
        s.remove(at).to_set() == s.to_set().remove(s[at]),
{
    let t = s.remove(at);
    lemma_ascending_distinct::<K>(s);
    assert forall|i: int, j: int| 0 <= i < j < t.len() implies K::before(
        #[trigger] t[i],
        #[trigger] t[j],
    ) by {
        let i2 = if i < at {
            i
        } else {
            i + 1
        };
        let j2 = if j < at {
            j
        } else {
            j + 1
        };
        assert(t[i] == s[i2] && t[j] == s[j2]);
    }
    assert forall|x: K::V| t.to_set().contains(x) <==> s.to_set().remove(s[at]).contains(x) by {
        if t.to_set().contains(x) {
            let i = choose|i: int| 0 <= i < t.len() && t[i] == x;
            let i2 = if i < at {
                i
            } else {
                i + 1
            };
            assert(s[i2] == x);
        }
        if s.to_set().contains(x) && x != s[at] {
            let i = choose|i: int| 0 <= i < s.len() && s[i] == x;
            let i2 = if i < at {
                i
            } else {
                i - 1
            };
            assert(t[i2] == x);
        }
    }
    assert(t.to_set() =~= s.to_set().remove(s[at]));
}

proof fn lemma_slot<K: Key>(s: Seq<K::V>, k: K::V) -> (at: int)
    requires
        ascending::<K>(s),
        !s.contains(k),
    ensures
        0 <= at <= s.len(),
        forall|i: int| 0 <= i < at ==> K::before(#[trigger] s[i], k),
        forall|i: int| at <= i < s.len() ==> K::before(k, #[trigger] s[i]),
    decreases s.len(),
{
    if s.len() == 0 {
        0
    } else {
        let last = s.len() - 1;
        K::lemma_order(s[last], k, s[last]);
        assert(s.contains(s[last]));
        if K::before(s[last], k) {
            assert forall|i: int| 0 <= i < s.len() implies K::before(#[trigger] s[i], k) by {
                if i < last {
                    assert(K::before(s[i], s[last]));
                    K::lemma_order(s[i], s[last], k);
                }
            }
            s.len() as int
        } else {
            let front = s.drop_last();
            if front.contains(k) {
                let i = choose|i: int| 0 <= i < front.len() && front[i] == k;
                assert(s[i] == k);
            }
            let at = lemma_slot::<K>(front, k);
            assert forall|i: int| 0 <= i < at implies K::before(#[trigger] s[i], k) by {
                assert(front[i] == s[i]);
            }
            assert forall|i: int| at <= i < s.len() implies K::before(k, #[trigger] s[i]) by {
                if i < last {
                    assert(front[i] == s[i]);
                }
            }
            at
        }
    }
}

proof fn lemma_order_exists<K: Key>(s: Set<K::V>) -> (r: Seq<K::V>)
    requires
        s.finite(),
    ensures
        ascending::<K>(r),
        r.to_set() == s,
    decreases s.len(),
{
    if s.is_empty() {
        let r = Seq::<K::V>::empty();
        assert(r.to_set() =~= s);
        r
    } else {
        let k = s.choose();
        let front = lemma_order_exists::<K>(s.remove(k));
        if front.contains(k) {
            assert(front.to_set().contains(k));
        }
        let at = lemma_slot::<K>(front, k);
        lemma_insert_ascending::<K>(front, at, k);
        assert(front.insert(at, k).to_set() =~= s);
        front.insert(at, k)
    }
}

/// A finite set has an order: its members, each once, ascending.
pub proof fn lemma_order_of<K: Key>(s: Set<K::V>)
    requires
        s.finite(),
    ensures
        ascending::<K>(in_order::<K>(s)),
        in_order::<K>(s).to_set() == s,
        in_order::<K>(s).len() == s.len(),
        in_order::<K>(s).no_duplicates(),
{
    let r = lemma_order_exists::<K>(s);
    lemma_in_order::<K>(r);
    lemma_ascending_distinct::<K>(r);
}

/// The values of a run of keys.
pub open spec fn key_views<K: Key>(keys: Seq<K>) -> Seq<K::V> {
    Seq::new(keys.len(), |i: int| keys[i]@)
}

/// The first position in ascending `keys` whose key does not come before `k`.
fn lower_bound<K: Key>(keys: &Vec<K>, k: &K) -> (r: usize)
    requires
        ascending::<K>(key_views(keys@)),
    ensures
        r <= keys@.len(),
        forall|i: int| 0 <= i < r ==> K::before((#[trigger] keys@[i])@, k@),
        forall|i: int| r <= i < keys@.len() ==> !K::before((#[trigger] keys@[i])@, k@),
{
    let ghost kv = key_views(keys@);
    let mut lo: usize = 0;
    let mut hi: usize = keys.len();
    while lo < hi
        invariant
            lo <= hi <= keys@.len(),
            kv == key_views(keys@),
            ascending::<K>(kv),
            forall|i: int| 0 <= i < lo ==> K::before((#[trigger] keys@[i])@, k@),
            forall|i: int| hi <= i < keys@.len() ==> !K::before((#[trigger] keys@[i])@, k@),
        decreases hi - lo,
    {
        let mid = lo + (hi - lo) / 2;
        if keys[mid].precedes(k) {
            proof {
                assert forall|i: int| 0 <= i <= mid implies K::before(
                    (#[trigger] keys@[i])@,
                    k@,
                ) by {
                    if i < mid {
                        assert(K::before(kv[i], kv[mid as int]));
                        K::lemma_order(kv[i], kv[mid as int], k@);
                    }
                }
            }
            lo = mid + 1;
        } else {
            proof {
                assert forall|i: int| mid <= i < keys@.len() implies !K::before(
                    (#[trigger] keys@[i])@,
                    k@,
                ) by {
                    if i > mid {
                        assert(K::before(kv[mid as int], kv[i]));
                        K::lemma_order(kv[mid as int], kv[i], k@);
                    }
                }
            }
            hi = mid;
        }
    }
    lo
}

/// A set kept in key order.
pub struct OrdSet<K: Key> {
    keys: Vec<K>,
}

impl<K: Key> View for OrdSet<K> {
    type V = Set<K::V>;

    closed spec fn view(&self) -> Set<K::V> {
        key_views(self.keys@).to_set()
    }
}

impl<K: Key> OrdSet<K> {
    #[verifier::type_invariant]
    spec fn sorted(self) -> bool {
        ascending::<K>(key_views(self.keys@))
    }

    /// A set has finitely many members.
    pub proof fn lemma_finite(self)
        ensures
            self@.finite(),
    {
        vstd::seq_lib::seq_to_set_is_finite(key_views(self.keys@));
    }

    /// An empty set.
    pub fn new() -> (r: Self)
        ensures
            r@ == Set::<K::V>::empty(),
    {
        let r = OrdSet { keys: Vec::new() };
        assert(r@ =~= Set::<K::V>::empty());
        r
    }

    /// How many members there are.
    pub fn len(&self) -> (r: usize)
        ensures
            self@.finite(),
            r == self@.len(),
            r == in_order::<K>(self@).len(),
            in_order::<K>(self@).to_set() == self@,
            ascending::<K>(in_order::<K>(self@)),
    {
        proof {
            use_type_invariant(self);
            lemma_in_order::<K>(key_views(self.keys@));
            lemma_ascending_distinct::<K>(key_views(self.keys@));
        }
        self.keys.len()
    }

    /// Member `i` in key order.
    pub fn at(&self, i: usize) -> (r: &K)
        requires
            i < in_order::<K>(self@).len(),
        ensures
            r@ == in_order::<K>(self@)[i as int],
            self@.contains(r@),
    {
        proof {
            use_type_invariant(self);
            lemma_in_order::<K>(key_views(self.keys@));
            assert(key_views(self.keys@).contains(key_views(self.keys@)[i as int]));
        }
        &self.keys[i]
    }

    fn find(&self, k: &K) -> (r: Option<usize>)
        ensures
            match r {
                Some(i) => i < self.keys@.len() && self.keys@[i as int]@ == k@ && self@.contains(
                    k@,
                ),
                None => !self@.contains(k@),
            },
    {
        proof {
            use_type_invariant(self);
        }
        let at = lower_bound(&self.keys, k);
        let ghost kv = key_views(self.keys@);
        if at < self.keys.len() && self.keys[at].matches_key(k) {
            assert(kv[at as int] == k@);
            return Some(at);
        }
        proof {
            if kv.contains(k@) {
                let i = choose|i: int| 0 <= i < kv.len() && kv[i] == k@;
                assert(self.keys@[i]@ == k@);
                K::lemma_order(k@, kv[at as int], k@);
                if i > at {
                    assert(K::before(kv[at as int], kv[i]));
                }
                assert(!K::before(self.keys@[at as int]@, k@));
            }
        }
        None
    }

    /// Whether `k` is a member.
    pub fn contains(&self, k: &K) -> (r: bool)
        ensures
            r == self@.contains(k@),
    {
        self.find(k).is_some()
    }

    /// Move the members out, leaving the set empty.
    fn take_keys(&mut self) -> (r: Vec<K>)
        ensures
            r@ == old(self).keys@,
    {
        let mut other = OrdSet { keys: Vec::new() };
        std::mem::swap(self, &mut other);
        let OrdSet { keys } = other;
        keys
    }

    /// Add a member. Returns whether it was new.
    pub fn insert(&mut self, k: K) -> (r: bool)
        ensures
            final(self)@ == old(self)@.insert(k@),
            r == !old(self)@.contains(k@),
    {
        if self.contains(&k) {
            assert(self@ =~= self@.insert(k@));
            return false;
        }
        proof {
            use_type_invariant(&*self);
        }
        let at = lower_bound(&self.keys, &k);
        let ghost kv = key_views(self.keys@);
        let ghost kk = k@;
        proof {
            assert forall|i: int| at <= i < kv.len() implies K::before(kk, #[trigger] kv[i]) by {
                assert(!K::before(self.keys@[i]@, kk));
                assert(kv.contains(kv[i]));
                K::lemma_order(kk, kv[i], kk);
            }
            assert forall|i: int| 0 <= i < at implies K::before(#[trigger] kv[i], kk) by {
                assert(K::before(self.keys@[i]@, kk));
            }
            lemma_insert_ascending::<K>(kv, at as int, kk);
            assert(key_views(self.keys@.insert(at as int, k)) =~= kv.insert(at as int, kk));
        }
        let mut keys = self.take_keys();
        keys.insert(at, k);
        *self = OrdSet { keys };
        true
    }

    /// Take a member out. Returns whether it was there.
    pub fn remove(&mut self, k: &K) -> (r: bool)
        ensures
            final(self)@ == old(self)@.remove(k@),
            r == old(self)@.contains(k@),
    {
        match self.find(k) {
            None => {
                assert(self@ =~= self@.remove(k@));
                false
            },
            Some(at) => {
                let ghost kv = key_views(self.keys@);
                proof {
                    use_type_invariant(&*self);
                    lemma_remove_ascending::<K>(kv, at as int);
                    assert(key_views(self.keys@.remove(at as int)) =~= kv.remove(at as int));
                    assert(kv[at as int] == k@);
                }
                let mut keys = self.take_keys();
                let _ = keys.remove(at);
                *self = OrdSet { keys };
                true
            },
        }
    }

    /// A copy of this set.
    pub fn dup(&self) -> (r: Self)
        ensures
            r@ == self@,
    {
        let mut keys: Vec<K> = Vec::with_capacity(self.keys.len());
        let mut i: usize = 0;
        while i < self.keys.len()
            invariant
                i <= self.keys@.len(),
                keys@.len() == i,
                forall|j: int| 0 <= j < i ==> (#[trigger] keys@[j])@ == self.keys@[j]@,
            decreases self.keys@.len() - i,
        {
            keys.push(self.keys[i].copy_key());
            i += 1;
        }
        assert(key_views(keys@) =~= key_views(self.keys@));
        proof {
            use_type_invariant(self);
        }
        OrdSet { keys }
    }
}

/// A value that can be copied.
pub trait Dup: View + Sized {
    /// A copy of this value.
    fn copy_value(&self) -> (r: Self)
        ensures
            r@ == self@,
    ;
}

/// A map kept in key order.
pub struct OrdMap<K: Key, T: View> {
    keys: Vec<K>,
    vals: Vec<T>,
}

/// The map from each of `ks` to the value beside it.
pub open spec fn zipped<A, B>(ks: Seq<A>, vs: Seq<B>) -> Map<A, B> {
    Map::new(|k: A| ks.contains(k), |k: A| vs[ks.index_of(k)])
}

/// The values of a run of values.
pub open spec fn value_views<T: View>(vals: Seq<T>) -> Seq<T::V> {
    Seq::new(vals.len(), |i: int| vals[i]@)
}

impl<K: Key, T: View> View for OrdMap<K, T> {
    type V = Map<K::V, T::V>;

    closed spec fn view(&self) -> Map<K::V, T::V> {
        zipped(key_views(self.keys@), value_views(self.vals@))
    }
}

proof fn lemma_zipped<A, B>(ks: Seq<A>, vs: Seq<B>)
    requires
        ks.no_duplicates(),
        ks.len() == vs.len(),
    ensures
        forall|i: int| 0 <= i < ks.len() ==> zipped(ks, vs)[#[trigger] ks[i]] == vs[i],
        zipped(ks, vs).dom() == ks.to_set(),
{
    assert forall|i: int| 0 <= i < ks.len() implies zipped(ks, vs)[#[trigger] ks[i]] == vs[i] by {
        assert(ks.contains(ks[i]));
        let j = ks.index_of(ks[i]);
        assert(0 <= j < ks.len() && ks[j] == ks[i]);
    }
    assert(zipped(ks, vs).dom() =~= ks.to_set());
}

impl<K: Key, T: View> OrdMap<K, T> {
    #[verifier::type_invariant]
    spec fn sorted(self) -> bool {
        ascending::<K>(key_views(self.keys@)) && self.keys@.len() == self.vals@.len()
    }

    /// A map has finitely many keys.
    pub proof fn lemma_finite(self)
        ensures
            self@.dom().finite(),
    {
        let kv = key_views(self.keys@);
        vstd::seq_lib::seq_to_set_is_finite(kv);
        assert(self@.dom() =~= kv.to_set());
    }

    proof fn lemma_view(self)
        requires
            self.sorted(),
        ensures
            self@.dom() == key_views(self.keys@).to_set(),
            in_order::<K>(self@.dom()) == key_views(self.keys@),
            self@.dom().finite(),
            self@.dom().len() == self.keys@.len(),
            forall|i: int|
                0 <= i < self.keys@.len() ==> self@[(#[trigger] self.keys@[i])@] == self.vals@[i]@,
    {
        let kv = key_views(self.keys@);
        lemma_ascending_distinct::<K>(kv);
        lemma_zipped(kv, value_views(self.vals@));
        lemma_in_order::<K>(kv);
        assert forall|i: int| 0 <= i < self.keys@.len() implies self@[(
        #[trigger] self.keys@[i])@] == self.vals@[i]@ by {
            assert(kv[i] == self.keys@[i]@);
        }
    }

    /// An empty map.
    pub fn new() -> (r: Self)
        ensures
            r@ == Map::<K::V, T::V>::empty(),
    {
        let r = OrdMap { keys: Vec::new(), vals: Vec::new() };
        assert(r@ =~= Map::<K::V, T::V>::empty());
        r
    }

    /// How many keys there are.
    pub fn len(&self) -> (r: usize)
        ensures
            self@.dom().finite(),
            r == self@.dom().len(),
            r == in_order::<K>(self@.dom()).len(),
            in_order::<K>(self@.dom()).to_set() == self@.dom(),
            ascending::<K>(in_order::<K>(self@.dom())),
    {
        proof {
            use_type_invariant(self);
            self.lemma_view();
        }
        self.keys.len()
    }

    /// Key `i` in order.
    pub fn key_at(&self, i: usize) -> (r: &K)
        requires
            i < in_order::<K>(self@.dom()).len(),
        ensures
            r@ == in_order::<K>(self@.dom())[i as int],
            self@.dom().contains(r@),
    {
        proof {
            use_type_invariant(self);
            self.lemma_view();
            assert(key_views(self.keys@).contains(key_views(self.keys@)[i as int]));
        }
        &self.keys[i]
    }

    /// The value of key `i` in order.
    pub fn value_at(&self, i: usize) -> (r: &T)
        requires
            i < in_order::<K>(self@.dom()).len(),
        ensures
            r@ == self@[in_order::<K>(self@.dom())[i as int]],
    {
        proof {
            use_type_invariant(self);
            self.lemma_view();
            assert(self@[self.keys@[i as int]@] == self.vals@[i as int]@);
        }
        &self.vals[i]
    }

    fn find(&self, k: &K) -> (r: Option<usize>)
        ensures
            match r {
                Some(i) => i < self.keys@.len() && self.keys@[i as int]@ == k@
                    && self@.dom().contains(k@) && self@[k@] == self.vals@[i as int]@,
                None => !self@.dom().contains(k@),
            },
    {
        proof {
            use_type_invariant(self);
            self.lemma_view();
        }
        let at = lower_bound(&self.keys, k);
        let ghost kv = key_views(self.keys@);
        if at < self.keys.len() && self.keys[at].matches_key(k) {
            assert(kv[at as int] == k@);
            return Some(at);
        }
        proof {
            if kv.contains(k@) {
                let i = choose|i: int| 0 <= i < kv.len() && kv[i] == k@;
                assert(self.keys@[i]@ == k@);
                K::lemma_order(k@, kv[at as int], k@);
                if i > at {
                    assert(K::before(kv[at as int], kv[i]));
                }
                assert(!K::before(self.keys@[at as int]@, k@));
            }
        }
        None
    }

    /// Whether `k` has a value.
    pub fn contains_key(&self, k: &K) -> (r: bool)
        ensures
            r == self@.dom().contains(k@),
    {
        self.find(k).is_some()
    }

    /// The value of `k`.
    pub fn get(&self, k: &K) -> (r: Option<&T>)
        ensures
            match r {
                Some(v) => self@.dom().contains(k@) && v@ == self@[k@],
                None => !self@.dom().contains(k@),
            },
    {
        match self.find(k) {
            Some(i) => {
                proof {
                    use_type_invariant(self);
                }
                Some(&self.vals[i])
            },
            None => None,
        }
    }

    /// Take a key and its value out.
    pub fn remove(&mut self, k: &K) -> (r: Option<T>)
        ensures
            final(self)@ == old(self)@.remove(k@),
            match r {
                Some(v) => old(self)@.dom().contains(k@) && v@ == old(self)@[k@],
                None => !old(self)@.dom().contains(k@),
            },
    {
        match self.find(k) {
            None => {
                assert(self@ =~= self@.remove(k@));
                None
            },
            Some(at) => {
                let ghost kv = key_views(self.keys@);
                let ghost vv = value_views(self.vals@);
                proof {
                    use_type_invariant(&*self);
                    self.lemma_view();
                    lemma_remove_ascending::<K>(kv, at as int);
                    assert(key_views(self.keys@.remove(at as int)) =~= kv.remove(at as int));
                    assert(value_views(self.vals@.remove(at as int)) =~= vv.remove(at as int));
                    assert(kv[at as int] == k@);
                    lemma_zipped_remove::<K, T::V>(kv, vv, at as int);
                }
                let (mut keys, mut vals) = self.take_entries();
                let _ = keys.remove(at);
                let v = vals.remove(at);
                *self = OrdMap { keys, vals };
                Some(v)
            },
        }
    }

    /// Move the contents out, leaving the map empty.
    fn take_entries(&mut self) -> (r: (Vec<K>, Vec<T>))
        ensures
            r.0@ == old(self).keys@,
            r.1@ == old(self).vals@,
    {
        let mut other = OrdMap { keys: Vec::new(), vals: Vec::new() };
        std::mem::swap(self, &mut other);
        let OrdMap { keys, vals } = other;
        (keys, vals)
    }

    /// Give `k` the value `v`.
    pub fn insert(&mut self, k: K, v: T)
        ensures
            final(self)@ == old(self)@.insert(k@, v@),
    {
        let ghost before = self@;
        let _ = self.remove(&k);
        proof {
            use_type_invariant(&*self);
            self.lemma_view();
        }
        let at = lower_bound(&self.keys, &k);
        let ghost kv = key_views(self.keys@);
        let ghost vv = value_views(self.vals@);
        let ghost kk = k@;
        proof {
            assert(!self@.dom().contains(kk));
            assert forall|i: int| at <= i < kv.len() implies K::before(kk, #[trigger] kv[i]) by {
                assert(!K::before(self.keys@[i]@, kk));
                assert(kv.contains(kv[i]));
                K::lemma_order(kk, kv[i], kk);
            }
            assert forall|i: int| 0 <= i < at implies K::before(#[trigger] kv[i], kk) by {
                assert(K::before(self.keys@[i]@, kk));
            }
            lemma_insert_ascending::<K>(kv, at as int, kk);
            assert(key_views(self.keys@.insert(at as int, k)) =~= kv.insert(at as int, kk));
            assert(value_views(self.vals@.insert(at as int, v)) =~= vv.insert(at as int, v@));
            lemma_zipped_insert::<K, T::V>(kv, vv, at as int, kk, v@);
            assert(before.remove(kk).insert(kk, v@) =~= before.insert(kk, v@));
        }
        let (mut keys, mut vals) = self.take_entries();
        keys.insert(at, k);
        vals.insert(at, v);
        *self = OrdMap { keys, vals };
    }
}

proof fn lemma_zipped_remove<K: Key, B>(kv: Seq<K::V>, vv: Seq<B>, at: int)
    requires
        ascending::<K>(kv),
        kv.len() == vv.len(),
        0 <= at < kv.len(),
    ensures
        zipped(kv.remove(at), vv.remove(at)) == zipped(kv, vv).remove(kv[at]),
{
    let k2 = kv.remove(at);
    let v2 = vv.remove(at);
    lemma_remove_ascending::<K>(kv, at);
    lemma_ascending_distinct::<K>(kv);
    lemma_ascending_distinct::<K>(k2);
    lemma_zipped(kv, vv);
    lemma_zipped(k2, v2);
    let a = zipped(k2, v2);
    let b = zipped(kv, vv).remove(kv[at]);
    assert(a.dom() =~= b.dom());
    assert forall|k: K::V| a.dom().contains(k) implies a[k] == b[k] by {
        let i = choose|i: int| 0 <= i < k2.len() && k2[i] == k;
        let i2 = if i < at {
            i
        } else {
            i + 1
        };
        assert(a[k2[i]] == v2[i]);
        assert(zipped(kv, vv)[kv[i2]] == vv[i2]);
    }
    assert(a =~= b);
}

proof fn lemma_zipped_insert<K: Key, B>(kv: Seq<K::V>, vv: Seq<B>, at: int, k: K::V, v: B)
    requires
        ascending::<K>(kv),
        ascending::<K>(kv.insert(at, k)),
        kv.insert(at, k).to_set() == kv.to_set().insert(k),
        kv.len() == vv.len(),
        0 <= at <= kv.len(),
    ensures
        zipped(kv.insert(at, k), vv.insert(at, v)) == zipped(kv, vv).insert(k, v),
{
    let k2 = kv.insert(at, k);
    let v2 = vv.insert(at, v);
    lemma_ascending_distinct::<K>(kv);
    lemma_ascending_distinct::<K>(k2);
    lemma_zipped(kv, vv);
    lemma_zipped(k2, v2);
    let a = zipped(k2, v2);
    let b = zipped(kv, vv).insert(k, v);
    assert(a.dom() =~= b.dom());
    assert forall|x: K::V| a.dom().contains(x) implies a[x] == b[x] by {
        let i = choose|i: int| 0 <= i < k2.len() && k2[i] == x;
        assert(a[k2[i]] == v2[i]);
        if i != at {
            let i2 = if i < at {
                i
            } else {
                i - 1
            };
            assert(kv[i2] == x);
            assert(zipped(kv, vv)[kv[i2]] == vv[i2]);
            assert(k2[i] != k2[at]);
        } else {
            assert(k2[at] == k);
        }
    }
    assert(a =~= b);
}

impl<K: Key, T: Dup> OrdMap<K, T> {
    /// A copy of this map.
    pub fn dup(&self) -> (r: Self)
        ensures
            r@ == self@,
    {
        let mut keys: Vec<K> = Vec::with_capacity(self.keys.len());
        let mut vals: Vec<T> = Vec::with_capacity(self.keys.len());
        let mut i: usize = 0;
        proof {
            use_type_invariant(self);
        }
        while i < self.keys.len()
            invariant
                i <= self.keys@.len(),
                self.keys@.len() == self.vals@.len(),
                keys@.len() == i,
                forall|j: int| 0 <= j < i ==> (#[trigger] keys@[j])@ == self.keys@[j]@,
                vals@.len() == i,
                forall|j: int| 0 <= j < i ==> (#[trigger] vals@[j])@ == self.vals@[j]@,
            decreases self.keys@.len() - i,
        {
            keys.push(self.keys[i].copy_key());
            vals.push(self.vals[i].copy_value());
            i += 1;
        }
        assert(key_views(keys@) =~= key_views(self.keys@));
        assert(value_views(vals@) =~= value_views(self.vals@));
        OrdMap { keys, vals }
    }
}

impl Key for u32 {
    open spec fn before(a: u32, b: u32) -> bool {
        a < b
    }

    proof fn lemma_order(a: u32, b: u32, c: u32) {
    }

    fn precedes(&self, other: &Self) -> (r: bool) {
        *self < *other
    }

    fn matches_key(&self, other: &Self) -> (r: bool) {
        *self == *other
    }

    fn copy_key(&self) -> (r: Self) {
        *self
    }
}

impl Key for u64 {
    open spec fn before(a: u64, b: u64) -> bool {
        a < b
    }

    proof fn lemma_order(a: u64, b: u64, c: u64) {
    }

    fn precedes(&self, other: &Self) -> (r: bool) {
        *self < *other
    }

    fn matches_key(&self, other: &Self) -> (r: bool) {
        *self == *other
    }

    fn copy_key(&self) -> (r: Self) {
        *self
    }
}

/// Lexicographic order on bytes.
pub open spec fn bytes_before(a: Seq<u8>, b: Seq<u8>) -> bool
    decreases a.len(),
{
    if b.len() == 0 {
        false
    } else if a.len() == 0 {
        true
    } else if a[0] != b[0] {
        a[0] < b[0]
    } else {
        bytes_before(a.skip(1), b.skip(1))
    }
}

/// Lexicographic order is strict and total.
pub proof fn lemma_bytes_order(a: Seq<u8>, b: Seq<u8>, c: Seq<u8>)
    ensures
        !bytes_before(a, a),
        bytes_before(a, b) && bytes_before(b, c) ==> bytes_before(a, c),
        a == b || bytes_before(a, b) || bytes_before(b, a),
    decreases a.len() + b.len(),
{
    if a.len() > 0 && b.len() > 0 {
        let c1 = if c.len() > 0 {
            c.skip(1)
        } else {
            c
        };
        lemma_bytes_order(a.skip(1), b.skip(1), c1);
        if a.skip(1) == b.skip(1) && a[0] == b[0] {
            assert(a =~= seq![a[0]] + a.skip(1));
            assert(b =~= seq![b[0]] + b.skip(1));
        }
    } else if a.len() > 0 {
        lemma_bytes_order(a.skip(1), b, c);
    } else if b.len() == 0 {
        assert(a =~= b);
    }
}

/// Whether `a` comes before `b` in lexicographic order.
pub fn bytes_precede(a: &[u8], b: &[u8]) -> (r: bool)
    ensures
        r == bytes_before(a@, b@),
{
    let mut i: usize = 0;
    proof {
        assert(a@.skip(0) =~= a@);
        assert(b@.skip(0) =~= b@);
    }
    while i < a.len() && i < b.len()
        invariant
            i <= a@.len(),
            i <= b@.len(),
            bytes_before(a@, b@) == bytes_before(a@.skip(i as int), b@.skip(i as int)),
        decreases a@.len() - i,
    {
        let ghost x = a@.skip(i as int);
        let ghost y = b@.skip(i as int);
        if a[i] != b[i] {
            assert(x[0] == a@[i as int] && y[0] == b@[i as int]);
            return a[i] < b[i];
        }
        proof {
            assert(x[0] == y[0]);
            assert(x.skip(1) =~= a@.skip(i + 1));
            assert(y.skip(1) =~= b@.skip(i + 1));
        }
        i += 1;
    }
    i < b.len()
}

/// Strings are ordered by their UTF-8 bytes.
impl Key for String {
    open spec fn before(a: Seq<char>, b: Seq<char>) -> bool {
        bytes_before(vstd::utf8::encode_utf8(a), vstd::utf8::encode_utf8(b))
    }

    proof fn lemma_order(a: Seq<char>, b: Seq<char>, c: Seq<char>) {
        lemma_bytes_order(
            vstd::utf8::encode_utf8(a),
            vstd::utf8::encode_utf8(b),
            vstd::utf8::encode_utf8(c),
        );
        vstd::utf8::encode_utf8_decode_utf8(a);
        vstd::utf8::encode_utf8_decode_utf8(b);
    }

    fn precedes(&self, other: &Self) -> (r: bool) {
        bytes_precede(self.as_str().as_bytes(), other.as_str().as_bytes())
    }

    fn matches_key(&self, other: &Self) -> (r: bool) {
        *self == *other
    }

    fn copy_key(&self) -> (r: Self) {
        self.clone()
    }
}

impl Key for crate::hash::Hash {
    open spec fn before(a: Seq<u8>, b: Seq<u8>) -> bool {
        bytes_before(a, b)
    }

    proof fn lemma_order(a: Seq<u8>, b: Seq<u8>, c: Seq<u8>) {
        lemma_bytes_order(a, b, c);
    }

    fn precedes(&self, other: &Self) -> (r: bool) {
        bytes_precede(self.0.as_slice(), other.0.as_slice())
    }

    fn matches_key(&self, other: &Self) -> (r: bool) {
        self.same(other)
    }

    fn copy_key(&self) -> (r: Self) {
        *self
    }
}

impl View for NodeId {
    type V = NodeId;

    open spec fn view(&self) -> NodeId {
        *self
    }
}

impl Key for NodeId {
    open spec fn before(a: NodeId, b: NodeId) -> bool {
        match (a, b) {
            (NodeId::Client, NodeId::Client) => false,
            (NodeId::Client, _) => true,
            (NodeId::Storage(i), NodeId::Storage(j)) => i < j,
            (NodeId::Storage(_), NodeId::Meta(_)) => true,
            (NodeId::Meta(i), NodeId::Meta(j)) => i < j,
            _ => false,
        }
    }

    proof fn lemma_order(a: NodeId, b: NodeId, c: NodeId) {
    }

    fn precedes(&self, other: &Self) -> (r: bool) {
        match (*self, *other) {
            (NodeId::Client, NodeId::Client) => false,
            (NodeId::Client, _) => true,
            (NodeId::Storage(i), NodeId::Storage(j)) => i < j,
            (NodeId::Storage(_), NodeId::Meta(_)) => true,
            (NodeId::Meta(i), NodeId::Meta(j)) => i < j,
            _ => false,
        }
    }

    fn matches_key(&self, other: &Self) -> (r: bool) {
        *self == *other
    }

    fn copy_key(&self) -> (r: Self) {
        *self
    }
}

impl Dup for Vec<u8> {
    fn copy_value(&self) -> (r: Self) {
        vstd::slice::slice_to_vec(self.as_slice())
    }
}

} // verus!

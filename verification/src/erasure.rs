//! Reed-Solomon erasure coding over GF(2^8) as an alternative chunk protection mode.
//!
//! A chunk is split into `k` equal-length data shards and `m` parity shards are computed,
//! for `k + m` shards in total. Any `k` of the `k + m` shards reconstruct the chunk.
//!
//! The parity rows form a Cauchy matrix, so the encoding rows of any `k` positions are
//! independent, whatever the positions. Inversion is Gaussian elimination in the field.

use crate::error::{Error, ErrorV};
use crate::gf;
use crate::linear;
use crate::text;
use vstd::prelude::*;

pub use crate::gf::{gf_div, gf_inv, gf_mul, tables, Tables};

verus! {

/// The erasure coding scheme for a fixed k and m.
#[derive(Clone, Copy, Debug, PartialEq, Eq, Structural)]
pub struct Erasure {
    /// Number of data shards per chunk.
    pub k: usize,
    /// Number of parity shards per chunk.
    pub m: usize,
}

/// The encoding row for shard position `pos`: the unit row for a data position, and for a
/// parity position the Cauchy row whose entry `j` is `1 / (pos xor j)`.
pub open spec fn row(k: nat, pos: nat) -> Seq<u8> {
    if pos < k {
        linear::unit_row(k, pos as int)
    } else {
        Seq::new(k, |j: int| gf::ginv(pos as u8 ^ j as u8))
    }
}

/// The shard length for a chunk of `len` bytes: the quotient rounded up.
pub open spec fn quotient_up(len: nat, k: nat) -> nat {
    ((len + k - 1) / k as int) as nat
}

/// The length of the shards that a chunk of `len` bytes is encoded into.
pub open spec fn stored_len(len: nat, k: nat) -> nat {
    if quotient_up(len, k) == 0 {
        1
    } else {
        quotient_up(len, k)
    }
}

/// Byte `b` of data shard `i`: the chunk cut into shards of `sl` bytes and padded with zeros.
pub open spec fn data_byte(chunk: Seq<u8>, sl: nat, i: int, b: int) -> u8 {
    if i * sl + b < chunk.len() {
        chunk[i * sl + b]
    } else {
        0
    }
}

/// The bytes at offset `b` of the `k` data shards.
pub open spec fn data_column(chunk: Seq<u8>, k: nat, b: int) -> Seq<u8> {
    Seq::new(k, |j: int| data_byte(chunk, stored_len(chunk.len(), k), j, b))
}

/// The shard at position `pos` of an encoded chunk.
pub open spec fn shard(chunk: Seq<u8>, k: nat, pos: nat) -> Seq<u8> {
    Seq::new(
        stored_len(chunk.len(), k),
        |b: int| linear::dot(row(k, pos), data_column(chunk, k, b), k),
    )
}

/// All shards of an encoded chunk, by position.
pub open spec fn shards(chunk: Seq<u8>, k: nat, m: nat) -> Seq<Seq<u8>> {
    Seq::new(k + m, |pos: int| shard(chunk, k, pos as nat))
}

/// The rows of the first `n` chosen positions.
pub open spec fn rows(k: nat, chosen: Seq<nat>) -> Seq<Seq<u8>> {
    chosen.map_values(|pos: nat| row(k, pos))
}

/// The vector that the rows of the chosen positions map to `s`.
pub open spec fn solution(k: nat, chosen: Seq<nat>, s: Seq<u8>) -> Seq<u8> {
    choose|v: Seq<u8>| v.len() == k && #[trigger] linear::apply(rows(k, chosen), v) == s
}

/// The positions below `n` that hold a shard, in ascending order.
pub open spec fn present(slots: Seq<Option<Seq<u8>>>, n: nat) -> Seq<nat>
    decreases n,
{
    if n == 0 {
        seq![]
    } else if slots[n - 1] is Some {
        present(slots, (n - 1) as nat).push((n - 1) as nat)
    } else {
        present(slots, (n - 1) as nat)
    }
}

/// The first `k` positions that hold a shard.
pub open spec fn chosen(slots: Seq<Option<Seq<u8>>>, k: nat) -> Seq<nat> {
    present(slots, slots.len()).take(k as int)
}

/// The bytes at offset `b` of the shards at the chosen positions.
pub open spec fn slot_column(slots: Seq<Option<Seq<u8>>>, at: Seq<nat>, b: int) -> Seq<u8> {
    at.map_values(|pos: nat| slots[pos as int].unwrap()[b])
}

/// What decoding yields for shards indexed by position.
pub open spec fn decoded(
    slots: Seq<Option<Seq<u8>>>,
    k: nat,
    m: nat,
    chunk_len: nat,
) -> Result<Seq<u8>, ErrorV> {
    let found = present(slots, slots.len()).len();
    let at = chosen(slots, k);
    let sl = slots[at[0] as int].unwrap().len();
    if slots.len() != k + m {
        Err(ErrorV::IntegrityError)
    } else if found < k {
        Err(
            ErrorV::ChunkUnavailable(
                "erasure decode needs "@ + text::decimal(k) + " shards, "@ + text::decimal(found)
                    + " available"@,
            ),
        )
    } else if exists|t: int| 0 <= t < k && slots[(#[trigger] at[t]) as int].unwrap().len() != sl {
        Err(ErrorV::IntegrityError)
    } else {
        Ok(joined(slots, at, k, sl, chunk_len))
    }
}

/// The data shards of length `sl` that the chosen shards determine, one after the other,
/// cut to `chunk_len` bytes.
pub open spec fn joined(
    slots: Seq<Option<Seq<u8>>>,
    at: Seq<nat>,
    k: nat,
    sl: nat,
    chunk_len: nat,
) -> Seq<u8> {
    Seq::new(
        if chunk_len < k * sl {
            chunk_len
        } else {
            k * sl
        },
        |i: int| solution(k, at, slot_column(slots, at, i % sl as int))[i / sl as int],
    )
}

/// The shards passed to the decoder, by value.
pub open spec fn slots_view(s: Seq<Option<&[u8]>>) -> Seq<Option<Seq<u8>>> {
    s.map_values(
        |o: Option<&[u8]>|
            match o {
                Some(d) => Some(d@),
                None => None,
            },
    )
}

/// The rows of a matrix held in vectors.
pub open spec fn grid(m: Seq<Vec<u8>>) -> Seq<Seq<u8>> {
    m.map_values(|r: Vec<u8>| r@)
}

/// The data positions below `n` that are not among the chosen ones.
spec fn missing(at: Seq<nat>, n: nat) -> Seq<u8>
    decreases n,
{
    if n == 0 {
        seq![]
    } else if at.contains((n - 1) as nat) {
        missing(at, (n - 1) as nat)
    } else {
        missing(at, (n - 1) as nat).push((n - 1) as u8)
    }
}

/// The parity positions among the first `n` chosen ones.
spec fn parity(at: Seq<nat>, k: nat, n: nat) -> Seq<u8>
    decreases n,
{
    if n == 0 {
        seq![]
    } else if at[n - 1] < k {
        parity(at, k, (n - 1) as nat)
    } else {
        parity(at, k, (n - 1) as nat).push(at[n - 1] as u8)
    }
}

proof fn lemma_missing(at: Seq<nat>, n: nat)
    requires
        n <= 256,
    ensures
        missing(at, n).no_duplicates(),
        forall|i: int|
            0 <= i < missing(at, n).len() ==> (#[trigger] missing(at, n)[i]) < n && !at.contains(
                missing(at, n)[i] as nat,
            ),
        forall|j: nat| j < n && !at.contains(j) ==> missing(at, n).contains(#[trigger] (j as u8)),
    decreases n,
{
    if n > 0 {
        let p = missing(at, (n - 1) as nat);
        lemma_missing(at, (n - 1) as nat);
        let q = missing(at, n);
        assert forall|j: nat| j < n && !at.contains(j) implies q.contains(#[trigger] (j as u8)) by {
            if j < n - 1 {
                assert(p.contains(j as u8));
                let i = choose|i: int| 0 <= i < p.len() && p[i] == j as u8;
                assert(q[i] == j as u8);
            } else {
                assert(q[q.len() - 1] == j as u8);
            }
        }
    }
}

proof fn lemma_parity(at: Seq<nat>, k: nat, n: nat)
    requires
        n <= at.len(),
        at.no_duplicates(),
        forall|t: int| 0 <= t < at.len() ==> (#[trigger] at[t]) < 256,
    ensures
        parity(at, k, n).no_duplicates(),
        forall|i: int|
            0 <= i < parity(at, k, n).len() ==> (#[trigger] parity(at, k, n)[i]) >= k && exists|
                t: int,
            |
                0 <= t < n && #[trigger] at[t] == parity(at, k, n)[i],
        forall|t: int|
            0 <= t < n && at[t] >= k ==> parity(at, k, n).contains((#[trigger] at[t]) as u8),
    decreases n,
{
    if n > 0 {
        let p = parity(at, k, (n - 1) as nat);
        let q = parity(at, k, n);
        lemma_parity(at, k, (n - 1) as nat);
        assert forall|t: int| 0 <= t < n && at[t] >= k implies q.contains(
            (#[trigger] at[t]) as u8,
        ) by {
            if t < n - 1 {
                assert(p.contains(at[t] as u8));
                let i = choose|i: int| 0 <= i < p.len() && p[i] == at[t] as u8;
                assert(q[i] == at[t] as u8);
            } else {
                assert(q[q.len() - 1] == at[t] as u8);
            }
        }
        assert forall|i: int| 0 <= i < q.len() implies (#[trigger] q[i]) >= k && exists|t: int|
            0 <= t < n && #[trigger] at[t] == q[i] by {
            if i < p.len() {
                assert(q[i] == p[i]);
                let t = choose|t: int| 0 <= t < n - 1 && #[trigger] at[t] == p[i];
                assert(at[t] == q[i]);
            } else {
                assert(at[n - 1] == q[i]);
            }
        }
    }
}

/// There are as many missing data positions as chosen parity positions.
proof fn lemma_counts(at: Seq<nat>, k: nat)
    requires
        at.len() == k,
        k <= 256,
        at.no_duplicates(),
        forall|t: int| 0 <= t < k ==> (#[trigger] at[t]) < 256,
    ensures
        missing(at, k).len() == parity(at, k, k).len(),
{
    let c = at.map_values(|p: nat| p as int);
    assert(c.no_duplicates());
    c.unique_seq_to_set();
    let cs = c.to_set();
    let r = vstd::set_lib::set_int_range(0, k as int);
    vstd::set_lib::lemma_int_range(0, k as int);
    lemma_missing(at, k);
    lemma_parity(at, k, k);
    let ms = missing(at, k).map_values(|p: u8| p as int);
    let ps = parity(at, k, k).map_values(|p: u8| p as int);
    assert(ms.no_duplicates());
    assert(ps.no_duplicates());
    ms.unique_seq_to_set();
    ps.unique_seq_to_set();
    assert(ms.to_set() =~= r.difference(cs)) by {
        assert forall|x: int| ms.to_set().contains(x) implies r.difference(cs).contains(x) by {
            let i = choose|i: int| 0 <= i < ms.len() && ms[i] == x;
            let u = missing(at, k)[i];
            if cs.contains(x) {
                let t = choose|t: int| 0 <= t < c.len() && c[t] == x;
                assert(at[t] == u as nat);
                assert(at.contains(u as nat));
            }
        }
        assert forall|x: int| r.difference(cs).contains(x) implies ms.to_set().contains(x) by {
            let j = x as nat;
            if at.contains(j) {
                let t = choose|t: int| 0 <= t < at.len() && at[t] == j;
                assert(c[t] == x);
            }
            assert(missing(at, k).contains(j as u8));
            let i = choose|i: int| 0 <= i < missing(at, k).len() && missing(at, k)[i] == j as u8;
            assert(ms[i] == x);
        }
    }
    assert(ps.to_set() =~= cs.difference(r)) by {
        assert forall|x: int| ps.to_set().contains(x) implies cs.difference(r).contains(x) by {
            let i = choose|i: int| 0 <= i < ps.len() && ps[i] == x;
            let u = parity(at, k, k)[i];
            let t = choose|t: int| 0 <= t < k && #[trigger] at[t] == u;
            assert(c[t] == x);
        }
        assert forall|x: int| cs.difference(r).contains(x) implies ps.to_set().contains(x) by {
            let t = choose|t: int| 0 <= t < c.len() && c[t] == x;
            assert(at[t] >= k);
            assert(parity(at, k, k).contains(at[t] as u8));
            let i = choose|i: int|
                0 <= i < parity(at, k, k).len() && parity(at, k, k)[i] == at[t] as u8;
            assert(ps[i] == x);
        }
    }
    let both = r.intersect(cs);
    vstd::set_lib::lemma_set_disjoint_lens(both, r.difference(cs));
    vstd::set_lib::lemma_set_disjoint_lens(both, cs.difference(r));
    assert(both + r.difference(cs) =~= r);
    assert(both + cs.difference(r) =~= cs);
}

/// A parity row sees only the missing data positions when the others are zero.
proof fn lemma_parity_dot(at: Seq<nat>, k: nat, x: nat, v: Seq<u8>, n: nat)
    requires
        n <= k <= x < 256,
        v.len() == k,
        forall|j: nat| j < k && at.contains(j) ==> #[trigger] v[j as int] == 0,
    ensures
        linear::dot(row(k, x), v, n) == linear::cauchy_sum(
            missing(at, n).map_values(|j: u8| v[j as int]),
            missing(at, n),
            x as u8,
            missing(at, n).len(),
        ),
    decreases n,
{
    if n > 0 {
        let p = (n - 1) as nat;
        lemma_parity_dot(at, k, x, v, p);
        let mp = missing(at, p);
        let mn = missing(at, n);
        let vp = mp.map_values(|j: u8| v[j as int]);
        let vn = mn.map_values(|j: u8| v[j as int]);
        if at.contains(p) {
            assert(v[p as int] == 0);
            gf::lemma_gmul_units(row(k, x)[n - 1]);
            gf::lemma_xor(linear::dot(row(k, x), v, p), 0, 0, 0);
        } else {
            assert(vn.drop_last() =~= vp);
            assert(mn.drop_last() =~= mp);
            linear::lemma_cauchy_prefix(vn, mn, vp, mp, x as u8, mp.len());
            gf::lemma_gmul_commutes(row(k, x)[n - 1], v[n - 1]);
        }
    }
}

/// The rows of any `k` distinct positions are independent: only zero is mapped to zero.
pub proof fn lemma_rows_independent(k: nat, at: Seq<nat>, v: Seq<u8>)
    requires
        at.len() == k,
        v.len() == k,
        at.no_duplicates(),
        k <= 256,
        forall|t: int| 0 <= t < k ==> (#[trigger] at[t]) < 256,
        forall|t: int| 0 <= t < k ==> linear::dot(row(k, #[trigger] at[t]), v, k) == 0,
    ensures
        forall|j: int| 0 <= j < k ==> #[trigger] v[j] == 0,
{
    assert forall|j: nat| j < k && at.contains(j) implies #[trigger] v[j as int] == 0 by {
        let t = choose|t: int| 0 <= t < at.len() && at[t] == j;
        linear::lemma_dot_unit(v, j as int);
    }
    lemma_missing(at, k);
    lemma_parity(at, k, k);
    lemma_counts(at, k);
    let ys = missing(at, k);
    let xs = parity(at, k, k);
    let w = ys.map_values(|j: u8| v[j as int]);
    assert forall|i: int| 0 <= i < xs.len() implies #[trigger] linear::cauchy_sum(
        w,
        ys,
        xs[i],
        w.len(),
    ) == 0 by {
        let t = choose|t: int| 0 <= t < k && #[trigger] at[t] == xs[i];
        lemma_parity_dot(at, k, at[t], v, k);
    }
    linear::lemma_cauchy(xs, ys, w);
    assert forall|j: int| 0 <= j < k implies #[trigger] v[j] == 0 by {
        if !at.contains(j as nat) {
            assert(ys.contains((j as nat) as u8));
            let i = choose|i: int| 0 <= i < ys.len() && ys[i] == (j as nat) as u8;
            assert(w[i] == 0);
        }
    }
}


spec fn zeros(k: nat) -> Seq<u8> {
    Seq::new(k, |i: int| 0u8)
}

fn scale_row(t: &Tables, row: &Vec<u8>, c: u8) -> (r: Vec<u8>)
    requires
        t.wf(),
    ensures
        r@ == linear::scaled(row@, c),
{
    let mut out: Vec<u8> = Vec::with_capacity(row.len());
    let mut i: usize = 0;
    while i < row.len()
        invariant
            t.wf(),
            i <= row@.len(),
            out@.len() == i,
            forall|j: int| 0 <= j < i ==> #[trigger] out@[j] == gf::gmul(c, row@[j]),
        decreases row@.len() - i,
    {
        out.push(t.mul(c, row[i]));
        i += 1;
    }
    assert(out@ =~= linear::scaled(row@, c));
    out
}

fn combine_rows(t: &Tables, row: &Vec<u8>, other: &Vec<u8>, c: u8) -> (r: Vec<u8>)
    requires
        t.wf(),
        row@.len() == other@.len(),
    ensures
        r@ == linear::combined(row@, other@, c),
{
    let mut out: Vec<u8> = Vec::with_capacity(row.len());
    let mut i: usize = 0;
    while i < row.len()
        invariant
            t.wf(),
            i <= row@.len(),
            row@.len() == other@.len(),
            out@.len() == i,
            forall|j: int|
                0 <= j < i ==> #[trigger] out@[j] == row@[j] ^ gf::gmul(c, other@[j]),
        decreases row@.len() - i,
    {
        out.push(row[i] ^ t.mul(c, other[i]));
        i += 1;
    }
    assert(out@ =~= linear::combined(row@, other@, c));
    out
}

fn copy_row(row: &Vec<u8>) -> (r: Vec<u8>)
    ensures
        r@ == row@,
{
    vstd::slice::slice_to_vec(row.as_slice())
}

fn unit(k: usize, p: usize) -> (r: Vec<u8>)
    requires
        p < k,
    ensures
        r@ == linear::unit_row(k as nat, p as int),
{
    let mut out: Vec<u8> = Vec::with_capacity(k);
    let mut j: usize = 0;
    while j < k
        invariant
            j <= k,
            out@.len() == j,
            forall|i: int|
                0 <= i < j ==> #[trigger] out@[i] == (if i == p {
                    1u8
                } else {
                    0u8
                }),
        decreases k - j,
    {
        out.push(
            if j == p {
                1
            } else {
                0
            },
        );
        j += 1;
    }
    assert(out@ =~= linear::unit_row(k as nat, p as int));
    out
}

proof fn lemma_grid_update(m: Seq<Vec<u8>>, i: int, r: Vec<u8>)
    requires
        0 <= i < m.len(),
    ensures
        grid(m.update(i, r)) == grid(m).update(i, r@),
{
    assert(grid(m.update(i, r)) =~= grid(m).update(i, r@));
}

impl Erasure {
    /// The schemes for which the positions of a chunk have distinct field elements.
    pub open spec fn wf(&self) -> bool {
        1 <= self.k && self.k + self.m <= 256
    }

    /// Build a scheme. Both parts must be at least one and their sum at most 64.
    pub fn new(k: usize, m: usize) -> (r: Result<Self, Error>)
        ensures
            match r {
                Ok(e) => 1 <= k && 1 <= m && k + m <= 64 && e.k == k && e.m == m && e.wf(),
                Err(e) => e@ == ErrorV::InvalidPath(
                    if k == 0 || m == 0 {
                        "erasure needs k and m of at least one, got k="@ + text::decimal(k as nat)
                            + " m="@ + text::decimal(m as nat)
                    } else {
                        "erasure k+m="@ + text::decimal((k + m) as nat)
                            + "; the scheme is capped at 64 shards"@
                    },
                ),
            },
            r is Ok <==> 1 <= k && 1 <= m && k + m <= 64,
    {
        if k == 0 || m == 0 {
            let mut s = text::labelled("erasure needs k and m of at least one, got k=", k as u64);
            s.append(" m=");
            text::append_decimal(&mut s, m as u64);
            return Err(Error::InvalidPath(s));
        }
        if k > 64 || m > 64 - k {
            let mut s = "erasure k+m=".to_owned();
            text::append_wide_decimal(&mut s, k as u128 + m as u128);
            s.append("; the scheme is capped at 64 shards");
            return Err(Error::InvalidPath(s));
        }
        Ok(Erasure { k, m })
    }

    /// Total shard count per chunk.
    pub fn total(&self) -> (r: usize)
        requires
            self.k + self.m <= usize::MAX,
        ensures
            r == self.k + self.m,
    {
        self.k + self.m
    }

    /// The Cauchy encoding row for parity shard `i`.
    fn parity_row(&self, i: usize) -> (r: Vec<u8>)
        requires
            self.wf(),
            i < self.m,
        ensures
            r@ == row(self.k as nat, (self.k + i) as nat),
    {
        let t = tables();
        let xi: u8 = (self.k + i) as u8;
        let mut out: Vec<u8> = Vec::with_capacity(self.k);
        let mut j: usize = 0;
        while j < self.k
            invariant
                self.wf(),
                i < self.m,
                t.wf(),
                xi == (self.k + i) as u8,
                j <= self.k,
                out@.len() == j,
                forall|p: int| 0 <= p < j ==> #[trigger] out@[p] == gf::ginv(xi ^ p as u8),
            decreases self.k - j,
        {
            let yj: u8 = j as u8;
            proof {
                gf::lemma_xor(xi, yj, 0, 0);
            }
            out.push(t.inv(xi ^ yj));
            j += 1;
        }
        assert(out@ =~= row(self.k as nat, (self.k + i) as nat));
        out
    }

    /// The full encoding row for shard position `pos`.
    fn encoding_row(&self, pos: usize) -> (r: Vec<u8>)
        requires
            self.wf(),
            pos < self.k + self.m,
        ensures
            r@ == row(self.k as nat, pos as nat),
    {
        if pos < self.k {
            unit(self.k, pos)
        } else {
            self.parity_row(pos - self.k)
        }
    }

    /// Shard length for a chunk of `chunk_len` bytes.
    pub fn shard_len(&self, chunk_len: usize) -> (r: usize)
        requires
            self.k >= 1,
        ensures
            r == quotient_up(chunk_len as nat, self.k as nat),
    {
        let q = chunk_len / self.k;
        proof {
            lemma_quotient_up(chunk_len as nat, self.k as nat);
        }
        if chunk_len % self.k == 0 {
            q
        } else {
            q + 1
        }
    }

    /// Invert a k x k matrix over GF(2^8) by Gaussian elimination. Returns `None` exactly when
    /// the matrix maps some nonzero vector to zero.
    fn invert(matrix: &Vec<Vec<u8>>, k: usize) -> (r: Option<Vec<Vec<u8>>>)
        requires
            linear::square(grid(matrix@), k as nat),
        ensures
            match r {
                Some(inv) => {
                    &&& linear::square(grid(inv@), k as nat)
                    &&& forall|v: Seq<u8>, s: Seq<u8>|
                        v.len() == k && s.len() == k ==> (#[trigger] linear::apply(grid(inv@), s)
                            == v <==> #[trigger] linear::apply(grid(matrix@), v) == s)
                },
                None => exists|v: Seq<u8>|
                    v.len() == k && v != zeros(k as nat) && #[trigger] linear::apply(
                        grid(matrix@),
                        v,
                    ) == zeros(k as nat),
            },
    {
        let t = tables();
        let ghost n = k as nat;
        let ghost mm = grid(matrix@);
        let ghost id = linear::identity(n);
        let mut a: Vec<Vec<u8>> = Vec::with_capacity(k);
        let mut b: Vec<Vec<u8>> = Vec::with_capacity(k);
        let mut i: usize = 0;
        while i < k
            invariant
                i <= k,
                n == k,
                mm == grid(matrix@),
                linear::square(mm, n),
                a@.len() == i,
                b@.len() == i,
                forall|j: int| 0 <= j < i ==> (#[trigger] a@[j])@ == mm[j],
                forall|j: int| 0 <= j < i ==> (#[trigger] b@[j])@ == linear::unit_row(n, j),
            decreases k - i,
        {
            assert(mm[i as int].len() == n);
            a.push(copy_row(&matrix[i]));
            b.push(unit(k, i));
            i += 1;
        }
        assert(grid(a@) =~= mm);
        assert(grid(b@) =~= id);
        assert(linear::square(grid(b@), n));
        assert(linear::same_solutions(mm, id, grid(a@), grid(b@), n));
        let mut col: usize = 0;
        while col < k
            invariant
                t.wf(),
                col <= k,
                n == k,
                mm == grid(matrix@),
                id == linear::identity(n),
                linear::square(mm, n),
                linear::square(grid(a@), n),
                linear::square(grid(b@), n),
                linear::same_solutions(mm, id, grid(a@), grid(b@), n),
                reduced(grid(a@), col as int, n),
            decreases k - col,
        {
            assert forall|r: int| 0 <= r < k implies (#[trigger] a@[r])@.len() == k by {
                assert(grid(a@)[r] == a@[r]@);
            }
            let mut pivot: usize = col;
            while pivot < k && a[pivot][col] == 0
                invariant
                    col < k,
                    n == k,
                    col <= pivot <= k,
                    linear::square(grid(a@), n),
                    forall|r: int| col <= r < pivot ==> (#[trigger] grid(a@)[r])[col as int] == 0,
                    forall|r: int| 0 <= r < k ==> (#[trigger] a@[r])@.len() == k,
                decreases k - pivot,
            {
                assert(grid(a@)[pivot as int] == a@[pivot as int]@);
                pivot += 1;
            }
            if pivot == k {
                proof {
                    lemma_singular(mm, grid(a@), grid(b@), col as int, n);
                }
                return None;
            }
            let ghost ga = grid(a@);
            let ghost gb = grid(b@);
            let ap = copy_row(&a[pivot]);
            let ac = copy_row(&a[col]);
            let bp = copy_row(&b[pivot]);
            let bc = copy_row(&b[col]);
            proof {
                assert(ga[pivot as int] == ap@);
                assert(ga[col as int] == ac@);
                assert(gb[pivot as int] == bp@);
                assert(gb[col as int] == bc@);
            }
            let scale = t.inv(ap[col]);
            let na = scale_row(&t, &ap, scale);
            let nb = scale_row(&t, &bp, scale);
            proof {
                let a1 = ga.update(pivot as int, ac@).update(col as int, ap@);
                let b1 = gb.update(pivot as int, bc@).update(col as int, bp@);
                gf::lemma_ginv(ap@[col as int]);
                linear::lemma_swap_keeps(ga, gb, pivot as int, col as int, n);
                linear::lemma_scale_keeps(a1, b1, col as int, scale, n);
                lemma_grid_update(a@, pivot as int, ac);
                lemma_grid_update(b@, pivot as int, bc);
                lemma_grid_update(a@.update(pivot as int, ac), col as int, na);
                lemma_grid_update(b@.update(pivot as int, bc), col as int, nb);
                assert(a1.update(col as int, na@) =~= ga.update(pivot as int, ac@).update(
                    col as int,
                    na@,
                ));
                assert(b1.update(col as int, nb@) =~= gb.update(pivot as int, bc@).update(
                    col as int,
                    nb@,
                ));
            }
            a[pivot] = ac;
            a[col] = na;
            b[pivot] = bc;
            b[col] = nb;
            proof {
                lemma_pivot_row(ga, pivot as int, col as int, scale, n);
            }
            let mut r: usize = 0;
            while r < k
                invariant
                    t.wf(),
                    col < k,
                    r <= k,
                    n == k,
                    mm == grid(matrix@),
                    id == linear::identity(n),
                    linear::square(grid(a@), n),
                    linear::square(grid(b@), n),
                    linear::same_solutions(mm, id, grid(a@), grid(b@), n),
                    reduced(grid(a@), col as int, n),
                    grid(a@)[col as int][col as int] == 1,
                    forall|q: int|
                        0 <= q < r && q != col ==> (#[trigger] grid(a@)[q])[col as int] == 0,
                decreases k - r,
            {
                let ghost ga = grid(a@);
                let ghost gb = grid(b@);
                assert(ga[r as int] == a@[r as int]@);
                assert(gb[r as int] == b@[r as int]@);
                assert(ga[col as int] == a@[col as int]@);
                assert(gb[col as int] == b@[col as int]@);
                if r != col && a[r][col] != 0 {
                    let factor = a[r][col];
                    let na = combine_rows(&t, &a[r], &a[col], factor);
                    let nb = combine_rows(&t, &b[r], &b[col], factor);
                    proof {
                        linear::lemma_combine_keeps(ga, gb, r as int, col as int, factor, n);
                        lemma_grid_update(a@, r as int, na);
                        lemma_grid_update(b@, r as int, nb);
                        lemma_eliminated_row(ga, r as int, col as int, n);
                    }
                    a[r] = na;
                    b[r] = nb;
                }
                r += 1;
            }
            proof {
                lemma_column_done(grid(a@), col as int, n);
            }
            col += 1;
        }
        proof {
            lemma_inverse(mm, grid(a@), grid(b@), n);
        }
        Some(b)
    }
}

/// The first `col` columns are unit columns.
spec fn reduced(a: Seq<Seq<u8>>, col: int, k: nat) -> bool {
    forall|r: int, c: int|
        0 <= r < k && 0 <= c < col ==> #[trigger] a[r][c] == (if r == c {
            1u8
        } else {
            0u8
        })
}

/// Scaling the pivot row puts a one on the diagonal and keeps the reduced columns.
proof fn lemma_pivot_row(a: Seq<Seq<u8>>, pivot: int, col: int, scale: u8, k: nat)
    requires
        linear::square(a, k),
        0 <= col <= pivot < k,
        reduced(a, col, k),
        gf::gmul(a[pivot][col], scale) == 1,
    ensures
        ({
            let a2 = a.update(pivot, a[col]).update(col, linear::scaled(a[pivot], scale));
            &&& linear::square(a2, k)
            &&& reduced(a2, col, k)
            &&& a2[col][col] == 1
        }),
{
    let a2 = a.update(pivot, a[col]).update(col, linear::scaled(a[pivot], scale));
    gf::lemma_gmul_commutes(a[pivot][col], scale);
    assert forall|r: int, c: int| 0 <= r < k && 0 <= c < col implies #[trigger] a2[r][c] == (if r
        == c {
        1u8
    } else {
        0u8
    }) by {
        gf::lemma_gmul_units(scale);
        assert(a[r][c] == a[r][c]);
        assert(a[pivot][c] == 0);
        assert(a[col][c] == 0);
    }
}

/// Eliminating an entry keeps the reduced columns and clears the entry.
proof fn lemma_eliminated_row(a: Seq<Seq<u8>>, r0: int, col: int, k: nat)
    requires
        linear::square(a, k),
        0 <= col < k,
        0 <= r0 < k,
        r0 != col,
        reduced(a, col, k),
        a[col][col] == 1,
    ensures
        ({
            let a2 = a.update(r0, linear::combined(a[r0], a[col], a[r0][col]));
            &&& linear::square(a2, k)
            &&& reduced(a2, col, k)
            &&& a2[r0][col] == 0
        }),
{
    let f = a[r0][col];
    let a2 = a.update(r0, linear::combined(a[r0], a[col], f));
    gf::lemma_gmul_units(f);
    gf::lemma_xor(f, f, f, f);
    assert forall|r: int, c: int| 0 <= r < k && 0 <= c < col implies #[trigger] a2[r][c] == (if r
        == c {
        1u8
    } else {
        0u8
    }) by {
        assert(a[r][c] == a[r][c]);
        assert(a[col][c] == 0);
        gf::lemma_xor(a[r][c], 0, 0, 0);
    }
}

proof fn lemma_column_done(a: Seq<Seq<u8>>, col: int, k: nat)
    requires
        0 <= col < k,
        reduced(a, col, k),
        a[col][col] == 1,
        forall|q: int| 0 <= q < k && q != col ==> (#[trigger] a[q])[col] == 0,
    ensures
        reduced(a, col + 1, k),
{
}

/// A system whose elimination stops without a pivot is singular.
proof fn lemma_singular(mm: Seq<Seq<u8>>, a: Seq<Seq<u8>>, b: Seq<Seq<u8>>, col: int, k: nat)
    requires
        linear::square(mm, k),
        linear::square(a, k),
        linear::square(b, k),
        linear::same_solutions(mm, linear::identity(k), a, b, k),
        0 <= col < k,
        reduced(a, col, k),
        forall|r: int| col <= r < k ==> (#[trigger] a[r])[col] == 0,
    ensures
        exists|v: Seq<u8>|
            v.len() == k && v != zeros(k) && #[trigger] linear::apply(mm, v) == zeros(k),
{
    let v = linear::null_vector(a, col, k);
    let s = zeros(k);
    linear::lemma_no_pivot(a, col, k);
    assert(linear::solves(a, b, v, s)) by {
        assert forall|r: int| 0 <= r < a.len() implies #[trigger] linear::dot(a[r], v, v.len())
            == linear::dot(b[r], s, s.len()) by {
            linear::lemma_dot_zero(b[r], s, k);
        }
    }
    assert(linear::solves(mm, linear::identity(k), v, s));
    assert(linear::apply(mm, v) =~= s) by {
        assert forall|r: int| 0 <= r < k implies linear::apply(mm, v)[r] == s[r] by {
            assert(linear::dot(mm[r], v, v.len()) == linear::dot(
                linear::identity(k)[r],
                s,
                s.len(),
            ));
            linear::lemma_dot_zero(linear::identity(k)[r], s, k);
        }
    }
    assert(v[col] == 1);
    assert(s[col] == 0);
}

/// A fully reduced system gives the inverse.
proof fn lemma_inverse(mm: Seq<Seq<u8>>, a: Seq<Seq<u8>>, b: Seq<Seq<u8>>, k: nat)
    requires
        linear::square(mm, k),
        linear::square(a, k),
        linear::square(b, k),
        linear::same_solutions(mm, linear::identity(k), a, b, k),
        reduced(a, k as int, k),
    ensures
        forall|v: Seq<u8>, s: Seq<u8>|
            v.len() == k && s.len() == k ==> (#[trigger] linear::apply(b, s) == v
                <==> #[trigger] linear::apply(mm, v) == s),
{
    let id = linear::identity(k);
    assert forall|r: int| 0 <= r < k implies #[trigger] a[r] == linear::unit_row(k, r) by {
        assert forall|c: int| 0 <= c < k implies a[r][c] == linear::unit_row(k, r)[c] by {
            assert(a[r][c] == a[r][c]);
        }
        assert(a[r] =~= linear::unit_row(k, r));
    }
    assert forall|v: Seq<u8>, s: Seq<u8>| v.len() == k && s.len() == k implies (
    #[trigger] linear::apply(b, s) == v <==> #[trigger] linear::apply(mm, v) == s) by {
        assert(linear::solves(a, b, v, s) <==> linear::solves(mm, id, v, s));
        if linear::apply(b, s) == v {
            assert forall|r: int| 0 <= r < a.len() implies #[trigger] linear::dot(a[r], v, v.len())
                == linear::dot(b[r], s, s.len()) by {
                linear::lemma_dot_unit(v, r);
                assert(linear::apply(b, s)[r] == v[r]);
            }
            assert(linear::solves(a, b, v, s));
            assert(linear::apply(mm, v) =~= s) by {
                assert forall|r: int| 0 <= r < k implies linear::apply(mm, v)[r] == s[r] by {
                    assert(linear::dot(mm[r], v, v.len()) == linear::dot(id[r], s, s.len()));
                    linear::lemma_dot_unit(s, r);
                }
            }
        }
        if linear::apply(mm, v) == s {
            assert forall|r: int| 0 <= r < mm.len() implies #[trigger] linear::dot(
                mm[r],
                v,
                v.len(),
            ) == linear::dot(id[r], s, s.len()) by {
                linear::lemma_dot_unit(s, r);
                assert(linear::apply(mm, v)[r] == s[r]);
            }
            assert(linear::solves(mm, id, v, s));
            assert(linear::apply(b, s) =~= v) by {
                assert forall|r: int| 0 <= r < k implies linear::apply(b, s)[r] == v[r] by {
                    assert(linear::dot(a[r], v, v.len()) == linear::dot(b[r], s, s.len()));
                    linear::lemma_dot_unit(v, r);
                }
            }
        }
    }
}

proof fn lemma_quotient_up(len: nat, k: nat)
    requires
        k >= 1,
    ensures
        quotient_up(len, k) == (if len % k == 0 {
            len / k
        } else {
            len / k + 1
        }),
        len % k != 0 ==> len / k < len,
        quotient_up(len, k) * k >= len,
        len > 0 ==> quotient_up(len, k) >= 1,
        len == 0 ==> quotient_up(len, k) == 0,
{
    let q = len / k;
    let r = len % k;
    assert(len == q * k + r && r < k && (r != 0 ==> q < len)) by (nonlinear_arith)
        requires
            k >= 1,
            q == len / k,
            r == len % k,
    ;
    if r == 0 {
        assert((q * k + k - 1) / k as int == q) by (nonlinear_arith)
            requires
                k >= 1,
        ;
    } else {
        assert((q * k + r + k - 1) / k as int == q + 1) by (nonlinear_arith)
            requires
                0 < r < k,
        ;
        assert((q + 1) * k >= q * k + r) by (nonlinear_arith)
            requires
                r < k,
        ;
    }
    if len == 0 {
        assert(q == 0 && r == 0) by (nonlinear_arith)
            requires
                len == 0,
                k >= 1,
                q == len / k,
                r == len % k,
        ;
    } else if q == 0 {
        assert(r != 0) by (nonlinear_arith)
            requires
                len == q * k + r,
                q == 0,
                len > 0,
        ;
    }
}

/// The bytes at offset `b` of the first `k` rows.
pub open spec fn column_of(g: Seq<Seq<u8>>, k: nat, b: int) -> Seq<u8> {
    Seq::new(k, |j: int| g[j][b])
}

/// The combination of the first `k` data shards that `coefs` gives, over `sl` bytes.
pub open spec fn weighted(coefs: Seq<u8>, g: Seq<Seq<u8>>, k: nat, sl: nat) -> Seq<u8> {
    Seq::new(sl, |b: int| linear::dot(coefs, column_of(g, k, b), k))
}

/// The length of the first of a list of shards, zero when there is none.
pub open spec fn first_len(g: Seq<Seq<u8>>) -> nat {
    if g.len() == 0 {
        0
    } else {
        g[0].len()
    }
}

fn weigh(t: &Tables, coefs: &Vec<u8>, data: &[Vec<u8>], sl: usize) -> (r: Vec<u8>)
    requires
        t.wf(),
        forall|j: int|
            0 <= j < coefs@.len() && #[trigger] coefs@[j] != 0 && sl > 0 ==> j < data@.len()
                && data@[j]@.len() >= sl,
    ensures
        r@ == weighted(coefs@, grid(data@), coefs@.len(), sl as nat),
{
    let ghost k = coefs@.len();
    let ghost g = grid(data@);
    let mut out: Vec<u8> = Vec::with_capacity(sl);
    let mut b: usize = 0;
    while b < sl
        invariant
            t.wf(),
            b <= sl,
            k == coefs@.len(),
            g == grid(data@),
            out@.len() == b,
            forall|i: int|
                0 <= i < b ==> #[trigger] out@[i] == linear::dot(coefs@, column_of(g, k, i), k),
            forall|j: int|
                0 <= j < coefs@.len() && #[trigger] coefs@[j] != 0 && sl > 0 ==> j < data@.len()
                    && data@[j]@.len() >= sl,
        decreases sl - b,
    {
        let mut acc: u8 = 0;
        let mut j: usize = 0;
        let ghost col = column_of(g, k, b as int);
        while j < coefs.len()
            invariant
                t.wf(),
                b < sl,
                k == coefs@.len(),
                g == grid(data@),
                j <= k,
                col == column_of(g, k, b as int),
                acc == linear::dot(coefs@, col, j as nat),
                forall|j: int|
                    0 <= j < coefs@.len() && #[trigger] coefs@[j] != 0 && sl > 0 ==> j
                        < data@.len() && data@[j]@.len() >= sl,
            decreases k - j,
        {
            let c = coefs[j];
            proof {
                gf::lemma_gmul_units(col[j as int]);
                gf::lemma_xor(acc, 0, 0, 0);
            }
            if c != 0 {
                acc = acc ^ t.mul(c, data[j][b]);
            }
            j += 1;
        }
        out.push(acc);
        b += 1;
    }
    assert(out@ =~= weighted(coefs@, g, k, sl as nat));
    out
}

impl Erasure {
    /// Encode a chunk into `k + m` shards.
    pub fn encode(&self, chunk: &[u8]) -> (r: Vec<Vec<u8>>)
        requires
            self.wf(),
        ensures
            grid(r@) == shards(chunk@, self.k as nat, self.m as nat),
    {
        let ghost k = self.k as nat;
        let ghost sn = stored_len(chunk@.len(), k);
        let q = self.shard_len(chunk.len());
        let sl: usize = if q == 0 {
            1
        } else {
            q
        };
        let t = tables();
        let mut data: Vec<Vec<u8>> = Vec::with_capacity(self.k);
        let mut at: usize = 0;
        let mut i: usize = 0;
        proof {
            assert(0 * sn == 0);
        }
        while i < self.k
            invariant
                self.wf(),
                k == self.k,
                sl == sn,
                sl >= 1,
                i <= self.k,
                at == (if i * sn < chunk@.len() {
                    (i * sn) as nat
                } else {
                    chunk@.len()
                }),
                data@.len() == i,
                forall|j: int|
                    0 <= j < i ==> (#[trigger] data@[j])@ == Seq::new(
                        sn,
                        |b: int| data_byte(chunk@, sn, j, b),
                    ),
            decreases self.k - i,
        {
            let mut shard_i: Vec<u8> = Vec::with_capacity(sl);
            let ghost start = at;
            let mut b: usize = 0;
            while b < sl
                invariant
                    sl == sn,
                    b <= sl,
                    start <= at <= chunk@.len(),
                    start == (if i * sn < chunk@.len() {
                        (i * sn) as nat
                    } else {
                        chunk@.len()
                    }),
                    at == (if start + b < chunk@.len() {
                        (start + b) as nat
                    } else {
                        chunk@.len()
                    }),
                    shard_i@.len() == b,
                    forall|c: int|
                        0 <= c < b ==> #[trigger] shard_i@[c] == data_byte(
                            chunk@,
                            sn,
                            i as int,
                            c,
                        ),
                decreases sl - b,
            {
                if at < chunk.len() {
                    shard_i.push(chunk[at]);
                    at += 1;
                } else {
                    shard_i.push(0);
                }
                b += 1;
            }
            assert(shard_i@ =~= Seq::new(sn, |b: int| data_byte(chunk@, sn, i as int, b)));
            assert((i + 1) * sn == i * sn + sn) by (nonlinear_arith);
            data.push(shard_i);
            i += 1;
        }
        let ghost g = grid(data@);
        assert forall|p: int| 0 <= p < k implies #[trigger] g[p] == shard(chunk@, k, p as nat) by {
            lemma_data_shard(chunk@, k, p as nat);
            assert(g[p] =~= shard(chunk@, k, p as nat));
        }
        let mut parity: Vec<Vec<u8>> = Vec::with_capacity(self.m);
        let mut p: usize = 0;
        while p < self.m
            invariant
                self.wf(),
                k == self.k,
                sl == sn,
                sn == stored_len(chunk@.len(), k),
                t.wf(),
                p <= self.m,
                g == grid(data@),
                data@.len() == k,
                forall|j: int|
                    0 <= j < k ==> (#[trigger] data@[j])@ == Seq::new(
                        sn,
                        |b: int| data_byte(chunk@, sn, j, b),
                    ),
                parity@.len() == p,
                forall|j: int|
                    0 <= j < p ==> (#[trigger] parity@[j])@ == shard(chunk@, k, (k + j) as nat),
            decreases self.m - p,
        {
            let coefs = self.parity_row(p);
            let s = weigh(&t, &coefs, data.as_slice(), sl);
            assert(s@ =~= shard(chunk@, k, (k + p) as nat)) by {
                assert forall|b: int| 0 <= b < sn implies column_of(g, k, b) == data_column(
                    chunk@,
                    k,
                    b,
                ) by {
                    assert(column_of(g, k, b) =~= data_column(chunk@, k, b));
                }
            }
            parity.push(s);
            p += 1;
        }
        let ghost pg = grid(parity@);
        data.append(&mut parity);
        assert(grid(data@) =~= shards(chunk@, k, self.m as nat)) by {
            assert forall|j: int| 0 <= j < k + self.m implies #[trigger] grid(data@)[j] == shard(
                chunk@,
                k,
                j as nat,
            ) by {
                if j < k {
                    assert(grid(data@)[j] == g[j]);
                } else {
                    assert(grid(data@)[j] == pg[j - k]);
                }
            }
        }
        data
    }

    /// Re-encode a single shard position from the k data shards. Used by read repair to
    /// rebuild a lost shard from survivors.
    pub fn encode_position(&self, data_shards: &[Vec<u8>], pos: usize) -> (r: Vec<u8>)
        requires
            self.wf(),
            pos < self.k + self.m,
            forall|j: int|
                0 <= j < self.k && #[trigger] row(self.k as nat, pos as nat)[j] != 0 && first_len(
                    grid(data_shards@),
                ) > 0 ==> j < data_shards@.len() && data_shards@[j]@.len() >= first_len(
                    grid(data_shards@),
                ),
        ensures
            r@ == weighted(
                row(self.k as nat, pos as nat),
                grid(data_shards@),
                self.k as nat,
                first_len(grid(data_shards@)),
            ),
    {
        let t = tables();
        let coefs = self.encoding_row(pos);
        let sl: usize = if data_shards.len() == 0 {
            0
        } else {
            data_shards[0].len()
        };
        weigh(&t, &coefs, data_shards, sl)
    }

    /// Decode a chunk from shards indexed by position. A `None` entry is a missing shard.
    /// Up to `m` shards may be missing; with more this fails cleanly.
    ///
    /// Returns the reconstructed chunk truncated to `chunk_len`.
    pub fn decode(&self, shards: &[Option<&[u8]>], chunk_len: usize) -> (r: Result<Vec<u8>, Error>)
        requires
            self.wf(),
        ensures
            match r {
                Ok(c) => decoded(
                    slots_view(shards@),
                    self.k as nat,
                    self.m as nat,
                    chunk_len as nat,
                ) == Ok::<Seq<u8>, ErrorV>(c@),
                Err(e) => decoded(
                    slots_view(shards@),
                    self.k as nat,
                    self.m as nat,
                    chunk_len as nat,
                ) == Err::<Seq<u8>, ErrorV>(e@),
            },
    {
        let ghost slots = slots_view(shards@);
        let ghost k = self.k as nat;
        if shards.len() != self.k + self.m {
            return Err(Error::IntegrityError);
        }
        let mut available: Vec<usize> = Vec::new();
        let mut p: usize = 0;
        while p < shards.len()
            invariant
                p <= shards@.len(),
                slots == slots_view(shards@),
                positions(available@) == present(slots, p as nat),
            decreases shards@.len() - p,
        {
            if shards[p].is_some() {
                available.push(p);
            }
            p += 1;
            assert(positions(available@) =~= present(slots, p as nat));
        }
        assert(available@.len() == positions(available@).len());
        if available.len() < self.k {
            let mut s = text::labelled("erasure decode needs ", self.k as u64);
            s.append(" shards, ");
            text::append_decimal(&mut s, available.len() as u64);
            s.append(" available");
            return Err(Error::ChunkUnavailable(s));
        }
        available.truncate(self.k);
        let ghost at = chosen(slots, k);
        assert(positions(available@) =~= at);
        proof {
            lemma_present(slots, slots.len());
            assert forall|t: int| 0 <= t < k implies #[trigger] at[t] < slots.len()
                && slots[at[t] as int] is Some by {
                assert(at[t] == present(slots, slots.len())[t]);
            }
            assert(at.no_duplicates());
        }
        let mut m: Vec<Vec<u8>> = Vec::with_capacity(self.k);
        let mut t: usize = 0;
        while t < self.k
            invariant
                self.wf(),
                t <= self.k,
                k == self.k,
                shards@.len() == self.k + self.m,
                slots.len() == shards@.len(),
                available@.len() == k,
                positions(available@) == at,
                forall|q: int| 0 <= q < k ==> #[trigger] at[q] < slots.len(),
                m@.len() == t,
                forall|q: int| 0 <= q < t ==> (#[trigger] m@[q])@ == row(k, at[q]),
            decreases self.k - t,
        {
            assert(at[t as int] == positions(available@)[t as int]);
            m.push(self.encoding_row(available[t]));
            t += 1;
        }
        assert(grid(m@) =~= rows(k, at));
        assert(linear::square(grid(m@), k));
        let inverse = Erasure::invert(&m, self.k);
        proof {
            assert(inverse is Some) by {
                if inverse is None {
                    let v = choose|v: Seq<u8>|
                        v.len() == k && v != zeros(k) && #[trigger] linear::apply(grid(m@), v)
                            == zeros(k);
                    assert forall|q: int| 0 <= q < k implies linear::dot(
                        row(k, #[trigger] at[q]),
                        v,
                        k,
                    ) == 0 by {
                        assert(linear::apply(grid(m@), v)[q] == 0);
                    }
                    lemma_rows_independent(k, at, v);
                    assert(v =~= zeros(k));
                }
            }
        }
        let inv = match inverse {
            Some(inv) => inv,
            None => {
                return Err(Error::IntegrityError);
            },
        };
        assert(at[0] == positions(available@)[0]);
        assert(at[0] < slots.len());
        let sl: usize = match shards[available[0]] {
            Some(s) => s.len(),
            None => 0,
        };
        let mut picked: Vec<&[u8]> = Vec::with_capacity(self.k);
        let mut t: usize = 0;
        while t < self.k
            invariant
                t <= self.k,
                k == self.k,
                slots == slots_view(shards@),
                available@.len() == k,
                positions(available@) == at,
                forall|q: int|
                    0 <= q < k ==> #[trigger] at[q] < slots.len() && slots[at[q] as int] is Some,
                sl == slots[at[0] as int].unwrap().len(),
                at == chosen(slots, k),
                slots.len() == k + self.m,
                present(slots, slots.len()).len() >= k,
                picked@.len() == t,
                forall|q: int|
                    0 <= q < t ==> (#[trigger] picked@[q])@ == slots[at[q] as int].unwrap()
                        && slots[at[q] as int].unwrap().len() == sl,
            decreases self.k - t,
        {
            assert(at[t as int] == positions(available@)[t as int]);
            assert(slots[at[t as int] as int] is Some);
            match shards[available[t]] {
                Some(s) => {
                    if s.len() != sl {
                        return Err(Error::IntegrityError);
                    }
                    picked.push(s);
                },
                None => {
                    return Err(Error::IntegrityError);
                },
            }
            t += 1;
        }
        assert forall|q: int| 0 <= q < k implies slots[(#[trigger] at[q]) as int].unwrap().len()
            == sl by {
            assert(picked@[q]@ == slots[at[q] as int].unwrap());
        }
        let tb = tables();
        let mut chunk: Vec<u8> = Vec::new();
        let mut c: usize = 0;
        assert(0 * (sl as int) == 0);
        while c < self.k
            invariant
                tb.wf(),
                c <= self.k,
                k == self.k,
                picked@.len() == k,
                at.len() == k,
                forall|q: int|
                    0 <= q < k ==> (#[trigger] picked@[q])@ == slots[at[q] as int].unwrap()
                        && slots[at[q] as int].unwrap().len() == sl,
                linear::square(grid(inv@), k),
                forall|v: Seq<u8>, s: Seq<u8>|
                    v.len() == k && s.len() == k ==> (#[trigger] linear::apply(grid(inv@), s) == v
                        <==> #[trigger] linear::apply(rows(k, at), v) == s),
                chunk@.len() == c * (sl as int),
                forall|i: int|
                    0 <= i < chunk@.len() ==> #[trigger] chunk@[i] == solution(
                        k,
                        at,
                        slot_column(slots, at, i % (sl as int)),
                    )[i / (sl as int)],
            decreases self.k - c,
        {
            let mut b: usize = 0;
            while b < sl
                invariant
                    tb.wf(),
                    c < self.k,
                    b <= sl,
                    k == self.k,
                    picked@.len() == k,
                    at.len() == k,
                    forall|q: int|
                        0 <= q < k ==> (#[trigger] picked@[q])@ == slots[at[q] as int].unwrap()
                            && slots[at[q] as int].unwrap().len() == sl,
                    linear::square(grid(inv@), k),
                    forall|v: Seq<u8>, s: Seq<u8>|
                        v.len() == k && s.len() == k ==> (#[trigger] linear::apply(grid(inv@), s)
                            == v <==> #[trigger] linear::apply(rows(k, at), v) == s),
                    chunk@.len() == c * (sl as int) + b,
                    forall|i: int|
                        0 <= i < chunk@.len() ==> #[trigger] chunk@[i] == solution(
                            k,
                            at,
                            slot_column(slots, at, i % (sl as int)),
                        )[i / (sl as int)],
                decreases sl - b,
            {
                let ghost s = slot_column(slots, at, b as int);
                let mut acc: u8 = 0;
                let mut q: usize = 0;
                assert(grid(inv@)[c as int] == inv@[c as int]@);
                while q < self.k
                    invariant
                        tb.wf(),
                        q <= self.k,
                        c < self.k,
                        b < sl,
                        k == self.k,
                        picked@.len() == k,
                        at.len() == k,
                        forall|q: int|
                            0 <= q < k ==> (#[trigger] picked@[q])@ == slots[at[q] as int].unwrap()
                                && slots[at[q] as int].unwrap().len() == sl,
                        s == slot_column(slots, at, b as int),
                        inv@.len() == k,
                        inv@[c as int]@.len() == k,
                        acc == linear::dot(inv@[c as int]@, s, q as nat),
                    decreases self.k - q,
                {
                    assert(picked@[q as int]@ == slots[at[q as int] as int].unwrap());
                    assert(s[q as int] == picked@[q as int]@[b as int]);
                    acc = acc ^ tb.mul(inv[c][q], picked[q][b]);
                    q += 1;
                }
                proof {
                    let v = linear::apply(grid(inv@), s);
                    assert(linear::apply(rows(k, at), v) == s);
                    let w = solution(k, at, s);
                    assert(w.len() == k && linear::apply(rows(k, at), w) == s);
                    assert(linear::apply(grid(inv@), s) == w);
                    assert(v[c as int] == acc);
                    let i = chunk@.len() as int;
                    vstd::arithmetic::div_mod::lemma_fundamental_div_mod_converse(
                        i,
                        sl as int,
                        c as int,
                        b as int,
                    );
                }
                chunk.push(acc);
                b += 1;
            }
            assert((c + 1) * (sl as int) == c * (sl as int) + sl) by (nonlinear_arith);
            c += 1;
        }
        chunk.truncate(chunk_len);
        assert(chunk@ =~= joined(slots, at, k, sl as nat, chunk_len as nat));
        Ok(chunk)
    }
}

/// Indices as mathematical positions.
spec fn positions(s: Seq<usize>) -> Seq<nat> {
    s.map_values(|p: usize| p as nat)
}

proof fn lemma_present(slots: Seq<Option<Seq<u8>>>, n: nat)
    requires
        n <= slots.len(),
    ensures
        present(slots, n).no_duplicates(),
        forall|i: int|
            0 <= i < present(slots, n).len() ==> (#[trigger] present(slots, n)[i]) < n
                && slots[present(slots, n)[i] as int] is Some,
    decreases n,
{
    if n > 0 {
        lemma_present(slots, (n - 1) as nat);
    }
}

/// A data shard is the matching slice of the chunk.
pub proof fn lemma_data_shard(chunk: Seq<u8>, k: nat, p: nat)
    requires
        p < k,
    ensures
        shard(chunk, k, p) == Seq::new(
            stored_len(chunk.len(), k),
            |b: int| data_byte(chunk, stored_len(chunk.len(), k), p as int, b),
        ),
{
    let sl = stored_len(chunk.len(), k);
    let d = Seq::new(sl, |b: int| data_byte(chunk, sl, p as int, b));
    assert forall|b: int| 0 <= b < sl implies shard(chunk, k, p)[b] == d[b] by {
        linear::lemma_dot_unit(data_column(chunk, k, b), p as int);
    }
    assert(shard(chunk, k, p) =~= d);
}

/// Rows that map only zero to zero map different vectors to different vectors.
proof fn lemma_rows_injective(k: nat, at: Seq<nat>, v: Seq<u8>, w: Seq<u8>)
    requires
        at.len() == k,
        v.len() == k,
        w.len() == k,
        at.no_duplicates(),
        k <= 256,
        forall|t: int| 0 <= t < k ==> (#[trigger] at[t]) < 256,
        linear::apply(rows(k, at), v) == linear::apply(rows(k, at), w),
    ensures
        v == w,
{
    let x = Seq::new(k, |i: int| v[i] ^ w[i]);
    assert forall|t: int| 0 <= t < k implies linear::dot(row(k, #[trigger] at[t]), x, k) == 0 by {
        let r = row(k, at[t]);
        linear::lemma_dot_sum(r, v, w, x, k);
        assert(linear::apply(rows(k, at), v)[t] == linear::dot(r, v, k));
        assert(linear::apply(rows(k, at), w)[t] == linear::dot(r, w, k));
        gf::lemma_xor(linear::dot(r, v, k), 0, 0, 0);
    }
    lemma_rows_independent(k, at, x);
    assert forall|i: int| 0 <= i < k implies v[i] == w[i] by {
        assert(x[i] == 0);
        gf::lemma_xor(v[i], w[i], 0, 0);
    }
    assert(v =~= w);
}

/// Any `k` of the `k + m` shards of a chunk reconstruct it, whatever their positions.
pub proof fn law_any_k_shards_reconstruct(
    chunk: Seq<u8>,
    k: nat,
    m: nat,
    slots: Seq<Option<Seq<u8>>>,
)
    requires
        1 <= k,
        k + m <= 256,
        slots.len() == k + m,
        forall|p: int|
            0 <= p < slots.len() && (#[trigger] slots[p]) is Some ==> slots[p] == Some(
                shard(chunk, k, p as nat),
            ),
        present(slots, slots.len()).len() >= k,
    ensures
        decoded(slots, k, m, chunk.len()) == Ok::<Seq<u8>, ErrorV>(chunk),
{
    let at = chosen(slots, k);
    let sl = stored_len(chunk.len(), k);
    lemma_present(slots, slots.len());
    assert forall|t: int| 0 <= t < k implies (#[trigger] at[t]) < slots.len()
        && slots[at[t] as int] == Some(shard(chunk, k, at[t])) by {
        assert(at[t] == present(slots, slots.len())[t]);
        assert(slots[at[t] as int] is Some);
    }
    assert(at.no_duplicates());
    assert(slots[at[0] as int] == Some(shard(chunk, k, at[0])));
    lemma_quotient_up(chunk.len(), k);
    assert(chunk.len() <= k * sl) by (nonlinear_arith)
        requires
            quotient_up(chunk.len(), k) * k >= chunk.len(),
            sl >= quotient_up(chunk.len(), k),
    ;
    let out = joined(slots, at, k, sl, chunk.len());
    assert forall|i: int| 0 <= i < chunk.len() implies out[i] == chunk[i] by {
        let b = i % sl as int;
        let c = i / sl as int;
        vstd::arithmetic::div_mod::lemma_fundamental_div_mod(i, sl as int);
        vstd::arithmetic::div_mod::lemma_mod_bound(i, sl as int);
        assert(0 <= c < k) by (nonlinear_arith)
            requires
                0 <= i < k * sl,
                i == sl * c + b,
                0 <= b < sl,
        ;
        let d = data_column(chunk, k, b);
        let s = slot_column(slots, at, b);
        assert(linear::apply(rows(k, at), d) =~= s) by {
            assert forall|t: int| 0 <= t < k implies linear::apply(rows(k, at), d)[t] == s[t] by {
                assert(slots[at[t] as int] == Some(shard(chunk, k, at[t])));
            }
        }
        let v = solution(k, at, s);
        assert(v.len() == k && linear::apply(rows(k, at), v) == s);
        lemma_rows_injective(k, at, v, d);
        assert(sl * c == c * sl) by (nonlinear_arith);
        assert(d[c] == chunk[i]);
    }
    assert(out =~= chunk);
}

/// Re-encoding a position from the data shards of a chunk gives the shard of that position.
pub proof fn law_reencoded_shard(chunk: Seq<u8>, k: nat, m: nat, pos: nat)
    requires
        1 <= k,
        pos < k + m,
    ensures
        weighted(
            row(k, pos),
            shards(chunk, k, m).take(k as int),
            k,
            first_len(shards(chunk, k, m).take(k as int)),
        ) == shard(chunk, k, pos),
{
    let g = shards(chunk, k, m).take(k as int);
    let sl = stored_len(chunk.len(), k);
    assert(g[0] == shard(chunk, k, 0));
    assert forall|b: int| 0 <= b < sl implies column_of(g, k, b) == data_column(chunk, k, b) by {
        assert forall|j: int| 0 <= j < k implies column_of(g, k, b)[j] == data_column(
            chunk,
            k,
            b,
        )[j] by {
            lemma_data_shard(chunk, k, j as nat);
            assert(g[j] == shard(chunk, k, j as nat));
        }
        assert(column_of(g, k, b) =~= data_column(chunk, k, b));
    }
    assert(weighted(row(k, pos), g, k, first_len(g)) =~= shard(chunk, k, pos));
}

} // verus!

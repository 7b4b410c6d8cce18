//! Linear algebra over GF(2^8): dot products, systems of equations, and the Cauchy systems
//! that make every selection of encoding rows invertible.

use crate::gf;
use vstd::prelude::*;

verus! {

/// The dot product of the first `n` entries of `row` and `v`.
pub open spec fn dot(row: Seq<u8>, v: Seq<u8>, n: nat) -> u8
    decreases n,
{
    if n == 0 {
        0
    } else {
        dot(row, v, (n - 1) as nat) ^ gf::gmul(row[n - 1], v[n - 1])
    }
}

/// A row multiplied by a constant.
pub open spec fn scaled(row: Seq<u8>, c: u8) -> Seq<u8> {
    Seq::new(row.len(), |i: int| gf::gmul(c, row[i]))
}

/// A row plus a multiple of another row.
pub open spec fn combined(row: Seq<u8>, other: Seq<u8>, c: u8) -> Seq<u8> {
    Seq::new(row.len(), |i: int| row[i] ^ gf::gmul(c, other[i]))
}

/// The unit row of length `k` with a one at position `p`.
pub open spec fn unit_row(k: nat, p: int) -> Seq<u8> {
    Seq::new(k, |j: int| if j == p { 1u8 } else { 0u8 })
}

/// The identity matrix of size `k`.
pub open spec fn identity(k: nat) -> Seq<Seq<u8>> {
    Seq::new(k, |r: int| unit_row(k, r))
}

/// The matrix `m` applied to the vector `v`.
pub open spec fn apply(m: Seq<Seq<u8>>, v: Seq<u8>) -> Seq<u8> {
    Seq::new(m.len(), |r: int| dot(m[r], v, v.len()))
}

/// Whether every equation `a[r] . v == b[r] . s` holds.
pub open spec fn solves(a: Seq<Seq<u8>>, b: Seq<Seq<u8>>, v: Seq<u8>, s: Seq<u8>) -> bool {
    forall|r: int|
        0 <= r < a.len() ==> #[trigger] dot(a[r], v, v.len()) == dot(b[r], s, s.len())
}

/// A square matrix of size `k`.
pub open spec fn square(m: Seq<Seq<u8>>, k: nat) -> bool {
    &&& m.len() == k
    &&& forall|r: int| 0 <= r < k ==> (#[trigger] m[r]).len() == k
}

/// Two systems of `k` equations with the same solutions.
pub open spec fn same_solutions(
    a: Seq<Seq<u8>>,
    b: Seq<Seq<u8>>,
    a2: Seq<Seq<u8>>,
    b2: Seq<Seq<u8>>,
    k: nat,
) -> bool {
    forall|v: Seq<u8>, s: Seq<u8>|
        v.len() == k && s.len() == k ==> (#[trigger] solves(a2, b2, v, s) <==> solves(a, b, v, s))
}

pub proof fn lemma_dot_scaled(row: Seq<u8>, c: u8, v: Seq<u8>, n: nat)
    requires
        n <= row.len(),
    ensures
        dot(scaled(row, c), v, n) == gf::gmul(c, dot(row, v, n)),
    decreases n,
{
    if n == 0 {
        gf::lemma_gmul_units(c);
    } else {
        let m = (n - 1) as nat;
        lemma_dot_scaled(row, c, v, m);
        gf::lemma_gmul_associates(c, row[n - 1], v[n - 1]);
        gf::lemma_gmul_distributes(c, dot(row, v, m), gf::gmul(row[n - 1], v[n - 1]));
    }
}

pub proof fn lemma_dot_combined(row: Seq<u8>, other: Seq<u8>, c: u8, v: Seq<u8>, n: nat)
    requires
        n <= row.len(),
        n <= other.len(),
    ensures
        dot(combined(row, other, c), v, n) == dot(row, v, n) ^ gf::gmul(c, dot(other, v, n)),
    decreases n,
{
    if n == 0 {
        gf::lemma_gmul_units(c);
        gf::lemma_xor(0, 0, 0, 0);
    } else {
        let m = (n - 1) as nat;
        lemma_dot_combined(row, other, c, v, m);
        let (r, o, x): (u8, u8, u8) = (row[n - 1], other[n - 1], v[n - 1]);
        gf::lemma_gmul_distributes_left(r, gf::gmul(c, o), x);
        gf::lemma_gmul_associates(c, o, x);
        gf::lemma_gmul_distributes(c, dot(other, v, m), gf::gmul(o, x));
        let (p, q, s, t): (u8, u8, u8, u8) = (
            dot(row, v, m),
            gf::gmul(c, dot(other, v, m)),
            gf::gmul(r, x),
            gf::gmul(c, gf::gmul(o, x)),
        );
        gf::lemma_xor(p, q, s, t);
    }
}

/// Positions where either factor is zero do not contribute.
pub proof fn lemma_dot_tail(row: Seq<u8>, v: Seq<u8>, m: nat, n: nat)
    requires
        m <= n,
        forall|i: int| m <= i < n ==> #[trigger] row[i] == 0 || v[i] == 0,
    ensures
        dot(row, v, n) == dot(row, v, m),
    decreases n,
{
    if m < n {
        lemma_dot_tail(row, v, m, (n - 1) as nat);
        gf::lemma_gmul_nonzero(row[n - 1], v[n - 1]);
        let d = dot(row, v, m);
        gf::lemma_xor(d, d, d, d);
    }
}

/// A dot product with one contributing position.
pub proof fn lemma_dot_single(row: Seq<u8>, v: Seq<u8>, p: int, n: nat)
    requires
        0 <= p < n,
        forall|i: int| 0 <= i < n && i != p ==> #[trigger] row[i] == 0 || v[i] == 0,
    ensures
        dot(row, v, n) == gf::gmul(row[p], v[p]),
{
    lemma_dot_tail(row, v, 0, p as nat);
    lemma_dot_tail(row, v, (p + 1) as nat, n);
    let d = gf::gmul(row[p], v[p]);
    gf::lemma_xor(d, d, d, d);
}

/// The dot product is additive in the vector.
pub proof fn lemma_dot_sum(row: Seq<u8>, v: Seq<u8>, w: Seq<u8>, x: Seq<u8>, n: nat)
    requires
        forall|i: int| 0 <= i < n ==> #[trigger] x[i] == v[i] ^ w[i],
    ensures
        dot(row, x, n) == dot(row, v, n) ^ dot(row, w, n),
    decreases n,
{
    if n == 0 {
        gf::lemma_xor(0, 0, 0, 0);
    } else {
        let m = (n - 1) as nat;
        lemma_dot_sum(row, v, w, x, m);
        let i = n - 1;
        gf::lemma_gmul_distributes(row[i], v[i], w[i]);
        gf::lemma_xor(
            dot(row, v, m),
            dot(row, w, m),
            gf::gmul(row[i], v[i]),
            gf::gmul(row[i], w[i]),
        );
    }
}

/// A unit row selects an entry.
pub proof fn lemma_dot_unit(v: Seq<u8>, p: int)
    requires
        0 <= p < v.len(),
    ensures
        dot(unit_row(v.len(), p), v, v.len()) == v[p],
{
    lemma_dot_single(unit_row(v.len(), p), v, p, v.len());
    gf::lemma_gmul_units(v[p]);
}

pub proof fn lemma_dot_zero(row: Seq<u8>, v: Seq<u8>, n: nat)
    requires
        forall|i: int| 0 <= i < n ==> #[trigger] v[i] == 0,
    ensures
        dot(row, v, n) == 0,
    decreases n,
{
    if n > 0 {
        lemma_dot_zero(row, v, (n - 1) as nat);
        gf::lemma_gmul_units(row[n - 1]);
        gf::lemma_xor(0, 0, 0, 0);
    }
}

/// Exchanging two equations keeps the solutions.
pub proof fn lemma_swap_keeps(a: Seq<Seq<u8>>, b: Seq<Seq<u8>>, p: int, q: int, k: nat)
    requires
        square(a, k),
        square(b, k),
        0 <= p < k,
        0 <= q < k,
    ensures
        same_solutions(
            a,
            b,
            a.update(p, a[q]).update(q, a[p]),
            b.update(p, b[q]).update(q, b[p]),
            k,
        ),
{
    let a2 = a.update(p, a[q]).update(q, a[p]);
    let b2 = b.update(p, b[q]).update(q, b[p]);
    assert forall|v: Seq<u8>, s: Seq<u8>| v.len() == k && s.len() == k implies (
    #[trigger] solves(a2, b2, v, s) <==> solves(a, b, v, s)) by {
        if solves(a2, b2, v, s) {
            assert forall|r: int| 0 <= r < a.len() implies #[trigger] dot(a[r], v, v.len()) == dot(
                b[r],
                s,
                s.len(),
            ) by {
                let r2 = if r == p {
                    q
                } else if r == q {
                    p
                } else {
                    r
                };
                assert(dot(a2[r2], v, v.len()) == dot(b2[r2], s, s.len()));
            }
        }
        if solves(a, b, v, s) {
            assert forall|r: int| 0 <= r < a2.len() implies #[trigger] dot(a2[r], v, v.len())
                == dot(b2[r], s, s.len()) by {
                let r2 = if r == p {
                    q
                } else if r == q {
                    p
                } else {
                    r
                };
                assert(dot(a[r2], v, v.len()) == dot(b[r2], s, s.len()));
            }
        }
    }
}

/// Scaling an equation by a nonzero constant keeps the solutions.
pub proof fn lemma_scale_keeps(a: Seq<Seq<u8>>, b: Seq<Seq<u8>>, p: int, c: u8, k: nat)
    requires
        square(a, k),
        square(b, k),
        0 <= p < k,
        c != 0,
    ensures
        same_solutions(a, b, a.update(p, scaled(a[p], c)), b.update(p, scaled(b[p], c)), k),
{
    let a2 = a.update(p, scaled(a[p], c));
    let b2 = b.update(p, scaled(b[p], c));
    assert forall|v: Seq<u8>, s: Seq<u8>| v.len() == k && s.len() == k implies (
    #[trigger] solves(a2, b2, v, s) <==> solves(a, b, v, s)) by {
        lemma_dot_scaled(a[p], c, v, k);
        lemma_dot_scaled(b[p], c, s, k);
        let (x, y): (u8, u8) = (dot(a[p], v, k), dot(b[p], s, k));
        if solves(a2, b2, v, s) {
            assert forall|r: int| 0 <= r < a.len() implies #[trigger] dot(a[r], v, v.len()) == dot(
                b[r],
                s,
                s.len(),
            ) by {
                assert(dot(a2[r], v, v.len()) == dot(b2[r], s, s.len()));
                if r == p {
                    gf::lemma_gmul_cancels(c, x, y);
                }
            }
        }
        if solves(a, b, v, s) {
            assert forall|r: int| 0 <= r < a2.len() implies #[trigger] dot(a2[r], v, v.len())
                == dot(b2[r], s, s.len()) by {
                assert(dot(a[r], v, v.len()) == dot(b[r], s, s.len()));
            }
        }
    }
}

/// Adding a multiple of one equation to another keeps the solutions.
pub proof fn lemma_combine_keeps(
    a: Seq<Seq<u8>>,
    b: Seq<Seq<u8>>,
    r0: int,
    p: int,
    c: u8,
    k: nat,
)
    requires
        square(a, k),
        square(b, k),
        0 <= p < k,
        0 <= r0 < k,
        r0 != p,
    ensures
        same_solutions(
            a,
            b,
            a.update(r0, combined(a[r0], a[p], c)),
            b.update(r0, combined(b[r0], b[p], c)),
            k,
        ),
{
    let a2 = a.update(r0, combined(a[r0], a[p], c));
    let b2 = b.update(r0, combined(b[r0], b[p], c));
    assert forall|v: Seq<u8>, s: Seq<u8>| v.len() == k && s.len() == k implies (
    #[trigger] solves(a2, b2, v, s) <==> solves(a, b, v, s)) by {
        lemma_dot_combined(a[r0], a[p], c, v, k);
        lemma_dot_combined(b[r0], b[p], c, s, k);
        let (x, y): (u8, u8) = (dot(a[r0], v, k), dot(b[r0], s, k));
        let z = gf::gmul(c, dot(a[p], v, k));
        if solves(a2, b2, v, s) {
            assert(dot(a2[p], v, v.len()) == dot(b2[p], s, s.len()));
            assert forall|r: int| 0 <= r < a.len() implies #[trigger] dot(a[r], v, v.len()) == dot(
                b[r],
                s,
                s.len(),
            ) by {
                assert(dot(a2[r], v, v.len()) == dot(b2[r], s, s.len()));
                if r == r0 {
                    gf::lemma_xor(x, y, z, z);
                }
            }
        }
        if solves(a, b, v, s) {
            assert(dot(a[p], v, v.len()) == dot(b[p], s, s.len()));
            assert forall|r: int| 0 <= r < a2.len() implies #[trigger] dot(a2[r], v, v.len())
                == dot(b2[r], s, s.len()) by {
                assert(dot(a[r], v, v.len()) == dot(b[r], s, s.len()));
            }
        }
    }
}

/// The vector that a column without a pivot exposes.
pub open spec fn null_vector(a: Seq<Seq<u8>>, col: int, k: nat) -> Seq<u8> {
    Seq::new(
        k,
        |i: int|
            if i < col {
                a[i][col]
            } else if i == col {
                1u8
            } else {
                0u8
            },
    )
}

/// A matrix whose first `col` columns are reduced and whose column `col` has no pivot
/// maps a nonzero vector to zero.
pub proof fn lemma_no_pivot(a: Seq<Seq<u8>>, col: int, k: nat)
    requires
        square(a, k),
        0 <= col < k,
        forall|r: int, c: int|
            0 <= r < k && 0 <= c < col ==> #[trigger] a[r][c] == (if r == c {
                1u8
            } else {
                0u8
            }),
        forall|r: int| col <= r < k ==> (#[trigger] a[r])[col] == 0,
    ensures
        forall|r: int|
            0 <= r < k ==> #[trigger] dot(a[r], null_vector(a, col, k), k) == 0,
{
    let v = null_vector(a, col, k);
    assert forall|r: int| 0 <= r < k implies #[trigger] dot(a[r], v, k) == 0 by {
        let row = a[r];
        assert forall|i: int| 0 <= i < col && i != r implies #[trigger] row[i] == 0 || v[i] == 0 by {
            assert(a[r][i] == 0);
        }
        lemma_dot_tail(row, v, (col + 1) as nat, k);
        let d = dot(row, v, col as nat);
        if r < col {
            lemma_dot_single(row, v, r, col as nat);
            assert(a[r][r] == 1);
            gf::lemma_gmul_units(v[r]);
            gf::lemma_gmul_units(row[col]);
            gf::lemma_xor(d, d, d, d);
        } else {
            lemma_dot_tail(row, v, 0, col as nat);
            gf::lemma_gmul_units(1);
            gf::lemma_xor(0, 0, 0, 0);
        }
    }
}

/// The sum of `v[j] / (x + ys[j])` over the first `n` positions.
pub open spec fn cauchy_sum(v: Seq<u8>, ys: Seq<u8>, x: u8, n: nat) -> u8
    decreases n,
{
    if n == 0 {
        0
    } else {
        cauchy_sum(v, ys, x, (n - 1) as nat) ^ gf::gmul(v[n - 1], gf::ginv(x ^ ys[n - 1]))
    }
}

/// The sum of the first `n` entries.
pub open spec fn plain_sum(v: Seq<u8>, n: nat) -> u8
    decreases n,
{
    if n == 0 {
        0
    } else {
        plain_sum(v, (n - 1) as nat) ^ v[n - 1]
    }
}

/// Multiplying a Cauchy sum by `x + y` splits off the plain sum of its coefficients.
proof fn lemma_cauchy_split(v: Seq<u8>, ys: Seq<u8>, x: u8, y: u8, n: nat)
    requires
        n <= v.len(),
        n <= ys.len(),
        forall|j: int| 0 <= j < n ==> x != #[trigger] ys[j],
    ensures
        gf::gmul(x ^ y, cauchy_sum(v, ys, x, n)) == plain_sum(v, n) ^ cauchy_sum(
            Seq::new(v.len(), |j: int| gf::gmul(v[j], ys[j] ^ y)),
            ys,
            x,
            n,
        ),
    decreases n,
{
    let w = Seq::new(v.len(), |j: int| gf::gmul(v[j], ys[j] ^ y));
    if n == 0 {
        gf::lemma_gmul_units(x ^ y);
        gf::lemma_xor(0, 0, 0, 0);
    } else {
        let m = (n - 1) as nat;
        lemma_cauchy_split(v, ys, x, y, m);
        let (vj, yj): (u8, u8) = (v[n - 1], ys[n - 1]);
        let d = x ^ yj;
        gf::lemma_xor(x, yj, x, yj);
        gf::lemma_xor(x, y, yj, yj);
        let i = gf::ginv(d);
        gf::lemma_ginv(d);
        let c = cauchy_sum(v, ys, x, m);
        gf::lemma_gmul_distributes(x ^ y, c, gf::gmul(vj, i));
        // (x + y) * (vj / d) = vj + (vj * (yj + y)) / d
        let t = gf::gmul(vj, i);
        gf::lemma_gmul_distributes_left(d, yj ^ y, t);
        gf::lemma_gmul_commutes(d, t);
        gf::lemma_gmul_associates(vj, i, d);
        gf::lemma_gmul_commutes(i, d);
        gf::lemma_gmul_units(vj);
        assert(gf::gmul(d, t) == vj);
        gf::lemma_gmul_commutes(yj ^ y, t);
        gf::lemma_gmul_associates(vj, i, yj ^ y);
        gf::lemma_gmul_commutes(i, yj ^ y);
        gf::lemma_gmul_associates(vj, yj ^ y, i);
        let e = gf::gmul(w[n - 1], i);
        assert(gf::gmul(yj ^ y, t) == e);
        let (p, q): (u8, u8) = (plain_sum(v, m), cauchy_sum(w, ys, x, m));
        gf::lemma_xor(p, q, vj, e);
    }
}

/// The difference of two Cauchy sums at `x` and `z` is a multiple of `x + z`.
proof fn lemma_cauchy_difference(w: Seq<u8>, ys: Seq<u8>, x: u8, z: u8, n: nat)
    requires
        n <= w.len(),
        n <= ys.len(),
        forall|j: int| 0 <= j < n ==> x != #[trigger] ys[j],
        forall|j: int| 0 <= j < n ==> z != #[trigger] ys[j],
    ensures
        cauchy_sum(w, ys, x, n) ^ cauchy_sum(w, ys, z, n) == gf::gmul(
            x ^ z,
            cauchy_sum(Seq::new(w.len(), |j: int| gf::gmul(w[j], gf::ginv(z ^ ys[j]))), ys, x, n),
        ),
    decreases n,
{
    let u = Seq::new(w.len(), |j: int| gf::gmul(w[j], gf::ginv(z ^ ys[j])));
    if n == 0 {
        gf::lemma_gmul_units(x ^ z);
        gf::lemma_xor(0, 0, 0, 0);
    } else {
        let m = (n - 1) as nat;
        lemma_cauchy_difference(w, ys, x, z, m);
        let (wj, yj): (u8, u8) = (w[n - 1], ys[n - 1]);
        let (dx, dz): (u8, u8) = (x ^ yj, z ^ yj);
        gf::lemma_xor(x, yj, x, yj);
        gf::lemma_xor(z, yj, z, yj);
        gf::lemma_xor(x, z, yj, yj);
        let (ix, iz): (u8, u8) = (gf::ginv(dx), gf::ginv(dz));
        gf::lemma_ginv(dx);
        gf::lemma_ginv(dz);
        let c = cauchy_sum(u, ys, x, m);
        let t = gf::gmul(u[n - 1], ix);
        gf::lemma_gmul_distributes(x ^ z, c, t);
        gf::lemma_gmul_distributes_left(dx, dz, t);
        // dx * (wj * iz * ix) = wj * iz
        gf::lemma_gmul_commutes(dx, t);
        gf::lemma_gmul_associates(u[n - 1], ix, dx);
        gf::lemma_gmul_commutes(ix, dx);
        gf::lemma_gmul_units(u[n - 1]);
        assert(gf::gmul(dx, t) == gf::gmul(wj, iz));
        // dz * (wj * iz * ix) = wj * ix
        gf::lemma_gmul_commutes(dz, t);
        gf::lemma_gmul_associates(wj, iz, ix);
        gf::lemma_gmul_commutes(iz, ix);
        gf::lemma_gmul_associates(wj, ix, iz);
        gf::lemma_gmul_associates(gf::gmul(wj, ix), iz, dz);
        gf::lemma_gmul_commutes(iz, dz);
        gf::lemma_gmul_units(gf::gmul(wj, ix));
        assert(gf::gmul(dz, t) == gf::gmul(wj, ix));
        let (p, q): (u8, u8) = (cauchy_sum(w, ys, x, m), cauchy_sum(w, ys, z, m));
        let (e, f): (u8, u8) = (gf::gmul(wj, ix), gf::gmul(wj, iz));
        gf::lemma_xor(p, e, q, f);
        gf::lemma_xor(e, f, e, f);
    }
}

proof fn lemma_cauchy_zero_tail(v: Seq<u8>, ys: Seq<u8>, x: u8, n: nat)
    requires
        forall|j: int| 0 <= j < n ==> #[trigger] v[j] == 0,
    ensures
        cauchy_sum(v, ys, x, n) == 0,
    decreases n,
{
    if n > 0 {
        lemma_cauchy_zero_tail(v, ys, x, (n - 1) as nat);
        gf::lemma_gmul_units(gf::ginv(x ^ ys[n - 1]));
        gf::lemma_xor(0, 0, 0, 0);
    }
}

pub proof fn lemma_cauchy_prefix(v: Seq<u8>, ys: Seq<u8>, v2: Seq<u8>, ys2: Seq<u8>, x: u8, n: nat)
    requires
        forall|j: int| 0 <= j < n ==> #[trigger] v[j] == v2[j] && ys[j] == ys2[j],
    ensures
        cauchy_sum(v, ys, x, n) == cauchy_sum(v2, ys2, x, n),
    decreases n,
{
    if n > 0 {
        lemma_cauchy_prefix(v, ys, v2, ys2, x, (n - 1) as nat);
        assert(v[n - 1] == v2[n - 1]);
    }
}

/// A square Cauchy system with distinct nodes has only the zero solution.
pub proof fn lemma_cauchy(xs: Seq<u8>, ys: Seq<u8>, v: Seq<u8>)
    requires
        xs.len() == v.len(),
        ys.len() == v.len(),
        xs.no_duplicates(),
        ys.no_duplicates(),
        forall|i: int, j: int|
            0 <= i < xs.len() && 0 <= j < ys.len() ==> #[trigger] xs[i] != #[trigger] ys[j],
        forall|i: int| 0 <= i < xs.len() ==> #[trigger] cauchy_sum(v, ys, xs[i], v.len()) == 0,
    ensures
        forall|j: int| 0 <= j < v.len() ==> #[trigger] v[j] == 0,
    decreases v.len(),
{
    let t = v.len();
    if t > 0 {
        let m = (t - 1) as nat;
        let (x, y): (u8, u8) = (xs[t - 1], ys[t - 1]);
        let w = Seq::new(t, |j: int| gf::gmul(v[j], ys[j] ^ y));
        let u = Seq::new(t, |j: int| gf::gmul(w[j], gf::ginv(x ^ ys[j])));
        let s = plain_sum(v, t);
        gf::lemma_xor(y, y, y, y);
        gf::lemma_gmul_units(v[t - 1]);
        assert(w[t - 1] == 0);
        assert forall|i: int| 0 <= i < t implies #[trigger] cauchy_sum(w, ys, xs[i], m) == s by {
            let xi = xs[i];
            assert(cauchy_sum(v, ys, xs[i], v.len()) == 0);
            lemma_cauchy_split(v, ys, xi, y, t);
            gf::lemma_gmul_units(xi ^ y);
            gf::lemma_gmul_units(gf::ginv(xi ^ ys[t - 1]));
            let c = cauchy_sum(w, ys, xi, m);
            gf::lemma_xor(c, c, c, c);
            gf::lemma_xor(s, c, s, c);
        }
        let xs1 = xs.drop_last();
        let ys1 = ys.drop_last();
        let u1 = u.drop_last();
        assert forall|i: int| 0 <= i < xs1.len() implies #[trigger] cauchy_sum(
            u1,
            ys1,
            xs1[i],
            u1.len(),
        ) == 0 by {
            let xi = xs[i];
            assert(cauchy_sum(w, ys, xs[i], m) == s);
            assert(cauchy_sum(w, ys, xs[t - 1], m) == s);
            lemma_cauchy_difference(w, ys, xi, x, m);
            lemma_cauchy_prefix(u, ys, u1, ys1, xi, m);
            gf::lemma_xor(s, s, s, s);
            assert(xi != x);
            gf::lemma_xor(xi, x, xi, x);
            gf::lemma_gmul_nonzero(xi ^ x, cauchy_sum(u, ys, xi, m));
        }
        lemma_cauchy(xs1, ys1, u1);
        assert forall|j: int| 0 <= j < m implies #[trigger] v[j] == 0 by {
            assert(u1[j] == 0);
            let yj = ys[j];
            assert(x != yj);
            gf::lemma_xor(x, yj, x, yj);
            gf::lemma_ginv(x ^ yj);
            gf::lemma_gmul_nonzero(w[j], gf::ginv(x ^ yj));
            assert(yj != y);
            gf::lemma_xor(yj, y, yj, y);
            gf::lemma_gmul_nonzero(v[j], yj ^ y);
        }
        lemma_cauchy_zero_tail(v, ys, xs[0], m);
        assert(cauchy_sum(v, ys, xs[0], v.len()) == 0);
        let x0 = xs[0];
        assert(x0 != y);
        gf::lemma_xor(x0, y, x0, y);
        gf::lemma_ginv(x0 ^ y);
        let g = gf::gmul(v[t - 1], gf::ginv(x0 ^ y));
        gf::lemma_xor(g, g, g, g);
        gf::lemma_gmul_nonzero(v[t - 1], gf::ginv(x0 ^ y));
    }
}

} // verus!

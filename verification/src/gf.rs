//! Arithmetic in the field with 256 elements.

use vstd::prelude::*;

verus! {

/// Multiplication by the generator 2: a left shift reduced by the primitive polynomial 0x11d.
pub open spec fn xtime(a: u8) -> u8 {
    if a & 0x80 == 0 { a << 1 } else { (a << 1) ^ 0x1d }
}

/// `a` when bit `mask` of `b` is set, zero otherwise.
pub open spec fn pick(a: u8, b: u8, mask: u8) -> u8 {
    if b & mask == 0 { 0 } else { a }
}

/// The field product: the polynomial product of `a` and `b` over GF(2), reduced modulo 0x11d.
pub open spec fn gmul(a: u8, b: u8) -> u8 {
    pick(a, b, 1) ^ pick(xtime(a), b, 2) ^ pick(xtime(xtime(a)), b, 4)
        ^ pick(xtime(xtime(xtime(a))), b, 8) ^ pick(xtime(xtime(xtime(xtime(a)))), b, 16)
        ^ pick(xtime(xtime(xtime(xtime(xtime(a))))), b, 32)
        ^ pick(xtime(xtime(xtime(xtime(xtime(xtime(a)))))), b, 64)
        ^ pick(xtime(xtime(xtime(xtime(xtime(xtime(xtime(a))))))), b, 128)
}

/// The laws of exclusive or.
pub proof fn lemma_xor(a: u8, b: u8, c: u8, d: u8)
    ensures
        a ^ a == 0,
        a ^ 0 == a,
        0 ^ a == a,
        a ^ b == b ^ a,
        a ^ b == 0 <==> a == b,
        a ^ c == b ^ c ==> a == b,
        a ^ b == (a ^ c) ^ (c ^ b),
        a ^ b == (a ^ c) ^ (b ^ c),
        (a ^ b) ^ c == a ^ (b ^ c),
        (a ^ b) ^ (c ^ d) == (a ^ c) ^ (b ^ d),
{
    assert(a ^ a == 0 && a ^ 0 == a && 0 ^ a == a && a ^ b == b ^ a && (a ^ b == 0 <==> a == b) && (a
        ^ c == b ^ c ==> a == b) && a ^ b == (a ^ c) ^ (c ^ b) && a ^ b == (a ^ c) ^ (b ^ c) && (a
        ^ b) ^ c == a ^ (b ^ c) && (a ^ b) ^ (c ^ d) == (a ^ c) ^ (b ^ d)) by (bit_vector);
}

/// Doubling is additive.
proof fn lemma_xtime_linear(a: u8, b: u8)
    ensures
        xtime(a ^ b) == xtime(a) ^ xtime(b),
        xtime(0) == 0,
{
    assert(xtime(a ^ b) == xtime(a) ^ xtime(b) && xtime(0) == 0) by (bit_vector);
}

/// The product is additive in its second factor.
pub proof fn lemma_gmul_distributes(a: u8, b: u8, c: u8)
    ensures
        gmul(a, b ^ c) == gmul(a, b) ^ gmul(a, c),
{
    assert(gmul(a, b ^ c) == gmul(a, b) ^ gmul(a, c)) by (bit_vector);
}

/// The product is additive in its first factor.
pub proof fn lemma_gmul_distributes_left(a: u8, b: u8, c: u8)
    ensures
        gmul(a ^ b, c) == gmul(a, c) ^ gmul(b, c),
{
    let (a1, b1): (u8, u8) = (xtime(a), xtime(b));
    let (a2, b2): (u8, u8) = (xtime(a1), xtime(b1));
    let (a3, b3): (u8, u8) = (xtime(a2), xtime(b2));
    let (a4, b4): (u8, u8) = (xtime(a3), xtime(b3));
    let (a5, b5): (u8, u8) = (xtime(a4), xtime(b4));
    let (a6, b6): (u8, u8) = (xtime(a5), xtime(b5));
    let (a7, b7): (u8, u8) = (xtime(a6), xtime(b6));
    lemma_xtime_linear(a, b);
    lemma_xtime_linear(a1, b1);
    lemma_xtime_linear(a2, b2);
    lemma_xtime_linear(a3, b3);
    lemma_xtime_linear(a4, b4);
    lemma_xtime_linear(a5, b5);
    lemma_xtime_linear(a6, b6);
    assert(pick(a ^ b, c, 1) ^ pick(a1 ^ b1, c, 2) ^ pick(a2 ^ b2, c, 4) ^ pick(a3 ^ b3, c, 8)
        ^ pick(a4 ^ b4, c, 16) ^ pick(a5 ^ b5, c, 32) ^ pick(a6 ^ b6, c, 64) ^ pick(
        a7 ^ b7,
        c,
        128,
    ) == (pick(a, c, 1) ^ pick(a1, c, 2) ^ pick(a2, c, 4) ^ pick(a3, c, 8) ^ pick(a4, c, 16) ^ pick(
        a5,
        c,
        32,
    ) ^ pick(a6, c, 64) ^ pick(a7, c, 128)) ^ (pick(b, c, 1) ^ pick(b1, c, 2) ^ pick(b2, c, 4)
        ^ pick(b3, c, 8) ^ pick(b4, c, 16) ^ pick(b5, c, 32) ^ pick(b6, c, 64) ^ pick(b7, c, 128)))
        by (bit_vector);
}

/// Zero annihilates, one is neutral, two is the generator.
pub proof fn lemma_gmul_units(a: u8)
    ensures
        gmul(a, 0) == 0,
        gmul(0, a) == 0,
        gmul(a, 1) == a,
        gmul(1, a) == a,
        gmul(a, 2) == xtime(a),
{
    assert(gmul(a, 1) == a && gmul(a, 0) == 0 && gmul(a, 2) == xtime(a) && gmul(0, a) == 0 && gmul(
        1,
        a,
    ) == a) by (bit_vector);
}

/// Doubling the first factor doubles the product.
proof fn lemma_gmul_xtime(a: u8, b: u8)
    ensures
        gmul(xtime(a), b) == xtime(gmul(a, b)),
{
    let a1 = xtime(a);
    let a2 = xtime(a1);
    let a3 = xtime(a2);
    let a4 = xtime(a3);
    let a5 = xtime(a4);
    let a6 = xtime(a5);
    let a7 = xtime(a6);
    let p0 = pick(a, b, 1);
    let p1 = p0 ^ pick(a1, b, 2);
    let p2 = p1 ^ pick(a2, b, 4);
    let p3 = p2 ^ pick(a3, b, 8);
    let p4 = p3 ^ pick(a4, b, 16);
    let p5 = p4 ^ pick(a5, b, 32);
    let p6 = p5 ^ pick(a6, b, 64);
    lemma_xtime_linear(p0, pick(a1, b, 2));
    lemma_xtime_linear(p1, pick(a2, b, 4));
    lemma_xtime_linear(p2, pick(a3, b, 8));
    lemma_xtime_linear(p3, pick(a4, b, 16));
    lemma_xtime_linear(p4, pick(a5, b, 32));
    lemma_xtime_linear(p5, pick(a6, b, 64));
    lemma_xtime_linear(p6, pick(a7, b, 128));
}

/// The field product is commutative.
pub proof fn lemma_gmul_commutes(a: u8, b: u8)
    ensures
        gmul(a, b) == gmul(b, a),
{
    let (b0, b1, b2, b3): (u8, u8, u8, u8) = (b & 1, b & 2, b & 4, b & 8);
    let (b4, b5, b6, b7): (u8, u8, u8, u8) = (b & 16, b & 32, b & 64, b & 128);
    assert((b & 1) ^ (b & 2) ^ (b & 4) ^ (b & 8) ^ (b & 16) ^ (b & 32) ^ (b & 64) ^ (b & 128) == b
        && (b & 1 == 0 || b & 1 == 1) && (b & 2 == 0 || b & 2 == 2) && (b & 4 == 0 || b & 4 == 4)
        && (b & 8 == 0 || b & 8 == 8) && (b & 16 == 0 || b & 16 == 16) && (b & 32 == 0 || b & 32
        == 32) && (b & 64 == 0 || b & 64 == 64) && (b & 128 == 0 || b & 128 == 128)) by (bit_vector);
    lemma_gmul_distributes_left(b0, b1, a);
    lemma_gmul_distributes_left(b0 ^ b1, b2, a);
    lemma_gmul_distributes_left(b0 ^ b1 ^ b2, b3, a);
    lemma_gmul_distributes_left(b0 ^ b1 ^ b2 ^ b3, b4, a);
    lemma_gmul_distributes_left(b0 ^ b1 ^ b2 ^ b3 ^ b4, b5, a);
    lemma_gmul_distributes_left(b0 ^ b1 ^ b2 ^ b3 ^ b4 ^ b5, b6, a);
    lemma_gmul_distributes_left(b0 ^ b1 ^ b2 ^ b3 ^ b4 ^ b5 ^ b6, b7, a);
    lemma_gmul_units(a);
    assert(xtime(1) == 2 && xtime(2) == 4 && xtime(4) == 8 && xtime(8) == 16 && xtime(16) == 32
        && xtime(32) == 64 && xtime(64) == 128) by (bit_vector);
    lemma_gmul_xtime(1, a);
    lemma_gmul_xtime(2, a);
    lemma_gmul_xtime(4, a);
    lemma_gmul_xtime(8, a);
    lemma_gmul_xtime(16, a);
    lemma_gmul_xtime(32, a);
    lemma_gmul_xtime(64, a);
}

/// The field product is associative.
pub proof fn lemma_gmul_associates(a: u8, b: u8, c: u8)
    ensures
        gmul(gmul(a, b), c) == gmul(a, gmul(b, c)),
{
    let b1 = xtime(b);
    let b2 = xtime(b1);
    let b3 = xtime(b2);
    let b4 = xtime(b3);
    let b5 = xtime(b4);
    let b6 = xtime(b5);
    let b7 = xtime(b6);
    lemma_gmul_double_second(a, b);
    lemma_gmul_double_second(a, b1);
    lemma_gmul_double_second(a, b2);
    lemma_gmul_double_second(a, b3);
    lemma_gmul_double_second(a, b4);
    lemma_gmul_double_second(a, b5);
    lemma_gmul_double_second(a, b6);
    lemma_gmul_units(a);
    let p0 = pick(b, c, 1);
    let p1 = p0 ^ pick(b1, c, 2);
    let p2 = p1 ^ pick(b2, c, 4);
    let p3 = p2 ^ pick(b3, c, 8);
    let p4 = p3 ^ pick(b4, c, 16);
    let p5 = p4 ^ pick(b5, c, 32);
    let p6 = p5 ^ pick(b6, c, 64);
    lemma_gmul_distributes(a, p0, pick(b1, c, 2));
    lemma_gmul_distributes(a, p1, pick(b2, c, 4));
    lemma_gmul_distributes(a, p2, pick(b3, c, 8));
    lemma_gmul_distributes(a, p3, pick(b4, c, 16));
    lemma_gmul_distributes(a, p4, pick(b5, c, 32));
    lemma_gmul_distributes(a, p5, pick(b6, c, 64));
    lemma_gmul_distributes(a, p6, pick(b7, c, 128));
}

proof fn lemma_gmul_double_second(a: u8, b: u8)
    ensures
        gmul(a, xtime(b)) == xtime(gmul(a, b)),
{
    lemma_gmul_commutes(a, xtime(b));
    lemma_gmul_xtime(b, a);
    lemma_gmul_commutes(a, b);
}

/// The field has no zero divisors.
pub proof fn lemma_gmul_nonzero(a: u8, b: u8)
    ensures
        gmul(a, b) == 0 <==> a == 0 || b == 0,
{
    assert(gmul(a, b) == 0 ==> a == 0 || b == 0) by (bit_vector);
    lemma_gmul_units(a);
    lemma_gmul_units(b);
}

/// A nonzero factor cancels.
pub proof fn lemma_gmul_cancels(a: u8, b: u8, c: u8)
    requires
        a != 0,
        gmul(a, b) == gmul(a, c),
    ensures
        b == c,
{
    lemma_gmul_distributes(a, b, c);
    lemma_xor(gmul(a, b), 0, 0, 0);
    lemma_gmul_nonzero(a, b ^ c);
    lemma_xor(b, c, b, c);
}

/// Powers of the generator.
pub open spec fn gpow(n: nat) -> u8
    decreases n,
{
    if n == 0 {
        1
    } else {
        xtime(gpow((n - 1) as nat))
    }
}

/// Exponents of the generator add up under multiplication.
pub proof fn lemma_gpow_add(a: nat, b: nat)
    ensures
        gpow(a + b) == gmul(gpow(a), gpow(b)),
    decreases a,
{
    if a == 0 {
        lemma_gmul_units(gpow(b));
    } else {
        lemma_gpow_add((a - 1) as nat, b);
        lemma_gmul_xtime(gpow((a - 1) as nat), gpow(b));
        assert((a - 1) as nat + b == (a + b - 1) as nat);
    }
}

proof fn lemma_gpow_nonzero(n: nat)
    ensures
        gpow(n) != 0,
    decreases n,
{
    if n > 0 {
        lemma_gpow_nonzero((n - 1) as nat);
        let p = gpow((n - 1) as nat);
        assert(p != 0 ==> xtime(p) != 0) by (bit_vector);
    }
}

/// The landmarks that pin the order of the generator.
proof fn lemma_gpow_landmarks()
    ensures
        gpow(15) != 1,
        gpow(51) != 1,
        gpow(85) != 1,
        gpow(255) == 1,
{
    assert(gmul(2, 2) == 4 && gmul(4, 4) == 16 && gmul(16, 16) == 29 && gmul(29, 29) == 76
        && gmul(76, 76) == 157 && gmul(157, 157) == 95 && gmul(95, 95) == 133
        && gmul(2, 4) == 8 && gmul(8, 16) == 128 && gmul(128, 29) == 38 && gmul(8, 76) == 90
        && gmul(90, 157) == 10 && gmul(2, 16) == 32 && gmul(32, 76) == 117
        && gmul(117, 95) == 214 && gmul(38, 76) == 192 && gmul(192, 157) == 161
        && gmul(161, 95) == 204 && gmul(204, 133) == 1) by (bit_vector);
    assert(gpow(1) == xtime(gpow(0)));
    assert(xtime(1) == 2) by (bit_vector);
    lemma_gpow_add(1, 1);
    lemma_gpow_add(2, 2);
    lemma_gpow_add(4, 4);
    lemma_gpow_add(8, 8);
    lemma_gpow_add(16, 16);
    lemma_gpow_add(32, 32);
    lemma_gpow_add(64, 64);
    lemma_gpow_add(1, 2);
    lemma_gpow_add(3, 4);
    lemma_gpow_add(7, 8);
    lemma_gpow_add(3, 16);
    lemma_gpow_add(19, 32);
    lemma_gpow_add(1, 4);
    lemma_gpow_add(5, 16);
    lemma_gpow_add(21, 64);
    lemma_gpow_add(15, 16);
    lemma_gpow_add(31, 32);
    lemma_gpow_add(63, 64);
    lemma_gpow_add(127, 128);
}

proof fn lemma_gpow_multiple(d: nat, q: nat)
    requires
        gpow(d) == 1,
    ensures
        gpow(q * d) == 1,
    decreases q,
{
    if q > 0 {
        lemma_gpow_multiple(d, (q - 1) as nat);
        lemma_gpow_add(d, ((q - 1) * d) as nat);
        assert(d + (q - 1) * d == q * d) by (nonlinear_arith);
        lemma_gmul_units(1);
    } else {
        assert(q * d == 0) by (nonlinear_arith)
            requires
                q == 0,
        ;
    }
}

/// The generator does not return to one before the full cycle of 255 steps.
proof fn lemma_gpow_order(d: nat)
    requires
        0 < d < 255,
    ensures
        gpow(d) != 1,
    decreases d,
{
    if gpow(d) == 1 {
        lemma_gpow_landmarks();
        let q = 255nat / d;
        let r = 255nat % d;
        assert(255 == q * d + r && r < d) by (nonlinear_arith)
            requires
                d > 0,
                q == 255nat / d,
                r == 255nat % d,
        ;
        lemma_gpow_multiple(d, q);
        lemma_gpow_add(q * d, r);
        lemma_gmul_units(gpow(r));
        if r > 0 {
            lemma_gpow_order(r);
        } else {
            let e = d as u8;
            assert(255u8 % e == 0 && 0 < e < 255 ==> 15u8 % e == 0 || 51u8 % e == 0 || 85u8 % e == 0)
                by (bit_vector);
            let n: nat = if 15nat % d == 0 {
                15
            } else if 51nat % d == 0 {
                51
            } else {
                85
            };
            assert(n % d == 0);
            assert(n == (n / d) * d) by (nonlinear_arith)
                requires
                    n % d == 0,
                    d > 0,
            ;
            lemma_gpow_multiple(d, n / d);
        }
    }
}

/// The first 255 powers of the generator are distinct.
pub proof fn lemma_gpow_distinct(i: nat, j: nat)
    requires
        i < j < 255,
    ensures
        gpow(i) != gpow(j),
{
    if gpow(i) == gpow(j) {
        lemma_gpow_add(i, (j - i) as nat);
        lemma_gmul_units(gpow(i));
        lemma_gpow_nonzero(i);
        lemma_gmul_cancels(gpow(i), gpow((j - i) as nat), 1);
        lemma_gpow_order((j - i) as nat);
    }
}

/// Every nonzero element is one of the first 255 powers of the generator.
pub proof fn lemma_gpow_covers(a: u8)
    requires
        a != 0,
    ensures
        exists|i: nat| i < 255 && gpow(i) == a,
{
    let s = Seq::new(255, |i: int| gpow(i as nat) as int);
    assert forall|i: int, j: int| 0 <= i < 255 && 0 <= j < 255 && i != j implies s[i] != s[j] by {
        if i < j {
            lemma_gpow_distinct(i as nat, j as nat);
        } else {
            lemma_gpow_distinct(j as nat, i as nat);
        }
    }
    s.unique_seq_to_set();
    vstd::set_lib::lemma_int_range(1, 256);
    assert(s.to_set().subset_of(vstd::set_lib::set_int_range(1, 256))) by {
        assert forall|x: int| s.to_set().contains(x) implies vstd::set_lib::set_int_range(1, 256).contains(x) by {
            let i = choose|i: int| 0 <= i < s.len() && s[i] == x;
            lemma_gpow_nonzero(i as nat);
        }
    }
    vstd::set_lib::lemma_subset_equality(s.to_set(), vstd::set_lib::set_int_range(1, 256));
    assert(s.to_set().contains(a as int));
    let i = choose|i: int| 0 <= i < s.len() && s[i] == a as int;
    assert(gpow(i as nat) == a);
}

/// The multiplicative inverse of a nonzero element.
pub open spec fn ginv(a: u8) -> u8 {
    choose|b: u8| gmul(a, b) == 1
}

/// Every nonzero element has an inverse, and only one.
pub proof fn lemma_ginv(a: u8)
    requires
        a != 0,
    ensures
        gmul(a, ginv(a)) == 1,
        ginv(a) != 0,
        forall|b: u8| gmul(a, b) == 1 ==> b == ginv(a),
{
    lemma_gpow_covers(a);
    let i = choose|i: nat| i < 255 && gpow(i) == a;
    lemma_gpow_add(i, (255 - i) as nat);
    lemma_gpow_landmarks();
    let b = gpow((255 - i) as nat);
    assert(gmul(a, b) == 1);
    lemma_gmul_units(a);
    assert forall|c: u8| gmul(a, c) == 1 implies c == ginv(a) by {
        lemma_gmul_cancels(a, c, ginv(a));
    }
}

/// The generator to the power of zero to 509 and the discrete logarithm of each nonzero element.
pub struct Tables {
    /// Powers of the generator, wrapped around once so that a sum of two logarithms indexes it.
    pub exp: [u8; 512],
    /// The logarithm of each nonzero element.
    pub log: [u8; 256],
}

impl Tables {
    /// What the tables hold.
    pub open spec fn wf(&self) -> bool {
        &&& forall|i: int| 0 <= i < 510 ==> #[trigger] self.exp@[i] == gpow(i as nat)
        &&& self.exp@[510] == 0
        &&& self.exp@[511] == 0
        &&& forall|i: nat| i < 255 ==> self.log@[#[trigger] gpow(i) as int] == i
        &&& self.log@[0] == 0
    }

    /// The field product, by adding logarithms.
    pub fn mul(&self, a: u8, b: u8) -> (r: u8)
        requires
            self.wf(),
        ensures
            r == gmul(a, b),
    {
        if a == 0 || b == 0 {
            proof {
                lemma_gmul_nonzero(a, b);
            }
            0
        } else {
            proof {
                lemma_gpow_covers(a);
                lemma_gpow_covers(b);
                let i = choose|i: nat| i < 255 && gpow(i) == a;
                let j = choose|j: nat| j < 255 && gpow(j) == b;
                lemma_gpow_add(i, j);
            }
            self.exp[self.log[a as usize] as usize + self.log[b as usize] as usize]
        }
    }

    /// The inverse of a nonzero element, by negating its logarithm.
    pub fn inv(&self, a: u8) -> (r: u8)
        requires
            self.wf(),
            a != 0,
        ensures
            r == ginv(a),
    {
        proof {
            lemma_gpow_covers(a);
            let i = choose|i: nat| i < 255 && gpow(i) == a;
            lemma_gpow_add(i, (255 - i) as nat);
            lemma_gpow_landmarks();
            lemma_ginv(a);
        }
        self.exp[255 - self.log[a as usize] as usize]
    }
}

/// Build the power and logarithm tables.
pub fn tables() -> (t: Tables)
    ensures
        t.wf(),
{
    let mut exp: [u8; 512] = [0u8; 512];
    let mut log: [u8; 256] = [0u8; 256];
    let mut x: u8 = 1;
    let mut i: usize = 0;
    while i < 255
        invariant
            i <= 255,
            x == gpow(i as nat),
            exp@.len() == 512,
            log@.len() == 256,
            forall|j: int| 0 <= j < i ==> #[trigger] exp@[j] == gpow(j as nat),
            forall|j: int| i <= j < 512 ==> #[trigger] exp@[j] == 0,
            forall|j: nat| j < i ==> log@[#[trigger] gpow(j) as int] == j,
            log@[0] == 0,
        decreases 255 - i,
    {
        proof {
            lemma_gpow_nonzero(i as nat);
            assert forall|j: nat| j < i implies gpow(j) != x by {
                lemma_gpow_distinct(j, i as nat);
            }
        }
        exp[i] = x;
        log[x as usize] = i as u8;
        x = double(x);
        i += 1;
    }
    let mut n: usize = 0;
    while n < 255
        invariant
            n <= 255,
            exp@.len() == 512,
            forall|j: int| 0 <= j < 255 + n ==> #[trigger] exp@[j] == gpow(j as nat),
            exp@[510] == 0,
            exp@[511] == 0,
        decreases 255 - n,
    {
        proof {
            lemma_gpow_add(255, n as nat);
            lemma_gpow_landmarks();
            lemma_gmul_units(gpow(n as nat));
        }
        exp[n + 255] = exp[n];
        n += 1;
    }
    Tables { exp, log }
}

fn double(a: u8) -> (r: u8)
    ensures
        r == xtime(a),
{
    if a & 0x80 == 0 {
        a << 1
    } else {
        (a << 1) ^ 0x1d
    }
}

fn select(a: u8, b: u8, mask: u8) -> (r: u8)
    ensures
        r == pick(a, b, mask),
{
    if b & mask == 0 {
        0
    } else {
        a
    }
}

/// Multiply two field elements.
pub fn gf_mul(a: u8, b: u8) -> (r: u8)
    ensures
        r == gmul(a, b),
{
    let a1 = double(a);
    let a2 = double(a1);
    let a3 = double(a2);
    let a4 = double(a3);
    let a5 = double(a4);
    let a6 = double(a5);
    let a7 = double(a6);
    select(a, b, 1) ^ select(a1, b, 2) ^ select(a2, b, 4) ^ select(a3, b, 8) ^ select(a4, b, 16)
        ^ select(a5, b, 32) ^ select(a6, b, 64) ^ select(a7, b, 128)
}

/// Inverse of a nonzero field element.
pub fn gf_inv(a: u8) -> (r: u8)
    requires
        a != 0,
    ensures
        r == ginv(a),
        gmul(a, r) == 1,
{
    proof {
        lemma_ginv(a);
    }
    tables().inv(a)
}

/// Divide by a nonzero field element.
pub fn gf_div(a: u8, b: u8) -> (r: u8)
    requires
        b != 0,
    ensures
        r == gmul(a, ginv(b)),
        gmul(r, b) == a,
{
    proof {
        lemma_ginv(b);
        lemma_gmul_associates(a, ginv(b), b);
        lemma_gmul_commutes(ginv(b), b);
        lemma_gmul_units(a);
        lemma_gmul_units(ginv(b));
        lemma_gmul_units(b);
    }
    if a == 0 {
        0
    } else {
        gf_mul(a, gf_inv(b))
    }
}

} // verus!

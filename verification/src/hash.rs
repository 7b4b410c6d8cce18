//! SHA-256 and the content address type.

use crate::text;
use vstd::prelude::*;

verus! {

/// A content address: the SHA-256 of some bytes.
#[derive(Clone, Copy, PartialEq, Eq, PartialOrd, Ord, Hash, Debug)]
pub struct Hash(pub [u8; 32]);

impl View for Hash {
    type V = Seq<u8>;

    open spec fn view(&self) -> Seq<u8> {
        self.0@
    }
}

impl Hash {
    /// The 32 bytes of the address.
    pub fn as_bytes(&self) -> (r: &[u8; 32])
        ensures
            r@ == self@,
    {
        &self.0
    }

    /// A short hexadecimal prefix for display: the first four bytes.
    pub fn short(&self) -> (r: String)
        ensures
            r@ == text::hex(self@.take(4)),
    {
        let mut out = String::new();
        text::append_hex(&mut out, vstd::slice::slice_subrange(self.0.as_slice(), 0, 4));
        assert(out@ =~= text::hex(self@.take(4)));
        out
    }

    /// Whether two addresses are the same.
    pub fn same(&self, other: &Hash) -> (r: bool)
        ensures
            r == (self@ == other@),
    {
        let mut i: usize = 0;
        while i < 32
            invariant
                i <= 32,
                forall|j: int| 0 <= j < i ==> self@[j] == other@[j],
            decreases 32 - i,
        {
            if self.0[i] != other.0[i] {
                return false;
            }
            i += 1;
        }
        assert(self@ =~= other@);
        true
    }
}

/// The round constants: the first 32 bits of the fractional parts of the cube roots of the
/// first 64 primes.
pub open spec fn round_constants() -> Seq<u32> {
    seq![
        0x428a2f98u32, 0x71374491, 0xb5c0fbcf, 0xe9b5dba5, 0x3956c25b, 0x59f111f1,
        0x923f82a4, 0xab1c5ed5, 0xd807aa98, 0x12835b01, 0x243185be, 0x550c7dc3,
        0x72be5d74, 0x80deb1fe, 0x9bdc06a7, 0xc19bf174, 0xe49b69c1, 0xefbe4786,
        0x0fc19dc6, 0x240ca1cc, 0x2de92c6f, 0x4a7484aa, 0x5cb0a9dc, 0x76f988da,
        0x983e5152, 0xa831c66d, 0xb00327c8, 0xbf597fc7, 0xc6e00bf3, 0xd5a79147,
        0x06ca6351, 0x14292967, 0x27b70a85, 0x2e1b2138, 0x4d2c6dfc, 0x53380d13,
        0x650a7354, 0x766a0abb, 0x81c2c92e, 0x92722c85, 0xa2bfe8a1, 0xa81a664b,
        0xc24b8b70, 0xc76c51a3, 0xd192e819, 0xd6990624, 0xf40e3585, 0x106aa070,
        0x19a4c116, 0x1e376c08, 0x2748774c, 0x34b0bcb5, 0x391c0cb3, 0x4ed8aa4a,
        0x5b9cca4f, 0x682e6ff3, 0x748f82ee, 0x78a5636f, 0x84c87814, 0x8cc70208,
        0x90befffa, 0xa4506ceb, 0xbef9a3f7, 0xc67178f2,
    ]
}

/// The initial state: the first 32 bits of the fractional parts of the square roots of the
/// first eight primes.
pub open spec fn initial_state() -> State {
    State {
        a: 0x6a09e667,
        b: 0xbb67ae85,
        c: 0x3c6ef372,
        d: 0xa54ff53a,
        e: 0x510e527f,
        f: 0x9b05688c,
        g: 0x1f83d9ab,
        h: 0x5be0cd19,
    }
}

/// The eight working words of the compression function.
#[derive(Clone, Copy)]
pub struct State {
    pub a: u32,
    pub b: u32,
    pub c: u32,
    pub d: u32,
    pub e: u32,
    pub f: u32,
    pub g: u32,
    pub h: u32,
}

/// Rotation to the right.
pub open spec fn rotr(x: u32, n: u32) -> u32 {
    (x >> n) | (x << (32 - n) as u32)
}

/// Choice: bits of `y` where `x` is one, of `z` where it is zero.
pub open spec fn ch(x: u32, y: u32, z: u32) -> u32 {
    (x & y) ^ (!x & z)
}

/// Majority of three bits.
pub open spec fn maj(x: u32, y: u32, z: u32) -> u32 {
    (x & y) ^ (x & z) ^ (y & z)
}

/// The upper-case sigma functions of the rounds.
pub open spec fn big_sigma0(x: u32) -> u32 {
    rotr(x, 2) ^ rotr(x, 13) ^ rotr(x, 22)
}

/// See [`big_sigma0`].
pub open spec fn big_sigma1(x: u32) -> u32 {
    rotr(x, 6) ^ rotr(x, 11) ^ rotr(x, 25)
}

/// The lower-case sigma functions of the message schedule.
pub open spec fn small_sigma0(x: u32) -> u32 {
    rotr(x, 7) ^ rotr(x, 18) ^ (x >> 3)
}

/// See [`small_sigma0`].
pub open spec fn small_sigma1(x: u32) -> u32 {
    rotr(x, 17) ^ rotr(x, 19) ^ (x >> 10)
}

/// A big-endian word.
pub open spec fn word(b0: u8, b1: u8, b2: u8, b3: u8) -> u32 {
    ((b0 as u32) << 24) | ((b1 as u32) << 16) | ((b2 as u32) << 8) | (b3 as u32)
}

/// The bytes of a word, most significant first.
pub open spec fn word_bytes(w: u32) -> Seq<u8> {
    seq![(w >> 24) as u8, (w >> 16) as u8, (w >> 8) as u8, w as u8]
}

/// The bytes of a length, most significant first.
pub open spec fn length_bytes(n: u64) -> Seq<u8> {
    seq![
        (n >> 56) as u8,
        (n >> 48) as u8,
        (n >> 40) as u8,
        (n >> 32) as u8,
        (n >> 24) as u8,
        (n >> 16) as u8,
        (n >> 8) as u8,
        n as u8,
    ]
}

/// Word `t` of the message schedule of a 64 byte block.
pub open spec fn schedule(block: Seq<u8>, t: nat) -> u32
    decreases t,
{
    if t < 16 {
        word(
            block[4 * t as int],
            block[4 * t as int + 1],
            block[4 * t as int + 2],
            block[4 * t as int + 3],
        )
    } else {
        small_sigma1(schedule(block, (t - 2) as nat)).wrapping_add(
            schedule(block, (t - 7) as nat),
        ).wrapping_add(small_sigma0(schedule(block, (t - 15) as nat))).wrapping_add(
            schedule(block, (t - 16) as nat),
        )
    }
}

/// One round with round constant `k` and schedule word `w`.
pub open spec fn round(s: State, k: u32, w: u32) -> State {
    let t1 = s.h.wrapping_add(big_sigma1(s.e)).wrapping_add(ch(s.e, s.f, s.g)).wrapping_add(
        k,
    ).wrapping_add(w);
    let t2 = big_sigma0(s.a).wrapping_add(maj(s.a, s.b, s.c));
    State {
        a: t1.wrapping_add(t2),
        b: s.a,
        c: s.b,
        d: s.c,
        e: s.d.wrapping_add(t1),
        f: s.e,
        g: s.f,
        h: s.g,
    }
}

/// The state after the first `t` rounds on a block.
pub open spec fn rounds(s: State, block: Seq<u8>, t: nat) -> State
    decreases t,
{
    if t == 0 {
        s
    } else {
        round(
            rounds(s, block, (t - 1) as nat),
            round_constants()[t - 1],
            schedule(block, (t - 1) as nat),
        )
    }
}

/// Wordwise addition of two states.
pub open spec fn sum(x: State, y: State) -> State {
    State {
        a: x.a.wrapping_add(y.a),
        b: x.b.wrapping_add(y.b),
        c: x.c.wrapping_add(y.c),
        d: x.d.wrapping_add(y.d),
        e: x.e.wrapping_add(y.e),
        f: x.f.wrapping_add(y.f),
        g: x.g.wrapping_add(y.g),
        h: x.h.wrapping_add(y.h),
    }
}

/// The state after the first `n` blocks of a padded message.
pub open spec fn absorbed(padded: Seq<u8>, n: nat) -> State
    decreases n,
{
    if n == 0 {
        initial_state()
    } else {
        let s = absorbed(padded, (n - 1) as nat);
        sum(s, rounds(s, padded.subrange(64 * (n - 1), 64 * n as int), 64))
    }
}

/// The number of zero bytes between the marker and the length.
pub open spec fn zero_count(len: nat) -> nat {
    ((119 - len % 64) % 64) as nat
}

/// The message followed by a one bit, zeros up to eight bytes before a block boundary, and
/// the length in bits.
pub open spec fn pad(msg: Seq<u8>) -> Seq<u8> {
    msg + seq![0x80u8] + Seq::new(zero_count(msg.len()), |i: int| 0u8) + length_bytes(
        (msg.len() as u64).wrapping_mul(8),
    )
}

/// The bytes of a state.
pub open spec fn state_bytes(s: State) -> Seq<u8> {
    word_bytes(s.a) + word_bytes(s.b) + word_bytes(s.c) + word_bytes(s.d) + word_bytes(s.e)
        + word_bytes(s.f) + word_bytes(s.g) + word_bytes(s.h)
}

/// SHA-256.
#[verifier::opaque]
pub open spec fn digest(msg: Seq<u8>) -> Seq<u8> {
    state_bytes(absorbed(pad(msg), pad(msg).len() / 64))
}

/// A digest has 32 bytes.
pub proof fn law_digest_length(msg: Seq<u8>)
    ensures
        digest(msg).len() == 32,
{
    reveal(digest);
}

fn constants() -> (r: [u32; 64])
    ensures
        r@ == round_constants(),
{
    let r: [u32; 64] = [
        0x428a2f98, 0x71374491, 0xb5c0fbcf, 0xe9b5dba5, 0x3956c25b, 0x59f111f1,
        0x923f82a4, 0xab1c5ed5, 0xd807aa98, 0x12835b01, 0x243185be, 0x550c7dc3,
        0x72be5d74, 0x80deb1fe, 0x9bdc06a7, 0xc19bf174, 0xe49b69c1, 0xefbe4786,
        0x0fc19dc6, 0x240ca1cc, 0x2de92c6f, 0x4a7484aa, 0x5cb0a9dc, 0x76f988da,
        0x983e5152, 0xa831c66d, 0xb00327c8, 0xbf597fc7, 0xc6e00bf3, 0xd5a79147,
        0x06ca6351, 0x14292967, 0x27b70a85, 0x2e1b2138, 0x4d2c6dfc, 0x53380d13,
        0x650a7354, 0x766a0abb, 0x81c2c92e, 0x92722c85, 0xa2bfe8a1, 0xa81a664b,
        0xc24b8b70, 0xc76c51a3, 0xd192e819, 0xd6990624, 0xf40e3585, 0x106aa070,
        0x19a4c116, 0x1e376c08, 0x2748774c, 0x34b0bcb5, 0x391c0cb3, 0x4ed8aa4a,
        0x5b9cca4f, 0x682e6ff3, 0x748f82ee, 0x78a5636f, 0x84c87814, 0x8cc70208,
        0x90befffa, 0xa4506ceb, 0xbef9a3f7, 0xc67178f2,
    ];
    assert(r@ =~= round_constants());
    r
}

fn rot(x: u32, n: u32) -> (r: u32)
    requires
        0 < n < 32,
    ensures
        r == rotr(x, n),
{
    (x >> n) | (x << (32 - n))
}

fn one_round(s: &State, k: u32, w: u32) -> (r: State)
    ensures
        r == round(*s, k, w),
{
    let s1 = rot(s.e, 6) ^ rot(s.e, 11) ^ rot(s.e, 25);
    let c = (s.e & s.f) ^ (!s.e & s.g);
    let t1 = s.h.wrapping_add(s1).wrapping_add(c).wrapping_add(k).wrapping_add(w);
    let s0 = rot(s.a, 2) ^ rot(s.a, 13) ^ rot(s.a, 22);
    let m = (s.a & s.b) ^ (s.a & s.c) ^ (s.b & s.c);
    let t2 = s0.wrapping_add(m);
    State {
        a: t1.wrapping_add(t2),
        b: s.a,
        c: s.b,
        d: s.c,
        e: s.d.wrapping_add(t1),
        f: s.e,
        g: s.f,
        h: s.g,
    }
}

fn compress(k: &[u32; 64], s: &State, padded: &Vec<u8>, at: usize) -> (r: State)
    requires
        k@ == round_constants(),
        at + 64 <= padded@.len() <= usize::MAX,
    ensures
        r == sum(*s, rounds(*s, padded@.subrange(at as int, at + 64), 64)),
{
    let ghost block = padded@.subrange(at as int, at + 64);
    let mut w: [u32; 64] = [0u32; 64];
    let mut t: usize = 0;
    while t < 16
        invariant
            t <= 16,
            at + 64 <= padded@.len(),
            padded@.len() <= usize::MAX,
            block == padded@.subrange(at as int, at + 64),
            forall|j: int| 0 <= j < t ==> #[trigger] w@[j] == schedule(block, j as nat),
        decreases 16 - t,
    {
        let i = at + 4 * t;
        w[t] = ((padded[i] as u32) << 24) | ((padded[i + 1] as u32) << 16) | ((padded[i
            + 2] as u32) << 8) | (padded[i + 3] as u32);
        t += 1;
    }
    while t < 64
        invariant
            16 <= t <= 64,
            forall|j: int| 0 <= j < t ==> #[trigger] w@[j] == schedule(block, j as nat),
        decreases 64 - t,
    {
        let x = w[t - 2];
        let y = w[t - 15];
        let s1 = rot(x, 17) ^ rot(x, 19) ^ (x >> 10);
        let s0 = rot(y, 7) ^ rot(y, 18) ^ (y >> 3);
        w[t] = s1.wrapping_add(w[t - 7]).wrapping_add(s0).wrapping_add(w[t - 16]);
        t += 1;
    }
    let mut v: State = *s;
    let mut n: usize = 0;
    while n < 64
        invariant
            n <= 64,
            k@ == round_constants(),
            forall|j: int| 0 <= j < 64 ==> #[trigger] w@[j] == schedule(block, j as nat),
            v == rounds(*s, block, n as nat),
        decreases 64 - n,
    {
        v = one_round(&v, k[n], w[n]);
        n += 1;
    }
    State {
        a: s.a.wrapping_add(v.a),
        b: s.b.wrapping_add(v.b),
        c: s.c.wrapping_add(v.c),
        d: s.d.wrapping_add(v.d),
        e: s.e.wrapping_add(v.e),
        f: s.f.wrapping_add(v.f),
        g: s.g.wrapping_add(v.g),
        h: s.h.wrapping_add(v.h),
    }
}

fn padded(data: &[u8]) -> (r: Vec<u8>)
    ensures
        r@ == pad(data@),
{
    let mut out: Vec<u8> = vstd::slice::slice_to_vec(data);
    out.push(0x80);
    let zeros = (119 - data.len() % 64) % 64;
    let mut i: usize = 0;
    while i < zeros
        invariant
            i <= zeros,
            zeros == zero_count(data@.len()),
            out@ == data@ + seq![0x80u8] + Seq::new(i as nat, |j: int| 0u8),
        decreases zeros - i,
    {
        out.push(0);
        i += 1;
        assert(out@ =~= data@ + seq![0x80u8] + Seq::new(i as nat, |j: int| 0u8));
    }
    let bits: u64 = (data.len() as u64).wrapping_mul(8);
    out.push((bits >> 56) as u8);
    out.push((bits >> 48) as u8);
    out.push((bits >> 40) as u8);
    out.push((bits >> 32) as u8);
    out.push((bits >> 24) as u8);
    out.push((bits >> 16) as u8);
    out.push((bits >> 8) as u8);
    out.push(bits as u8);
    assert(out@ =~= pad(data@));
    out
}

fn put_word(out: &mut [u8; 32], at: usize, w: u32)
    requires
        at + 4 <= 32,
    ensures
        final(out)@.subrange(0, at as int) == old(out)@.subrange(0, at as int),
        final(out)@.subrange(at as int, at + 4) == word_bytes(w),
{
    out[at] = (w >> 24) as u8;
    out[at + 1] = (w >> 16) as u8;
    out[at + 2] = (w >> 8) as u8;
    out[at + 3] = w as u8;
    assert(out@.subrange(0, at as int) =~= old(out)@.subrange(0, at as int));
    assert(out@.subrange(at as int, at + 4) =~= word_bytes(w));
}

/// The SHA-256 of `data`.
pub fn sha256(data: &[u8]) -> (r: Hash)
    ensures
        r@ == digest(data@),
{
    let k = constants();
    let p = padded(data);
    let n = p.len();
    let ghost ps = pad(data@);
    let mut s = State {
        a: 0x6a09e667,
        b: 0xbb67ae85,
        c: 0x3c6ef372,
        d: 0xa54ff53a,
        e: 0x510e527f,
        f: 0x9b05688c,
        g: 0x1f83d9ab,
        h: 0x5be0cd19,
    };
    let blocks = n / 64;
    let mut i: usize = 0;
    while i < blocks
        invariant
            i <= blocks,
            k@ == round_constants(),
            p@ == ps,
            ps.len() <= usize::MAX,
            blocks == ps.len() / 64,
            s == absorbed(ps, i as nat),
        decreases blocks - i,
    {
        s = compress(&k, &s, &p, 64 * i);
        i += 1;
    }
    let a = [
        s.a,
        s.b,
        s.c,
        s.d,
        s.e,
        s.f,
        s.g,
        s.h,
    ];
    let mut out: [u8; 32] = [0u8; 32];
    let mut j: usize = 0;
    while j < 8
        invariant
            j <= 8,
            forall|t: int|
                0 <= t < j ==> #[trigger] out@.subrange(4 * t, 4 * t + 4) == word_bytes(a@[t]),
        decreases 8 - j,
    {
        let ghost before = out@;
        put_word(&mut out, 4 * j, a[j]);
        proof {
            assert forall|t: int| 0 <= t < j implies #[trigger] out@.subrange(4 * t, 4 * t + 4)
                == word_bytes(a@[t]) by {
                assert(out@.subrange(4 * t, 4 * t + 4) =~= out@.subrange(0, 4 * j).subrange(
                    4 * t,
                    4 * t + 4,
                ));
                assert(before.subrange(4 * t, 4 * t + 4) =~= before.subrange(0, 4 * j).subrange(
                    4 * t,
                    4 * t + 4,
                ));
            }
        }
        j += 1;
    }
    proof {
        reveal(digest);
        let o = out@;
        assert(o =~= o.subrange(0, 4) + o.subrange(4, 8) + o.subrange(8, 12) + o.subrange(12, 16)
            + o.subrange(16, 20) + o.subrange(20, 24) + o.subrange(24, 28) + o.subrange(28, 32));
        assert(o.subrange(4 * 0int, 4 * 0int + 4) == word_bytes(s.a));
        assert(o.subrange(4 * 1int, 4 * 1int + 4) == word_bytes(s.b));
        assert(o.subrange(4 * 2int, 4 * 2int + 4) == word_bytes(s.c));
        assert(o.subrange(4 * 3int, 4 * 3int + 4) == word_bytes(s.d));
        assert(o.subrange(4 * 4int, 4 * 4int + 4) == word_bytes(s.e));
        assert(o.subrange(4 * 5int, 4 * 5int + 4) == word_bytes(s.f));
        assert(o.subrange(4 * 6int, 4 * 6int + 4) == word_bytes(s.g));
        assert(o.subrange(4 * 7int, 4 * 7int + 4) == word_bytes(s.h));
    }
    Hash(out)
}

} // verus!

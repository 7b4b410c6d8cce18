//! LEB128 unsigned varint encoding.
//!
//! Used by [`crate::encode`] to length-prefix byte slices and to write compact
//! integers into messages and manifests.

use crate::error::{malformed, Error, ErrorV};
use vstd::prelude::*;

verus! {

/// The LEB128 encoding of a number: seven bits per byte, least significant first, the top
/// bit of a byte set when more bytes follow.
pub open spec fn leb(value: nat) -> Seq<u8>
    decreases value,
{
    if value < 128 {
        seq![value as u8]
    } else {
        seq![(value % 128 + 128) as u8] + leb(value / 128)
    }
}

/// The number at the front of `s`, with its length in bytes, when `s` starts at byte `i` of
/// a varint. A tenth byte may only hold bit 63, and there is no eleventh.
pub open spec fn groups(s: Seq<u8>, i: nat) -> Result<(nat, nat), ErrorV>
    decreases s.len(),
{
    if s.len() == 0 {
        Err(ErrorV::Decode("varint truncated"@))
    } else if i >= 10 || (i == 9 && s[0] % 128 > 1) {
        Err(ErrorV::Decode("varint too long"@))
    } else if s[0] < 128 {
        Ok((s[0] as nat, 1))
    } else {
        match groups(s.skip(1), i + 1) {
            Ok((v, n)) => Ok(((s[0] % 128) as nat + 128 * v, n + 1)),
            Err(e) => Err(e),
        }
    }
}

/// One more than the largest number that fits when `i` bytes went before.
spec fn limit(i: nat) -> nat
    decreases 9 - i,
{
    if i >= 9 {
        2
    } else {
        128 * limit(i + 1)
    }
}

proof fn lemma_limit()
    ensures
        limit(0) == 0x1_0000_0000_0000_0000,
{
    reveal_with_fuel(limit, 10);
}

proof fn lemma_groups_of_leb(v: nat, rest: Seq<u8>, i: nat)
    requires
        i <= 9,
        v < limit(i),
    ensures
        groups(leb(v) + rest, i) == Ok::<(nat, nat), ErrorV>((v, leb(v).len())),
    decreases v,
{
    let s = leb(v) + rest;
    if v < 128 {
        assert(s[0] == v as u8);
    } else {
        let b = (v % 128 + 128) as u8;
        assert(s[0] == b);
        assert(b % 128 == v % 128);
        assert(s.skip(1) =~= leb(v / 128) + rest);
        assert(v / 128 < limit(i + 1));
        lemma_groups_of_leb(v / 128, rest, i + 1);
        assert(v % 128 + 128 * (v / 128) == v);
    }
}

/// Decoding gives back every encoded 64 bit number and its length, whatever bytes follow.
pub proof fn law_varint_round_trip(v: u64, rest: Seq<u8>)
    ensures
        groups(leb(v as nat) + rest, 0) == Ok::<(nat, nat), ErrorV>(
            (v as nat, leb(v as nat).len()),
        ),
{
    lemma_limit();
    lemma_groups_of_leb(v as nat, rest, 0);
}

proof fn lemma_groups_extended(s: Seq<u8>, t: Seq<u8>, i: nat)
    ensures
        match groups(s, i) {
            Ok(r) => groups(s + t, i) == Ok::<(nat, nat), ErrorV>(r),
            Err(e) => e is Decode,
        },
    decreases s.len(),
{
    if s.len() > 0 {
        assert((s + t).skip(1) =~= s.skip(1) + t);
        lemma_groups_extended(s.skip(1), t, i + 1);
    }
}

/// Bytes after a number do not change it, and bytes that hold none are malformed.
pub proof fn law_varint_extended(s: Seq<u8>, t: Seq<u8>)
    ensures
        match groups(s, 0) {
            Ok(r) => groups(s + t, 0) == Ok::<(nat, nat), ErrorV>(r),
            Err(e) => e is Decode,
        },
{
    lemma_groups_extended(s, t, 0);
}

/// A decoded number fits in 64 bits, and the bytes it came from lie inside the buffer.
pub proof fn lemma_groups_bounds(s: Seq<u8>)
    ensures
        groups(s, 0) matches Ok((v, n)) ==> v <= u64::MAX && 1 <= n <= s.len() && n <= 10,
{
    lemma_limit();
    lemma_groups_limit(s, 0);
}

proof fn lemma_groups_limit(s: Seq<u8>, i: nat)
    ensures
        groups(s, i) matches Ok((v, n)) ==> v < limit(i) && 1 <= n <= s.len() && n + i <= 10,
    decreases s.len(),
{
    if s.len() > 0 {
        lemma_groups_limit(s.skip(1), i + 1);
        reveal_with_fuel(limit, 3);
        lemma_limit_min(i);
    }
}

proof fn lemma_limit_min(i: nat)
    ensures
        limit(i) >= 2,
        i < 9 ==> limit(i) >= 256,
    decreases 9 - i,
{
    if i < 9 {
        lemma_limit_min(i + 1);
    }
}

/// An encoding has at least one byte.
pub proof fn lemma_leb_len(v: nat)
    ensures
        leb(v).len() >= 1,
{
}

/// Append the LEB128 encoding of `value` to `out`.
pub fn encode_uvarint(value: u64, out: &mut Vec<u8>)
    ensures
        final(out)@ == old(out)@ + leb(value as nat),
{
    let mut value: u64 = value;
    let ghost v0 = value as nat;
    while value >= 128
        invariant
            out@ + leb(value as nat) == old(out)@ + leb(v0),
        decreases value,
    {
        let byte = (value % 128) as u8 + 128;
        let ghost before = out@;
        let ghost v = value as nat;
        out.push(byte);
        value = value / 128;
        assert(out@ + leb(value as nat) =~= before + leb(v));
    }
    out.push(value as u8);
    assert(out@ =~= old(out)@ + leb(v0)) by {
        assert(leb(value as nat) =~= seq![value as u8]);
    }
}

/// Decode a LEB128 varint from the front of `buf`.
///
/// Returns the value and the number of bytes consumed.
pub fn decode_uvarint(buf: &[u8]) -> (r: Result<(u64, usize), Error>)
    ensures
        match r {
            Ok((v, n)) => groups(buf@, 0) == Ok::<(nat, nat), ErrorV>((v as nat, n as nat)),
            Err(e) => groups(buf@, 0) == Err::<(nat, nat), ErrorV>(e@),
        },
{
    let mut result: u64 = 0;
    let mut scale: u64 = 1;
    let mut i: usize = 0;
    proof {
        lemma_limit();
        assert(buf@.skip(0) =~= buf@);
    }
    while i < buf.len()
        invariant
            i <= buf@.len(),
            i <= 10,
            i <= 9 ==> result < scale && scale * limit(i as nat) == 0x1_0000_0000_0000_0000,
            match groups(buf@.skip(i as int), i as nat) {
                Ok((v, n)) => groups(buf@, 0) == Ok::<(nat, nat), ErrorV>(
                    ((result + scale * v) as nat, n + i as nat),
                ),
                Err(e) => groups(buf@, 0) == Err::<(nat, nat), ErrorV>(e),
            },
        decreases buf@.len() - i,
    {
        let byte = buf[i];
        let ghost tail = buf@.skip(i as int);
        assert(tail[0] == byte);
        assert(tail.skip(1) =~= buf@.skip(i + 1));
        let payload = (byte % 128) as u64;
        if i >= 10 || (i == 9 && payload > 1) {
            return Err(malformed("varint too long"));
        }
        let ghost l = limit((i + 1) as nat);
        proof {
            lemma_limit_min((i + 1) as nat);
            if i == 9 {
                assert(scale * 2 == 0x1_0000_0000_0000_0000);
                assert(payload * scale <= scale) by (nonlinear_arith)
                    requires
                        payload <= 1,
                ;
            } else {
                assert(scale * (128 * l) == (scale * 128) * l) by (nonlinear_arith);
                assert(scale * 128 <= 0x8000_0000_0000_0000) by (nonlinear_arith)
                    requires
                        (scale * 128) * l == 0x1_0000_0000_0000_0000,
                        l >= 2,
                ;
                assert(payload * scale <= 127 * scale) by (nonlinear_arith)
                    requires
                        payload <= 127,
                ;
            }
        }
        let ghost before = result;
        result = result + payload * scale;
        if byte < 128 {
            assert(scale * payload == payload * scale) by (nonlinear_arith);
            return Ok((result, i + 1));
        }
        proof {
            match groups(buf@.skip(i + 1), (i + 1) as nat) {
                Ok((v, n)) => {
                    let w = payload as int + 128 * v;
                    assert(before + scale * w == before + payload * scale + (128 * scale) * v)
                        by (nonlinear_arith)
                        requires
                            w == payload + 128 * v,
                    ;
                },
                Err(e) => {},
            }
        }
        if i < 9 {
            scale = scale * 128;
        }
        i += 1;
    }
    Err(malformed("varint truncated"))
}

} // verus!

//! Length-prefixed serialization helpers built on LEB128 varints.
//!
//! Every message and manifest that crosses the simulated wire is turned into
//! bytes with [`Encoder`] and read back with [`Decoder`]. Keeping this in one
//! place means the wire format has a single source of truth.

use crate::error::{malformed, Error, ErrorV};
use crate::varint::{self, decode_uvarint, encode_uvarint};
use vstd::prelude::*;

verus! {

/// What reading a value gives: the value or the error, and the bytes that are left.
pub struct Step<T> {
    pub out: Result<T, ErrorV>,
    pub rest: Seq<u8>,
}

/// A value was read.
pub open spec fn done<T>(value: T, rest: Seq<u8>) -> Step<T> {
    Step { out: Ok(value), rest }
}

/// Reading stopped with an error.
pub open spec fn failed<T>(e: ErrorV, rest: Seq<u8>) -> Step<T> {
    Step { out: Err(e), rest }
}

/// Whether reading from more bytes goes as reading from fewer did: a value that was read is
/// read again, and the bytes `t` that were added are left. An error is a [`ErrorV::Decode`].
pub open spec fn extends_to<T>(a: Step<T>, b: Step<T>, t: Seq<u8>) -> bool {
    match a.out {
        Ok(v) => b.out == Ok::<T, ErrorV>(v) && b.rest == a.rest + t,
        Err(e) => e is Decode,
    }
}

/// A length-prefixed byte string.
pub open spec fn bytes_wire(v: Seq<u8>) -> Seq<u8> {
    varint::leb(v.len()) + v
}

/// A length-prefixed UTF-8 string.
pub open spec fn str_wire(v: Seq<char>) -> Seq<u8> {
    bytes_wire(vstd::utf8::encode_utf8(v))
}

/// A run of fixed 32 byte hashes.
pub open spec fn hashes_wire(hs: Seq<Seq<u8>>) -> Seq<u8>
    decreases hs.len(),
{
    if hs.len() == 0 {
        seq![]
    } else {
        hs[0] + hashes_wire(hs.skip(1))
    }
}

/// Whether a byte string's length fits its prefix.
pub open spec fn bytes_fit(v: Seq<u8>) -> bool {
    v.len() <= u64::MAX
}

/// Whether a string's length fits its prefix.
pub open spec fn str_fits(v: Seq<char>) -> bool {
    bytes_fit(vstd::utf8::encode_utf8(v))
}

/// Reading one byte.
pub open spec fn u8_at(s: Seq<u8>) -> Step<u8> {
    if s.len() == 0 {
        failed(ErrorV::Decode("eof reading u8"@), s)
    } else {
        done(s[0], s.skip(1))
    }
}

/// Reading one varint.
#[verifier::opaque]
pub open spec fn uvarint_at(s: Seq<u8>) -> Step<u64> {
    match varint::groups(s, 0) {
        Ok((v, n)) => done(v as u64, s.skip(n as int)),
        Err(e) => failed(e, s),
    }
}

/// Reading one length-prefixed byte string.
#[verifier::opaque]
pub open spec fn bytes_at(s: Seq<u8>) -> Step<Seq<u8>> {
    let n = uvarint_at(s);
    match n.out {
        Err(e) => failed(e, n.rest),
        Ok(len) => if len > n.rest.len() {
            failed(ErrorV::Decode("eof reading bytes"@), n.rest)
        } else {
            done(n.rest.take(len as int), n.rest.skip(len as int))
        },
    }
}

/// Reading one length-prefixed UTF-8 string.
#[verifier::opaque]
pub open spec fn str_at(s: Seq<u8>) -> Step<Seq<char>> {
    let b = bytes_at(s);
    match b.out {
        Err(e) => failed(e, b.rest),
        Ok(bytes) => if vstd::utf8::valid_utf8(bytes) {
            done(vstd::utf8::decode_utf8(bytes), b.rest)
        } else {
            failed(ErrorV::Decode("bad utf8"@), b.rest)
        },
    }
}

/// Reading one 32 byte hash.
#[verifier::opaque]
pub open spec fn hash_at(s: Seq<u8>) -> Step<Seq<u8>> {
    if s.len() < 32 {
        failed(ErrorV::Decode("eof reading hash"@), s)
    } else {
        done(s.take(32), s.skip(32))
    }
}

/// Reading `n` hashes in a row.
pub open spec fn hashes_at(s: Seq<u8>, n: nat) -> Step<Seq<Seq<u8>>>
    decreases n,
{
    if n == 0 {
        done(seq![], s)
    } else {
        let before = hashes_at(s, (n - 1) as nat);
        match before.out {
            Err(e) => failed(e, before.rest),
            Ok(hs) => {
                let last = hash_at(before.rest);
                match last.out {
                    Err(e) => failed(e, last.rest),
                    Ok(h) => done(hs.push(h), last.rest),
                }
            },
        }
    }
}

/// A byte read where it was written is that byte.
pub proof fn law_u8_round_trip(v: u8, rest: Seq<u8>)
    ensures
        u8_at(seq![v] + rest) == done(v, rest),
{
    assert((seq![v] + rest).skip(1) =~= rest);
}

/// A varint read where it was written is that number.
pub proof fn law_uvarint_round_trip(v: u64, rest: Seq<u8>)
    ensures
        uvarint_at(varint::leb(v as nat) + rest) == done(v, rest),
{
    reveal(uvarint_at);
    varint::law_varint_round_trip(v, rest);
    let w = varint::leb(v as nat);
    assert((w + rest).skip(w.len() as int) =~= rest);
}

/// A byte string read where it was written is that byte string.
pub proof fn law_bytes_round_trip(v: Seq<u8>, rest: Seq<u8>)
    requires
        bytes_fit(v),
    ensures
        bytes_at(bytes_wire(v) + rest) == done(v, rest),
{
    reveal(bytes_at);
    law_uvarint_round_trip(v.len() as u64, v + rest);
    assert(bytes_wire(v) + rest =~= varint::leb(v.len()) + (v + rest));
    assert((v + rest).take(v.len() as int) =~= v);
    assert((v + rest).skip(v.len() as int) =~= rest);
}

/// A string read where it was written is that string.
pub proof fn law_str_round_trip(v: Seq<char>, rest: Seq<u8>)
    requires
        str_fits(v),
    ensures
        str_at(str_wire(v) + rest) == done(v, rest),
{
    reveal(str_at);
    law_bytes_round_trip(vstd::utf8::encode_utf8(v), rest);
    vstd::utf8::encode_utf8_valid_utf8(v);
    vstd::utf8::encode_utf8_decode_utf8(v);
}

/// A hash read where it was written is that hash.
pub proof fn law_hash_round_trip(h: Seq<u8>, rest: Seq<u8>)
    requires
        h.len() == 32,
    ensures
        hash_at(h + rest) == done(h, rest),
{
    reveal(hash_at);
    assert((h + rest).take(32) =~= h);
    assert((h + rest).skip(32) =~= rest);
}

/// Writing one hash more.
pub proof fn lemma_hashes_wire_push(hs: Seq<Seq<u8>>, h: Seq<u8>)
    ensures
        hashes_wire(hs.push(h)) == hashes_wire(hs) + h,
    decreases hs.len(),
{
    if hs.len() == 0 {
        assert(hs.push(h).skip(1) =~= seq![]);
        assert(hashes_wire(hs.push(h).skip(1)) =~= seq![]);
        assert(hs.push(h)[0] == h);
        assert(hashes_wire(hs.push(h)) =~= h);
        assert(hashes_wire(hs) + h =~= h);
    } else {
        lemma_hashes_wire_push(hs.skip(1), h);
        assert(hs.push(h).skip(1) =~= hs.skip(1).push(h));
        assert(hashes_wire(hs.push(h)) =~= hs[0] + (hashes_wire(hs.skip(1)) + h));
        assert(hashes_wire(hs) + h =~= hs[0] + (hashes_wire(hs.skip(1)) + h));
    }
}

/// Hashes take 32 bytes each.
pub proof fn lemma_hashes_wire_len(hs: Seq<Seq<u8>>)
    requires
        forall|i: int| 0 <= i < hs.len() ==> #[trigger] hs[i].len() == 32,
    ensures
        hashes_wire(hs).len() == 32 * hs.len(),
    decreases hs.len(),
{
    if hs.len() > 0 {
        lemma_hashes_wire_len(hs.skip(1));
    }
}

/// Hashes read where they were written are those hashes.
pub proof fn law_hashes_round_trip(hs: Seq<Seq<u8>>, rest: Seq<u8>)
    requires
        forall|i: int| 0 <= i < hs.len() ==> #[trigger] hs[i].len() == 32,
    ensures
        hashes_at(hashes_wire(hs) + rest, hs.len()) == done(hs, rest),
    decreases hs.len(),
{
    if hs.len() == 0 {
        assert(hashes_wire(hs) + rest =~= rest);
        assert(hs =~= seq![]);
    } else {
        let front = hs.drop_last();
        let last = hs.last();
        assert(front.push(last) =~= hs);
        lemma_hashes_wire_push(front, last);
        assert(hashes_wire(hs) + rest =~= hashes_wire(front) + (last + rest));
        assert forall|i: int| 0 <= i < front.len() implies #[trigger] front[i].len() == 32 by {
            assert(front[i] == hs[i]);
        }
        law_hashes_round_trip(front, last + rest);
        law_hash_round_trip(last, rest);
    }
}

/// Bytes after a byte do not change how it reads.
pub proof fn lemma_u8_extended(s: Seq<u8>, t: Seq<u8>)
    ensures
        extends_to(u8_at(s), u8_at(s + t), t),
{
    if s.len() > 0 {
        assert((s + t).skip(1) =~= s.skip(1) + t);
    }
}

/// Bytes after a varint do not change how it reads.
pub proof fn lemma_uvarint_extended(s: Seq<u8>, t: Seq<u8>)
    ensures
        extends_to(uvarint_at(s), uvarint_at(s + t), t),
{
    reveal(uvarint_at);
    varint::law_varint_extended(s, t);
    varint::lemma_groups_bounds(s);
    if let Ok((v, n)) = varint::groups(s, 0) {
        assert((s + t).skip(n as int) =~= s.skip(n as int) + t);
    }
}

/// Bytes after a byte string do not change how it reads.
pub proof fn lemma_bytes_extended(s: Seq<u8>, t: Seq<u8>)
    ensures
        extends_to(bytes_at(s), bytes_at(s + t), t),
{
    reveal(bytes_at);
    lemma_uvarint_extended(s, t);
    let n = uvarint_at(s);
    if let Ok(len) = n.out {
        if len <= n.rest.len() {
            assert((n.rest + t).take(len as int) =~= n.rest.take(len as int));
            assert((n.rest + t).skip(len as int) =~= n.rest.skip(len as int) + t);
        }
    }
}

/// Bytes after a string do not change how it reads.
pub proof fn lemma_str_extended(s: Seq<u8>, t: Seq<u8>)
    ensures
        extends_to(str_at(s), str_at(s + t), t),
{
    reveal(str_at);
    lemma_bytes_extended(s, t);
}

/// Bytes after a hash do not change how it reads.
pub proof fn lemma_hash_extended(s: Seq<u8>, t: Seq<u8>)
    ensures
        extends_to(hash_at(s), hash_at(s + t), t),
{
    reveal(hash_at);
    if s.len() >= 32 {
        assert((s + t).take(32) =~= s.take(32));
        assert((s + t).skip(32) =~= s.skip(32) + t);
    }
}

/// Bytes after some hashes do not change how they read.
pub proof fn lemma_hashes_extended(s: Seq<u8>, t: Seq<u8>, n: nat)
    ensures
        extends_to(hashes_at(s, n), hashes_at(s + t, n), t),
    decreases n,
{
    if n > 0 {
        lemma_hashes_extended(s, t, (n - 1) as nat);
        lemma_hash_extended(hashes_at(s, (n - 1) as nat).rest, t);
    }
}

/// Append a slice of bytes to a vector.
pub fn append_bytes(out: &mut Vec<u8>, v: &[u8])
    ensures
        final(out)@ == old(out)@ + v@,
{
    out.extend_from_slice(v);
    assert(out@ =~= old(out)@ + v@);
}

/// `String::from_utf8`: the string whose UTF-8 encoding is `bytes`, when they are valid
/// UTF-8.
#[verifier::external_body]
fn string_from_utf8(bytes: Vec<u8>) -> (r: Option<String>)
    ensures
        r is Some <==> vstd::utf8::valid_utf8(bytes@),
        r matches Some(s) ==> s@ == vstd::utf8::decode_utf8(bytes@),
{
    String::from_utf8(bytes).ok()
}

/// A growable byte buffer with typed append helpers.
pub struct Encoder {
    buf: Vec<u8>,
}

impl View for Encoder {
    type V = Seq<u8>;

    closed spec fn view(&self) -> Seq<u8> {
        self.buf@
    }
}

impl Default for Encoder {
    fn default() -> (r: Self)
        ensures
            r@ == Seq::<u8>::empty(),
    {
        Encoder { buf: Vec::new() }
    }
}

impl Encoder {
    /// A fresh empty encoder.
    pub fn new() -> (r: Self)
        ensures
            r@ == Seq::<u8>::empty(),
    {
        Encoder { buf: Vec::new() }
    }

    /// Consume the encoder and return the bytes.
    pub fn finish(self) -> (r: Vec<u8>)
        ensures
            r@ == self@,
    {
        self.buf
    }

    /// Append a single tag byte.
    pub fn put_u8(&mut self, v: u8)
        ensures
            final(self)@ == old(self)@ + seq![v],
    {
        self.buf.push(v);
        assert(self@ =~= old(self)@ + seq![v]);
    }

    /// Append a varint.
    pub fn put_uvarint(&mut self, v: u64)
        ensures
            final(self)@ == old(self)@ + varint::leb(v as nat),
    {
        encode_uvarint(v, &mut self.buf);
    }

    /// Append a length-prefixed byte slice.
    pub fn put_bytes(&mut self, v: &[u8])
        ensures
            final(self)@ == old(self)@ + bytes_wire(v@),
            bytes_fit(v@),
    {
        self.put_uvarint(v.len() as u64);
        append_bytes(&mut self.buf, v);
        assert(self@ =~= old(self)@ + bytes_wire(v@));
    }

    /// Append a length-prefixed UTF-8 string.
    pub fn put_str(&mut self, v: &str)
        ensures
            final(self)@ == old(self)@ + str_wire(v@),
            str_fits(v@),
    {
        self.put_bytes(v.as_bytes());
    }

    /// Append a fixed 32 byte hash.
    pub fn put_hash(&mut self, h: &crate::hash::Hash)
        ensures
            final(self)@ == old(self)@ + h@,
    {
        append_bytes(&mut self.buf, h.0.as_slice());
    }
}

/// A cursor that reads values written by [`Encoder`].
pub struct Decoder<'a> {
    buf: &'a [u8],
    pos: usize,
}

impl<'a> View for Decoder<'a> {
    type V = Seq<u8>;

    /// The bytes not yet consumed.
    closed spec fn view(&self) -> Seq<u8> {
        self.buf@.skip(self.pos as int)
    }
}

impl<'a> Decoder<'a> {
    #[verifier::type_invariant]
    spec fn inside(self) -> bool {
        self.pos <= self.buf@.len() <= usize::MAX
    }

    /// Wrap a byte slice for reading from the front.
    pub fn new(buf: &'a [u8]) -> (r: Self)
        ensures
            r@ == buf@,
    {
        assert(buf@.skip(0) =~= buf@);
        assert(buf.len() == buf@.len());
        Decoder { buf, pos: 0 }
    }

    /// Bytes not yet consumed.
    pub fn remaining(&self) -> (r: usize)
        ensures
            r == self@.len(),
    {
        proof {
            use_type_invariant(self);
        }
        self.buf.len() - self.pos
    }

    /// Read one tag byte.
    pub fn get_u8(&mut self) -> (r: Result<u8, Error>)
        ensures
            u8_at(old(self)@) == (Step {
                out: crate::error::outcome(r),
                rest: final(self)@,
            }),
    {
        proof {
            use_type_invariant(&*self);
        }
        if self.pos >= self.buf.len() {
            return Err(malformed("eof reading u8"));
        }
        let v = self.buf[self.pos];
        self.pos += 1;
        assert(self@ =~= old(self)@.skip(1));
        Ok(v)
    }

    /// Read one varint.
    pub fn get_uvarint(&mut self) -> (r: Result<u64, Error>)
        ensures
            uvarint_at(old(self)@) == (Step {
                out: crate::error::outcome(r),
                rest: final(self)@,
            }),
    {
        proof {
            reveal(uvarint_at);
        }
        proof {
            use_type_invariant(&*self);
            varint::lemma_groups_bounds(self@);
        }
        let tail = vstd::slice::slice_subrange(self.buf, self.pos, self.buf.len());
        assert(tail@ =~= self@);
        match decode_uvarint(tail) {
            Err(e) => Err(e),
            Ok((v, used)) => {
                self.pos += used;
                assert(self@ =~= old(self)@.skip(used as int));
                Ok(v)
            },
        }
    }

    /// Read a length-prefixed byte slice into an owned vector.
    pub fn get_bytes(&mut self) -> (r: Result<Vec<u8>, Error>)
        ensures
            bytes_at(old(self)@) == (Step {
                out: match r {
                    Ok(v) => Ok(v@),
                    Err(e) => Err(e@),
                },
                rest: final(self)@,
            }),
    {
        proof {
            reveal(bytes_at);
        }
        let len = match self.get_uvarint() {
            Err(e) => return Err(e),
            Ok(n) => n,
        };
        if len > self.remaining() as u64 {
            return Err(malformed("eof reading bytes"));
        }
        proof {
            use_type_invariant(&*self);
        }
        let len = len as usize;
        let ghost before = self@;
        let part = vstd::slice::slice_subrange(self.buf, self.pos, self.pos + len);
        let out = vstd::slice::slice_to_vec(part);
        assert(out@ =~= before.take(len as int));
        self.pos += len;
        assert(self@ =~= before.skip(len as int));
        Ok(out)
    }

    /// Read a length-prefixed UTF-8 string.
    pub fn get_str(&mut self) -> (r: Result<String, Error>)
        ensures
            str_at(old(self)@) == (Step {
                out: match r {
                    Ok(v) => Ok(v@),
                    Err(e) => Err(e@),
                },
                rest: final(self)@,
            }),
    {
        proof {
            reveal(str_at);
        }
        let bytes = match self.get_bytes() {
            Err(e) => return Err(e),
            Ok(b) => b,
        };
        match string_from_utf8(bytes) {
            Some(s) => Ok(s),
            None => Err(malformed("bad utf8")),
        }
    }

    /// Read a fixed 32 byte hash.
    pub fn get_hash(&mut self) -> (r: Result<crate::hash::Hash, Error>)
        ensures
            hash_at(old(self)@) == (Step {
                out: match r {
                    Ok(v) => Ok(v@),
                    Err(e) => Err(e@),
                },
                rest: final(self)@,
            }),
    {
        proof {
            reveal(hash_at);
        }
        if self.remaining() < 32 {
            return Err(malformed("eof reading hash"));
        }
        proof {
            use_type_invariant(&*self);
        }
        let ghost before = self@;
        let mut h: [u8; 32] = [0u8; 32];
        let mut i: usize = 0;
        while i < 32
            invariant
                i <= 32,
                self@ == before,
                before.len() >= 32,
                self.pos <= self.buf@.len() <= usize::MAX,
                forall|j: int| 0 <= j < i ==> h@[j] == before[j],
            decreases 32 - i,
        {
            h[i] = self.buf[self.pos + i];
            i += 1;
        }
        assert(h@ =~= before.take(32));
        self.pos += 32;
        assert(self@ =~= before.skip(32));
        Ok(crate::hash::Hash(h))
    }
}

} // verus!

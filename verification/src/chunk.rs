//! Fixed-size chunking and the file manifest.
//!
//! A file's bytes are split into fixed-size chunks. Each chunk is
//! content-addressed by its SHA-256. The ordered list of chunk hashes plus the
//! total size and the whole-file content hash is the file's [`Manifest`].
//! Reassembly concatenates the chunk bytes in manifest order and the result is
//! verified against the content hash.

use crate::encode::{self, append_bytes, Decoder, Encoder, Step};
use crate::error::{malformed, Error, ErrorV};
use crate::hash::{self, sha256};
use crate::ordmap::Dup;
use crate::text;
use crate::varint;
use vstd::prelude::*;

verus! {

/// A content-addressed block of bytes.
#[derive(Clone, PartialEq, Eq, Debug)]
pub struct Chunk {
    /// SHA-256 of `data`.
    pub id: crate::hash::Hash,
    /// The raw bytes of this chunk.
    pub data: Vec<u8>,
}

/// The mathematical value of a [`Chunk`].
pub struct ChunkV {
    pub id: Seq<u8>,
    pub data: Seq<u8>,
}

impl View for Chunk {
    type V = ChunkV;

    open spec fn view(&self) -> ChunkV {
        ChunkV { id: self.id@, data: self.data@ }
    }
}

/// The recipe for reconstructing a file from chunks.
///
/// In replication mode `chunks` holds one content address per chunk position.
/// In erasure mode `erasure` is `Some((k, m))` and `chunks` holds the flat
/// list of shard content addresses, `k + m` per chunk group in order, so
/// chunk group g occupies positions `g * (k + m) .. (g + 1) * (k + m)`.
#[derive(Clone, PartialEq, Eq, Debug)]
pub struct Manifest {
    /// Total file size in bytes.
    pub size: u64,
    /// SHA-256 of the entire file, checked after reassembly.
    pub content_hash: crate::hash::Hash,
    /// Chunk ids in file order. May repeat when chunks are identical.
    pub chunks: Vec<crate::hash::Hash>,
    /// Erasure parameters (k, m) when the file is erasure coded.
    pub erasure: Option<(u8, u8)>,
}

/// The mathematical value of a [`Manifest`].
#[verifier::ext_equal]
pub struct ManifestV {
    pub size: u64,
    pub content_hash: Seq<u8>,
    pub chunks: Seq<Seq<u8>>,
    pub erasure: Option<(u8, u8)>,
}

/// The values of a run of hashes.
pub open spec fn ids_view(hs: Seq<crate::hash::Hash>) -> Seq<Seq<u8>> {
    Seq::new(hs.len(), |i: int| hs[i]@)
}

/// The values of a run of byte vectors.
pub open spec fn parts_view(parts: Seq<Vec<u8>>) -> Seq<Seq<u8>> {
    Seq::new(parts.len(), |i: int| parts[i]@)
}

impl View for Manifest {
    type V = ManifestV;

    open spec fn view(&self) -> ManifestV {
        ManifestV {
            size: self.size,
            content_hash: self.content_hash@,
            chunks: ids_view(self.chunks@),
            erasure: self.erasure,
        }
    }
}

impl ManifestV {
    /// Every hash has 32 bytes and the chunk count fits its prefix.
    pub open spec fn fits(self) -> bool {
        &&& self.content_hash.len() == 32
        &&& self.chunks.len() <= u64::MAX
        &&& forall|i: int| 0 <= i < self.chunks.len() ==> #[trigger] self.chunks[i].len() == 32
    }

    /// The bytes of a manifest.
    pub open spec fn wire(self) -> Seq<u8> {
        varint::leb(self.size as nat) + self.content_hash + varint::leb(self.chunks.len())
            + encode::hashes_wire(self.chunks) + match self.erasure {
            None => seq![0u8],
            Some((k, m)) => seq![1u8, k, m],
        }
    }
}

/// Reading the erasure parameters of a manifest.
pub open spec fn erasure_at(s: Seq<u8>) -> Step<Option<(u8, u8)>> {
    let t = encode::u8_at(s);
    match t.out {
        Err(e) => encode::failed(e, t.rest),
        Ok(0u8) => encode::done(None, t.rest),
        Ok(1u8) => {
            let k = encode::u8_at(t.rest);
            match k.out {
                Err(e) => encode::failed(e, k.rest),
                Ok(kv) => {
                    let m = encode::u8_at(k.rest);
                    match m.out {
                        Err(e) => encode::failed(e, m.rest),
                        Ok(mv) => encode::done(Some((kv, mv)), m.rest),
                    }
                },
            }
        },
        Ok(tag) => encode::failed(
            ErrorV::Decode("bad manifest erasure tag "@ + text::decimal(tag as nat)),
            t.rest,
        ),
    }
}

/// Reading a manifest. A chunk count that the bytes left cannot hold is refused.
#[verifier::opaque]
pub open spec fn manifest_at(s: Seq<u8>) -> Step<ManifestV> {
    let size = encode::uvarint_at(s);
    match size.out {
        Err(e) => encode::failed(e, size.rest),
        Ok(size_v) => {
            let whole = encode::hash_at(size.rest);
            match whole.out {
                Err(e) => encode::failed(e, whole.rest),
                Ok(content_hash) => {
                    let n = encode::uvarint_at(whole.rest);
                    match n.out {
                        Err(e) => encode::failed(e, n.rest),
                        Ok(count) => if count > n.rest.len() / 32 {
                            encode::failed(
                                ErrorV::Decode("manifest chunk count out of range"@),
                                n.rest,
                            )
                        } else {
                            let hs = encode::hashes_at(n.rest, count as nat);
                            match hs.out {
                                Err(e) => encode::failed(e, hs.rest),
                                Ok(chunks) => {
                                    let er = erasure_at(hs.rest);
                                    match er.out {
                                        Err(e) => encode::failed(e, er.rest),
                                        Ok(erasure) => encode::done(
                                            ManifestV { size: size_v, content_hash, chunks, erasure },
                                            er.rest,
                                        ),
                                    }
                                },
                            }
                        },
                    }
                },
            }
        },
    }
}

/// A manifest read where it was written is that manifest.
pub proof fn law_manifest_round_trip(m: ManifestV, rest: Seq<u8>)
    requires
        m.fits(),
    ensures
        manifest_at(m.wire() + rest) == encode::done(m, rest),
{
    reveal(manifest_at);
    let tail = match m.erasure {
        None => seq![0u8],
        Some((k, p)) => seq![1u8, k, p],
    };
    let r3 = tail + rest;
    let hw = encode::hashes_wire(m.chunks);
    let r2 = hw + r3;
    let r1 = varint::leb(m.chunks.len()) + r2;
    let r0 = m.content_hash + r1;
    assert(m.wire() + rest =~= varint::leb(m.size as nat) + r0);
    encode::law_uvarint_round_trip(m.size, r0);
    encode::law_hash_round_trip(m.content_hash, r1);
    encode::law_uvarint_round_trip(m.chunks.len() as u64, r2);
    encode::lemma_hashes_wire_len(m.chunks);
    encode::law_hashes_round_trip(m.chunks, r3);
    match m.erasure {
        None => {
            encode::law_u8_round_trip(0, rest);
        },
        Some((k, p)) => {
            assert(r3 =~= seq![1u8] + (seq![k] + (seq![p] + rest)));
            encode::law_u8_round_trip(1, seq![k] + (seq![p] + rest));
            encode::law_u8_round_trip(k, seq![p] + rest);
            encode::law_u8_round_trip(p, rest);
        },
    }
}

/// Bytes after a manifest do not change how it reads.
pub proof fn law_manifest_extended(s: Seq<u8>, t: Seq<u8>)
    ensures
        encode::extends_to(manifest_at(s), manifest_at(s + t), t),
{
    reveal(manifest_at);
    let size = encode::uvarint_at(s);
    let whole = encode::hash_at(size.rest);
    let n = encode::uvarint_at(whole.rest);
    encode::lemma_uvarint_extended(s, t);
    encode::lemma_hash_extended(size.rest, t);
    encode::lemma_uvarint_extended(whole.rest, t);
    if let Ok(count) = n.out {
        let hs = encode::hashes_at(n.rest, count as nat);
        encode::lemma_hashes_extended(n.rest, t, count as nat);
        let a = encode::u8_at(hs.rest);
        let b = encode::u8_at(a.rest);
        encode::lemma_u8_extended(hs.rest, t);
        encode::lemma_u8_extended(a.rest, t);
        encode::lemma_u8_extended(b.rest, t);
    }
}

/// A manifest that was cut short is malformed.
pub proof fn law_truncated_manifest_is_refused(m: ManifestV, n: nat)
    requires
        m.fits(),
        n < m.wire().len(),
    ensures
        manifest_at(m.wire().take(n as int)).out matches Err(e) && e is Decode,
{
    let s = m.wire();
    let none = Seq::<u8>::empty();
    assert(s.take(n as int) + s.skip(n as int) =~= s);
    assert(s + none =~= s);
    law_manifest_round_trip(m, none);
    law_manifest_extended(s.take(n as int), s.skip(n as int));
}

/// A copy of a run of hashes.
pub fn copy_ids(ids: &Vec<crate::hash::Hash>) -> (r: Vec<crate::hash::Hash>)
    ensures
        r@ == ids@,
{
    let mut out: Vec<crate::hash::Hash> = Vec::new();
    let mut i: usize = 0;
    while i < ids.len()
        invariant
            i <= ids@.len(),
            out@ == ids@.take(i as int),
        decreases ids@.len() - i,
    {
        out.push(ids[i]);
        i += 1;
        assert(out@ =~= ids@.take(i as int));
    }
    assert(ids@.take(ids@.len() as int) =~= ids@);
    out
}

/// Append a run of hashes.
pub fn encode_ids(ids: &Vec<crate::hash::Hash>, e: &mut Encoder)
    ensures
        final(e)@ == old(e)@ + encode::hashes_wire(ids_view(ids@)),
        ids@.len() <= u64::MAX,
{
    let ghost hs = ids_view(ids@);
    let mut i: usize = 0;
    assert(hs.take(0) =~= seq![]);
    assert(e@ =~= old(e)@ + encode::hashes_wire(hs.take(0)));
    while i < ids.len()
        invariant
            i <= ids@.len(),
            hs == ids_view(ids@),
            e@ == old(e)@ + encode::hashes_wire(hs.take(i as int)),
        decreases ids@.len() - i,
    {
        e.put_hash(&ids[i]);
        proof {
            encode::lemma_hashes_wire_push(hs.take(i as int), hs[i as int]);
            assert(hs.take(i + 1) =~= hs.take(i as int).push(hs[i as int]));
            assert(e@ =~= old(e)@ + encode::hashes_wire(hs.take(i + 1)));
        }
        i += 1;
    }
    assert(hs.take(hs.len() as int) =~= hs);
    assert(ids.len() == ids@.len());
}

impl Manifest {
    /// A copy of this manifest.
    pub fn dup(&self) -> (r: Manifest)
        ensures
            r@ == self@,
    {
        Manifest {
            size: self.size,
            content_hash: self.content_hash,
            chunks: copy_ids(&self.chunks),
            erasure: self.erasure,
        }
    }

    /// Serialize to bytes.
    pub fn encode(&self, e: &mut Encoder)
        ensures
            final(e)@ == old(e)@ + self@.wire(),
            self@.fits(),
    {
        e.put_uvarint(self.size);
        e.put_hash(&self.content_hash);
        e.put_uvarint(self.chunks.len() as u64);
        encode_ids(&self.chunks, e);
        match self.erasure {
            None => e.put_u8(0),
            Some((k, m)) => {
                e.put_u8(1);
                e.put_u8(k);
                e.put_u8(m);
            },
        }
        assert(e@ =~= old(e)@ + self@.wire());
    }

    /// Deserialize from bytes.
    ///
    /// Returns [`Error::Decode`] when any field is truncated, the chunk
    /// count is out of range, or the erasure tag is malformed.
    pub fn decode(d: &mut Decoder<'_>) -> (r: Result<Manifest, Error>)
        ensures
            manifest_at(old(d)@) == (Step {
                out: match r {
                    Ok(m) => Ok(m@),
                    Err(e) => Err(e@),
                },
                rest: final(d)@,
            }),
    {
        proof {
            reveal(manifest_at);
        }
        let size = match d.get_uvarint() {
            Err(e) => return Err(e),
            Ok(v) => v,
        };
        let content_hash = match d.get_hash() {
            Err(e) => return Err(e),
            Ok(v) => v,
        };
        let n = match d.get_uvarint() {
            Err(e) => return Err(e),
            Ok(v) => v,
        };
        if n > (d.remaining() / 32) as u64 {
            return Err(malformed("manifest chunk count out of range"));
        }
        let n = n as usize;
        let chunks = match decode_ids(d, n) {
            Err(e) => return Err(e),
            Ok(v) => v,
        };
        let tag = match d.get_u8() {
            Err(e) => return Err(e),
            Ok(v) => v,
        };
        let erasure = match tag {
            0 => None,
            1 => {
                let k = match d.get_u8() {
                    Err(e) => return Err(e),
                    Ok(v) => v,
                };
                let m = match d.get_u8() {
                    Err(e) => return Err(e),
                    Ok(v) => v,
                };
                Some((k, m))
            },
            t => {
                return Err(Error::Decode(text::labelled("bad manifest erasure tag ", t as u64)));
            },
        };
        Ok(Manifest { size, content_hash, chunks, erasure })
    }
}

impl Dup for Manifest {
    fn copy_value(&self) -> (r: Self) {
        self.dup()
    }
}

/// Read `n` hashes in a row.
pub fn decode_ids(d: &mut Decoder<'_>, n: usize) -> (r: Result<Vec<crate::hash::Hash>, Error>)
    ensures
        encode::hashes_at(old(d)@, n as nat) == (Step {
            out: match r {
                Ok(hs) => Ok(ids_view(hs@)),
                Err(e) => Err(e@),
            },
            rest: final(d)@,
        }),
{
    let mut out: Vec<crate::hash::Hash> = Vec::new();
    let mut i: usize = 0;
    assert(ids_view(out@) =~= seq![]);
    while i < n
        invariant
            i <= n,
            encode::hashes_at(old(d)@, i as nat) == encode::done(ids_view(out@), d@),
        decreases n - i,
    {
        let ghost before = ids_view(out@);
        match d.get_hash() {
            Err(e) => {
                proof {
                    lemma_hashes_stuck(old(d)@, (i + 1) as nat, n as nat);
                }
                return Err(e);
            },
            Ok(h) => {
                out.push(h);
                assert(ids_view(out@) =~= before.push(h@));
            },
        }
        i += 1;
    }
    Ok(out)
}

proof fn lemma_hashes_stuck(s: Seq<u8>, i: nat, n: nat)
    requires
        i <= n,
        encode::hashes_at(s, i).out is Err,
    ensures
        encode::hashes_at(s, n) == encode::hashes_at(s, i),
    decreases n,
{
    if i < n {
        lemma_hashes_stuck(s, i, (n - 1) as nat);
    }
}

/// How many chunks of `size` bytes cover `len` bytes.
pub open spec fn piece_count(len: nat, size: nat) -> nat {
    (len + size - 1) as nat / size
}

/// The bytes of chunk `i`.
pub open spec fn piece(data: Seq<u8>, size: nat, i: int) -> Seq<u8> {
    data.subrange(
        i * size,
        if (i + 1) * size <= data.len() {
            (i + 1) * size
        } else {
            data.len() as int
        },
    )
}

/// The bytes of every chunk in file order.
pub open spec fn pieces(data: Seq<u8>, size: nat) -> Seq<Seq<u8>> {
    Seq::new(piece_count(data.len(), size), |i: int| piece(data, size, i))
}

/// The chunks of a file in file order.
pub open spec fn chunks_of(data: Seq<u8>, size: nat) -> Seq<ChunkV> {
    Seq::new(
        piece_count(data.len(), size),
        |i: int| ChunkV { id: hash::digest(piece(data, size, i)), data: piece(data, size, i) },
    )
}

/// The content addresses of some byte strings.
pub open spec fn digests(parts: Seq<Seq<u8>>) -> Seq<Seq<u8>> {
    Seq::new(parts.len(), |i: int| hash::digest(parts[i]))
}

/// The manifest of a replicated file.
pub open spec fn manifest_of(data: Seq<u8>, size: nat) -> ManifestV {
    ManifestV {
        size: data.len() as u64,
        content_hash: hash::digest(data),
        chunks: digests(pieces(data, size)),
        erasure: None,
    }
}

pub proof fn lemma_piece_count(len: nat, size: nat, i: nat)
    requires
        size > 0,
    ensures
        i * size < len ==> i < piece_count(len, size),
        i * size >= len ==> i >= piece_count(len, size),
{
    let q = (len + size - 1) as nat / size;
    let r = (len + size - 1) as nat % size;
    vstd::arithmetic::div_mod::lemma_fundamental_div_mod((len + size - 1) as int, size as int);
    assert(0 <= r < size);
    if i * size < len && i >= q {
        assert(i * size >= q * size) by (nonlinear_arith)
            requires
                i >= q,
        ;
        assert(size * q == q * size) by (nonlinear_arith);
    }
    if i * size >= len && i < q {
        assert((i + 1) * size <= q * size) by (nonlinear_arith)
            requires
                i + 1 <= q,
        ;
        assert((i + 1) * size == i * size + size) by (nonlinear_arith);
        assert(size * q == q * size) by (nonlinear_arith);
    }
}

/// The first `n` pieces hold the first `n * size` bytes.
proof fn lemma_pieces_prefix(data: Seq<u8>, size: nat, n: nat)
    requires
        size > 0,
        n <= piece_count(data.len(), size),
    ensures
        pieces(data, size).take(n as int).flatten() == data.take(
            if n * size <= data.len() {
                (n * size) as int
            } else {
                data.len() as int
            },
        ),
    decreases n,
{
    let ps = pieces(data, size);
    if n == 0 {
        assert(ps.take(0) =~= seq![]);
        assert(data.take(0) =~= seq![]);
        assert(0 * size == 0) by (nonlinear_arith);
    } else {
        let m = (n - 1) as nat;
        lemma_pieces_prefix(data, size, m);
        lemma_piece_count(data.len(), size, m);
        assert(n * size == m * size + size) by (nonlinear_arith)
            requires
                n == m + 1,
        ;
        assert(ps.take(n as int) =~= ps.take(m as int).push(ps[m as int]));
        ps.take(m as int).lemma_flatten_push(ps[m as int]);
        assert(m * size < data.len());
        assert(ps.take(n as int).flatten() =~= data.take(
            if n * size <= data.len() {
                (n * size) as int
            } else {
                data.len() as int
            },
        ));
    }
}

/// Splitting a file and concatenating the pieces in order gives the file back.
pub proof fn law_reassembly_is_identity(data: Seq<u8>, size: nat)
    requires
        size > 0,
    ensures
        pieces(data, size).flatten() == data,
{
    let n = piece_count(data.len(), size);
    lemma_pieces_prefix(data, size, n);
    lemma_piece_count(data.len(), size, n);
    assert(pieces(data, size).take(n as int) =~= pieces(data, size));
    assert(data.take(data.len() as int) =~= data);
}

/// No piece is empty or longer than the chunk size.
pub proof fn law_piece_sizes(data: Seq<u8>, size: nat, i: int)
    requires
        size > 0,
        0 <= i < piece_count(data.len(), size),
    ensures
        0 < piece(data, size, i).len() <= size,
        (i + 1) * size <= data.len() ==> piece(data, size, i).len() == size,
{
    lemma_piece_count(data.len(), size, i as nat);
    assert((i + 1) * size == i * size + size) by (nonlinear_arith);
    assert(0 <= i * size) by (nonlinear_arith)
        requires
            0 <= i,
    ;
}

/// Split `data` into chunks of at most `chunk_size` bytes and build its manifest.
///
/// The returned chunk vector follows file order and may contain duplicates when
/// two positions hold identical bytes. Callers that store chunks should dedupe
/// by [`Chunk::id`].
pub fn chunk_bytes(data: &[u8], chunk_size: usize) -> (r: (Vec<Chunk>, Manifest))
    requires
        chunk_size > 0,
    ensures
        r.0@.len() == piece_count(data@.len(), chunk_size as nat),
        forall|i: int|
            0 <= i < r.0@.len() ==> #[trigger] r.0@[i]@ == chunks_of(data@, chunk_size as nat)[i],
        r.1@ == manifest_of(data@, chunk_size as nat),
{
    let mut chunks: Vec<Chunk> = Vec::new();
    let mut ids: Vec<crate::hash::Hash> = Vec::new();
    let mut pos: usize = 0;
    let ghost size = chunk_size as nat;
    let ghost n: nat = 0;
    let len = data.len();
    assert(0 * size == 0) by (nonlinear_arith);
    while pos < len
        invariant
            size == chunk_size,
            size > 0,
            len == data@.len(),
            n <= piece_count(data@.len(), size),
            pos == (if n * size <= data@.len() {
                n * size
            } else {
                data@.len()
            }),
            chunks@.len() == n,
            ids@.len() == n,
            forall|i: int| 0 <= i < n ==> #[trigger] chunks@[i]@ == chunks_of(data@, size)[i],
            forall|i: int| 0 <= i < n ==> #[trigger] ids@[i]@ == hash::digest(piece(data@, size, i)),
        decreases len - pos,
    {
        let end = if len - pos > chunk_size {
            pos + chunk_size
        } else {
            len
        };
        let window = vstd::slice::slice_subrange(data, pos, end);
        proof {
            lemma_piece_count(data@.len(), size, n);
            assert((n + 1) * size == n * size + size) by (nonlinear_arith);
            assert(window@ == piece(data@, size, n as int));
        }
        let id = sha256(window);
        ids.push(id);
        chunks.push(Chunk { id, data: vstd::slice::slice_to_vec(window) });
        pos = end;
        proof {
            n = n + 1;
        }
    }
    proof {
        lemma_piece_count(data@.len(), size, n);
    }
    let manifest = Manifest {
        size: data.len() as u64,
        content_hash: sha256(data),
        chunks: ids,
        erasure: None,
    };
    assert(manifest@.chunks =~= digests(pieces(data@, size)));
    (chunks, manifest)
}

/// Split `data` into pieces of at most `size` bytes.
pub fn split(data: &[u8], size: usize) -> (r: Vec<Vec<u8>>)
    requires
        size > 0,
    ensures
        parts_view(r@) == pieces(data@, size as nat),
{
    let mut parts: Vec<Vec<u8>> = Vec::new();
    let mut pos: usize = 0;
    let ghost n: nat = 0;
    let ghost sz = size as nat;
    let len = data.len();
    assert(0 * sz == 0) by (nonlinear_arith);
    while pos < len
        invariant
            sz == size,
            sz > 0,
            len == data@.len(),
            n <= piece_count(data@.len(), sz),
            pos == (if n * sz <= data@.len() {
                n * sz
            } else {
                data@.len()
            }),
            parts@.len() == n,
            forall|i: int| 0 <= i < n ==> (#[trigger] parts@[i])@ == piece(data@, sz, i),
        decreases len - pos,
    {
        let end = if len - pos > size {
            pos + size
        } else {
            len
        };
        let window = vstd::slice::slice_subrange(data, pos, end);
        proof {
            lemma_piece_count(data@.len(), sz, n);
            assert((n + 1) * sz == n * sz + sz) by (nonlinear_arith);
            assert(window@ == piece(data@, sz, n as int));
        }
        parts.push(vstd::slice::slice_to_vec(window));
        pos = end;
        proof {
            n = n + 1;
        }
    }
    proof {
        lemma_piece_count(data@.len(), sz, n);
    }
    assert(parts_view(parts@) =~= pieces(data@, sz));
    parts
}

/// Concatenate ordered chunk payloads back into the original byte stream.
pub fn reassemble(parts: &[Vec<u8>]) -> (r: Vec<u8>)
    ensures
        r@ == parts_view(parts@).flatten(),
{
    let mut out: Vec<u8> = Vec::new();
    let mut i: usize = 0;
    let ghost ps = parts_view(parts@);
    assert(ps.take(0) =~= seq![]);
    while i < parts.len()
        invariant
            i <= parts@.len(),
            ps == parts_view(parts@),
            out@ == ps.take(i as int).flatten(),
        decreases parts@.len() - i,
    {
        append_bytes(&mut out, parts[i].as_slice());
        proof {
            assert(ps.take(i + 1) =~= ps.take(i as int).push(ps[i as int]));
            ps.take(i as int).lemma_flatten_push(ps[i as int]);
        }
        i += 1;
    }
    assert(ps.take(parts@.len() as int) =~= ps);
    out
}

} // verus!

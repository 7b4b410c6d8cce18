//! How a file is cut, addressed and described, in both storage modes, and which nodes its parts
//! are weighed for.

use crate::chunk::{self, ChunkV};
use crate::erasure::{self, Erasure};
use crate::error::ErrorV;
use crate::gf;
use crate::hash;
use crate::linear;
use crate::placement;
use crate::protocol;
use crate::text;
use crate::varint;
use vstd::prelude::*;

verus! {

/// Every byte of a file is in the piece and at the place that its position gives, and there are
/// just as many pieces as it takes.
pub proof fn law_bytes_are_in_their_piece(data: Seq<u8>, size: nat, j: int)
    requires
        size > 0,
        0 <= j < data.len(),
    ensures
        ({
            let ps = chunk::pieces(data, size);
            let i = j / size as int;
            &&& 0 <= i < ps.len()
            &&& 0 <= j % (size as int) < ps[i].len() <= size
            &&& ps[i][j % size as int] == data[j]
            &&& (ps.len() - 1) * size < data.len() <= ps.len() * size
        }),
{
    let i = j / size as int;
    let n = chunk::piece_count(data.len(), size);
    vstd::arithmetic::div_mod::lemma_fundamental_div_mod(j, size as int);
    vstd::arithmetic::div_mod::lemma_div_pos_is_pos(j, size as int);
    assert(i * size == size * i) by (nonlinear_arith);
    assert((i + 1) * size == i * size + size) by (nonlinear_arith);
    assert(0 <= i * size) by (nonlinear_arith)
        requires
            0 <= i,
    ;
    chunk::lemma_piece_count(data.len(), size, i as nat);
    chunk::lemma_piece_count(data.len(), size, n);
    if n > 0 {
        chunk::lemma_piece_count(data.len(), size, (n - 1) as nat);
    }
    chunk::law_piece_sizes(data, size, i);
}

/// An empty file has no pieces.
pub proof fn law_empty_file_has_no_pieces(size: nat)
    requires
        size > 0,
    ensures
        chunk::pieces(Seq::empty(), size).len() == 0,
{
    chunk::lemma_piece_count(0, size, 0);
    assert(0 * size == 0) by (nonlinear_arith);
}

/// The chunks of a file are its pieces, each addressed by its own SHA-256.
pub proof fn law_chunks_are_addressed_pieces(data: Seq<u8>, size: nat, i: int)
    requires
        0 <= i < chunk::pieces(data, size).len(),
    ensures
        chunk::chunks_of(data, size).len() == chunk::pieces(data, size).len(),
        chunk::chunks_of(data, size)[i].data == chunk::pieces(data, size)[i],
        chunk::chunks_of(data, size)[i].id == hash::digest(chunk::pieces(data, size)[i]),
{
}

/// The manifest of a replicated file holds its length, the SHA-256 of all its bytes, and the
/// SHA-256 of each piece in file order.
pub proof fn law_manifest_describes_file(data: Seq<u8>, size: nat, i: int)
    requires
        data.len() <= u64::MAX,
        0 <= i < chunk::pieces(data, size).len(),
    ensures
        chunk::manifest_of(data, size).size == data.len(),
        chunk::manifest_of(data, size).content_hash == hash::digest(data),
        chunk::manifest_of(data, size).chunks.len() == chunk::pieces(data, size).len(),
        chunk::manifest_of(data, size).chunks[i] == hash::digest(chunk::pieces(data, size)[i]),
        chunk::manifest_of(data, size).erasure is None,
{
}

/// The manifest of an empty replicated file holds no chunk and the SHA-256 of nothing.
pub proof fn law_manifest_of_empty_file(size: nat)
    requires
        size > 0,
    ensures
        chunk::manifest_of(Seq::empty(), size).size == 0,
        chunk::manifest_of(Seq::empty(), size).content_hash == hash::digest(Seq::empty()),
        chunk::manifest_of(Seq::empty(), size).chunks.len() == 0,
        chunk::manifest_of(Seq::empty(), size).erasure is None,
{
    law_empty_file_has_no_pieces(size);
}

/// Among the distinct chunks is every chunk, once, with bytes that some chunk of that id has.
pub proof fn law_distinct_chunks(chunks: Seq<ChunkV>, n: nat, id: Seq<u8>)
    requires
        n <= chunks.len(),
    ensures
        protocol::distinct_chunks(chunks, n).dom().contains(id) <==> exists|i: int|
            0 <= i < n && (#[trigger] chunks[i]).id == id,
        protocol::distinct_chunks(chunks, n).dom().contains(id) ==> exists|i: int|
            0 <= i < n && (#[trigger] chunks[i]).id == id && chunks[i].data
                == protocol::distinct_chunks(chunks, n)[id] && forall|j: int|
                0 <= j < i ==> (#[trigger] chunks[j]).id != id,
    decreases n,
{
    if n > 0 {
        let m = (n - 1) as nat;
        law_distinct_chunks(chunks, m, id);
        let before = protocol::distinct_chunks(chunks, m);
        if before.dom().contains(id) {
            let i = choose|i: int|
                0 <= i < m && (#[trigger] chunks[i]).id == id && chunks[i].data == before[id]
                    && forall|j: int| 0 <= j < i ==> (#[trigger] chunks[j]).id != id;
            assert(chunks[i].id == id);
        } else if chunks[n - 1].id == id {
            assert(chunks[n - 1].id == id);
            assert(protocol::distinct_chunks(chunks, n)[id] == chunks[n - 1].data);
        }
    }
}

/// A chunk is cut into `k` data shards of equal length, as short as will do but never empty: each
/// byte of the chunk is at its place in them, and what is left over is zero.
pub proof fn law_data_shards_hold_the_chunk(c: Seq<u8>, k: nat, m: nat, pos: int, b: int)
    requires
        1 <= k,
        0 <= pos < k,
        0 <= b < erasure::shards(c, k, m)[pos].len(),
    ensures
        ({
            let ss = erasure::shards(c, k, m);
            let len = ss[0].len();
            &&& ss.len() == k + m
            &&& ss[pos].len() == len
            &&& pos * len + b < c.len() ==> ss[pos][b] == c[pos * len + b]
            &&& pos * len + b >= c.len() ==> ss[pos][b] == 0
        }),
{
    erasure::lemma_data_shard(c, k, pos as nat);
}

/// All shards of a chunk have the same length: enough for `k` of them to hold the chunk, one byte
/// at least, and one byte less would not be enough.
pub proof fn law_shard_length(c: Seq<u8>, k: nat, m: nat, pos: int)
    requires
        1 <= k,
        0 <= pos < k + m,
    ensures
        ({
            let len = erasure::shards(c, k, m)[pos].len();
            &&& len >= 1
            &&& len * k >= c.len()
            &&& len == 1 || (len - 1) * k < c.len()
        }),
{
    let n = c.len() as int;
    let q = (n + k - 1) / k as int;
    vstd::arithmetic::div_mod::lemma_fundamental_div_mod(n + k - 1, k as int);
    let r = (n + k - 1) % k as int;
    assert(n + k - 1 == k * q + r);
    assert(0 <= r < k);
    assert(k * q == q * k) by (nonlinear_arith);
    assert((q - 1) * k == q * k - k) by (nonlinear_arith);
    vstd::arithmetic::div_mod::lemma_div_pos_is_pos(n + k - 1, k as int);
    if q == 0 {
        assert(0 * k == 0) by (nonlinear_arith);
        assert(1 * k == k) by (nonlinear_arith);
    }
}

/// The manifest of an erasure-coded file holds its length, the SHA-256 of all its bytes, the
/// scheme, and the SHA-256 of every shard of every piece, in file order and by position.
pub proof fn law_erasure_manifest_describes_file(
    bytes: Seq<u8>,
    size: nat,
    er: Erasure,
    g: int,
    i: int,
)
    requires
        bytes.len() <= u64::MAX,
        er.k <= 255,
        er.m <= 255,
        0 <= g < chunk::pieces(bytes, size).len(),
        0 <= i < er.k + er.m,
    ensures
        ({
            let m = protocol::erasure_manifest(bytes, size, er);
            let ps = chunk::pieces(bytes, size);
            &&& m.size == bytes.len()
            &&& m.content_hash == hash::digest(bytes)
            &&& m.erasure == Some((er.k as u8, er.m as u8))
            &&& m.chunks.len() == ps.len() * (er.k + er.m)
            &&& m.chunks[g * (er.k + er.m) + i] == hash::digest(
                erasure::shards(ps[g], er.k as nat, er.m as nat)[i],
            )
        }),
{
    let groups = protocol::shard_groups(bytes, size, er);
    lemma_flat_ids(groups, groups.len(), (er.k + er.m) as nat, g, i);
}

proof fn lemma_flat_ids(groups: Seq<Seq<ChunkV>>, n: nat, total: nat, g: int, i: int)
    requires
        n <= groups.len(),
        forall|h: int| 0 <= h < n ==> (#[trigger] groups[h]).len() == total,
    ensures
        protocol::flat_ids(groups, n).len() == n * total,
        0 <= g < n && 0 <= i < total ==> protocol::flat_ids(groups, n)[g * total + i]
            == groups[g][i].id,
    decreases n,
{
    if n == 0 {
        assert(0 * total == 0) by (nonlinear_arith);
    } else {
        let m = (n - 1) as nat;
        lemma_flat_ids(groups, m, total, g, i);
        assert(n * total == m * total + total) by (nonlinear_arith)
            requires
                n == m + 1,
        ;
        if 0 <= g < m && 0 <= i < total {
            assert(g * total + i < m * total) by (nonlinear_arith)
                requires
                    g + 1 <= m,
                    i < total,
            ;
            assert(0 <= g * total) by (nonlinear_arith)
                requires
                    0 <= g,
            ;
        }
        assert(protocol::ids_of(groups[m as int]).len() == total);
    }
}

/// The length that a read takes a group to have is that of its piece.
pub proof fn law_group_lengths(bytes: Seq<u8>, size: nat, g: nat)
    requires
        size > 0,
        g < chunk::pieces(bytes, size).len(),
    ensures
        protocol::group_len(bytes.len(), size, g) == chunk::pieces(bytes, size)[g as int].len(),
{
    chunk::lemma_piece_count(bytes.len(), size, g);
    chunk::law_piece_sizes(bytes, size, g as int);
    assert((g + 1) * size == g * size + size) by (nonlinear_arith);
    assert(0 <= g * size) by (nonlinear_arith);
}

/// Of the shards of a group, a read takes those that it has, of the length that they should have,
/// each at its position.
pub proof fn law_group_slots(
    got: protocol::Gathered,
    ids: Seq<Seq<u8>>,
    len: nat,
    er: Erasure,
    i: int,
    d: Seq<u8>,
)
    requires
        0 <= i < ids.len(),
    ensures
        protocol::group_slots(got, ids, len, er).len() == ids.len(),
        protocol::group_slots(got, ids, len, er)[i] == Some(d) <==> got.have.dom().contains(ids[i])
            && got.have[ids[i]] == d && d.len() == erasure::stored_len(len, er.k as nat),
{
}

/// Decoding refuses too few or too many positions, and says how many shards it needs and has when
/// it has too few of them.
pub proof fn law_decoding_refuses(slots: Seq<Option<Seq<u8>>>, k: nat, m: nat, len: nat)
    ensures
        slots.len() != k + m ==> erasure::decoded(slots, k, m, len) == Err::<Seq<u8>, ErrorV>(
            ErrorV::IntegrityError,
        ),
        slots.len() == k + m && held(slots, slots.len()) < k ==> erasure::decoded(slots, k, m, len)
            == Err::<Seq<u8>, ErrorV>(
            ErrorV::ChunkUnavailable(
                "erasure decode needs "@ + text::decimal(k) + " shards, "@ + text::decimal(
                    held(slots, slots.len()),
                ) + " available"@,
            ),
        ),
{
    lemma_present_count(slots, slots.len());
}

/// How many of the first `n` positions hold a shard.
pub open spec fn held(slots: Seq<Option<Seq<u8>>>, n: nat) -> nat
    decreases n,
{
    if n == 0 {
        0
    } else {
        held(slots, (n - 1) as nat) + if slots[n - 1] is Some {
            1nat
        } else {
            0nat
        }
    }
}

proof fn lemma_present_count(slots: Seq<Option<Seq<u8>>>, n: nat)
    ensures
        erasure::present(slots, n).len() == held(slots, n),
    decreases n,
{
    if n > 0 {
        lemma_present_count(slots, (n - 1) as nat);
    }
}

/// The node that a shard goes to is the best that is not in use, if there is one.
pub proof fn law_first_free(ranking: Seq<u32>, used: Set<u32>, n: nat)
    ensures
        ({
            let x = protocol::first_free(ranking, used, n);
            ||| exists|k: int|
                n <= k < ranking.len() && #[trigger] ranking[k] == x && !used.contains(x)
                    && forall|j: int| n <= j < k ==> used.contains(#[trigger] ranking[j])
            ||| x == ranking[0] && forall|j: int|
                n <= j < ranking.len() ==> used.contains(#[trigger] ranking[j])
        }),
    decreases ranking.len() - n,
{
    if n < ranking.len() {
        if !used.contains(ranking[n as int]) {
            assert(ranking[n as int] == protocol::first_free(ranking, used, n));
        } else {
            law_first_free(ranking, used, n + 1);
            let x = protocol::first_free(ranking, used, n + 1);
            if exists|k: int|
                n + 1 <= k < ranking.len() && #[trigger] ranking[k] == x && !used.contains(x)
                    && forall|j: int| n + 1 <= j < k ==> used.contains(#[trigger] ranking[j]) {
                let k = choose|k: int|
                    n + 1 <= k < ranking.len() && #[trigger] ranking[k] == x && !used.contains(x)
                        && forall|j: int| n + 1 <= j < k ==> used.contains(#[trigger] ranking[j]);
                assert(ranking[k] == x);
            }
        }
    }
}

/// The weight of a node for a chunk is the number that the first eight bytes of a SHA-256 make,
/// most significant first: of the node's number in four bytes, least significant first, and then
/// the chunk's id.
pub proof fn law_weight(node: u32, id: Seq<u8>)
    ensures
        ({
            let n = node as int;
            let d = hash::digest(
                seq![
                    (n % 256) as u8,
                    (n / 256 % 256) as u8,
                    (n / 65536 % 256) as u8,
                    (n / 16777216) as u8,
                ] + id,
            );
            placement::weight_of(node, id) == d[0] * 0x100_0000_0000_0000 + d[1] * 0x1_0000_0000_0000
                + d[2] * 0x100_0000_0000 + d[3] * 0x1_0000_0000 + d[4] * 0x100_0000 + d[5] * 0x1_0000
                + d[6] * 0x100 + d[7]
        }),
{
    reveal(placement::weight_of);
    let n = node as int;
    let bytes = seq![
        (n % 256) as u8,
        (n / 256 % 256) as u8,
        (n / 65536 % 256) as u8,
        (n / 16777216) as u8,
    ];
    assert(node as u8 == (node % 256) as u8 && (node >> 8) as u8 == (node / 256 % 256) as u8 && (node
        >> 16) as u8 == (node / 65536 % 256) as u8 && (node >> 24) as u8 == (node
        / 16777216) as u8) by (bit_vector);
    assert(placement::node_bytes(node) =~= bytes);
    let d = hash::digest(bytes + id);
    hash::law_digest_length(bytes + id);
    let s = d.take(8);
    reveal_with_fuel(placement::big_endian, 9);
    assert(s.drop_last() =~= d.take(7));
    assert(d.take(7).drop_last() =~= d.take(6));
    assert(d.take(6).drop_last() =~= d.take(5));
    assert(d.take(5).drop_last() =~= d.take(4));
    assert(d.take(4).drop_last() =~= d.take(3));
    assert(d.take(3).drop_last() =~= d.take(2));
    assert(d.take(2).drop_last() =~= d.take(1));
    assert(d.take(1).drop_last() =~= d.take(0));
    assert(placement::big_endian(d.take(0)) == 0);
    assert(placement::big_endian(d.take(1)) == d[0]);
    assert(placement::big_endian(d.take(2)) == 256 * d[0] + d[1]);
    assert(placement::big_endian(d.take(3)) == 256 * placement::big_endian(d.take(2)) + d[2]);
    assert(placement::big_endian(d.take(4)) == 256 * placement::big_endian(d.take(3)) + d[3]);
    assert(placement::big_endian(d.take(5)) == 256 * placement::big_endian(d.take(4)) + d[4]);
    assert(placement::big_endian(d.take(6)) == 256 * placement::big_endian(d.take(5)) + d[5]);
    assert(placement::big_endian(d.take(7)) == 256 * placement::big_endian(d.take(6)) + d[6]);
    assert(placement::big_endian(d.take(8)) == 256 * placement::big_endian(d.take(7)) + d[7]);
}

/// Nodes are ranked by weight, the heavier first, and by number, the lower first, where weights are
/// equal.
pub proof fn law_ranking(id: Seq<u8>, a: u32, b: u32)
    ensures
        placement::weight_of(a, id) > placement::weight_of(b, id) ==> placement::ranks(id, a, b)
            && !placement::ranks(id, b, a),
        placement::weight_of(a, id) == placement::weight_of(b, id) && a < b ==> placement::ranks(
            id,
            a,
            b,
        ) && !placement::ranks(id, b, a),
{
}

/// A message is padded, before it is hashed, with one bit, then with zeros, then with its length in
/// bits in eight bytes, most significant first, up to the next whole block.
pub proof fn law_padding(msg: Seq<u8>, i: int)
    requires
        msg.len() < 0x2000_0000_0000_0000,
    ensures
        ({
            let p = hash::pad(msg);
            let n = p.len() as int;
            &&& n % 64 == 0
            &&& msg.len() + 9 <= n < msg.len() + 9 + 64
            &&& p.subrange(0, msg.len() as int) == msg
            &&& p[msg.len() as int] == 0x80
            &&& msg.len() < i < n - 8 ==> p[i] == 0
            &&& p[n - 8] * 0x100_0000_0000_0000 + p[n - 7] * 0x1_0000_0000_0000 + p[n - 6]
                * 0x100_0000_0000 + p[n - 5] * 0x1_0000_0000 + p[n - 4] * 0x100_0000 + p[n - 3]
                * 0x1_0000 + p[n - 2] * 0x100 + p[n - 1] == 8 * msg.len()
        }),
{
    let l = msg.len() as u64;
    let bits = l.wrapping_mul(8);
    assert(bits == 8 * l);
    lemma_pad_shape(msg, i);
    lemma_length_bytes(bits);
}

proof fn lemma_pad_length(len: nat)
    ensures
        (len + 9 + hash::zero_count(len)) % 64 == 0,
        hash::zero_count(len) < 64,
{
    let z = hash::zero_count(len);
    let q = len / 64;
    let r = len % 64;
    assert(len == 64 * q + r);
    if r <= 55 {
        assert(z == 55 - r);
        assert(len + 9 + z == 64 * (q + 1));
    } else {
        assert(z == 119 - r);
        assert(len + 9 + z == 64 * (q + 2));
    }
}

proof fn lemma_pad_shape(msg: Seq<u8>, i: int)
    ensures
        ({
            let p = hash::pad(msg);
            let n = p.len() as int;
            let t = hash::length_bytes((msg.len() as u64).wrapping_mul(8));
            &&& n % 64 == 0
            &&& msg.len() + 9 <= n < msg.len() + 9 + 64
            &&& p.subrange(0, msg.len() as int) == msg
            &&& p[msg.len() as int] == 0x80
            &&& msg.len() < i < n - 8 ==> p[i] == 0
            &&& p[n - 8] == t[0] && p[n - 7] == t[1] && p[n - 6] == t[2] && p[n - 5] == t[3]
            &&& p[n - 4] == t[4] && p[n - 3] == t[5] && p[n - 2] == t[6] && p[n - 1] == t[7]
        }),
{
    let p = hash::pad(msg);
    lemma_pad_length(msg.len());
    assert(p.len() == msg.len() + 1 + hash::zero_count(msg.len()) + 8);
    assert(p.subrange(0, msg.len() as int) =~= msg);
}

proof fn lemma_length_bytes(n: u64)
    ensures
        ({
            let t = hash::length_bytes(n);
            t[0] * 0x100_0000_0000_0000 + t[1] * 0x1_0000_0000_0000 + t[2] * 0x100_0000_0000 + t[3]
                * 0x1_0000_0000 + t[4] * 0x100_0000 + t[5] * 0x1_0000 + t[6] * 0x100 + t[7] == n
        }),
{
    assert((n >> 56) as u8 == n / 0x100_0000_0000_0000 && (n >> 48) as u8 == n / 0x1_0000_0000_0000
        % 256 && (n >> 40) as u8 == n / 0x100_0000_0000 % 256 && (n >> 32) as u8 == n / 0x1_0000_0000
        % 256 && (n >> 24) as u8 == n / 0x100_0000 % 256 && (n >> 16) as u8 == n / 0x1_0000 % 256
        && (n >> 8) as u8 == n / 0x100 % 256 && n as u8 == n % 256) by (bit_vector);
    assert(n / 0x100 / 0x100 == n / 0x1_0000);
    assert(n / 0x1_0000 / 0x100 == n / 0x100_0000);
    assert(n / 0x100_0000 / 0x100 == n / 0x1_0000_0000);
    assert(n / 0x1_0000_0000 / 0x100 == n / 0x100_0000_0000);
    assert(n / 0x100_0000_0000 / 0x100 == n / 0x1_0000_0000_0000);
    assert(n / 0x1_0000_0000_0000 / 0x100 == n / 0x100_0000_0000_0000);
}

/// A number is written in bytes of seven bits, the lowest first, each but the last marked by its
/// top bit, with no byte more than it takes.
pub proof fn law_varint_bytes(v: nat, i: int)
    requires
        0 <= i < varint::leb(v).len(),
    ensures
        v < 128 ==> varint::leb(v) == seq![v as u8],
        v >= 128 ==> varint::leb(v)[0] % 128 == v % 128 && varint::leb(v).skip(1) == varint::leb(
            v / 128,
        ),
        i < varint::leb(v).len() - 1 <==> varint::leb(v)[i] >= 128,
        varint::leb(v).len() > 1 ==> varint::leb(v).last() != 0,
    decreases v,
{
    let s = varint::leb(v);
    if v >= 128 {
        let t = varint::leb(v / 128);
        assert(s.skip(1) =~= t);
        lemma_leb_some(v / 128);
        law_varint_bytes(
            v / 128,
            if i > 0 {
                i - 1
            } else {
                0
            },
        );
        if i > 0 {
            assert(s[i] == t[i - 1]);
        }
        assert(s.last() == t.last());
        if t.len() == 1 {
            assert(v / 128 < 128) by {
                if v / 128 >= 128 {
                    lemma_leb_some(v / 128 / 128);
                }
            }
        }
    }
}

proof fn lemma_leb_some(v: nat)
    ensures
        varint::leb(v).len() > 0,
{
}

/// Bytes that hold no number in ten bytes of seven bits, or hold one that does not fit 64 bits, are
/// refused: as cut short when each byte says that another follows, as too long when that goes on
/// past what fits.
pub proof fn law_varint_refusals(s: Seq<u8>)
    ensures
        s.len() < 10 && (forall|i: int| 0 <= i < s.len() ==> #[trigger] s[i] >= 128)
            ==> varint::groups(s, 0) == Err::<(nat, nat), ErrorV>(
            ErrorV::Decode("varint truncated"@),
        ),
        s.len() >= 10 && (forall|i: int| 0 <= i < 9 ==> #[trigger] s[i] >= 128) && s[9] != 0 && s[9]
            != 1 && s[9] != 128 && s[9] != 129 ==> varint::groups(s, 0) == Err::<(nat, nat), ErrorV>(
            ErrorV::Decode("varint too long"@),
        ),
        s.len() > 10 && (forall|i: int| 0 <= i < 10 ==> #[trigger] s[i] >= 128) ==> varint::groups(
            s,
            0,
        ) == Err::<(nat, nat), ErrorV>(ErrorV::Decode("varint too long"@)),
{
    lemma_varint_refusals(s, 0);
}

proof fn lemma_varint_refusals(s: Seq<u8>, i: nat)
    requires
        i <= 10,
    ensures
        s.len() + i < 10 && (forall|j: int| 0 <= j < s.len() ==> #[trigger] s[j] >= 128)
            ==> varint::groups(s, i) == Err::<(nat, nat), ErrorV>(
            ErrorV::Decode("varint truncated"@),
        ),
        i <= 9 && s.len() + i >= 10 && (forall|j: int| 0 <= j < 9 - i ==> #[trigger] s[j] >= 128)
            && s[9 - i] % 128 > 1 ==> varint::groups(s, i) == Err::<(nat, nat), ErrorV>(
            ErrorV::Decode("varint too long"@),
        ),
        s.len() + i > 10 && (forall|j: int| 0 <= j < 10 - i ==> #[trigger] s[j] >= 128)
            ==> varint::groups(s, i) == Err::<(nat, nat), ErrorV>(
            ErrorV::Decode("varint too long"@),
        ),
    decreases 10 - i,
{
    if s.len() > 0 && i < 10 {
        let t = s.skip(1);
        lemma_varint_refusals(t, i + 1);
        assert forall|j: int| 0 <= j < t.len() implies #[trigger] t[j] == s[j + 1] by {}
        if (forall|j: int| 0 <= j < s.len() ==> #[trigger] s[j] >= 128) && s.len() + i < 10 {
            assert forall|j: int| 0 <= j < t.len() implies #[trigger] t[j] >= 128 by {
                assert(s[j + 1] >= 128);
            }
        }
        if i < 9 && s.len() + i >= 10 && (forall|j: int| 0 <= j < 9 - i ==> #[trigger] s[j] >= 128) {
            assert(s[0] >= 128);
            assert forall|j: int| 0 <= j < 9 - (i + 1) implies #[trigger] t[j] >= 128 by {
                assert(s[j + 1] >= 128);
            }
            assert(t[9 - (i + 1)] == s[9 - i]);
        }
        if s.len() + i > 10 && (forall|j: int| 0 <= j < 10 - i ==> #[trigger] s[j] >= 128) {
            assert(s[0] >= 128);
            assert forall|j: int| 0 <= j < 10 - (i + 1) implies #[trigger] t[j] >= 128 by {
                assert(s[j + 1] >= 128);
            }
        }
    }
}

/// Doubling in the field shifts left, and what falls out at the top comes back as 0x1d; one is
/// neutral; and a product grows with each factor by exclusive or.
pub proof fn law_field(a: u8, b: u8, c: u8)
    ensures
        a < 128 ==> gf::gmul(a, 2) == 2 * a,
        a >= 128 ==> gf::gmul(a, 2) == ((2 * a - 256) as u8) ^ 0x1d,
        gf::gmul(a, 1) == a,
        gf::gmul(a, 0) == 0,
        gf::gmul(a, b ^ c) == gf::gmul(a, b) ^ gf::gmul(a, c),
{
    gf::lemma_gmul_distributes(a, b, c);
    assert(gf::gmul(a, 1) == a && gf::gmul(a, 0) == 0) by (bit_vector);
    assert(gf::gmul(a, 2) == gf::xtime(a)) by (bit_vector);
    if a < 128 {
        assert(gf::xtime(a) == 2 * a) by (bit_vector)
            requires
                a < 128,
        ;
    } else {
        assert(gf::xtime(a) == ((2 * a - 256) as u8) ^ 0x1d) by (bit_vector)
            requires
                a >= 128,
        ;
    }
}

/// A parity shard adds up the data shards, each weighed by the inverse of its position exclusive-or
/// the parity shard's own.
pub proof fn law_parity_shards(c: Seq<u8>, k: nat, m: nat, pos: int, j: int, b: int)
    requires
        1 <= k,
        k <= pos < k + m <= 256,
        0 <= j < k,
        0 <= b < erasure::shards(c, k, m)[pos].len(),
    ensures
        ({
            let ss = erasure::shards(c, k, m);
            let weights = erasure::row(k, pos as nat);
            &&& weights.len() == k
            &&& gf::gmul(pos as u8 ^ j as u8, weights[j]) == 1
            &&& ss[pos][b] == added_up(ss, weights, b, k)
        }),
{
    let x = pos as u8;
    let y = j as u8;
    assert(x ^ y != 0) by (bit_vector)
        requires
            x != y,
    ;
    gf::lemma_ginv(x ^ y);
    let ss = erasure::shards(c, k, m);
    lemma_added_up(c, k, m, erasure::row(k, pos as nat), b, k);
}

/// The bytes at one place of the first `n` data shards, weighed and added up.
pub open spec fn added_up(ss: Seq<Seq<u8>>, weights: Seq<u8>, b: int, n: nat) -> u8
    decreases n,
{
    if n == 0 {
        0
    } else {
        added_up(ss, weights, b, (n - 1) as nat) ^ gf::gmul(weights[n - 1], ss[n - 1][b])
    }
}

proof fn lemma_added_up(c: Seq<u8>, k: nat, m: nat, weights: Seq<u8>, b: int, n: nat)
    requires
        n <= k,
        0 <= b < erasure::stored_len(c.len(), k),
    ensures
        linear::dot(weights, erasure::data_column(c, k, b), n) == added_up(
            erasure::shards(c, k, m),
            weights,
            b,
            n,
        ),
    decreases n,
{
    if n > 0 {
        lemma_added_up(c, k, m, weights, b, (n - 1) as nat);
        erasure::lemma_data_shard(c, k, (n - 1) as nat);
    }
}

/// A message is hashed block by block of 64 bytes, and what was hashed before decides, with the
/// next block, what comes after. The digest is the state after the last block of the padded message.
pub proof fn law_blocks_are_hashed_in_turn(msg: Seq<u8>, more: Seq<u8>, n: nat)
    requires
        64 * n <= msg.len(),
    ensures
        hash::absorbed(msg + more, n) == hash::absorbed(msg, n),
        hash::absorbed(msg, 0) == hash::initial_state(),
        hash::digest(msg) == hash::state_bytes(
            hash::absorbed(hash::pad(msg), hash::pad(msg).len() / 64),
        ),
    decreases n,
{
    reveal(hash::digest);
    if n > 0 {
        law_blocks_are_hashed_in_turn(msg, more, (n - 1) as nat);
        assert((msg + more).subrange(64 * (n - 1), 64 * n as int) =~= msg.subrange(
            64 * (n - 1),
            64 * n as int,
        ));
    }
}

/// The functions on words that a round is made of: a choice takes each bit from the second word
/// where the first has a one and from the third where it has a zero, a majority takes what two of
/// three words have, and a rotation is undone by the rotation of what is left of 32 bits.
pub proof fn law_word_functions(x: u32, y: u32, z: u32, n: u32)
    requires
        0 < n < 32,
    ensures
        hash::ch(x, y, z) & x == y & x,
        hash::ch(x, y, z) & !x == z & !x,
        hash::maj(x, x, z) == x,
        hash::maj(x, y, x) == x,
        hash::maj(x, y, y) == y,
        hash::rotr(hash::rotr(x, n), (32 - n) as u32) == x,
{
    assert(((x & y) ^ (!x & z)) & x == y & x && ((x & y) ^ (!x & z)) & !x == z & !x) by (bit_vector);
    assert((x & x) ^ (x & z) ^ (x & z) == x && (x & y) ^ (x & x) ^ (y & x) == x && (x & y) ^ (x & y)
        ^ (y & y) == y) by (bit_vector);
    let r: u32 = (32 - n) as u32;
    assert((((x >> n) | (x << r)) >> r) | (((x >> n) | (x << r)) << n) == x) by (bit_vector)
        requires
            0 < n < 32,
            r == 32 - n,
    ;
}

/// Decoding refuses shards of different lengths, and gives no more bytes than were asked for or the
/// shards can hold.
pub proof fn law_decoded_length(slots: Seq<Option<Seq<u8>>>, k: nat, m: nat, len: nat, t: int)
    requires
        1 <= k,
        slots.len() == k + m,
        erasure::present(slots, slots.len()).len() >= k,
        0 <= t < k,
    ensures
        ({
            let at = erasure::present(slots, slots.len());
            let first = slots[at[0] as int]->Some_0.len();
            let r = erasure::decoded(slots, k, m, len);
            &&& slots[at[t] as int]->Some_0.len() != first ==> r == Err::<Seq<u8>, ErrorV>(
                ErrorV::IntegrityError,
            )
            &&& r matches Ok(bytes) ==> bytes.len() <= len && bytes.len() <= k * first && (
            bytes.len() == len || bytes.len() == k * first)
        }),
{
    let at = erasure::present(slots, slots.len());
    let c = erasure::chosen(slots, k);
    assert(c[t] == at[t]);
    assert(c[0] == at[0]);
}

/// The shard length of a chunk is the least of which `k` make up the chunk.
pub proof fn law_shard_len(len: nat, k: nat)
    requires
        1 <= k,
    ensures
        erasure::quotient_up(len, k) * k >= len,
        erasure::quotient_up(len, k) == 0 <==> len == 0,
        len > 0 ==> (erasure::quotient_up(len, k) - 1) * k < len,
{
    let q = (len + k - 1) / k as int;
    let r = (len + k - 1) % k as int;
    vstd::arithmetic::div_mod::lemma_fundamental_div_mod(len + k - 1, k as int);
    vstd::arithmetic::div_mod::lemma_div_pos_is_pos(len + k - 1, k as int);
    assert(k * q == q * k) by (nonlinear_arith);
    assert((q - 1) * k == q * k - k) by (nonlinear_arith);
    if q == 0 {
        assert(q * k == 0) by (nonlinear_arith)
            requires
                q == 0,
        ;
    }
    if len == 0 && q >= 1 {
        assert(q * k >= k) by (nonlinear_arith)
            requires
                q >= 1,
                k >= 1,
        ;
    }
}

/// A shard is made anew from the data shards by weighing and adding up their bytes, place by place.
pub proof fn law_shard_made_anew(g: Seq<Seq<u8>>, weights: Seq<u8>, k: nat, sl: nat, b: int)
    requires
        k <= g.len(),
        0 <= b < sl,
    ensures
        erasure::weighted(weights, g, k, sl).len() == sl,
        erasure::weighted(weights, g, k, sl)[b] == added_up(g, weights, b, k),
        g.len() > 0 ==> erasure::first_len(g) == g[0].len(),
{
    lemma_weighted(g, weights, k, k, b);
}

proof fn lemma_weighted(g: Seq<Seq<u8>>, weights: Seq<u8>, k: nat, n: nat, b: int)
    requires
        n <= k <= g.len(),
    ensures
        linear::dot(weights, erasure::column_of(g, k, b), n) == added_up(g, weights, b, n),
    decreases n,
{
    if n > 0 {
        lemma_weighted(g, weights, k, (n - 1) as nat, b);
    }
}

} // verus!

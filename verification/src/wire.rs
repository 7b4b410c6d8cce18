//! The byte layout of messages: what is written, what reading gives, and that reading what
//! was written gives it back.

use crate::chunk;
use crate::encode::{self, Step};
use crate::error::ErrorV;
use crate::message::{
    DirEntryV, MessageV, MetaOpV, MetaResult, NodeId, QueryResultV, QueryV, StatInfoV,
};
use crate::text;
use crate::varint;
use vstd::prelude::*;

verus! {

/// The error for an unknown tag byte.
pub open spec fn bad_tag<T>(what: Seq<char>, tag: u8, rest: Seq<u8>) -> Step<T> {
    encode::failed(ErrorV::Decode(what + text::decimal(tag as nat)), rest)
}

/// The byte of a flag.
pub open spec fn flag(b: bool) -> u8 {
    if b {
        1
    } else {
        0
    }
}

/// The bytes of a node id.
pub open spec fn node_wire(n: NodeId) -> Seq<u8> {
    match n {
        NodeId::Client => seq![0u8],
        NodeId::Storage(i) => seq![1u8] + varint::leb(i as nat),
        NodeId::Meta(i) => seq![2u8] + varint::leb(i as nat),
    }
}

/// Reading a node id. An index keeps its low 32 bits.
#[verifier::opaque]
pub open spec fn node_at(s: Seq<u8>) -> Step<NodeId> {
    let t = encode::u8_at(s);
    match t.out {
        Err(e) => encode::failed(e, t.rest),
        Ok(tag) => if tag == 0 {
            encode::done(NodeId::Client, t.rest)
        } else if tag == 1 || tag == 2 {
            let i = encode::uvarint_at(t.rest);
            match i.out {
                Err(e) => encode::failed(e, i.rest),
                Ok(v) => encode::done(
                    if tag == 1 {
                        NodeId::Storage(v as u32)
                    } else {
                        NodeId::Meta(v as u32)
                    },
                    i.rest,
                ),
            }
        } else {
            bad_tag("bad node tag "@, tag, t.rest)
        },
    }
}

/// A node id read where it was written is that node id.
pub proof fn law_node_round_trip(n: NodeId, rest: Seq<u8>)
    ensures
        node_at(node_wire(n) + rest) == encode::done(n, rest),
{
    reveal(node_at);
    match n {
        NodeId::Client => {
            encode::law_u8_round_trip(0, rest);
        },
        NodeId::Storage(i) => {
            assert(node_wire(n) + rest =~= seq![1u8] + (varint::leb(i as nat) + rest));
            encode::law_u8_round_trip(1, varint::leb(i as nat) + rest);
            encode::law_uvarint_round_trip(i as u64, rest);
        },
        NodeId::Meta(i) => {
            assert(node_wire(n) + rest =~= seq![2u8] + (varint::leb(i as nat) + rest));
            encode::law_u8_round_trip(2, varint::leb(i as nat) + rest);
            encode::law_uvarint_round_trip(i as u64, rest);
        },
    }
}

/// Bytes after a node id do not change how it reads.
proof fn lemma_node_extended(s: Seq<u8>, t: Seq<u8>)
    ensures
        encode::extends_to(node_at(s), node_at(s + t), t),
{
    reveal(node_at);
    encode::lemma_u8_extended(s, t);
    encode::lemma_uvarint_extended(encode::u8_at(s).rest, t);
}

/// The bytes of a metadata operation.
pub open spec fn op_wire(op: MetaOpV) -> Seq<u8> {
    match op {
        MetaOpV::Put { path, manifest } => seq![0u8] + encode::str_wire(path) + manifest.wire(),
        MetaOpV::Mkdir { path } => seq![1u8] + encode::str_wire(path),
        MetaOpV::Delete { path } => seq![2u8] + encode::str_wire(path),
        MetaOpV::Rename { from, to } => seq![3u8] + encode::str_wire(from) + encode::str_wire(to),
    }
}

/// Whether a metadata operation's parts fit their prefixes.
pub open spec fn op_fits(op: MetaOpV) -> bool {
    match op {
        MetaOpV::Put { path, manifest } => encode::str_fits(path) && manifest.fits(),
        MetaOpV::Mkdir { path } => encode::str_fits(path),
        MetaOpV::Delete { path } => encode::str_fits(path),
        MetaOpV::Rename { from, to } => encode::str_fits(from) && encode::str_fits(to),
    }
}

/// Reading a metadata operation.
#[verifier::opaque]
pub open spec fn op_at(s: Seq<u8>) -> Step<MetaOpV> {
    let t = encode::u8_at(s);
    match t.out {
        Err(e) => encode::failed(e, t.rest),
        Ok(tag) => if tag > 3 {
            bad_tag("bad metaop tag "@, tag, t.rest)
        } else {
            let p = encode::str_at(t.rest);
            match p.out {
                Err(e) => encode::failed(e, p.rest),
                Ok(path) => if tag == 0 {
                    let m = chunk::manifest_at(p.rest);
                    match m.out {
                        Err(e) => encode::failed(e, m.rest),
                        Ok(manifest) => encode::done(MetaOpV::Put { path, manifest }, m.rest),
                    }
                } else if tag == 1 {
                    encode::done(MetaOpV::Mkdir { path }, p.rest)
                } else if tag == 2 {
                    encode::done(MetaOpV::Delete { path }, p.rest)
                } else {
                    let q = encode::str_at(p.rest);
                    match q.out {
                        Err(e) => encode::failed(e, q.rest),
                        Ok(to) => encode::done(MetaOpV::Rename { from: path, to }, q.rest),
                    }
                },
            }
        },
    }
}

/// A metadata operation read where it was written is that operation.
pub proof fn law_op_round_trip(op: MetaOpV, rest: Seq<u8>)
    requires
        op_fits(op),
    ensures
        op_at(op_wire(op) + rest) == encode::done(op, rest),
{
    reveal(op_at);
    match op {
        MetaOpV::Put { path, manifest } => {
            let r1 = manifest.wire() + rest;
            let r0 = encode::str_wire(path) + r1;
            assert(op_wire(op) + rest =~= seq![0u8] + r0);
            encode::law_u8_round_trip(0, r0);
            encode::law_str_round_trip(path, r1);
            chunk::law_manifest_round_trip(manifest, rest);
        },
        MetaOpV::Mkdir { path } => {
            let r0 = encode::str_wire(path) + rest;
            assert(op_wire(op) + rest =~= seq![1u8] + r0);
            encode::law_u8_round_trip(1, r0);
            encode::law_str_round_trip(path, rest);
        },
        MetaOpV::Delete { path } => {
            let r0 = encode::str_wire(path) + rest;
            assert(op_wire(op) + rest =~= seq![2u8] + r0);
            encode::law_u8_round_trip(2, r0);
            encode::law_str_round_trip(path, rest);
        },
        MetaOpV::Rename { from, to } => {
            let r1 = encode::str_wire(to) + rest;
            let r0 = encode::str_wire(from) + r1;
            assert(op_wire(op) + rest =~= seq![3u8] + r0);
            encode::law_u8_round_trip(3, r0);
            encode::law_str_round_trip(from, r1);
            encode::law_str_round_trip(to, rest);
        },
    }
}

/// Bytes after an operation do not change how it reads.
proof fn lemma_op_extended(s: Seq<u8>, t: Seq<u8>)
    ensures
        encode::extends_to(op_at(s), op_at(s + t), t),
{
    reveal(op_at);
    let a = encode::u8_at(s);
    let p = encode::str_at(a.rest);
    encode::lemma_u8_extended(s, t);
    encode::lemma_str_extended(a.rest, t);
    encode::lemma_str_extended(p.rest, t);
    chunk::law_manifest_extended(p.rest, t);
}

/// The path of a query.
pub open spec fn query_path(q: QueryV) -> Seq<char> {
    match q {
        QueryV::Get { path } => path,
        QueryV::List { path } => path,
        QueryV::Stat { path } => path,
    }
}

/// The bytes of a query.
pub open spec fn query_wire(q: QueryV) -> Seq<u8> {
    match q {
        QueryV::Get { path } => seq![0u8] + encode::str_wire(path),
        QueryV::List { path } => seq![1u8] + encode::str_wire(path),
        QueryV::Stat { path } => seq![2u8] + encode::str_wire(path),
    }
}

/// Reading a query.
#[verifier::opaque]
pub open spec fn query_at(s: Seq<u8>) -> Step<QueryV> {
    let t = encode::u8_at(s);
    match t.out {
        Err(e) => encode::failed(e, t.rest),
        Ok(tag) => if tag > 2 {
            bad_tag("bad query tag "@, tag, t.rest)
        } else {
            let p = encode::str_at(t.rest);
            match p.out {
                Err(e) => encode::failed(e, p.rest),
                Ok(path) => encode::done(
                    if tag == 0 {
                        QueryV::Get { path }
                    } else if tag == 1 {
                        QueryV::List { path }
                    } else {
                        QueryV::Stat { path }
                    },
                    p.rest,
                ),
            }
        },
    }
}

/// A query read where it was written is that query.
pub proof fn law_query_round_trip(q: QueryV, rest: Seq<u8>)
    requires
        encode::str_fits(query_path(q)),
    ensures
        query_at(query_wire(q) + rest) == encode::done(q, rest),
{
    reveal(query_at);
    let path = query_path(q);
    let tag = match q {
        QueryV::Get { .. } => 0u8,
        QueryV::List { .. } => 1u8,
        QueryV::Stat { .. } => 2u8,
    };
    let r0 = encode::str_wire(path) + rest;
    assert(query_wire(q) + rest =~= seq![tag] + r0);
    encode::law_u8_round_trip(tag, r0);
    encode::law_str_round_trip(path, rest);
}

/// Bytes after a query do not change how it reads.
proof fn lemma_query_extended(s: Seq<u8>, t: Seq<u8>)
    ensures
        encode::extends_to(query_at(s), query_at(s + t), t),
{
    reveal(query_at);
    encode::lemma_u8_extended(s, t);
    encode::lemma_str_extended(encode::u8_at(s).rest, t);
}

/// The bytes of an operation's outcome.
pub open spec fn result_wire(r: MetaResult) -> Seq<u8> {
    match r {
        MetaResult::Committed => seq![0u8],
        MetaResult::Rejected(c) => seq![1u8, c],
    }
}

/// Reading an operation's outcome.
#[verifier::opaque]
pub open spec fn result_at(s: Seq<u8>) -> Step<MetaResult> {
    let t = encode::u8_at(s);
    match t.out {
        Err(e) => encode::failed(e, t.rest),
        Ok(tag) => if tag == 0 {
            encode::done(MetaResult::Committed, t.rest)
        } else if tag == 1 {
            let c = encode::u8_at(t.rest);
            match c.out {
                Err(e) => encode::failed(e, c.rest),
                Ok(v) => encode::done(MetaResult::Rejected(v), c.rest),
            }
        } else {
            bad_tag("bad meta result tag "@, tag, t.rest)
        },
    }
}

/// An outcome read where it was written is that outcome.
pub proof fn law_result_round_trip(r: MetaResult, rest: Seq<u8>)
    ensures
        result_at(result_wire(r) + rest) == encode::done(r, rest),
{
    reveal(result_at);
    match r {
        MetaResult::Committed => {
            encode::law_u8_round_trip(0, rest);
        },
        MetaResult::Rejected(c) => {
            assert(result_wire(r) + rest =~= seq![1u8] + (seq![c] + rest));
            encode::law_u8_round_trip(1, seq![c] + rest);
            encode::law_u8_round_trip(c, rest);
        },
    }
}

/// Bytes after an outcome do not change how it reads.
proof fn lemma_result_extended(s: Seq<u8>, t: Seq<u8>)
    ensures
        encode::extends_to(result_at(s), result_at(s + t), t),
{
    reveal(result_at);
    encode::lemma_u8_extended(s, t);
    encode::lemma_u8_extended(encode::u8_at(s).rest, t);
}

/// The bytes of a listing entry.
pub open spec fn entry_wire(en: DirEntryV) -> Seq<u8> {
    encode::str_wire(en.name) + seq![flag(en.is_dir)] + varint::leb(en.size as nat)
}

/// Reading a listing entry.
#[verifier::opaque]
pub open spec fn entry_at(s: Seq<u8>) -> Step<DirEntryV> {
    let n = encode::str_at(s);
    match n.out {
        Err(e) => encode::failed(e, n.rest),
        Ok(name) => {
            let d = encode::u8_at(n.rest);
            match d.out {
                Err(e) => encode::failed(e, d.rest),
                Ok(b) => {
                    let z = encode::uvarint_at(d.rest);
                    match z.out {
                        Err(e) => encode::failed(e, z.rest),
                        Ok(size) => encode::done(
                            DirEntryV { name, is_dir: b != 0, size },
                            z.rest,
                        ),
                    }
                },
            }
        },
    }
}

/// A listing entry read where it was written is that entry.
pub proof fn law_entry_round_trip(en: DirEntryV, rest: Seq<u8>)
    requires
        encode::str_fits(en.name),
    ensures
        entry_at(entry_wire(en) + rest) == encode::done(en, rest),
{
    reveal(entry_at);
    let r1 = varint::leb(en.size as nat) + rest;
    let r0 = seq![flag(en.is_dir)] + r1;
    assert(entry_wire(en) + rest =~= encode::str_wire(en.name) + r0);
    encode::law_str_round_trip(en.name, r0);
    encode::law_u8_round_trip(flag(en.is_dir), r1);
    encode::law_uvarint_round_trip(en.size, rest);
}

/// Bytes after a listing entry do not change how it reads.
proof fn lemma_entry_extended(s: Seq<u8>, t: Seq<u8>)
    ensures
        encode::extends_to(entry_at(s), entry_at(s + t), t),
{
    reveal(entry_at);
    let n = encode::str_at(s);
    encode::lemma_str_extended(s, t);
    encode::lemma_u8_extended(n.rest, t);
    encode::lemma_uvarint_extended(encode::u8_at(n.rest).rest, t);
}

/// The bytes of a run of listing entries.
pub open spec fn entries_wire(es: Seq<DirEntryV>) -> Seq<u8>
    decreases es.len(),
{
    if es.len() == 0 {
        seq![]
    } else {
        entries_wire(es.drop_last()) + entry_wire(es.last())
    }
}

/// Whether every entry's name fits its prefix.
pub open spec fn entries_fit(es: Seq<DirEntryV>) -> bool {
    es.len() <= u64::MAX && forall|i: int|
        0 <= i < es.len() ==> encode::str_fits((#[trigger] es[i]).name)
}

/// Reading `n` listing entries.
pub open spec fn entries_at(s: Seq<u8>, n: nat) -> Step<Seq<DirEntryV>>
    decreases n,
{
    if n == 0 {
        encode::done(seq![], s)
    } else {
        let before = entries_at(s, (n - 1) as nat);
        match before.out {
            Err(e) => encode::failed(e, before.rest),
            Ok(es) => {
                let last = entry_at(before.rest);
                match last.out {
                    Err(e) => encode::failed(e, last.rest),
                    Ok(en) => encode::done(es.push(en), last.rest),
                }
            },
        }
    }
}

/// An error in a run of entries ends it.
pub proof fn lemma_entries_stuck(s: Seq<u8>, i: nat, n: nat)
    requires
        i <= n,
        entries_at(s, i).out is Err,
    ensures
        entries_at(s, n) == entries_at(s, i),
    decreases n,
{
    if i < n {
        lemma_entries_stuck(s, i, (n - 1) as nat);
    }
}

/// Listing entries take at least three bytes each.
proof fn lemma_entries_wire_len(es: Seq<DirEntryV>)
    ensures
        entries_wire(es).len() >= 3 * es.len(),
    decreases es.len(),
{
    if es.len() > 0 {
        lemma_entries_wire_len(es.drop_last());
        varint::lemma_leb_len(vstd::utf8::encode_utf8(es.last().name).len());
        varint::lemma_leb_len(es.last().size as nat);
    }
}

proof fn lemma_entries_round_trip(es: Seq<DirEntryV>, rest: Seq<u8>)
    requires
        entries_fit(es),
    ensures
        entries_at(entries_wire(es) + rest, es.len()) == encode::done(es, rest),
    decreases es.len(),
{
    if es.len() == 0 {
        assert(entries_wire(es) + rest =~= rest);
        assert(es =~= seq![]);
    } else {
        let front = es.drop_last();
        let r = entry_wire(es.last()) + rest;
        assert(entries_wire(es) + rest =~= entries_wire(front) + r);
        lemma_entries_round_trip(front, r);
        law_entry_round_trip(es.last(), rest);
        assert(front.push(es.last()) =~= es);
    }
}

/// Bytes after some entries do not change how they read.
proof fn lemma_entries_extended(s: Seq<u8>, t: Seq<u8>, n: nat)
    ensures
        encode::extends_to(entries_at(s, n), entries_at(s + t, n), t),
    decreases n,
{
    if n > 0 {
        lemma_entries_extended(s, t, (n - 1) as nat);
        lemma_entry_extended(entries_at(s, (n - 1) as nat).rest, t);
    }
}

/// The bytes of a stat answer.
pub open spec fn stat_wire(st: StatInfoV) -> Seq<u8> {
    seq![flag(st.is_dir)] + varint::leb(st.size as nat) + st.content_hash
}

/// Reading a stat answer.
#[verifier::opaque]
pub open spec fn stat_at(s: Seq<u8>) -> Step<StatInfoV> {
    let d = encode::u8_at(s);
    match d.out {
        Err(e) => encode::failed(e, d.rest),
        Ok(b) => {
            let z = encode::uvarint_at(d.rest);
            match z.out {
                Err(e) => encode::failed(e, z.rest),
                Ok(size) => {
                    let h = encode::hash_at(z.rest);
                    match h.out {
                        Err(e) => encode::failed(e, h.rest),
                        Ok(content_hash) => encode::done(
                            StatInfoV { is_dir: b != 0, size, content_hash },
                            h.rest,
                        ),
                    }
                },
            }
        },
    }
}

/// A stat answer read where it was written is that answer.
pub proof fn law_stat_round_trip(st: StatInfoV, rest: Seq<u8>)
    requires
        st.content_hash.len() == 32,
    ensures
        stat_at(stat_wire(st) + rest) == encode::done(st, rest),
{
    reveal(stat_at);
    let r2 = st.content_hash + rest;
    let r1 = varint::leb(st.size as nat) + r2;
    assert(stat_wire(st) + rest =~= seq![flag(st.is_dir)] + r1);
    encode::law_u8_round_trip(flag(st.is_dir), r1);
    encode::law_uvarint_round_trip(st.size, r2);
    encode::law_hash_round_trip(st.content_hash, rest);
}

/// Bytes after a stat answer do not change how it reads.
proof fn lemma_stat_extended(s: Seq<u8>, t: Seq<u8>)
    ensures
        encode::extends_to(stat_at(s), stat_at(s + t), t),
{
    reveal(stat_at);
    let d = encode::u8_at(s);
    encode::lemma_u8_extended(s, t);
    encode::lemma_uvarint_extended(d.rest, t);
    encode::lemma_hash_extended(encode::uvarint_at(d.rest).rest, t);
}

/// The bytes of a query's answer.
pub open spec fn answer_wire(r: QueryResultV) -> Seq<u8> {
    match r {
        QueryResultV::Manifest(Some(m)) => seq![0u8, 1u8] + m.wire(),
        QueryResultV::Manifest(None) => seq![0u8, 0u8],
        QueryResultV::Listing(es) => seq![1u8] + varint::leb(es.len()) + entries_wire(es),
        QueryResultV::Stat(Some(st)) => seq![2u8, 1u8] + stat_wire(st),
        QueryResultV::Stat(None) => seq![2u8, 0u8],
        QueryResultV::Rejected(c) => seq![3u8, c],
    }
}

/// Whether an answer's parts fit their prefixes.
pub open spec fn answer_fits(r: QueryResultV) -> bool {
    match r {
        QueryResultV::Manifest(Some(m)) => m.fits(),
        QueryResultV::Listing(es) => entries_fit(es),
        QueryResultV::Stat(Some(st)) => st.content_hash.len() == 32,
        _ => true,
    }
}

/// Reading a listing. An entry count that the bytes left cannot hold is refused.
#[verifier::opaque]
pub open spec fn listing_at(s: Seq<u8>) -> Step<Seq<DirEntryV>> {
    let n = encode::uvarint_at(s);
    match n.out {
        Err(e) => encode::failed(e, n.rest),
        Ok(count) => if count > n.rest.len() / 2 {
            encode::failed(ErrorV::Decode("listing entry count out of range"@), n.rest)
        } else {
            entries_at(n.rest, count as nat)
        },
    }
}

/// A listing read where it was written is that listing.
pub proof fn law_listing_round_trip(es: Seq<DirEntryV>, rest: Seq<u8>)
    requires
        entries_fit(es),
    ensures
        listing_at(varint::leb(es.len()) + entries_wire(es) + rest) == encode::done(es, rest),
{
    reveal(listing_at);
    let r1 = entries_wire(es) + rest;
    assert(varint::leb(es.len()) + entries_wire(es) + rest =~= varint::leb(es.len()) + r1);
    encode::law_uvarint_round_trip(es.len() as u64, r1);
    lemma_entries_wire_len(es);
    lemma_entries_round_trip(es, rest);
}

/// Bytes after a listing do not change how it reads.
proof fn lemma_listing_extended(s: Seq<u8>, t: Seq<u8>)
    ensures
        encode::extends_to(listing_at(s), listing_at(s + t), t),
{
    reveal(listing_at);
    let n = encode::uvarint_at(s);
    encode::lemma_uvarint_extended(s, t);
    if let Ok(count) = n.out {
        lemma_entries_extended(n.rest, t, count as nat);
    }
}

/// Reading a query's answer.
#[verifier::opaque]
pub open spec fn answer_at(s: Seq<u8>) -> Step<QueryResultV> {
    let t = encode::u8_at(s);
    match t.out {
        Err(e) => encode::failed(e, t.rest),
        Ok(tag) => if tag == 0 {
            let f = encode::u8_at(t.rest);
            match f.out {
                Err(e) => encode::failed(e, f.rest),
                Ok(b) => if b == 1 {
                    let m = chunk::manifest_at(f.rest);
                    match m.out {
                        Err(e) => encode::failed(e, m.rest),
                        Ok(v) => encode::done(QueryResultV::Manifest(Some(v)), m.rest),
                    }
                } else {
                    encode::done(QueryResultV::Manifest(None), f.rest)
                },
            }
        } else if tag == 1 {
            let l = listing_at(t.rest);
            match l.out {
                Err(e) => encode::failed(e, l.rest),
                Ok(es) => encode::done(QueryResultV::Listing(es), l.rest),
            }
        } else if tag == 2 {
            let f = encode::u8_at(t.rest);
            match f.out {
                Err(e) => encode::failed(e, f.rest),
                Ok(b) => if b == 1 {
                    let st = stat_at(f.rest);
                    match st.out {
                        Err(e) => encode::failed(e, st.rest),
                        Ok(v) => encode::done(QueryResultV::Stat(Some(v)), st.rest),
                    }
                } else {
                    encode::done(QueryResultV::Stat(None), f.rest)
                },
            }
        } else if tag == 3 {
            let c = encode::u8_at(t.rest);
            match c.out {
                Err(e) => encode::failed(e, c.rest),
                Ok(v) => encode::done(QueryResultV::Rejected(v), c.rest),
            }
        } else {
            bad_tag("bad query result tag "@, tag, t.rest)
        },
    }
}

/// An answer read where it was written is that answer.
pub proof fn law_answer_round_trip(r: QueryResultV, rest: Seq<u8>)
    requires
        answer_fits(r),
    ensures
        answer_at(answer_wire(r) + rest) == encode::done(r, rest),
{
    reveal(answer_at);
    match r {
        QueryResultV::Manifest(Some(m)) => {
            let r1 = m.wire() + rest;
            assert(answer_wire(r) + rest =~= seq![0u8] + (seq![1u8] + r1));
            encode::law_u8_round_trip(0, seq![1u8] + r1);
            encode::law_u8_round_trip(1, r1);
            chunk::law_manifest_round_trip(m, rest);
        },
        QueryResultV::Manifest(None) => {
            assert(answer_wire(r) + rest =~= seq![0u8] + (seq![0u8] + rest));
            encode::law_u8_round_trip(0, seq![0u8] + rest);
            encode::law_u8_round_trip(0, rest);
        },
        QueryResultV::Listing(es) => {
            let r0 = varint::leb(es.len()) + entries_wire(es) + rest;
            assert(answer_wire(r) + rest =~= seq![1u8] + r0);
            encode::law_u8_round_trip(1, r0);
            law_listing_round_trip(es, rest);
        },
        QueryResultV::Stat(Some(st)) => {
            let r0 = stat_wire(st) + rest;
            assert(answer_wire(r) + rest =~= seq![2u8] + (seq![1u8] + r0));
            encode::law_u8_round_trip(2, seq![1u8] + r0);
            encode::law_u8_round_trip(1, r0);
            law_stat_round_trip(st, rest);
        },
        QueryResultV::Stat(None) => {
            assert(answer_wire(r) + rest =~= seq![2u8] + (seq![0u8] + rest));
            encode::law_u8_round_trip(2, seq![0u8] + rest);
            encode::law_u8_round_trip(0, rest);
        },
        QueryResultV::Rejected(c) => {
            assert(answer_wire(r) + rest =~= seq![3u8] + (seq![c] + rest));
            encode::law_u8_round_trip(3, seq![c] + rest);
            encode::law_u8_round_trip(c, rest);
        },
    }
}

/// Bytes after an answer do not change how it reads.
proof fn lemma_answer_extended(s: Seq<u8>, t: Seq<u8>)
    ensures
        encode::extends_to(answer_at(s), answer_at(s + t), t),
{
    reveal(answer_at);
    let a = encode::u8_at(s);
    let b = encode::u8_at(a.rest);
    encode::lemma_u8_extended(s, t);
    encode::lemma_u8_extended(a.rest, t);
    chunk::law_manifest_extended(b.rest, t);
    lemma_listing_extended(a.rest, t);
    lemma_stat_extended(b.rest, t);
}

/// The tag byte of a message.
pub open spec fn message_tag(m: MessageV) -> u8 {
    match m {
        MessageV::StoreChunk { .. } => 1,
        MessageV::StoreAck { .. } => 2,
        MessageV::FetchChunk { .. } => 3,
        MessageV::ChunkData { .. } => 4,
        MessageV::ReplicateOrder { .. } => 5,
        MessageV::Replicate { .. } => 6,
        MessageV::Heartbeat { .. } => 7,
        MessageV::MetaOpMsg { .. } => 8,
        MessageV::MetaReplicate { .. } => 9,
        MessageV::MetaReplicateAck { .. } => 10,
        MessageV::MetaCommitted { .. } => 11,
        MessageV::MetaQueryMsg { .. } => 12,
        MessageV::MetaQueryResp { .. } => 13,
    }
}

/// The bytes of a message after its tag.
pub open spec fn body_wire(m: MessageV) -> Seq<u8> {
    match m {
        MessageV::StoreChunk { id, data } => id + encode::bytes_wire(data),
        MessageV::StoreAck { id } => id,
        MessageV::FetchChunk { id } => id,
        MessageV::ChunkData { id, data: Some(d) } => id + seq![1u8] + encode::bytes_wire(d),
        MessageV::ChunkData { id, data: None } => id + seq![0u8],
        MessageV::ReplicateOrder { id, dest } => id + varint::leb(dest as nat),
        MessageV::Replicate { id, data } => id + encode::bytes_wire(data),
        MessageV::Heartbeat { node, chunks } => varint::leb(node as nat) + varint::leb(chunks.len())
            + encode::hashes_wire(chunks),
        MessageV::MetaOpMsg { req_id, op } => varint::leb(req_id as nat) + op_wire(op),
        MessageV::MetaReplicate { seq, op } => varint::leb(seq as nat) + op_wire(op),
        MessageV::MetaReplicateAck { seq } => varint::leb(seq as nat),
        MessageV::MetaCommitted { req_id, result } => varint::leb(req_id as nat) + result_wire(
            result,
        ),
        MessageV::MetaQueryMsg { req_id, q } => varint::leb(req_id as nat) + query_wire(q),
        MessageV::MetaQueryResp { req_id, result } => varint::leb(req_id as nat) + answer_wire(
            result,
        ),
    }
}

/// The bytes of a message.
pub open spec fn message_wire(m: MessageV) -> Seq<u8> {
    seq![message_tag(m)] + body_wire(m)
}

/// Whether a message's parts fit their prefixes.
pub open spec fn message_fits(m: MessageV) -> bool {
    match m {
        MessageV::StoreChunk { id, data } => id.len() == 32 && encode::bytes_fit(data),
        MessageV::StoreAck { id } => id.len() == 32,
        MessageV::FetchChunk { id } => id.len() == 32,
        MessageV::ChunkData { id, data: Some(d) } => id.len() == 32 && encode::bytes_fit(d),
        MessageV::ChunkData { id, data: None } => id.len() == 32,
        MessageV::ReplicateOrder { id, dest } => id.len() == 32,
        MessageV::Replicate { id, data } => id.len() == 32 && encode::bytes_fit(data),
        MessageV::Heartbeat { node, chunks } => chunks.len() <= u64::MAX && forall|i: int|
            0 <= i < chunks.len() ==> (#[trigger] chunks[i]).len() == 32,
        MessageV::MetaOpMsg { req_id, op } => op_fits(op),
        MessageV::MetaReplicate { seq, op } => op_fits(op),
        MessageV::MetaReplicateAck { seq } => true,
        MessageV::MetaCommitted { req_id, result } => true,
        MessageV::MetaQueryMsg { req_id, q } => encode::str_fits(query_path(q)),
        MessageV::MetaQueryResp { req_id, result } => answer_fits(result),
    }
}

/// Reading an id and a byte string.
#[verifier::opaque]
pub open spec fn blob_at(s: Seq<u8>) -> Step<(Seq<u8>, Seq<u8>)> {
    let h = encode::hash_at(s);
    match h.out {
        Err(e) => encode::failed(e, h.rest),
        Ok(id) => {
            let b = encode::bytes_at(h.rest);
            match b.out {
                Err(e) => encode::failed(e, b.rest),
                Ok(data) => encode::done((id, data), b.rest),
            }
        },
    }
}

/// Reading an id and an optional byte string.
#[verifier::opaque]
pub open spec fn held_at(s: Seq<u8>) -> Step<(Seq<u8>, Option<Seq<u8>>)> {
    let h = encode::hash_at(s);
    match h.out {
        Err(e) => encode::failed(e, h.rest),
        Ok(id) => {
            let f = encode::u8_at(h.rest);
            match f.out {
                Err(e) => encode::failed(e, f.rest),
                Ok(b) => if b == 1 {
                    let d = encode::bytes_at(f.rest);
                    match d.out {
                        Err(e) => encode::failed(e, d.rest),
                        Ok(data) => encode::done((id, Some(data)), d.rest),
                    }
                } else {
                    encode::done((id, None), f.rest)
                },
            }
        },
    }
}

/// Reading an id and a destination. The destination keeps its low 32 bits.
#[verifier::opaque]
pub open spec fn order_at(s: Seq<u8>) -> Step<(Seq<u8>, u32)> {
    let h = encode::hash_at(s);
    match h.out {
        Err(e) => encode::failed(e, h.rest),
        Ok(id) => {
            let n = encode::uvarint_at(h.rest);
            match n.out {
                Err(e) => encode::failed(e, n.rest),
                Ok(v) => encode::done((id, v as u32), n.rest),
            }
        },
    }
}

/// Reading a heartbeat. A chunk count that the bytes left cannot hold is refused. The node
/// index keeps its low 32 bits.
#[verifier::opaque]
pub open spec fn heartbeat_at(s: Seq<u8>) -> Step<(u32, Seq<Seq<u8>>)> {
    let i = encode::uvarint_at(s);
    match i.out {
        Err(e) => encode::failed(e, i.rest),
        Ok(node) => {
            let n = encode::uvarint_at(i.rest);
            match n.out {
                Err(e) => encode::failed(e, n.rest),
                Ok(count) => if count > n.rest.len() / 32 {
                    encode::failed(ErrorV::Decode("heartbeat chunk count out of range"@), n.rest)
                } else {
                    let hs = encode::hashes_at(n.rest, count as nat);
                    match hs.out {
                        Err(e) => encode::failed(e, hs.rest),
                        Ok(chunks) => encode::done((node as u32, chunks), hs.rest),
                    }
                },
            }
        },
    }
}

/// Reading a number and an operation.
#[verifier::opaque]
pub open spec fn numbered_op_at(s: Seq<u8>) -> Step<(u64, MetaOpV)> {
    let n = encode::uvarint_at(s);
    match n.out {
        Err(e) => encode::failed(e, n.rest),
        Ok(v) => {
            let o = op_at(n.rest);
            match o.out {
                Err(e) => encode::failed(e, o.rest),
                Ok(op) => encode::done((v, op), o.rest),
            }
        },
    }
}

/// Reading a number and an outcome.
#[verifier::opaque]
pub open spec fn numbered_result_at(s: Seq<u8>) -> Step<(u64, MetaResult)> {
    let n = encode::uvarint_at(s);
    match n.out {
        Err(e) => encode::failed(e, n.rest),
        Ok(v) => {
            let o = result_at(n.rest);
            match o.out {
                Err(e) => encode::failed(e, o.rest),
                Ok(r) => encode::done((v, r), o.rest),
            }
        },
    }
}

/// Reading a number and a query.
#[verifier::opaque]
pub open spec fn numbered_query_at(s: Seq<u8>) -> Step<(u64, QueryV)> {
    let n = encode::uvarint_at(s);
    match n.out {
        Err(e) => encode::failed(e, n.rest),
        Ok(v) => {
            let o = query_at(n.rest);
            match o.out {
                Err(e) => encode::failed(e, o.rest),
                Ok(q) => encode::done((v, q), o.rest),
            }
        },
    }
}

/// Reading a number and an answer.
#[verifier::opaque]
pub open spec fn numbered_answer_at(s: Seq<u8>) -> Step<(u64, QueryResultV)> {
    let n = encode::uvarint_at(s);
    match n.out {
        Err(e) => encode::failed(e, n.rest),
        Ok(v) => {
            let o = answer_at(n.rest);
            match o.out {
                Err(e) => encode::failed(e, o.rest),
                Ok(r) => encode::done((v, r), o.rest),
            }
        },
    }
}

/// The message or error that a tag and the bytes after it give.
pub open spec fn body_of(tag: u8, s: Seq<u8>) -> Result<MessageV, ErrorV> {
    if tag == 1 {
        match blob_at(s).out {
            Err(e) => Err(e),
            Ok((id, data)) => Ok(MessageV::StoreChunk { id, data }),
        }
    } else if tag == 2 {
        match encode::hash_at(s).out {
            Err(e) => Err(e),
            Ok(id) => Ok(MessageV::StoreAck { id }),
        }
    } else if tag == 3 {
        match encode::hash_at(s).out {
            Err(e) => Err(e),
            Ok(id) => Ok(MessageV::FetchChunk { id }),
        }
    } else if tag == 4 {
        match held_at(s).out {
            Err(e) => Err(e),
            Ok((id, data)) => Ok(MessageV::ChunkData { id, data }),
        }
    } else if tag == 5 {
        match order_at(s).out {
            Err(e) => Err(e),
            Ok((id, dest)) => Ok(MessageV::ReplicateOrder { id, dest }),
        }
    } else if tag == 6 {
        match blob_at(s).out {
            Err(e) => Err(e),
            Ok((id, data)) => Ok(MessageV::Replicate { id, data }),
        }
    } else if tag == 7 {
        match heartbeat_at(s).out {
            Err(e) => Err(e),
            Ok((node, chunks)) => Ok(MessageV::Heartbeat { node, chunks }),
        }
    } else if tag == 8 {
        match numbered_op_at(s).out {
            Err(e) => Err(e),
            Ok((req_id, op)) => Ok(MessageV::MetaOpMsg { req_id, op }),
        }
    } else if tag == 9 {
        match numbered_op_at(s).out {
            Err(e) => Err(e),
            Ok((seq, op)) => Ok(MessageV::MetaReplicate { seq, op }),
        }
    } else if tag == 10 {
        match encode::uvarint_at(s).out {
            Err(e) => Err(e),
            Ok(seq) => Ok(MessageV::MetaReplicateAck { seq }),
        }
    } else if tag == 11 {
        match numbered_result_at(s).out {
            Err(e) => Err(e),
            Ok((req_id, result)) => Ok(MessageV::MetaCommitted { req_id, result }),
        }
    } else if tag == 12 {
        match numbered_query_at(s).out {
            Err(e) => Err(e),
            Ok((req_id, q)) => Ok(MessageV::MetaQueryMsg { req_id, q }),
        }
    } else if tag == 13 {
        match numbered_answer_at(s).out {
            Err(e) => Err(e),
            Ok((req_id, result)) => Ok(MessageV::MetaQueryResp { req_id, result }),
        }
    } else {
        Err(ErrorV::Decode("bad message tag "@ + text::decimal(tag as nat)))
    }
}

/// The bytes that are left after a tag's body.
pub open spec fn left_of(tag: u8, s: Seq<u8>) -> Seq<u8> {
    if tag == 1 || tag == 6 {
        blob_at(s).rest
    } else if tag == 2 || tag == 3 {
        encode::hash_at(s).rest
    } else if tag == 4 {
        held_at(s).rest
    } else if tag == 5 {
        order_at(s).rest
    } else if tag == 7 {
        heartbeat_at(s).rest
    } else if tag == 8 || tag == 9 {
        numbered_op_at(s).rest
    } else if tag == 10 {
        encode::uvarint_at(s).rest
    } else if tag == 11 {
        numbered_result_at(s).rest
    } else if tag == 12 {
        numbered_query_at(s).rest
    } else {
        numbered_answer_at(s).rest
    }
}

/// The message or error that some bytes give. Bytes after the message are not looked at.
#[verifier::opaque]
pub open spec fn message_of(s: Seq<u8>) -> Result<MessageV, ErrorV> {
    let t = encode::u8_at(s);
    match t.out {
        Err(e) => Err(e),
        Ok(tag) => body_of(tag, t.rest),
    }
}

proof fn lemma_chunk_body_round_trip(m: MessageV)
    requires
        message_fits(m),
        message_tag(m) <= 7,
    ensures
        body_of(message_tag(m), body_wire(m)) == Ok::<MessageV, ErrorV>(m),
        left_of(message_tag(m), body_wire(m)) == Seq::<u8>::empty(),
{
    let none = Seq::<u8>::empty();
    assert(body_wire(m) + none =~= body_wire(m));
    match m {
        MessageV::StoreChunk { id, data } => {
            lemma_blob_round_trip(id, data);
        },
        MessageV::StoreAck { id } => {
            encode::law_hash_round_trip(id, none);
        },
        MessageV::FetchChunk { id } => {
            encode::law_hash_round_trip(id, none);
        },
        MessageV::ChunkData { id, data: Some(d) } => {
            reveal(held_at);
            let r1 = encode::bytes_wire(d) + none;
            assert(body_wire(m) =~= id + (seq![1u8] + r1));
            encode::law_hash_round_trip(id, seq![1u8] + r1);
            encode::law_u8_round_trip(1, r1);
            encode::law_bytes_round_trip(d, none);
        },
        MessageV::ChunkData { id, data: None } => {
            reveal(held_at);
            assert(body_wire(m) =~= id + (seq![0u8] + none));
            encode::law_hash_round_trip(id, seq![0u8] + none);
            encode::law_u8_round_trip(0, none);
        },
        MessageV::ReplicateOrder { id, dest } => {
            reveal(order_at);
            let r = varint::leb(dest as nat) + none;
            assert(body_wire(m) =~= id + r);
            encode::law_hash_round_trip(id, r);
            encode::law_uvarint_round_trip(dest as u64, none);
        },
        MessageV::Replicate { id, data } => {
            lemma_blob_round_trip(id, data);
        },
        MessageV::Heartbeat { node, chunks } => {
            reveal(heartbeat_at);
            let r1 = encode::hashes_wire(chunks) + none;
            let r0 = varint::leb(chunks.len()) + r1;
            assert(body_wire(m) =~= varint::leb(node as nat) + r0);
            encode::law_uvarint_round_trip(node as u64, r0);
            encode::law_uvarint_round_trip(chunks.len() as u64, r1);
            encode::lemma_hashes_wire_len(chunks);
            encode::law_hashes_round_trip(chunks, none);
        },
        _ => {},
    }
}

proof fn lemma_blob_round_trip(id: Seq<u8>, data: Seq<u8>)
    requires
        id.len() == 32,
        encode::bytes_fit(data),
    ensures
        blob_at(id + encode::bytes_wire(data)) == encode::done((id, data), Seq::<u8>::empty()),
{
    reveal(blob_at);
    let none = Seq::<u8>::empty();
    assert(encode::bytes_wire(data) + none =~= encode::bytes_wire(data));
    encode::law_hash_round_trip(id, encode::bytes_wire(data));
    encode::law_bytes_round_trip(data, none);
}

proof fn lemma_meta_body_round_trip(m: MessageV)
    requires
        message_fits(m),
        message_tag(m) > 7,
    ensures
        body_of(message_tag(m), body_wire(m)) == Ok::<MessageV, ErrorV>(m),
        left_of(message_tag(m), body_wire(m)) == Seq::<u8>::empty(),
{
    let none = Seq::<u8>::empty();
    assert(body_wire(m) + none =~= body_wire(m));
    match m {
        MessageV::MetaOpMsg { req_id, op } => {
            reveal(numbered_op_at);
            let r = op_wire(op) + none;
            assert(body_wire(m) =~= varint::leb(req_id as nat) + r);
            encode::law_uvarint_round_trip(req_id, r);
            law_op_round_trip(op, none);
        },
        MessageV::MetaReplicate { seq, op } => {
            reveal(numbered_op_at);
            let r = op_wire(op) + none;
            assert(body_wire(m) =~= varint::leb(seq as nat) + r);
            encode::law_uvarint_round_trip(seq, r);
            law_op_round_trip(op, none);
        },
        MessageV::MetaReplicateAck { seq } => {
            encode::law_uvarint_round_trip(seq, none);
        },
        MessageV::MetaCommitted { req_id, result } => {
            reveal(numbered_result_at);
            let r = result_wire(result) + none;
            assert(body_wire(m) =~= varint::leb(req_id as nat) + r);
            encode::law_uvarint_round_trip(req_id, r);
            law_result_round_trip(result, none);
        },
        MessageV::MetaQueryMsg { req_id, q } => {
            reveal(numbered_query_at);
            let r = query_wire(q) + none;
            assert(body_wire(m) =~= varint::leb(req_id as nat) + r);
            encode::law_uvarint_round_trip(req_id, r);
            law_query_round_trip(q, none);
        },
        MessageV::MetaQueryResp { req_id, result } => {
            reveal(numbered_answer_at);
            let r = answer_wire(result) + none;
            assert(body_wire(m) =~= varint::leb(req_id as nat) + r);
            encode::law_uvarint_round_trip(req_id, r);
            law_answer_round_trip(result, none);
        },
        _ => {},
    }
}

/// Every message decodes from its own bytes to itself.
pub proof fn law_message_round_trip(m: MessageV)
    requires
        message_fits(m),
    ensures
        message_of(message_wire(m)) == Ok::<MessageV, ErrorV>(m),
{
    reveal(message_of);
    encode::law_u8_round_trip(message_tag(m), body_wire(m));
    if message_tag(m) <= 7 {
        lemma_chunk_body_round_trip(m);
    } else {
        lemma_meta_body_round_trip(m);
    }
}

/// Bytes after a chunk message's body do not change how it reads.
proof fn lemma_chunk_body_extended(tag: u8, s: Seq<u8>, t: Seq<u8>)
    requires
        1 <= tag <= 7,
    ensures
        match body_of(tag, s) {
            Ok(m) => body_of(tag, s + t) == Ok::<MessageV, ErrorV>(m) && left_of(tag, s + t)
                == left_of(tag, s) + t,
            Err(e) => e is Decode,
        },
{
    reveal(blob_at);
    reveal(held_at);
    reveal(order_at);
    reveal(heartbeat_at);
    if tag == 7 {
        let i = encode::uvarint_at(s);
        let n = encode::uvarint_at(i.rest);
        encode::lemma_uvarint_extended(s, t);
        encode::lemma_uvarint_extended(i.rest, t);
        if let Ok(count) = n.out {
            encode::lemma_hashes_extended(n.rest, t, count as nat);
        }
    } else {
        let h = encode::hash_at(s);
        encode::lemma_hash_extended(s, t);
        encode::lemma_bytes_extended(h.rest, t);
        encode::lemma_u8_extended(h.rest, t);
        encode::lemma_bytes_extended(encode::u8_at(h.rest).rest, t);
        encode::lemma_uvarint_extended(h.rest, t);
    }
}

/// Bytes after a metadata message's body do not change how it reads.
proof fn lemma_meta_body_extended(tag: u8, s: Seq<u8>, t: Seq<u8>)
    requires
        8 <= tag <= 13,
    ensures
        match body_of(tag, s) {
            Ok(m) => body_of(tag, s + t) == Ok::<MessageV, ErrorV>(m) && left_of(tag, s + t)
                == left_of(tag, s) + t,
            Err(e) => e is Decode,
        },
{
    reveal(numbered_op_at);
    reveal(numbered_result_at);
    reveal(numbered_query_at);
    reveal(numbered_answer_at);
    let n = encode::uvarint_at(s);
    encode::lemma_uvarint_extended(s, t);
    lemma_op_extended(n.rest, t);
    lemma_result_extended(n.rest, t);
    lemma_query_extended(n.rest, t);
    lemma_answer_extended(n.rest, t);
}

proof fn lemma_body_extended(tag: u8, s: Seq<u8>, t: Seq<u8>)
    ensures
        match body_of(tag, s) {
            Ok(m) => body_of(tag, s + t) == Ok::<MessageV, ErrorV>(m) && left_of(tag, s + t)
                == left_of(tag, s) + t,
            Err(e) => e is Decode,
        },
{
    if 1 <= tag <= 7 {
        lemma_chunk_body_extended(tag, s, t);
    } else if 8 <= tag <= 13 {
        lemma_meta_body_extended(tag, s, t);
    }
}

/// Bytes after a message are ignored: whatever decodes to a message still does with more bytes
/// behind it. What does not decode is malformed.
pub proof fn law_trailing_bytes_are_ignored(s: Seq<u8>, t: Seq<u8>)
    ensures
        match message_of(s) {
            Ok(m) => message_of(s + t) == Ok::<MessageV, ErrorV>(m),
            Err(e) => e is Decode,
        },
{
    reveal(message_of);
    encode::lemma_u8_extended(s, t);
    if let Ok(tag) = encode::u8_at(s).out {
        lemma_body_extended(tag, encode::u8_at(s).rest, t);
    }
}

/// A message that was cut short, after any number of its bytes, is malformed.
pub proof fn law_truncated_message_is_refused(m: MessageV, n: nat)
    requires
        message_fits(m),
        n < message_wire(m).len(),
    ensures
        message_of(message_wire(m).take(n as int)) matches Err(e) && e is Decode,
{
    reveal(message_of);
    let tag = message_tag(m);
    let body = body_wire(m);
    let p = message_wire(m).take(n as int);
    if n > 0 {
        let a = body.take(n - 1);
        let b = body.skip(n - 1);
        assert(p =~= seq![tag] + a);
        assert(a + b =~= body);
        encode::law_u8_round_trip(tag, a);
        lemma_body_extended(tag, a, b);
        if tag <= 7 {
            lemma_chunk_body_round_trip(m);
        } else {
            lemma_meta_body_round_trip(m);
        }
    }
}

/// A routed message.
pub struct Envelope {
    pub from: NodeId,
    pub to: NodeId,
    pub msg: MessageV,
}

/// The bytes of a routed message.
pub open spec fn envelope_wire(v: Envelope) -> Seq<u8> {
    node_wire(v.from) + node_wire(v.to) + encode::bytes_wire(message_wire(v.msg))
}

/// Whether a routed message's parts fit their prefixes.
pub open spec fn envelope_fits(v: Envelope) -> bool {
    message_fits(v.msg) && encode::bytes_fit(message_wire(v.msg))
}

/// The routed message or error that some bytes give.
#[verifier::opaque]
pub open spec fn envelope_of(s: Seq<u8>) -> Result<Envelope, ErrorV> {
    let a = node_at(s);
    match a.out {
        Err(e) => Err(e),
        Ok(from) => {
            let b = node_at(a.rest);
            match b.out {
                Err(e) => Err(e),
                Ok(to) => {
                    let m = encode::bytes_at(b.rest);
                    match m.out {
                        Err(e) => Err(e),
                        Ok(body) => match message_of(body) {
                            Err(e) => Err(e),
                            Ok(msg) => Ok(Envelope { from, to, msg }),
                        },
                    }
                },
            }
        },
    }
}

/// Every routed message decodes from its own bytes to itself.
pub proof fn law_envelope_round_trip(v: Envelope)
    requires
        envelope_fits(v),
    ensures
        envelope_of(envelope_wire(v)) == Ok::<Envelope, ErrorV>(v),
{
    reveal(envelope_of);
    let none = Seq::<u8>::empty();
    let r1 = encode::bytes_wire(message_wire(v.msg)) + none;
    let r0 = node_wire(v.to) + r1;
    assert(envelope_wire(v) =~= node_wire(v.from) + r0);
    law_node_round_trip(v.from, r0);
    law_node_round_trip(v.to, r1);
    encode::law_bytes_round_trip(message_wire(v.msg), none);
    law_message_round_trip(v.msg);
}

/// Bytes after a routed message are ignored, and what does not decode is malformed.
pub proof fn law_trailing_bytes_after_envelope_are_ignored(s: Seq<u8>, t: Seq<u8>)
    ensures
        match envelope_of(s) {
            Ok(v) => envelope_of(s + t) == Ok::<Envelope, ErrorV>(v),
            Err(e) => e is Decode,
        },
{
    reveal(envelope_of);
    let a = node_at(s);
    let b = node_at(a.rest);
    let m = encode::bytes_at(b.rest);
    lemma_node_extended(s, t);
    lemma_node_extended(a.rest, t);
    encode::lemma_bytes_extended(b.rest, t);
    if let Ok(body) = m.out {
        law_trailing_bytes_are_ignored(body, t);
    }
}

/// A routed message that was cut short, after any number of its bytes, is malformed.
pub proof fn law_truncated_envelope_is_refused(v: Envelope, n: nat)
    requires
        envelope_fits(v),
        n < envelope_wire(v).len(),
    ensures
        envelope_of(envelope_wire(v).take(n as int)) matches Err(e) && e is Decode,
{
    reveal(envelope_of);
    let none = Seq::<u8>::empty();
    let w = envelope_wire(v);
    let s = w.take(n as int);
    let t = w.skip(n as int);
    let r1 = encode::bytes_wire(message_wire(v.msg)) + none;
    let r0 = node_wire(v.to) + r1;
    assert(s + t =~= w);
    assert(w =~= node_wire(v.from) + r0);
    law_node_round_trip(v.from, r0);
    law_node_round_trip(v.to, r1);
    encode::law_bytes_round_trip(message_wire(v.msg), none);
    let a = node_at(s);
    let b = node_at(a.rest);
    lemma_node_extended(s, t);
    lemma_node_extended(a.rest, t);
    encode::lemma_bytes_extended(b.rest, t);
    law_trailing_bytes_after_envelope_are_ignored(s, t);
}

} // verus!

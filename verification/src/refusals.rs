//! Which bytes are refused as malformed, and what is said of them.

use crate::chunk;
use crate::encode;
use crate::error::ErrorV;
use crate::message::{DirEntryV, MessageV, NodeId, QueryResultV, StatInfoV};
use crate::text;
use crate::varint;
use crate::wire;
use vstd::prelude::*;

verus! {

/// No bytes hold no byte, and fewer than 32 hold no hash.
pub proof fn law_short_bytes_are_refused(s: Seq<u8>)
    ensures
        s.len() == 0 ==> encode::u8_at(s).out == Err::<u8, ErrorV>(
            ErrorV::Decode("eof reading u8"@),
        ),
        s.len() < 32 ==> encode::hash_at(s).out == Err::<Seq<u8>, ErrorV>(
            ErrorV::Decode("eof reading hash"@),
        ),
        s.len() >= 32 ==> encode::hash_at(s).out == Ok::<Seq<u8>, ErrorV>(s.subrange(0, 32))
            && encode::hash_at(s).rest == s.subrange(32, s.len() as int),
{
    reveal(encode::hash_at);
}

/// A byte string that is said to be longer than what is left is refused, and so is a string of
/// bytes that are not UTF-8.
pub proof fn law_bad_strings_are_refused(len: u64, b: Seq<u8>)
    ensures
        b.len() < len ==> encode::bytes_at(varint::leb(len as nat) + b).out == Err::<
            Seq<u8>,
            ErrorV,
        >(ErrorV::Decode("eof reading bytes"@)),
        b.len() < len ==> encode::str_at(varint::leb(len as nat) + b).out == Err::<
            Seq<char>,
            ErrorV,
        >(ErrorV::Decode("eof reading bytes"@)),
        b.len() == len && !vstd::utf8::valid_utf8(b) ==> encode::str_at(
            varint::leb(len as nat) + b,
        ).out == Err::<Seq<char>, ErrorV>(ErrorV::Decode("bad utf8"@)),
{
    reveal(encode::bytes_at);
    reveal(encode::str_at);
    encode::law_uvarint_round_trip(len, b);
    if b.len() == len {
        assert(b.take(len as int) =~= b);
    }
}

/// A manifest that is said to have more chunks than what is left can hold is refused, and so is one
/// whose last part is neither the mark of replication nor that of erasure coding.
pub proof fn law_bad_manifests_are_refused(
    size: u64,
    whole: Seq<u8>,
    count: u64,
    b: Seq<u8>,
    tag: u8,
    rest: Seq<u8>,
)
    requires
        whole.len() == 32,
    ensures
        count > b.len() / 32 ==> chunk::manifest_at(
            varint::leb(size as nat) + (whole + (varint::leb(count as nat) + b)),
        ).out == Err::<chunk::ManifestV, ErrorV>(
            ErrorV::Decode("manifest chunk count out of range"@),
        ),
        tag > 1 ==> chunk::erasure_at(seq![tag] + rest).out == Err::<Option<(u8, u8)>, ErrorV>(
            ErrorV::Decode("bad manifest erasure tag "@ + text::decimal(tag as nat)),
        ),
{
    reveal(chunk::manifest_at);
    let c = varint::leb(count as nat) + b;
    encode::law_uvarint_round_trip(size, whole + c);
    encode::law_hash_round_trip(whole, c);
    encode::law_uvarint_round_trip(count, b);
    assert((seq![tag] + rest)[0] == tag);
}

/// Tags that stand for nothing are refused, and named.
pub proof fn law_unknown_tags_are_refused(tag: u8, rest: Seq<u8>)
    ensures
        tag > 2 ==> wire::node_at(seq![tag] + rest).out == Err::<NodeId, ErrorV>(
            ErrorV::Decode("bad node tag "@ + text::decimal(tag as nat)),
        ),
        tag > 3 ==> wire::op_at(seq![tag] + rest).out == Err::<crate::message::MetaOpV, ErrorV>(
            ErrorV::Decode("bad metaop tag "@ + text::decimal(tag as nat)),
        ),
        tag > 2 ==> wire::query_at(seq![tag] + rest).out == Err::<crate::message::QueryV, ErrorV>(
            ErrorV::Decode("bad query tag "@ + text::decimal(tag as nat)),
        ),
        tag > 1 ==> wire::result_at(seq![tag] + rest).out == Err::<
            crate::message::MetaResult,
            ErrorV,
        >(ErrorV::Decode("bad meta result tag "@ + text::decimal(tag as nat))),
        tag > 3 ==> wire::answer_at(seq![tag] + rest).out == Err::<
            QueryResultV,
            ErrorV,
        >(ErrorV::Decode("bad query result tag "@ + text::decimal(tag as nat))),
        tag == 0 || tag > 13 ==> wire::message_of(seq![tag] + rest) == Err::<MessageV, ErrorV>(
            ErrorV::Decode("bad message tag "@ + text::decimal(tag as nat)),
        ),
{
    reveal(wire::node_at);
    reveal(wire::op_at);
    reveal(wire::query_at);
    reveal(wire::result_at);
    reveal(wire::answer_at);
    reveal(wire::message_of);
    let s = seq![tag] + rest;
    assert(s[0] == tag);
    assert(encode::u8_at(s).out == Ok::<u8, ErrorV>(tag));
}

/// What is read as a message of some kind begins with the tag of that kind.
pub proof fn law_messages_begin_with_their_tag(s: Seq<u8>)
    ensures
        wire::message_of(s) matches Ok(m) ==> s.len() > 0 && wire::message_tag(m) == s[0],
{
    reveal(wire::message_of);
}

/// A listing or a heartbeat that is said to hold more than what is left can hold is refused: an
/// entry takes two bytes at least, and a chunk id 32.
pub proof fn law_bad_counts_are_refused(node: u64, count: u64, b: Seq<u8>)
    ensures
        count > b.len() / 2 ==> wire::listing_at(varint::leb(count as nat) + b).out == Err::<
            Seq<DirEntryV>,
            ErrorV,
        >(ErrorV::Decode("listing entry count out of range"@)),
        count > b.len() / 32 ==> wire::heartbeat_at(
            varint::leb(node as nat) + (varint::leb(count as nat) + b),
        ).out == Err::<(u32, Seq<Seq<u8>>), ErrorV>(
            ErrorV::Decode("heartbeat chunk count out of range"@),
        ),
{
    reveal(wire::listing_at);
    reveal(wire::heartbeat_at);
    encode::law_uvarint_round_trip(count, b);
    encode::law_uvarint_round_trip(node, varint::leb(count as nat) + b);
}

/// Of a node number that is too large for a node, the low 32 bits count.
pub proof fn law_node_numbers_keep_low_bits(n: u64, id: Seq<u8>, rest: Seq<u8>)
    requires
        id.len() == 32,
    ensures
        ({
            let low = (n as int % 0x1_0000_0000) as u32;
            let w = varint::leb(n as nat) + rest;
            &&& wire::node_at(seq![1u8] + w) == encode::done(NodeId::Storage(low), rest)
            &&& wire::node_at(seq![2u8] + w) == encode::done(NodeId::Meta(low), rest)
            &&& wire::order_at(id + w) == encode::done((id, low), rest)
            &&& wire::heartbeat_at(varint::leb(n as nat) + (seq![0u8] + rest)).out == Ok::<
                (u32, Seq<Seq<u8>>),
                ErrorV,
            >((low, Seq::empty()))
        }),
{
    reveal(wire::node_at);
    reveal(wire::order_at);
    reveal(wire::heartbeat_at);
    let w = varint::leb(n as nat) + rest;
    assert(n as u32 == (n % 0x1_0000_0000) as u32) by (bit_vector);
    encode::law_uvarint_round_trip(n, rest);
    encode::law_hash_round_trip(id, w);
    let a = seq![1u8] + w;
    let b = seq![2u8] + w;
    assert(a[0] == 1 && b[0] == 2);
    assert(a.skip(1) =~= w);
    assert(b.skip(1) =~= w);
    let z = seq![0u8] + rest;
    encode::law_uvarint_round_trip(n, z);
    encode::law_uvarint_round_trip(0, rest);
    assert(varint::leb(0) == seq![0u8]);
}

/// Any byte but zero marks a directory, and only one marks that something is there.
pub proof fn law_marks(b: u8, size: u64, hash: Seq<u8>, rest: Seq<u8>)
    requires
        hash.len() == 32,
    ensures
        wire::stat_at(seq![b] + (varint::leb(size as nat) + (hash + rest))) == encode::done(
            StatInfoV { is_dir: b != 0, size, content_hash: hash },
            rest,
        ),
        b != 1 ==> wire::held_at(hash + (seq![b] + rest)) == encode::done(
            (hash, None::<Seq<u8>>),
            rest,
        ),
        b != 1 ==> wire::answer_at(seq![0u8] + (seq![b] + rest)) == encode::done(
            QueryResultV::Manifest(None),
            rest,
        ),
        b != 1 ==> wire::answer_at(seq![2u8] + (seq![b] + rest)) == encode::done(
            QueryResultV::Stat(None),
            rest,
        ),
{
    reveal(wire::stat_at);
    reveal(wire::held_at);
    reveal(wire::answer_at);
    let s = seq![b] + (varint::leb(size as nat) + (hash + rest));
    assert(s[0] == b);
    assert(s.skip(1) =~= varint::leb(size as nat) + (hash + rest));
    encode::law_uvarint_round_trip(size, hash + rest);
    encode::law_hash_round_trip(hash, rest);
    let t = seq![b] + rest;
    assert(t[0] == b);
    assert(t.skip(1) =~= rest);
    encode::law_hash_round_trip(hash, t);
    let x = seq![0u8] + t;
    let y = seq![2u8] + t;
    assert(x[0] == 0 && y[0] == 2);
    assert(x.skip(1) =~= t);
    assert(y.skip(1) =~= t);
}

} // verus!

//! Error texts, and an input for each error.

use archipelago::encode::Decoder;
use archipelago::erasure::Erasure;
use archipelago::net::{LinkParams, ALWAYS};
use archipelago::{Cluster, Error, Options};

#[test]
fn error_texts() {
    let texts = [
        (Error::NotFound("/a".into()), "not found: /a"),
        (Error::AlreadyExists("/a".into()), "already exists: /a"),
        (Error::NotADirectory("/a".into()), "not a directory: /a"),
        (Error::IsADirectory("/a".into()), "is a directory: /a"),
        (Error::DirectoryNotEmpty("/a".into()), "directory not empty: /a"),
        (Error::InvalidPath("a".into()), "invalid path: a"),
        (
            Error::WriteQuorumFailed { needed: 12, got: 3 },
            "write quorum failed: needed 12, got 3",
        ),
        (Error::ChunkUnavailable("00ff".into()), "chunk unavailable: 00ff"),
        (Error::MetadataUnavailable, "metadata service unavailable"),
        (Error::IntegrityError, "integrity error: content hash mismatch"),
        (Error::Decode("short".into()), "decode error: short"),
    ];
    for (e, text) in texts {
        assert_eq!(e.message(), text);
    }
}

#[test]
fn namespace_errors() {
    let mut c = Cluster::new(Options::small(), 2);
    c.mkdir("/d").unwrap();
    c.write_file("/d/f", b"x").unwrap();
    assert_eq!(c.read_file("/nope"), Err(Error::NotFound("/nope".into())));
    assert_eq!(c.mkdir("/d"), Err(Error::AlreadyExists("/d".into())));
    assert_eq!(c.mkdir("/d/f/g"), Err(Error::NotADirectory("/d/f/g".into())));
    assert_eq!(c.read_file("/d"), Err(Error::IsADirectory("/d".into())));
    assert_eq!(c.write_file("/d", b"y"), Err(Error::IsADirectory("/d".into())));
    assert_eq!(c.delete("/d"), Err(Error::DirectoryNotEmpty("/d".into())));
    assert_eq!(c.delete("/"), Err(Error::InvalidPath("/".into())));
    assert_eq!(c.mkdir("relative"), Err(Error::InvalidPath("relative".into())));
    assert_eq!(c.rename("/d", "/d/e"), Err(Error::InvalidPath("/d/e".into())));
    assert_eq!(c.rename("/x", "/y"), Err(Error::NotFound("/y".into())));
    assert_eq!(c.stat("/x"), Err(Error::NotFound("/x".into())));
    assert_eq!(c.list("/d/f"), Err(Error::NotADirectory("/d/f".into())));
}

#[test]
fn quorum_errors() {
    let mut c = Cluster::new(Options::small(), 2);
    for i in 0..4 {
        c.crash_node(i);
    }
    assert_eq!(
        c.write_file("/f", b"x"),
        Err(Error::WriteQuorumFailed { needed: 2, got: 1 })
    );
    let mut c = Cluster::new(Options::small_erasure(2, 2), 2);
    c.crash_node(0);
    c.crash_node(1);
    assert_eq!(
        c.write_file("/f", b"x"),
        Err(Error::WriteQuorumFailed { needed: 4, got: 3 })
    );
}

#[test]
fn lost_messages_make_the_metadata_unavailable() {
    let opts = Options {
        link: LinkParams { base_latency: 1, jitter: 0, drop_prob: ALWAYS },
        ..Options::small()
    };
    let mut c = Cluster::new(opts, 2);
    assert_eq!(c.mkdir("/d"), Err(Error::MetadataUnavailable));
    assert_eq!(c.read_file("/d"), Err(Error::MetadataUnavailable));
    assert_eq!(c.list("/"), Err(Error::MetadataUnavailable));
    assert_eq!(
        c.write_file("/f", b"x"),
        Err(Error::WriteQuorumFailed { needed: 2, got: 0 })
    );
    let mut c = Cluster::new(Options::small(), 2);
    for i in 0..3 {
        c.crash_meta(i);
    }
    assert_eq!(c.mkdir("/d"), Err(Error::MetadataUnavailable));
}

#[test]
fn chunk_without_a_live_holder_is_unavailable() {
    let mut c = Cluster::new(Options::small(), 4);
    c.write_file("/f", b"some bytes").unwrap();
    assert!(c.stabilize());
    for i in 0..5 {
        c.crash_node(i);
    }
    let id = archipelago::sha256(b"some bytes");
    assert_eq!(c.read_file("/f"), Err(Error::ChunkUnavailable(id.short())));
}

#[test]
fn shards_that_do_not_fit_together_are_an_integrity_error() {
    let er = Erasure::new(2, 1).unwrap();
    let shards = er.encode(b"abcdef");
    let short = [0u8; 1];
    let slots = [Some(shards[0].as_slice()), Some(&short[..]), None];
    assert_eq!(er.decode(&slots, 6), Err(Error::IntegrityError));
    let slots = [Some(shards[0].as_slice()), None, None];
    assert_eq!(
        er.decode(&slots, 6),
        Err(Error::ChunkUnavailable("erasure decode needs 2 shards, 1 available".into()))
    );
    let slots = [Some(shards[0].as_slice()), Some(shards[1].as_slice())];
    assert_eq!(er.decode(&slots, 6), Err(Error::IntegrityError));
}

#[test]
fn strings_are_checked_for_utf8() {
    let mut d = Decoder::new(&[2, 0xc3, 0xa9]);
    assert_eq!(d.get_str(), Ok("\u{e9}".to_string()));
    assert_eq!(d.remaining(), 0);
    let mut d = Decoder::new(&[2, 0xc3, 0x28]);
    assert!(matches!(d.get_str(), Err(Error::Decode(_))));
    let mut d = Decoder::new(&[3, b'a']);
    assert!(matches!(d.get_str(), Err(Error::Decode(_))));
}

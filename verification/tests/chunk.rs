//! Chunking and manifests.

use archipelago::chunk::{chunk_bytes, reassemble};
use archipelago::encode::{Decoder, Encoder};
use archipelago::{sha256, Manifest};

fn round_trip(data: &[u8], chunk_size: usize) {
    let (chunks, manifest) = chunk_bytes(data, chunk_size);
    assert_eq!(manifest.size as usize, data.len());
    assert_eq!(manifest.content_hash, sha256(data));
    assert_eq!(manifest.chunks.len(), chunks.len());
    for c in &chunks {
        assert_eq!(c.id, sha256(&c.data));
        assert!(c.data.len() <= chunk_size);
    }
    let parts: Vec<Vec<u8>> = chunks.iter().map(|c| c.data.clone()).collect();
    let back = reassemble(&parts);
    assert_eq!(back, data);
    assert_eq!(sha256(&back), manifest.content_hash);
}

#[test]
fn sizes_including_edges() {
    let cs = 64;
    round_trip(b"", cs);
    round_trip(&[7u8], cs);
    round_trip(&vec![3u8; cs], cs);
    round_trip(&vec![9u8; cs - 1], cs);
    round_trip(&vec![9u8; cs + 1], cs);
    round_trip(&vec![9u8; cs * 3], cs);
    round_trip(&vec![9u8; cs * 3 + 5], cs);
}

#[test]
fn pseudo_random_sizes() {
    let mut state = 0x1234_5678u64;
    for _ in 0..40 {
        state ^= state << 13;
        state ^= state >> 7;
        state ^= state << 17;
        let len = (state % 5000) as usize;
        let data: Vec<u8> = (0..len).map(|i| (i as u64 ^ state) as u8).collect();
        round_trip(&data, 100);
    }
}

#[test]
fn manifest_serialization() {
    let (_c, m) = chunk_bytes(&vec![1u8; 250], 64);
    let mut e = Encoder::new();
    m.encode(&mut e);
    let bytes = e.finish();
    let mut d = Decoder::new(&bytes);
    let back = Manifest::decode(&mut d).unwrap();
    assert_eq!(back, m);
}

#[test]
fn identical_chunks_share_id() {
    let (_c, m) = chunk_bytes(&[0u8; 64 * 3], 64);
    assert_eq!(m.chunks[0], m.chunks[1]);
    assert_eq!(m.chunks[1], m.chunks[2]);
}

#[test]
fn hostile_chunk_count_is_error_not_panic() {
    // A manifest header whose chunk count varint decodes to u64::MAX must
    // be rejected, not turned into an absurd allocation.
    let mut bytes = vec![0u8]; // size
    bytes.extend_from_slice(&[0u8; 32]); // content hash
    bytes.extend_from_slice(&[0xffu8, 0xff, 0xff, 0xff, 0xff, 0xff, 0xff, 0xff, 0xff, 0x7f]);
    let mut d = Decoder::new(&bytes);
    assert!(Manifest::decode(&mut d).is_err());

    // A truncated but sane-looking count is also an error.
    let (c, m) = chunk_bytes(&[1u8; 100], 64);
    let mut e = Encoder::new();
    m.encode(&mut e);
    let mut bytes = e.finish();
    bytes.truncate(bytes.len() - 1);
    let mut d = Decoder::new(&bytes);
    assert!(Manifest::decode(&mut d).is_err());
    let _ = c;
}

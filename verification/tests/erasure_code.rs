//! The erasure code.

use archipelago::erasure::{gf_inv, gf_mul, tables, Erasure};
use archipelago::{sha256, Error};

struct Lcg(u64);
impl Lcg {
    fn next(&mut self) -> u64 {
        self.0 = self.0.wrapping_mul(6364136223846793005).wrapping_add(1442695040888963407);
        self.0 >> 33
    }
}

#[test]
fn field_arithmetic() {
    // Generator powers are a bijection over nonzero elements.
    let t = tables();
    let mut seen = [false; 256];
    for e in &t.exp[..255] {
        assert!(*e != 0);
        assert!(!seen[*e as usize], "generator cycle repeated early");
        seen[*e as usize] = true;
    }
    // Every nonzero element inverts to one.
    for a in 1..=255u8 {
        assert_eq!(gf_mul(a, gf_inv(a)), 1);
    }
    // Multiplication distributes over xor.
    for a in [0u8, 1, 3, 255, 128] {
        for b in [0u8, 2, 7, 200] {
            for c in [0u8, 1, 9] {
                assert_eq!(gf_mul(a, b ^ c), gf_mul(a, b) ^ gf_mul(a, c));
            }
        }
    }
}

#[test]
fn encode_decode_round_trip() {
    let mut rng = Lcg(12345);
    for k in 1..=6usize {
        for m in 1..=3usize {
            let e = Erasure::new(k, m).unwrap();
            for len in [0usize, 1, 7, k, k * 10, k * 10 + 1] {
                let chunk: Vec<u8> = (0..len).map(|_| rng.next() as u8).collect();
                let shards = e.encode(&chunk);
                assert_eq!(shards.len(), e.total());
                let refs: Vec<Option<&[u8]>> = shards.iter().map(|s| Some(s.as_slice())).collect();
                let back = e.decode(&refs, len).unwrap();
                assert_eq!(back, chunk, "k={k} m={m} len={len}");
            }
        }
    }
}

#[test]
fn any_k_of_k_plus_m_suffices() {
    let (k, m) = (3, 3);
    let e = Erasure::new(k, m).unwrap();
    let chunk: Vec<u8> = (0..1000u32).map(|i| (i * 7 % 251) as u8).collect();
    let shards = e.encode(&chunk);
    // Every subset of k positions must reconstruct the chunk.
    for mask in 0..(1u32 << (k + m)) {
        if mask.count_ones() != k as u32 {
            continue;
        }
        let refs: Vec<Option<&[u8]>> = (0..(k + m))
            .map(|pos| {
                if mask & (1 << pos) != 0 {
                    Some(shards[pos].as_slice())
                } else {
                    None
                }
            })
            .collect();
        let back = e.decode(&refs, chunk.len()).unwrap();
        assert_eq!(back, chunk, "subset mask {mask:06b}");
    }
}

#[test]
fn m_plus_one_losses_fail_cleanly() {
    let (k, m) = (2, 2);
    let e = Erasure::new(k, m).unwrap();
    let chunk = b"only two shards may vanish".to_vec();
    let shards = e.encode(&chunk);
    // Three of four missing: an error, never wrong bytes.
    let refs: Vec<Option<&[u8]>> = vec![Some(shards[0].as_slice()), None, None, None];
    assert!(matches!(e.decode(&refs, chunk.len()), Err(Error::ChunkUnavailable(_))));
    let refs: Vec<Option<&[u8]>> = vec![None, None, None, None];
    assert!(e.decode(&refs, chunk.len()).is_err());
    // All present: fine.
    let refs: Vec<Option<&[u8]>> = shards.iter().map(|s| Some(s.as_slice())).collect();
    assert_eq!(e.decode(&refs, chunk.len()).unwrap(), chunk);
}

#[test]
fn duplicate_content_at_distinct_positions_is_fine() {
    let e = Erasure::new(2, 1).unwrap();
    // All-zero data makes every shard zero, so positions share content.
    let chunk = vec![0u8; 64];
    let shards = e.encode(&chunk);
    assert_eq!(shards[0], shards[1]);
    assert_eq!(sha256(&shards[0]), sha256(&shards[2]));
    // Passing the same bytes at both data positions still decodes; the
    // missing parity position is not needed with k shards present.
    let refs = vec![
        Some(shards[0].as_slice()),
        Some(shards[1].as_slice()),
        None,
    ];
    assert_eq!(e.decode(&refs, 64).unwrap(), chunk);
}

#[test]
fn reencoded_shard_matches_original() {
    let e = Erasure::new(3, 2).unwrap();
    let chunk: Vec<u8> = (0..500u32).map(|i| (i % 253) as u8).collect();
    let shards = e.encode(&chunk);
    let data: Vec<Vec<u8>> = shards[..3].to_vec();
    for (pos, shard) in shards.iter().enumerate() {
        assert_eq!(e.encode_position(&data, pos), *shard, "position {pos}");
    }
}

#[test]
fn length_mismatch_is_rejected() {
    let e = Erasure::new(2, 1).unwrap();
    let shards = e.encode(b"sixteen bytes..");
    let mut refs: Vec<Option<&[u8]>> = shards.iter().map(|s| Some(s.as_slice())).collect();
    // A shard of the wrong length must not decode silently.
    let short: Vec<u8> = shards[0][..3].to_vec();
    refs[1] = Some(&short);
    assert!(e.decode(&refs, 15).is_err());
}

#[test]
fn bounds_are_enforced() {
    assert!(Erasure::new(0, 2).is_err());
    assert!(Erasure::new(2, 0).is_err());
    assert!(Erasure::new(33, 32).is_err());
    assert!(Erasure::new(16, 16).is_ok());
}

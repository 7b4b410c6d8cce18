//! Varints.

use archipelago::varint::{decode_uvarint, encode_uvarint};

#[test]
fn round_trip_edge_values() {
    for v in [0u64, 1, 127, 128, 255, 300, 16384, u32::MAX as u64, u64::MAX] {
        let mut buf = Vec::new();
        encode_uvarint(v, &mut buf);
        let (got, used) = decode_uvarint(&buf).unwrap();
        assert_eq!(got, v);
        assert_eq!(used, buf.len());
    }
}

#[test]
fn round_trip_sequential() {
    let mut buf = Vec::new();
    let values: Vec<u64> = (0..5000).map(|i| i * i * 7 + i).collect();
    for &v in &values {
        encode_uvarint(v, &mut buf);
    }
    let mut pos = 0;
    for &v in &values {
        let (got, used) = decode_uvarint(&buf[pos..]).unwrap();
        assert_eq!(got, v);
        pos += used;
    }
    assert_eq!(pos, buf.len());
}

#[test]
fn truncated_is_error() {
    assert!(decode_uvarint(&[0x80]).is_err());
    assert!(decode_uvarint(&[]).is_err());
}

//! Serialization helpers.

use archipelago::encode::{Decoder, Encoder};
use archipelago::sha256;

#[test]
fn round_trip_mixed() {
    let h = sha256(b"chunk");
    let mut e = Encoder::new();
    e.put_u8(9);
    e.put_uvarint(123456);
    e.put_str("/a/b/c");
    e.put_bytes(&[1, 2, 3, 4, 5]);
    e.put_hash(&h);
    let bytes = e.finish();

    let mut d = Decoder::new(&bytes);
    assert_eq!(d.get_u8().unwrap(), 9);
    assert_eq!(d.get_uvarint().unwrap(), 123456);
    assert_eq!(d.get_str().unwrap(), "/a/b/c");
    assert_eq!(d.get_bytes().unwrap(), vec![1, 2, 3, 4, 5]);
    assert_eq!(d.get_hash().unwrap(), h);
    assert_eq!(d.remaining(), 0);
}

#[test]
fn truncated_bytes_error() {
    let mut e = Encoder::new();
    e.put_bytes(&[1, 2, 3]);
    let mut bytes = e.finish();
    bytes.pop();
    let mut d = Decoder::new(&bytes);
    assert!(d.get_bytes().is_err());
}

//! SHA-256 against the standard vectors.

use archipelago::sha256;

fn hex(bytes: &[u8]) -> String {
    bytes.iter().map(|b| format!("{b:02x}")).collect()
}

#[test]
fn empty_string_vector() {
    assert_eq!(
        hex(sha256(b"").as_bytes()),
        "e3b0c44298fc1c149afbf4c8996fb92427ae41e4649b934ca495991b7852b855"
    );
}

#[test]
fn abc_vector() {
    assert_eq!(
        hex(sha256(b"abc").as_bytes()),
        "ba7816bf8f01cfea414140de5dae2223b00361a396177a9cb410ff61f20015ad"
    );
}

#[test]
fn two_block_vector() {
    assert_eq!(
        hex(sha256(b"abcdbcdecdefdefgefghfghighijhijkijkljklmklmnlmnomnopnopq").as_bytes()),
        "248d6a61d20638b8e5c026930c3e6039a33ce45964ff2167f6ecedd419db06c1"
    );
}

#[test]
fn million_byte_vector() {
    assert_eq!(
        hex(sha256(&vec![b'a'; 1_000_000]).as_bytes()),
        "cdc76e5c9914fb9281a1c7e284d73e67f1809a48a497200e046d39ccc7112cd0"
    );
}

#[test]
fn padding_boundaries() {
    let expected = [
        (55, "9f4390f8d30c2dd92ec9f095b65e2b9ae9b0a925a5258e241c9f1e910f734318"),
        (56, "b35439a4ac6f0948b6d6f9e3c6af0f5f590ce20f1bde7090ef7970686ec6738a"),
        (63, "7d3e74a05d7db15bce4ad9ec0658ea98e3f06eeecf16b4c6fff2da457ddc2f34"),
        (64, "ffe054fe7ae0cb6dc65c3af9b61d5209f439851db43d0ba5997337df154668eb"),
    ];
    for (len, want) in expected {
        assert_eq!(hex(sha256(&vec![b'a'; len]).as_bytes()), want, "length {len}");
    }
}

#[test]
fn short_is_a_prefix() {
    assert_eq!(sha256(b"abc").short(), "ba7816bf");
}

#[test]
fn same_compares_every_byte() {
    let a = sha256(b"a");
    let mut b = a;
    assert!(a.same(&b));
    b.0[31] ^= 1;
    assert!(!a.same(&b));
}

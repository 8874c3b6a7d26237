use dedup::digest::{compute_content_digest, digest_from_hash};

fn blake3_prefix(data: &[u8]) -> u128 {
    let hash = blake3::hash(data);
    let mut bytes = [0u8; 16];
    bytes.copy_from_slice(&hash.as_bytes()[..16]);
    u128::from_le_bytes(bytes)
}

#[test]
fn digest_is_stable() {
    let data = b"the same bytes".to_vec();
    let from_memory = compute_content_digest(&data);
    let again = compute_content_digest(&data.clone());
    assert_eq!(from_memory, again);
}

#[test]
fn digest_is_the_blake3_prefix() {
    for data in [&b""[..], &b"hello"[..], &[0u8; 1000][..]] {
        assert_eq!(compute_content_digest(data), Some(blake3_prefix(data)));
    }
}

#[test]
fn different_content_gives_different_digests() {
    assert_ne!(compute_content_digest(b"hello"), compute_content_digest(b"hellp"));
    assert_ne!(compute_content_digest(b""), compute_content_digest(b"\0"));
}

#[test]
fn zero_hash_gives_no_digest() {
    assert_eq!(digest_from_hash(0), None);
    assert_eq!(digest_from_hash(1), Some(1));
    assert_eq!(digest_from_hash(u128::MAX), Some(u128::MAX));
}

use blk::hashing::{digest_text, hash_file};
use sha2::{Digest, Sha256};

#[test]
fn hash_of_known_contents() {
    assert_eq!(
        hash_file(Some(b"")),
        "e3b0c44298fc1c149afbf4c8996fb92427ae41e4649b934ca495991b7852b855"
    );
    assert_eq!(
        hash_file(Some(b"abc")),
        "ba7816bf8f01cfea414140de5dae2223b00361a396177a9cb410ff61f20015ad"
    );
    assert_eq!(
        hash_file(Some(b"A")),
        "559aead08264d5795d3909718cdd05abd49572e84fe55590eef31a88a08fdffd"
    );
}

#[test]
fn hash_is_sixty_four_lowercase_hex_digits() {
    let h = hash_file(Some(&[0u8, 255, 16, 1]));
    assert_eq!(h.len(), 64);
    assert!(h.chars().all(|c| c.is_ascii_digit() || ('a'..='f').contains(&c)));
}

#[test]
fn unreadable_file_has_empty_hash() {
    assert_eq!(hash_file(None), "");
}

#[test]
fn different_contents_have_different_hashes() {
    assert_ne!(hash_file(Some(b"A")), hash_file(Some(b"A2")));
    assert_eq!(hash_file(Some(b"A2")), hash_file(Some(b"A2")));
}

#[test]
fn hash_agrees_with_the_crates_called_directly() {
    let data = b"The quick brown fox jumps over the lazy dog";
    let direct = hex::encode(Sha256::digest(data));
    assert_eq!(hash_file(Some(data)), direct);
    assert_eq!(direct, "d7a8fbb307d7809469ca9abcb0082e4f8d5651e46d3cdb762d02d0bf37c9e592");
}

#[test]
fn digests_are_written_high_half_first() {
    assert_eq!(digest_text(&[]), "");
    assert_eq!(digest_text(&[0x00, 0x0f, 0xf0, 0xa5, 0xff]), "000ff0a5ff");
    assert_eq!(digest_text(&[1, 2, 3, 15, 16]), "0102030f10");
}

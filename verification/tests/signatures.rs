use dupefinder::candidate::FileCandidate;
use dupefinder::signature::{signature, Key, Stage};

fn with_content(content: &[u8]) -> FileCandidate {
    FileCandidate {
        path: "a/f".to_string(),
        name: "f".to_string(),
        size: Some(content.len() as u64),
        content: Some(content.to_vec()),
    }
}

fn digest_of(c: &FileCandidate, limit: usize) -> Vec<u8> {
    match signature(c, Stage::ByPrefixHash(limit)) {
        Some(Key::Digest(d)) => d,
        other => panic!("expected a digest key, got {:?}", other.is_some()),
    }
}

#[test]
fn full_hash_matches_the_known_vector_for_hello() {
    let expected: Vec<u8> = vec![
        0xaa, 0xf4, 0xc6, 0x1d, 0xdc, 0xc5, 0xe8, 0xa2, 0xda, 0xbe, 0xde, 0x0f, 0x3b, 0x48,
        0x2c, 0xd9, 0xae, 0xa9, 0x43, 0x4d,
    ];
    assert_eq!(digest_of(&with_content(b"hello"), 0), expected);
}

#[test]
fn empty_content_hashes_to_the_empty_string_digest() {
    let expected: Vec<u8> = vec![
        0xda, 0x39, 0xa3, 0xee, 0x5e, 0x6b, 0x4b, 0x0d, 0x32, 0x55, 0xbf, 0xef, 0x95, 0x60,
        0x18, 0x90, 0xaf, 0xd8, 0x07, 0x09,
    ];
    assert_eq!(digest_of(&with_content(b""), 0), expected);
}

#[test]
fn bounded_hash_reads_only_the_prefix() {
    let long = with_content(b"hellothere");
    let short = with_content(b"hell");
    assert_eq!(digest_of(&long, 4), digest_of(&short, 0));
    assert_ne!(digest_of(&long, 5), digest_of(&long, 4));
}

#[test]
fn a_limit_beyond_the_length_hashes_everything() {
    let c = with_content(b"hello");
    assert_eq!(digest_of(&c, 1024), digest_of(&c, 0));
}

#[test]
fn digests_are_twenty_bytes() {
    assert_eq!(digest_of(&with_content(b"anything at all"), 0).len(), 20);
}

#[test]
fn name_signature_is_the_base_name() {
    let c = with_content(b"hello");
    match signature(&c, Stage::ByName) {
        Some(Key::Name(n)) => assert_eq!(n, "f"),
        _ => panic!("expected a name key"),
    }
}

#[test]
fn size_signature_is_absent_without_metadata() {
    let mut c = with_content(b"hello");
    c.size = None;
    assert!(signature(&c, Stage::BySize).is_none());
    match signature(&with_content(b"hello"), Stage::BySize) {
        Some(Key::Size(sz)) => assert_eq!(sz, 5),
        _ => panic!("expected a size key"),
    }
}

#[test]
fn hash_signature_is_absent_without_content() {
    let mut c = with_content(b"hello");
    c.content = None;
    assert!(signature(&c, Stage::ByPrefixHash(0)).is_none());
}

use janice::hash::{hash_bytes, StreamHasher};

#[test]
fn test_hash_empty() {
    let hash = hash_bytes(b"");
    assert!(!hash.as_bytes().is_empty());
}

#[test]
fn hash_test_hash_consistency() {
    let data = b"Hello, Janice!";
    let hash1 = hash_bytes(data);
    let hash2 = hash_bytes(data);
    assert_eq!(hash1, hash2);
}

#[test]
fn test_hash_different_data() {
    let hash1 = hash_bytes(b"foo");
    let hash2 = hash_bytes(b"bar");
    assert_ne!(hash1, hash2);
}

#[test]
fn test_hash_display() {
    let hash = hash_bytes(b"test");
    let hash_str = hash.to_hex();
    assert_eq!(hash_str.len(), 64);
    assert!(hash_str.chars().all(|c| c.is_ascii_hexdigit()));
}

#[test]
fn test_incremental_hashing() {
    let mut hasher1 = StreamHasher::new();
    hasher1.update(b"Hello, ");
    hasher1.update(b"World!");
    let hash1 = hasher1.finalize();

    let hash2 = hash_bytes(b"Hello, World!");

    assert_eq!(hash1, hash2);
}

#[test]
fn test_algorithm_name() {
    let hash = hash_bytes(b"test");
    let algo = hash.algorithm();
    assert!(algo == "BLAKE3" || algo == "SHA-256");
}

#[test]
fn test_hash_empty_data() {
    let hash1 = hash_bytes(b"");
    let hash2 = hash_bytes(b"");

    assert_eq!(hash1, hash2, "Empty data should produce consistent hashes");
    assert!(!hash1.as_bytes().is_empty(), "Hash should not be empty");
}

#[test]
fn unit_hash_test_hash_consistency() {
    let data = b"The quick brown fox jumps over the lazy dog";

    let hash1 = hash_bytes(data);
    let hash2 = hash_bytes(data);
    let hash3 = hash_bytes(data);

    assert_eq!(hash1, hash2);
    assert_eq!(hash2, hash3);
}

#[test]
fn test_hash_uniqueness() {
    let hash1 = hash_bytes(b"foo");
    let hash2 = hash_bytes(b"bar");
    let hash3 = hash_bytes(b"baz");

    assert_ne!(hash1, hash2);
    assert_ne!(hash2, hash3);
    assert_ne!(hash1, hash3);
}

#[test]
fn test_hash_sensitivity() {
    let hash1 = hash_bytes(b"test");
    let hash2 = hash_bytes(b"Test");
    let hash3 = hash_bytes(b"test ");
    let hash4 = hash_bytes(b"tes");

    assert_ne!(hash1, hash2, "Case difference should change hash");
    assert_ne!(hash1, hash3, "Trailing space should change hash");
    assert_ne!(hash1, hash4, "Missing character should change hash");
}

#[test]
fn test_incremental_hashing_equivalence() {
    let full_data = b"Hello, World! This is a test of incremental hashing.";

    let hash_full = hash_bytes(full_data);

    let mut hasher = StreamHasher::new();
    hasher.update(b"Hello, World! ");
    hasher.update(b"This is a test ");
    hasher.update(b"of incremental hashing.");
    let hash_incremental = hasher.finalize();

    assert_eq!(
        hash_full, hash_incremental,
        "Incremental hashing should produce same result as full hashing"
    );
}

#[test]
fn test_hash_display_format() {
    let hash = hash_bytes(b"test data");
    let hash_str = hash.to_hex();

    assert_eq!(hash_str.len(), 64);

    for c in hash_str.chars() {
        assert!(c.is_ascii_hexdigit(), "Character '{}' is not hex", c);
    }

    for c in hash_str.chars() {
        if c.is_ascii_alphabetic() {
            assert!(c.is_lowercase(), "Hex should be lowercase");
        }
    }
}

#[test]
fn test_hash_algorithm_name() {
    let hash = hash_bytes(b"test");
    let algo = hash.algorithm();

    assert!(algo == "BLAKE3" || algo == "SHA-256", "Unknown algorithm: {}", algo);
}

#[test]
fn test_hash_as_bytes() {
    let hash = hash_bytes(b"test data");
    let bytes = hash.as_bytes();

    assert_eq!(bytes.len(), 32);
}

#[test]
fn test_hash_determinism_across_runs() {
    let data = b"Determinism test data";
    let mut hashes = Vec::new();

    for _ in 0..10 {
        let hash = hash_bytes(data);
        hashes.push(hash);
    }

    for i in 1..hashes.len() {
        assert_eq!(hashes[0], hashes[i], "Hash should be deterministic across runs");
    }
}

#[test]
fn test_hash_clone_equality() {
    let hash1 = hash_bytes(b"test");
    let hash2 = hash1.clone();

    assert_eq!(hash1, hash2);
    assert_eq!(hash1.as_bytes(), hash2.as_bytes());
}

#[test]
fn test_hasher_reuse() {
    let mut hasher = StreamHasher::new();
    hasher.update(b"test");
    let _hash = hasher.finalize();
}

#[test]
fn empty_input_has_the_known_blake3_digest() {
    let hash = hash_bytes(b"");
    assert_eq!(
        hash.to_hex(),
        "af1349b9f5f9a1a6a0404dea36dcc9499bcb25c9adc112b7cc9a93cae41f3262"
    );
    assert_eq!(hash.algorithm(), "BLAKE3");
}

#[test]
fn any_split_gives_the_same_fingerprint() {
    let data = b"abcdefghijklmnopqrstuvwxyz";
    let whole = hash_bytes(data);
    for cut in 0..=data.len() {
        let mut h = StreamHasher::new();
        h.update(&data[..cut]);
        h.update(&data[cut..]);
        assert_eq!(h.finalize(), whole);
    }
    let mut unfed = StreamHasher::default();
    unfed.update(b"");
    assert_eq!(unfed.finalize(), hash_bytes(b""));
}

#[test]
fn hex_renders_each_byte_as_two_digits() {
    let hash = janice::ContentHash::Blake3([0xab; 32]);
    assert_eq!(hash.to_hex(), "ab".repeat(32));
    let sha = janice::ContentHash::Sha256([0x01; 32]);
    assert_eq!(sha.algorithm(), "SHA-256");
    assert_ne!(hash, janice::ContentHash::Sha256([0xab; 32]));
}

use fdedupe::hash::{fast_hash, full_hash, FullHasher, FAST_HASH_BYTES};

const EMPTY: &str = "af1349b9f5f9a1a6a0404dea36dcc9499bcb25c9adc112b7cc9a93cae41f3262";

fn pattern(len: usize) -> Vec<u8> {
    (0..len).map(|i| (i % 251) as u8).collect()
}

#[test]
fn an_empty_file_hashes_the_empty_string() {
    assert_eq!(fast_hash(&[]), EMPTY);
    assert_eq!(full_hash(&Vec::new()), EMPTY);
    assert_eq!(full_hash(&vec![Vec::new(), Vec::new()]), EMPTY);
    assert_eq!(FullHasher::new().finish(), EMPTY);
}

#[test]
fn digests_are_sixty_four_lowercase_hex_digits() {
    for data in [pattern(0), pattern(1), pattern(1000), pattern(70000)] {
        for digest in [fast_hash(&data), full_hash(&vec![data.clone()])] {
            assert_eq!(digest.len(), 64);
            assert!(digest.chars().all(|c| c.is_ascii_digit() || ('a'..='f').contains(&c)));
        }
    }
}

#[test]
fn the_fast_hash_is_the_digest_of_the_first_64_kib() {
    assert_eq!(FAST_HASH_BYTES, 65536);
    let data = pattern(200_000);
    assert_eq!(fast_hash(&data), blake3::hash(&data[..65536]).to_hex().to_string());
    assert_eq!(fast_hash(&data[..65536]), fast_hash(&data));
    assert_eq!(fast_hash(&data[..65537]), fast_hash(&data));
    assert_ne!(fast_hash(&data[..65535]), fast_hash(&data));
    let short = pattern(100);
    assert_eq!(fast_hash(&short), blake3::hash(&short).to_hex().to_string());
    assert_eq!(fast_hash(b"hello world\n"), blake3::hash(b"hello world\n").to_hex().to_string());
    assert_ne!(fast_hash(b"hello world\n"), fast_hash(b"hello world"));
}

#[test]
fn the_full_hash_does_not_depend_on_the_chunks() {
    let data = pattern(200_000);
    let whole = blake3::hash(&data).to_hex().to_string();
    assert_eq!(full_hash(&vec![data.clone()]), whole);
    let chunks: Vec<Vec<u8>> = data.chunks(65536).map(|c| c.to_vec()).collect();
    assert_eq!(chunks.len(), 4);
    assert_eq!(full_hash(&chunks), whole);
    let uneven: Vec<Vec<u8>> =
        vec![data[..1].to_vec(), Vec::new(), data[1..70_000].to_vec(), data[70_000..].to_vec()];
    assert_eq!(full_hash(&uneven), whole);
    assert_ne!(full_hash(&chunks), fast_hash(&data));
    let swapped: Vec<Vec<u8>> = vec![data[100..].to_vec(), data[..100].to_vec()];
    assert_ne!(full_hash(&swapped), whole);
}

#[test]
fn the_full_hasher_takes_a_file_chunk_by_chunk() {
    let data = pattern(150_000);
    let mut hasher = FullHasher::new();
    for chunk in data.chunks(4096) {
        hasher.update(chunk);
    }
    assert_eq!(hasher.finish(), blake3::hash(&data).to_hex().to_string());
    assert_eq!(hasher.finish(), hasher.finish());
    hasher.update(b"more");
    assert_ne!(hasher.finish(), blake3::hash(&data).to_hex().to_string());
}

#[test]
fn a_small_file_has_the_same_fast_and_full_hash() {
    for len in [0usize, 1, 12, 65535, 65536] {
        let data = pattern(len);
        assert_eq!(fast_hash(&data), full_hash(&vec![data.clone()]), "{}", len);
    }
    let data = pattern(65537);
    assert_ne!(fast_hash(&data), full_hash(&vec![data.clone()]));
}

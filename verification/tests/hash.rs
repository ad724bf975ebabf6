use mc_chunk_hash::hash::{hash_chunk, hash_region_from_chunk_hashes, hash_to_hex, Hash128};
use xxhash_rust::xxh3::{xxh3_128, Xxh3};

#[test]
fn empty_chunk_hash_is_zero() {
    assert_eq!(hash_chunk(b""), [0u8; 16]);
}

#[test]
fn hash_is_deterministic() {
    let data = b"hello world, chunk data";
    assert_eq!(hash_chunk(data), hash_chunk(data));
}

#[test]
fn hash_differs_on_content() {
    assert_ne!(hash_chunk(b"aaa"), hash_chunk(b"aab"));
}

#[test]
fn region_hash_stable_order() {
    let hashes_a: Vec<Hash128> =
        [b"c0".as_slice(), b"c1".as_slice(), b"c2".as_slice()].iter().map(|c| hash_chunk(c)).collect();
    let hashes_b: Vec<Hash128> =
        [b"c0".as_slice(), b"c1".as_slice(), b"c2".as_slice()].iter().map(|c| hash_chunk(c)).collect();
    let a = hash_region_from_chunk_hashes(&hashes_a);
    let b = hash_region_from_chunk_hashes(&hashes_b);
    assert_eq!(a, b);
}

#[test]
fn region_hash_order_sensitive() {
    let h1_in = [b"a".as_slice(), b"b".as_slice(), b"".as_slice()];
    let h2_in = [b"b".as_slice(), b"a".as_slice(), b"".as_slice()];
    let h1 = hash_region_from_chunk_hashes(&h1_in.iter().map(|c| hash_chunk(c)).collect::<Vec<_>>());
    let h2 = hash_region_from_chunk_hashes(&h2_in.iter().map(|c| hash_chunk(c)).collect::<Vec<_>>());
    assert_ne!(h1, h2);
}

#[test]
fn region_hash_distinguishes_empty_vs_empty() {
    let all_empty: Vec<Hash128> = vec![[0u8; 16]; 3];
    let one_filled: Vec<Hash128> = vec![[0u8; 16], hash_chunk(b"x"), [0u8; 16]];
    assert_ne!(hash_region_from_chunk_hashes(&all_empty), hash_region_from_chunk_hashes(&one_filled));
}

#[test]
fn hex_format_is_32_chars_lowercase() {
    let h = hash_chunk(b"x");
    let hex = hash_to_hex(&h);
    assert_eq!(hex.len(), 32);
    assert_eq!(hex, hex.to_lowercase());
}

#[test]
fn hex_spells_each_byte() {
    let mut h = [0u8; 16];
    h[0] = 0x0F;
    h[1] = 0xA9;
    h[15] = 0xFE;
    assert_eq!(hash_to_hex(&h), "0fa900000000000000000000000000fe");
}

#[test]
fn chunk_hash_is_the_big_endian_digest() {
    let data = b"chunk";
    assert_eq!(hash_chunk(data), xxh3_128(data).to_be_bytes());
}

#[test]
fn region_hash_of_nothing_is_the_digest_of_nothing() {
    let h = hash_region_from_chunk_hashes(&[]);
    assert_eq!(hash_to_hex(&h), "99aa06d3014798d86001c324468d497f");
}

#[test]
fn region_hash_is_the_digest_of_the_hashes_in_turn() {
    let hashes: Vec<Hash128> = (0..1024u32).map(|i| hash_chunk(&i.to_be_bytes())).collect();
    let mut hasher = Xxh3::new();
    for h in &hashes {
        hasher.update(h);
    }
    assert_eq!(hash_region_from_chunk_hashes(&hashes), hasher.digest128().to_be_bytes());
}

#[test]
fn different_hashes_are_spelt_differently() {
    let a = hash_chunk(b"a");
    let mut b = a;
    b[7] ^= 1;
    assert_ne!(hash_to_hex(&a), hash_to_hex(&b));
    assert_ne!(hash_region_from_chunk_hashes(&[a]), hash_region_from_chunk_hashes(&[b]));
}

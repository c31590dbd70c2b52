use dupfinder::hashing::{hash_content, ContentHasher, CHUNK};
use dupfinder::helpers::human_readable;

#[test]
fn bytes_below_one_kib_print_plain() {
    assert_eq!(human_readable(0), "0 B");
    assert_eq!(human_readable(5), "5 B");
    assert_eq!(human_readable(512), "512 B");
    assert_eq!(human_readable(1023), "1023 B");
}

#[test]
fn kib_values_show_two_rounded_decimals() {
    assert_eq!(human_readable(1024), "1.00 KiB");
    assert_eq!(human_readable(1536), "1.50 KiB");
    assert_eq!(human_readable(2047), "2.00 KiB");
    assert_eq!(human_readable(10240), "10.00 KiB");
    assert_eq!(human_readable(10700), "10.45 KiB");
}

#[test]
fn rounding_carries_into_the_whole_part() {
    assert_eq!(human_readable(1048575), "1024.00 KiB");
    assert_eq!(human_readable(1073741823), "1024.00 MiB");
}

#[test]
fn exact_half_hundredths_round_to_even() {
    assert_eq!(human_readable(1152), "1.12 KiB");
    assert_eq!(human_readable(1408), "1.38 KiB");
}

#[test]
fn larger_magnitudes_get_their_own_suffix() {
    assert_eq!(human_readable(1048576), "1.00 MiB");
    assert_eq!(human_readable(1572864), "1.50 MiB");
    assert_eq!(human_readable(1073741824), "1.00 GiB");
    assert_eq!(human_readable(1099511627776), "1.00 TiB");
    assert_eq!(human_readable(1125899906842624), "1.00 PiB");
    assert_eq!(human_readable(1152921504606846976), "1.00 EiB");
    assert_eq!(human_readable(u64::MAX), "16.00 EiB");
}

#[test]
fn identical_content_hashes_identically() {
    let a = b"some file content".to_vec();
    let b = b"some file content".to_vec();
    assert_eq!(hash_content(&a), hash_content(&b));
}

#[test]
fn distinct_content_hashes_differently() {
    let a = b"some file content".to_vec();
    let b = b"other file content".to_vec();
    assert_ne!(hash_content(&a), hash_content(&b));
}

#[test]
fn hashing_twice_gives_the_same_hash() {
    let data: Vec<u8> = (0..100000u32).map(|i| (i % 251) as u8).collect();
    let first = hash_content(&data);
    let second = hash_content(&data);
    assert_eq!(first, second);
}

#[test]
fn streaming_chunks_matches_hashing_at_once() {
    let data: Vec<u8> = (0..(2 * CHUNK + 1234)).map(|i| (i % 13) as u8).collect();
    let mut hasher = ContentHasher::new();
    let mut start = 0;
    while start < data.len() {
        let end = if data.len() - start < CHUNK { data.len() } else { start + CHUNK };
        let chunk: Vec<u8> = data[start..end].to_vec();
        hasher.update(&chunk);
        start = end;
    }
    assert_eq!(hasher.finish(), hash_content(&data));
}

#[test]
fn empty_content_hashes_consistently() {
    let a: Vec<u8> = Vec::new();
    let b: Vec<u8> = Vec::new();
    assert_eq!(hash_content(&a), hash_content(&b));
    let hasher = ContentHasher::new();
    assert_eq!(hasher.finish(), hash_content(&a));
}

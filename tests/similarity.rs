use meme_guard::imghash::ImageHash;
use meme_guard::similarity::{hamming_distance, percent_of, similarity};

fn fine_hex(seed: u32) -> String {
    let mut s = String::new();
    let digits = "0123456789ABCDEF".as_bytes();
    let mut x = seed;
    for _ in 0..256 {
        x = x.wrapping_mul(1103515245).wrapping_add(12345);
        s.push(digits[((x >> 16) % 16) as usize] as char);
    }
    s
}

#[test]
fn compare_identical_bits() {
    assert_eq!(ImageHash::compare_hashes("10110", "10110"), 100);
}

#[test]
fn compare_exact_percentages() {
    assert_eq!(ImageHash::compare_hashes("1111", "1110"), 75);
    assert_eq!(ImageHash::compare_hashes("1111", "0000"), 0);
    assert_eq!(ImageHash::compare_hashes("101", "100"), 66);
}

#[test]
fn hamming_counts_positions() {
    let a: Vec<char> = "0110".chars().collect();
    let b: Vec<char> = "1100".chars().collect();
    assert_eq!(hamming_distance(&a, &b), 2);
}

#[test]
fn percent_rounds_down() {
    assert_eq!(percent_of(1024, 1), 99);
    assert_eq!(percent_of(3, 1), 66);
    assert_eq!(percent_of(7, 0), 100);
}

#[test]
fn similarity_symmetric_and_reflexive() {
    let a = fine_hex(1);
    let b = fine_hex(2);
    assert_eq!(similarity(&a, &b).unwrap(), similarity(&b, &a).unwrap());
    assert_eq!(similarity(&a, &a).unwrap(), 100);
}

#[test]
fn similarity_one_bit_of_1024() {
    let a = fine_hex(3);
    let mut b: Vec<char> = a.chars().collect();
    b[10] = if b[10] == '0' { '1' } else { '0' };
    let b: String = b.into_iter().collect();
    assert_eq!(similarity(&a, &b).unwrap(), 99);
}

#[test]
fn similarity_in_bounds() {
    assert_eq!(similarity("0", "F").unwrap(), 0);
    assert_eq!(similarity("00", "0F").unwrap(), 50);
    let r = similarity(&fine_hex(4), &fine_hex(5)).unwrap();
    assert!((0..=100).contains(&r));
}

#[test]
fn similarity_rejects_malformed() {
    assert!(similarity("0Z", "00").is_err());
    assert!(similarity("00", "x0").is_err());
}

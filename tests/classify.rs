use meme_guard::classify::{get_similar_meme, SIMILAR_PERCENT};
use meme_guard::codec::from_binary_to_hex;
use meme_guard::imghash::{generate_hashes, ImageHash};
use meme_guard::meme::Meme;
use meme_guard::store::MemeStore;

fn bits(seed: u32) -> Vec<char> {
    let mut x = seed;
    (0..1024)
        .map(|_| {
            x = x.wrapping_mul(1103515245).wrapping_add(12345);
            if (x >> 16) & 1 == 1 { '1' } else { '0' }
        })
        .collect()
}

fn flip(b: &[char], n: usize) -> Vec<char> {
    let mut c = b.to_vec();
    for i in 0..n {
        c[i * 3] = if c[i * 3] == '0' { '1' } else { '0' };
    }
    c
}

fn hex(b: &[char]) -> String {
    from_binary_to_hex(&b.iter().collect::<String>()).unwrap()
}

fn meme(uuid: u128, long: &str, posted_at: Option<i64>) -> Meme {
    Meme::new(uuid, 1, 10, posted_at, Some(long.to_string()), Some("ABCD".to_string()))
}

fn image(seed: u32, n: usize) -> ImageHash {
    let mut x = seed;
    let image = (0..n)
        .map(|_| {
            (0..n)
                .map(|_| {
                    x = x.wrapping_mul(1103515245).wrapping_add(12345);
                    (x >> 16) as u8
                })
                .collect()
        })
        .collect();
    ImageHash { image }
}

#[test]
fn identical_images_are_duplicates() {
    let (long_a, short_a) = generate_hashes(image(1, 32), image(1, 4)).unwrap();
    let (long_b, short_b) = generate_hashes(image(1, 32), image(1, 4)).unwrap();
    assert_eq!(long_a, long_b);
    assert_eq!(short_a, short_b);
    assert_eq!(meme_guard::similarity::similarity(&long_a, &long_b).unwrap(), 100);
    let r = get_similar_meme(vec![meme(5, &long_a, Some(1))], &long_b, SIMILAR_PERCENT);
    assert_eq!(r.percent, 100);
    assert_eq!(r.meme.unwrap().uuid, 5);
}

#[test]
fn unrelated_images_are_new() {
    let (long_a, _) = generate_hashes(image(1, 32), image(1, 4)).unwrap();
    let (long_b, _) = generate_hashes(image(99, 32), image(99, 4)).unwrap();
    let p = meme_guard::similarity::similarity(&long_a, &long_b).unwrap();
    assert!(p < SIMILAR_PERCENT);
    let r = get_similar_meme(vec![meme(5, &long_a, Some(1))], &long_b, SIMILAR_PERCENT);
    assert_eq!(r.percent, 0);
    assert!(r.meme.is_none());
}

#[test]
fn one_bit_off_is_duplicate() {
    let b = bits(7);
    let stored = hex(&b);
    let new = hex(&flip(&b, 1));
    let r = get_similar_meme(vec![meme(8, &stored, None)], &new, SIMILAR_PERCENT);
    assert_eq!(r.percent, 100);
    assert_eq!(r.meme.unwrap().uuid, 8);
}

#[test]
fn first_duplicate_wins() {
    let b = bits(11);
    let h = hex(&b);
    let near = hex(&flip(&b, 2));
    let r = get_similar_meme(vec![meme(1, &near, Some(5)), meme(2, &h, Some(9))], &h, SIMILAR_PERCENT);
    assert_eq!(r.percent, 100);
    assert_eq!(r.meme.unwrap().uuid, 1);
}

#[test]
fn best_similar_wins() {
    let b = bits(13);
    let h = hex(&b);
    // 1024 bits: 30 flips give 97%, 60 flips give 94%
    let c1 = meme(1, &hex(&flip(&b, 60)), Some(1));
    let c2 = meme(2, &hex(&flip(&b, 30)), Some(1));
    let r = get_similar_meme(vec![c1, c2], &h, SIMILAR_PERCENT);
    assert_eq!(r.percent, 97);
    assert_eq!(r.meme.unwrap().uuid, 2);
}

#[test]
fn similar_tie_goes_to_newest() {
    let b = bits(17);
    let h = hex(&b);
    let other = hex(&flip(&b, 30));
    let r = get_similar_meme(
        vec![meme(1, &other, Some(100)), meme(2, &other, Some(300)), meme(3, &other, None)],
        &h,
        SIMILAR_PERCENT,
    );
    assert_eq!(r.percent, 97);
    assert_eq!(r.meme.unwrap().uuid, 2);
}

#[test]
fn below_threshold_is_new() {
    let b = bits(19);
    let h = hex(&b);
    let far = hex(&flip(&b, 90));
    let r = get_similar_meme(vec![meme(1, &far, Some(1))], &h, SIMILAR_PERCENT);
    assert_eq!(r.percent, 0);
    assert!(r.meme.is_none());
    let r = get_similar_meme(vec![meme(1, &far, Some(1))], &h, 90);
    assert_eq!(r.percent, 91);
}

#[test]
fn incomparable_candidates_skipped() {
    let b = bits(23);
    let h = hex(&b);
    let none = Meme::new(1, 1, 10, None, None, None);
    let short = meme(2, "ABCD", None);
    let bad = meme(3, &"Z".repeat(256), None);
    let r = get_similar_meme(vec![none, short, bad], &h, SIMILAR_PERCENT);
    assert_eq!(r.percent, 0);
    assert!(r.meme.is_none());
}

#[test]
fn failed_hash_never_in_bucket() {
    let mut store = MemeStore::new();
    let (long, short) = generate_hashes(image(1, 32), image(1, 4)).unwrap();
    assert!(store.add(Meme::new(1, 1, 10, Some(1), Some(long.clone()), Some(short.clone()))));
    assert!(store.add(Meme::new(2, 1, 10, Some(2), None, None)));
    assert!(store.add(Meme::new(3, 1, 10, Some(3), Some(long.clone()), Some("0000".to_string()))));
    let found = store.get_by_short_hash(&short);
    assert_eq!(found.len(), 1);
    assert_eq!(found[0].uuid, 1);
    for c in ["", "0000", "FFFF", short.as_str()] {
        assert!(store.get_by_short_hash(c).iter().all(|m| m.uuid != 2));
    }
}

#[test]
fn bucket_only_matching_coarse() {
    let mut store = MemeStore::new();
    store.add(meme(1, &"0".repeat(256), Some(1)));
    store.add(Meme::new(2, 1, 10, None, Some("1".repeat(256)), Some("ABCE".to_string())));
    store.add(meme(3, &"2".repeat(256), Some(3)));
    let found = store.get_by_short_hash("ABCD");
    let ids: Vec<u128> = found.iter().map(|m| m.uuid).collect();
    assert_eq!(ids, vec![1, 3]);
    assert!(store.get_by_short_hash("abcd").is_empty());
}

#[test]
fn store_refuses_partial_and_repeated() {
    let mut store = MemeStore::new();
    assert!(!store.add(Meme::new(1, 1, 10, None, Some("AB".to_string()), None)));
    assert!(store.add(Meme::new(1, 1, 10, None, None, None)));
    assert!(!store.add(Meme::new(1, 2, 10, None, None, None)));
}

#[test]
fn store_get_update_delete() {
    let mut store = MemeStore::new();
    store.add(meme(4, &"0".repeat(256), Some(1)));
    assert!(store.replace_msg_id(4, 77));
    assert_eq!(store.get_by_id(4).unwrap().msg_id, Some(77));
    assert!(!store.replace_msg_id(5, 77));
    assert!(store.delete(4));
    assert!(store.get_by_id(4).is_none());
    assert!(!store.delete(4));
}

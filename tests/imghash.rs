use meme_guard::imghash::{generate_hashes, ImageHash};

fn square(n: usize, f: impl Fn(usize, usize) -> u8) -> ImageHash {
    ImageHash { image: (0..n).map(|r| (0..n).map(|c| f(r, c)).collect()).collect() }
}

#[test]
fn threshold_against_mean() {
    // mean of 0, 10, 20, 30 is 15
    let img = ImageHash { image: vec![vec![0, 10], vec![20, 30]] };
    assert_eq!(img.threshold().image, vec![vec![0, 0], vec![255, 255]]);
}

#[test]
fn threshold_pixel_equal_to_mean_is_set() {
    let img = ImageHash { image: vec![vec![10, 20, 30]] };
    assert_eq!(img.threshold().image, vec![vec![0, 255, 255]]);
}

#[test]
fn uniform_image_all_set() {
    let img = ImageHash { image: vec![vec![7, 7], vec![7, 7]] };
    assert_eq!(img.threshold().image, vec![vec![255, 255], vec![255, 255]]);
}

#[test]
fn hash_row_by_row() {
    let img = ImageHash { image: vec![vec![255, 0, 255], vec![0, 0, 254]] };
    assert_eq!(img.hash().unwrap(), "101000");
}

#[test]
fn hash_of_no_matrix() {
    assert!(ImageHash { image: vec![] }.hash().is_none());
    assert!(ImageHash { image: vec![vec![]] }.hash().is_none());
    assert!(ImageHash { image: vec![vec![1, 2], vec![3]] }.hash().is_none());
}

#[test]
fn fingerprint_lengths_and_values() {
    // left half dark, right half bright
    let fine = square(32, |_, c| if c < 16 { 10 } else { 200 });
    let coarse = square(4, |_, c| if c < 2 { 10 } else { 200 });
    let (long, short) = generate_hashes(fine, coarse).unwrap();
    assert_eq!(long.len(), 256);
    assert_eq!(short, "3333");
    assert_eq!(long, "0000FFFF".repeat(32));
}

#[test]
fn fingerprint_needs_both_sizes() {
    assert!(generate_hashes(square(31, |_, _| 0), square(4, |_, _| 0)).is_none());
    assert!(generate_hashes(square(32, |_, _| 0), square(5, |_, _| 0)).is_none());
}

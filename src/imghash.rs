//! Perceptual fingerprints of a grayscale image that has already been
//! resized to a square: one bit per pixel, set where the pixel is at least
//! the image's mean intensity.
use crate::codec::{
    chars_of, from_binary_to_hex, hex_of_bits, is_bit_string, lemma_hex_of_bits_len,
};
use crate::similarity::{bits_similarity, hamming_distance, percent_of};
use vstd::prelude::*;

verus! {

/// Side of the square image behind the fine fingerprint.
pub const FINE_SIZE: usize = 32;

/// Side of the square image behind the coarse fingerprint.
pub const COARSE_SIZE: usize = 4;

/// A grayscale image, row by row.
pub struct ImageHash {
    pub image: Vec<Vec<u8>>,
}

impl View for ImageHash {
    type V = Seq<Seq<u8>>;

    open spec fn view(&self) -> Seq<Seq<u8>> {
        self.image@.map_values(|r: Vec<u8>| r@)
    }
}

pub open spec fn row_sum(row: Seq<u8>) -> nat
    decreases row.len(),
{
    if row.len() == 0 {
        0
    } else {
        row_sum(row.drop_last()) + row.last() as nat
    }
}

/// Sum of all intensities.
pub open spec fn pixel_sum(img: Seq<Seq<u8>>) -> nat
    decreases img.len(),
{
    if img.len() == 0 {
        0
    } else {
        pixel_sum(img.drop_last()) + row_sum(img.last())
    }
}

/// Number of pixels.
pub open spec fn pixel_count(img: Seq<Seq<u8>>) -> nat
    decreases img.len(),
{
    if img.len() == 0 {
        0
    } else {
        pixel_count(img.drop_last()) + img.last().len()
    }
}

/// A pixel of intensity `p` is at least the mean `sum / count`.
pub open spec fn at_least_mean(p: u8, sum: nat, count: nat) -> bool {
    p as nat * count >= sum
}

pub open spec fn binarize_row(row: Seq<u8>, sum: nat, count: nat) -> Seq<u8> {
    row.map_values(|p: u8| if at_least_mean(p, sum, count) { 255u8 } else { 0u8 })
}

/// Each pixel set to 255 where it is at least the image's mean, else to 0.
pub open spec fn thresholded(img: Seq<Seq<u8>>) -> Seq<Seq<u8>> {
    img.map_values(|row: Seq<u8>| binarize_row(row, pixel_sum(img), pixel_count(img)))
}

pub open spec fn pixel_bit(p: u8) -> char {
    if p == 255 { '1' } else { '0' }
}

/// One bit per pixel, row after row: `'1'` for a pixel of 255.
pub open spec fn hash_bits(img: Seq<Seq<u8>>) -> Seq<char>
    decreases img.len(),
{
    if img.len() == 0 {
        Seq::empty()
    } else {
        hash_bits(img.drop_last()) + img.last().map_values(|p: u8| pixel_bit(p))
    }
}

/// At least one row, all rows of the same positive length.
pub open spec fn is_matrix(img: Seq<Seq<u8>>) -> bool {
    &&& img.len() > 0
    &&& img[0].len() > 0
    &&& forall|i: int| 0 <= i < img.len() ==> (#[trigger] img[i]).len() == img[0].len()
}

pub open spec fn is_square(img: Seq<Seq<u8>>, n: nat) -> bool {
    &&& img.len() == n
    &&& forall|i: int| 0 <= i < img.len() ==> (#[trigger] img[i]).len() == n
}

/// The fingerprint bits of an image: those of its thresholded pixels.
pub open spec fn image_bits(img: Seq<Seq<u8>>) -> Seq<char> {
    hash_bits(thresholded(img))
}

proof fn lemma_row_sum_bound(row: Seq<u8>)
    ensures
        row_sum(row) <= 255 * row.len(),
    decreases row.len(),
{
    if row.len() > 0 {
        lemma_row_sum_bound(row.drop_last());
    }
}

proof fn lemma_pixel_sum_bound(img: Seq<Seq<u8>>)
    ensures
        pixel_sum(img) <= 255 * pixel_count(img),
    decreases img.len(),
{
    if img.len() > 0 {
        lemma_pixel_sum_bound(img.drop_last());
        lemma_row_sum_bound(img.last());
    }
}

proof fn lemma_pixel_count_prefix(img: Seq<Seq<u8>>, i: int)
    requires
        0 <= i <= img.len(),
    ensures
        pixel_count(img.take(i)) <= pixel_count(img),
    decreases img.len() - i,
{
    if i < img.len() {
        lemma_pixel_count_prefix(img, i + 1);
        assert(img.take(i + 1).drop_last() =~= img.take(i));
    } else {
        assert(img.take(i) =~= img);
    }
}

proof fn lemma_square_count(img: Seq<Seq<u8>>, n: nat)
    requires
        img.len() <= n,
        forall|i: int| 0 <= i < img.len() ==> (#[trigger] img[i]).len() == n,
    ensures
        pixel_count(img) == img.len() * n,
        hash_bits(img).len() == img.len() * n,
    decreases img.len(),
{
    if img.len() > 0 {
        let init = img.drop_last();
        assert forall|i: int| 0 <= i < init.len() implies (#[trigger] init[i]).len() == n by {
            assert(init[i] == img[i]);
        }
        lemma_square_count(init, n);
        assert(img.len() * n == init.len() * n + n) by (nonlinear_arith)
            requires
                img.len() == init.len() + 1,
        ;
    }
}

proof fn lemma_hash_bits_are_bits(img: Seq<Seq<u8>>)
    ensures
        is_bit_string(hash_bits(img)),
    decreases img.len(),
{
    if img.len() > 0 {
        lemma_hash_bits_are_bits(img.drop_last());
        let a = hash_bits(img.drop_last());
        let b = img.last().map_values(|p: u8| pixel_bit(p));
        assert forall|i: int| 0 <= i < (a + b).len() implies crate::codec::is_bit(
            #[trigger] (a + b)[i],
        ) by {
            if i >= a.len() {
                assert((a + b)[i] == b[i - a.len()]);
            }
        }
    }
}

impl ImageHash {
    /// Similarity, in whole percent rounded down, of two bit strings of equal
    /// length: the share of positions at which they agree.
    pub fn compare_hashes(hash1: &str, hash2: &str) -> (r: i64)
        requires
            hash1@.len() == hash2@.len(),
            hash1@.len() > 0,
        ensures
            r == bits_similarity(hash1@, hash2@),
            0 <= r <= 100,
    {
        let a = chars_of(hash1);
        let b = chars_of(hash2);
        let d = hamming_distance(&a, &b);
        percent_of(a.len(), d)
    }

    /// Sum and number of all pixels.
    fn sum_and_count(&self) -> (r: (u128, u128))
        requires
            pixel_count(self@) <= usize::MAX,
        ensures
            r.0 == pixel_sum(self@),
            r.1 == pixel_count(self@),
    {
        let ghost img = self@;
        let mut sum: u128 = 0;
        let mut count: u128 = 0;
        let mut i: usize = 0;
        while i < self.image.len()
            invariant
                img == self@,
                pixel_count(img) <= usize::MAX,
                i <= img.len(),
                sum == pixel_sum(img.take(i as int)),
                count == pixel_count(img.take(i as int)),
            decreases img.len() - i,
        {
            let row = &self.image[i];
            proof {
                assert(img.take(i + 1).drop_last() =~= img.take(i as int));
                assert(img.take(i + 1).last() == row@);
                lemma_pixel_count_prefix(img, i + 1);
                lemma_pixel_sum_bound(img.take(i + 1));
            }
            let mut rs: u128 = 0;
            let mut j: usize = 0;
            while j < row.len()
                invariant
                    j <= row@.len(),
                    rs == row_sum(row@.take(j as int)),
                decreases row@.len() - j,
            {
                proof {
                    assert(row@.take(j + 1).drop_last() =~= row@.take(j as int));
                    lemma_row_sum_bound(row@.take(j as int));
                }
                rs = rs + row[j] as u128;
                j = j + 1;
            }
            proof {
                assert(row@.take(j as int) =~= row@);
            }
            sum = sum + rs;
            count = count + row.len() as u128;
            i = i + 1;
        }
        proof {
            assert(img.take(i as int) =~= img);
        }
        (sum, count)
    }

    /// Sets each pixel to 255 where it is at least the image's mean
    /// intensity, and to 0 elsewhere.
    pub fn threshold(self) -> (r: Self)
        requires
            pixel_count(self@) <= usize::MAX,
        ensures
            r@ == thresholded(self@),
    {
        let ghost img = self@;
        let (sum, count) = self.sum_and_count();
        proof {
            lemma_pixel_sum_bound(img);
        }
        let mut out: Vec<Vec<u8>> = Vec::new();
        let mut i: usize = 0;
        while i < self.image.len()
            invariant
                img == self@,
                i <= img.len(),
                sum == pixel_sum(img),
                count == pixel_count(img),
                count <= usize::MAX,
                out@.len() == i,
                forall|k: int|
                    0 <= k < i ==> (#[trigger] out@[k])@ == binarize_row(img[k], sum as nat, count as nat),
            decreases img.len() - i,
        {
            let row = &self.image[i];
            let mut nr: Vec<u8> = Vec::new();
            let mut j: usize = 0;
            while j < row.len()
                invariant
                    j <= row@.len(),
                    row@ == img[i as int],
                    count <= usize::MAX,
                    nr@.len() == j,
                    forall|k: int|
                        0 <= k < j ==> #[trigger] nr@[k] == (if at_least_mean(
                            row@[k],
                            sum as nat,
                            count as nat,
                        ) {
                            255u8
                        } else {
                            0u8
                        }),
                decreases row@.len() - j,
            {
                let p = row[j];
                proof {
                    assert(p as nat * count <= 255 * usize::MAX) by (nonlinear_arith)
                        requires
                            p <= 255,
                            count <= usize::MAX,
                    ;
                }
                if (p as u128) * count >= sum {
                    nr.push(255u8);
                } else {
                    nr.push(0u8);
                }
                j = j + 1;
            }
            proof {
                assert(nr@ =~= binarize_row(img[i as int], sum as nat, count as nat));
            }
            out.push(nr);
            i = i + 1;
        }
        let r = ImageHash { image: out };
        proof {
            assert(r@ =~= thresholded(img));
        }
        r
    }

    /// Whether the image has at least one row and all rows the same
    /// positive length.
    fn check_matrix(&self) -> (r: bool)
        ensures
            r == is_matrix(self@),
    {
        let n = self.image.len();
        if n == 0 {
            return false;
        }
        let w = self.image[0].len();
        if w == 0 {
            return false;
        }
        let mut i: usize = 0;
        while i < n
            invariant
                n == self@.len(),
                i <= n,
                n > 0,
                w == self@[0].len(),
                forall|k: int| 0 <= k < i ==> (#[trigger] self@[k]).len() == w,
            decreases n - i,
        {
            if self.image[i].len() != w {
                proof {
                    assert(self@[i as int] == self.image@[i as int]@);
                }
                return false;
            }
            i = i + 1;
        }
        true
    }

    /// Whether the image is `n` rows of `n` pixels.
    pub fn is_square_of(&self, n: usize) -> (r: bool)
        ensures
            r == is_square(self@, n as nat),
    {
        if self.image.len() != n {
            return false;
        }
        let mut i: usize = 0;
        while i < n
            invariant
                n == self@.len(),
                i <= n,
                forall|k: int| 0 <= k < i ==> (#[trigger] self@[k]).len() == n,
            decreases n - i,
        {
            if self.image[i].len() != n {
                proof {
                    assert(self@[i as int] == self.image@[i as int]@);
                }
                return false;
            }
            i = i + 1;
        }
        true
    }

    /// The bits of the image, row after row, `'1'` for a pixel of 255 and
    /// `'0'` for any other; none for an image that is not a matrix.
    pub fn hash(&self) -> (r: Option<String>)
        ensures
            r is Some <==> is_matrix(self@),
            r matches Some(s) ==> s@ == hash_bits(self@),
    {
        if !self.check_matrix() {
            return None;
        }
        let ghost img = self@;
        let mut out = String::new();
        let mut i: usize = 0;
        proof {
            reveal_strlit("1");
            reveal_strlit("0");
        }
        while i < self.image.len()
            invariant
                img == self@,
                i <= img.len(),
                out@ == hash_bits(img.take(i as int)),
                "1"@ == seq!['1'],
                "0"@ == seq!['0'],
            decreases img.len() - i,
        {
            let row = &self.image[i];
            let ghost before = out@;
            let mut j: usize = 0;
            while j < row.len()
                invariant
                    j <= row@.len(),
                    out@ == before + row@.take(j as int).map_values(|p: u8| pixel_bit(p)),
                    "1"@ == seq!['1'],
                    "0"@ == seq!['0'],
                decreases row@.len() - j,
            {
                let ghost prev = out@;
                if row[j] == 255 {
                    out.append("1");
                } else {
                    out.append("0");
                }
                proof {
                    assert(row@.take(j + 1).map_values(|p: u8| pixel_bit(p)) =~= row@.take(
                        j as int,
                    ).map_values(|p: u8| pixel_bit(p)).push(pixel_bit(row@[j as int])));
                    assert(out@ =~= before + row@.take(j + 1).map_values(|p: u8| pixel_bit(p)));
                }
                j = j + 1;
            }
            proof {
                assert(row@.take(j as int) =~= row@);
                assert(img.take(i + 1).drop_last() =~= img.take(i as int));
                assert(img.take(i + 1).last() == row@);
            }
            i = i + 1;
        }
        proof {
            assert(img.take(i as int) =~= img);
        }
        Some(out)
    }
}

/// Fine and coarse hex fingerprints of one grayscale image, given resized
/// to `FINE_SIZE` and to `COARSE_SIZE` squares; none unless both are squares
/// of those sizes, so that a fingerprint is always whole.
pub fn generate_hashes(fine: ImageHash, coarse: ImageHash) -> (r: Option<(String, String)>)
    ensures
        r is Some <==> is_square(fine@, FINE_SIZE as nat) && is_square(coarse@, COARSE_SIZE as nat),
        r matches Some((long, short)) ==> {
            &&& long@ == hex_of_bits(image_bits(fine@))
            &&& short@ == hex_of_bits(image_bits(coarse@))
            &&& long@.len() == FINE_SIZE * FINE_SIZE / 4
            &&& short@.len() == COARSE_SIZE * COARSE_SIZE / 4
        },
{
    if !fine.is_square_of(FINE_SIZE) || !coarse.is_square_of(COARSE_SIZE) {
        return None;
    }
    let ghost f = fine@;
    let ghost c = coarse@;
    proof {
        lemma_square_count(f, FINE_SIZE as nat);
        lemma_square_count(c, COARSE_SIZE as nat);
        lemma_square_count(thresholded(f), FINE_SIZE as nat);
        lemma_square_count(thresholded(c), COARSE_SIZE as nat);
        lemma_hash_bits_are_bits(thresholded(f));
        lemma_hash_bits_are_bits(thresholded(c));
        lemma_hex_of_bits_len(hash_bits(thresholded(f)));
        lemma_hex_of_bits_len(hash_bits(thresholded(c)));
    }
    let tf = fine.threshold();
    let tc = coarse.threshold();
    let bits_f = match tf.hash() {
        Some(b) => b,
        None => {
            return None;
        },
    };
    let bits_c = match tc.hash() {
        Some(b) => b,
        None => {
            return None;
        },
    };
    match (from_binary_to_hex(bits_f.as_str()), from_binary_to_hex(bits_c.as_str())) {
        (Ok(long), Ok(short)) => Some((long, short)),
        _ => None,
    }
}

} // verus!

//! Percentage similarity of two fingerprints, by Hamming distance.
use crate::codec::{bits_of_hex, from_hex_to_binary, is_hex_string, EncodingError};
use crate::imghash::ImageHash;
use vstd::prelude::*;

verus! {

/// Number of positions at which two sequences of equal length differ.
pub open spec fn hamming(a: Seq<char>, b: Seq<char>) -> nat
    decreases a.len(),
{
    if a.len() == 0 || b.len() == 0 {
        0
    } else {
        hamming(a.drop_last(), b.drop_last()) + (if a.last() != b.last() { 1nat } else { 0nat })
    }
}

/// Whole percentage, rounded down, of `n` positions of which `d` differ.
pub open spec fn percent(n: nat, d: nat) -> int
    recommends
        n > 0,
        d <= n,
{
    (100 * (n - d)) / (n as int)
}

/// Similarity of two bit strings of equal, positive length.
pub open spec fn bits_similarity(a: Seq<char>, b: Seq<char>) -> int {
    percent(a.len(), hamming(a, b))
}

/// Similarity of two hex fingerprints: that of their bit strings.
pub open spec fn hex_similarity(a: Seq<char>, b: Seq<char>) -> int {
    bits_similarity(bits_of_hex(a), bits_of_hex(b))
}

pub proof fn lemma_hamming_bound(a: Seq<char>, b: Seq<char>)
    requires
        a.len() == b.len(),
    ensures
        hamming(a, b) <= a.len(),
    decreases a.len(),
{
    if a.len() > 0 {
        lemma_hamming_bound(a.drop_last(), b.drop_last());
    }
}

/// The Hamming distance is symmetric.
pub proof fn lemma_hamming_symmetric(a: Seq<char>, b: Seq<char>)
    requires
        a.len() == b.len(),
    ensures
        hamming(a, b) == hamming(b, a),
    decreases a.len(),
{
    if a.len() > 0 {
        lemma_hamming_symmetric(a.drop_last(), b.drop_last());
    }
}

/// A sequence differs from itself nowhere.
pub proof fn lemma_hamming_self(a: Seq<char>)
    ensures
        hamming(a, a) == 0,
    decreases a.len(),
{
    if a.len() > 0 {
        lemma_hamming_self(a.drop_last());
    }
}

/// Hamming distance of two sequences of equal length.
pub fn hamming_distance(a: &Vec<char>, b: &Vec<char>) -> (d: usize)
    requires
        a@.len() == b@.len(),
    ensures
        d == hamming(a@, b@),
        d <= a@.len(),
{
    let mut d: usize = 0;
    let mut i: usize = 0;
    while i < a.len()
        invariant
            a@.len() == b@.len(),
            i <= a@.len(),
            d == hamming(a@.take(i as int), b@.take(i as int)),
            d <= i,
        decreases a@.len() - i,
    {
        proof {
            assert(a@.take(i + 1).drop_last() =~= a@.take(i as int));
            assert(b@.take(i + 1).drop_last() =~= b@.take(i as int));
        }
        if a[i] != b[i] {
            d = d + 1;
        }
        i = i + 1;
    }
    proof {
        assert(a@.take(i as int) =~= a@);
        assert(b@.take(i as int) =~= b@);
    }
    d
}

/// Whole percentage, rounded down, of `n` positions of which `d` differ.
pub fn percent_of(n: usize, d: usize) -> (r: i64)
    requires
        0 < n,
        d <= n,
    ensures
        r == percent(n as nat, d as nat),
        0 <= r <= 100,
{
    let same = (n - d) as u128;
    let r = (100 * same) / (n as u128);
    proof {
        assert(100 * (n - d) <= 100 * n) by (nonlinear_arith)
            requires
                d <= n,
        ;
        assert((100 * (n - d)) / (n as int) <= 100) by (nonlinear_arith)
            requires
                0 < n,
                d <= n,
                100 * (n - d) <= 100 * n,
        ;
    }
    r as i64
}

pub proof fn lemma_bits_of_hex_len(s: Seq<char>)
    ensures
        bits_of_hex(s).len() == 4 * s.len(),
    decreases s.len(),
{
    if s.len() > 0 {
        lemma_bits_of_hex_len(s.drop_first());
    }
}

/// Similarity of two hex fingerprints of equal length, in whole percent
/// rounded down; an error names the first character that is not a hex digit.
pub fn similarity(hex_a: &str, hex_b: &str) -> (r: Result<i64, EncodingError>)
    requires
        hex_a@.len() == hex_b@.len(),
        hex_a@.len() > 0,
    ensures
        r is Ok <==> is_hex_string(hex_a@) && is_hex_string(hex_b@),
        r matches Ok(p) ==> p == hex_similarity(hex_a@, hex_b@) && 0 <= p <= 100,
{
    let a = from_hex_to_binary(hex_a)?;
    let b = from_hex_to_binary(hex_b)?;
    proof {
        lemma_bits_of_hex_len(hex_a@);
        lemma_bits_of_hex_len(hex_b@);
    }
    Ok(ImageHash::compare_hashes(a.as_str(), b.as_str()))
}

/// Similarity is symmetric, and a fingerprint is fully similar to itself.
pub proof fn lemma_similarity_symmetric_reflexive(a: Seq<char>, b: Seq<char>)
    requires
        a.len() == b.len(),
    ensures
        hex_similarity(a, b) == hex_similarity(b, a),
        a.len() > 0 ==> hex_similarity(a, a) == 100,
{
    lemma_bits_of_hex_len(a);
    lemma_bits_of_hex_len(b);
    lemma_hamming_symmetric(bits_of_hex(a), bits_of_hex(b));
    lemma_hamming_self(bits_of_hex(a));
    let n = bits_of_hex(a).len() as int;
    if n > 0 {
        assert((100 * n) / n == 100) by (nonlinear_arith)
            requires
                n > 0,
        ;
    }
}

/// For bit strings of length `n > 0` differing in exactly `k` positions the
/// similarity lies in `[0, 100]` and is `100 * (n - k) / n` rounded down.
pub proof fn lemma_similarity_bounds(a: Seq<char>, b: Seq<char>, k: nat)
    requires
        a.len() == b.len(),
        a.len() > 0,
        hamming(a, b) == k,
    ensures
        0 <= bits_similarity(a, b) <= 100,
        bits_similarity(a, b) * a.len() <= 100 * (a.len() - k),
        100 * (a.len() - k) < (bits_similarity(a, b) + 1) * a.len(),
{
    lemma_hamming_bound(a, b);
    let n = a.len() as int;
    let m = 100 * (n - k);
    assert(0 <= m <= 100 * n) by (nonlinear_arith)
        requires
            k <= n,
            m == 100 * (n - k),
    ;
    let q = m / n;
    assert(0 <= q <= 100 && q * n <= m && m < (q + 1) * n) by (nonlinear_arith)
        requires
            n > 0,
            0 <= m <= 100 * n,
            q == m / n,
    ;
}

} // verus!

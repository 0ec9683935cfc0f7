//! Choosing, among the memes of one coarse bucket, the best match of a new
//! fine fingerprint: an exact duplicate, a similar meme, or none.
use crate::codec::{bits_of_hex, chars_of, from_hex_to_binary, is_hex_string};
use crate::meme::{Meme, MemeView};
use crate::similarity::{
    hamming, hamming_distance, hex_similarity, lemma_bits_of_hex_len, percent_of,
};
use vstd::prelude::*;

verus! {

/// Percentage at and above which a match counts as a duplicate.
pub const DUPLICATE_PERCENT: i64 = 99;

/// Default lower bound of the "similar" band.
pub const SIMILAR_PERCENT: i64 = 93;

/// Outcome of a lookup: `percent` is 100 with the duplicate, the similarity
/// with the best similar meme, or 0 with no meme.
#[derive(Debug)]
pub struct SimilarMeme {
    pub percent: i64,
    pub meme: Option<Meme>,
}

/// The stored meme can be compared with the fingerprint `t`: both are hex
/// strings of the same positive length.
pub open spec fn comparable(m: MemeView, t: Seq<char>) -> bool {
    &&& is_hex_string(t)
    &&& t.len() > 0
    &&& m.long_hash matches Some(h) && is_hex_string(h) && h.len() == t.len()
}

/// Differing bits between `t` and the stored fine fingerprint.
pub open spec fn distance(m: MemeView, t: Seq<char>) -> nat {
    hamming(bits_of_hex(t), bits_of_hex(m.long_hash->0))
}

pub open spec fn score(m: MemeView, t: Seq<char>) -> int {
    hex_similarity(t, m.long_hash->0)
}

pub open spec fn is_duplicate(m: MemeView, t: Seq<char>) -> bool {
    comparable(m, t) && score(m, t) >= DUPLICATE_PERCENT
}

pub open spec fn is_similar(m: MemeView, t: Seq<char>, threshold: i64) -> bool {
    comparable(m, t) && threshold <= score(m, t) < DUPLICATE_PERCENT
}

/// `a` was posted no earlier than `b`; an unknown time counts as oldest.
pub open spec fn newer_or_same(a: Option<i64>, b: Option<i64>) -> bool {
    match (a, b) {
        (_, None) => true,
        (None, Some(_)) => false,
        (Some(x), Some(y)) => x >= y,
    }
}

/// `a` is at least as good a match as `b`: closer, or as close and newer.
pub open spec fn ranks_above(a: MemeView, b: MemeView, t: Seq<char>) -> bool {
    distance(a, t) < distance(b, t) || (distance(a, t) == distance(b, t) && newer_or_same(
        a.posted_at,
        b.posted_at,
    ))
}

pub open spec fn duplicate_at(cs: Seq<MemeView>, i: int, t: Seq<char>) -> bool {
    0 <= i < cs.len() && is_duplicate(cs[i], t)
}

pub open spec fn similar_at(cs: Seq<MemeView>, i: int, t: Seq<char>, threshold: i64) -> bool {
    0 <= i < cs.len() && is_similar(cs[i], t, threshold)
}

pub open spec fn has_duplicate(cs: Seq<MemeView>, t: Seq<char>) -> bool {
    exists|i: int| #[trigger] duplicate_at(cs, i, t)
}

pub open spec fn has_similar(cs: Seq<MemeView>, t: Seq<char>, threshold: i64) -> bool {
    exists|i: int| #[trigger] similar_at(cs, i, t, threshold)
}

pub open spec fn first_duplicate(cs: Seq<MemeView>, i: int, t: Seq<char>) -> bool {
    duplicate_at(cs, i, t) && forall|j: int| 0 <= j < i ==> !#[trigger] duplicate_at(cs, j, t)
}

pub open spec fn best_similar(cs: Seq<MemeView>, i: int, t: Seq<char>, threshold: i64) -> bool {
    &&& similar_at(cs, i, t, threshold)
    &&& forall|k: int| #[trigger]
        similar_at(cs, k, t, threshold) ==> ranks_above(cs[i], cs[k], t)
}

/// The outcome of matching the fine fingerprint `t` against the candidates
/// `cs`: the first duplicate, reported as 100; else the best similar meme
/// with its similarity; else 0 and no meme.
pub open spec fn classified(r: SimilarMeme, cs: Seq<MemeView>, t: Seq<char>, threshold: i64) -> bool {
    &&& has_duplicate(cs, t) ==> r.percent == 100 && exists|i: int|
        first_duplicate(cs, i, t) && r.meme is Some && r.meme->0@ == cs[i]
    &&& !has_duplicate(cs, t) && has_similar(cs, t, threshold) ==> exists|i: int|
        best_similar(cs, i, t, threshold) && r.meme is Some && r.meme->0@ == cs[i] && r.percent
            == score(cs[i], t)
    &&& !has_duplicate(cs, t) && !has_similar(cs, t, threshold) ==> r.percent == 0
        && r.meme is None
}

/// Whether `a` was posted strictly later than `b`.
fn newer(a: Option<i64>, b: Option<i64>) -> (r: bool)
    ensures
        r == !newer_or_same(b, a),
{
    match (a, b) {
        (Some(x), Some(y)) => x > y,
        (Some(_), None) => true,
        (None, _) => false,
    }
}

/// Bits of the stored fine fingerprint of `m`, when it can be compared with
/// the fingerprint `t` whose bits are `tb`.
fn comparable_bits(m: &Meme, tb: &Vec<char>, t: Ghost<Seq<char>>) -> (r: Option<Vec<char>>)
    requires
        is_hex_string(t@),
        t@.len() > 0,
        tb@ == bits_of_hex(t@),
    ensures
        r is Some <==> comparable(m@, t@),
        r matches Some(b) ==> b@ == bits_of_hex(m@.long_hash->0) && b@.len() == tb@.len(),
{
    proof {
        lemma_bits_of_hex_len(t@);
    }
    match &m.long_hash {
        None => None,
        Some(h) => match from_hex_to_binary(h.as_str()) {
            Err(_) => None,
            Ok(bits) => {
                let cb = chars_of(bits.as_str());
                proof {
                    lemma_bits_of_hex_len(h@);
                }
                if cb.len() == tb.len() {
                    Some(cb)
                } else {
                    None
                }
            },
        },
    }
}

/// Picks the match of the fine fingerprint `long_hash` among `candidates`:
/// the first one at least `DUPLICATE_PERCENT` similar (reported as 100);
/// else the best one at least `threshold` similar (fewest differing bits,
/// then the most recent); else none. Candidates whose fingerprint is absent,
/// malformed or of another length are passed over.
pub fn get_similar_meme(candidates: Vec<Meme>, long_hash: &str, threshold: i64) -> (r:
    SimilarMeme)
    ensures
        classified(r, candidates@.map_values(|m: Meme| m@), long_hash@, threshold),
{
    let ghost t = long_hash@;
    let ghost cs = candidates@.map_values(|m: Meme| m@);
    let none = SimilarMeme { percent: 0, meme: None };
    let tb = match from_hex_to_binary(long_hash) {
        Ok(bits) => chars_of(bits.as_str()),
        Err(_) => {
            return none;
        },
    };
    proof {
        lemma_bits_of_hex_len(t);
    }
    if tb.len() == 0 {
        return none;
    }
    let n = candidates.len();
    let mut dup: Option<usize> = None;
    let mut best: Option<usize> = None;
    let mut best_d: usize = 0;
    let mut best_posted: Option<i64> = None;
    let mut best_pct: i64 = 0;
    let mut i: usize = 0;
    while i < n
        invariant
            n == cs.len(),
            cs == candidates@.map_values(|m: Meme| m@),
            i <= n,
            is_hex_string(t),
            t.len() > 0,
            tb@ == bits_of_hex(t),
            dup matches Some(k) ==> first_duplicate(cs, k as int, t) && i == n,
            dup is None ==> forall|j: int| 0 <= j < i ==> !#[trigger] duplicate_at(cs, j, t),
            dup is None ==> (best matches Some(b) ==> {
                &&& b < i
                &&& similar_at(cs, b as int, t, threshold)
                &&& best_d == distance(cs[b as int], t)
                &&& best_posted == cs[b as int].posted_at
                &&& best_pct == score(cs[b as int], t)
                &&& forall|k: int|
                    0 <= k < i && #[trigger] similar_at(cs, k, t, threshold) ==> ranks_above(
                        cs[b as int],
                        cs[k],
                        t,
                    )
            }),
            dup is None && best is None ==> forall|k: int|
                0 <= k < i ==> !#[trigger] similar_at(cs, k, t, threshold),
        decreases n - i,
    {
        match comparable_bits(&candidates[i], &tb, Ghost(t)) {
            None => {
                i = i + 1;
            },
            Some(cb) => {
                let d = hamming_distance(&tb, &cb);
                let p = percent_of(tb.len(), d);
                proof {
                    assert(cs[i as int] == candidates@[i as int]@);
                }
                if p >= DUPLICATE_PERCENT {
                    assert(duplicate_at(cs, i as int, t));
                    dup = Some(i);
                    i = n;
                } else {
                    if p >= threshold {
                        let posted = candidates[i].posted_at;
                        let take = match best {
                            None => true,
                            Some(_) => d < best_d || (d == best_d && newer(posted, best_posted)),
                        };
                        if take {
                            best = Some(i);
                            best_d = d;
                            best_posted = posted;
                            best_pct = p;
                        }
                    }
                    i = i + 1;
                }
            },
        }
    }
    let mut candidates = candidates;
    match dup {
        Some(k) => {
            let m = candidates.swap_remove(k);
            SimilarMeme { percent: 100, meme: Some(m) }
        },
        None => match best {
            Some(b) => {
                proof {
                    assert(best_similar(cs, b as int, t, threshold));
                }
                let m = candidates.swap_remove(b);
                SimilarMeme { percent: best_pct, meme: Some(m) }
            },
            None => none,
        },
    }
}

} // verus!

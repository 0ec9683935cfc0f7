//! Stored memes, looked up by identity, by message, or by coarse bucket.
use crate::classify::{classified, get_similar_meme, SimilarMeme};
use crate::codec::same_text;
use crate::meme::{fingerprint_whole, Meme, MemeView};
use vstd::prelude::*;

verus! {

/// The meme belongs to the bucket of the coarse fingerprint `c`: it carries a
/// fingerprint and its coarse part is `c`.
pub open spec fn in_bucket(m: MemeView, c: Seq<char>) -> bool {
    m.short_hash == Some(c) && m.long_hash is Some
}

pub open spec fn uuids_unique(ms: Seq<MemeView>) -> bool {
    forall|i: int, j: int|
        0 <= i < ms.len() && 0 <= j < ms.len() && i != j ==> (#[trigger] ms[i]).uuid != (
        #[trigger] ms[j]).uuid
}

/// Memes with distinct identities, each with a whole fingerprint or none.
pub open spec fn memes_valid(ms: Seq<MemeView>) -> bool {
    &&& uuids_unique(ms)
    &&& forall|i: int| 0 <= i < ms.len() ==> fingerprint_whole(#[trigger] ms[i])
}

pub open spec fn has_uuid(ms: Seq<MemeView>, uuid: u128) -> bool {
    exists|i: int| 0 <= i < ms.len() && (#[trigger] ms[i]).uuid == uuid
}

/// The stored memes, in the order they were added.
pub struct MemeStore {
    memes: Vec<Meme>,
}

impl View for MemeStore {
    type V = Seq<MemeView>;

    closed spec fn view(&self) -> Seq<MemeView> {
        self.memes@.map_values(|m: Meme| m@)
    }
}

impl MemeStore {
    pub open spec fn wf(&self) -> bool {
        memes_valid(self@)
    }

    /// An empty store.
    pub fn new() -> (r: MemeStore)
        ensures
            r.wf(),
            r@ == Seq::<MemeView>::empty(),
    {
        MemeStore { memes: Vec::new() }
    }

    /// Index of the meme `uuid`, if stored.
    fn position(&self, uuid: u128) -> (r: Option<usize>)
        ensures
            r matches Some(i) ==> i < self@.len() && self@[i as int].uuid == uuid,
            r is None ==> !has_uuid(self@, uuid),
    {
        let mut i: usize = 0;
        while i < self.memes.len()
            invariant
                i <= self@.len(),
                self@.len() == self.memes@.len(),
                forall|j: int| 0 <= j < self@.len() ==> #[trigger] self@[j] == self.memes@[j]@,
                forall|j: int| 0 <= j < i ==> (#[trigger] self@[j]).uuid != uuid,
            decreases self@.len() - i,
        {
            if self.memes[i].uuid == uuid {
                return Some(i);
            }
            i = i + 1;
        }
        None
    }

    /// Stores `meme`. Refused (returning false, nothing changed) when a meme
    /// with the same identity is stored, or when the meme carries one
    /// fingerprint without the other.
    pub fn add(&mut self, meme: Meme) -> (r: bool)
        requires
            old(self).wf(),
        ensures
            final(self).wf(),
            r == (!has_uuid(old(self)@, meme.uuid) && fingerprint_whole(meme@)),
            r ==> final(self)@ == old(self)@.push(meme@),
            !r ==> final(self)@ == old(self)@,
    {
        if !meme.has_whole_fingerprint() {
            return false;
        }
        if self.position(meme.uuid).is_some() {
            return false;
        }
        let ghost v = meme@;
        self.memes.push(meme);
        proof {
            assert(self@ =~= old(self)@.push(v));
        }
        true
    }

    /// Copy of the meme `uuid`, if stored.
    pub fn get_by_id(&self, uuid: u128) -> (r: Option<Meme>)
        ensures
            r is None <==> !has_uuid(self@, uuid),
            r matches Some(m) ==> has_uuid(self@, uuid) && self@.contains(m@) && m@.uuid == uuid,
    {
        match self.position(uuid) {
            Some(i) => {
                let m = self.memes[i].duplicate();
                proof {
                    assert(self@[i as int] == m@);
                }
                Some(m)
            },
            None => None,
        }
    }

    /// Removes the meme `uuid`; returns whether it was stored.
    pub fn delete(&mut self, uuid: u128) -> (r: bool)
        requires
            old(self).wf(),
        ensures
            final(self).wf(),
            r == has_uuid(old(self)@, uuid),
            r ==> exists|i: int|
                0 <= i < old(self)@.len() && old(self)@[i].uuid == uuid && final(self)@ == old(
                    self,
                )@.remove(i),
            !r ==> final(self)@ == old(self)@,
            !has_uuid(final(self)@, uuid),
    {
        match self.position(uuid) {
            Some(i) => {
                let ghost before = self@;
                self.memes.remove(i);
                proof {
                    assert(self@ =~= before.remove(i as int));
                    assert forall|j: int| 0 <= j < self@.len() implies (#[trigger] self@[j]).uuid
                        != uuid by {
                        if j < i {
                            assert(self@[j] == before[j]);
                        } else {
                            assert(self@[j] == before[j + 1]);
                        }
                    }
                }
                true
            },
            None => false,
        }
    }

    /// Records the bot's message for the meme `uuid`; returns whether it is stored.
    pub fn replace_msg_id(&mut self, uuid: u128, msg_id: i64) -> (r: bool)
        requires
            old(self).wf(),
        ensures
            final(self).wf(),
            r == has_uuid(old(self)@, uuid),
            r ==> exists|i: int|
                0 <= i < old(self)@.len() && old(self)@[i].uuid == uuid && final(self)@ == old(
                    self,
                )@.update(i, MemeView { msg_id: Some(msg_id), ..old(self)@[i] }),
            !r ==> final(self)@ == old(self)@,
    {
        match self.position(uuid) {
            Some(i) => {
                let ghost before = self@;
                let mut m = self.memes[i].duplicate();
                m.msg_id = Some(msg_id);
                let ghost mv = m@;
                self.memes.set(i, m);
                proof {
                    assert(mv == MemeView { msg_id: Some(msg_id), ..before[i as int] });
                    assert(self@ =~= before.update(i as int, mv));
                }
                true
            },
            None => false,
        }
    }

    /// Memes of the coarse bucket `hash`, in the order they were stored:
    /// exactly those whose coarse fingerprint is `hash`; memes without a
    /// fingerprint are never among them.
    pub fn get_by_short_hash(&self, hash: &str) -> (r: Vec<Meme>)
        ensures
            r@.map_values(|m: Meme| m@) == self@.filter(|m: MemeView| in_bucket(m, hash@)),
            forall|i: int| 0 <= i < r@.len() ==> in_bucket(#[trigger] r@[i]@, hash@),
    {
        let ghost pred = |m: MemeView| in_bucket(m, hash@);
        let mut r: Vec<Meme> = Vec::new();
        let mut i: usize = 0;
        while i < self.memes.len()
            invariant
                i <= self@.len(),
                self@.len() == self.memes@.len(),
                forall|j: int| 0 <= j < self@.len() ==> #[trigger] self@[j] == self.memes@[j]@,
                pred == (|m: MemeView| in_bucket(m, hash@)),
                r@.map_values(|m: Meme| m@) == self@.take(i as int).filter(pred),
            decreases self@.len() - i,
        {
            proof {
                assert(self@.take(i + 1).drop_last() =~= self@.take(i as int));
                reveal(Seq::filter);
            }
            let m = &self.memes[i];
            let take = match (&m.short_hash, &m.long_hash) {
                (Some(s), Some(_)) => same_text(s.as_str(), hash),
                _ => false,
            };
            if take {
                let c = m.duplicate();
                let ghost before = r@;
                r.push(c);
                proof {
                    assert(r@.map_values(|m: Meme| m@) =~= before.map_values(|m: Meme| m@).push(
                        c@,
                    ));
                }
            }
            i = i + 1;
        }
        proof {
            assert(self@.take(i as int) =~= self@);
            assert forall|k: int| 0 <= k < r@.len() implies in_bucket(#[trigger] r@[k]@, hash@) by {
                let f = self@.filter(pred);
                assert(r@.map_values(|m: Meme| m@).len() == r@.len());
                assert(r@.map_values(|m: Meme| m@)[k] == r@[k]@);
                self@.lemma_filter_pred(pred, k);
            }
        }
        r
    }

    /// Matches a new fingerprint against the memes of its coarse bucket
    /// alone: the first duplicate, else the best similar meme (at least
    /// `threshold` percent alike), else none.
    pub fn find_similar(&self, short_hash: &str, long_hash: &str, threshold: i64) -> (r:
        SimilarMeme)
        ensures
            classified(
                r,
                self@.filter(|m: MemeView| in_bucket(m, short_hash@)),
                long_hash@,
                threshold,
            ),
    {
        let candidates = self.get_by_short_hash(short_hash);
        get_similar_meme(candidates, long_hash, threshold)
    }
}

} // verus!

//! The vote ledger: at most one signed vote per (meme, voter) pair, with
//! toggle semantics for likes and dislikes and aggregate counts.
use vstd::prelude::*;

verus! {

/// A like (+1) or a dislike (-1).
#[derive(Debug, Clone, Copy, PartialEq, Eq, Structural)]
pub enum MemeLikeOperation {
    Like,
    Dislike,
}

pub open spec fn sign(op: MemeLikeOperation) -> i16 {
    match op {
        MemeLikeOperation::Like => 1i16,
        MemeLikeOperation::Dislike => -1i16,
    }
}

impl MemeLikeOperation {
    /// The stored sign of the operation.
    pub fn id(&self) -> (r: i16)
        ensures
            r == sign(*self),
    {
        match self {
            MemeLikeOperation::Like => 1,
            MemeLikeOperation::Dislike => -1,
        }
    }
}

/// One stored vote of `user_id` on the meme `meme_uuid`, first cast at
/// `created_at` (seconds).
#[derive(Debug, Clone, Copy, PartialEq, Eq, Structural)]
pub struct Vote {
    pub meme_uuid: u128,
    pub user_id: i64,
    pub num: i16,
    pub created_at: i64,
}

/// Likes and dislikes of one meme, or of all memes.
#[derive(Debug, Clone, Copy, PartialEq, Eq, Structural)]
pub struct MemeLikesCountAll {
    pub likes: u64,
    pub dislikes: u64,
}

pub open spec fn is_key(v: Vote, m: u128, u: i64) -> bool {
    v.meme_uuid == m && v.user_id == u
}

/// No two rows share a (meme, voter) pair, and every row is a like or a dislike.
pub open spec fn rows_valid(rows: Seq<Vote>) -> bool {
    &&& forall|i: int, j: int|
        0 <= i < rows.len() && 0 <= j < rows.len() && i != j ==> !is_key(
            #[trigger] rows[i],
            (#[trigger] rows[j]).meme_uuid,
            rows[j].user_id,
        )
    &&& forall|i: int| 0 <= i < rows.len() ==> (#[trigger] rows[i]).num == 1 || rows[i].num == -1
}

/// The row of `u` on `m`, if there is one.
pub open spec fn row_of(rows: Seq<Vote>, m: u128, u: i64) -> Option<Vote>
    decreases rows.len(),
{
    if rows.len() == 0 {
        None
    } else if is_key(rows.last(), m, u) {
        Some(rows.last())
    } else {
        row_of(rows.drop_last(), m, u)
    }
}

/// The sign of the vote of `u` on `m`, if there is one.
pub open spec fn vote_of(rows: Seq<Vote>, m: u128, u: i64) -> Option<i16> {
    match row_of(rows, m, u) {
        Some(v) => Some(v.num),
        None => None,
    }
}

/// A vote that is kept or turned keeps its time; a new one is cast at `now`.
pub open spec fn stamped(old: Seq<Vote>, new: Seq<Vote>, m: u128, u: i64, now: i64) -> bool {
    row_of(new, m, u) matches Some(v) ==> v.created_at == match row_of(old, m, u) {
        Some(w) => w.created_at,
        None => now,
    }
}

/// The row counts toward the sign `s` of the meme `m` within `[from, to]`.
pub open spec fn counts_within(v: Vote, m: Option<u128>, s: i16, from: i64, to: i64) -> bool {
    (m is None || m == Some(v.meme_uuid)) && v.num == s && from <= v.created_at <= to
}

/// Number of rows of sign `s` on the meme `m` cast within `[from, to]`.
pub open spec fn count_votes_within(rows: Seq<Vote>, m: Option<u128>, s: i16, from: i64, to: i64) -> nat
    decreases rows.len(),
{
    if rows.len() == 0 {
        0
    } else {
        count_votes_within(rows.drop_last(), m, s, from, to) + (if counts_within(
            rows.last(),
            m,
            s,
            from,
            to,
        ) {
            1nat
        } else {
            0nat
        })
    }
}

/// The row counts toward the sign `s` of the meme `m` (of every meme when `m` is `None`).
pub open spec fn counts_toward(v: Vote, m: Option<u128>, s: i16) -> bool {
    (m is None || m == Some(v.meme_uuid)) && v.num == s
}

/// Number of rows of sign `s` on the meme `m` (on every meme when `m` is `None`).
pub open spec fn count_votes(rows: Seq<Vote>, m: Option<u128>, s: i16) -> nat
    decreases rows.len(),
{
    if rows.len() == 0 {
        0
    } else {
        count_votes(rows.drop_last(), m, s) + (if counts_toward(rows.last(), m, s) {
            1nat
        } else {
            0nat
        })
    }
}

/// What a click of `op` leaves of the vote `prev`: the same click again
/// withdraws it, the other one replaces it, and on no vote it becomes one.
pub open spec fn after_click(prev: Option<i16>, op: MemeLikeOperation) -> Option<i16> {
    if prev == Some(sign(op)) {
        None
    } else {
        Some(sign(op))
    }
}

/// Contribution of a single pair's vote to the count of sign `s` on `mm`.
pub open spec fn pair_count(m: u128, vote: Option<i16>, mm: Option<u128>, s: i16) -> int {
    if (mm is None || mm == Some(m)) && vote == Some(s) {
        1
    } else {
        0
    }
}

/// `new` is `old` with the vote of `u` on `m` set to `v`: every other pair
/// keeps its vote and every count moves by this pair's change alone.
pub open spec fn set_vote(old: Seq<Vote>, new: Seq<Vote>, m: u128, u: i64, v: Option<i16>) -> bool {
    &&& rows_valid(new)
    &&& vote_of(new, m, u) == v
    &&& forall|m2: u128, u2: i64|
        !(m2 == m && u2 == u) ==> #[trigger] row_of(new, m2, u2) == row_of(old, m2, u2)
    &&& forall|mm: Option<u128>, s: i16|
        #[trigger] count_votes(new, mm, s) == count_votes(old, mm, s) - pair_count(
            m,
            vote_of(old, m, u),
            mm,
            s,
        ) + pair_count(m, v, mm, s)
}

/// In rows without repeated pairs, the vote of a pair is that of its row, or
/// none when no row has the pair.
pub proof fn lemma_vote_of(rows: Seq<Vote>, m: u128, u: i64)
    requires
        rows_valid(rows),
    ensures
        forall|i: int|
            0 <= i < rows.len() && is_key(#[trigger] rows[i], m, u) ==> row_of(rows, m, u) == Some(
                rows[i],
            ),
        (forall|i: int| 0 <= i < rows.len() ==> !is_key(#[trigger] rows[i], m, u)) ==> row_of(
            rows,
            m,
            u,
        ) is None,
    decreases rows.len(),
{
    if rows.len() > 0 {
        let init = rows.drop_last();
        assert(rows_valid(init)) by {
            assert forall|i: int| 0 <= i < init.len() implies init[i] == rows[i] by {}
        }
        lemma_vote_of(init, m, u);
        let n = rows.len() - 1;
        assert forall|i: int| 0 <= i < rows.len() && is_key(#[trigger] rows[i], m, u) implies row_of(
            rows,
            m,
            u,
        ) == Some(rows[i]) by {
            if i < n {
                assert(init[i] == rows[i]);
                assert(!is_key(rows[n], rows[i].meme_uuid, rows[i].user_id));
            }
        }
        if forall|i: int| 0 <= i < rows.len() ==> !is_key(#[trigger] rows[i], m, u) {
            assert(!is_key(rows[n], m, u));
            assert forall|i: int| 0 <= i < init.len() implies !is_key(#[trigger] init[i], m, u) by {
                assert(init[i] == rows[i]);
            }
        }
    }
}

/// Two valid row sequences whose rows of the pair `(m, u)` correspond give
/// the pair the same vote.
proof fn lemma_vote_of_agree(a: Seq<Vote>, b: Seq<Vote>, m: u128, u: i64)
    requires
        rows_valid(a),
        rows_valid(b),
        forall|j: int|
            0 <= j < a.len() && is_key(#[trigger] a[j], m, u) ==> exists|k: int|
                0 <= k < b.len() && #[trigger] b[k] == a[j],
        forall|k: int|
            0 <= k < b.len() && is_key(#[trigger] b[k], m, u) ==> exists|j: int|
                0 <= j < a.len() && #[trigger] a[j] == b[k],
    ensures
        row_of(a, m, u) == row_of(b, m, u),
{
    lemma_vote_of(a, m, u);
    lemma_vote_of(b, m, u);
    if exists|j: int| 0 <= j < a.len() && is_key(#[trigger] a[j], m, u) {
        let j = choose|j: int| 0 <= j < a.len() && is_key(#[trigger] a[j], m, u);
        let k = choose|k: int| 0 <= k < b.len() && #[trigger] b[k] == a[j];
        assert(is_key(b[k], m, u));
    } else if exists|k: int| 0 <= k < b.len() && is_key(#[trigger] b[k], m, u) {
        let k = choose|k: int| 0 <= k < b.len() && is_key(#[trigger] b[k], m, u);
        let j = choose|j: int| 0 <= j < a.len() && #[trigger] a[j] == b[k];
        assert(is_key(a[j], m, u));
    }
}

proof fn lemma_count_update(rows: Seq<Vote>, i: int, v: Vote, mm: Option<u128>, s: i16)
    requires
        0 <= i < rows.len(),
    ensures
        count_votes(rows.update(i, v), mm, s) == count_votes(rows, mm, s) - (if counts_toward(
            rows[i],
            mm,
            s,
        ) {
            1int
        } else {
            0int
        }) + (if counts_toward(v, mm, s) {
            1int
        } else {
            0int
        }),
    decreases rows.len(),
{
    let new = rows.update(i, v);
    if i < rows.len() - 1 {
        assert(new.drop_last() =~= rows.drop_last().update(i, v));
        lemma_count_update(rows.drop_last(), i, v, mm, s);
    } else {
        assert(new.drop_last() =~= rows.drop_last());
    }
}

proof fn lemma_count_remove(rows: Seq<Vote>, i: int, mm: Option<u128>, s: i16)
    requires
        0 <= i < rows.len(),
    ensures
        count_votes(rows.remove(i), mm, s) == count_votes(rows, mm, s) - (if counts_toward(
            rows[i],
            mm,
            s,
        ) {
            1int
        } else {
            0int
        }),
    decreases rows.len(),
{
    let new = rows.remove(i);
    if i < rows.len() - 1 {
        assert(new.drop_last() =~= rows.drop_last().remove(i));
        assert(new.last() == rows.last());
        lemma_count_remove(rows.drop_last(), i, mm, s);
    } else {
        assert(new =~= rows.drop_last());
    }
}

proof fn lemma_count_push(rows: Seq<Vote>, v: Vote, mm: Option<u128>, s: i16)
    ensures
        count_votes(rows.push(v), mm, s) == count_votes(rows, mm, s) + (if counts_toward(
            v,
            mm,
            s,
        ) {
            1int
        } else {
            0int
        }),
{
    assert(rows.push(v).drop_last() =~= rows);
}

proof fn lemma_count_bound(rows: Seq<Vote>, mm: Option<u128>, s: i16)
    ensures
        count_votes(rows, mm, s) <= rows.len(),
    decreases rows.len(),
{
    if rows.len() > 0 {
        lemma_count_bound(rows.drop_last(), mm, s);
    }
}

/// Dropping the rows of one meme keeps the rows valid, clears that meme's
/// votes and keeps every other pair's row.
proof fn lemma_drop_meme(rows: Seq<Vote>, m: u128, m2: u128, u2: i64)
    requires
        rows_valid(rows),
    ensures
        rows_valid(rows.filter(|v: Vote| v.meme_uuid != m)),
        row_of(rows.filter(|v: Vote| v.meme_uuid != m), m2, u2) == if m2 == m {
            None
        } else {
            row_of(rows, m2, u2)
        },
    decreases rows.len(),
{
    let keep = |v: Vote| v.meme_uuid != m;
    reveal(Seq::filter);
    if rows.len() > 0 {
        let init = rows.drop_last();
        assert(rows_valid(init)) by {
            assert forall|i: int| 0 <= i < init.len() implies init[i] == rows[i] by {}
        }
        lemma_drop_meme(init, m, m2, u2);
        let fi = init.filter(keep);
        let f = rows.filter(keep);
        if keep(rows.last()) {
            assert(f == fi.push(rows.last()));
            assert forall|i: int| 0 <= i < fi.len() implies !is_key(
                #[trigger] fi[i],
                rows.last().meme_uuid,
                rows.last().user_id,
            ) by {
                assert(fi.contains(fi[i]));
                init.lemma_filter_contains_rev(keep, fi[i]);
                let j = choose|j: int| 0 <= j < init.len() && init[j] == fi[i];
                assert(rows[j] == init[j]);
                assert(!is_key(rows[j], rows[rows.len() - 1].meme_uuid, rows[rows.len() - 1].user_id));
            }
            assert forall|i: int, j: int|
                0 <= i < f.len() && 0 <= j < f.len() && i != j implies !is_key(
                #[trigger] f[i],
                (#[trigger] f[j]).meme_uuid,
                f[j].user_id,
            ) by {
                if i < fi.len() && j < fi.len() {
                    assert(f[i] == fi[i] && f[j] == fi[j]);
                } else if i < fi.len() {
                    assert(f[i] == fi[i]);
                } else if j < fi.len() {
                    assert(f[j] == fi[j]);
                    assert(!is_key(fi[j], rows.last().meme_uuid, rows.last().user_id));
                }
            }
            assert forall|i: int| 0 <= i < f.len() implies (#[trigger] f[i]).num == 1 || f[i].num
                == -1 by {
                if i < fi.len() {
                    assert(f[i] == fi[i]);
                }
            }
            assert(f.drop_last() =~= fi);
        } else {
            assert(f == fi);
        }
    }
}

/// In valid rows a (meme, voter) pair has at most one row.
pub proof fn lemma_one_row_per_pair(rows: Seq<Vote>, m: u128, u: i64)
    requires
        rows_valid(rows),
    ensures
        forall|i: int, j: int|
            0 <= i < rows.len() && 0 <= j < rows.len() && is_key(#[trigger] rows[i], m, u) && is_key(
                #[trigger] rows[j],
                m,
                u,
            ) ==> i == j,
{
}

/// Liking twice, from a pair that has no like, leaves the pair without a
/// vote and the meme's like count as it was before the first like.
pub proof fn lemma_like_twice(r0: Seq<Vote>, r1: Seq<Vote>, r2: Seq<Vote>, m: u128, u: i64)
    requires
        rows_valid(r0),
        vote_of(r0, m, u) != Some(1i16),
        set_vote(r0, r1, m, u, after_click(vote_of(r0, m, u), MemeLikeOperation::Like)),
        set_vote(r1, r2, m, u, after_click(vote_of(r1, m, u), MemeLikeOperation::Like)),
    ensures
        vote_of(r2, m, u) is None,
        count_votes(r2, Some(m), 1i16) == count_votes(r0, Some(m), 1i16),
{
    assert(count_votes(r1, Some(m), 1i16) == count_votes(r0, Some(m), 1i16) + 1);
    assert(count_votes(r2, Some(m), 1i16) == count_votes(r1, Some(m), 1i16) - 1);
}

/// A like followed by a dislike leaves the pair exactly one row, a dislike.
pub proof fn lemma_like_then_dislike(r0: Seq<Vote>, r1: Seq<Vote>, r2: Seq<Vote>, m: u128, u: i64)
    requires
        rows_valid(r0),
        set_vote(r0, r1, m, u, after_click(vote_of(r0, m, u), MemeLikeOperation::Like)),
        set_vote(r1, r2, m, u, after_click(vote_of(r1, m, u), MemeLikeOperation::Dislike)),
    ensures
        vote_of(r2, m, u) == Some(-1i16),
        exists|i: int|
            0 <= i < r2.len() && is_key(#[trigger] r2[i], m, u) && r2[i].num == -1 && forall|j: int|
                0 <= j < r2.len() && is_key(#[trigger] r2[j], m, u) ==> j == i,
{
    lemma_vote_of(r2, m, u);
    let i = choose|i: int| 0 <= i < r2.len() && is_key(#[trigger] r2[i], m, u);
    lemma_one_row_per_pair(r2, m, u);
}

/// The votes of every voter on every meme.
pub struct VoteLedger {
    votes: Vec<Vote>,
}

impl View for VoteLedger {
    type V = Seq<Vote>;

    closed spec fn view(&self) -> Seq<Vote> {
        self.votes@
    }
}

impl VoteLedger {
    pub open spec fn wf(&self) -> bool {
        rows_valid(self@)
    }

    /// An empty ledger.
    pub fn new() -> (r: VoteLedger)
        ensures
            r.wf(),
            r@ == Seq::<Vote>::empty(),
    {
        VoteLedger { votes: Vec::new() }
    }

    /// Index of the row of `u` on `m`, if any.
    fn find(&self, m: u128, u: i64) -> (r: Option<usize>)
        requires
            self.wf(),
        ensures
            r matches Some(i) ==> i < self@.len() && is_key(self@[i as int], m, u) && vote_of(
                self@,
                m,
                u,
            ) == Some(self@[i as int].num),
            r is None ==> vote_of(self@, m, u) is None && forall|i: int|
                0 <= i < self@.len() ==> !is_key(#[trigger] self@[i], m, u),
    {
        proof {
            lemma_vote_of(self@, m, u);
        }
        let mut i: usize = 0;
        while i < self.votes.len()
            invariant
                i <= self@.len(),
                self@ == self.votes@,
                self.wf(),
                forall|j: int| 0 <= j < i ==> !is_key(#[trigger] self@[j], m, u),
            decreases self@.len() - i,
        {
            if self.votes[i].meme_uuid == m && self.votes[i].user_id == u {
                proof {
                    lemma_vote_of(self@, m, u);
                    assert(is_key(self@[i as int], m, u));
                }
                return Some(i);
            }
            i = i + 1;
        }
        None
    }

    /// Sets the vote of `u` on `m` to `num`, in place when the pair has a row.
    fn put(&mut self, m: u128, u: i64, num: i16, now: i64)
        requires
            old(self).wf(),
            num == 1 || num == -1,
        ensures
            set_vote(old(self)@, final(self)@, m, u, Some(num)),
            stamped(old(self)@, final(self)@, m, u, now),
    {
        let ghost old_rows = self@;
        match self.find(m, u) {
            Some(i) => {
                let row = Vote { meme_uuid: m, user_id: u, num, created_at: self.votes[i].created_at };
                self.votes.set(i, row);
                proof {
                    let new = self@;
                    assert(new == old_rows.update(i as int, row));
                    assert(rows_valid(new));
                    lemma_vote_of(old_rows, m, u);
                    assert(row_of(old_rows, m, u) == Some(old_rows[i as int]));
                    lemma_vote_of(new, m, u);
                    assert(is_key(new[i as int], m, u));
                    assert(vote_of(new, m, u) == Some(num));
                    assert forall|m2: u128, u2: i64|
                        !(m2 == m && u2 == u) implies #[trigger] row_of(new, m2, u2) == row_of(
                        old_rows,
                        m2,
                        u2,
                    ) by {
                        assert forall|j: int|
                            0 <= j < old_rows.len() && is_key(#[trigger] old_rows[j], m2, u2)
                            implies exists|k: int| 0 <= k < new.len() && #[trigger] new[k] == old_rows[j] by {
                            assert(new[j] == old_rows[j]);
                        }
                        assert forall|k: int| 0 <= k < new.len() && is_key(#[trigger] new[k], m2, u2)
                            implies exists|j: int| 0 <= j < old_rows.len() && #[trigger] old_rows[j] == new[k] by {
                            assert(new[k] == old_rows[k]);
                        }
                        lemma_vote_of_agree(old_rows, new, m2, u2);
                    }
                    assert forall|mm: Option<u128>, s: i16| #[trigger]
                        count_votes(new, mm, s) == count_votes(old_rows, mm, s) - pair_count(
                            m,
                            vote_of(old_rows, m, u),
                            mm,
                            s,
                        ) + pair_count(m, Some(num), mm, s) by {
                        lemma_count_update(old_rows, i as int, row, mm, s);
                    }
                }
            },
            None => {
                let row = Vote { meme_uuid: m, user_id: u, num, created_at: now };
                self.votes.push(row);
                proof {
                    let new = self@;
                    assert(new == old_rows.push(row));
                    assert(new[old_rows.len() as int] == row);
                    assert(rows_valid(new));
                    assert(row_of(old_rows, m, u) is None);
                    assert(row_of(new, m, u) == Some(row));
                    lemma_vote_of(new, m, u);
                    assert(vote_of(new, m, u) == Some(num));
                    assert forall|m2: u128, u2: i64|
                        !(m2 == m && u2 == u) implies #[trigger] row_of(new, m2, u2) == row_of(
                        old_rows,
                        m2,
                        u2,
                    ) by {
                        assert(new.drop_last() =~= old_rows);
                    }
                    assert forall|mm: Option<u128>, s: i16| #[trigger]
                        count_votes(new, mm, s) == count_votes(old_rows, mm, s) - pair_count(
                            m,
                            vote_of(old_rows, m, u),
                            mm,
                            s,
                        ) + pair_count(m, Some(num), mm, s) by {
                        lemma_count_push(old_rows, row, mm, s);
                    }
                }
            },
        }
    }

    /// Deletes the row at `i`.
    fn delete_at(&mut self, i: usize)
        requires
            old(self).wf(),
            i < old(self)@.len(),
        ensures
            set_vote(
                old(self)@,
                final(self)@,
                old(self)@[i as int].meme_uuid,
                old(self)@[i as int].user_id,
                None,
            ),
    {
        let ghost old_rows = self@;
        let ghost m = old_rows[i as int].meme_uuid;
        let ghost u = old_rows[i as int].user_id;
        self.votes.remove(i);
        proof {
            let new = self@;
            assert(new == old_rows.remove(i as int));
            lemma_vote_of(old_rows, m, u);
            lemma_vote_of(new, m, u);
            assert forall|m2: u128, u2: i64|
                !(m2 == m && u2 == u) implies #[trigger] row_of(new, m2, u2) == row_of(
                old_rows,
                m2,
                u2,
            ) by {
                assert forall|j: int|
                    0 <= j < old_rows.len() && is_key(#[trigger] old_rows[j], m2, u2)
                    implies exists|k: int| 0 <= k < new.len() && #[trigger] new[k] == old_rows[j] by {
                    if j < i {
                        assert(new[j] == old_rows[j]);
                    } else {
                        assert(j != i);
                        assert(new[j - 1] == old_rows[j]);
                    }
                }
                assert forall|k: int| 0 <= k < new.len() && is_key(#[trigger] new[k], m2, u2)
                    implies exists|j: int| 0 <= j < old_rows.len() && #[trigger] old_rows[j] == new[k] by {
                    if k < i {
                        assert(new[k] == old_rows[k]);
                    } else {
                        assert(new[k] == old_rows[k + 1]);
                    }
                }
                lemma_vote_of_agree(old_rows, new, m2, u2);
            }
            assert forall|mm: Option<u128>, s: i16| #[trigger]
                count_votes(new, mm, s) == count_votes(old_rows, mm, s) - pair_count(
                    m,
                    vote_of(old_rows, m, u),
                    mm,
                    s,
                ) + pair_count(m, None, mm, s) by {
                lemma_count_remove(old_rows, i as int, mm, s);
            }
        }
    }

    /// Records the vote `op` of `user_id` on `meme_uuid` at time `now`,
    /// replacing the sign of any vote the pair already has.
    pub fn add(&mut self, meme_uuid: u128, user_id: i64, op: MemeLikeOperation, now: i64)
        requires
            old(self).wf(),
        ensures
            set_vote(old(self)@, final(self)@, meme_uuid, user_id, Some(sign(op))),
            stamped(old(self)@, final(self)@, meme_uuid, user_id, now),
    {
        self.put(meme_uuid, user_id, op.id(), now);
    }

    /// Removes every vote on `meme_uuid`, as when the meme is deleted.
    pub fn delete_meme(&mut self, meme_uuid: u128)
        requires
            old(self).wf(),
        ensures
            final(self).wf(),
            final(self)@ == old(self)@.filter(|v: Vote| v.meme_uuid != meme_uuid),
            forall|m: u128, u: i64| #[trigger]
                row_of(final(self)@, m, u) == if m == meme_uuid {
                    None
                } else {
                    row_of(old(self)@, m, u)
                },
    {
        let ghost rows = self@;
        let ghost keep = |v: Vote| v.meme_uuid != meme_uuid;
        let mut kept: Vec<Vote> = Vec::new();
        let mut i: usize = 0;
        while i < self.votes.len()
            invariant
                rows == self@,
                self@ == self.votes@,
                i <= rows.len(),
                keep == (|v: Vote| v.meme_uuid != meme_uuid),
                kept@ == rows.take(i as int).filter(keep),
            decreases rows.len() - i,
        {
            proof {
                assert(rows.take(i + 1).drop_last() =~= rows.take(i as int));
                reveal(Seq::filter);
            }
            let v = self.votes[i];
            if v.meme_uuid != meme_uuid {
                kept.push(v);
            }
            i = i + 1;
        }
        proof {
            assert(rows.take(i as int) =~= rows);
            lemma_drop_meme(rows, meme_uuid, 0, 0);
            assert forall|m: u128, u: i64| #[trigger]
                row_of(kept@, m, u) == if m == meme_uuid {
                    None
                } else {
                    row_of(rows, m, u)
                } by {
                lemma_drop_meme(rows, meme_uuid, m, u);
            }
        }
        self.votes = kept;
    }

    /// Whether `user_id` has the vote `op` on `meme_uuid`.
    pub fn has_vote(&self, meme_uuid: u128, user_id: i64, op: MemeLikeOperation) -> (r: bool)
        requires
            self.wf(),
        ensures
            r == (vote_of(self@, meme_uuid, user_id) == Some(sign(op))),
    {
        match self.find(meme_uuid, user_id) {
            Some(i) => self.votes[i].num == op.id(),
            None => false,
        }
    }

    /// Withdraws the vote `op` of `user_id` on `meme_uuid`; returns whether
    /// there was such a vote (otherwise nothing changes).
    pub fn remove(&mut self, meme_uuid: u128, user_id: i64, op: MemeLikeOperation) -> (r: bool)
        requires
            old(self).wf(),
        ensures
            r == (vote_of(old(self)@, meme_uuid, user_id) == Some(sign(op))),
            r ==> set_vote(old(self)@, final(self)@, meme_uuid, user_id, None),
            !r ==> final(self)@ == old(self)@,
    {
        match self.find(meme_uuid, user_id) {
            Some(i) => {
                if self.votes[i].num == op.id() {
                    self.delete_at(i);
                    true
                } else {
                    false
                }
            },
            None => false,
        }
    }

    /// Likes and dislikes on `meme_uuid`, or on every meme when it is `None`.
    pub fn count_all(&self, meme_uuid: Option<u128>) -> (r: MemeLikesCountAll)
        ensures
            r.likes == count_votes(self@, meme_uuid, 1i16),
            r.dislikes == count_votes(self@, meme_uuid, -1i16),
    {
        let mut likes: u64 = 0;
        let mut dislikes: u64 = 0;
        let mut i: usize = 0;
        while i < self.votes.len()
            invariant
                i <= self@.len(),
                self@ == self.votes@,
                likes == count_votes(self@.take(i as int), meme_uuid, 1i16),
                dislikes == count_votes(self@.take(i as int), meme_uuid, -1i16),
            decreases self@.len() - i,
        {
            let v = self.votes[i];
            proof {
                assert(self@.take(i + 1).drop_last() =~= self@.take(i as int));
                lemma_count_bound(self@.take(i as int), meme_uuid, 1i16);
                lemma_count_bound(self@.take(i as int), meme_uuid, -1i16);
            }
            let counted = match meme_uuid {
                Some(m) => v.meme_uuid == m,
                None => true,
            };
            if counted && v.num == 1 {
                likes = likes + 1;
            } else if counted && v.num == -1 {
                dislikes = dislikes + 1;
            }
            i = i + 1;
        }
        proof {
            assert(self@.take(i as int) =~= self@);
        }
        MemeLikesCountAll { likes, dislikes }
    }

    /// Likes and dislikes cast within `[from, to]` on `meme_uuid`, or on every
    /// meme when it is `None`.
    pub fn count_between(&self, meme_uuid: Option<u128>, from: i64, to: i64) -> (r:
        MemeLikesCountAll)
        ensures
            r.likes == count_votes_within(self@, meme_uuid, 1i16, from, to),
            r.dislikes == count_votes_within(self@, meme_uuid, -1i16, from, to),
    {
        let mut likes: u64 = 0;
        let mut dislikes: u64 = 0;
        let mut i: usize = 0;
        while i < self.votes.len()
            invariant
                i <= self@.len(),
                self@ == self.votes@,
                likes == count_votes_within(self@.take(i as int), meme_uuid, 1i16, from, to),
                dislikes == count_votes_within(self@.take(i as int), meme_uuid, -1i16, from, to),
                likes + dislikes <= i,
            decreases self@.len() - i,
        {
            let v = self.votes[i];
            proof {
                assert(self@.take(i + 1).drop_last() =~= self@.take(i as int));
            }
            let counted = match meme_uuid {
                Some(m) => v.meme_uuid == m,
                None => true,
            } && from <= v.created_at && v.created_at <= to;
            if counted && v.num == 1 {
                likes = likes + 1;
            } else if counted && v.num == -1 {
                dislikes = dislikes + 1;
            }
            i = i + 1;
        }
        proof {
            assert(self@.take(i as int) =~= self@);
        }
        MemeLikesCountAll { likes, dislikes }
    }

    /// One click of `op` by `user_id` on `meme_uuid` at time `now`, as a
    /// single update: the same vote is withdrawn, another is replaced, and on
    /// no vote `op` is recorded. Returns the meme's counts afterwards.
    pub fn click(&mut self, meme_uuid: u128, user_id: i64, op: MemeLikeOperation, now: i64) -> (r:
        MemeLikesCountAll)
        requires
            old(self).wf(),
        ensures
            set_vote(
                old(self)@,
                final(self)@,
                meme_uuid,
                user_id,
                after_click(vote_of(old(self)@, meme_uuid, user_id), op),
            ),
            stamped(old(self)@, final(self)@, meme_uuid, user_id, now),
            r.likes == count_votes(final(self)@, Some(meme_uuid), 1i16),
            r.dislikes == count_votes(final(self)@, Some(meme_uuid), -1i16),
    {
        let s = op.id();
        match self.find(meme_uuid, user_id) {
            Some(i) => {
                if self.votes[i].num == s {
                    self.delete_at(i);
                } else {
                    self.put(meme_uuid, user_id, s, now);
                }
            },
            None => {
                self.put(meme_uuid, user_id, s, now);
            },
        }
        self.count_all(Some(meme_uuid))
    }

    /// A like click; see [`VoteLedger::click`].
    pub fn like(&mut self, meme_uuid: u128, user_id: i64, now: i64) -> (r: MemeLikesCountAll)
        requires
            old(self).wf(),
        ensures
            set_vote(
                old(self)@,
                final(self)@,
                meme_uuid,
                user_id,
                after_click(vote_of(old(self)@, meme_uuid, user_id), MemeLikeOperation::Like),
            ),
            stamped(old(self)@, final(self)@, meme_uuid, user_id, now),
            r.likes == count_votes(final(self)@, Some(meme_uuid), 1i16),
            r.dislikes == count_votes(final(self)@, Some(meme_uuid), -1i16),
    {
        self.click(meme_uuid, user_id, MemeLikeOperation::Like, now)
    }

    /// A dislike click; see [`VoteLedger::click`].
    pub fn dislike(&mut self, meme_uuid: u128, user_id: i64, now: i64) -> (r: MemeLikesCountAll)
        requires
            old(self).wf(),
        ensures
            set_vote(
                old(self)@,
                final(self)@,
                meme_uuid,
                user_id,
                after_click(vote_of(old(self)@, meme_uuid, user_id), MemeLikeOperation::Dislike),
            ),
            stamped(old(self)@, final(self)@, meme_uuid, user_id, now),
            r.likes == count_votes(final(self)@, Some(meme_uuid), 1i16),
            r.dislikes == count_votes(final(self)@, Some(meme_uuid), -1i16),
    {
        self.click(meme_uuid, user_id, MemeLikeOperation::Dislike, now)
    }
}

} // verus!

use meme_guard::callbacks::CallbackOperations;
use meme_guard::votes::{MemeLikeOperation, MemeLikesCountAll, VoteLedger};

const X: u128 = 0x1111;
const Y: u128 = 0x2222;

fn counts(likes: u64, dislikes: u64) -> MemeLikesCountAll {
    MemeLikesCountAll { likes, dislikes }
}

#[test]
fn like_again_then_dislike() {
    let mut l = VoteLedger::new();
    assert_eq!(l.like(X, 7, 0), counts(1, 0));
    assert_eq!(l.like(X, 7, 0), counts(0, 0));
    assert_eq!(l.dislike(X, 7, 0), counts(0, 1));
}

#[test]
fn two_voters_like() {
    let mut a = VoteLedger::new();
    a.like(X, 1, 0);
    assert_eq!(a.like(X, 2, 0), counts(2, 0));
    let mut b = VoteLedger::new();
    b.like(X, 2, 0);
    assert_eq!(b.like(X, 1, 0), counts(2, 0));
}

#[test]
fn like_then_dislike_replaces() {
    let mut l = VoteLedger::new();
    l.like(X, 3, 0);
    assert_eq!(l.dislike(X, 3, 0), counts(0, 1));
    assert!(l.has_vote(X, 3, MemeLikeOperation::Dislike));
    assert!(!l.has_vote(X, 3, MemeLikeOperation::Like));
}

#[test]
fn dislike_twice_withdraws() {
    let mut l = VoteLedger::new();
    l.dislike(X, 3, 0);
    assert_eq!(l.dislike(X, 3, 0), counts(0, 0));
}

#[test]
fn votes_on_other_memes_not_counted() {
    let mut l = VoteLedger::new();
    l.like(X, 1, 0);
    l.dislike(Y, 1, 0);
    l.like(Y, 2, 0);
    assert_eq!(l.count_all(Some(X)), counts(1, 0));
    assert_eq!(l.count_all(Some(Y)), counts(1, 1));
    assert_eq!(l.count_all(None), counts(2, 1));
}

#[test]
fn add_is_an_upsert() {
    let mut l = VoteLedger::new();
    l.add(X, 4, MemeLikeOperation::Like, 0);
    l.add(X, 4, MemeLikeOperation::Like, 0);
    assert_eq!(l.count_all(Some(X)), counts(1, 0));
    l.add(X, 4, MemeLikeOperation::Dislike, 0);
    assert_eq!(l.count_all(Some(X)), counts(0, 1));
}

#[test]
fn remove_only_matching_vote() {
    let mut l = VoteLedger::new();
    l.add(X, 5, MemeLikeOperation::Dislike, 0);
    assert!(!l.remove(X, 5, MemeLikeOperation::Like));
    assert_eq!(l.count_all(Some(X)), counts(0, 1));
    assert!(l.remove(X, 5, MemeLikeOperation::Dislike));
    assert_eq!(l.count_all(Some(X)), counts(0, 0));
    assert!(!l.remove(X, 5, MemeLikeOperation::Dislike));
}

#[test]
fn operation_ids() {
    assert_eq!(MemeLikeOperation::Like.id(), 1);
    assert_eq!(MemeLikeOperation::Dislike.id(), -1);
}

#[test]
fn callback_votes() {
    assert_eq!(CallbackOperations::Like.vote(), Some(MemeLikeOperation::Like));
    assert_eq!(CallbackOperations::Dislike.vote(), Some(MemeLikeOperation::Dislike));
    assert_eq!(CallbackOperations::Delete.vote(), None);
    assert_eq!(CallbackOperations::Dismiss.vote(), None);
}

#[test]
fn click_dispatches_by_operation() {
    let mut l = VoteLedger::new();
    assert_eq!(l.click(Y, 9, MemeLikeOperation::Dislike, 0), counts(0, 1));
    assert_eq!(l.click(Y, 9, MemeLikeOperation::Like, 0), counts(1, 0));
}

#[test]
fn count_within_time_window() {
    let mut l = VoteLedger::new();
    l.like(X, 1, 100);
    l.like(X, 2, 200);
    l.dislike(X, 3, 300);
    l.like(Y, 4, 200);
    assert_eq!(l.count_between(Some(X), 150, 300), counts(1, 1));
    assert_eq!(l.count_between(Some(X), 0, 99), counts(0, 0));
    assert_eq!(l.count_between(None, 200, 200), counts(2, 0));
}

#[test]
fn turned_vote_keeps_its_time() {
    let mut l = VoteLedger::new();
    l.like(X, 1, 100);
    l.dislike(X, 1, 500);
    assert_eq!(l.count_between(Some(X), 0, 150), counts(0, 1));
    l.dislike(X, 1, 600);
    l.dislike(X, 1, 700);
    assert_eq!(l.count_between(Some(X), 0, 650), counts(0, 0));
    assert_eq!(l.count_between(Some(X), 650, 750), counts(0, 1));
}

#[test]
fn deleting_a_meme_drops_its_votes() {
    let mut l = VoteLedger::new();
    l.like(X, 1, 0);
    l.dislike(X, 2, 0);
    l.like(Y, 1, 0);
    l.delete_meme(X);
    assert_eq!(l.count_all(Some(X)), counts(0, 0));
    assert_eq!(l.count_all(Some(Y)), counts(1, 0));
    assert!(!l.has_vote(X, 1, MemeLikeOperation::Like));
    assert!(l.has_vote(Y, 1, MemeLikeOperation::Like));
}

#[test]
fn one_vote_per_pair_after_many_clicks() {
    let mut l = VoteLedger::new();
    for i in 0..50 {
        if i % 3 == 0 {
            l.like(X, 1, i);
        } else {
            l.dislike(X, 1, i);
        }
        l.add(X, 1, MemeLikeOperation::Like, i);
        let c = l.count_all(Some(X));
        assert!(c.likes + c.dislikes <= 1);
    }
}

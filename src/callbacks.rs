//! The buttons under a re-posted meme.
use crate::votes::MemeLikeOperation;
use vstd::prelude::*;

verus! {

/// What a button under a meme asks for.
#[derive(Debug, Clone, Copy, PartialEq, Eq, Structural)]
pub enum CallbackOperations {
    Like,
    Dislike,
    Delete,
    Dismiss,
}

impl CallbackOperations {
    /// The vote that the button casts; none for the removal buttons.
    pub fn vote(&self) -> (r: Option<MemeLikeOperation>)
        ensures
            *self == CallbackOperations::Like ==> r == Some(MemeLikeOperation::Like),
            *self == CallbackOperations::Dislike ==> r == Some(MemeLikeOperation::Dislike),
            *self == CallbackOperations::Delete || *self == CallbackOperations::Dismiss ==> r is None,
    {
        match self {
            CallbackOperations::Like => Some(MemeLikeOperation::Like),
            CallbackOperations::Dislike => Some(MemeLikeOperation::Dislike),
            CallbackOperations::Delete => None,
            CallbackOperations::Dismiss => None,
        }
    }
}

/// A user may remove a meme when they posted it or administer the chat.
pub fn can_user_interact(author_id: i64, user_id: u64, admins: &Vec<u64>) -> (r: bool)
    ensures
        r == (admins@.contains(user_id) || author_id == user_id as int),
{
    let mut i: usize = 0;
    while i < admins.len()
        invariant
            i <= admins@.len(),
            forall|j: int| 0 <= j < i ==> admins@[j] != user_id,
        decreases admins@.len() - i,
    {
        if admins[i] == user_id {
            proof {
                assert(admins@[i as int] == user_id);
            }
            return true;
        }
        i = i + 1;
    }
    (user_id as i128) == (author_id as i128)
}

} // verus!

//! A stored meme and the plain values the detection logic reads from it.
use vstd::prelude::*;

verus! {

/// One posted meme. `uuid` is the meme's identity (a UUID as its 128-bit
/// value); `msg_id` the bot's re-post carrying the vote buttons, once known;
/// `posted_at` a timestamp in seconds; `long_hash` and `short_hash` the fine
/// and coarse hex fingerprints, both present or both absent.
#[derive(Debug)]
pub struct Meme {
    pub uuid: u128,
    pub msg_id: Option<i64>,
    pub user_id: i64,
    pub chat_id: i64,
    pub posted_at: Option<i64>,
    pub long_hash: Option<String>,
    pub short_hash: Option<String>,
}

pub struct MemeView {
    pub uuid: u128,
    pub msg_id: Option<i64>,
    pub user_id: i64,
    pub chat_id: i64,
    pub posted_at: Option<i64>,
    pub long_hash: Option<Seq<char>>,
    pub short_hash: Option<Seq<char>>,
}

pub open spec fn opt_str_view(o: Option<String>) -> Option<Seq<char>> {
    match o {
        Some(s) => Some(s@),
        None => None,
    }
}

impl View for Meme {
    type V = MemeView;

    open spec fn view(&self) -> MemeView {
        MemeView {
            uuid: self.uuid,
            msg_id: self.msg_id,
            user_id: self.user_id,
            chat_id: self.chat_id,
            posted_at: self.posted_at,
            long_hash: opt_str_view(self.long_hash),
            short_hash: opt_str_view(self.short_hash),
        }
    }
}

/// Both fingerprints are present, or both are absent.
pub open spec fn fingerprint_whole(m: MemeView) -> bool {
    m.long_hash is Some <==> m.short_hash is Some
}

fn clone_opt_string(o: &Option<String>) -> (r: Option<String>)
    ensures
        opt_str_view(r) == opt_str_view(*o),
{
    match o {
        Some(s) => Some(s.clone()),
        None => None,
    }
}

impl Meme {
    /// A meme without a bot message yet.
    pub fn new(
        uuid: u128,
        user_id: i64,
        chat_id: i64,
        posted_at: Option<i64>,
        long_hash: Option<String>,
        short_hash: Option<String>,
    ) -> (r: Meme)
        ensures
            r.uuid == uuid,
            r.msg_id is None,
            r.user_id == user_id,
            r.chat_id == chat_id,
            r.posted_at == posted_at,
            r.long_hash == long_hash,
            r.short_hash == short_hash,
    {
        Meme { uuid, msg_id: None, user_id, chat_id, posted_at, long_hash, short_hash }
    }

    /// A copy with the same view.
    pub fn duplicate(&self) -> (r: Meme)
        ensures
            r@ == self@,
    {
        Meme {
            uuid: self.uuid,
            msg_id: self.msg_id,
            user_id: self.user_id,
            chat_id: self.chat_id,
            posted_at: self.posted_at,
            long_hash: clone_opt_string(&self.long_hash),
            short_hash: clone_opt_string(&self.short_hash),
        }
    }

    /// Whether the meme carries both fingerprints or neither.
    pub fn has_whole_fingerprint(&self) -> (r: bool)
        ensures
            r == fingerprint_whole(self@),
    {
        self.long_hash.is_some() == self.short_hash.is_some()
    }
}

} // verus!

//! What the bot keeps between messages: which chats are registered, when it
//! last replied with each kind of message in a chat, and the running version.
use crate::codec::same_text;
use vstd::prelude::*;

verus! {

/// Seconds after which a reply mark lapses.
pub const MARK_TTL_SECS: u64 = 900;

/// Messages that must pass in a chat before the same kind of reply is sent again.
pub const MESSAGE_GAP: i64 = 20;

/// The bot replied with the message kind `key` in `chat_id` at message
/// `message_id`, at time `set_at` (seconds).
pub struct ReplyMark {
    pub chat_id: i64,
    pub key: String,
    pub message_id: i32,
    pub set_at: u64,
}

pub struct ReplyMarkView {
    pub chat_id: i64,
    pub key: Seq<char>,
    pub message_id: i32,
    pub set_at: u64,
}

impl View for ReplyMark {
    type V = ReplyMarkView;

    open spec fn view(&self) -> ReplyMarkView {
        ReplyMarkView {
            chat_id: self.chat_id,
            key: self.key@,
            message_id: self.message_id,
            set_at: self.set_at,
        }
    }
}

pub open spec fn mark_is(m: ReplyMarkView, chat_id: i64, key: Seq<char>) -> bool {
    m.chat_id == chat_id && m.key == key
}

/// The latest mark of `key` in `chat_id`, if any.
pub open spec fn mark_of(marks: Seq<ReplyMarkView>, chat_id: i64, key: Seq<char>) -> Option<
    ReplyMarkView,
>
    decreases marks.len(),
{
    if marks.len() == 0 {
        None
    } else if mark_is(marks.last(), chat_id, key) {
        Some(marks.last())
    } else {
        mark_of(marks.drop_last(), chat_id, key)
    }
}

/// The message id of a mark that has not lapsed at `now`.
pub open spec fn live_mark(m: Option<ReplyMarkView>, now: u64) -> Option<i32> {
    match m {
        Some(v) => if now < v.set_at + MARK_TTL_SECS {
            Some(v.message_id)
        } else {
            None
        },
        None => None,
    }
}

/// A reply may go out: no live mark (or a mark of 0), or more than
/// `MESSAGE_GAP` messages since the marked one.
pub open spec fn may_reply(prev: Option<i32>, message_id: i32) -> bool {
    match prev {
        None => true,
        Some(p) => p == 0 || message_id - p > MESSAGE_GAP,
    }
}

proof fn lemma_mark_of_update(
    marks: Seq<ReplyMarkView>,
    i: int,
    v: ReplyMarkView,
    chat_id: i64,
    key: Seq<char>,
    c2: i64,
    k2: Seq<char>,
)
    requires
        0 <= i < marks.len(),
        mark_is(marks[i], chat_id, key),
        mark_is(v, chat_id, key),
        forall|j: int| i < j < marks.len() ==> !mark_is(#[trigger] marks[j], chat_id, key),
    ensures
        mark_of(marks.update(i, v), c2, k2) == if c2 == chat_id && k2 == key {
            Some(v)
        } else {
            mark_of(marks, c2, k2)
        },
    decreases marks.len(),
{
    let new = marks.update(i, v);
    if i < marks.len() - 1 {
        assert(new.drop_last() =~= marks.drop_last().update(i, v));
        assert(new.last() == marks.last());
        assert(!mark_is(marks.last(), chat_id, key));
        lemma_mark_of_update(marks.drop_last(), i, v, chat_id, key, c2, k2);
    } else {
        assert(new.drop_last() =~= marks.drop_last());
    }
}

/// Chats that are registered, reply marks, and the running version.
pub struct RedisManager {
    registered: Vec<i64>,
    marks: Vec<ReplyMark>,
    app_version: Option<String>,
}

impl RedisManager {
    pub closed spec fn registered_chats(&self) -> Seq<i64> {
        self.registered@
    }

    pub closed spec fn reply_marks(&self) -> Seq<ReplyMarkView> {
        self.marks@.map_values(|m: ReplyMark| m@)
    }

    pub closed spec fn version(&self) -> Option<Seq<char>> {
        match self.app_version {
            Some(s) => Some(s@),
            None => None,
        }
    }

    /// Nothing registered, marked or recorded.
    pub fn new() -> (r: RedisManager)
        ensures
            r.registered_chats() == Seq::<i64>::empty(),
            r.reply_marks() == Seq::<ReplyMarkView>::empty(),
            r.version() is None,
    {
        let r = RedisManager { registered: Vec::new(), marks: Vec::new(), app_version: None };
        proof {
            assert(r.reply_marks() =~= Seq::<ReplyMarkView>::empty());
        }
        r
    }

    /// Whether the chat has been registered.
    pub fn is_chat_registered(&self, chat_id: i64) -> (r: bool)
        ensures
            r == self.registered_chats().contains(chat_id),
    {
        let mut i: usize = 0;
        while i < self.registered.len()
            invariant
                i <= self.registered@.len(),
                forall|j: int| 0 <= j < i ==> self.registered@[j] != chat_id,
            decreases self.registered@.len() - i,
        {
            if self.registered[i] == chat_id {
                proof {
                    assert(self.registered@[i as int] == chat_id);
                }
                return true;
            }
            i = i + 1;
        }
        false
    }

    /// Registers the chat; registering it again changes nothing.
    pub fn register_chat(&mut self, chat_id: i64)
        ensures
            final(self).registered_chats().contains(chat_id),
            forall|c: i64|
                c != chat_id ==> (final(self).registered_chats().contains(c) <==> old(
                    self,
                ).registered_chats().contains(c)),
            final(self).reply_marks() == old(self).reply_marks(),
            final(self).version() == old(self).version(),
    {
        if !self.is_chat_registered(chat_id) {
            let ghost before = self.registered@;
            self.registered.push(chat_id);
            proof {
                assert(self.registered@ == before.push(chat_id));
                assert(self.registered@[before.len() as int] == chat_id);
                assert forall|c: i64| c != chat_id implies (self.registered@.contains(c)
                    <==> before.contains(c)) by {
                    if before.contains(c) {
                        let j = choose|j: int| 0 <= j < before.len() && before[j] == c;
                        assert(self.registered@[j] == c);
                    }
                    if self.registered@.contains(c) {
                        let j = choose|j: int|
                            0 <= j < self.registered@.len() && self.registered@[j] == c;
                        assert(before[j] == c);
                    }
                }
            }
        }
    }

    /// The running version recorded last, if any.
    pub fn get_app_version(&self) -> (r: Option<String>)
        ensures
            match r {
                Some(s) => self.version() == Some(s@),
                None => self.version() is None,
            },
    {
        match &self.app_version {
            Some(s) => Some(s.clone()),
            None => None,
        }
    }

    /// Records the running version.
    pub fn set_app_version(&mut self, version: &str)
        ensures
            final(self).version() == Some(version@),
            final(self).registered_chats() == old(self).registered_chats(),
            final(self).reply_marks() == old(self).reply_marks(),
    {
        self.app_version = Some(version.to_owned());
    }

    /// Index of the latest mark of `key` in `chat_id`.
    fn last_mark(&self, key: &str, chat_id: i64) -> (r: Option<usize>)
        ensures
            r matches Some(i) ==> {
                &&& i < self.reply_marks().len()
                &&& mark_is(self.reply_marks()[i as int], chat_id, key@)
                &&& forall|j: int|
                    i < j < self.reply_marks().len() ==> !mark_is(
                        #[trigger] self.reply_marks()[j],
                        chat_id,
                        key@,
                    )
                &&& mark_of(self.reply_marks(), chat_id, key@) == Some(
                    self.reply_marks()[i as int],
                )
            },
            r is None ==> mark_of(self.reply_marks(), chat_id, key@) is None,
    {
        let ghost ms = self.reply_marks();
        let mut i: usize = self.marks.len();
        proof {
            assert(ms.take(i as int) =~= ms);
        }
        while i > 0
            invariant
                ms == self.reply_marks(),
                i <= ms.len(),
                mark_of(ms, chat_id, key@) == mark_of(ms.take(i as int), chat_id, key@),
                forall|j: int| i <= j < ms.len() ==> !mark_is(#[trigger] ms[j], chat_id, key@),
            decreases i,
        {
            let m = &self.marks[i - 1];
            let same = m.chat_id == chat_id && same_text(m.key.as_str(), key);
            proof {
                assert(ms[i - 1] == m@);
                assert(ms.take(i as int).drop_last() =~= ms.take(i - 1));
                assert(ms.take(i as int).last() == ms[i - 1]);
            }
            if same {
                return Some(i - 1);
            }
            i = i - 1;
        }
        proof {
            assert(ms.take(0) =~= Seq::<ReplyMarkView>::empty());
        }
        None
    }

    /// Whether a reply of kind `key` may go out in `chat_id` at the message
    /// `message_id` and time `now`: when no unlapsed mark of that kind is
    /// there, or more than `MESSAGE_GAP` messages passed since it. When it
    /// may, the mark moves to this message and time.
    pub fn can_send_message(&mut self, key: &str, chat_id: i64, message_id: i32, now: u64) -> (r:
        bool)
        ensures
            r == may_reply(live_mark(mark_of(old(self).reply_marks(), chat_id, key@), now), message_id),
            r ==> mark_of(final(self).reply_marks(), chat_id, key@) == Some(
                ReplyMarkView { chat_id, key: key@, message_id, set_at: now },
            ),
            forall|c: i64, k: Seq<char>|
                !(c == chat_id && k == key@) ==> #[trigger] mark_of(final(self).reply_marks(), c, k)
                    == mark_of(old(self).reply_marks(), c, k),
            !r ==> final(self).reply_marks() == old(self).reply_marks(),
            final(self).registered_chats() == old(self).registered_chats(),
            final(self).version() == old(self).version(),
    {
        let ghost before = self.reply_marks();
        let found = self.last_mark(key, chat_id);
        let prev: i32 = match found {
            Some(i) => {
                let m = &self.marks[i];
                if (now as u128) < (m.set_at as u128) + (MARK_TTL_SECS as u128) {
                    m.message_id
                } else {
                    0
                }
            },
            None => 0,
        };
        if !(prev == 0 || (message_id as i64) - (prev as i64) > MESSAGE_GAP) {
            return false;
        }
        let mark = ReplyMark { chat_id, key: key.to_owned(), message_id, set_at: now };
        let ghost mv = mark@;
        match found {
            Some(i) => {
                self.marks.set(i, mark);
                proof {
                    assert(self.reply_marks() =~= before.update(i as int, mv));
                    assert forall|c: i64, k: Seq<char>|
                        !(c == chat_id && k == key@) implies #[trigger] mark_of(
                        self.reply_marks(),
                        c,
                        k,
                    ) == mark_of(before, c, k) by {
                        lemma_mark_of_update(before, i as int, mv, chat_id, key@, c, k);
                    }
                    lemma_mark_of_update(before, i as int, mv, chat_id, key@, chat_id, key@);
                }
            },
            None => {
                self.marks.push(mark);
                proof {
                    assert(self.reply_marks() =~= before.push(mv));
                    assert(self.reply_marks().drop_last() =~= before);
                }
            },
        }
        true
    }
}

} // verus!

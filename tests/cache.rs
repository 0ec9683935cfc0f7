use meme_guard::cache::RedisManager;
use meme_guard::callbacks::can_user_interact;

#[test]
fn register_chat_once() {
    let mut r = RedisManager::new();
    assert!(!r.is_chat_registered(-100));
    r.register_chat(-100);
    r.register_chat(-100);
    assert!(r.is_chat_registered(-100));
    assert!(!r.is_chat_registered(-101));
}

#[test]
fn app_version_round_trip() {
    let mut r = RedisManager::new();
    assert_eq!(r.get_app_version(), None);
    r.set_app_version("1.2.3");
    assert_eq!(r.get_app_version(), Some("1.2.3".to_string()));
}

#[test]
fn reply_needs_gap_of_twenty() {
    let mut r = RedisManager::new();
    assert!(r.can_send_message("similar", 1, 100, 0));
    assert!(!r.can_send_message("similar", 1, 120, 10));
    assert!(r.can_send_message("similar", 1, 121, 20));
    assert!(!r.can_send_message("similar", 1, 125, 30));
}

#[test]
fn reply_marks_per_chat_and_kind() {
    let mut r = RedisManager::new();
    assert!(r.can_send_message("a", 1, 100, 0));
    assert!(r.can_send_message("b", 1, 101, 0));
    assert!(r.can_send_message("a", 2, 102, 0));
    assert!(!r.can_send_message("a", 1, 103, 0));
}

#[test]
fn reply_mark_lapses() {
    let mut r = RedisManager::new();
    assert!(r.can_send_message("a", 1, 100, 1000));
    assert!(!r.can_send_message("a", 1, 101, 1899));
    assert!(r.can_send_message("a", 1, 102, 1900));
}

#[test]
fn author_or_admin_may_remove() {
    let admins = vec![5u64, 6];
    assert!(can_user_interact(9, 9, &admins));
    assert!(can_user_interact(9, 6, &admins));
    assert!(!can_user_interact(9, 7, &admins));
}

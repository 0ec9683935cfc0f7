use meme_guard::text::{decimal_string, pluralize};

const FORMS: (&str, &str, &str) = ("мем", "мема", "мемов");

#[test]
fn pluralize_one() {
    assert_eq!(pluralize(1, FORMS), "1 мем");
    assert_eq!(pluralize(21, FORMS), "21 мем");
    assert_eq!(pluralize(101, FORMS), "101 мем");
}

#[test]
fn pluralize_few() {
    assert_eq!(pluralize(2, FORMS), "2 мема");
    assert_eq!(pluralize(34, FORMS), "34 мема");
}

#[test]
fn pluralize_many() {
    assert_eq!(pluralize(0, FORMS), "0 мемов");
    assert_eq!(pluralize(5, FORMS), "5 мемов");
    assert_eq!(pluralize(11, FORMS), "11 мемов");
    assert_eq!(pluralize(14, FORMS), "14 мемов");
    assert_eq!(pluralize(112, FORMS), "112 мемов");
}

#[test]
fn pluralize_negative() {
    assert_eq!(pluralize(-1, FORMS), "-1 мемов");
    assert_eq!(pluralize(-21, FORMS), "-21 мемов");
}

#[test]
fn decimal_extremes() {
    assert_eq!(decimal_string(i64::MIN), i64::MIN.to_string());
    assert_eq!(decimal_string(i64::MAX), i64::MAX.to_string());
    assert_eq!(decimal_string(0), "0");
}

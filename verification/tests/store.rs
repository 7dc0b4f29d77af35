use tutu::db::{
    append_word, clean, count_pic, delete_pic, init, list_pic_words, query_pic, random_pic,
    replace_word, DbInfo,
};

#[test]
fn append_twice_keeps_one_association() {
    let mut db = DbInfo::empty();
    append_word("p", "w", &mut db).unwrap();
    append_word("p", "w", &mut db).unwrap();
    assert_eq!(list_pic_words("p", &db).unwrap(), "w");
    let found = query_pic("w", &mut db).unwrap();
    assert_eq!(found, vec!["p".to_string()]);
}

#[test]
fn replace_discards_old_tags() {
    let mut db = DbInfo::empty();
    append_word("p", "x", &mut db).unwrap();
    replace_word("p", "a b", &mut db).unwrap();
    assert_eq!(list_pic_words("p", &db).unwrap(), "a b");
}

#[test]
fn query_no_match_returns_empty() {
    let mut db = DbInfo::empty();
    append_word("p", "w", &mut db).unwrap();
    assert!(query_pic("nothing", &mut db).unwrap().is_empty());
}

#[test]
fn query_single_match_returns_one() {
    let mut db = DbInfo::empty();
    append_word("p", "w", &mut db).unwrap();
    assert_eq!(query_pic("w", &mut db).unwrap(), vec!["p".to_string()]);
}

#[test]
fn query_many_matches_returns_two_distinct_newest_first() {
    let mut db = DbInfo::empty();
    append_word("p1", "w", &mut db).unwrap();
    append_word("p2", "w", &mut db).unwrap();
    append_word("p3", "w", &mut db).unwrap();
    let found = query_pic("w", &mut db).unwrap();
    assert_eq!(found.len(), 2);
    assert_eq!(found[0], "p3");
    assert_ne!(found[1], found[0]);
    assert!(found[1] == "p1" || found[1] == "p2");
}

#[test]
fn retagging_does_not_refresh_recency() {
    let mut db = DbInfo::empty();
    append_word("p1", "w", &mut db).unwrap();
    append_word("p2", "w", &mut db).unwrap();
    append_word("p1", "w", &mut db).unwrap();
    let found = query_pic("w", &mut db).unwrap();
    assert_eq!(found[0], "p2");
}

#[test]
fn delete_removes_tags_but_keeps_the_row() {
    let mut db = DbInfo::empty();
    append_word("p", "w", &mut db).unwrap();
    delete_pic("p", &mut db).unwrap();
    assert!(query_pic("w", &mut db).unwrap().is_empty());
    assert_eq!(list_pic_words("p", &db).unwrap(), "");
    assert_eq!(count_pic(&db).unwrap(), 1);
}

#[test]
fn delete_unknown_picture_is_a_noop() {
    let mut db = DbInfo::empty();
    assert!(delete_pic("ghost", &mut db).is_ok());
    assert_eq!(count_pic(&db).unwrap(), 0);
}

#[test]
fn info_on_unknown_picture_fails() {
    let db = DbInfo::empty();
    assert_eq!(list_pic_words("nope", &db).unwrap_err(), "no such pic");
}

#[test]
fn random_on_empty_corpus_is_empty() {
    let mut db = DbInfo::empty();
    assert_eq!(random_pic(&mut db).unwrap(), "");
}

#[test]
fn random_returns_some_stored_picture() {
    let mut db = DbInfo::empty();
    append_word("p1", "w", &mut db).unwrap();
    append_word("p2", "v", &mut db).unwrap();
    let name = random_pic(&mut db).unwrap();
    assert!(name == "p1" || name == "p2");
}

#[test]
fn count_follows_appends() {
    let mut db = init("user", "pwd");
    assert_eq!(count_pic(&db).unwrap(), 0);
    append_word("p1", "w", &mut db).unwrap();
    append_word("p2", "w", &mut db).unwrap();
    append_word("p1", "v", &mut db).unwrap();
    assert_eq!(count_pic(&db).unwrap(), 2);
}

#[test]
fn clean_collects_orphans_and_reports_the_count() {
    let mut db = DbInfo::empty();
    append_word("p", "w", &mut db).unwrap();
    append_word("q", "x", &mut db).unwrap();
    delete_pic("q", &mut db).unwrap();
    assert_eq!(clean(&mut db).unwrap(), "1");
    assert_eq!(count_pic(&db).unwrap(), 1);
    assert_eq!(clean(&mut db).unwrap(), "0");
}

#[test]
fn word_text_splits_on_whitespace_runs() {
    let mut db = DbInfo::empty();
    append_word("p", "  a \t b  ", &mut db).unwrap();
    assert_eq!(list_pic_words("p", &db).unwrap(), "a b");
}

#[test]
fn blank_word_text_still_creates_the_row() {
    let mut db = DbInfo::empty();
    append_word("p", "   ", &mut db).unwrap();
    assert_eq!(count_pic(&db).unwrap(), 1);
    assert_eq!(list_pic_words("p", &db).unwrap(), "");
}

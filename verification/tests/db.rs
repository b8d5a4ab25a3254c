use launcher::clip::db::{
    default_db_path, is_mime, lower_letter, ClipboardDb, DbError, Entry, MAX_AGE_SECS, MAX_ENTRIES,
    META_BYTES,
};

fn text(db: &mut ClipboardDb, content: &str, hash: i64, now: i64) -> i64 {
    db.store(content.as_bytes(), hash, "text/plain", None, now).ok().unwrap()
}

fn entry(id: i64, hash: i64) -> Entry {
    Entry {
        id,
        content: b"x".to_vec(),
        content_hash: hash,
        mime: "text/plain".to_string(),
        source_app: None,
        created_at: 1,
        last_used: 1,
        pinned: false,
    }
}

#[test]
fn path_of_the_table() {
    assert_eq!(default_db_path(Some("/c"), Some("/h")), "/c/clipd/db.sqlite");
    assert_eq!(default_db_path(None, Some("/h")), "/h/.cache/clipd/db.sqlite");
    assert_eq!(default_db_path(None, None), "/tmp/.cache/clipd/db.sqlite");
}

#[test]
fn stored_entry_is_read_back() {
    let mut db = ClipboardDb::new();
    assert!(db.is_empty());
    let id = db.store(b"hello", 7, "text/plain", Some("kitty"), 100).ok().unwrap();
    assert_eq!(id, 1);
    let e = db.get(id).unwrap();
    assert_eq!(e.content, b"hello");
    assert_eq!((e.content_hash, e.created_at, e.last_used, e.pinned), (7, 100, 100, false));
    assert_eq!(e.source_app.as_deref(), Some("kitty"));
    assert_eq!(db.get_by_hash(7).unwrap().id, id);
    assert!(db.get(2).is_none());
    assert!(db.get_by_hash(8).is_none());
    assert_eq!(db.count(), 1);
    assert!(!db.is_empty());
}

#[test]
fn storing_again_bumps_the_entry() {
    let mut db = ClipboardDb::new();
    let a = db.store(b"hello", 7, "text/plain", Some("kitty"), 100).ok().unwrap();
    let b = db.store(b"hello", 7, "text/plain", None, 200).ok().unwrap();
    assert_eq!(a, b);
    assert_eq!(db.count(), 1);
    let e = db.get(a).unwrap();
    assert_eq!((e.created_at, e.last_used), (100, 200));
}

#[test]
fn import_leaves_known_entries_alone() {
    let mut db = ClipboardDb::new();
    let id = text(&mut db, "a", 1, 100);
    assert!(db.store_with_timestamps(b"b", 1, "text/html", 5, 6).is_ok());
    let e = db.get(id).unwrap();
    assert_eq!((e.content, e.mime, e.created_at), (b"a".to_vec(), "text/plain".to_string(), 100));
    assert!(db.store_with_timestamps(b"b", 2, "text/html", 5, 6).is_ok());
    let e = db.get_by_hash(2).unwrap();
    assert_eq!((e.created_at, e.last_used, e.source_app), (5, 6, None));
}

#[test]
fn listing_is_newest_first() {
    let mut db = ClipboardDb::new();
    for (h, t) in [(1, 50), (2, 70), (3, 60), (4, 70)] {
        text(&mut db, "x", h, t);
    }
    let order = |v: Vec<Entry>| v.into_iter().map(|e| e.content_hash).collect::<Vec<i64>>();
    assert_eq!(order(db.list(10)), [4, 2, 3, 1]);
    assert_eq!(order(db.list(2)), [4, 2]);
    assert_eq!(order(db.list(0)), Vec::<i64>::new());
    assert_eq!(order(db.list(-1)), [4, 2, 3, 1]);
    assert!(db.list(-1).iter().all(|e| e.content.is_empty()));
    assert_eq!(order(db.entries()), [1, 2, 3, 4]);
    assert!(db.entries().iter().all(|e| e.content == b"x"));
}

#[test]
fn listing_cuts_pictures_only() {
    let mut db = ClipboardDb::new();
    let big = vec![9u8; META_BYTES + 10];
    assert!(db.store(&big, 1, "image/png", None, 1).is_ok());
    assert!(db.store(&big, 2, "text/plain", None, 2).is_ok());
    assert!(db.store(&big, 3, "IMAGE/PNG", None, 3).is_ok());
    let lens: Vec<usize> = db.list_meta(10).into_iter().map(|e| e.content.len()).collect();
    assert_eq!(lens, [META_BYTES, META_BYTES + 10, META_BYTES]);
    assert_eq!(db.get_by_hash(1).unwrap().content.len(), META_BYTES + 10);
}

#[test]
fn search_ignores_case_and_pictures() {
    let mut db = ClipboardDb::new();
    text(&mut db, "Hello World", 1, 1);
    text(&mut db, "other", 2, 2);
    assert!(db.store(b"hello", 3, "image/png", None, 3).is_ok());
    text(&mut db, "100% sure", 4, 4);
    let hashes = |q: &str| db.search(q, 10).into_iter().map(|e| e.content_hash).collect::<Vec<i64>>();
    assert_eq!(hashes("hello"), [1]);
    assert_eq!(hashes("O"), [2, 1]);
    assert_eq!(hashes("0%"), [4]);
    assert_eq!(hashes("h%w"), Vec::<i64>::new());
    assert_eq!(hashes(""), [4, 2, 1]);
    assert_eq!(db.search("", 1).len(), 1);
}

#[test]
fn hashes_and_marks() {
    let mut db = ClipboardDb::new();
    assert_eq!((db.max_id(), db.max_created_at(), db.last_id()), (0, 0, 0));
    text(&mut db, "a", 11, 5);
    text(&mut db, "b", 12, 3);
    text(&mut db, "c", 13, 4);
    assert_eq!(db.all_hashes(), [11, 12, 13]);
    assert_eq!(db.max_id(), 3);
    assert_eq!(db.hashes_after_id(1), [12, 13]);
    assert_eq!(db.max_created_at(), 5);
    db.delete(3);
    assert_eq!((db.max_id(), db.last_id()), (2, 3));
    assert_eq!(text(&mut db, "d", 14, 9), 4);
}

#[test]
fn use_pin_and_delete() {
    let mut db = ClipboardDb::new();
    let a = text(&mut db, "a", 1, 1);
    let b = text(&mut db, "b", 2, 2);
    db.update_last_used(a, 50);
    assert_eq!(db.get(a).unwrap().last_used, 50);
    assert_eq!(db.get(b).unwrap().last_used, 2);
    assert!(matches!(db.toggle_pin(a), Ok(true)));
    assert!(db.get(a).unwrap().pinned);
    assert!(matches!(db.toggle_pin(a), Ok(false)));
    assert!(matches!(db.toggle_pin(99), Err(DbError::NoRow)));
    db.delete(a);
    assert!(db.get(a).is_none());
    assert!(db.get(b).is_some());
    db.delete(a);
    assert_eq!(db.count(), 1);
}

#[test]
fn cleanup_removes_old_entries_but_not_pinned_ones() {
    let now = 10 * MAX_AGE_SECS;
    let mut db = ClipboardDb::new();
    let old = text(&mut db, "old", 1, now - MAX_AGE_SECS - 1);
    let edge = text(&mut db, "edge", 2, now - MAX_AGE_SECS);
    let pinned = text(&mut db, "pinned", 3, 0);
    assert!(db.toggle_pin(pinned).is_ok());
    assert_eq!(db.cleanup(now), 1);
    assert!(db.get(old).is_none());
    assert!(db.get(edge).is_some());
    assert!(db.get(pinned).is_some());
    assert_eq!(db.cleanup(now), 0);
}

#[test]
fn cleanup_keeps_the_newest_entries() {
    let mut db = ClipboardDb::new();
    for i in 0..(MAX_ENTRIES as i64 + 5) {
        text(&mut db, "x", i, 1000 + i);
    }
    assert_eq!(db.cleanup(2000), 5);
    assert_eq!(db.count(), MAX_ENTRIES as i64);
    assert!(db.get_by_hash(4).is_none());
    assert!(db.get_by_hash(5).is_some());
    assert_eq!(db.cleanup(2000), 0);
}

#[test]
fn table_opens_only_with_ascending_ids_and_distinct_hashes() {
    assert!(ClipboardDb::open(vec![entry(1, 1), entry(5, 2)], 5).is_some());
    assert!(ClipboardDb::open(vec![entry(5, 1), entry(1, 2)], 5).is_none());
    assert!(ClipboardDb::open(vec![entry(1, 1), entry(2, 1)], 5).is_none());
    assert!(ClipboardDb::open(vec![entry(6, 1)], 5).is_none());
    assert!(ClipboardDb::open(vec![entry(0, 1)], 5).is_none());
    assert!(ClipboardDb::open(vec![], -1).is_none());
}

#[test]
fn full_table_refuses_entries() {
    let mut db = ClipboardDb::open(vec![entry(1, 1)], i64::MAX).unwrap();
    assert!(matches!(db.store(b"y", 2, "text/plain", None, 1), Err(DbError::Full)));
    assert!(matches!(db.store(b"x", 1, "text/plain", None, 9), Err(DbError::Full)));
    assert_eq!((db.count(), db.last_id()), (1, i64::MAX));
}

#[test]
fn letters_and_mime_types() {
    assert_eq!(lower_letter('A'), 'a');
    assert_eq!(lower_letter('Z'), 'z');
    assert_eq!(lower_letter('Ä'), 'Ä');
    assert!(is_mime("Image/PNG", "image/"));
    assert!(!is_mime("text/plain", "image/"));
}

//! The table of the clipboard history beside a database that holds the same.

use launcher::clip::db::{ClipboardDb, Entry};
use rusqlite::{Connection, OptionalExtension};

const COLUMNS: &str = "id, content, content_hash, mime, source_app, created_at, last_used, pinned";

type Plain = (i64, Vec<u8>, i64, String, Option<String>, i64, i64, bool);

fn open() -> Connection {
    let conn = Connection::open_in_memory().unwrap();
    conn.execute_batch(
        "CREATE TABLE entries (
            id            INTEGER PRIMARY KEY AUTOINCREMENT,
            content       BLOB NOT NULL,
            content_hash  INTEGER NOT NULL,
            mime          TEXT NOT NULL DEFAULT 'text/plain',
            source_app    TEXT,
            created_at    INTEGER NOT NULL,
            last_used     INTEGER NOT NULL,
            pinned        INTEGER NOT NULL DEFAULT 0
        );
        CREATE UNIQUE INDEX idx_hash ON entries(content_hash);
        CREATE INDEX idx_last_used ON entries(last_used);",
    )
    .unwrap();
    conn
}

fn rows(conn: &Connection, tail: &str) -> Vec<Plain> {
    let mut stmt = conn.prepare(&format!("SELECT {COLUMNS} FROM entries {tail}")).unwrap();
    let found = stmt
        .query_map((), |r| {
            Ok((
                r.get(0)?,
                r.get(1)?,
                r.get(2)?,
                r.get(3)?,
                r.get(4)?,
                r.get(5)?,
                r.get(6)?,
                r.get::<_, i64>(7)? != 0,
            ))
        })
        .unwrap();
    found.map(|r| r.unwrap()).collect()
}

fn plain(v: Vec<Entry>) -> Vec<Plain> {
    v.into_iter()
        .map(|e| {
            (
                e.id,
                e.content,
                e.content_hash,
                e.mime,
                e.source_app,
                e.created_at,
                e.last_used,
                e.pinned,
            )
        })
        .collect()
}

/// Rows without their content.
fn bare(v: Vec<Plain>) -> Vec<Plain> {
    v.into_iter().map(|r| (r.0, vec![], r.2, r.3, r.4, r.5, r.6, r.7)).collect()
}

fn id_of(conn: &Connection, hash: i64) -> i64 {
    conn.query_row("SELECT id FROM entries WHERE content_hash = ?1", (hash,), |r| r.get(0)).unwrap()
}

/// Runs the same operations on both and compares what they hold after each.
fn run(seed: u64, steps: usize) {
    let conn = open();
    let mut db = ClipboardDb::new();
    let mut state = seed;
    let mut next = |n: u64| {
        state = state.wrapping_mul(6364136223846793005).wrapping_add(1442695040888963407);
        (state >> 33) % n
    };
    let texts = ["Hello", "hello world", "a%b", "ÄÖ", "x"];
    let mimes = ["text/plain", "TEXT/html", "image/png", "application/pdf"];
    for _ in 0..steps {
        let hash = next(8) as i64;
        let now = 10_000_000 + next(6) as i64;
        let content = texts[next(5) as usize].as_bytes();
        let mime = mimes[next(4) as usize];
        let id = next(20) as i64;
        match next(6) {
            0 | 1 => {
                let app = if next(2) == 0 { None } else { Some("app") };
                conn.execute(
                    "INSERT INTO entries (content, content_hash, mime, source_app, created_at, last_used)
                     VALUES (?1, ?2, ?3, ?4, ?5, ?5)
                     ON CONFLICT(content_hash) DO UPDATE SET
                        last_used = excluded.last_used,
                        source_app = COALESCE(excluded.source_app, entries.source_app)",
                    (content, hash, mime, app, now),
                )
                .unwrap();
                assert_eq!(db.store(content, hash, mime, app, now).ok(), Some(id_of(&conn, hash)));
            }
            2 => {
                conn.execute(
                    "INSERT INTO entries (content, content_hash, mime, source_app, created_at, last_used)
                     VALUES (?1, ?2, ?3, NULL, ?4, ?5)
                     ON CONFLICT(content_hash) DO NOTHING",
                    (content, hash, mime, now - 5, now),
                )
                .unwrap();
                let r = db.store_with_timestamps(content, hash, mime, now - 5, now);
                assert_eq!(r.ok(), Some(id_of(&conn, hash)));
            }
            3 => {
                conn.execute("DELETE FROM entries WHERE id = ?1", (id,)).unwrap();
                db.delete(id);
            }
            4 => {
                conn.execute("UPDATE entries SET pinned = 1 - pinned WHERE id = ?1", (id,)).unwrap();
                let pinned: Option<bool> = conn
                    .query_row("SELECT pinned FROM entries WHERE id = ?1", (id,), |r| {
                        r.get::<_, i64>(0).map(|v| v != 0)
                    })
                    .optional()
                    .unwrap();
                assert_eq!(db.toggle_pin(id).ok(), pinned);
            }
            _ => {
                conn.execute("UPDATE entries SET last_used = ?1 WHERE id = ?2", (now, id)).unwrap();
                db.update_last_used(id, now);
            }
        }
        assert_eq!(plain(db.list(-1)), bare(rows(&conn, "ORDER BY last_used DESC LIMIT -1")));
        assert_eq!(plain(db.list(3)), bare(rows(&conn, "ORDER BY last_used DESC LIMIT 3")));
        assert_eq!(plain(db.entries()), rows(&conn, "ORDER BY id"));
        let held = "WHERE mime LIKE 'text/%' AND CAST(content AS TEXT) LIKE '%HELL%'
                    ORDER BY last_used DESC LIMIT 2";
        assert_eq!(plain(db.search("HELL", 2)), rows(&conn, held));
        let after: Vec<i64> = rows(&conn, "WHERE id > 4 ORDER BY id").into_iter().map(|r| r.2).collect();
        assert_eq!(db.hashes_after_id(4), after);
        let top: i64 = conn
            .query_row("SELECT COALESCE(MAX(id), 0) FROM entries", (), |r| r.get(0))
            .unwrap();
        assert_eq!(db.max_id(), top);
        let given: Option<i64> = conn
            .query_row("SELECT seq FROM sqlite_sequence WHERE name = 'entries'", (), |r| r.get(0))
            .optional()
            .unwrap();
        assert_eq!(db.last_id(), given.unwrap_or(0));
        let latest: i64 = conn
            .query_row("SELECT COALESCE(MAX(created_at), 0) FROM entries", (), |r| r.get(0))
            .unwrap();
        assert_eq!(db.max_created_at(), latest);
    }
}

#[test]
fn the_table_holds_what_the_database_holds() {
    for seed in 0..20 {
        run(seed, 60);
    }
}

#[test]
fn a_cleanup_removes_what_the_database_removes() {
    let conn = open();
    let mut db = ClipboardDb::new();
    let now: i64 = 100_000_000;
    for i in 0..1010i64 {
        let used = if i % 97 == 0 { now - 31 * 24 * 3600 } else { now - (i * 37) % 500 };
        conn.execute(
            "INSERT INTO entries (content, content_hash, mime, created_at, last_used)
             VALUES (?1, ?2, 'text/plain', ?3, ?3)",
            (b"x".as_slice(), i, used),
        )
        .unwrap();
        assert!(db.store_with_timestamps(b"x", i, "text/plain", used, used).is_ok());
    }
    for id in [1, 98, 500] {
        conn.execute("UPDATE entries SET pinned = 1 - pinned WHERE id = ?1", (id,)).unwrap();
        assert_eq!(db.toggle_pin(id).ok(), Some(true));
    }
    let gone = conn
        .execute(
            "DELETE FROM entries
             WHERE pinned = 0
               AND (id NOT IN (SELECT id FROM entries ORDER BY last_used DESC LIMIT ?1)
                    OR last_used < ?2)",
            (1000i64, now - 30 * 24 * 3600),
        )
        .unwrap();
    assert_eq!(db.cleanup(now), gone);
    assert_eq!(plain(db.list(-1)), bare(rows(&conn, "ORDER BY last_used DESC LIMIT -1")));
}

#[test]
fn pictures_are_listed_by_their_front() {
    let conn = open();
    let mut db = ClipboardDb::new();
    let big = vec![7u8; 70_000];
    for (hash, mime) in [(1i64, "image/png"), (2, "Image/jpeg"), (3, "text/plain")] {
        conn.execute(
            "INSERT INTO entries (content, content_hash, mime, created_at, last_used)
             VALUES (?1, ?2, ?3, 5, 5)",
            (big.as_slice(), hash, mime),
        )
        .unwrap();
        assert!(db.store(&big, hash, mime, None, 5).is_ok());
    }
    let mut stmt = conn
        .prepare(
            "SELECT id, CASE WHEN mime LIKE 'image/%' THEN substr(content, 1, 65536) ELSE content END
             FROM entries ORDER BY last_used DESC LIMIT 500",
        )
        .unwrap();
    let expected: Vec<(i64, usize)> = stmt
        .query_map((), |r| Ok((r.get(0)?, r.get::<_, Vec<u8>>(1)?.len())))
        .unwrap()
        .map(|r| r.unwrap())
        .collect();
    let listed: Vec<(i64, usize)> =
        db.list_meta(500).iter().map(|e| (e.id, e.content.len())).collect();
    assert_eq!(listed, expected);
}

#[test]
fn without_an_id_left_nothing_is_stored() {
    let conn = open();
    let insert = "INSERT INTO entries (content, content_hash, mime, created_at, last_used)
                  VALUES (?1, ?2, 'text/plain', ?3, ?3)
                  ON CONFLICT(content_hash) DO UPDATE SET last_used = excluded.last_used";
    conn.execute(insert, (b"x".as_slice(), 1i64, 5i64)).unwrap();
    conn.execute("UPDATE sqlite_sequence SET seq = ?1 WHERE name = 'entries'", (i64::MAX,)).unwrap();
    let held: Vec<Entry> = rows(&conn, "ORDER BY id")
        .into_iter()
        .map(|r| Entry {
            id: r.0,
            content: r.1,
            content_hash: r.2,
            mime: r.3,
            source_app: r.4,
            created_at: r.5,
            last_used: r.6,
            pinned: r.7,
        })
        .collect();
    let mut db = ClipboardDb::open(held, i64::MAX).unwrap();
    for hash in [1i64, 2] {
        assert!(conn.execute(insert, (b"x".as_slice(), hash, 9i64)).is_err());
        assert!(db.store(b"x", hash, "text/plain", None, 9).is_err());
        assert!(db.store_with_timestamps(b"x", hash, "text/plain", 9, 9).is_err());
    }
    assert_eq!(plain(db.entries()), rows(&conn, "ORDER BY id"));
}

//! The table of the clipboard history and all queries on it.
//!
//! The table is held here as plain rows in ascending order of their ids. Every
//! content hash occurs once, and an id that was given is not given again.

use crate::desktop::{copy_text, slice_text};
use crate::keyfile::text_of;
use crate::order::{ints, keys_of, rank, ranking, ranks};
use crate::path::{join, joined};
use crate::text::{ascii_lower, chars_of, code_point, lower_char};
use vstd::prelude::*;
use vstd::slice::{slice_subrange, slice_to_vec};
use vstd::string::StrSliceExecFns;
use vstd::utf8::encode_utf8;

verus! {

/// A single clipboard entry as stored in the table.
pub struct Entry {
    pub id: i64,
    pub content: Vec<u8>,
    pub content_hash: i64,
    pub mime: String,
    pub source_app: Option<String>,
    pub created_at: i64,
    pub last_used: i64,
    pub pinned: bool,
}

/// What a clipboard entry holds.
#[verifier::ext_equal]
pub struct Row {
    pub id: int,
    pub content: Seq<u8>,
    pub content_hash: int,
    pub mime: Seq<char>,
    pub source_app: Option<Seq<char>>,
    pub created_at: int,
    pub last_used: int,
    pub pinned: bool,
}

impl View for Entry {
    type V = Row;

    open spec fn view(&self) -> Row {
        Row {
            id: self.id as int,
            content: self.content@,
            content_hash: self.content_hash as int,
            mime: self.mime@,
            source_app: text_of(self.source_app),
            created_at: self.created_at as int,
            last_used: self.last_used as int,
            pinned: self.pinned,
        }
    }
}

/// What a list of entries holds.
pub open spec fn row_views(v: Seq<Entry>) -> Seq<Row> {
    v.map_values(|e: Entry| e@)
}

/// What an optional entry holds.
pub open spec fn row_view(o: Option<Entry>) -> Option<Row> {
    match o {
        Some(e) => Some(e@),
        None => None,
    }
}

impl Entry {
    /// The same entry once more.
    pub fn copy(&self) -> (r: Entry)
        ensures
            r@ == self@,
    {
        let r = Entry {
            id: self.id,
            content: slice_to_vec(self.content.as_slice()),
            content_hash: self.content_hash,
            mime: self.mime.clone(),
            source_app: copy_text(&self.source_app),
            created_at: self.created_at,
            last_used: self.last_used,
            pinned: self.pinned,
        };
        assert(r@ =~= self@);
        r
    }

    /// The same entry without its content.
    fn bare(&self) -> (r: Entry)
        ensures
            r@ == bare(self@),
    {
        let r = Entry {
            id: self.id,
            content: Vec::new(),
            content_hash: self.content_hash,
            mime: self.mime.clone(),
            source_app: copy_text(&self.source_app),
            created_at: self.created_at,
            last_used: self.last_used,
            pinned: self.pinned,
        };
        assert(r@ =~= bare(self@));
        r
    }
}

/// Maximum number of entries to keep.
pub const MAX_ENTRIES: usize = 1000;

/// Maximum age in seconds (30 days).
pub const MAX_AGE_SECS: i64 = 2592000;

/// Number of bytes of a picture that a listing keeps.
pub const META_BYTES: usize = 65536;

/// Why a request on the table was refused.
#[derive(Clone, Copy, PartialEq, Eq, Structural)]
pub enum DbError {
    /// There is no row of the given id.
    NoRow,
    /// No id is left for another row.
    Full,
}

/// Returns the path of the table's file: `clipd/db.sqlite` in the cache
/// directory, or else in `.cache` under the home directory, or else under `/tmp`.
pub fn default_db_path(cache_dir: Option<&str>, home: Option<&str>) -> (r: String)
    ensures
        r@ == joined(
            joined(
                match slice_text(cache_dir) {
                    Some(d) => d,
                    None => joined(
                        match slice_text(home) {
                            Some(h) => h,
                            None => "/tmp"@,
                        },
                        ".cache"@,
                    ),
                },
                "clipd"@,
            ),
            "db.sqlite"@,
        ),
{
    let cache = match cache_dir {
        Some(d) => d.to_owned(),
        None => match home {
            Some(h) => join(h, ".cache"),
            None => join("/tmp", ".cache"),
        },
    };
    let dir = join(cache.as_str(), "clipd");
    join(dir.as_str(), "db.sqlite")
}

/// What the table holds: its rows and the highest id ever given.
#[verifier::ext_equal]
pub struct Table {
    pub rows: Seq<Row>,
    pub last_id: int,
}

/// The table of the clipboard history.
pub struct ClipboardDb {
    rows: Vec<Entry>,
    last_id: i64,
}

impl View for ClipboardDb {
    type V = Table;

    closed spec fn view(&self) -> Table {
        Table { rows: row_views(self.rows@), last_id: self.last_id as int }
    }
}

impl Table {
    /// Ids ascend from one up to the highest ever given, hashes differ.
    pub open spec fn valid(self) -> bool {
        &&& 0 <= self.last_id <= i64::MAX
        &&& forall|i: int|
            0 <= i < self.rows.len() ==> 1 <= (#[trigger] self.rows[i]).id <= self.last_id
        &&& forall|i: int, j: int|
            0 <= i < j < self.rows.len() ==> (#[trigger] self.rows[i]).id < (
            #[trigger] self.rows[j]).id
        &&& forall|i: int, j: int|
            0 <= i < j < self.rows.len() ==> (#[trigger] self.rows[i]).content_hash != (
            #[trigger] self.rows[j]).content_hash
    }

    /// Whether some row has the hash.
    pub open spec fn has_hash(self, hash: int) -> bool {
        exists|i: int| 0 <= i < self.rows.len() && (#[trigger] self.rows[i]).content_hash == hash
    }
}

/// The position of the first row with a hash, or the number of rows.
pub open spec fn hash_at(rows: Seq<Row>, hash: int) -> int
    decreases rows.len(),
{
    if rows.len() == 0 || rows[0].content_hash == hash {
        0
    } else {
        1 + hash_at(rows.drop_first(), hash)
    }
}

/// The position of the first row with an id, or the number of rows.
pub open spec fn id_at(rows: Seq<Row>, id: int) -> int
    decreases rows.len(),
{
    if rows.len() == 0 || rows[0].id == id {
        0
    } else {
        1 + id_at(rows.drop_first(), id)
    }
}

/// A row after its content was copied once more: used now, from the
/// application that is known of the later copy, else from that of the earlier.
pub open spec fn bumped(r: Row, source_app: Option<Seq<char>>, now: int) -> Row {
    Row {
        last_used: now,
        source_app: match source_app {
            Some(a) => Some(a),
            None => r.source_app,
        },
        ..r
    }
}

/// The table with a row added under the next id.
pub open spec fn appended(t: Table, row: Row) -> Table {
    Table { rows: t.rows.push(Row { id: t.last_id + 1, ..row }), last_id: t.last_id + 1 }
}

/// A row that no application is known of and nobody has pinned.
pub open spec fn fresh_row(
    content: Seq<u8>,
    hash: int,
    mime: Seq<char>,
    source_app: Option<Seq<char>>,
    created_at: int,
    last_used: int,
) -> Row {
    Row { id: 0, content, content_hash: hash, mime, source_app, created_at, last_used, pinned: false }
}

/// The table after content was copied: its row bumped if there is one with
/// the hash, else the row added. An id is given away either way; without one
/// left nothing happens.
pub open spec fn stored(t: Table, row: Row) -> Table {
    let at = hash_at(t.rows, row.content_hash);
    if t.last_id == i64::MAX {
        t
    } else if at < t.rows.len() {
        Table {
            rows: t.rows.update(at, bumped(t.rows[at], row.source_app, row.last_used)),
            last_id: t.last_id + 1,
        }
    } else {
        appended(t, row)
    }
}

/// The table after content was brought in from elsewhere: the row added if
/// there is none with the hash. An id is given away either way; without one left
/// nothing happens.
pub open spec fn imported(t: Table, row: Row) -> Table {
    if t.last_id == i64::MAX {
        t
    } else if hash_at(t.rows, row.content_hash) < t.rows.len() {
        Table { last_id: t.last_id + 1, ..t }
    } else {
        appended(t, row)
    }
}

/// The id under which content with a hash is kept once it was stored.
pub open spec fn stored_id(t: Table, hash: int) -> Result<i64, DbError> {
    let at = hash_at(t.rows, hash);
    if t.last_id == i64::MAX {
        Err(DbError::Full)
    } else if at < t.rows.len() {
        Ok(t.rows[at].id as i64)
    } else {
        Ok((t.last_id + 1) as i64)
    }
}

/// The rows in the order of their last use, latest first; of rows used at the
/// same time, the later one first.
pub open spec fn newest_first(rows: Seq<Row>) -> Seq<Row> {
    let back = rows.reverse();
    ranking::<i128>(back.map_values(|r: Row| -r.last_used)).map_values(|i: int| back[i])
}

/// The front of a list; all of it if the limit is negative.
pub open spec fn limited<A>(s: Seq<A>, limit: int) -> Seq<A> {
    if 0 <= limit < s.len() {
        s.take(limit)
    } else {
        s
    }
}

/// A byte with an upper-case letter's replaced by the lower-case one's.
pub open spec fn lower_byte(b: u8) -> u8 {
    if 65 <= b <= 90 {
        (b + 32) as u8
    } else {
        b
    }
}

/// Bytes without case.
pub open spec fn lower_bytes(s: Seq<u8>) -> Seq<u8> {
    s.map_values(|b: u8| lower_byte(b))
}

/// Whether a mime type is of a kind, whatever its case.
pub open spec fn mime_is(mime: Seq<char>, kind: Seq<char>) -> bool {
    kind.is_prefix_of(ascii_lower(mime))
}

/// Whether `needle` stands in `hay` at position `i`.
pub open spec fn bytes_at(hay: Seq<u8>, needle: Seq<u8>, i: int) -> bool {
    0 <= i && i + needle.len() <= hay.len() && hay.subrange(i, i + needle.len()) == needle
}

/// Whether a row is text that holds the query, whatever the case of the
/// letters A to Z.
pub open spec fn found(r: Row, query: Seq<char>) -> bool {
    mime_is(r.mime, "text/"@) && exists|i: int|
        bytes_at(lower_bytes(r.content), lower_bytes(encode_utf8(query)), i)
}

/// A row without its content.
pub open spec fn bare(r: Row) -> Row {
    Row { content: Seq::empty(), ..r }
}

/// A row with the content of a picture cut to its front.
pub open spec fn meta(r: Row) -> Row {
    if mime_is(r.mime, "image/"@) && r.content.len() > META_BYTES {
        Row { content: r.content.take(META_BYTES as int), ..r }
    } else {
        r
    }
}

/// The latest creation time among rows, or zero without rows.
pub open spec fn latest_created(rows: Seq<Row>) -> int
    decreases rows.len(),
{
    if rows.len() == 0 {
        0
    } else if rows.len() == 1 {
        rows[0].created_at
    } else {
        let before = latest_created(rows.drop_last());
        if rows.last().created_at > before {
            rows.last().created_at
        } else {
            before
        }
    }
}

/// Whether a cleanup keeps a row: it is pinned, or it is among those used
/// last and was used since the cutoff.
pub open spec fn kept(rows: Seq<Row>, r: Row, cutoff: int) -> bool {
    r.pinned || (r.last_used >= cutoff && limited(
        newest_first(rows),
        MAX_ENTRIES as int,
    ).contains(r))
}

/// What `hash_at` finds.
proof fn hash_at_found(rows: Seq<Row>, hash: int)
    ensures
        0 <= hash_at(rows, hash) <= rows.len(),
        hash_at(rows, hash) < rows.len() ==> rows[hash_at(rows, hash)].content_hash == hash,
        forall|i: int| 0 <= i < hash_at(rows, hash) ==> (#[trigger] rows[i]).content_hash != hash,
    decreases rows.len(),
{
    if rows.len() > 0 && rows[0].content_hash != hash {
        let rest = rows.drop_first();
        hash_at_found(rest, hash);
        assert forall|i: int| 0 <= i < hash_at(rows, hash) implies (#[trigger] rows[i]).content_hash
            != hash by {
            if i > 0 {
                assert(rest[i - 1] == rows[i]);
            }
        }
    }
}

/// What `id_at` finds.
proof fn id_at_found(rows: Seq<Row>, id: int)
    ensures
        0 <= id_at(rows, id) <= rows.len(),
        id_at(rows, id) < rows.len() ==> rows[id_at(rows, id)].id == id,
        forall|i: int| 0 <= i < id_at(rows, id) ==> (#[trigger] rows[i]).id != id,
    decreases rows.len(),
{
    if rows.len() > 0 && rows[0].id != id {
        let rest = rows.drop_first();
        id_at_found(rest, id);
        assert forall|i: int| 0 <= i < id_at(rows, id) implies (#[trigger] rows[i]).id != id by {
            if i > 0 {
                assert(rest[i - 1] == rows[i]);
            }
        }
    }
}

/// There are no more rows than ids were given.
pub proof fn rows_fit(t: Table)
    requires
        t.valid(),
    ensures
        t.rows.len() <= t.last_id,
{
    if t.rows.len() > 0 {
        id_exceeds_position(t, t.rows.len() - 1);
    }
}

proof fn id_exceeds_position(t: Table, i: int)
    requires
        t.valid(),
        0 <= i < t.rows.len(),
    ensures
        t.rows[i].id > i,
    decreases i,
{
    if i > 0 {
        id_exceeds_position(t, i - 1);
    }
}

fn lower(b: u8) -> (r: u8)
    ensures
        r == lower_byte(b),
{
    if 65 <= b && b <= 90 {
        b + 32
    } else {
        b
    }
}

/// Replaces an upper-case letter by the lower-case one, for A to Z alone.
pub fn lower_letter(c: char) -> (r: char)
    ensures
        r == lower_char(c),
{
    let n: u32 = code_point(c);
    if 65 <= n && n <= 90 {
        let b: u8 = n as u8;
        (b + 32) as char
    } else {
        c
    }
}

fn lower_all(s: &[u8]) -> (r: Vec<u8>)
    ensures
        r@ == lower_bytes(s@),
{
    let mut r: Vec<u8> = Vec::new();
    let mut i: usize = 0;
    while i < s.len()
        invariant
            i <= s.len(),
            r@ == lower_bytes(s@).take(i as int),
        decreases s.len() - i,
    {
        r.push(lower(s[i]));
        i = i + 1;
    }
    assert(lower_bytes(s@).take(s@.len() as int) == lower_bytes(s@));
    r
}

/// Whether a mime type is of a kind, whatever its case.
pub fn is_mime(mime: &str, kind: &str) -> (r: bool)
    ensures
        r == mime_is(mime@, kind@),
{
    let m = chars_of(mime);
    let k = chars_of(kind);
    let ghost low = ascii_lower(mime@);
    if k.len() > m.len() {
        return false;
    }
    let mut i: usize = 0;
    while i < k.len()
        invariant
            i <= k.len() <= m.len(),
            m@ == mime@,
            k@ == kind@,
            low == ascii_lower(mime@),
            forall|j: int| 0 <= j < i ==> low[j] == #[trigger] k@[j],
        decreases k.len() - i,
    {
        if lower_letter(m[i]) != k[i] {
            assert(low[i as int] != k@[i as int]);
            assert(!kind@.is_prefix_of(low)) by {
                if kind@.is_prefix_of(low) {
                    assert(low.subrange(0, kind@.len() as int)[i as int] == kind@[i as int]);
                }
            }
            return false;
        }
        i = i + 1;
    }
    assert(kind@ =~= low.subrange(0, kind@.len() as int));
    true
}

fn matches_at(hay: &[u8], needle: &[u8], i: usize) -> (r: bool)
    requires
        i + needle.len() <= hay.len(),
    ensures
        r == bytes_at(hay@, needle@, i as int),
{
    let mut j: usize = 0;
    while j < needle.len()
        invariant
            j <= needle.len(),
            i + needle.len() <= hay.len(),
            forall|k: int| 0 <= k < j ==> hay@[i + k] == #[trigger] needle@[k],
        decreases needle.len() - j,
    {
        if hay[i + j] != needle[j] {
            assert(hay@.subrange(i as int, i + needle@.len())[j as int] != needle@[j as int]);
            return false;
        }
        j = j + 1;
    }
    assert(hay@.subrange(i as int, i + needle@.len()) == needle@);
    true
}

fn holds(hay: &[u8], needle: &[u8]) -> (r: bool)
    ensures
        r == exists|i: int| bytes_at(hay@, needle@, i),
{
    if needle.len() > hay.len() {
        return false;
    }
    let last: usize = hay.len() - needle.len();
    let mut i: usize = 0;
    while i < last
        invariant
            i <= last,
            last == hay@.len() - needle@.len(),
            forall|j: int| 0 <= j < i ==> !bytes_at(hay@, needle@, j),
        decreases last - i,
    {
        if matches_at(hay, needle, i) {
            return true;
        }
        i = i + 1;
    }
    matches_at(hay, needle, last)
}

impl ClipboardDb {
    /// An empty table.
    pub fn new() -> (r: ClipboardDb)
        ensures
            r@ == (Table { rows: Seq::empty(), last_id: 0 }),
            r@.valid(),
    {
        let r = ClipboardDb { rows: Vec::new(), last_id: 0 };
        assert(r@ =~= (Table { rows: Seq::empty(), last_id: 0 }));
        r
    }

    /// Opens a table that was read from its file: its rows in ascending order
    /// of their ids, and the highest id ever given. Nothing is opened if the
    /// rows are not those of such a table.
    pub fn open(rows: Vec<Entry>, last_id: i64) -> (r: Option<ClipboardDb>)
        ensures
            r is Some <==> (Table { rows: row_views(rows@), last_id: last_id as int }).valid(),
            r matches Some(db) ==> db@ == (Table {
                rows: row_views(rows@),
                last_id: last_id as int,
            }),
    {
        let ghost t = Table { rows: row_views(rows@), last_id: last_id as int };
        if last_id < 0 {
            return None;
        }
        let mut i: usize = 0;
        while i < rows.len()
            invariant
                i <= rows.len(),
                t.rows == row_views(rows@),
                t.last_id == last_id,
                forall|a: int| 0 <= a < i ==> 1 <= (#[trigger] t.rows[a]).id <= t.last_id,
                forall|a: int, b: int|
                    0 <= a < b < i ==> (#[trigger] t.rows[a]).id < (#[trigger] t.rows[b]).id,
                forall|a: int, b: int|
                    0 <= a < b < i ==> (#[trigger] t.rows[a]).content_hash != (
                    #[trigger] t.rows[b]).content_hash,
            decreases rows.len() - i,
        {
            assert(t.rows[i as int] == rows@[i as int]@);
            if rows[i].id < 1 || rows[i].id > last_id {
                return None;
            }
            let mut j: usize = 0;
            while j < i
                invariant
                    j <= i < rows.len(),
                    t.rows == row_views(rows@),
                    forall|a: int|
                        0 <= a < j ==> (#[trigger] t.rows[a]).id < t.rows[i as int].id
                            && t.rows[a].content_hash != t.rows[i as int].content_hash,
                decreases i - j,
            {
                assert(t.rows[i as int] == rows@[i as int]@);
                assert(t.rows[j as int] == rows@[j as int]@);
                if rows[j].id >= rows[i].id || rows[j].content_hash == rows[i].content_hash {
                    return None;
                }
                j = j + 1;
            }
            i = i + 1;
        }
        Some(ClipboardDb { rows, last_id })
    }

    fn find_hash(&self, hash: i64) -> (r: usize)
        ensures
            r == hash_at(self@.rows, hash as int),
            r <= self.rows@.len(),
    {
        let ghost rows = self@.rows;
        let mut i: usize = 0;
        assert(rows.skip(0) == rows);
        while i < self.rows.len() && self.rows[i].content_hash != hash
            invariant
                i <= self.rows@.len(),
                rows == row_views(self.rows@),
                hash_at(rows, hash as int) == i + hash_at(rows.skip(i as int), hash as int),
            decreases self.rows@.len() - i,
        {
            assert(rows.skip(i as int).drop_first() == rows.skip(i + 1));
            assert(rows[i as int] == self.rows@[i as int]@);
            i = i + 1;
        }
        proof {
            if i < rows.len() {
                assert(rows.skip(i as int)[0] == self.rows@[i as int]@);
            }
        }
        i
    }

    fn find_id(&self, id: i64) -> (r: usize)
        ensures
            r == id_at(self@.rows, id as int),
            r <= self.rows@.len(),
    {
        let ghost rows = self@.rows;
        let mut i: usize = 0;
        assert(rows.skip(0) == rows);
        while i < self.rows.len() && self.rows[i].id != id
            invariant
                i <= self.rows@.len(),
                rows == row_views(self.rows@),
                id_at(rows, id as int) == i + id_at(rows.skip(i as int), id as int),
            decreases self.rows@.len() - i,
        {
            assert(rows.skip(i as int).drop_first() == rows.skip(i + 1));
            assert(rows[i as int] == self.rows@[i as int]@);
            i = i + 1;
        }
        proof {
            if i < rows.len() {
                assert(rows.skip(i as int)[0] == self.rows@[i as int]@);
            }
        }
        i
    }

    fn append(&mut self, e: Entry) -> (r: i64)
        requires
            old(self)@.valid(),
            old(self)@.last_id < i64::MAX,
            !old(self)@.has_hash(e.content_hash as int),
        ensures
            final(self)@.valid(),
            r == old(self)@.last_id + 1,
            final(self)@ == appended(old(self)@, e@),
    {
        let ghost t = self@;
        let id: i64 = self.last_id + 1;
        let row = Entry { id, ..e };
        let ghost head = self.rows@;
        self.rows.push(row);
        self.last_id = id;
        proof {
            assert(row@ =~= (Row { id: id as int, ..e@ }));
            assert(row_views(self.rows@) == row_views(head).push(row@));
            assert(self@ =~= appended(t, e@));
            let u = appended(t, e@);
            assert forall|a: int, b: int| 0 <= a < b < u.rows.len() implies (
            #[trigger] u.rows[a]).content_hash != (#[trigger] u.rows[b]).content_hash by {
                assert(u.rows[a] == t.rows[a]);
            }
        }
        id
    }

    /// Stores a new clipboard entry, or bumps `last_used` if the content is
    /// there already. Returns the row id, new or existing.
    pub fn store(
        &mut self,
        content: &[u8],
        content_hash: i64,
        mime: &str,
        source_app: Option<&str>,
        now: i64,
    ) -> (r: Result<i64, DbError>)
        requires
            old(self)@.valid(),
        ensures
            final(self)@.valid(),
            r == stored_id(old(self)@, content_hash as int),
            final(self)@ == stored(
                old(self)@,
                fresh_row(
                    content@,
                    content_hash as int,
                    mime@,
                    slice_text(source_app),
                    now as int,
                    now as int,
                ),
            ),
    {
        if self.last_id == i64::MAX {
            return Err(DbError::Full);
        }
        let ghost t = self@;
        let at: usize = self.find_hash(content_hash);
        proof {
            hash_at_found(t.rows, content_hash as int);
        }
        if at < self.rows.len() {
            assert(t.rows[at as int] == self.rows@[at as int]@);
            let ghost before = self.rows@;
            let mut e = self.rows[at].copy();
            e.last_used = now;
            match source_app {
                Some(a) => {
                    e.source_app = Some(a.to_owned());
                },
                None => {},
            }
            let id: i64 = e.id;
            self.rows.set(at, e);
            self.last_id = self.last_id + 1;
            proof {
                assert(e@ =~= bumped(t.rows[at as int], slice_text(source_app), now as int));
                assert(row_views(self.rows@) == row_views(before).update(at as int, e@));
                let u = self@;
                assert forall|a: int| 0 <= a < u.rows.len() implies (#[trigger] u.rows[a]).id
                    == t.rows[a].id && u.rows[a].content_hash == t.rows[a].content_hash by {}
            }
            return Ok(id);
        }
        let source = match source_app {
            Some(a) => Some(a.to_owned()),
            None => None,
        };
        let e = Entry {
            id: 0,
            content: slice_to_vec(content),
            content_hash,
            mime: mime.to_owned(),
            source_app: source,
            created_at: now,
            last_used: now,
            pinned: false,
        };
        assert(e@ =~= fresh_row(
            content@,
            content_hash as int,
            mime@,
            slice_text(source_app),
            now as int,
            now as int,
        ));
        Ok(self.append(e))
    }

    /// Stores an entry with explicit timestamps; content that is there already
    /// stays as it is. Returns the row id, new or existing.
    pub fn store_with_timestamps(
        &mut self,
        content: &[u8],
        content_hash: i64,
        mime: &str,
        created_at: i64,
        last_used: i64,
    ) -> (r: Result<i64, DbError>)
        requires
            old(self)@.valid(),
        ensures
            final(self)@.valid(),
            r == stored_id(old(self)@, content_hash as int),
            final(self)@ == imported(
                old(self)@,
                fresh_row(
                    content@,
                    content_hash as int,
                    mime@,
                    None,
                    created_at as int,
                    last_used as int,
                ),
            ),
    {
        if self.last_id == i64::MAX {
            return Err(DbError::Full);
        }
        let ghost t = self@;
        let at: usize = self.find_hash(content_hash);
        proof {
            hash_at_found(t.rows, content_hash as int);
        }
        if at < self.rows.len() {
            assert(t.rows[at as int] == self.rows@[at as int]@);
            self.last_id = self.last_id + 1;
            assert(self@ =~= (Table { last_id: t.last_id + 1, ..t }));
            return Ok(self.rows[at].id);
        }
        let e = Entry {
            id: 0,
            content: slice_to_vec(content),
            content_hash,
            mime: mime.to_owned(),
            source_app: None,
            created_at,
            last_used,
            pinned: false,
        };
        assert(e@ =~= fresh_row(
            content@,
            content_hash as int,
            mime@,
            None,
            created_at as int,
            last_used as int,
        ));
        Ok(self.append(e))
    }
}

/// The rows in the order of their last use are those of the table.
proof fn newest_first_keeps_rows(rows: Seq<Row>, order: Seq<int>)
    requires
        ranks::<i128>(order, rows.reverse().map_values(|r: Row| -r.last_used)),
    ensures
        newest_first(rows).len() == rows.len(),
        forall|k: int|
            0 <= k < rows.len() ==> 0 <= #[trigger] order[k] < rows.len() && newest_first(rows)[k]
                == rows[rows.len() - 1 - order[k]],
{
    crate::order::ranking_is::<i128>(order, rows.reverse().map_values(|r: Row| -r.last_used));
    assert forall|k: int| 0 <= k < rows.len() implies 0 <= #[trigger] order[k] < rows.len()
        && newest_first(rows)[k] == rows[rows.len() - 1 - order[k]] by {
        assert(rows.reverse()[order[k]] == rows[rows.len() - 1 - order[k]]);
    }
}

impl ClipboardDb {
    /// The positions of the rows in the order of their last use.
    fn newest(&self) -> (r: Vec<usize>)
        ensures
            r@.len() == self.rows@.len(),
            forall|k: int|
                0 <= k < r@.len() ==> #[trigger] r@[k] < self.rows@.len() && newest_first(
                    self@.rows,
                )[k] == self.rows@[r@[k] as int]@,
            newest_first(self@.rows).len() == self.rows@.len(),
            forall|i: int| 0 <= i < self.rows@.len() ==> #[trigger] ints(r@).contains(i),
    {
        let n: usize = self.rows.len();
        let ghost rows = self@.rows;
        let ghost back = rows.reverse();
        let mut keys: Vec<i128> = Vec::new();
        let mut i: usize = 0;
        while i < n
            invariant
                i <= n == self.rows@.len(),
                rows == row_views(self.rows@),
                back == rows.reverse(),
                keys@.len() == i,
                forall|j: int| 0 <= j < i ==> #[trigger] keys@[j] as int == -back[j].last_used,
            decreases n - i,
        {
            assert(back[i as int] == self.rows@[n - 1 - i]@);
            keys.push(-(self.rows[n - 1 - i].last_used as i128));
            i = i + 1;
        }
        assert(keys_of(keys@) == back.map_values(|r: Row| -r.last_used));
        let order = rank(&keys);
        proof {
            newest_first_keeps_rows(rows, ints(order@));
        }
        let mut r: Vec<usize> = Vec::new();
        let mut k: usize = 0;
        while k < n
            invariant
                k <= n == self.rows@.len(),
                order@.len() == n,
                rows == row_views(self.rows@),
                forall|j: int|
                    0 <= j < n ==> 0 <= #[trigger] ints(order@)[j] < n && newest_first(rows)[j]
                        == rows[n - 1 - ints(order@)[j]],
                r@.len() == k,
                forall|j: int| 0 <= j < k ==> #[trigger] r@[j] == n - 1 - ints(order@)[j],
            decreases n - k,
        {
            assert(ints(order@)[k as int] == order@[k as int] as int);
            r.push(n - 1 - order[k]);
            k = k + 1;
        }
        proof {
            assert forall|k: int| 0 <= k < r@.len() implies #[trigger] r@[k] < self.rows@.len()
                && newest_first(self@.rows)[k] == self.rows@[r@[k] as int]@ by {
                assert(0 <= ints(order@)[k] < n);
                assert(rows[r@[k] as int] == self.rows@[r@[k] as int]@);
            }
            assert forall|i: int| 0 <= i < self.rows@.len() implies #[trigger] ints(
                r@,
            ).contains(i) by {
                assert(ints(order@).contains(n - 1 - i));
                let k = choose|k: int| 0 <= k < order@.len() && ints(order@)[k] == n - 1 - i;
                assert(ints(r@)[k] == i);
            }
        }
        r
    }

    /// All entries with their content, in ascending order of their ids.
    pub fn entries(&self) -> (r: Vec<Entry>)
        ensures
            row_views(r@) == self@.rows,
    {
        let mut r: Vec<Entry> = Vec::new();
        let mut i: usize = 0;
        while i < self.rows.len()
            invariant
                i <= self.rows@.len(),
                r@.len() == i,
                forall|j: int| 0 <= j < i ==> (#[trigger] r@[j])@ == self.rows@[j]@,
            decreases self.rows.len() - i,
        {
            r.push(self.rows[i].copy());
            i = i + 1;
        }
        assert(row_views(r@) =~= self@.rows);
        r
    }

    /// Lists entries ordered by their last use, latest first, without their
    /// content. A negative limit is none.
    pub fn list(&self, limit: i64) -> (r: Vec<Entry>)
        ensures
            row_views(r@) == limited(newest_first(self@.rows), limit as int).map_values(
                |r: Row| bare(r),
            ),
    {
        let order = self.newest();
        let ghost all = newest_first(self@.rows);
        let n: usize = limit_of(order.len(), limit);
        let mut r: Vec<Entry> = Vec::new();
        let mut k: usize = 0;
        while k < n
            invariant
                k <= n <= order@.len(),
                forall|k: int|
                    0 <= k < order@.len() ==> #[trigger] order@[k] < self.rows@.len() && all[k]
                        == self.rows@[order@[k] as int]@,
                r@.len() == k,
                forall|j: int| 0 <= j < k ==> (#[trigger] r@[j])@ == bare(all[j]),
            decreases n - k,
        {
            r.push(self.rows[order[k]].bare());
            k = k + 1;
        }
        assert(row_views(r@) =~= limited(all, limit as int).map_values(|r: Row| bare(r)));
        r
    }

    /// Like [`list`](Self::list), but with content: of pictures only its front,
    /// enough to read their dimensions.
    pub fn list_meta(&self, limit: i64) -> (r: Vec<Entry>)
        ensures
            row_views(r@) == limited(newest_first(self@.rows), limit as int).map_values(
                |r: Row| meta(r),
            ),
    {
        let order = self.newest();
        let ghost all = newest_first(self@.rows);
        let n: usize = limit_of(order.len(), limit);
        let mut r: Vec<Entry> = Vec::new();
        let mut k: usize = 0;
        while k < n
            invariant
                k <= n <= order@.len(),
                forall|k: int|
                    0 <= k < order@.len() ==> #[trigger] order@[k] < self.rows@.len() && all[k]
                        == self.rows@[order@[k] as int]@,
                r@.len() == k,
                forall|j: int| 0 <= j < k ==> (#[trigger] r@[j])@ == meta(all[j]),
            decreases n - k,
        {
            r.push(meta_of(&self.rows[order[k]]));
            k = k + 1;
        }
        assert(row_views(r@) =~= limited(all, limit as int).map_values(|r: Row| meta(r)));
        r
    }

    /// Searches entries by text content, whatever the case, latest used first.
    /// A negative limit is none.
    pub fn search(&self, query: &str, limit: i64) -> (r: Vec<Entry>)
        ensures
            row_views(r@) == limited(
                newest_first(self@.rows).filter(|r: Row| found(r, query@)),
                limit as int,
            ),
    {
        let order = self.newest();
        let ghost all = newest_first(self@.rows);
        let ghost pred = |r: Row| found(r, query@);
        let needle = lower_all(query.as_bytes());
        let mut r: Vec<Entry> = Vec::new();
        let mut k: usize = 0;
        proof {
            reveal(Seq::filter);
        }
        assert(row_views(r@) == all.take(0).filter(pred));
        while k < order.len()
            invariant
                k <= order@.len(),
                all.len() == order@.len(),
                pred == (|r: Row| found(r, query@)),
                needle@ == lower_bytes(encode_utf8(query@)),
                forall|k: int|
                    0 <= k < order@.len() ==> #[trigger] order@[k] < self.rows@.len() && all[k]
                        == self.rows@[order@[k] as int]@,
                row_views(r@) == all.take(k as int).filter(pred),
            decreases order.len() - k,
        {
            proof {
                reveal(Seq::filter);
                assert(all.take(k + 1).drop_last() == all.take(k as int));
                assert(all.take(k + 1).last() == all[k as int]);
            }
            let e = &self.rows[order[k]];
            let ghost head = r@;
            let low = lower_all(e.content.as_slice());
            let h = holds(low.as_slice(), needle.as_slice());
            assert(low@ == lower_bytes(e@.content));
            let m = is_mime(e.mime.as_str(), "text/");
            let hit = m && h;
            assert(hit == found(e@, query@));
            assert(pred(all[k as int]) == hit);
            if hit {
                r.push(e.copy());
                assert(row_views(r@) == row_views(head).push(e@));
            }
            k = k + 1;
        }
        assert(all.take(all.len() as int) == all);
        let ghost hits = r@;
        let n: usize = limit_of(r.len(), limit);
        r.truncate(n);
        assert(row_views(r@) =~= limited(row_views(hits), limit as int));
        r
    }

    /// Gets a single entry by id.
    pub fn get(&self, id: i64) -> (r: Option<Entry>)
        ensures
            row_view(r) == (if id_at(self@.rows, id as int) < self@.rows.len() {
                Some(self@.rows[id_at(self@.rows, id as int)])
            } else {
                None
            }),
    {
        let at: usize = self.find_id(id);
        if at < self.rows.len() {
            assert(self@.rows[at as int] == self.rows@[at as int]@);
            Some(self.rows[at].copy())
        } else {
            None
        }
    }

    /// Gets a single entry by its content hash, of which there is at most one.
    pub fn get_by_hash(&self, content_hash: i64) -> (r: Option<Entry>)
        ensures
            row_view(r) == (if hash_at(self@.rows, content_hash as int) < self@.rows.len() {
                Some(self@.rows[hash_at(self@.rows, content_hash as int)])
            } else {
                None
            }),
    {
        let at: usize = self.find_hash(content_hash);
        if at < self.rows.len() {
            assert(self@.rows[at as int] == self.rows@[at as int]@);
            Some(self.rows[at].copy())
        } else {
            None
        }
    }

    /// All content hashes currently stored, in the order of the rows.
    pub fn all_hashes(&self) -> (r: Vec<i64>)
        ensures
            hash_ints(r@) == self@.rows.map_values(|r: Row| r.content_hash),
    {
        let mut r: Vec<i64> = Vec::new();
        let mut i: usize = 0;
        while i < self.rows.len()
            invariant
                i <= self.rows@.len(),
                r@.len() == i,
                forall|j: int| 0 <= j < i ==> #[trigger] r@[j] == self.rows@[j].content_hash,
            decreases self.rows.len() - i,
        {
            r.push(self.rows[i].content_hash);
            i = i + 1;
        }
        assert(hash_ints(r@) == self@.rows.map_values(|r: Row| r.content_hash));
        r
    }

    /// The highest row id currently in the table, or 0 if empty.
    pub fn max_id(&self) -> (r: i64)
        requires
            self@.valid(),
        ensures
            self@.rows.len() == 0 ==> r == 0,
            self@.rows.len() > 0 ==> r == self@.rows.last().id,
            forall|i: int| 0 <= i < self@.rows.len() ==> (#[trigger] self@.rows[i]).id <= r,
    {
        let n: usize = self.rows.len();
        assert(self@.rows.len() == n);
        if n == 0 {
            0
        } else {
            assert(self@.rows[n - 1] == self.rows@[n - 1]@);
            self.rows[n - 1].id
        }
    }

    /// Content hashes of all rows with an id strictly greater than `after_id`,
    /// in the order of their ids.
    pub fn hashes_after_id(&self, after_id: i64) -> (r: Vec<i64>)
        ensures
            hash_ints(r@) == self@.rows.filter(|r: Row| r.id > after_id).map_values(
                |r: Row| r.content_hash,
            ),
    {
        let ghost rows = self@.rows;
        let ghost pred = |r: Row| r.id > after_id;
        let mut r: Vec<i64> = Vec::new();
        let mut i: usize = 0;
        proof {
            reveal(Seq::filter);
        }
        assert(hash_ints(r@) == rows.take(0).filter(pred).map_values(|r: Row| r.content_hash));
        while i < self.rows.len()
            invariant
                i <= self.rows@.len(),
                rows == row_views(self.rows@),
                pred == (|r: Row| r.id > after_id),
                hash_ints(r@) == rows.take(i as int).filter(pred).map_values(
                    |r: Row| r.content_hash,
                ),
            decreases self.rows.len() - i,
        {
            proof {
                reveal(Seq::filter);
                assert(rows.take(i + 1).drop_last() == rows.take(i as int));
                assert(rows.take(i + 1).last() == self.rows@[i as int]@);
            }
            let ghost head = r@;
            if self.rows[i].id > after_id {
                r.push(self.rows[i].content_hash);
                assert(hash_ints(r@) == hash_ints(head).push(rows[i as int].content_hash));
                assert(rows.take(i + 1).filter(pred).map_values(|r: Row| r.content_hash)
                    == rows.take(i as int).filter(pred).map_values(|r: Row| r.content_hash).push(
                    rows[i as int].content_hash,
                ));
            }
            i = i + 1;
        }
        assert(rows.take(rows.len() as int) == rows);
        r
    }

    /// The most recent `created_at` across all entries, or 0 if empty.
    pub fn max_created_at(&self) -> (r: i64)
        ensures
            r == latest_created(self@.rows),
    {
        let ghost rows = self@.rows;
        let mut r: i64 = 0;
        let mut i: usize = 0;
        while i < self.rows.len()
            invariant
                i <= self.rows@.len(),
                rows == row_views(self.rows@),
                r == latest_created(rows.take(i as int)),
            decreases self.rows.len() - i,
        {
            proof {
                assert(rows.take(i + 1).drop_last() == rows.take(i as int));
                assert(rows.take(i + 1).last() == self.rows@[i as int]@);
                assert(rows.take(i + 1)[0] == rows[0]);
            }
            if i == 0 || self.rows[i].created_at > r {
                r = self.rows[i].created_at;
            }
            i = i + 1;
        }
        assert(rows.take(rows.len() as int) == rows);
        r
    }

    /// Updates the time of last use of an entry, if it is there.
    pub fn update_last_used(&mut self, id: i64, now: i64)
        requires
            old(self)@.valid(),
        ensures
            final(self)@.valid(),
            final(self)@.rows == touched(old(self)@.rows, id as int, now as int),
            final(self)@.last_id == old(self)@.last_id,
            final(self)@.rows == old(self)@.rows.map_values(
                |r: Row|
                    if r.id == id {
                        Row { last_used: now as int, ..r }
                    } else {
                        r
                    },
            ),
    {
        let ghost t = self@;
        let ghost change = |r: Row|
            if r.id == id {
                Row { last_used: now as int, ..r }
            } else {
                r
            };
        let at: usize = self.find_id(id);
        proof {
            id_at_found(t.rows, id as int);
        }
        if at < self.rows.len() {
            let ghost before = self.rows@;
            let mut e = self.rows[at].copy();
            assert(t.rows[at as int] == e@);
            e.last_used = now;
            self.rows.set(at, e);
            assert(e@ =~= change(t.rows[at as int]));
            assert(row_views(self.rows@) == row_views(before).update(at as int, e@));
        }
        assert(self@.rows =~= t.rows.map_values(change));
    }

    /// Toggles the pinned flag on an entry. Returns the new flag.
    pub fn toggle_pin(&mut self, id: i64) -> (r: Result<bool, DbError>)
        requires
            old(self)@.valid(),
        ensures
            final(self)@.valid(),
            final(self)@.last_id == old(self)@.last_id,
            final(self)@.rows == toggled(old(self)@.rows, id as int),
            r == (if id_at(old(self)@.rows, id as int) < old(self)@.rows.len() {
                Ok::<bool, DbError>(!old(self)@.rows[id_at(old(self)@.rows, id as int)].pinned)
            } else {
                Err::<bool, DbError>(DbError::NoRow)
            }),
    {
        let ghost t = self@;
        let ghost change = |r: Row|
            if r.id == id {
                Row { pinned: !r.pinned, ..r }
            } else {
                r
            };
        let at: usize = self.find_id(id);
        proof {
            id_at_found(t.rows, id as int);
        }
        if at < self.rows.len() {
            let ghost before = self.rows@;
            let mut e = self.rows[at].copy();
            assert(t.rows[at as int] == e@);
            let pinned = !e.pinned;
            e.pinned = pinned;
            self.rows.set(at, e);
            assert(e@ =~= change(t.rows[at as int]));
            assert(row_views(self.rows@) == row_views(before).update(at as int, e@));
            assert(self@.rows =~= toggled(t.rows, id as int));
            Ok(pinned)
        } else {
            assert(self@.rows =~= toggled(t.rows, id as int));
            Err(DbError::NoRow)
        }
    }

    /// Returns the total number of entries.
    pub fn count(&self) -> (r: i64)
        requires
            self@.valid(),
        ensures
            r == self@.rows.len(),
    {
        proof {
            rows_fit(self@);
            assert(self@.rows.len() == self.rows@.len());
        }
        self.rows.len() as i64
    }

    /// Checks if the table is empty.
    pub fn is_empty(&self) -> (r: bool)
        ensures
            r == (self@.rows.len() == 0),
    {
        assert(self@.rows.len() == self.rows@.len());
        self.rows.len() == 0
    }

    /// The highest id ever given.
    pub fn last_id(&self) -> (r: i64)
        ensures
            r == self@.last_id,
    {
        self.last_id
    }

    /// How many rows there are.
    pub(crate) fn row_count(&self) -> (r: usize)
        ensures
            r == self@.rows.len(),
    {
        assert(self@.rows.len() == self.rows@.len());
        self.rows.len()
    }

    /// Takes back what was added after the first rows.
    pub(crate) fn restore(&mut self, rows: usize, last_id: i64)
        requires
            rows <= old(self)@.rows.len(),
        ensures
            final(self)@ == (Table {
                rows: old(self)@.rows.take(rows as int),
                last_id: last_id as int,
            }),
    {
        let ghost t = self@;
        assert(t.rows.len() == self.rows@.len());
        self.rows.truncate(rows);
        self.last_id = last_id;
        assert(self@ =~= (Table { rows: t.rows.take(rows as int), last_id: last_id as int }));
    }
}

/// Hashes as mathematical integers.
pub open spec fn hash_ints(v: Seq<i64>) -> Seq<int> {
    v.map_values(|h: i64| h as int)
}

fn limit_of(n: usize, limit: i64) -> (r: usize)
    ensures
        r <= n,
        r == (if 0 <= limit < n {
            limit as int
        } else {
            n as int
        }),
{
    if limit < 0 {
        n
    } else if (limit as u128) < (n as u128) {
        limit as usize
    } else {
        n
    }
}

fn meta_of(e: &Entry) -> (r: Entry)
    ensures
        r@ == meta(e@),
{
    let mut r = e.copy();
    if is_mime(e.mime.as_str(), "image/") && e.content.len() > META_BYTES {
        let front = slice_subrange(e.content.as_slice(), 0, META_BYTES);
        r.content = slice_to_vec(front);
    }
    assert(r@ =~= meta(e@));
    r
}

/// Taking rows out of a valid table leaves a valid table.
pub proof fn valid_after_filter(t: Table, pred: spec_fn(Row) -> bool)
    requires
        t.valid(),
    ensures
        (Table { rows: t.rows.filter(pred), last_id: t.last_id }).valid(),
    decreases t.rows.len(),
{
    reveal(Seq::filter);
    if t.rows.len() > 0 {
        let front = Table { rows: t.rows.drop_last(), last_id: t.last_id };
        valid_after_filter(front, pred);
        let some = front.rows.filter(pred);
        let last = t.rows.last();
        assert forall|i: int| 0 <= i < some.len() implies (#[trigger] some[i]).id < last.id
            && some[i].content_hash != last.content_hash by {
            assert(some.contains(some[i]));
            front.rows.lemma_filter_contains_rev(pred, some[i]);
            let k = choose|k: int| 0 <= k < front.rows.len() && front.rows[k] == some[i];
            assert(t.rows[k] == some[i]);
            assert(t.rows[t.rows.len() - 1] == last);
        }
    }
}

impl ClipboardDb {
    fn keep_flagged(&mut self, keep: &Vec<bool>, Ghost(pred): Ghost<spec_fn(Row) -> bool>) -> (r:
        usize)
        requires
            old(self)@.valid(),
            keep@.len() == old(self)@.rows.len(),
            forall|i: int|
                0 <= i < keep@.len() ==> #[trigger] keep@[i] == pred(old(self)@.rows[i]),
        ensures
            final(self)@.valid(),
            final(self)@.last_id == old(self)@.last_id,
            final(self)@.rows == old(self)@.rows.filter(pred),
            r == old(self)@.rows.len() - final(self)@.rows.len(),
    {
        let ghost t = self@;
        let mut rows: Vec<Entry> = Vec::new();
        let mut gone: usize = 0;
        let mut i: usize = 0;
        proof {
            reveal(Seq::filter);
            assert(self.rows@.len() == t.rows.len());
        }
        assert(row_views(rows@) == t.rows.take(0).filter(pred));
        while i < self.rows.len()
            invariant
                i <= self.rows@.len(),
                gone <= i,
                t.rows == row_views(self.rows@),
                keep@.len() == t.rows.len(),
                forall|i: int| 0 <= i < keep@.len() ==> #[trigger] keep@[i] == pred(t.rows[i]),
                row_views(rows@) == t.rows.take(i as int).filter(pred),
                gone == i - rows@.len(),
            decreases self.rows.len() - i,
        {
            proof {
                reveal(Seq::filter);
                assert(t.rows.take(i + 1).drop_last() == t.rows.take(i as int));
                assert(t.rows.take(i + 1).last() == self.rows@[i as int]@);
            }
            let ghost head = rows@;
            if keep[i] {
                rows.push(self.rows[i].copy());
                assert(row_views(rows@) == row_views(head).push(t.rows[i as int]));
            } else {
                gone = gone + 1;
            }
            i = i + 1;
        }
        proof {
            assert(t.rows.take(t.rows.len() as int) == t.rows);
            valid_after_filter(t, pred);
        }
        self.rows = rows;
        gone
    }

    /// Deletes an entry by id.
    pub fn delete(&mut self, id: i64)
        requires
            old(self)@.valid(),
        ensures
            final(self)@.valid(),
            final(self)@.last_id == old(self)@.last_id,
            final(self)@.rows == old(self)@.rows.filter(|r: Row| r.id != id),
    {
        let mut keep: Vec<bool> = Vec::new();
        let mut i: usize = 0;
        while i < self.rows.len()
            invariant
                i <= self.rows@.len(),
                keep@.len() == i,
                forall|j: int| 0 <= j < i ==> #[trigger] keep@[j] == (self.rows@[j].id != id),
            decreases self.rows.len() - i,
        {
            keep.push(self.rows[i].id != id);
            i = i + 1;
        }
        let _gone: usize = self.keep_flagged(&keep, Ghost(|r: Row| r.id != id));
    }

    /// Cleans up old and excess entries. Keeps pinned entries; removes others
    /// that are not among the [`MAX_ENTRIES`] used last, or were not used in the
    /// last [`MAX_AGE_SECS`] seconds. Returns how many were removed.
    pub fn cleanup(&mut self, now: i64) -> (r: usize)
        requires
            old(self)@.valid(),
            now - MAX_AGE_SECS >= i64::MIN,
        ensures
            final(self)@.valid(),
            final(self)@ == cleaned(old(self)@, now as int),
            r == old(self)@.rows.len() - final(self)@.rows.len(),
    {
        let ghost t = self@;
        let cutoff: i64 = now - MAX_AGE_SECS;
        let order = self.newest();
        let ghost front = limited(newest_first(t.rows), MAX_ENTRIES as int);
        let n: usize = self.rows.len();
        let mut keep: Vec<bool> = Vec::new();
        let mut i: usize = 0;
        while i < n
            invariant
                i <= n == self.rows@.len(),
                keep@.len() == i,
                forall|j: int| 0 <= j < i ==> #[trigger] keep@[j] == self.rows@[j].pinned,
            decreases n - i,
        {
            keep.push(self.rows[i].pinned);
            i = i + 1;
        }
        let m: usize = if MAX_ENTRIES < n {
            MAX_ENTRIES
        } else {
            n
        };
        let mut k: usize = 0;
        while k < m
            invariant
                k <= m <= n == self.rows@.len(),
                order@.len() == n,
                forall|j: int| 0 <= j < n ==> #[trigger] order@[j] < n,
                keep@.len() == n,
                forall|j: int|
                    0 <= j < n ==> #[trigger] keep@[j] == (self.rows@[j].pinned || (
                    self.rows@[j].last_used >= cutoff && exists|q: int|
                        0 <= q < k && order@[q] == j)),
            decreases m - k,
        {
            let at: usize = order[k];
            let ghost before = keep@;
            if self.rows[at].last_used >= cutoff {
                keep.set(at, true);
            }
            assert forall|j: int| 0 <= j < n implies #[trigger] keep@[j] == (self.rows@[j].pinned
                || (self.rows@[j].last_used >= cutoff && exists|q: int|
                0 <= q < k + 1 && order@[q] == j)) by {
                assert(before[j] == (self.rows@[j].pinned || (self.rows@[j].last_used >= cutoff
                    && exists|q: int| 0 <= q < k && order@[q] == j)));
                if j == at {
                    assert(order@[k as int] == j);
                }
            }
            k = k + 1;
        }
        proof {
            assert(t.rows.len() == n);
            assert(front.len() == m);
            assert forall|j: int| 0 <= j < n implies #[trigger] keep@[j] == kept(
                t.rows,
                t.rows[j],
                cutoff as int,
            ) by {
                assert(t.rows[j] == self.rows@[j]@);
                if exists|q: int| 0 <= q < m && order@[q] == j {
                    let q = choose|q: int| 0 <= q < m && order@[q] == j;
                    assert(front[q] == t.rows[j]);
                }
                if front.contains(t.rows[j]) {
                    let q = choose|q: int| 0 <= q < front.len() && front[q] == t.rows[j];
                    let o = order@[q] as int;
                    assert(newest_first(t.rows)[q] == self.rows@[o]@);
                    assert(t.rows[o] == t.rows[j]);
                    assert(t.rows[o].id == t.rows[j].id);
                    assert(o == j);
                }
            }
        }
        self.keep_flagged(&keep, Ghost(|r: Row| kept(t.rows, r, cutoff as int)))
    }
}

/// The table after a cleanup.
pub open spec fn cleaned(t: Table, now: int) -> Table {
    Table {
        rows: t.rows.filter(|r: Row| kept(t.rows, r, now - MAX_AGE_SECS)),
        last_id: t.last_id,
    }
}

/// A valid table is valid after a store.
pub proof fn valid_after_store(t: Table, row: Row)
    requires
        t.valid(),
    ensures
        stored(t, row).valid(),
        imported(t, row).valid(),
{
    hash_at_found(t.rows, row.content_hash);
    let at = hash_at(t.rows, row.content_hash);
    let u = stored(t, row);
    if t.last_id == i64::MAX {
    } else if at < t.rows.len() {
        assert forall|i: int| 0 <= i < u.rows.len() implies (#[trigger] u.rows[i]).id
            == t.rows[i].id && u.rows[i].content_hash == t.rows[i].content_hash by {}
    } else {
        let v = appended(t, row);
        assert forall|i: int| 0 <= i < t.rows.len() implies #[trigger] v.rows[i] == t.rows[i] by {}
    }
}

/// What was stored is read back: unless no id was left, exactly one row has
/// the hash, under the id that was returned; it was used at the given time, and
/// if the hash is new it holds the content, the mime type and the application
/// that were given.
pub proof fn stored_is_read_back(t: Table, row: Row)
    requires
        t.valid(),
        stored_id(t, row.content_hash) is Ok,
    ensures
        ({
            let u = stored(t, row);
            let at = hash_at(u.rows, row.content_hash);
            let got = u.rows[at];
            &&& at < u.rows.len()
            &&& got.id == stored_id(t, row.content_hash)->Ok_0
            &&& id_at(u.rows, got.id) == at
            &&& got.content_hash == row.content_hash
            &&& got.last_used == row.last_used
            &&& !t.has_hash(row.content_hash) ==> got == (Row { id: got.id, ..row })
        }),
{
    hash_at_found(t.rows, row.content_hash);
    valid_after_store(t, row);
    let u = stored(t, row);
    let at = hash_at(t.rows, row.content_hash);
    if at == t.rows.len() {
        assert(u.rows[at] == (Row { id: t.last_id + 1, ..row }));
    }
    only_row_with_hash(u, at);
    only_row_with_id(u, at);
}

proof fn only_row_with_hash(t: Table, i: int)
    requires
        t.valid(),
        0 <= i < t.rows.len(),
    ensures
        hash_at(t.rows, t.rows[i].content_hash) == i,
{
    let hash = t.rows[i].content_hash;
    hash_at_found(t.rows, hash);
    let at = hash_at(t.rows, hash);
    if at < i {
        assert(t.rows[at].content_hash != t.rows[i].content_hash);
    }
}

proof fn only_row_with_id(t: Table, i: int)
    requires
        t.valid(),
        0 <= i < t.rows.len(),
    ensures
        id_at(t.rows, t.rows[i].id) == i,
{
    let id = t.rows[i].id;
    id_at_found(t.rows, id);
    let at = id_at(t.rows, id);
    if at < i {
        assert(t.rows[at].id < t.rows[i].id);
    }
}

/// Copying the same content again adds no row, and gives the same id if one is
/// left to give away.
pub proof fn storing_again_adds_nothing(t: Table, row: Row, again: Row)
    requires
        t.valid(),
        stored_id(t, row.content_hash) is Ok,
        again.content_hash == row.content_hash,
    ensures
        stored(stored(t, row), again).rows.len() == stored(t, row).rows.len(),
        stored_id(stored(t, row), again.content_hash) is Ok ==> stored_id(
            stored(t, row),
            again.content_hash,
        ) == stored_id(t, row.content_hash),
{
    stored_is_read_back(t, row);
    hash_at_found(stored(t, row).rows, again.content_hash);
}

/// A store touches no row of another hash.
pub proof fn store_leaves_others(t: Table, row: Row, i: int)
    requires
        t.valid(),
        0 <= i < t.rows.len(),
        t.rows[i].content_hash != row.content_hash,
    ensures
        i < stored(t, row).rows.len(),
        stored(t, row).rows[i] == t.rows[i],
{
    hash_at_found(t.rows, row.content_hash);
}

/// A cleanup keeps every pinned row.
pub proof fn cleanup_keeps_pinned(t: Table, now: int, i: int)
    requires
        0 <= i < t.rows.len(),
        t.rows[i].pinned,
    ensures
        cleaned(t, now).rows.contains(t.rows[i]),
{
    t.rows.lemma_filter_contains(|r: Row| kept(t.rows, r, now - MAX_AGE_SECS), i);
}

/// Every row that a cleanup leaves was in the table, and is pinned or was used
/// in the last [`MAX_AGE_SECS`] seconds.
pub proof fn cleanup_leaves_recent(t: Table, now: int, i: int)
    requires
        0 <= i < cleaned(t, now).rows.len(),
    ensures
        t.rows.contains(cleaned(t, now).rows[i]),
        cleaned(t, now).rows[i].pinned || cleaned(t, now).rows[i].last_used >= now - MAX_AGE_SECS,
{
    let pred = |r: Row| kept(t.rows, r, now - MAX_AGE_SECS);
    let s = t.rows.filter(pred);
    assert(s.contains(s[i]));
    t.rows.lemma_filter_contains_rev(pred, s[i]);
    t.rows.lemma_filter_pred(pred, i);
}

/// The rows once the one with an id was used.
pub open spec fn touched(rows: Seq<Row>, id: int, now: int) -> Seq<Row> {
    rows.map_values(
        |r: Row|
            if r.id == id {
                Row { last_used: now, ..r }
            } else {
                r
            },
    )
}

/// Using an entry changes when it was last used and nothing else, and puts it
/// before all entries that were used earlier.
pub proof fn use_moves_to_the_front(t: Table, id: int, now: int, i: int)
    requires
        0 <= i < t.rows.len(),
    ensures
        touched(t.rows, id, now).len() == t.rows.len(),
        t.rows[i].id != id ==> touched(t.rows, id, now)[i] == t.rows[i],
        t.rows[i].id == id ==> {
            let (a, b) = (t.rows[i], touched(t.rows, id, now)[i]);
            &&& b.last_used == now
            &&& b.id == a.id && b.content == a.content && b.content_hash == a.content_hash
            &&& b.mime == a.mime && b.source_app == a.source_app
            &&& b.created_at == a.created_at && b.pinned == a.pinned
            &&& forall|j: int|
                0 <= j < t.rows.len() && (#[trigger] t.rows[j]).last_used < now ==> newer(b, t.rows[j])
        },
{
}

/// The table with an entry's pinned flag toggled.
pub open spec fn toggled(rows: Seq<Row>, id: int) -> Seq<Row> {
    rows.map_values(
        |r: Row|
            if r.id == id {
                Row { pinned: !r.pinned, ..r }
            } else {
                r
            },
    )
}

/// Toggling a pin twice changes nothing.
pub proof fn toggling_twice_restores(rows: Seq<Row>, id: int)
    ensures
        toggled(toggled(rows, id), id) == rows,
{
    assert forall|i: int| 0 <= i < rows.len() implies #[trigger] toggled(
        toggled(rows, id),
        id,
    )[i] == rows[i] by {
        assert(toggled(rows, id)[i] == (if rows[i].id == id {
            Row { pinned: !rows[i].pinned, ..rows[i] }
        } else {
            rows[i]
        }));
    }
    assert(toggled(toggled(rows, id), id) =~= rows);
}

/// A deleted entry is gone, and no other is.
pub proof fn delete_removes_one(rows: Seq<Row>, id: int)
    ensures
        id_at(rows.filter(|r: Row| r.id != id), id) == rows.filter(|r: Row| r.id != id).len(),
        forall|i: int|
            0 <= i < rows.len() && (#[trigger] rows[i]).id != id ==> rows.filter(
                |r: Row| r.id != id,
            ).contains(rows[i]),
{
    let pred = |r: Row| r.id != id;
    let s = rows.filter(pred);
    id_at_found(s, id);
    if id_at(s, id) < s.len() {
        rows.lemma_filter_pred(pred, id_at(s, id));
    }
    assert forall|i: int| 0 <= i < rows.len() && (#[trigger] rows[i]).id != id implies s.contains(
        rows[i],
    ) by {
        rows.lemma_filter_contains(pred, i);
    }
}

/// Whether a row was used after another one, or at the same time and stored
/// after it.
pub open spec fn newer(a: Row, b: Row) -> bool {
    a.last_used > b.last_used || (a.last_used == b.last_used && a.id > b.id)
}

/// A listing holds the rows of the table, each once, the newer ones first.
pub proof fn listing_descends(t: Table)
    requires
        t.valid(),
    ensures
        newest_first(t.rows).len() == t.rows.len(),
        forall|i: int, j: int|
            0 <= i < j < t.rows.len() ==> newer(
                #[trigger] newest_first(t.rows)[i],
                #[trigger] newest_first(t.rows)[j],
            ),
        forall|r: Row| newest_first(t.rows).contains(r) <==> #[trigger] t.rows.contains(r),
{
    let rows = t.rows;
    let n = rows.len() as int;
    let keys = rows.reverse().map_values(|r: Row| -r.last_used);
    crate::order::ranking_exists::<i128>(keys);
    let order = ranking::<i128>(keys);
    newest_first_keeps_rows(rows, order);
    let all = newest_first(rows);
    assert forall|i: int, j: int| 0 <= i < j < n implies newer(
        #[trigger] all[i],
        #[trigger] all[j],
    ) by {
        assert(crate::order::ahead::<i128>(keys, order[i], order[j]));
        let a = n - 1 - order[i];
        let b = n - 1 - order[j];
        assert(keys[order[i]] == -rows[a].last_used);
        assert(keys[order[j]] == -rows[b].last_used);
        assert(all[i] == rows[a] && all[j] == rows[b]);
        if rows[a].last_used == rows[b].last_used {
            assert(order[i] < order[j]);
            assert(rows[b].id < rows[a].id);
        }
    }
    assert forall|r: Row| all.contains(r) <==> #[trigger] rows.contains(r) by {
        if all.contains(r) {
            let k = choose|k: int| 0 <= k < all.len() && all[k] == r;
            assert(0 <= order[k] < n);
            assert(rows[n - 1 - order[k]] == r);
        }
        if rows.contains(r) {
            let i = choose|i: int| 0 <= i < n && rows[i] == r;
            assert(order.contains(n - 1 - i));
            let k = choose|k: int| 0 <= k < order.len() && order[k] == n - 1 - i;
            assert(all[k] == r);
        }
    }
}

/// A list without repeated items whose items are all among those of another list
/// is not longer than it.
proof fn sublist_is_shorter(a: Seq<Row>, b: Seq<Row>)
    requires
        a.no_duplicates(),
        forall|i: int| 0 <= i < a.len() ==> b.contains(#[trigger] a[i]),
    ensures
        a.len() <= b.len(),
{
    broadcast use vstd::seq_lib::seq_to_set_is_finite;

    a.unique_seq_to_set();
    b.lemma_cardinality_of_set();
    assert(a.to_set().subset_of(b.to_set())) by {
        assert forall|r: Row| a.to_set().contains(r) implies b.to_set().contains(r) by {
            let i = choose|i: int| 0 <= i < a.len() && a[i] == r;
            assert(b.contains(a[i]));
        }
    }
    vstd::set_lib::lemma_len_subset(a.to_set(), b.to_set());
}

/// A cleanup leaves at most [`MAX_ENTRIES`] rows that are not pinned.
pub proof fn cleanup_caps_entries(t: Table, now: int)
    requires
        t.valid(),
    ensures
        cleaned(t, now).rows.filter(|r: Row| !r.pinned).len() <= MAX_ENTRIES,
{
    let pred = |r: Row| kept(t.rows, r, now - MAX_AGE_SECS);
    let loose = |r: Row| !r.pinned;
    let left = t.rows.filter(pred);
    let u = Table { rows: left, last_id: t.last_id };
    valid_after_filter(t, pred);
    valid_after_filter(u, loose);
    let free = left.filter(loose);
    let front = limited(newest_first(t.rows), MAX_ENTRIES as int);
    assert forall|i: int| 0 <= i < free.len() implies front.contains(#[trigger] free[i]) by {
        left.lemma_filter_pred(loose, i);
        assert(free.contains(free[i]));
        left.lemma_filter_contains_rev(loose, free[i]);
        let k = choose|k: int| 0 <= k < left.len() && left[k] == free[i];
        t.rows.lemma_filter_pred(pred, k);
    }
    assert(free.no_duplicates()) by {
        assert forall|i: int, j: int| 0 <= i < free.len() && 0 <= j < free.len() && i != j implies
            free[i] != free[j] by {
            if i < j {
                assert(free[i].id < free[j].id);
            } else {
                assert(free[j].id < free[i].id);
            }
        }
    }
    sublist_is_shorter(free, front);
}

/// The place of a row in a listing does not go back when other rows leave.
proof fn place_moves_up(t: Table, u: Table, p: int, q: int)
    requires
        t.valid(),
        u.valid(),
        forall|r: Row| u.rows.contains(r) ==> #[trigger] t.rows.contains(r),
        0 <= p < t.rows.len(),
        0 <= q < u.rows.len(),
        newest_first(t.rows)[p] == newest_first(u.rows)[q],
    ensures
        q <= p,
{
    listing_descends(t);
    listing_descends(u);
    let a = newest_first(u.rows);
    let b = newest_first(t.rows);
    let before = a.take(q);
    assert forall|i: int| 0 <= i < before.len() implies b.take(p).contains(#[trigger] before[i]) by {
        assert(before[i] == a[i]);
        assert(newer(a[i], a[q]));
        assert(a.contains(a[i]));
        assert(u.rows.contains(a[i]));
        assert(t.rows.contains(a[i]));
        assert(b.contains(a[i]));
        let k = choose|k: int| 0 <= k < b.len() && b[k] == a[i];
        if k > p {
            assert(newer(b[p], b[k]));
        }
        assert(k < p);
        assert(b.take(p)[k] == a[i]);
    }
    assert(before.no_duplicates()) by {
        assert forall|i: int, j: int|
            0 <= i < before.len() && 0 <= j < before.len() && i != j implies before[i]
            != before[j] by {
            if i < j {
                assert(newer(a[i], a[j]));
            } else {
                assert(newer(a[j], a[i]));
            }
        }
    }
    sublist_is_shorter(before, b.take(p));
}

/// A second cleanup at the same time removes nothing.
pub proof fn cleanup_settles(t: Table, now: int)
    requires
        t.valid(),
    ensures
        cleaned(cleaned(t, now), now) == cleaned(t, now),
{
    let pred = |r: Row| kept(t.rows, r, now - MAX_AGE_SECS);
    let u = cleaned(t, now);
    valid_after_filter(t, pred);
    let again = |r: Row| kept(u.rows, r, now - MAX_AGE_SECS);
    listing_descends(t);
    listing_descends(u);
    assert forall|r: Row| u.rows.contains(r) implies #[trigger] t.rows.contains(r) by {
        t.rows.lemma_filter_contains_rev(pred, r);
    }
    let a = newest_first(u.rows);
    let b = newest_first(t.rows);
    assert forall|i: int| 0 <= i < u.rows.len() implies again(#[trigger] u.rows[i]) by {
        let r = u.rows[i];
        t.rows.lemma_filter_pred(pred, i);
        if !r.pinned {
            let front = limited(b, MAX_ENTRIES as int);
            assert(front.contains(r));
            let p = choose|p: int| 0 <= p < front.len() && front[p] == r;
            assert(b[p] == r);
            assert(u.rows.contains(r));
            assert(a.contains(r));
            let q = choose|q: int| 0 <= q < a.len() && a[q] == r;
            place_moves_up(t, u, p, q);
            assert(q < MAX_ENTRIES);
            assert(limited(a, MAX_ENTRIES as int)[q] == r);
        }
    }
    keep_all(u.rows, again);
}

/// A filter that every item passes changes nothing.
proof fn keep_all(s: Seq<Row>, pred: spec_fn(Row) -> bool)
    requires
        forall|i: int| 0 <= i < s.len() ==> pred(#[trigger] s[i]),
    ensures
        s.filter(pred) == s,
    decreases s.len(),
{
    reveal(Seq::filter);
    if s.len() > 0 {
        let front = s.drop_last();
        assert forall|i: int| 0 <= i < front.len() implies pred(#[trigger] front[i]) by {
            assert(front[i] == s[i]);
        }
        keep_all(front, pred);
        assert(pred(s[s.len() - 1]));
        assert(front.push(s.last()) == s);
    }
}

proof fn filter_keeps_order(s: Seq<Row>, pred: spec_fn(Row) -> bool)
    requires
        forall|i: int, j: int| 0 <= i < j < s.len() ==> newer(#[trigger] s[i], #[trigger] s[j]),
    ensures
        forall|i: int, j: int|
            0 <= i < j < s.filter(pred).len() ==> newer(
                #[trigger] s.filter(pred)[i],
                #[trigger] s.filter(pred)[j],
            ),
    decreases s.len(),
{
    reveal(Seq::filter);
    if s.len() > 0 {
        let front = s.drop_last();
        assert forall|i: int, j: int| 0 <= i < j < front.len() implies newer(
            #[trigger] front[i],
            #[trigger] front[j],
        ) by {
            assert(front[i] == s[i] && front[j] == s[j]);
        }
        filter_keeps_order(front, pred);
        let some = front.filter(pred);
        let all = s.filter(pred);
        assert forall|i: int, j: int| 0 <= i < j < all.len() implies newer(
            #[trigger] all[i],
            #[trigger] all[j],
        ) by {
            assert(all[i] == some[i]);
            if j < some.len() {
                assert(all[j] == some[j]);
            } else {
                assert(some.contains(some[i]));
                front.lemma_filter_contains_rev(pred, some[i]);
                let k = choose|k: int| 0 <= k < front.len() && front[k] == some[i];
                assert(newer(s[k], s[s.len() - 1]));
            }
        }
    }
}

/// Whether a row is text that holds a query: its mime type begins with `text/`
/// and its bytes are some bytes, those of the query and others after them, where
/// the case of the letters A to Z does not count.
pub open spec fn holds_text(r: Row, query: Seq<char>) -> bool {
    "text/"@.is_prefix_of(ascii_lower(r.mime)) && exists|a: Seq<u8>, b: Seq<u8>|
        lower_bytes(r.content) == #[trigger] (a + lower_bytes(encode_utf8(query)) + b)
}

proof fn found_holds_text(r: Row, query: Seq<char>)
    ensures
        found(r, query) == holds_text(r, query),
{
    let hay = lower_bytes(r.content);
    let needle = lower_bytes(encode_utf8(query));
    if found(r, query) {
        let i = choose|i: int| bytes_at(hay, needle, i);
        let a = hay.take(i);
        let b = hay.skip(i + needle.len());
        assert(hay =~= a + needle + b);
    }
    if holds_text(r, query) {
        let (a, b) = choose|a: Seq<u8>, b: Seq<u8>| hay == #[trigger] (a + needle + b);
        let i = a.len() as int;
        assert(hay.subrange(i, i + needle.len()) =~= needle);
        assert(bytes_at(hay, needle, i));
    }
}

/// A search lists the text rows that hold the query, the newer ones first, and
/// nothing else. One that holds it is left out only where as many newer ones
/// are listed as were asked for.
pub proof fn search_lists_what_holds_the_query(t: Table, query: Seq<char>, limit: int, i: int)
    requires
        t.valid(),
        0 <= i < t.rows.len(),
    ensures
        ({
            let r = limited(newest_first(t.rows).filter(|r: Row| found(r, query)), limit);
            &&& r.contains(t.rows[i]) ==> holds_text(t.rows[i], query)
            &&& holds_text(t.rows[i], query) && !r.contains(t.rows[i]) ==> r.len() == limit
                && forall|k: int|
                0 <= k < r.len() ==> newer(#[trigger] r[k], t.rows[i])
            &&& forall|j: int, k: int|
                0 <= j < k < r.len() ==> newer(#[trigger] r[j], #[trigger] r[k])
            &&& forall|k: int| 0 <= k < r.len() ==> t.rows.contains(#[trigger] r[k])
        }),
{
    let all = newest_first(t.rows);
    let pred = |r: Row| found(r, query);
    let some = all.filter(pred);
    let r = limited(some, limit);
    let row = t.rows[i];
    listing_descends(t);
    filter_keeps_order(all, pred);
    found_holds_text(row, query);
    assert(forall|k: int| 0 <= k < r.len() ==> #[trigger] r[k] == some[k]);
    if r.contains(row) {
        let k = choose|k: int| 0 <= k < r.len() && r[k] == row;
        all.lemma_filter_pred(pred, k);
    }
    if holds_text(row, query) && !r.contains(row) {
        assert(t.rows.contains(row));
        assert(all.contains(row));
        let m = choose|m: int| 0 <= m < all.len() && all[m] == row;
        all.lemma_filter_contains(pred, m);
        let at = choose|at: int| 0 <= at < some.len() && some[at] == row;
        if at < r.len() {
            assert(r[at] == row);
        }
        assert forall|k: int| 0 <= k < r.len() implies newer(#[trigger] r[k], row) by {
            assert(newer(some[k], some[at]));
        }
    }
    assert forall|j: int, k: int| 0 <= j < k < r.len() implies newer(
        #[trigger] r[j],
        #[trigger] r[k],
    ) by {
        assert(newer(some[j], some[k]));
    }
    assert forall|k: int| 0 <= k < r.len() implies t.rows.contains(#[trigger] r[k]) by {
        assert(some.contains(some[k]));
        all.lemma_filter_contains_rev(pred, some[k]);
    }
}

/// A limit cuts a list to its front, and a negative one not at all.
pub proof fn limit_cuts_the_end<A>(s: Seq<A>, limit: int)
    ensures
        limited(s, limit).is_prefix_of(s),
        limit < 0 ==> limited(s, limit) == s,
        limit >= 0 ==> limited(s, limit).len() == (if s.len() < limit {
            s.len() as int
        } else {
            limit
        }),
{
}

/// Copying the content of a row again changes only when it was last used and,
/// if it is known this time, by which application.
pub proof fn storing_again_bumps(t: Table, row: Row, i: int)
    requires
        t.valid(),
        t.last_id < i64::MAX,
        0 <= i < t.rows.len(),
        t.rows[i].content_hash == row.content_hash,
    ensures
        stored(t, row).rows.len() == t.rows.len(),
        ({
            let (a, b) = (t.rows[i], stored(t, row).rows[i]);
            &&& b.id == a.id
            &&& b.content == a.content
            &&& b.content_hash == a.content_hash
            &&& b.mime == a.mime
            &&& b.created_at == a.created_at
            &&& b.pinned == a.pinned
            &&& b.last_used == row.last_used
            &&& b.source_app == (if row.source_app is Some {
                row.source_app
            } else {
                a.source_app
            })
        }),
{
    only_row_with_hash(t, i);
}

/// What is brought in from elsewhere changes no row; if none has its hash, it
/// is added behind the others, under the next id and with all that was given.
pub proof fn import_adds_behind(t: Table, row: Row)
    requires
        t.valid(),
        t.last_id < i64::MAX,
    ensures
        t.has_hash(row.content_hash) ==> imported(t, row).rows == t.rows,
        !t.has_hash(row.content_hash) ==> {
            let u = imported(t, row);
            &&& u.rows.len() == t.rows.len() + 1
            &&& u.rows.drop_last() == t.rows
            &&& u.rows.last().id == t.last_id + 1
            &&& u.rows.last().content == row.content
            &&& u.rows.last().content_hash == row.content_hash
            &&& u.rows.last().mime == row.mime
            &&& u.rows.last().source_app == row.source_app
            &&& u.rows.last().created_at == row.created_at
            &&& u.rows.last().last_used == row.last_used
            &&& u.rows.last().pinned == row.pinned
        },
{
    hash_at_found(t.rows, row.content_hash);
    if t.has_hash(row.content_hash) {
        let i = choose|i: int|
            0 <= i < t.rows.len() && (#[trigger] t.rows[i]).content_hash == row.content_hash;
        only_row_with_hash(t, i);
    } else {
        let at = hash_at(t.rows, row.content_hash);
        assert(at == t.rows.len());
        assert(imported(t, row).rows.drop_last() =~= t.rows);
    }
}

/// Every row is found by its id and by its hash.
pub proof fn rows_are_found(t: Table, i: int)
    requires
        t.valid(),
        0 <= i < t.rows.len(),
    ensures
        id_at(t.rows, t.rows[i].id) == i,
        hash_at(t.rows, t.rows[i].content_hash) == i,
{
    only_row_with_id(t, i);
    only_row_with_hash(t, i);
}

/// What no row has is not found.
pub proof fn missing_rows_are_not_found(t: Table, x: int)
    ensures
        id_at(t.rows, x) < t.rows.len() <==> exists|i: int|
            0 <= i < t.rows.len() && (#[trigger] t.rows[i]).id == x,
        hash_at(t.rows, x) < t.rows.len() <==> exists|i: int|
            0 <= i < t.rows.len() && (#[trigger] t.rows[i]).content_hash == x,
{
    id_at_found(t.rows, x);
    hash_at_found(t.rows, x);
}

/// No row was created after the latest creation, and some row then.
pub proof fn latest_created_is_the_maximum(rows: Seq<Row>)
    ensures
        forall|i: int|
            0 <= i < rows.len() ==> (#[trigger] rows[i]).created_at <= latest_created(rows),
        rows.len() > 0 ==> exists|i: int|
            0 <= i < rows.len() && (#[trigger] rows[i]).created_at == latest_created(rows),
        rows.len() == 0 ==> latest_created(rows) == 0,
    decreases rows.len(),
{
    if rows.len() == 1 {
        assert(rows[0].created_at == latest_created(rows));
    } else if rows.len() > 1 {
        let part = rows.drop_last();
        let n = rows.len() - 1;
        latest_created_is_the_maximum(part);
        assert(rows[n] == rows.last());
        assert(forall|i: int| 0 <= i < n ==> #[trigger] rows[i] == part[i]);
        let k = choose|k: int|
            0 <= k < part.len() && (#[trigger] part[k]).created_at == latest_created(part);
        assert(rows[k] == part[k]);
    }
}

/// A cleanup keeps every row that was used in the last thirty days and is among
/// the thousand that were used last.
pub proof fn cleanup_keeps_recent(t: Table, now: int, p: int)
    requires
        t.valid(),
        0 <= p < t.rows.len(),
        p < 1000,
        newest_first(t.rows)[p].last_used >= now - 30 * 24 * 60 * 60,
    ensures
        cleaned(t, now).rows.contains(newest_first(t.rows)[p]),
        cleaned(t, now).valid(),
        cleaned(t, now).last_id == t.last_id,
{
    let pred = |r: Row| kept(t.rows, r, now - MAX_AGE_SECS);
    let all = newest_first(t.rows);
    let r = all[p];
    listing_descends(t);
    assert(limited(all, MAX_ENTRIES as int)[p] == r);
    assert(all.contains(r));
    assert(t.rows.contains(r));
    let i = choose|i: int| 0 <= i < t.rows.len() && t.rows[i] == r;
    t.rows.lemma_filter_contains(pred, i);
    valid_after_filter(t, pred);
}

/// Toggling a pin turns that of the row with the id and leaves all else.
pub proof fn toggling_turns_one_pin(rows: Seq<Row>, id: int, i: int)
    requires
        0 <= i < rows.len(),
    ensures
        toggled(rows, id).len() == rows.len(),
        rows[i].id != id ==> toggled(rows, id)[i] == rows[i],
        rows[i].id == id ==> toggled(rows, id)[i].pinned == !rows[i].pinned,
        toggled(rows, id)[i].id == rows[i].id,
        toggled(rows, id)[i].content == rows[i].content,
        toggled(rows, id)[i].content_hash == rows[i].content_hash,
        toggled(rows, id)[i].mime == rows[i].mime,
        toggled(rows, id)[i].source_app == rows[i].source_app,
        toggled(rows, id)[i].created_at == rows[i].created_at,
        toggled(rows, id)[i].last_used == rows[i].last_used,
{
}

/// A listing shows each row as it is but for its content: one kind leaves it
/// out, the other cuts that of a picture to its front and leaves text whole.
pub proof fn listings_cut_content_only(r: Row)
    ensures
        bare(r) == (Row { content: bare(r).content, ..r }),
        bare(r).content.len() == 0,
        meta(r) == (Row { content: meta(r).content, ..r }),
        meta(r).content.is_prefix_of(r.content),
        !"image/"@.is_prefix_of(ascii_lower(r.mime)) ==> meta(r).content == r.content,
        r.content.len() <= META_BYTES ==> meta(r).content == r.content,
        "image/"@.is_prefix_of(ascii_lower(r.mime)) && r.content.len() > META_BYTES ==> meta(
            r,
        ).content.len() == META_BYTES,
{
}

/// The bytes of the letters A to Z fold to those of a to z, every other byte to
/// itself.
pub proof fn letters_fold(k: u8, b: u8)
    ensures
        k < 26 ==> lower_byte((65 + k) as u8) == 97 + k && lower_byte((97 + k) as u8) == 97 + k,
        b < 65 || b > 90 ==> lower_byte(b) == b,
{
}

} // verus!

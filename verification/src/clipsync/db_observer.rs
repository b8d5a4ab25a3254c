//! Noticing the entries that were added locally.

use crate::clip::db::{hash_ints, ClipboardDb, Row, Table};
use vstd::prelude::*;

verus! {

/// Milliseconds between two looks at the table.
pub const POLL_INTERVAL_MS: u64 = 500;

/// Remembers the highest row id that was seen.
pub struct DbObserver {
    pub seen: i64,
}

/// The highest row id of a table, or zero without rows.
pub open spec fn highest_id(t: Table) -> int {
    if t.rows.len() == 0 {
        0
    } else {
        t.rows.last().id
    }
}

/// The hashes of the rows with ids after the given one.
pub open spec fn hashes_after(t: Table, id: int) -> Seq<int> {
    t.rows.filter(|r: Row| r.id > id).map_values(|r: Row| r.content_hash)
}

impl DbObserver {
    /// Starts after the rows that are there.
    pub fn new(db: &ClipboardDb) -> (r: DbObserver)
        requires
            db@.valid(),
        ensures
            r.seen == highest_id(db@),
    {
        DbObserver { seen: db.max_id() }
    }

    /// The hashes of the rows that were added since the last look. The mark
    /// never moves back.
    pub fn poll(&mut self, db: &ClipboardDb) -> (r: Vec<i64>)
        requires
            db@.valid(),
        ensures
            hash_ints(r@) == hashes_after(db@, old(self).seen as int),
            final(self).seen == (if highest_id(db@) > old(self).seen {
                highest_id(db@)
            } else {
                old(self).seen as int
            }),
    {
        let r = db.hashes_after_id(self.seen);
        let top: i64 = db.max_id();
        assert(hash_ints(r@) == hashes_after(db@, self.seen as int));
        if top > self.seen {
            self.seen = top;
        }
        r
    }
}

/// Rows that were added after a look are exactly those that the next look
/// reports, in the order in which they came.
pub proof fn added_rows_are_reported(t: Table, u: Table)
    requires
        t.valid(),
        u.valid(),
        t.rows.is_prefix_of(u.rows),
    ensures
        hashes_after(u, highest_id(t)) == u.rows.skip(t.rows.len() as int).map_values(
            |r: Row| r.content_hash,
        ),
    decreases u.rows.len(),
{
    reveal(Seq::filter);
    let id = highest_id(t);
    let n = t.rows.len() as int;
    later_rows(u, n, id, u.rows.len());
    assert(u.rows.take(u.rows.len() as int) == u.rows);
    assert(u.rows.subrange(n, u.rows.len() as int) == u.rows.skip(n));
}

proof fn later_rows(u: Table, n: int, id: int, k: nat)
    requires
        u.valid(),
        0 <= n <= k <= u.rows.len(),
        n == 0 ==> id == 0,
        n > 0 ==> id == u.rows[n - 1].id,
    ensures
        u.rows.take(k as int).filter(|r: Row| r.id > id) == u.rows.subrange(n, k as int),
    decreases k,
{
    reveal(Seq::filter);
    let pred = |r: Row| r.id > id;
    let part = u.rows.take(k as int);
    if k == n {
        if n > 0 {
            none_before(u, n as nat, id);
        }
        assert(part.filter(pred) =~= u.rows.subrange(n, n));
    } else {
        later_rows(u, n, id, (k - 1) as nat);
        assert(part.drop_last() == u.rows.take(k - 1));
        assert(part.last() == u.rows[k - 1]);
        assert(u.rows.subrange(n, k as int) == u.rows.subrange(n, k - 1).push(u.rows[k - 1]));
    }
}

proof fn none_before(u: Table, n: nat, id: int)
    requires
        u.valid(),
        n <= u.rows.len(),
        forall|i: int| 0 <= i < n ==> (#[trigger] u.rows[i]).id <= id,
    ensures
        u.rows.take(n as int).filter(|r: Row| r.id > id) == Seq::<Row>::empty(),
    decreases n,
{
    reveal(Seq::filter);
    if n > 0 {
        none_before(u, (n - 1) as nat, id);
        assert(u.rows.take(n as int).drop_last() == u.rows.take(n - 1));
        assert(u.rows.take(n as int).last() == u.rows[n - 1]);
    }
}

/// The highest id is that of some row and of none a smaller one.
pub proof fn highest_id_is_the_maximum(t: Table)
    requires
        t.valid(),
    ensures
        forall|i: int| 0 <= i < t.rows.len() ==> (#[trigger] t.rows[i]).id <= highest_id(t),
        t.rows.len() > 0 ==> exists|i: int|
            0 <= i < t.rows.len() && (#[trigger] t.rows[i]).id == highest_id(t),
        t.rows.len() == 0 ==> highest_id(t) == 0,
{
    if t.rows.len() > 0 {
        let n = t.rows.len() - 1;
        assert(t.rows[n].id == highest_id(t));
    }
}

/// A look reports the hash of every row whose id comes after the mark, and no
/// other.
pub proof fn later_rows_are_reported(t: Table, id: int, h: int)
    ensures
        hashes_after(t, id).contains(h) <==> exists|i: int|
            0 <= i < t.rows.len() && (#[trigger] t.rows[i]).id > id && t.rows[i].content_hash == h,
{
    let pred = |r: Row| r.id > id;
    let some = t.rows.filter(pred);
    let all = hashes_after(t, id);
    if all.contains(h) {
        let k = choose|k: int| 0 <= k < all.len() && all[k] == h;
        t.rows.lemma_filter_pred(pred, k);
        assert(some.contains(some[k]));
        t.rows.lemma_filter_contains_rev(pred, some[k]);
        let i = choose|i: int| 0 <= i < t.rows.len() && t.rows[i] == some[k];
        assert(t.rows[i].content_hash == h);
    }
    if exists|i: int|
        0 <= i < t.rows.len() && (#[trigger] t.rows[i]).id > id && t.rows[i].content_hash == h {
        let i = choose|i: int|
            0 <= i < t.rows.len() && (#[trigger] t.rows[i]).id > id && t.rows[i].content_hash == h;
        t.rows.lemma_filter_contains(pred, i);
        let k = choose|k: int| 0 <= k < some.len() && some[k] == t.rows[i];
        assert(all[k] == h);
    }
}

} // verus!

//! Reconciling two histories: what is missing, what is sent, what is merged.

use crate::clip::db::{
    fresh_row, hash_at, hash_ints, imported, valid_after_store, ClipboardDb, DbError, Row, Table,
};
use crate::clipsync::protocol::{wire_views, WireEntry, WireView};
use vstd::prelude::*;

verus! {

/// The hashes that a table holds.
pub open spec fn hashes(t: Table) -> Seq<int> {
    t.rows.map_values(|r: Row| r.content_hash)
}

/// All hashes to tell the other side of.
pub fn local_hashes(db: &ClipboardDb) -> (r: Vec<i64>)
    ensures
        hash_ints(r@) == hashes(db@),
{
    db.all_hashes()
}

/// Whether a table lacks a hash.
pub open spec fn lacks(t: Table, hash: int) -> bool {
    hash_at(t.rows, hash) == t.rows.len()
}

/// The hashes of the other side that a table lacks, in their order.
pub open spec fn missing(t: Table, peer: Seq<i64>) -> Seq<i64> {
    peer.filter(|h: i64| lacks(t, h as int))
}

/// Lists the hashes of the other side that are missing here.
pub fn missing_locally(db: &ClipboardDb, peer: &Vec<i64>) -> (r: Vec<i64>)
    ensures
        r@ == missing(db@, peer@),
{
    let ghost pred = |h: i64| lacks(db@, h as int);
    let mut r: Vec<i64> = Vec::new();
    let mut i: usize = 0;
    proof {
        reveal(Seq::filter);
    }
    assert(r@ == peer@.take(0).filter(pred));
    while i < peer.len()
        invariant
            i <= peer@.len(),
            pred == (|h: i64| lacks(db@, h as int)),
            r@ == peer@.take(i as int).filter(pred),
        decreases peer.len() - i,
    {
        proof {
            reveal(Seq::filter);
            assert(peer@.take(i + 1).drop_last() == peer@.take(i as int));
            hash_position(db@.rows, peer@[i as int] as int);
        }
        match db.get_by_hash(peer[i]) {
            None => {
                r.push(peer[i]);
            },
            Some(_) => {},
        }
        i = i + 1;
    }
    assert(peer@.take(peer@.len() as int) == peer@);
    r
}

/// What `hash_at` finds.
pub proof fn hash_position(rows: Seq<Row>, hash: int)
    ensures
        0 <= hash_at(rows, hash) <= rows.len(),
        hash_at(rows, hash) < rows.len() ==> rows[hash_at(rows, hash)].content_hash == hash,
        hash_at(rows, hash) == rows.len() ==> forall|i: int|
            0 <= i < rows.len() ==> (#[trigger] rows[i]).content_hash != hash,
    decreases rows.len(),
{
    if rows.len() > 0 && rows[0].content_hash != hash {
        let rest = rows.drop_first();
        hash_position(rest, hash);
        assert forall|i: int|
            0 <= i < rows.len() && hash_at(rows, hash) == rows.len() implies (
        #[trigger] rows[i]).content_hash != hash by {
            if i > 0 {
                assert(rest[i - 1] == rows[i]);
            }
        }
    }
}

/// A row as it travels.
pub open spec fn on_wire(r: Row) -> WireView {
    WireView {
        content: r.content,
        content_hash: r.content_hash,
        mime: r.mime,
        created_at: r.created_at,
        last_used: r.last_used,
    }
}

/// The entries for the hashes that the other side asked for, in their order;
/// what is not held is passed over.
pub open spec fn entries(t: Table, wanted: Seq<i64>) -> Seq<WireView>
    decreases wanted.len(),
{
    if wanted.len() == 0 {
        Seq::empty()
    } else {
        let before = entries(t, wanted.drop_last());
        let at = hash_at(t.rows, wanted.last() as int);
        if at < t.rows.len() {
            before.push(on_wire(t.rows[at]))
        } else {
            before
        }
    }
}

/// Makes the entries for the hashes that the other side asked for.
pub fn entries_for(db: &ClipboardDb, wanted: &Vec<i64>) -> (r: Vec<WireEntry>)
    ensures
        wire_views(r@) == entries(db@, wanted@),
{
    let mut r: Vec<WireEntry> = Vec::new();
    let mut i: usize = 0;
    assert(wire_views(r@) == entries(db@, wanted@.take(0)));
    while i < wanted.len()
        invariant
            i <= wanted@.len(),
            wire_views(r@) == entries(db@, wanted@.take(i as int)),
        decreases wanted.len() - i,
    {
        proof {
            assert(wanted@.take(i + 1).drop_last() == wanted@.take(i as int));
            assert(wanted@.take(i + 1).last() == wanted@[i as int]);
        }
        let ghost head = r@;
        match db.get_by_hash(wanted[i]) {
            Some(e) => {
                let ghost row = e@;
                let w = WireEntry {
                    content: e.content,
                    content_hash: e.content_hash,
                    mime: e.mime,
                    created_at: e.created_at,
                    last_used: e.last_used,
                };
                assert(w@ =~= on_wire(row));
                r.push(w);
                assert(wire_views(r@) == wire_views(head).push(w@));
            },
            None => {},
        }
        i = i + 1;
    }
    assert(wanted@.take(wanted@.len() as int) == wanted@);
    r
}

/// The row that a received entry becomes.
pub open spec fn received(w: WireView) -> Row {
    fresh_row(w.content, w.content_hash, w.mime, None, w.created_at, w.last_used)
}

/// A table after a batch was merged: what it lacked is added in order.
pub open spec fn merged(t: Table, batch: Seq<WireView>) -> Table
    decreases batch.len(),
{
    if batch.len() == 0 {
        t
    } else {
        let front = merged(t, batch.drop_last());
        if lacks(front, batch.last().content_hash) {
            imported(front, received(batch.last()))
        } else {
            front
        }
    }
}

/// The entries of a batch that a table lacked when their turn came.
pub open spec fn inserted(t: Table, batch: Seq<WireView>) -> Seq<WireView>
    decreases batch.len(),
{
    if batch.len() == 0 {
        Seq::empty()
    } else {
        let front = batch.drop_last();
        if lacks(merged(t, front), batch.last().content_hash) {
            inserted(t, front).push(batch.last())
        } else {
            inserted(t, front)
        }
    }
}

/// The latest created of some entries; of several the first.
pub open spec fn freshest(all: Seq<WireView>) -> Option<WireView>
    decreases all.len(),
{
    if all.len() == 0 {
        None
    } else {
        match freshest(all.drop_last()) {
            Some(w) => if all.last().created_at > w.created_at {
                Some(all.last())
            } else {
                Some(w)
            },
            None => Some(all.last()),
        }
    }
}

/// What a merge did.
pub struct MergeResult {
    /// How many entries were new.
    pub inserted: usize,
    /// The latest created of them.
    pub newest: Option<WireEntry>,
}

/// What an optional entry holds.
pub open spec fn wire_view(o: Option<WireEntry>) -> Option<WireView> {
    match o {
        Some(w) => Some(w@),
        None => None,
    }
}

/// A valid table stays valid as a batch is merged, and gains at most one row
/// for each entry.
pub proof fn merge_keeps_valid(t: Table, batch: Seq<WireView>)
    requires
        t.valid(),
    ensures
        merged(t, batch).valid(),
        merged(t, batch).last_id <= t.last_id + batch.len(),
        inserted(t, batch).len() <= batch.len(),
    decreases batch.len(),
{
    if batch.len() > 0 {
        merge_keeps_valid(t, batch.drop_last());
        valid_after_store(merged(t, batch.drop_last()), received(batch.last()));
    }
}

/// Merges a batch of received entries: adds those that the table lacks. Nothing
/// is added if ids are not left for all of them.
pub fn merge(db: &mut ClipboardDb, batch: Vec<WireEntry>) -> (r: Result<MergeResult, DbError>)
    requires
        old(db)@.valid(),
    ensures
        final(db)@.valid(),
        final(db)@ == (if r is Ok {
            merged(old(db)@, wire_views(batch@))
        } else {
            old(db)@
        }),
        r is Ok <==> old(db)@.last_id + inserted(old(db)@, wire_views(batch@)).len() <= i64::MAX,
        r matches Ok(m) ==> {
            &&& m.inserted == inserted(old(db)@, wire_views(batch@)).len()
            &&& wire_view(m.newest) == freshest(inserted(old(db)@, wire_views(batch@)))
        },
        r matches Err(e) ==> e == DbError::Full,
{
    let ghost t = db@;
    let ghost bv = wire_views(batch@);
    let rows: usize = db.row_count();
    let last_id: i64 = db.last_id();
    let mut count: usize = 0;
    let mut newest: Option<WireEntry> = None;
    let mut i: usize = 0;
    assert(bv.take(0) == Seq::<WireView>::empty());
    while i < batch.len()
        invariant
            i <= batch@.len(),
            t == old(db)@,
            t.valid(),
            rows == t.rows.len(),
            last_id == t.last_id,
            bv == wire_views(batch@),
            db@.valid(),
            db@ == merged(t, bv.take(i as int)),
            count == inserted(t, bv.take(i as int)).len(),
            count <= i,
            wire_view(newest) == freshest(inserted(t, bv.take(i as int))),
            db@.last_id == t.last_id + count,
        decreases batch.len() - i,
    {
        let ghost front = bv.take(i as int);
        let ghost next = bv.take(i + 1);
        let ghost now = db@;
        proof {
            assert(next.drop_last() == front);
            assert(next.last() == batch@[i as int]@);
            hash_position(now.rows, batch@[i as int].content_hash as int);
        }
        let e = &batch[i];
        let fresh = db.get_by_hash(e.content_hash).is_none();
        assert(fresh == lacks(now, e.content_hash as int));
        if fresh {
            match db.store_with_timestamps(
                e.content.as_slice(),
                e.content_hash,
                e.mime.as_str(),
                e.created_at,
                e.last_used,
            ) {
                Ok(_) => {},
                Err(_) => {
                    proof {
                        assert(inserted(t, next).len() == count + 1);
                        inserted_grows(t, bv, i + 1);
                        merge_keeps_rows(t, front);
                    }
                    db.restore(rows, last_id);
                    assert(db@ =~= t);
                    return Err(DbError::Full);
                },
            }
            assert(db@ == merged(t, next));
            let ghost some = inserted(t, front);
            let ghost more = inserted(t, next);
            assert(more == some.push(e@));
            assert(more.drop_last() == some);
            let better = match &newest {
                Some(w) => e.created_at > w.created_at,
                None => true,
            };
            if better {
                newest = Some(e.copy());
            }
            assert(wire_view(newest) == freshest(more));
            count = count + 1;
        }
        i = i + 1;
    }
    assert(bv.take(bv.len() as int) == bv);
    Ok(MergeResult { inserted: count, newest })
}

proof fn inserted_grows(t: Table, batch: Seq<WireView>, n: int)
    requires
        0 <= n <= batch.len(),
    ensures
        inserted(t, batch.take(n)).len() <= inserted(t, batch).len(),
    decreases batch.len() - n,
{
    if n < batch.len() {
        assert(batch.take(n + 1).drop_last() == batch.take(n));
        inserted_grows(t, batch, n + 1);
    } else {
        assert(batch.take(n) == batch);
    }
}

/// A merge adds no hash but those of the batch, and with ids left for them all
/// of these.
pub proof fn merge_adds_hashes(t: Table, batch: Seq<WireView>, h: int)
    requires
        t.valid(),
        t.last_id + batch.len() <= i64::MAX,
    ensures
        !lacks(merged(t, batch), h) <==> !lacks(t, h) || exists|i: int|
            0 <= i < batch.len() && (#[trigger] batch[i]).content_hash == h,
    decreases batch.len(),
{
    if batch.len() > 0 {
        let front = batch.drop_last();
        let last = batch.last();
        merge_adds_hashes(t, front, h);
        merge_keeps_valid(t, front);
        let u = merged(t, front);
        let v = merged(t, batch);
        hash_position(u.rows, last.content_hash);
        hash_position(u.rows, h);
        hash_position(v.rows, h);
        if lacks(u, last.content_hash) {
            assert(v.rows == u.rows.push(Row { id: u.last_id + 1, ..received(last) }));
            assert(v.rows[u.rows.len() as int].content_hash == last.content_hash);
            if !lacks(u, h) {
                let at = hash_at(u.rows, h);
                assert(v.rows[at] == u.rows[at]);
            }
        }
        assert(batch[batch.len() - 1] == last);
        if exists|i: int| 0 <= i < front.len() && (#[trigger] front[i]).content_hash == h {
            let i = choose|i: int| 0 <= i < front.len() && (#[trigger] front[i]).content_hash == h;
            assert(batch[i] == front[i]);
        }
        if exists|i: int| 0 <= i < batch.len() && (#[trigger] batch[i]).content_hash == h {
            let i = choose|i: int| 0 <= i < batch.len() && (#[trigger] batch[i]).content_hash == h;
            if i < front.len() {
                assert(front[i] == batch[i]);
            }
        }
    }
}

/// A merge leaves the rows that were there as they were.
pub proof fn merge_keeps_rows(t: Table, batch: Seq<WireView>)
    ensures
        t.rows.is_prefix_of(merged(t, batch).rows),
    decreases batch.len(),
{
    if batch.len() > 0 {
        merge_keeps_rows(t, batch.drop_last());
        let u = merged(t, batch.drop_last());
        let v = merged(t, batch);
        assert(v.rows.take(u.rows.len() as int) == u.rows);
        assert(v.rows.subrange(0, t.rows.len() as int) == u.rows.subrange(
            0,
            t.rows.len() as int,
        ));
    }
}

/// The entries that are sent are those of the wanted hashes that are held.
pub proof fn entries_cover(t: Table, wanted: Seq<i64>, h: int)
    ensures
        (exists|i: int|
            0 <= i < entries(t, wanted).len() && (#[trigger] entries(t, wanted)[i]).content_hash
                == h) <==> !lacks(t, h) && exists|i: int|
            0 <= i < wanted.len() && #[trigger] wanted[i] == h,
        entries(t, wanted).len() <= wanted.len(),
    decreases wanted.len(),
{
    if wanted.len() > 0 {
        let front = wanted.drop_last();
        entries_cover(t, front, h);
        let some = entries(t, front);
        let all = entries(t, wanted);
        let last = wanted.last();
        hash_position(t.rows, last as int);
        hash_position(t.rows, h);
        assert(wanted[wanted.len() - 1] == last);
        if exists|i: int| 0 <= i < some.len() && (#[trigger] some[i]).content_hash == h {
            let i = choose|i: int| 0 <= i < some.len() && (#[trigger] some[i]).content_hash == h;
            assert(all[i] == some[i]);
        }
        if exists|i: int| 0 <= i < front.len() && #[trigger] front[i] == h {
            let i = choose|i: int| 0 <= i < front.len() && #[trigger] front[i] == h;
            assert(wanted[i] == front[i]);
        }
        if exists|i: int| 0 <= i < all.len() && (#[trigger] all[i]).content_hash == h {
            let i = choose|i: int| 0 <= i < all.len() && (#[trigger] all[i]).content_hash == h;
            if i < some.len() {
                assert(some[i] == all[i]);
            }
        }
        if !lacks(t, h) && exists|i: int| 0 <= i < wanted.len() && #[trigger] wanted[i] == h {
            let i = choose|i: int| 0 <= i < wanted.len() && #[trigger] wanted[i] == h;
            if i < front.len() {
                assert(front[i] == wanted[i]);
            } else {
                assert(all.last().content_hash == h);
                assert(all[all.len() - 1].content_hash == h);
            }
        }
    }
}

/// One round of reconciliation: the side of `from` tells all its hashes, the
/// side of `to` asks for what it lacks and merges what it is sent.
pub open spec fn round(from: Table, to: Table, told: Seq<i64>) -> Table {
    merged(to, entries(from, missing(to, told)))
}

/// After a round a table holds what it held and all that the other side told
/// of: the union of both histories, if ids are left for it.
pub proof fn round_unites(from: Table, to: Table, told: Seq<i64>, h: int)
    requires
        from.valid(),
        to.valid(),
        hash_ints(told) == hashes(from),
        to.last_id + told.len() <= i64::MAX,
    ensures
        !lacks(round(from, to, told), h) <==> !lacks(to, h) || !lacks(from, h),
{
    let want = missing(to, told);
    let pred = |x: i64| lacks(to, x as int);
    told.lemma_filter_len(pred);
    entries_cover(from, want, h);
    let batch = entries(from, want);
    merge_adds_hashes(to, batch, h);
    hash_position(from.rows, h);
    hash_position(to.rows, h);
    if !lacks(from, h) && lacks(to, h) {
        let at = hash_at(from.rows, h);
        assert(hash_ints(told).len() == told.len());
        assert(hashes(from)[at] == h);
        assert(hash_ints(told)[at] == h);
        assert(told[at] as int == h);
        told.lemma_filter_contains(pred, at);
        let i = choose|i: int| 0 <= i < want.len() && want[i] == told[at];
        assert(want[i] == h);
    }
}

/// After a round nothing more is asked for.
pub proof fn round_settles(from: Table, to: Table, told: Seq<i64>)
    requires
        from.valid(),
        to.valid(),
        hash_ints(told) == hashes(from),
        to.last_id + told.len() <= i64::MAX,
    ensures
        missing(round(from, to, told), told) == Seq::<i64>::empty(),
{
    let u = round(from, to, told);
    let pred = |x: i64| lacks(u, x as int);
    let left = missing(u, told);
    if left.len() > 0 {
        told.lemma_filter_pred(pred, 0);
        assert(left.contains(left[0]));
        told.lemma_filter_contains_rev(pred, left[0]);
        let i = choose|i: int| 0 <= i < told.len() && told[i] == left[0];
        let h = told[i] as int;
        assert(hashes(from).len() == from.rows.len());
        assert(hash_ints(told)[i] == h);
        assert(hashes(from)[i] == from.rows[i].content_hash);
        assert(from.rows[i].content_hash == h);
        hash_position(from.rows, h);
        round_unites(from, to, told, h);
    }
    assert(left =~= Seq::<i64>::empty());
}

/// The hashes that are asked for are those told of that no row here has, and
/// no others.
pub proof fn missing_is_what_no_row_has(t: Table, peer: Seq<i64>, h: i64)
    ensures
        missing(t, peer).contains(h) <==> peer.contains(h) && forall|i: int|
            0 <= i < t.rows.len() ==> (#[trigger] t.rows[i]).content_hash != h,
{
    let pred = |x: i64| lacks(t, x as int);
    hash_position(t.rows, h as int);
    if missing(t, peer).contains(h) {
        let some = peer.filter(pred);
        let k = choose|k: int| 0 <= k < some.len() && some[k] == h;
        peer.lemma_filter_pred(pred, k);
        peer.lemma_filter_contains_rev(pred, h);
    }
    if peer.contains(h) && lacks(t, h as int) {
        let k = choose|k: int| 0 <= k < peer.len() && peer[k] == h;
        peer.lemma_filter_contains(pred, k);
    }
}

/// Whether an entry on its way carries what a row holds.
pub open spec fn carries(w: WireView, r: Row) -> bool {
    &&& w.content == r.content
    &&& w.content_hash == r.content_hash
    &&& w.mime == r.mime
    &&& w.created_at == r.created_at
    &&& w.last_used == r.last_used
}

/// Every entry that is sent carries a row of a hash that was asked for: its
/// content, hash, mime type and both times.
pub proof fn entries_carry_rows(t: Table, wanted: Seq<i64>, k: int)
    requires
        0 <= k < entries(t, wanted).len(),
    ensures
        exists|i: int, j: int|
            #![trigger t.rows[i], wanted[j]]
            0 <= i < t.rows.len() && 0 <= j < wanted.len() && wanted[j] == t.rows[i].content_hash
                && carries(entries(t, wanted)[k], t.rows[i]),
    decreases wanted.len(),
{
    let front = wanted.drop_last();
    let last = wanted.len() - 1;
    let all = entries(t, wanted);
    let some = entries(t, front);
    if k < some.len() {
        entries_carry_rows(t, front, k);
        let (i, j) = choose|i: int, j: int|
            #![trigger t.rows[i], front[j]]
            0 <= i < t.rows.len() && 0 <= j < front.len() && front[j] == t.rows[i].content_hash
                && carries(some[k], t.rows[i]);
        assert(wanted[j] == front[j]);
        assert(all[k] == some[k]);
    } else {
        let at = hash_at(t.rows, wanted.last() as int);
        hash_position(t.rows, wanted.last() as int);
        assert(wanted[last] == t.rows[at].content_hash);
    }
}

/// A row whose hash is asked for is sent as it is.
pub proof fn wanted_rows_are_sent(t: Table, wanted: Seq<i64>, i: int, j: int)
    requires
        t.valid(),
        0 <= i < t.rows.len(),
        0 <= j < wanted.len(),
        wanted[j] == t.rows[i].content_hash,
    ensures
        exists|k: int|
            0 <= k < entries(t, wanted).len() && carries(
                #[trigger] entries(t, wanted)[k],
                t.rows[i],
            ),
{
    let h = t.rows[i].content_hash;
    let all = entries(t, wanted);
    hash_position(t.rows, h);
    entries_cover(t, wanted, h);
    assert(wanted[j] == h);
    let k = choose|k: int| 0 <= k < all.len() && (#[trigger] all[k]).content_hash == h;
    entries_carry_rows(t, wanted, k);
    let (m, n) = choose|m: int, n: int|
        #![trigger t.rows[m], wanted[n]]
        0 <= m < t.rows.len() && 0 <= n < wanted.len() && wanted[n] == t.rows[m].content_hash
            && carries(all[k], t.rows[m]);
    assert(m == i);
}

/// A merge leaves the rows that were there in their places, and every row that
/// it adds holds what an entry of the batch carries. No application is known of
/// such a row, and it is not pinned.
pub proof fn merged_rows_are_entries(t: Table, batch: Seq<WireView>, k: int)
    requires
        0 <= k < merged(t, batch).rows.len(),
    ensures
        k < t.rows.len() ==> merged(t, batch).rows[k] == t.rows[k],
        k >= t.rows.len() ==> merged(t, batch).rows[k].source_app is None && !merged(
            t,
            batch,
        ).rows[k].pinned && exists|j: int|
            0 <= j < batch.len() && carries(#[trigger] batch[j], merged(t, batch).rows[k]),
    decreases batch.len(),
{
    if batch.len() > 0 {
        let front = batch.drop_last();
        let last = batch.len() - 1;
        let u = merged(t, front);
        let v = merged(t, batch);
        if k < u.rows.len() {
            merged_rows_are_entries(t, front, k);
            assert(v.rows[k] == u.rows[k]);
            if k >= t.rows.len() {
                let j = choose|j: int|
                    0 <= j < front.len() && carries(#[trigger] front[j], u.rows[k]);
                assert(batch[j] == front[j]);
            }
        } else {
            merge_keeps_rows(t, front);
            assert(batch[last] == batch.last());
            assert(carries(batch[last], v.rows[k]));
        }
    }
}

/// A round brings every row that the receiving table lacked: with the content,
/// the mime type, the creation and the last use that it has in the sending one.
pub proof fn round_brings_rows(from: Table, to: Table, told: Seq<i64>, i: int)
    requires
        from.valid(),
        to.valid(),
        hash_ints(told) == hashes(from),
        to.last_id + told.len() <= i64::MAX,
        0 <= i < from.rows.len(),
        forall|j: int|
            0 <= j < to.rows.len() ==> (#[trigger] to.rows[j]).content_hash
                != from.rows[i].content_hash,
    ensures
        exists|k: int|
            #![trigger round(from, to, told).rows[k]]
            to.rows.len() <= k < round(from, to, told).rows.len() && {
                let r = round(from, to, told).rows[k];
                &&& r.content_hash == from.rows[i].content_hash
                &&& r.content == from.rows[i].content
                &&& r.mime == from.rows[i].mime
                &&& r.created_at == from.rows[i].created_at
                &&& r.last_used == from.rows[i].last_used
            },
{
    let h = from.rows[i].content_hash;
    let u = round(from, to, told);
    hash_position(from.rows, h);
    hash_position(to.rows, h);
    round_unites(from, to, told, h);
    hash_position(u.rows, h);
    let k = hash_at(u.rows, h);
    round_adds_only_rows(from, to, told, k);
    if k < to.rows.len() {
        assert(u.rows[k] == to.rows[k]);
    }
    let m = choose|m: int|
        #![trigger from.rows[m]]
        0 <= m < from.rows.len() && from.rows[m].content_hash == u.rows[k].content_hash
            && from.rows[m].content == u.rows[k].content && from.rows[m].mime == u.rows[k].mime
            && from.rows[m].created_at == u.rows[k].created_at && from.rows[m].last_used
            == u.rows[k].last_used;
    assert(m == i);
}

/// A round changes no row of the receiving table, and every row that it adds is
/// one of the sending table, without its application and pin.
pub proof fn round_adds_only_rows(from: Table, to: Table, told: Seq<i64>, k: int)
    requires
        0 <= k < round(from, to, told).rows.len(),
    ensures
        k < to.rows.len() ==> round(from, to, told).rows[k] == to.rows[k],
        k >= to.rows.len() ==> exists|m: int|
            #![trigger from.rows[m]]
            0 <= m < from.rows.len() && from.rows[m].content_hash == round(
                from,
                to,
                told,
            ).rows[k].content_hash && from.rows[m].content == round(from, to, told).rows[k].content
                && from.rows[m].mime == round(from, to, told).rows[k].mime
                && from.rows[m].created_at == round(from, to, told).rows[k].created_at
                && from.rows[m].last_used == round(from, to, told).rows[k].last_used,
        k >= to.rows.len() ==> !round(from, to, told).rows[k].pinned && round(
            from,
            to,
            told,
        ).rows[k].source_app is None,
{
    let wanted = missing(to, told);
    let batch = entries(from, wanted);
    let u = round(from, to, told);
    merged_rows_are_entries(to, batch, k);
    if k >= to.rows.len() {
        let j = choose|j: int| 0 <= j < batch.len() && carries(#[trigger] batch[j], u.rows[k]);
        entries_carry_rows(from, wanted, j);
        let (m, n) = choose|m: int, n: int|
            #![trigger from.rows[m], wanted[n]]
            0 <= m < from.rows.len() && 0 <= n < wanted.len() && wanted[n]
                == from.rows[m].content_hash && carries(batch[j], from.rows[m]);
        assert(from.rows[m].content == u.rows[k].content);
    }
}

/// As many entries count as new as rows were added, and these are the entries,
/// in order.
pub proof fn inserted_are_the_new_rows(t: Table, batch: Seq<WireView>)
    requires
        t.valid(),
        t.last_id + batch.len() <= i64::MAX,
    ensures
        merged(t, batch).rows.len() == t.rows.len() + inserted(t, batch).len(),
        forall|k: int|
            #![trigger inserted(t, batch)[k]]
            0 <= k < inserted(t, batch).len() ==> carries(
                inserted(t, batch)[k],
                merged(t, batch).rows[t.rows.len() + k],
            ),
    decreases batch.len(),
{
    if batch.len() > 0 {
        let front = batch.drop_last();
        let u = merged(t, front);
        let v = merged(t, batch);
        inserted_are_the_new_rows(t, front);
        merge_keeps_valid(t, front);
        hash_position(u.rows, batch.last().content_hash);
        let some = inserted(t, front);
        let all = inserted(t, batch);
        assert forall|k: int| #![trigger all[k]] 0 <= k < all.len() implies carries(
            all[k],
            v.rows[t.rows.len() + k],
        ) by {
            if k < some.len() {
                assert(all[k] == some[k]);
                assert(v.rows[t.rows.len() + k] == u.rows[t.rows.len() + k]);
            }
        }
    }
}

/// The freshest of some entries is one of them, none was created after it, and
/// all before it were created earlier.
pub proof fn freshest_is_latest(all: Seq<WireView>)
    ensures
        freshest(all) is None <==> all.len() == 0,
        freshest(all) is Some ==> exists|k: int|
            0 <= k < all.len() && #[trigger] all[k] == freshest(all)->0 && (forall|j: int|
                0 <= j < all.len() ==> (#[trigger] all[j]).created_at <= all[k].created_at) && (
            forall|j: int|
                0 <= j < k ==> (#[trigger] all[j]).created_at < all[k].created_at),
    decreases all.len(),
{
    if all.len() > 0 {
        let part = all.drop_last();
        let n = all.len() - 1;
        freshest_is_latest(part);
        assert(all[n] == all.last());
        if part.len() > 0 {
            let k = choose|k: int|
                0 <= k < part.len() && #[trigger] part[k] == freshest(part)->0 && (forall|j: int|
                    0 <= j < part.len() ==> (#[trigger] part[j]).created_at <= part[k].created_at)
                    && (forall|j: int|
                    0 <= j < k ==> (#[trigger] part[j]).created_at < part[k].created_at);
            assert(all[k] == part[k]);
            assert(forall|j: int| 0 <= j < n ==> #[trigger] all[j] == part[j]);
        }
    }
}

} // verus!

//! The search of a clipboard list: which of its items a query lists.

use crate::desktop::slice_text;
use crate::order::{all_below, firsts, ints, list_firsts};
use crate::text::{contains, contains_str, lowercase, to_lowercase};
use vstd::prelude::*;

verus! {

/// How many rows are kept for a query.
pub const MAX_ROWS: usize = 50;

/// An item of a list that is searched by its text. A picture has none.
pub trait Searchable {
    /// The text that is searched.
    spec fn searched(self) -> Option<Seq<char>>;

    /// The text that is searched.
    fn search_text(&self) -> (r: Option<&str>) where Self: Sized
        ensures
            slice_text(r) == self.searched(),
    ;
}

/// The texts of a list.
pub open spec fn texts_of<T: Searchable>(v: Seq<T>) -> Seq<Option<Seq<char>>> {
    v.map_values(|e: T| e.searched())
}

/// Whether a query in lower case finds a text: it holds it, whatever the case.
pub open spec fn finds(text: Option<Seq<char>>, query: Seq<char>) -> bool {
    text matches Some(t) && contains(lowercase(t), query)
}

/// The positions of the texts that a query in lower case finds.
pub open spec fn hits(texts: Seq<Option<Seq<char>>>, query: Seq<char>) -> Seq<int>
    decreases texts.len(),
{
    if texts.len() == 0 {
        Seq::empty()
    } else {
        let before = hits(texts.drop_last(), query);
        if finds(texts.last(), query) {
            before.push(texts.len() - 1)
        } else {
            before
        }
    }
}

/// The front of a list.
pub open spec fn at_most<A>(s: Seq<A>, n: int) -> Seq<A> {
    if s.len() > n {
        s.take(n)
    } else {
        s
    }
}

/// The rows for a query: the first items, or the first that it finds.
pub open spec fn rows_for(texts: Seq<Option<Seq<char>>>, query: Seq<char>) -> Seq<int> {
    if lowercase(query).len() == 0 {
        firsts(texts.len() as int, MAX_ROWS as int)
    } else {
        at_most(hits(texts, lowercase(query)), MAX_ROWS as int)
    }
}

/// Lists the rows for a query.
pub fn find_rows<T: Searchable>(entries: &Vec<T>, query: &str) -> (r: Vec<usize>)
    ensures
        ints(r@) == rows_for(texts_of(entries@), query@),
        all_below(ints(r@), entries@.len() as int),
{
    let ghost ev = texts_of(entries@);
    proof {
        rows_are_listed(ev, query@);
    }
    let q = to_lowercase(query);
    if q.as_str().is_empty() {
        return list_firsts(entries.len(), MAX_ROWS);
    }
    let mut r: Vec<usize> = Vec::new();
    let mut i: usize = 0;
    assert(ints(r@) == hits(ev.take(0), q@));
    while i < entries.len()
        invariant
            i <= entries@.len(),
            ev == texts_of(entries@),
            ints(r@) == hits(ev.take(i as int), q@),
        decreases entries.len() - i,
    {
        proof {
            assert(ev.take(i + 1).drop_last() == ev.take(i as int));
            assert(ev.take(i + 1).last() == entries@[i as int].searched());
        }
        let ghost head = r@;
        match entries[i].search_text() {
            Some(t) => {
                let low = to_lowercase(t);
                if contains_str(low.as_str(), q.as_str()) {
                    r.push(i);
                    assert(ints(r@) == ints(head).push(i as int));
                }
            },
            None => {},
        }
        i = i + 1;
    }
    assert(ev.take(ev.len() as int) == ev);
    let ghost all = r@;
    if r.len() > MAX_ROWS {
        r.truncate(MAX_ROWS);
    }
    assert(ints(r@) =~= at_most(ints(all), MAX_ROWS as int));
    r
}

proof fn hits_are_listed(texts: Seq<Option<Seq<char>>>, query: Seq<char>)
    ensures
        all_below(hits(texts, query), texts.len() as int),
        forall|k: int|
            0 <= k < hits(texts, query).len() ==> finds(
                texts[#[trigger] hits(texts, query)[k]],
                query,
            ),
    decreases texts.len(),
{
    if texts.len() > 0 {
        let before = hits(texts.drop_last(), query);
        let all = hits(texts, query);
        hits_are_listed(texts.drop_last(), query);
        assert forall|k: int| 0 <= k < all.len() implies 0 <= #[trigger] all[k] < texts.len()
            && finds(texts[all[k]], query) by {
            if k < before.len() {
                assert(all[k] == before[k]);
                assert(texts.drop_last()[before[k]] == texts[before[k]]);
            }
        }
    }
}

/// Rows are positions of items, not too many of them, and a query that is not
/// empty lists only texts that hold it.
pub proof fn rows_are_listed(texts: Seq<Option<Seq<char>>>, query: Seq<char>)
    ensures
        all_below(rows_for(texts, query), texts.len() as int),
        rows_for(texts, query).len() <= MAX_ROWS,
        lowercase(query).len() > 0 ==> forall|k: int|
            0 <= k < rows_for(texts, query).len() ==> finds(
                texts[#[trigger] rows_for(texts, query)[k]],
                lowercase(query),
            ),
{
    hits_are_listed(texts, lowercase(query));
}

proof fn hits_are_complete(texts: Seq<Option<Seq<char>>>, query: Seq<char>)
    ensures
        forall|i: int|
            0 <= i < texts.len() && (texts[i] matches Some(t) && contains(lowercase(t), query))
                ==> #[trigger] hits(texts, query).contains(i),
        forall|j: int, k: int|
            0 <= j < k < hits(texts, query).len() ==> #[trigger] hits(texts, query)[j]
                < #[trigger] hits(texts, query)[k],
    decreases texts.len(),
{
    if texts.len() > 0 {
        let part = texts.drop_last();
        let before = hits(part, query);
        let all = hits(texts, query);
        hits_are_complete(part, query);
        hits_are_listed(part, query);
        assert forall|i: int|
            0 <= i < texts.len() && (texts[i] matches Some(t) && contains(
                lowercase(t),
                query,
            )) implies #[trigger] all.contains(i) by {
            if i < part.len() {
                assert(part[i] == texts[i]);
                assert(before.contains(i));
                let k = choose|k: int| 0 <= k < before.len() && before[k] == i;
                assert(all[k] == i);
            } else {
                assert(all.last() == i);
            }
        }
        assert forall|j: int, k: int| 0 <= j < k < all.len() implies #[trigger] all[j]
            < #[trigger] all[k] by {
            assert(all[j] == before[j]);
            if k < before.len() {
                assert(all[k] == before[k]);
            }
        }
    }
}

/// A query that is not empty lists the first items whose text holds it,
/// whatever the case: the rows ascend, the text of each holds the query, and an
/// item whose text holds it is left out only where the rows are full and all
/// come before it.
pub proof fn rows_hold_the_query(texts: Seq<Option<Seq<char>>>, query: Seq<char>, i: int)
    requires
        lowercase(query).len() > 0,
        0 <= i < texts.len(),
    ensures
        rows_for(texts, query).contains(i) ==> (texts[i] matches Some(t) && contains(
            lowercase(t),
            lowercase(query),
        )),
        (texts[i] matches Some(t) && contains(lowercase(t), lowercase(query)))
            && !rows_for(texts, query).contains(i) ==> rows_for(texts, query).len() == 50
            && forall|k: int|
            0 <= k < rows_for(texts, query).len() ==> #[trigger] rows_for(texts, query)[k] < i,
        forall|j: int, k: int|
            0 <= j < k < rows_for(texts, query).len() ==> #[trigger] rows_for(texts, query)[j]
                < #[trigger] rows_for(texts, query)[k],
        forall|k: int|
            0 <= k < rows_for(texts, query).len() ==> 0 <= #[trigger] rows_for(texts, query)[k]
                < texts.len(),
        rows_for(texts, query).len() <= MAX_ROWS,
{
    let q = lowercase(query);
    let all = hits(texts, q);
    let rows = rows_for(texts, query);
    hits_are_listed(texts, q);
    hits_are_complete(texts, q);
    if rows.contains(i) {
        let k = choose|k: int| 0 <= k < rows.len() && rows[k] == i;
        assert(all[k] == i);
    }
    if (texts[i] matches Some(t) && contains(lowercase(t), q)) && !rows.contains(i) {
        assert(all.contains(i));
        let m = choose|m: int| 0 <= m < all.len() && all[m] == i;
        if m < rows.len() {
            assert(rows[m] == i);
        }
        assert forall|k: int| 0 <= k < rows.len() implies #[trigger] rows[k] < i by {
            assert(rows[k] == all[k]);
            assert(all[k] < all[m]);
        }
    }
    assert forall|j: int, k: int| 0 <= j < k < rows.len() implies #[trigger] rows[j]
        < #[trigger] rows[k] by {
        assert(all[j] < all[k]);
    }
    assert forall|k: int| 0 <= k < rows.len() implies 0 <= #[trigger] rows[k] < texts.len() by {
        assert(all[k] == rows[k]);
    }
}

/// Without a query the rows are the first items, as many as are kept.
pub proof fn no_query_lists_the_first(texts: Seq<Option<Seq<char>>>, query: Seq<char>)
    requires
        lowercase(query).len() == 0,
    ensures
        rows_for(texts, query).len() == (if texts.len() < 50 {
            texts.len() as int
        } else {
            50
        }),
        forall|k: int|
            0 <= k < rows_for(texts, query).len() ==> #[trigger] rows_for(texts, query)[k] == k,
{
}

} // verus!

//! Stable ranking: the positions of a list's items in ascending order of their keys.

use crate::text::{chars_of, comes_before, order_is_total, order_is_transitive, precedes};
use vstd::prelude::*;

verus! {

/// A value that has a place in a total order of keys.
pub trait Ranked: Sized {
    /// What the value is ordered by.
    type Key;

    /// The key of a value.
    spec fn key(&self) -> Self::Key;

    /// Whether one key comes strictly before another.
    spec fn before(a: Self::Key, b: Self::Key) -> bool;

    /// Two keys are not each before the other.
    proof fn asymmetric(a: Self::Key, b: Self::Key)
        requires
            Self::before(a, b),
        ensures
            !Self::before(b, a),
    ;

    /// What is before `b` is before everything that is not before `b`.
    proof fn weakly_transitive(a: Self::Key, b: Self::Key, c: Self::Key)
        requires
            Self::before(a, b),
            !Self::before(c, b),
        ensures
            Self::before(a, c),
    ;

    /// Whether this value's key comes strictly before the other's.
    fn is_before(&self, other: &Self) -> (r: bool)
        ensures
            r == Self::before(self.key(), other.key()),
    ;
}

impl Ranked for i128 {
    type Key = int;

    open spec fn key(&self) -> int {
        *self as int
    }

    open spec fn before(a: int, b: int) -> bool {
        a < b
    }

    proof fn asymmetric(a: int, b: int) {
    }

    proof fn weakly_transitive(a: int, b: int, c: int) {
    }

    fn is_before(&self, other: &Self) -> (r: bool) {
        *self < *other
    }
}

impl Ranked for String {
    type Key = Seq<char>;

    open spec fn key(&self) -> Seq<char> {
        self@
    }

    open spec fn before(a: Seq<char>, b: Seq<char>) -> bool {
        crate::text::precedes(a, b)
    }

    proof fn asymmetric(a: Seq<char>, b: Seq<char>) {
        order_is_total(a, b);
    }

    proof fn weakly_transitive(a: Seq<char>, b: Seq<char>, c: Seq<char>) {
        order_is_total(b, c);
        if b != c {
            order_is_transitive(a, b, c);
        }
    }

    fn is_before(&self, other: &Self) -> (r: bool) {
        let a = chars_of(self.as_str());
        let b = chars_of(other.as_str());
        comes_before(a.as_slice(), b.as_slice())
    }
}

/// The keys of a list of values.
pub open spec fn keys_of<T: Ranked>(v: Seq<T>) -> Seq<T::Key> {
    v.map_values(|x: T| x.key())
}

/// Whether position `a` stands ahead of position `b`: its key is smaller, or
/// the keys tie and it comes first.
pub open spec fn ahead<T: Ranked>(keys: Seq<T::Key>, a: int, b: int) -> bool {
    T::before(keys[a], keys[b]) || (!T::before(keys[b], keys[a]) && a < b)
}

/// Whether `r` lists every position once, each ahead of those that follow.
pub open spec fn ranks<T: Ranked>(r: Seq<int>, keys: Seq<T::Key>) -> bool {
    &&& r.len() == keys.len()
    &&& forall|i: int| 0 <= i < r.len() ==> 0 <= #[trigger] r[i] < keys.len()
    &&& forall|i: int, j: int|
        0 <= i < j < r.len() ==> ahead::<T>(keys, #[trigger] r[i], #[trigger] r[j])
    &&& forall|k: int| 0 <= k < keys.len() ==> #[trigger] r.contains(k)
}

/// The positions in ascending order of their keys, ties in list order.
pub open spec fn ranking<T: Ranked>(keys: Seq<T::Key>) -> Seq<int> {
    choose|r: Seq<int>| ranks::<T>(r, keys)
}

/// A list of keys has only one ranking.
pub proof fn ranking_is_unique<T: Ranked>(r: Seq<int>, s: Seq<int>, keys: Seq<T::Key>)
    requires
        ranks::<T>(r, keys),
        ranks::<T>(s, keys),
    ensures
        r == s,
{
    assert forall|n: int| 0 <= n <= keys.len() implies #[trigger] r.take(n) == s.take(n) by {
        same_prefix::<T>(r, s, keys, n as nat);
    }
    assert(r.take(keys.len() as int) == s.take(keys.len() as int));
    assert(r.take(r.len() as int) == r);
    assert(s.take(s.len() as int) == s);
}

proof fn same_prefix<T: Ranked>(r: Seq<int>, s: Seq<int>, keys: Seq<T::Key>, n: nat)
    requires
        ranks::<T>(r, keys),
        ranks::<T>(s, keys),
        n <= keys.len(),
    ensures
        r.take(n as int) == s.take(n as int),
    decreases n,
{
    if n > 0 {
        let i = n - 1;
        same_prefix::<T>(r, s, keys, i as nat);
        if r[i] != s[i] {
            later_occurrence::<T>(r, s, keys, i);
            later_occurrence::<T>(s, r, keys, i);
            not_both_ahead::<T>(keys, r[i], s[i]);
        }
        assert(r.take(n as int) == r.take(i).push(r[i]));
        assert(s.take(n as int) == s.take(i).push(s[i]));
    }
}

proof fn later_occurrence<T: Ranked>(r: Seq<int>, s: Seq<int>, keys: Seq<T::Key>, i: int)
    requires
        ranks::<T>(r, keys),
        ranks::<T>(s, keys),
        0 <= i < keys.len(),
        r.take(i) == s.take(i),
        r[i] != s[i],
    ensures
        ahead::<T>(keys, r[i], s[i]),
{
    assert(r.contains(s[i]));
    let j = choose|j: int| 0 <= j < r.len() && r[j] == s[i];
    if j < i {
        assert(r.take(i)[j] == r[j] && s.take(i)[j] == s[j]);
        assert(ahead::<T>(keys, s[j], s[i]));
        not_both_ahead::<T>(keys, s[i], s[i]);
    }
}

proof fn not_both_ahead<T: Ranked>(keys: Seq<T::Key>, a: int, b: int)
    requires
        ahead::<T>(keys, a, b),
    ensures
        !ahead::<T>(keys, b, a),
{
    if T::before(keys[a], keys[b]) {
        T::asymmetric(keys[a], keys[b]);
    }
}

/// What `ranks` holds of is the ranking.
pub proof fn ranking_is<T: Ranked>(r: Seq<int>, keys: Seq<T::Key>)
    requires
        ranks::<T>(r, keys),
    ensures
        r == ranking::<T>(keys),
        ranks::<T>(ranking::<T>(keys), keys),
{
    ranking_is_unique::<T>(r, ranking::<T>(keys), keys);
}

/// A list of positions as mathematical integers.
pub open spec fn ints(v: Seq<usize>) -> Seq<int> {
    v.map_values(|i: usize| i as int)
}

/// Putting the next position after the last one whose key is not larger keeps
/// the ranking.
proof fn inserted_ranks<T: Ranked>(done: Seq<int>, keys: Seq<T::Key>, m: int, pos: int)
    requires
        0 <= pos <= m < keys.len(),
        ranks::<T>(done, keys.take(m)),
        forall|i: int| pos <= i < m ==> T::before(keys[m], keys[#[trigger] done[i]]),
        pos > 0 ==> !T::before(keys[m], keys[done[pos - 1]]),
    ensures
        ranks::<T>(done.insert(pos, m), keys.take(m + 1)),
{
    let part = keys.take(m);
    let next = keys.take(m + 1);
    let new = done.insert(pos, m);
    assert forall|i: int| 0 <= i < pos implies !T::before(keys[m], keys[#[trigger] done[i]]) by {
        let last = done[pos - 1];
        if i < pos - 1 && T::before(keys[m], keys[done[i]]) {
            assert(ahead::<T>(part, done[i], last));
            assert(part[done[i]] == keys[done[i]] && part[last] == keys[last]);
            if T::before(keys[done[i]], keys[last]) {
                T::asymmetric(keys[done[i]], keys[last]);
            }
            T::weakly_transitive(keys[m], keys[done[i]], keys[last]);
        }
    }
    assert forall|i: int, j: int| 0 <= i < j < new.len() implies ahead::<T>(
        next,
        #[trigger] new[i],
        #[trigger] new[j],
    ) by {
        let a = if i < pos { i } else { i - 1 };
        let b = if j < pos { j } else { j - 1 };
        if i != pos && j != pos {
            assert(new[i] == done[a] && new[j] == done[b]);
            assert(ahead::<T>(part, done[a], done[b]));
            assert(part[done[a]] == next[done[a]] && part[done[b]] == next[done[b]]);
        } else if i == pos {
            assert(new[j] == done[b]);
            assert(next[done[b]] == keys[done[b]]);
        } else {
            assert(new[i] == done[a]);
            assert(next[done[a]] == keys[done[a]]);
        }
    }
    assert forall|k: int| 0 <= k < next.len() implies #[trigger] new.contains(k) by {
        if k == m {
            assert(new[pos] == k);
        } else {
            assert(done.contains(k));
            let i = choose|i: int| 0 <= i < done.len() && done[i] == k;
            assert(new[if i < pos { i } else { i + 1 }] == k);
        }
    }
    assert forall|i: int| 0 <= i < new.len() implies 0 <= #[trigger] new[i] < next.len() by {
        let a = if i < pos { i } else { i - 1 };
        if i != pos {
            assert(new[i] == done[a]);
        }
    }
}

/// Where the next position goes among the first `n` ranked ones.
spec fn slot<T: Ranked>(done: Seq<int>, keys: Seq<T::Key>, m: int, n: nat) -> nat
    decreases n,
{
    if n > 0 && T::before(keys[m], keys[done[n - 1]]) {
        slot::<T>(done, keys, m, (n - 1) as nat)
    } else {
        n
    }
}

proof fn slot_splits<T: Ranked>(done: Seq<int>, keys: Seq<T::Key>, m: int, n: nat)
    ensures
        slot::<T>(done, keys, m, n) <= n,
        forall|i: int|
            slot::<T>(done, keys, m, n) <= i < n ==> T::before(keys[m], keys[#[trigger] done[i]]),
        slot::<T>(done, keys, m, n) > 0 ==> !T::before(
            keys[m],
            keys[done[slot::<T>(done, keys, m, n) - 1]],
        ),
    decreases n,
{
    if n > 0 && T::before(keys[m], keys[done[n - 1]]) {
        slot_splits::<T>(done, keys, m, (n - 1) as nat);
    }
}

/// Every list of keys has a ranking.
pub proof fn ranking_exists<T: Ranked>(keys: Seq<T::Key>)
    ensures
        ranks::<T>(ranking::<T>(keys), keys),
    decreases keys.len(),
{
    if keys.len() == 0 {
        assert(ranks::<T>(Seq::<int>::empty(), keys));
    } else {
        let m = keys.len() - 1;
        let front = keys.take(m);
        ranking_exists::<T>(front);
        let done = ranking::<T>(front);
        slot_splits::<T>(done, keys, m, m as nat);
        let pos = slot::<T>(done, keys, m, m as nat);
        inserted_ranks::<T>(done, keys, m, pos as int);
        assert(keys.take(m + 1) == keys);
        assert(ranks::<T>(done.insert(pos as int, m), keys));
    }
}

/// Ranks the values of a list by their keys.
pub fn rank<T: Ranked>(v: &Vec<T>) -> (r: Vec<usize>)
    ensures
        ranks::<T>(ints(r@), keys_of(v@)),
        ints(r@) == ranking::<T>(keys_of(v@)),
{
    let ghost keys = keys_of(v@);
    let mut r: Vec<usize> = Vec::new();
    let mut m: usize = 0;
    assert(keys.take(0).len() == 0);
    while m < v.len()
        invariant
            m <= v.len(),
            keys == keys_of(v@),
            ranks::<T>(ints(r@), keys.take(m as int)),
        decreases v.len() - m,
    {
        let ghost done = ints(r@);
        let ghost part = keys.take(m as int);
        let mut pos: usize = m;
        assert forall|i: int| 0 <= i < r@.len() implies #[trigger] r@[i] < m by {
            assert(done[i] == r@[i] as int);
        }
        while pos > 0 && v[m].is_before(&v[r[pos - 1]])
            invariant
                pos <= m < v.len(),
                r@.len() == m,
                forall|i: int| 0 <= i < r@.len() ==> #[trigger] r@[i] < m,
                keys == keys_of(v@),
                done == ints(r@),
                part == keys.take(m as int),
                ranks::<T>(done, part),
                forall|i: int|
                    pos <= i < m ==> T::before(keys[m as int], keys[#[trigger] done[i]]),
            decreases pos,
        {
            assert(done[pos - 1] == r@[pos - 1] as int);
            pos = pos - 1;
        }
        proof {
            if pos > 0 {
                assert(done[pos - 1] == r@[pos - 1] as int);
            }
            inserted_ranks::<T>(done, keys, m as int, pos as int);
        }
        r.insert(pos, m);
        assert(ints(r@) == done.insert(pos as int, m as int));
        m = m + 1;
    }
    proof {
        assert(keys.take(keys.len() as int) == keys);
        ranking_is::<T>(ints(r@), keys);
    }
    r
}

/// The first components of some pairs in descending order of the second ones,
/// ties in list order; at most so many.
pub open spec fn best_of(found: Seq<(int, int)>, most: int) -> Seq<int> {
    let order = ranking::<i128>(found.map_values(|h: (int, int)| -h.1));
    let all = order.map_values(|i: int| found[i].0);
    if all.len() > most {
        all.take(most)
    } else {
        all
    }
}

/// Positions with points as mathematical integers.
pub open spec fn pairs(v: Seq<(usize, i128)>) -> Seq<(int, int)> {
    v.map_values(|p: (usize, i128)| (p.0 as int, p.1 as int))
}

/// Takes the positions with the most points.
pub fn take_best(found: &Vec<(usize, i128)>, most: usize) -> (r: Vec<usize>)
    requires
        forall|i: int| 0 <= i < found@.len() ==> (#[trigger] found@[i]).1 > i128::MIN,
    ensures
        ints(r@) == best_of(pairs(found@), most as int),
{
    let ghost fv = pairs(found@);
    let mut keys: Vec<i128> = Vec::new();
    let mut i: usize = 0;
    while i < found.len()
        invariant
            i <= found@.len(),
            forall|i: int| 0 <= i < found@.len() ==> (#[trigger] found@[i]).1 > i128::MIN,
            keys@.len() == i,
            forall|j: int| 0 <= j < i ==> #[trigger] keys@[j] as int == -(found@[j].1 as int),
        decreases found.len() - i,
    {
        keys.push(-found[i].1);
        i = i + 1;
    }
    let ghost kv = fv.map_values(|h: (int, int)| -h.1);
    assert(keys_of(keys@) == kv);
    let order = rank(&keys);
    let ghost ranked = ints(order@);
    let n: usize = if order.len() > most {
        most
    } else {
        order.len()
    };
    let mut r: Vec<usize> = Vec::new();
    let mut k: usize = 0;
    while k < n
        invariant
            k <= n <= order@.len(),
            ranked == ints(order@),
            ranks::<i128>(ranked, kv),
            kv.len() == found@.len(),
            fv == pairs(found@),
            r@.len() == k,
            forall|j: int| 0 <= j < k ==> #[trigger] r@[j] as int == fv[ranked[j]].0,
        decreases n - k,
    {
        assert(ranked[k as int] == order@[k as int] as int);
        r.push(found[order[k]].0);
        k = k + 1;
    }
    assert(ints(r@) =~= best_of(fv, most as int));
    r
}

/// Whether all positions are those of a list of so many items.
pub open spec fn all_below(positions: Seq<int>, n: int) -> bool {
    forall|i: int| 0 <= i < positions.len() ==> 0 <= #[trigger] positions[i] < n
}

/// Whether pairs are in ascending order of their first components, which are
/// positions in a list of so many items.
pub open spec fn positions_ascend(found: Seq<(int, int)>, n: int) -> bool {
    &&& forall|k: int| 0 <= k < found.len() ==> 0 <= (#[trigger] found[k]).0 < n
    &&& forall|i: int, j: int|
        0 <= i < j < found.len() ==> (#[trigger] found[i]).0 < (#[trigger] found[j]).0
}

/// A ranking lists no position twice.
pub proof fn ranking_is_distinct<T: Ranked>(keys: Seq<T::Key>)
    ensures
        ranking::<T>(keys).no_duplicates(),
{
    ranking_exists::<T>(keys);
    let r = ranking::<T>(keys);
    assert forall|i: int, j: int| 0 <= i < r.len() && 0 <= j < r.len() && i != j implies r[i]
        != r[j] by {
        let (a, b) = if i < j {
            (i, j)
        } else {
            (j, i)
        };
        assert(ahead::<T>(keys, r[a], r[b]));
        if r[a] == r[b] && T::before(keys[r[a]], keys[r[b]]) {
            T::asymmetric(keys[r[a]], keys[r[b]]);
        }
    }
}

/// What is best of some pairs are first components of them, none of them twice.
pub proof fn best_of_is_found(found: Seq<(int, int)>, most: int, n: int)
    requires
        0 <= most,
        positions_ascend(found, n),
    ensures
        all_below(best_of(found, most), n),
        best_of(found, most).len() <= most,
        best_of(found, most).no_duplicates(),
{
    let keys = found.map_values(|h: (int, int)| -h.1);
    ranking_exists::<i128>(keys);
    let r = ranking::<i128>(keys);
    assert forall|i: int| 0 <= i < best_of(found, most).len() implies 0 <= #[trigger] best_of(
        found,
        most,
    )[i] < n by {
        assert(0 <= r[i] < found.len());
        assert(found[r[i]].0 == best_of(found, most)[i]);
    }
    ranking_is_distinct::<i128>(keys);
    let b = best_of(found, most);
    assert forall|i: int, j: int| 0 <= i < b.len() && 0 <= j < b.len() && i != j implies b[i]
        != b[j] by {
        assert(b[i] == found[r[i]].0 && b[j] == found[r[j]].0);
        assert(r[i] != r[j]);
        if r[i] < r[j] {
            assert(found[r[i]].0 < found[r[j]].0);
        } else {
            assert(found[r[j]].0 < found[r[i]].0);
        }
    }
}

/// The first positions of a list of so many items, at most so many.
pub open spec fn firsts(len: int, most: int) -> Seq<int> {
    Seq::new(
        if len < most {
            len as nat
        } else {
            most as nat
        },
        |i: int| i,
    )
}

/// Lists the first positions of a list.
pub fn list_firsts(len: usize, most: usize) -> (r: Vec<usize>)
    ensures
        ints(r@) == firsts(len as int, most as int),
        all_below(ints(r@), len as int),
{
    let mut r: Vec<usize> = Vec::new();
    let mut i: usize = 0;
    while i < len && i < most
        invariant
            i <= len,
            i <= most,
            r@.len() == i,
            forall|j: int| 0 <= j < i ==> #[trigger] r@[j] == j,
        decreases len - i,
    {
        r.push(i);
        i = i + 1;
    }
    assert(ints(r@) =~= firsts(len as int, most as int));
    r
}

/// What is best comes first: a pair that is listed has at least as many points
/// as one that is listed after it, or that is left out.
pub proof fn best_of_is_best(found: Seq<(int, int)>, most: int)
    requires
        0 <= most,
    ensures
        ({
            let order = ranking::<i128>(found.map_values(|h: (int, int)| -h.1));
            &&& order.len() == found.len()
            &&& forall|i: int| 0 <= i < best_of(found, most).len() ==> #[trigger] best_of(found, most)[i]
                == found[order[i]].0
            &&& forall|i: int, j: int|
                0 <= i < j < order.len() ==> found[#[trigger] order[i]].1 >= found[#[trigger] order[j]].1
        }),
{
    let keys = found.map_values(|h: (int, int)| -h.1);
    ranking_exists::<i128>(keys);
    let order = ranking::<i128>(keys);
    assert forall|i: int, j: int| 0 <= i < j < order.len() implies found[#[trigger] order[i]].1
        >= found[#[trigger] order[j]].1 by {
        assert(ahead::<i128>(keys, order[i], order[j]));
        assert(keys[order[i]] == -found[order[i]].1);
        assert(keys[order[j]] == -found[order[j]].1);
    }
}

/// Numbers are ranked from the smallest to the largest, equal ones as they come
/// in the list, and every position is ranked once.
pub proof fn numbers_are_ranked(keys: Seq<int>)
    ensures
        ranking::<i128>(keys).len() == keys.len(),
        ranking::<i128>(keys).no_duplicates(),
        forall|k: int| 0 <= k < keys.len() ==> #[trigger] ranking::<i128>(keys).contains(k),
        forall|i: int|
            0 <= i < keys.len() ==> 0 <= #[trigger] ranking::<i128>(keys)[i] < keys.len(),
        forall|i: int, j: int|
            #![trigger ranking::<i128>(keys)[i], ranking::<i128>(keys)[j]]
            0 <= i < j < keys.len() ==> {
                let (a, b) = (ranking::<i128>(keys)[i], ranking::<i128>(keys)[j]);
                keys[a] < keys[b] || (keys[a] == keys[b] && a < b)
            },
{
    ranking_exists::<i128>(keys);
    ranking_is_distinct::<i128>(keys);
    let r = ranking::<i128>(keys);
    assert forall|i: int, j: int|
        #![trigger r[i], r[j]]
        0 <= i < j < keys.len() implies keys[r[i]] < keys[r[j]] || (keys[r[i]] == keys[r[j]]
        && r[i] < r[j]) by {
        assert(ahead::<i128>(keys, r[i], r[j]));
    }
}

/// Texts are ranked in the order of their characters, equal ones as they come
/// in the list, and every position is ranked once.
pub proof fn texts_are_ranked(keys: Seq<Seq<char>>)
    ensures
        ranking::<String>(keys).len() == keys.len(),
        ranking::<String>(keys).no_duplicates(),
        forall|k: int| 0 <= k < keys.len() ==> #[trigger] ranking::<String>(keys).contains(k),
        forall|i: int|
            0 <= i < keys.len() ==> 0 <= #[trigger] ranking::<String>(keys)[i] < keys.len(),
        forall|i: int, j: int|
            #![trigger ranking::<String>(keys)[i], ranking::<String>(keys)[j]]
            0 <= i < j < keys.len() ==> {
                let (a, b) = (ranking::<String>(keys)[i], ranking::<String>(keys)[j]);
                precedes(keys[a], keys[b]) || (keys[a] == keys[b] && a < b)
            },
{
    ranking_exists::<String>(keys);
    ranking_is_distinct::<String>(keys);
    let r = ranking::<String>(keys);
    assert forall|i: int, j: int|
        #![trigger r[i], r[j]]
        0 <= i < j < keys.len() implies precedes(keys[r[i]], keys[r[j]]) || (keys[r[i]]
        == keys[r[j]] && r[i] < r[j]) by {
        assert(ahead::<String>(keys, r[i], r[j]));
        order_is_total(keys[r[i]], keys[r[j]]);
    }
}

/// Whether one pair is to be listed before another: it has more points, or as
/// many and comes first.
pub open spec fn outranks(found: Seq<(int, int)>, a: int, b: int) -> bool {
    found[a].1 > found[b].1 || (found[a].1 == found[b].1 && a < b)
}

/// A pair is listed among the best unless so many others are listed that all
/// have more points, or as many and come first; and those that are listed stand
/// in this order.
pub proof fn best_of_leaves_out_the_worst(found: Seq<(int, int)>, most: int, n: int, h: int)
    requires
        0 <= most,
        positions_ascend(found, n),
        0 <= h < found.len(),
    ensures
        best_of(found, most).contains(found[h].0) || best_of(found, most).len() == most,
        forall|m: int|
            0 <= m < found.len() && best_of(found, most).contains((#[trigger] found[m]).0)
                && !best_of(found, most).contains(found[h].0) ==> outranks(found, m, h),
        forall|i: int, j: int|
            #![trigger best_of(found, most)[i], best_of(found, most)[j]]
            0 <= i < j < best_of(found, most).len() ==> exists|a: int, b: int|
                #![trigger found[a], found[b]]
                0 <= a < found.len() && 0 <= b < found.len() && found[a].0 == best_of(
                    found,
                    most,
                )[i] && found[b].0 == best_of(found, most)[j] && outranks(found, a, b),
{
    let keys = found.map_values(|x: (int, int)| -x.1);
    numbers_are_ranked(keys);
    let r = ranking::<i128>(keys);
    let b = best_of(found, most);
    assert(forall|k: int| 0 <= k < b.len() ==> #[trigger] b[k] == found[r[k]].0);
    assert(r.contains(h));
    let at = choose|k: int| 0 <= k < r.len() && r[k] == h;
    if at < b.len() {
        assert(b[at] == found[h].0);
    }
    assert forall|m: int|
        0 <= m < found.len() && b.contains((#[trigger] found[m]).0) && !b.contains(
            found[h].0,
        ) implies outranks(found, m, h) by {
        let k = choose|k: int| 0 <= k < b.len() && b[k] == found[m].0;
        assert(0 <= r[k] < found.len());
        if r[k] < m {
            assert(found[r[k]].0 < found[m].0);
        } else if m < r[k] {
            assert(found[m].0 < found[r[k]].0);
        }
        assert(r[k] == m && r[at] == h && k < at);
        assert(keys[m] == -found[m].1 && keys[h] == -found[h].1);
    }
    assert forall|i: int, j: int| #![trigger b[i], b[j]] 0 <= i < j < b.len() implies exists|
        p: int,
        q: int,
    |
        #![trigger found[p], found[q]]
        0 <= p < found.len() && 0 <= q < found.len() && found[p].0 == b[i] && found[q].0 == b[j]
            && outranks(found, p, q) by {
        assert(0 <= r[i] < found.len() && 0 <= r[j] < found.len());
        assert(keys[r[i]] == -found[r[i]].1 && keys[r[j]] == -found[r[j]].1);
        assert(found[r[i]].0 == b[i] && found[r[j]].0 == b[j] && outranks(found, r[i], r[j]));
    }
}

/// What is listed among the best is the first component of some pair.
pub proof fn listed_hit(found: Seq<(int, int)>, most: int, a: int) -> (h: int)
    requires
        0 <= most,
        0 <= a < best_of(found, most).len(),
    ensures
        0 <= h < found.len(),
        found[h].0 == best_of(found, most)[a],
{
    let keys = found.map_values(|x: (int, int)| -x.1);
    numbers_are_ranked(keys);
    ranking::<i128>(keys)[a]
}

/// The first positions of a list begin with the first and leave none out.
pub proof fn firsts_are_first(len: int, most: int)
    requires
        0 <= len,
        0 <= most,
    ensures
        firsts(len, most).len() == (if len < most {
            len
        } else {
            most
        }),
        forall|k: int| 0 <= k < firsts(len, most).len() ==> #[trigger] firsts(len, most)[k] == k,
{
}

} // verus!

//! The picker: a list of lines of which one is chosen.

use crate::fuzzy::{find_score, score_of};
use crate::keys::{any_pressed, move_selection, moved, was_pressed, Key, KeyEvent};
use crate::launcher::{complete, ghost_text};
use crate::order::{
    all_below, best_of, best_of_is_found, best_of_leaves_out_the_worst, firsts, ints, list_firsts,
    listed_hit, outranks, pairs, positions_ascend, take_best,
};
use crate::keyfile::text_of;
use crate::text::{
    concat, lines, lines_of, lowercase, signed_decimal, signed_decimal_string, starts_with,
    to_lowercase, views,
};
use vstd::prelude::*;

verus! {

/// How many lines are kept for a query.
pub const MAX_ROWS: usize = 50;

/// How many rows are shown without scrolling.
pub const MAX_VISIBLE: usize = 12;

/// The points of a line that begins with the query.
pub const PREFIX_BONUS: u32 = 10000;

/// The lines to choose from: those of the input that are not empty.
pub open spec fn items_in(input: Seq<char>) -> Seq<Seq<char>> {
    lines(input).filter(|l: Seq<char>| l.len() > 0)
}

/// Reads the lines to choose from.
pub fn read_items(input: &str) -> (r: Vec<String>)
    ensures
        views(r@) == items_in(input@),
{
    let all = lines_of(input);
    let ghost av = lines(input@);
    let ghost keep = |l: Seq<char>| l.len() > 0;
    let mut r: Vec<String> = Vec::new();
    let mut i: usize = 0;
    proof {
        reveal(Seq::filter);
    }
    assert(views(r@) == av.take(0).filter(keep));
    while i < all.len()
        invariant
            i <= all@.len(),
            views(all@) == av,
            keep == (|l: Seq<char>| l.len() > 0),
            views(r@) == av.take(i as int).filter(keep),
        decreases all.len() - i,
    {
        proof {
            reveal(Seq::filter);
            assert(av.take(i + 1).drop_last() == av.take(i as int));
            assert(av.take(i + 1).last() == all@[i as int]@);
        }
        let ghost head = r@;
        if !all[i].as_str().is_empty() {
            r.push(all[i].clone());
            assert(views(r@) == views(head).push(av[i as int]));
        }
        i = i + 1;
    }
    assert(av.take(av.len() as int) == av);
    r
}

/// The points of a line for a query: those of the pattern, and a bonus if the
/// line begins with the query, whatever the case.
pub open spec fn points(item: Seq<char>, query: Seq<char>) -> Option<int> {
    match score_of(query, item) {
        Some(s) => Some(
            s + (if lowercase(query).is_prefix_of(lowercase(item)) {
                PREFIX_BONUS as int
            } else {
                0
            }),
        ),
        None => None,
    }
}

/// The lines that a query finds, each with its points.
pub open spec fn hits(items: Seq<Seq<char>>, query: Seq<char>) -> Seq<(int, int)>
    decreases items.len(),
{
    if items.len() == 0 {
        Seq::empty()
    } else {
        let before = hits(items.drop_last(), query);
        match points(items.last(), query) {
            Some(p) => before.push((items.len() - 1, p)),
            None => before,
        }
    }
}

/// The rows for a query: the first lines, or those with the most points.
pub open spec fn rows_for(items: Seq<Seq<char>>, query: Seq<char>) -> Seq<int> {
    if query.len() == 0 {
        firsts(items.len() as int, MAX_ROWS as int)
    } else {
        best_of(hits(items, query), MAX_ROWS as int)
    }
}

proof fn hits_are_items(items: Seq<Seq<char>>, query: Seq<char>)
    ensures
        positions_ascend(hits(items, query), items.len() as int),
    decreases items.len(),
{
    if items.len() > 0 {
        hits_are_items(items.drop_last(), query);
        let before = hits(items.drop_last(), query);
        let all = hits(items, query);
        assert forall|k: int| 0 <= k < all.len() implies 0 <= (#[trigger] all[k]).0
            < items.len() by {
            if k < before.len() {
                assert(all[k] == before[k]);
            }
        }
        assert forall|i: int, j: int| 0 <= i < j < all.len() implies (#[trigger] all[i]).0 < (
        #[trigger] all[j]).0 by {
            assert(all[i] == before[i]);
            if j < before.len() {
                assert(all[j] == before[j]);
            }
        }
    }
}

/// Rows are positions of lines, none twice and not too many of them.
pub proof fn rows_are_items(items: Seq<Seq<char>>, query: Seq<char>)
    ensures
        all_below(rows_for(items, query), items.len() as int),
        rows_for(items, query).len() <= MAX_ROWS,
        rows_for(items, query).no_duplicates(),
{
    hits_are_items(items, query);
    best_of_is_found(hits(items, query), MAX_ROWS as int, items.len() as int);
}

/// Ranks the lines that a query finds.
fn find_rows(items: &Vec<String>, query: &str) -> (r: Vec<usize>)
    requires
        query@.len() > 0,
    ensures
        ints(r@) == rows_for(views(items@), query@),
{
    let ghost iv = views(items@);
    let low = to_lowercase(query);
    let mut scored: Vec<(usize, i128)> = Vec::new();
    let mut i: usize = 0;
    assert(pairs(scored@) == hits(iv.take(0), query@));
    while i < items.len()
        invariant
            i <= items@.len(),
            iv == views(items@),
            low@ == lowercase(query@),
            pairs(scored@) == hits(iv.take(i as int), query@),
            forall|k: int| 0 <= k < scored@.len() ==> 0 <= (#[trigger] scored@[k]).1,
        decreases items.len() - i,
    {
        proof {
            assert(iv.take(i + 1).drop_last() == iv.take(i as int));
            assert(iv.take(i + 1).last() == items@[i as int]@);
            assert(iv[i as int] == items@[i as int]@);
        }
        let ghost head = scored@;
        match find_score(query, items[i].as_str()) {
            Some(s) => {
                let item_low = to_lowercase(items[i].as_str());
                let bonus: u32 = if starts_with(item_low.as_str(), low.as_str()) {
                    PREFIX_BONUS
                } else {
                    0
                };
                let p: i128 = s as i128 + bonus as i128;
                scored.push((i, p));
                assert(pairs(scored@) == pairs(head).push((i as int, p as int)));
            },
            None => {},
        }
        i = i + 1;
    }
    assert(iv.take(iv.len() as int) == iv);
    take_best(&scored, MAX_ROWS)
}

/// The picker while it runs.
pub struct Picker {
    pub items: Vec<String>,
    pub query: String,
    pub filtered: Vec<usize>,
    pub selected: usize,
    pub should_exit: bool,
    /// The line that was chosen.
    pub result: Option<String>,
    /// The completion of the query.
    pub completion: String,
}

/// What the picker shows.
#[verifier::ext_equal]
pub struct PickerView {
    pub items: Seq<Seq<char>>,
    pub query: Seq<char>,
    pub filtered: Seq<int>,
    pub selected: int,
    pub should_exit: bool,
    pub result: Option<Seq<char>>,
    pub completion: Seq<char>,
}

impl View for Picker {
    type V = PickerView;

    open spec fn view(&self) -> PickerView {
        PickerView {
            items: views(self.items@),
            query: self.query@,
            filtered: ints(self.filtered@),
            selected: self.selected as int,
            should_exit: self.should_exit,
            result: text_of(self.result),
            completion: self.completion@,
        }
    }
}

impl PickerView {
    /// Rows are positions of lines.
    pub open spec fn valid(self) -> bool {
        all_below(self.filtered, self.items.len() as int)
    }

    /// The picker with the rows for its query, the first one selected and
    /// completing the query.
    pub open spec fn refiltered(self) -> PickerView {
        let filtered = rows_for(self.items, self.query);
        PickerView {
            filtered,
            selected: 0,
            completion: if filtered.len() > 0 {
                ghost_text(self.query, self.items[filtered[0]])
            } else {
                Seq::empty()
            },
            ..self
        }
    }

    /// The picker once the selected line was chosen, if there is one.
    pub open spec fn activated(self) -> PickerView {
        PickerView {
            should_exit: true,
            result: if self.selected < self.filtered.len() {
                Some(self.items[self.filtered[self.selected]])
            } else {
                self.result
            },
            ..self
        }
    }

    /// The picker after the keys of a frame: the selection moves, Escape leaves,
    /// Enter chooses.
    pub open spec fn stepped(self, events: Seq<KeyEvent>, down: bool, up: bool) -> PickerView {
        let t = PickerView {
            selected: moved(self.selected, self.filtered.len() as int, down, up),
            should_exit: self.should_exit || any_pressed(events, Key::Escape, false),
            ..self
        };
        if any_pressed(events, Key::Enter, false) {
            t.activated()
        } else {
            t
        }
    }
}

impl Picker {
    /// A picker over some lines.
    pub fn new(items: Vec<String>) -> (r: Picker)
        ensures
            r@.valid(),
            r@ == (PickerView {
                items: views(items@),
                query: Seq::empty(),
                filtered: firsts(items@.len() as int, MAX_ROWS as int),
                selected: 0,
                should_exit: false,
                result: None,
                completion: Seq::empty(),
            }),
    {
        let ghost iv = views(items@);
        let filtered = list_firsts(items.len(), MAX_ROWS);
        let r = Picker {
            items,
            query: String::new(),
            filtered,
            selected: 0,
            should_exit: false,
            result: None,
            completion: String::new(),
        };
        assert(r@ =~= (PickerView {
            items: iv,
            query: Seq::empty(),
            filtered: firsts(iv.len() as int, MAX_ROWS as int),
            selected: 0,
            should_exit: false,
            result: None,
            completion: Seq::empty(),
        }));
        r
    }

    /// Lists the rows for the query and selects the first one.
    pub fn filter(&mut self)
        requires
            old(self)@.valid(),
        ensures
            final(self)@.valid(),
            final(self)@ == old(self)@.refiltered(),
    {
        let ghost before = self@;
        proof {
            rows_are_items(before.items, before.query);
        }
        if self.query.as_str().is_empty() {
            self.filtered = list_firsts(self.items.len(), MAX_ROWS);
        } else {
            self.filtered = find_rows(&self.items, self.query.as_str());
        }
        self.selected = 0;
        assert(ints(self.filtered@) == rows_for(before.items, before.query));
        self.completion = if self.filtered.len() > 0 {
            let first: usize = self.filtered[0];
            assert(ints(self.filtered@)[0] == first);
            assert(before.items[first as int] == self.items@[first as int]@);
            complete(self.query.as_str(), self.items[first].as_str())
        } else {
            String::new()
        };
        assert(self@ =~= before.refiltered());
    }

    /// Chooses the selected line and leaves.
    pub fn activate(&mut self)
        requires
            old(self)@.valid(),
        ensures
            final(self)@.valid(),
            final(self)@ == old(self)@.activated(),
    {
        let ghost before = self@;
        if self.selected < self.filtered.len() {
            let idx: usize = self.filtered[self.selected];
            assert(before.filtered[self.selected as int] == idx);
            assert(before.items[idx as int] == self.items@[idx as int]@);
            self.result = Some(self.items[idx].clone());
        }
        self.should_exit = true;
        assert(self@ =~= before.activated());
    }

    /// Carries out what the keys of a frame ask for.
    pub fn step(&mut self, events: &Vec<KeyEvent>, down: bool, up: bool)
        requires
            old(self)@.valid(),
        ensures
            final(self)@.valid(),
            final(self)@ == old(self)@.stepped(events@, down, up),
    {
        let ghost before = self@;
        self.selected = move_selection(self.selected, self.filtered.len(), down, up);
        if was_pressed(events, Key::Escape, false) {
            self.should_exit = true;
        }
        assert(self@ =~= (PickerView {
            selected: moved(before.selected, before.filtered.len() as int, down, up),
            should_exit: before.should_exit || any_pressed(events@, Key::Escape, false),
            ..before
        }));
        if was_pressed(events, Key::Enter, false) {
            self.activate();
        }
    }

    /// Chooses a line that was clicked.
    pub fn click(&mut self, row: usize)
        requires
            old(self)@.valid(),
        ensures
            final(self)@.valid(),
            final(self)@ == (PickerView { selected: row as int, ..old(self)@ }).activated(),
    {
        let ghost before = self@;
        self.selected = row;
        assert(self@ =~= (PickerView { selected: row as int, ..before }));
        self.activate();
    }

    /// How many rows the list shows without scrolling.
    pub fn visible_rows(&self) -> (r: usize)
        ensures
            r == (if self@.filtered.len() < MAX_VISIBLE {
                self@.filtered.len() as int
            } else {
                MAX_VISIBLE as int
            }),
    {
        let n: usize = self.filtered.len();
        assert(self@.filtered.len() == n);
        if n < MAX_VISIBLE {
            n
        } else {
            MAX_VISIBLE
        }
    }
}

/// The request that gives the picker's window a size.
pub open spec fn resize_window(width: int, height: int) -> Seq<char> {
    "hl.dsp.window.resize({ x = "@ + signed_decimal(width) + ", y = "@ + signed_decimal(height)
        + ", window = \"class:picker\" })"@
}

/// Writes the request that gives the picker's window a size.
pub fn resize_command(width: i32, height: i32) -> (r: String)
    ensures
        r@ == resize_window(width as int, height as int),
{
    let w = signed_decimal_string(width as i128);
    let h = signed_decimal_string(height as i128);
    let a = concat("hl.dsp.window.resize({ x = ", w.as_str());
    let b = concat(a.as_str(), ", y = ");
    let c = concat(b.as_str(), h.as_str());
    concat(c.as_str(), ", window = \"class:picker\" })")
}

/// What is chosen is one of the lines: whatever the query and the keys, a
/// result that was not there before is a line of the list.
pub proof fn chosen_is_an_item(p: PickerView, events: Seq<KeyEvent>, down: bool, up: bool)
    requires
        p.valid(),
        0 <= p.selected,
        p.result is None,
    ensures
        p.stepped(events, down, up).result matches Some(line) ==> p.items.contains(line),
{
    let t = p.stepped(events, down, up);
    if t.result is Some {
        assert(0 <= t.selected < t.filtered.len());
        assert(p.filtered[t.selected] == t.filtered[t.selected]);
        assert(p.items[t.filtered[t.selected]] == t.result->0);
    }
}

/// The lines to choose from are those of the input that are not empty.
pub proof fn items_are_lines(input: Seq<char>, l: Seq<char>)
    ensures
        items_in(input).contains(l) <==> lines(input).contains(l) && l.len() > 0,
{
    let all = lines(input);
    let keep = |x: Seq<char>| x.len() > 0;
    if items_in(input).contains(l) {
        all.lemma_filter_contains_rev(keep, l);
        let i = choose|i: int| 0 <= i < all.filter(keep).len() && all.filter(keep)[i] == l;
        all.lemma_filter_pred(keep, i);
    }
    if all.contains(l) && l.len() > 0 {
        let i = choose|i: int| 0 <= i < all.len() && all[i] == l;
        all.lemma_filter_contains(keep, i);
    }
}

/// A line is found exactly if the matcher finds the query in it, with the
/// matcher's score, and ten thousand points more where it begins with the query,
/// whatever the case.
pub proof fn beginnings_count_more(item: Seq<char>, query: Seq<char>)
    ensures
        points(item, query) is Some <==> score_of(query, item) is Some,
        score_of(query, item) matches Some(s) ==> points(item, query) == Some(
            if lowercase(query).is_prefix_of(lowercase(item)) {
                s + 10000int
            } else {
                s as int
            },
        ),
{
}

proof fn hit_is_match(items: Seq<Seq<char>>, query: Seq<char>, k: int)
    requires
        0 <= k < hits(items, query).len(),
    ensures
        0 <= hits(items, query)[k].0 < items.len(),
        points(items[hits(items, query)[k].0], query) == Some(hits(items, query)[k].1),
    decreases items.len(),
{
    let part = items.drop_last();
    let before = hits(part, query);
    if k < before.len() {
        hit_is_match(part, query, k);
        assert(hits(items, query)[k] == before[k]);
        assert(part[before[k].0] == items[before[k].0]);
    }
}

proof fn match_is_hit(items: Seq<Seq<char>>, query: Seq<char>, i: int) -> (k: int)
    requires
        0 <= i < items.len(),
        points(items[i], query) is Some,
    ensures
        0 <= k < hits(items, query).len(),
        hits(items, query)[k] == (i, points(items[i], query)->0),
    decreases items.len(),
{
    let part = items.drop_last();
    let before = hits(part, query);
    if i < part.len() {
        assert(part[i] == items[i]);
        let k = match_is_hit(part, query, i);
        assert(hits(items, query)[k] == before[k]);
        k
    } else {
        before.len() as int
    }
}

/// Rows for a query come best first: the line of each is found, none has fewer
/// points than one after it, and lines with as many come in their order. A line
/// that is found is left out only where the rows are full of lines with at least
/// its points.
pub proof fn rows_come_best_first(items: Seq<Seq<char>>, query: Seq<char>)
    requires
        query.len() > 0,
    ensures
        forall|a: int|
            #![trigger rows_for(items, query)[a]]
            0 <= a < rows_for(items, query).len() ==> 0 <= rows_for(items, query)[a] < items.len()
                && score_of(query, items[rows_for(items, query)[a]]) is Some,
        forall|a: int, b: int|
            #![trigger rows_for(items, query)[a], rows_for(items, query)[b]]
            0 <= a < b < rows_for(items, query).len() ==> {
                let (i, j) = (rows_for(items, query)[a], rows_for(items, query)[b]);
                let p = points(items[i], query)->0;
                let q = points(items[j], query)->0;
                p > q || (p == q && i < j)
            },
        forall|j: int|
            #![trigger items[j]]
            0 <= j < items.len() && score_of(query, items[j]) is Some && !rows_for(
                items,
                query,
            ).contains(j) ==> rows_for(items, query).len() == 50 && forall|a: int|
                #![trigger rows_for(items, query)[a]]
                0 <= a < 50 ==> points(items[rows_for(items, query)[a]], query)->0
                    >= points(items[j], query)->0,
{
    let all = hits(items, query);
    let n = items.len() as int;
    let most = MAX_ROWS as int;
    let r = rows_for(items, query);
    hits_are_items(items, query);
    assert forall|a: int| #![trigger r[a]] 0 <= a < r.len() implies 0 <= r[a] < items.len()
        && score_of(query, items[r[a]]) is Some by {
        let h = listed_hit(all, most, a);
        hit_is_match(items, query, h);
    }
    assert forall|a: int, b: int| #![trigger r[a], r[b]] 0 <= a < b < r.len() implies ({
        let p = points(items[r[a]], query)->0;
        let q = points(items[r[b]], query)->0;
        p > q || (p == q && r[a] < r[b])
    }) by {
        let g = listed_hit(all, most, a);
        best_of_leaves_out_the_worst(all, most, n, g);
        let (g, h) = choose|g: int, h: int|
            #![trigger all[g], all[h]]
            0 <= g < all.len() && 0 <= h < all.len() && all[g].0 == r[a] && all[h].0 == r[b]
                && outranks(all, g, h);
        hit_is_match(items, query, g);
        hit_is_match(items, query, h);
        if g < h {
            assert(all[g].0 < all[h].0);
        }
    }
    assert forall|j: int|
        #![trigger items[j]]
        0 <= j < items.len() && score_of(query, items[j]) is Some && !r.contains(
            j,
        ) implies r.len() == MAX_ROWS && forall|a: int|
        #![trigger r[a]]
        0 <= a < MAX_ROWS ==> points(items[r[a]], query)->0 >= points(items[j], query)->0 by {
        let h = match_is_hit(items, query, j);
        best_of_leaves_out_the_worst(all, most, n, h);
        assert forall|a: int| #![trigger r[a]] 0 <= a < MAX_ROWS implies points(
            items[r[a]],
            query,
        )->0 >= points(items[j], query)->0 by {
            let g = listed_hit(all, most, a);
            assert(r.contains(all[g].0));
            assert(outranks(all, g, h));
            hit_is_match(items, query, g);
        }
    }
}

/// Enter alone chooses the line of the selected row and leaves; other keys
/// choose nothing, and Escape leaves.
pub proof fn enter_chooses_the_selection(p: PickerView, events: Seq<KeyEvent>)
    requires
        p.valid(),
        0 <= p.selected < p.filtered.len(),
    ensures
        any_pressed(events, Key::Enter, false) ==> p.stepped(events, false, false).result == Some(
            p.items[p.filtered[p.selected]],
        ) && p.stepped(events, false, false).should_exit,
        !any_pressed(events, Key::Enter, false) ==> p.stepped(events, false, false).result
            == p.result,
        any_pressed(events, Key::Escape, false) ==> p.stepped(events, false, false).should_exit,
        p.stepped(events, false, false).items == p.items,
        p.stepped(events, false, false).query == p.query,
{
}

/// Filtering selects the first row, and its line completes the query.
pub proof fn first_row_completes(p: PickerView)
    ensures
        p.refiltered().selected == 0,
        p.refiltered().filtered == rows_for(p.items, p.query),
        p.refiltered().items == p.items && p.refiltered().query == p.query,
        rows_for(p.items, p.query).len() > 0 ==> p.refiltered().completion == ghost_text(
            p.query,
            p.items[rows_for(p.items, p.query)[0]],
        ),
        rows_for(p.items, p.query).len() == 0 ==> p.refiltered().completion.len() == 0,
        p.query.len() == 0 ==> forall|k: int|
            0 <= k < p.refiltered().filtered.len() ==> #[trigger] p.refiltered().filtered[k] == k,
{
}

} // verus!

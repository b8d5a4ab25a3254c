//! The application launcher: what it lists, how it ranks what is typed, and
//! what its keys do.

use crate::common::{
    byte_len, highlight_query, landing, query_offsets, span_views, spans, Span, SpanView,
};
use crate::double::Double;
use crate::fuzzy::{find_score, score_of};
use crate::desktop::{
    command_to_run, command_words, copy_texts, run_words, slice_text, terminal_runs_the_command,
    DesktopEntry, DesktopEntryView, IconView,
};
use crate::hyprland::{by_focus, client_views, clients, label, Client, ClientView};
use crate::icon_index::{lookup, IconIndex};
use crate::keyfile::text_of;
use crate::keys::{any_pressed, move_selection, moved, was_pressed, Key, KeyEvent};
use crate::order::{
    all_below, best_of, best_of_is_found, best_of_leaves_out_the_worst, ints, keys_of, listed_hit,
    numbers_are_ranked, outranks, pairs, positions_ascend, rank, ranking, ranking_exists,
    ranking_is_distinct, take_best,
};
use crate::text::{
    chars_of, concat, contains, contains_str, lowercase, occurs_at, same, separator_cuts, split,
    split_chars, starts_with, string_of, to_lowercase, views, whole_is_one_piece, words,
    words_hold_no_separator, words_of, Separator,
};
use vstd::arithmetic::div_mod::lemma_mod_bound;
use vstd::prelude::*;
use vstd::slice::slice_subrange;

verus! {

/// How many results are kept.
pub const MAX_RESULTS: usize = 50;

/// How many rows the list is high at most.
pub const MAX_VISIBLE_ITEMS: usize = 15;

/// Something that the launcher can open: an application or a window.
pub enum Entry {
    Desktop {
        name: String,
        command: String,
        terminal: bool,
        icon: Option<String>,
        keywords: Vec<String>,
    },
    Window {
        title: String,
        class: String,
        address: String,
        workspace: String,
        icon: Option<String>,
    },
}

/// What an entry is.
pub enum EntryView {
    Desktop {
        name: Seq<char>,
        command: Seq<char>,
        terminal: bool,
        icon: Option<Seq<char>>,
        keywords: Seq<Seq<char>>,
    },
    Window {
        title: Seq<char>,
        class: Seq<char>,
        address: Seq<char>,
        workspace: Seq<char>,
        icon: Option<Seq<char>>,
    },
}

impl View for Entry {
    type V = EntryView;

    open spec fn view(&self) -> EntryView {
        match self {
            Entry::Desktop { name, command, terminal, icon, keywords } => EntryView::Desktop {
                name: name@,
                command: command@,
                terminal: *terminal,
                icon: text_of(*icon),
                keywords: views(keywords@),
            },
            Entry::Window { title, class, address, workspace, icon } => EntryView::Window {
                title: title@,
                class: class@,
                address: address@,
                workspace: workspace@,
                icon: text_of(*icon),
            },
        }
    }
}

/// What a list of entries is.
pub open spec fn entry_views(v: Seq<Entry>) -> Seq<EntryView> {
    v.map_values(|e: Entry| e@)
}

impl EntryView {
    /// The name under which an entry is listed: an application's name, a
    /// window's class.
    pub open spec fn name(self) -> Seq<char> {
        match self {
            EntryView::Desktop { name, .. } => name,
            EntryView::Window { class, .. } => class,
        }
    }

    /// The second line of an entry: a window's title that says more than its
    /// class.
    pub open spec fn subtitle(self) -> Option<Seq<char>> {
        match self {
            EntryView::Window { title, class, .. } => if title.len() > 0 && title != class {
                Some(title)
            } else {
                None
            },
            _ => None,
        }
    }

    /// The fields that count in full.
    pub open spec fn primary(self) -> Seq<Seq<char>> {
        match self {
            EntryView::Desktop { name, .. } => seq![name],
            EntryView::Window { title, class, .. } => seq![title, class],
        }
    }

    /// The fields that count less.
    pub open spec fn secondary(self) -> Seq<Seq<char>> {
        match self {
            EntryView::Desktop { keywords, .. } => keywords,
            EntryView::Window { .. } => Seq::empty(),
        }
    }

    /// All fields.
    pub open spec fn fields(self) -> Seq<Seq<char>> {
        self.primary() + self.secondary()
    }
}

impl Entry {
    /// The name under which an entry is listed.
    pub fn name(&self) -> (r: &str)
        ensures
            r@ == self@.name(),
    {
        match self {
            Entry::Desktop { name, .. } => name.as_str(),
            Entry::Window { class, .. } => class.as_str(),
        }
    }

    /// The second line of an entry.
    pub fn subtitle(&self) -> (r: Option<&str>)
        ensures
            crate::desktop::slice_text(r) == self@.subtitle(),
    {
        match self {
            Entry::Window { title, class, .. } => if !title.as_str().is_empty() && !same(
                title.as_str(),
                class.as_str(),
            ) {
                Some(title.as_str())
            } else {
                None
            },
            _ => None,
        }
    }

    /// The icon file of an entry.
    pub fn icon(&self) -> (r: Option<&str>)
        ensures
            crate::desktop::slice_text(r) == (match self@ {
                EntryView::Desktop { icon, .. } => icon,
                EntryView::Window { icon, .. } => icon,
            }),
    {
        match self {
            Entry::Desktop { icon, .. } => match icon {
                Some(p) => Some(p.as_str()),
                None => None,
            },
            Entry::Window { icon, .. } => match icon {
                Some(p) => Some(p.as_str()),
                None => None,
            },
        }
    }

    /// Whether an entry is a window.
    pub fn is_window(&self) -> (r: bool)
        ensures
            r == (self@ is Window),
    {
        match self {
            Entry::Desktop { .. } => false,
            Entry::Window { .. } => true,
        }
    }

    /// Primary fields (name, title, class), which count in full.
    pub fn primary_fields(&self) -> (r: Vec<String>)
        ensures
            views(r@) == self@.primary(),
    {
        let mut r: Vec<String> = Vec::new();
        match self {
            Entry::Desktop { name, .. } => {
                r.push(name.clone());
            },
            Entry::Window { title, class, .. } => {
                r.push(title.clone());
                r.push(class.clone());
            },
        }
        assert(views(r@) == self@.primary());
        r
    }

    /// Secondary fields (keywords, generic name), which count less.
    pub fn secondary_fields(&self) -> (r: Vec<String>)
        ensures
            views(r@) == self@.secondary(),
    {
        match self {
            Entry::Desktop { keywords, .. } => crate::desktop::copy_texts(keywords),
            Entry::Window { .. } => {
                let r: Vec<String> = Vec::new();
                assert(views(r@) == Seq::<Seq<char>>::empty());
                r
            },
        }
    }
}

/// What floating-point arithmetic brings to the ranking of one entry: how
/// similar the first word of the query is to each field, in thousandths, and
/// the bonuses for past use, for past choices and for a short name.
pub struct Signals {
    pub primary: Vec<u32>,
    pub secondary: Vec<u32>,
    pub usage_bonus: u32,
    pub query_bonus: u32,
    pub length_bonus: u32,
}

impl Signals {
    /// Similarities are at most one, bonuses within their caps, and there is
    /// one similarity for each field.
    pub open spec fn valid(self, e: EntryView) -> bool {
        &&& self.primary@.len() == e.primary().len()
        &&& self.secondary@.len() == e.secondary().len()
        &&& forall|i: int| 0 <= i < self.primary@.len() ==> #[trigger] self.primary@[i] <= 1000
        &&& forall|i: int| 0 <= i < self.secondary@.len() ==> #[trigger] self.secondary@[i] <= 1000
        &&& self.usage_bonus <= 5000
        &&& self.query_bonus <= 5000
        &&& self.length_bonus <= 1000
    }
}

/// The best score of a word on any of some fields; zero without a match.
pub open spec fn best_score(fields: Seq<Seq<char>>, word: Seq<char>) -> int
    decreases fields.len(),
{
    if fields.len() == 0 {
        0
    } else {
        let before = best_score(fields.drop_last(), word);
        match score_of(word, fields.last()) {
            Some(s) => if s > before {
                s as int
            } else {
                before
            },
            None => before,
        }
    }
}

/// The best of the similarities that are high enough to count; zero if none is.
pub open spec fn best_similarity(similar: Seq<u32>) -> int
    decreases similar.len(),
{
    if similar.len() == 0 {
        0
    } else {
        let before = best_similarity(similar.drop_last());
        if similar.last() >= 850 && similar.last() > before {
            similar.last() as int
        } else {
            before
        }
    }
}

/// The larger of two numbers.
pub open spec fn larger(a: int, b: int) -> int {
    if a > b {
        a
    } else {
        b
    }
}

/// What the first word of a query finds in an entry: the best match of a
/// primary field, or three tenths of that of a secondary one, or, where a kind
/// of field has no match, its best similarity in place of it.
pub open spec fn found(e: EntryView, word: Seq<char>, primary: Seq<u32>, secondary: Seq<u32>) -> int {
    let p = best_score(e.primary(), word);
    let s = best_score(e.secondary(), word) * 3 / 10;
    let pj = if p == 0 {
        best_similarity(primary)
    } else {
        0
    };
    let sj = if s == 0 {
        best_similarity(secondary) * 3 / 10
    } else {
        0
    };
    larger(larger(p, s), larger(pj, sj))
}

/// Whether a word of a field begins with the given one.
pub open spec fn begins_a_word(field: Seq<char>, word: Seq<char>) -> bool {
    exists|i: int|
        0 <= i < split(lowercase(field), Separator::NonAlphanumeric).len() && word.is_prefix_of(
            #[trigger] split(lowercase(field), Separator::NonAlphanumeric)[i],
        )
}

/// Whether some word of some primary field begins with the given one.
pub open spec fn begins_some_word(fields: Seq<Seq<char>>, word: Seq<char>) -> bool {
    exists|i: int| 0 <= i < fields.len() && begins_a_word(#[trigger] fields[i], word)
}

/// Whether some field holds a text, whatever its case.
pub open spec fn some_holds(fields: Seq<Seq<char>>, text: Seq<char>) -> bool {
    exists|i: int| 0 <= i < fields.len() && contains(lowercase(#[trigger] fields[i]), text)
}

/// The points of an entry for the match itself.
pub open spec fn base_score(
    e: EntryView,
    word: Seq<char>,
    primary: Seq<u32>,
    secondary: Seq<u32>,
) -> int {
    let name = lowercase(e.name());
    found(e, word, primary, secondary) + (if word.is_prefix_of(name) {
        10000int
    } else {
        0
    }) + (if best_score(e.primary(), word) > 0 || contains(name, word) {
        5000int
    } else {
        0
    }) + (if begins_some_word(e.primary(), word) {
        4000int
    } else {
        0
    })
}

/// Whether some field scores on a word.
pub open spec fn some_scores(fields: Seq<Seq<char>>, word: Seq<char>) -> bool {
    exists|i: int|
        0 <= i < fields.len() && (score_of(word, #[trigger] fields[i]) matches Some(s) && s > 0)
}

/// Whether the words after the first one admit an entry: each scores on some
/// field, or stands in one.
pub open spec fn admits_rest(fields: Seq<Seq<char>>, rest: Seq<Seq<char>>) -> bool {
    forall|k: int|
        0 <= k < rest.len() ==> some_scores(fields, #[trigger] rest[k]) || some_holds(
            fields,
            rest[k],
        )
}

/// The points of an entry for a query in lower case, or nothing if the query
/// does not find it; one without words finds nothing. Of several words each must
/// be found; a single one that stands in no field needs twenty points for each
/// byte.
pub open spec fn match_score(e: EntryView, query: Seq<char>, s: Signals) -> Option<int> {
    let tokens = words(query, Separator::Whitespace);
    let base = base_score(e, tokens[0], s.primary@, s.secondary@);
    if tokens.len() == 0 {
        None
    } else if tokens.len() > 1 && !admits_rest(e.fields(), tokens.skip(1)) {
        None
    } else if base == 0 {
        None
    } else if tokens.len() <= 1 && !some_holds(e.fields(), query) && base < byte_len(query) * 20 {
        None
    } else {
        Some(base + s.usage_bonus + s.query_bonus + s.length_bonus)
    }
}

/// The positions and points of the entries that a query finds.
pub open spec fn hits(entries: Seq<EntryView>, query: Seq<char>, signals: Seq<Signals>) -> Seq<
    (int, int),
>
    decreases entries.len(),
{
    if entries.len() == 0 {
        Seq::empty()
    } else {
        let i = entries.len() - 1;
        let before = hits(entries.drop_last(), query, signals);
        match match_score(entries[i], query, signals[i]) {
            Some(s) => before.push((i, s)),
            None => before,
        }
    }
}

/// The positions of the entries that a query finds, best first.
pub open spec fn ranked(entries: Seq<EntryView>, query: Seq<char>, signals: Seq<Signals>) -> Seq<
    int,
> {
    best_of(hits(entries, query, signals), MAX_RESULTS as int)
}

/// Finds the best score of a word, or of several, on any of some fields.
pub(crate) fn find_best_score(fields: &Vec<String>, word: &str) -> (r: u32)
    ensures
        r == best_score(views(fields@), word@),
        !word@.contains(' ') ==> r <= u16::MAX,
{
    let ghost fv = views(fields@);
    let mut r: u32 = 0;
    let mut i: usize = 0;
    while i < fields.len()
        invariant
            i <= fields@.len(),
            fv == views(fields@),
            r == best_score(fv.take(i as int), word@),
            !word@.contains(' ') ==> r <= u16::MAX,
        decreases fields.len() - i,
    {
        proof {
            assert(fv.take(i + 1).drop_last() == fv.take(i as int));
            assert(fv.take(i + 1).last() == fields@[i as int]@);
        }
        match find_score(word, fields[i].as_str()) {
            Some(s) => {
                if s > r {
                    r = s;
                }
            },
            None => {},
        }
        i = i + 1;
    }
    assert(fv.take(fv.len() as int) == fv);
    r
}

pub(crate) fn find_best_similarity(similar: &Vec<u32>) -> (r: u32)
    requires
        forall|i: int| 0 <= i < similar@.len() ==> #[trigger] similar@[i] <= 1000,
    ensures
        r == best_similarity(similar@),
        r <= 1000,
{
    let mut r: u32 = 0;
    let mut i: usize = 0;
    while i < similar.len()
        invariant
            i <= similar@.len(),
            forall|i: int| 0 <= i < similar@.len() ==> #[trigger] similar@[i] <= 1000,
            r == best_similarity(similar@.take(i as int)),
            r <= 1000,
        decreases similar.len() - i,
    {
        assert(similar@.take(i + 1).drop_last() == similar@.take(i as int));
        assert(similar@.take(i + 1).last() == similar@[i as int]);
        let s: u32 = similar[i];
        if s >= 850 && s > r {
            r = s;
        }
        i = i + 1;
    }
    assert(similar@.take(similar@.len() as int) == similar@);
    r
}

fn has_word_beginning(fields: &Vec<String>, word: &str) -> (r: bool)
    ensures
        r == begins_some_word(views(fields@), word@),
{
    let ghost fv = views(fields@);
    let mut i: usize = 0;
    while i < fields.len()
        invariant
            i <= fields@.len(),
            fv == views(fields@),
            forall|j: int| 0 <= j < i ==> !begins_a_word(#[trigger] fv[j], word@),
        decreases fields.len() - i,
    {
        let low = to_lowercase(fields[i].as_str());
        let pieces = split_chars(chars_of(low.as_str()).as_slice(), Separator::NonAlphanumeric);
        let ghost pv = split(lowercase(fv[i as int]), Separator::NonAlphanumeric);
        assert(views(pieces@) == pv);
        let mut k: usize = 0;
        while k < pieces.len()
            invariant
                k <= pieces@.len(),
                i < fv.len(),
                fv == views(fields@),
                pv == split(lowercase(fv[i as int]), Separator::NonAlphanumeric),
                views(pieces@) == pv,
                forall|j: int| 0 <= j < k ==> !word@.is_prefix_of(#[trigger] pv[j]),
            decreases pieces.len() - k,
        {
            assert(pv[k as int] == pieces@[k as int]@);
            if starts_with(pieces[k].as_str(), word) {
                assert(begins_a_word(fv[i as int], word@));
                return true;
            }
            k = k + 1;
        }
        assert(!begins_a_word(fv[i as int], word@));
        i = i + 1;
    }
    false
}

fn field_holds(fields: &Vec<String>, text: &str) -> (r: bool)
    ensures
        r == some_holds(views(fields@), text@),
{
    let ghost fv = views(fields@);
    let mut i: usize = 0;
    while i < fields.len()
        invariant
            i <= fields@.len(),
            fv == views(fields@),
            forall|j: int| 0 <= j < i ==> !contains(lowercase(#[trigger] fv[j]), text@),
        decreases fields.len() - i,
    {
        assert(fv[i as int] == fields@[i as int]@);
        let low = to_lowercase(fields[i].as_str());
        if contains_str(low.as_str(), text) {
            return true;
        }
        i = i + 1;
    }
    false
}

fn field_scores(fields: &Vec<String>, word: &str) -> (r: bool)
    ensures
        r == some_scores(views(fields@), word@),
{
    let ghost fv = views(fields@);
    let mut i: usize = 0;
    while i < fields.len()
        invariant
            i <= fields@.len(),
            fv == views(fields@),
            forall|j: int|
                0 <= j < i ==> !(score_of(word@, #[trigger] fv[j]) matches Some(s) && s > 0),
        decreases fields.len() - i,
    {
        assert(fv[i as int] == fields@[i as int]@);
        match find_score(word, fields[i].as_str()) {
            Some(s) => {
                if s > 0 {
                    return true;
                }
            },
            None => {},
        }
        i = i + 1;
    }
    false
}

fn rest_admits(fields: &Vec<String>, tokens: &Vec<String>) -> (r: bool)
    requires
        tokens@.len() > 0,
    ensures
        r == admits_rest(views(fields@), views(tokens@).skip(1)),
{
    let ghost fv = views(fields@);
    let ghost rest = views(tokens@).skip(1);
    let mut n: usize = 1;
    while n < tokens.len()
        invariant
            1 <= n <= tokens@.len(),
            fv == views(fields@),
            rest == views(tokens@).skip(1),
            forall|j: int|
                0 <= j < n - 1 ==> some_scores(fv, #[trigger] rest[j]) || some_holds(fv, rest[j]),
        decreases tokens.len() - n,
    {
        assert(rest[n - 1] == tokens@[n as int]@);
        let word = tokens[n].as_str();
        if !field_scores(fields, word) && !field_holds(fields, word) {
            return false;
        }
        n = n + 1;
    }
    true
}

/// The points of an entry for a query in lower case, whose words are given.
fn score_entry(e: &Entry, query: &str, tokens: &Vec<String>, s: &Signals) -> (r: Option<u32>)
    requires
        views(tokens@) == words(query@, Separator::Whitespace),
        s.valid(e@),
    ensures
        match match_score(e@, query@, *s) {
            Some(n) => r matches Some(m) && m == n && n <= 100_000,
            None => r is None,
        },
{
    let ghost tv = views(tokens@);
    let ghost ev = e@;
    assert(tokens@.len() == tv.len());
    if tokens.len() == 0 {
        return None;
    }
    let primary = e.primary_fields();
    let secondary = e.secondary_fields();
    let mut all = e.primary_fields();
    crate::desktop::append_all(&mut all, e.secondary_fields());
    let word = tokens[0].as_str();
    proof {
        assert(word@ == tv[0]);
        words_hold_no_separator(query@, Separator::Whitespace, 0);
        assert(!word@.contains(' ')) by {
            if word@.contains(' ') {
                let j = choose|j: int| 0 <= j < word@.len() && word@[j] == ' ';
                assert(!Separator::Whitespace.cuts(tv[0][j]));
            }
        }
        assert(ev.fields() == views(all@));
    }
    if tokens.len() > 1 && !rest_admits(&all, tokens) {
        return None;
    }
    let p: u32 = find_best_score(&primary, word);
    let sc: u32 = find_best_score(&secondary, word) * 3 / 10;
    let pj: u32 = if p == 0 {
        find_best_similarity(&s.primary)
    } else {
        0
    };
    let sj: u32 = if sc == 0 {
        find_best_similarity(&s.secondary) * 3 / 10
    } else {
        0
    };
    let a: u32 = if p > sc {
        p
    } else {
        sc
    };
    let b: u32 = if pj > sj {
        pj
    } else {
        sj
    };
    let hit: u32 = if a > b {
        a
    } else {
        b
    };
    assert(hit == found(ev, word@, s.primary@, s.secondary@));
    let name = to_lowercase(e.name());
    let prefix_bonus: u32 = if starts_with(name.as_str(), word) {
        10000
    } else {
        0
    };
    let name_bonus: u32 = if p > 0 || contains_str(name.as_str(), word) {
        5000
    } else {
        0
    };
    let word_bonus: u32 = if has_word_beginning(&primary, word) {
        4000
    } else {
        0
    };
    let base: u32 = hit + prefix_bonus + name_bonus + word_bonus;
    assert(base == base_score(ev, word@, s.primary@, s.secondary@));
    if base == 0 {
        return None;
    }
    if tokens.len() <= 1 {
        let bytes = query.as_bytes();
        let len: usize = bytes.len();
        proof {
            crate::common::byte_len_is_encoded_len(query@);
        }
        let needed: u128 = len as u128 * 20;
        if !field_holds(&all, query) && (base as u128) < needed {
            return None;
        }
    }
    Some(base + s.usage_bonus + s.query_bonus + s.length_bonus)
}

/// Ranks the entries that a query in lower case finds, best first.
pub fn rank_entries(entries: &Vec<Entry>, query: &str, signals: &Vec<Signals>) -> (r: Vec<usize>)
    requires
        signals@.len() == entries@.len(),
        forall|i: int| 0 <= i < entries@.len() ==> signals@[i].valid((#[trigger] entries@[i])@),
    ensures
        ints(r@) == ranked(entry_views(entries@), query@, signals@),
{
    let ghost ev = entry_views(entries@);
    let tokens = words_of(chars_of(query).as_slice(), Separator::Whitespace);
    let mut scored: Vec<(usize, i128)> = Vec::new();
    let mut i: usize = 0;
    assert(pairs(scored@) == hits(ev.take(0), query@, signals@));
    while i < entries.len()
        invariant
            i <= entries@.len(),
            ev == entry_views(entries@),
            views(tokens@) == words(query@, Separator::Whitespace),
            signals@.len() == entries@.len(),
            forall|i: int|
                0 <= i < entries@.len() ==> signals@[i].valid((#[trigger] entries@[i])@),
            pairs(scored@) == hits(ev.take(i as int), query@, signals@),
            forall|k: int| 0 <= k < scored@.len() ==> 0 <= (#[trigger] scored@[k]).1 <= 100_000,
        decreases entries.len() - i,
    {
        proof {
            assert(ev.take(i + 1).drop_last() == ev.take(i as int));
            assert(ev.take(i + 1)[i as int] == entries@[i as int]@);
            assert(ev[i as int] == entries@[i as int]@);
        }
        let ghost head = scored@;
        match score_entry(&entries[i], query, &tokens, &signals[i]) {
            Some(n) => {
                scored.push((i, n as i128));
                assert(pairs(scored@) == pairs(head).push((i as int, n as int)));
            },
            None => {},
        }
        i = i + 1;
    }
    assert(ev.take(ev.len() as int) == ev);
    take_best(&scored, MAX_RESULTS)
}

/// Ranks the entries that a query finds, best first, whatever its case.
pub fn filter(entries: &Vec<Entry>, query: &str, signals: &Vec<Signals>) -> (r: Vec<usize>)
    requires
        signals@.len() == entries@.len(),
        forall|i: int| 0 <= i < entries@.len() ==> signals@[i].valid((#[trigger] entries@[i])@),
    ensures
        ints(r@) == ranked(entry_views(entries@), lowercase(query@), signals@),
{
    let low = to_lowercase(query);
    rank_entries(entries, low.as_str(), signals)
}

/// The first word of a query in lower case, to which the similarities of
/// [`Signals`] are taken; none without words.
pub fn primary_token(query: &str) -> (r: Option<String>)
    ensures
        text_of(r) == (if words(lowercase(query@), Separator::Whitespace).len() > 0 {
            Some(words(lowercase(query@), Separator::Whitespace)[0])
        } else {
            None
        }),
{
    let low = to_lowercase(query);
    let tokens = words_of(chars_of(low.as_str()).as_slice(), Separator::Whitespace);
    let ghost tv = words(lowercase(query@), Separator::Whitespace);
    assert(views(tokens@) == tv);
    assert(tokens@.len() == tv.len());
    if tokens.len() > 0 {
        assert(tv[0] == tokens@[0]@);
        Some(tokens[0].clone())
    } else {
        None
    }
}

/// The first entries, by past use: the positions of the first
/// [`MAX_RESULTS`] in descending order of their scores, ties in list order.
pub open spec fn by_use(scores: Seq<Double>) -> Seq<int> {
    let first = if scores.len() > MAX_RESULTS {
        scores.take(MAX_RESULTS as int)
    } else {
        scores
    };
    ranking::<i128>(first.map_values(|s: Double| -s.place()))
}

/// Orders the entries for an empty query by the scores of their past use.
pub fn default_order(scores: &Vec<Double>) -> (r: Vec<usize>)
    requires
        forall|i: int| 0 <= i < scores@.len() ==> !(#[trigger] scores@[i]).is_nan(),
    ensures
        ints(r@) == by_use(scores@),
{
    let n: usize = if scores.len() > MAX_RESULTS {
        MAX_RESULTS
    } else {
        scores.len()
    };
    let ghost first = if scores@.len() > MAX_RESULTS {
        scores@.take(MAX_RESULTS as int)
    } else {
        scores@
    };
    let mut keys: Vec<i128> = Vec::new();
    let mut i: usize = 0;
    while i < n
        invariant
            i <= n <= scores@.len(),
            keys@.len() == i,
            forall|j: int| 0 <= j < i ==> #[trigger] keys@[j] as int == -scores@[j].place(),
        decreases n - i,
    {
        let p: i128 = scores[i].place_of();
        keys.push(-p);
        i = i + 1;
    }
    assert(keys_of(keys@) =~= first.map_values(|s: Double| -s.place()));
    rank(&keys)
}

/// The completion of a query by a name that begins with it, whatever the case:
/// the name without its first characters, as many as the query has.
pub open spec fn ghost_text(query: Seq<char>, name: Seq<char>) -> Seq<char> {
    if query.len() > 0 && lowercase(query).is_prefix_of(lowercase(name)) {
        if query.len() < name.len() {
            name.skip(query.len() as int)
        } else {
            Seq::empty()
        }
    } else {
        Seq::empty()
    }
}

/// A query that took over its completion is as long as the name, and is
/// completed no further.
pub proof fn completion_settles(query: Seq<char>, name: Seq<char>)
    requires
        ghost_text(query, name).len() > 0,
    ensures
        (query + ghost_text(query, name)).len() == name.len(),
        ghost_text(query + ghost_text(query, name), name) == Seq::<char>::empty(),
{
}

/// Completes a query by a name.
pub fn complete(query: &str, name: &str) -> (r: String)
    ensures
        r@ == ghost_text(query@, name@),
{
    if query.is_empty() {
        return String::new();
    }
    let name_lower = to_lowercase(name);
    let query_lower = to_lowercase(query);
    if starts_with(name_lower.as_str(), query_lower.as_str()) {
        let n = chars_of(name);
        let q: usize = chars_of(query).len();
        if q < n.len() {
            let part = slice_subrange(n.as_slice(), q, n.len());
            assert(part@ == name@.skip(q as int));
            return string_of(part);
        }
    }
    String::new()
}

/// Which windows a launcher leaves out besides those without a class and its
/// own.
#[derive(Clone, Copy, PartialEq, Eq, Structural)]
pub enum Listing {
    /// Those on special workspaces, and pinned ones.
    Overlay,
    /// Those on special workspaces, and those of the windowed launcher.
    Windowed,
    /// No others.
    Toggled,
}

impl Listing {
    /// Whether a window is listed.
    pub open spec fn lists(self, c: ClientView) -> bool {
        &&& c.class.len() > 0
        &&& c.class != "launcher"@
        &&& match self {
            Listing::Overlay => !"special:"@.is_prefix_of(c.workspace.name) && !c.pinned,
            Listing::Windowed => !"special:"@.is_prefix_of(c.workspace.name) && c.class
                != "launcher-layer"@,
            Listing::Toggled => true,
        }
    }

    /// Whether a window is listed.
    pub fn lists_window(self, c: &Client) -> (r: bool)
        ensures
            r == self.lists(c@),
    {
        let class = c.class.as_str();
        if class.is_empty() || same(class, "launcher") {
            return false;
        }
        let special = starts_with(c.workspace.name.as_str(), "special:");
        match self {
            Listing::Overlay => !special && !c.pinned,
            Listing::Windowed => !special && !same(class, "launcher-layer"),
            Listing::Toggled => true,
        }
    }
}

/// The icon file of a window: that of its class, else that of an icon of this
/// name, both in lower case.
pub open spec fn window_icon(
    class: Seq<char>,
    icons: Map<Seq<char>, Seq<char>>,
    classes: Map<Seq<char>, Seq<char>>,
) -> Option<Seq<char>> {
    match lookup(classes, lowercase(class)) {
        Some(p) => Some(p),
        None => lookup(icons, lowercase(class)),
    }
}

/// The entries for windows.
pub open spec fn window_entries(
    clients: Seq<ClientView>,
    icons: Map<Seq<char>, Seq<char>>,
    classes: Map<Seq<char>, Seq<char>>,
    listing: Listing,
) -> Seq<EntryView> {
    clients.filter(|c: ClientView| listing.lists(c)).map_values(
        |c: ClientView|
            EntryView::Window {
                title: c.title,
                class: c.class,
                address: c.address,
                workspace: label(c.workspace),
                icon: window_icon(c.class, icons, classes),
            },
    )
}

/// Makes the entries for windows, in the order of their focus history.
pub fn collect_hyprland_windows(
    found: &Vec<Client>,
    icon_index: &IconIndex,
    wmclass_icons: &IconIndex,
    listing: Listing,
) -> (r: Vec<Entry>)
    ensures
        entry_views(r@) == window_entries(
            by_focus(client_views(found@)),
            icon_index@,
            wmclass_icons@,
            listing,
        ),
{
    let all = clients(found);
    let ghost av = client_views(all@);
    let ghost keep = |c: ClientView| listing.lists(c);
    let ghost make = |c: ClientView|
        EntryView::Window {
            title: c.title,
            class: c.class,
            address: c.address,
            workspace: label(c.workspace),
            icon: window_icon(c.class, icon_index@, wmclass_icons@),
        };
    let mut r: Vec<Entry> = Vec::new();
    let mut i: usize = 0;
    proof {
        reveal(Seq::filter);
    }
    assert(entry_views(r@) == av.take(0).filter(keep).map_values(make));
    while i < all.len()
        invariant
            i <= all@.len(),
            av == client_views(all@),
            keep == (|c: ClientView| listing.lists(c)),
            make == (|c: ClientView|
                EntryView::Window {
                    title: c.title,
                    class: c.class,
                    address: c.address,
                    workspace: label(c.workspace),
                    icon: window_icon(c.class, icon_index@, wmclass_icons@),
                }),
            entry_views(r@) == av.take(i as int).filter(keep).map_values(make),
        decreases all.len() - i,
    {
        let ghost c = all@[i as int]@;
        proof {
            reveal(Seq::filter);
            assert(av.take(i + 1).drop_last() == av.take(i as int));
            assert(av.take(i + 1).last() == c);
        }
        let ghost head = r@;
        let class = all[i].class.as_str();
        let listed = listing.lists_window(&all[i]);
        if listed {
            let key = to_lowercase(class);
            let icon = match wmclass_icons.get(key.as_str()) {
                Some(p) => Some(p),
                None => icon_index.get(key.as_str()),
            };
            r.push(
                Entry::Window {
                    title: all[i].title.clone(),
                    class: all[i].class.clone(),
                    address: all[i].address.clone(),
                    workspace: all[i].workspace.label(),
                    icon,
                },
            );
            assert(r@.last()@ == make(c));
            assert(entry_views(r@) == entry_views(head).push(make(c)));
            assert(av.take(i as int).filter(keep).push(c).map_values(make) == av.take(
                i as int,
            ).filter(keep).map_values(make).push(make(c)));
        }
        i = i + 1;
    }
    assert(av.take(av.len() as int) == av);
    r
}

/// The entry for an application: its generic name is one more keyword.
pub open spec fn app_entry(
    de: DesktopEntryView,
    icons: Map<Seq<char>, Seq<char>>,
    exists: bool,
) -> EntryView {
    EntryView::Desktop {
        name: de.name,
        command: de.command,
        terminal: de.terminal,
        icon: match de.icon {
            Some(i) => i.resolved(icons, exists),
            None => None,
        },
        keywords: match de.generic_name {
            Some(g) => de.keywords.push(g),
            None => de.keywords,
        },
    }
}

/// Makes the entries for applications. `exists` says of each whether the file
/// of a path reference is there.
pub fn convert_desktop_entries(
    found: &Vec<DesktopEntry>,
    icon_index: &IconIndex,
    exists: &Vec<bool>,
) -> (r: Vec<Entry>)
    requires
        exists@.len() == found@.len(),
    ensures
        r@.len() == found@.len(),
        forall|i: int|
            0 <= i < r@.len() ==> (#[trigger] r@[i])@ == app_entry(
                found@[i]@,
                icon_index@,
                exists@[i],
            ),
{
    let mut r: Vec<Entry> = Vec::new();
    let mut i: usize = 0;
    while i < found.len()
        invariant
            i <= found@.len(),
            exists@.len() == found@.len(),
            r@.len() == i,
            forall|j: int|
                0 <= j < i ==> (#[trigger] r@[j])@ == app_entry(
                    found@[j]@,
                    icon_index@,
                    exists@[j],
                ),
        decreases found.len() - i,
    {
        let de = &found[i];
        let icon = match &de.icon {
            Some(ic) => ic.resolve(icon_index, exists[i]),
            None => None,
        };
        let mut keywords = copy_texts(&de.keywords);
        let ghost own = keywords@;
        match &de.generic_name {
            Some(g) => {
                keywords.push(g.clone());
                assert(views(keywords@) == views(own).push(g@));
            },
            None => {},
        }
        let e = Entry::Desktop {
            name: de.name.clone(),
            command: de.command.clone(),
            terminal: de.terminal,
            icon,
            keywords,
        };
        assert(e@ == app_entry(found@[i as int]@, icon_index@, exists@[i as int]));
        r.push(e);
        i = i + 1;
    }
    r
}

/// The launcher while it runs.
pub struct Launcher {
    pub query: String,
    pub entries: Vec<Entry>,
    pub filtered: Vec<usize>,
    pub selected: usize,
    pub should_hide: bool,
    pub loaded: bool,
    pub completion: String,
}

/// What the launcher shows.
#[verifier::ext_equal]
pub struct LauncherView {
    pub query: Seq<char>,
    pub entries: Seq<EntryView>,
    pub filtered: Seq<int>,
    pub selected: int,
    pub should_hide: bool,
    pub loaded: bool,
    pub completion: Seq<char>,
}

impl View for Launcher {
    type V = LauncherView;

    open spec fn view(&self) -> LauncherView {
        LauncherView {
            query: self.query@,
            entries: entry_views(self.entries@),
            filtered: ints(self.filtered@),
            selected: self.selected as int,
            should_hide: self.should_hide,
            loaded: self.loaded,
            completion: self.completion@,
        }
    }
}

/// The results for a query: by past use for an empty one.
pub open spec fn results(
    entries: Seq<EntryView>,
    query: Seq<char>,
    signals: Seq<Signals>,
    scores: Seq<Double>,
) -> Seq<int> {
    if query.len() == 0 {
        by_use(scores)
    } else {
        ranked(entries, lowercase(query), signals)
    }
}

/// The completion of a query by the first result.
pub open spec fn first_ghost(entries: Seq<EntryView>, query: Seq<char>, filtered: Seq<int>) -> Seq<
    char,
> {
    if filtered.len() > 0 {
        ghost_text(query, entries[filtered[0]].name())
    } else {
        Seq::empty()
    }
}

impl LauncherView {
    /// Results are positions of entries.
    pub open spec fn valid(self) -> bool {
        all_below(self.filtered, self.entries.len() as int)
    }

    /// The launcher with other results: the first one selected and completing
    /// the query.
    pub open spec fn with_results(self, filtered: Seq<int>) -> LauncherView {
        LauncherView {
            filtered,
            selected: 0,
            completion: first_ghost(self.entries, self.query, filtered),
            ..self
        }
    }

    /// The entry that is selected.
    pub open spec fn selection(self) -> Option<EntryView> {
        if self.selected < self.filtered.len() {
            Some(self.entries[self.filtered[self.selected]])
        } else {
            None
        }
    }

    /// The launcher after Tab: the query takes over the completion, or else the
    /// name of the next result.
    pub open spec fn accepted(self) -> LauncherView {
        let next = (self.selected + 1) % (self.filtered.len() as int);
        if self.completion.len() > 0 {
            LauncherView { query: self.query + self.completion, ..self }
        } else if self.filtered.len() > 1 {
            LauncherView {
                selected: next,
                query: self.entries[self.filtered[next]].name(),
                ..self
            }
        } else {
            self
        }
    }

    /// The launcher over other entries with their results: the selection is as
    /// far down as it was if the list reaches there.
    pub open spec fn loaded_with(self, entries: Seq<EntryView>, filtered: Seq<int>) -> LauncherView {
        let last = if filtered.len() > 0 {
            filtered.len() - 1
        } else {
            0
        };
        LauncherView {
            entries,
            filtered,
            selected: if self.selected < last {
                self.selected
            } else {
                last
            },
            loaded: true,
            completion: first_ghost(entries, self.query, filtered),
            ..self
        }
    }
}

proof fn hits_are_entries(entries: Seq<EntryView>, query: Seq<char>, signals: Seq<Signals>)
    ensures
        positions_ascend(hits(entries, query, signals), entries.len() as int),
    decreases entries.len(),
{
    if entries.len() > 0 {
        hits_are_entries(entries.drop_last(), query, signals);
        let before = hits(entries.drop_last(), query, signals);
        let all = hits(entries, query, signals);
        assert forall|k: int| 0 <= k < all.len() implies 0 <= (#[trigger] all[k]).0
            < entries.len() by {
            if k < before.len() {
                assert(all[k] == before[k]);
            }
        }
        assert forall|i: int, j: int| 0 <= i < j < all.len() implies (#[trigger] all[i]).0 < (
        #[trigger] all[j]).0 by {
            assert(all[i] == before[i]);
            if j < before.len() {
                assert(all[j] == before[j]);
            }
        }
    }
}

/// Results are positions of entries, none twice and at most [`MAX_RESULTS`] of
/// them.
pub proof fn results_are_entries(
    entries: Seq<EntryView>,
    query: Seq<char>,
    signals: Seq<Signals>,
    scores: Seq<Double>,
)
    requires
        scores.len() == entries.len(),
    ensures
        all_below(results(entries, query, signals, scores), entries.len() as int),
        results(entries, query, signals, scores).len() <= MAX_RESULTS,
        results(entries, query, signals, scores).no_duplicates(),
{
    if query.len() == 0 {
        let first = if scores.len() > MAX_RESULTS {
            scores.take(MAX_RESULTS as int)
        } else {
            scores
        };
        let keys = first.map_values(|s: Double| -s.place());
        ranking_exists::<i128>(keys);
        ranking_is_distinct::<i128>(keys);
        let r = ranking::<i128>(keys);
        assert forall|i: int| 0 <= i < r.len() implies 0 <= #[trigger] r[i] < entries.len() by {}
    } else {
        let q = lowercase(query);
        let found = hits(entries, q, signals);
        hits_are_entries(entries, q, signals);
        best_of_is_found(found, MAX_RESULTS as int, entries.len() as int);
    }
}

/// What the keys of a frame ask of the launcher.
#[derive(Clone, Copy, PartialEq, Eq, Structural)]
pub struct Request {
    pub activate: bool,
    pub accept: bool,
}

impl Launcher {
    /// A launcher that has nothing to show yet.
    pub fn new() -> (r: Launcher)
        ensures
            r@ == (LauncherView {
                query: Seq::empty(),
                entries: Seq::empty(),
                filtered: Seq::empty(),
                selected: 0,
                should_hide: false,
                loaded: false,
                completion: Seq::empty(),
            }),
            r@.valid(),
    {
        let r = Launcher {
            query: String::new(),
            entries: Vec::new(),
            filtered: Vec::new(),
            selected: 0,
            should_hide: false,
            loaded: false,
            completion: String::new(),
        };
        assert(r@ =~= (LauncherView {
            query: Seq::empty(),
            entries: Seq::empty(),
            filtered: Seq::empty(),
            selected: 0,
            should_hide: false,
            loaded: false,
            completion: Seq::empty(),
        }));
        r
    }

    fn set_results(&mut self, filtered: Vec<usize>)
        requires
            all_below(ints(filtered@), old(self)@.entries.len() as int),
        ensures
            final(self)@ == old(self)@.with_results(ints(filtered@)),
            final(self)@.valid(),
    {
        let ghost before = self@;
        let ghost_now = if filtered.len() > 0 {
            assert(ints(filtered@)[0] == filtered@[0] as int);
            assert(before.entries[filtered@[0] as int] == self.entries@[filtered@[0] as int]@);
            complete(self.query.as_str(), self.entries[filtered[0]].name())
        } else {
            String::new()
        };
        self.filtered = filtered;
        self.selected = 0;
        self.completion = ghost_now;
        assert(self@ =~= before.with_results(ints(filtered@)));
    }

    /// Filters the entries by the query and selects the first result.
    pub fn refilter(&mut self, signals: &Vec<Signals>, scores: &Vec<Double>)
        requires
            old(self)@.valid(),
            signals@.len() == old(self)@.entries.len(),
            scores@.len() == old(self)@.entries.len(),
            forall|i: int|
                0 <= i < signals@.len() ==> (#[trigger] signals@[i]).valid(old(self)@.entries[i]),
            forall|i: int| 0 <= i < scores@.len() ==> !(#[trigger] scores@[i]).is_nan(),
        ensures
            final(self)@.valid(),
            final(self)@ == old(self)@.with_results(
                results(old(self)@.entries, old(self)@.query, signals@, scores@),
            ),
    {
        proof {
            results_are_entries(self@.entries, self@.query, signals@, scores@);
        }
        if self.query.as_str().is_empty() {
            self.set_results(default_order(scores));
            return;
        }
        assert forall|i: int| 0 <= i < self.entries@.len() implies signals@[i].valid(
            (#[trigger] self.entries@[i])@,
        ) by {
            assert(self@.entries[i] == self.entries@[i]@);
            assert(signals@[i].valid(self@.entries[i]));
        }
        let found = filter(&self.entries, self.query.as_str(), signals);
        self.set_results(found);
    }

    /// Takes over newly collected entries and filters them, keeping the
    /// selection as far down as it was if the list reaches there.
    pub fn load_entries(
        &mut self,
        entries: Vec<Entry>,
        signals: &Vec<Signals>,
        scores: &Vec<Double>,
    )
        requires
            signals@.len() == entries@.len(),
            scores@.len() == entries@.len(),
            forall|i: int|
                0 <= i < signals@.len() ==> (#[trigger] signals@[i]).valid(
                    entry_views(entries@)[i],
                ),
            forall|i: int| 0 <= i < scores@.len() ==> !(#[trigger] scores@[i]).is_nan(),
        ensures
            final(self)@.valid(),
            final(self)@ == old(self)@.loaded_with(
                entry_views(entries@),
                results(entry_views(entries@), old(self)@.query, signals@, scores@),
            ),
            ({
                let ev = entry_views(entries@);
                let filtered = results(ev, old(self)@.query, signals@, scores@);
                let last = if filtered.len() > 0 {
                    filtered.len() - 1
                } else {
                    0
                };
                final(self)@ == (LauncherView {
                    entries: ev,
                    filtered,
                    selected: if old(self)@.selected < last {
                        old(self)@.selected
                    } else {
                        last
                    },
                    loaded: true,
                    completion: first_ghost(ev, old(self)@.query, filtered),
                    ..old(self)@
                })
            }),
    {
        let ghost before = self@;
        let old_selected: usize = self.selected;
        self.entries = entries;
        self.filtered = Vec::new();
        assert(self@.filtered =~= Seq::<int>::empty());
        self.refilter(signals, scores);
        let n: usize = self.filtered.len();
        assert(self@.filtered.len() == n);
        let last: usize = if n > 0 {
            n - 1
        } else {
            0
        };
        self.selected = if old_selected < last {
            old_selected
        } else {
            last
        };
        self.loaded = true;
        assert(self@ =~= (LauncherView {
            entries: entry_views(entries@),
            filtered: self@.filtered,
            selected: self@.selected,
            loaded: true,
            completion: self@.completion,
            ..before
        }));
    }

    /// Reads the keys of a frame: Escape hides, Enter opens, Tab completes.
    pub fn on_keys(&mut self, events: &Vec<KeyEvent>) -> (r: Request)
        ensures
            r.activate == any_pressed(events@, Key::Enter, false),
            r.accept == any_pressed(events@, Key::Tab, false),
            final(self)@ == (LauncherView {
                should_hide: old(self)@.should_hide || any_pressed(events@, Key::Escape, false),
                ..old(self)@
            }),
    {
        let ghost before = self@;
        if was_pressed(events, Key::Escape, false) {
            self.should_hide = true;
        }
        assert(self@ =~= (LauncherView {
            should_hide: before.should_hide || any_pressed(events@, Key::Escape, false),
            ..before
        }));
        Request {
            activate: was_pressed(events, Key::Enter, false),
            accept: was_pressed(events, Key::Tab, false),
        }
    }

    /// What Tab does to the query: it takes over the completion, or else the
    /// name of the next result. Returns whether the query has to be filtered.
    pub fn accept_ghost(&mut self) -> (r: bool)
        requires
            old(self)@.valid(),
        ensures
            final(self)@.valid(),
            final(self)@ == old(self)@.accepted(),
            ({
                let t = old(self)@;
                let next = (t.selected + 1) % (t.filtered.len() as int);
                if t.completion.len() > 0 {
                    r && final(self)@ == (LauncherView { query: t.query + t.completion, ..t })
                } else if t.filtered.len() > 1 {
                    r && final(self)@ == (LauncherView {
                        selected: next,
                        query: t.entries[t.filtered[next]].name(),
                        ..t
                    })
                } else {
                    !r && final(self)@ == t
                }
            }),
    {
        let ghost before = self@;
        if !self.completion.as_str().is_empty() {
            let added = self.completion.clone();
            self.query.append(added.as_str());
            assert(self@ =~= (LauncherView { query: before.query + before.completion, ..before }));
            return true;
        }
        let n: usize = self.filtered.len();
        assert(before.filtered.len() == n);
        if n > 1 {
            proof {
                lemma_mod_bound(before.selected + 1, n as int);
            }
            let next: usize = ((self.selected as u128 + 1) % (n as u128)) as usize;
            assert(next == (before.selected + 1) % (n as int));
            self.selected = next;
            let idx: usize = self.filtered[next];
            assert(before.filtered[next as int] == idx);
            assert(before.entries[idx as int] == self.entries@[idx as int]@);
            let name = self.entries[idx].name().to_owned();
            self.query = name;
            assert(self@ =~= (LauncherView {
                selected: next as int,
                query: before.entries[before.filtered[next as int]].name(),
                ..before
            }));
            return true;
        }
        false
    }

    /// Moves the selection; `rows` is the number of results when the keys were
    /// pressed. Returns what to ask of the compositor so that the window that
    /// became selected shows.
    pub fn navigate(&mut self, rows: usize, down: bool, up: bool) -> (r: Vec<String>)
        requires
            old(self)@.valid(),
        ensures
            final(self)@.valid(),
            final(self)@ == (LauncherView {
                selected: moved(old(self)@.selected, rows as int, down, up),
                ..old(self)@
            }),
            views(r@) == (match final(self)@.selection() {
                Some(EntryView::Window { workspace, address, .. }) => if down || up {
                    seq![focus_workspace(workspace), raise_window(address)]
                } else {
                    Seq::empty()
                },
                _ => Seq::empty(),
            }),
    {
        let ghost before = self@;
        self.selected = move_selection(self.selected, rows, down, up);
        assert(self@ =~= (LauncherView {
            selected: moved(before.selected, rows as int, down, up),
            ..before
        }));
        let mut r: Vec<String> = Vec::new();
        if (down || up) && self.selected < self.filtered.len() {
            let idx: usize = self.filtered[self.selected];
            proof {
                assert(self@.filtered[self.selected as int] == idx);
                assert(self@.entries[idx as int] == self.entries@[idx as int]@);
            }
            match &self.entries[idx] {
                Entry::Window { workspace, address, .. } => {
                    r.push(workspace_command(workspace.as_str()));
                    r.push(raise_command(address.as_str()));
                    assert(views(r@) == seq![focus_workspace(workspace@), raise_window(address@)]);
                    return r;
                },
                _ => {},
            }
        }
        assert(views(r@) == Seq::<Seq<char>>::empty());
        r
    }

    /// Opens the selected entry and asks to be hidden. `term` is the terminal's
    /// command line, where one is set. Nothing is opened without a selection.
    pub fn activate(&mut self, term: Option<&str>) -> (r: Option<Activation>)
        requires
            old(self)@.valid(),
        ensures
            final(self)@ == (LauncherView { should_hide: true, ..old(self)@ }),
            r is Some <==> old(self)@.selection() is Some,
            r matches Some(a) ==> a.opening@ == opened(old(self)@.selection()->0, slice_text(term)),
            r matches Some(a) ==> {
                &&& a.name@ == old(self)@.selection()->0.name()
                &&& a.learn == (old(self)@.query.len() > 0)
                &&& match old(self)@.selection()->0 {
                    EntryView::Desktop { command, terminal, .. } => a.opening matches Opening::Run(w)
                        && views(w@) == run_words(command, terminal, slice_text(term), false),
                    EntryView::Window { address, .. } => a.opening matches Opening::Dispatch(d) && d@
                        == focus_window(address),
                }
            },
    {
        let ghost before = self@;
        self.should_hide = true;
        assert(self@ =~= (LauncherView { should_hide: true, ..before }));
        if self.selected >= self.filtered.len() {
            return None;
        }
        let idx: usize = self.filtered[self.selected];
        proof {
            assert(before.filtered[self.selected as int] == idx);
            assert(before.entries[idx as int] == self.entries@[idx as int]@);
        }
        let e = &self.entries[idx];
        let opening = match e {
            Entry::Desktop { command, terminal, .. } => Opening::Run(
                command_to_run(command.as_str(), *terminal, term, false),
            ),
            Entry::Window { address, .. } => Opening::Dispatch(focus_command(address.as_str())),
        };
        Some(
            Activation {
                name: e.name().to_owned(),
                learn: !self.query.as_str().is_empty(),
                opening,
            },
        )
    }

    /// Whether the entries have to be collected before the next frame: they were
    /// not yet, or the list of windows changed since.
    pub fn needs_load(&self, changed: bool) -> (r: bool)
        ensures
            r == (!self@.loaded || changed),
    {
        !self.loaded || changed
    }

    /// How many rows high the list is: one for a query that finds nothing.
    pub fn rows_high(&self) -> (r: usize)
        ensures
            r == (if self@.filtered.len() > MAX_VISIBLE_ITEMS {
                MAX_VISIBLE_ITEMS as int
            } else if self@.filtered.len() > 0 {
                self@.filtered.len() as int
            } else if self@.query.len() > 0 {
                1
            } else {
                0
            }),
    {
        let n: usize = self.filtered.len();
        assert(self@.filtered.len() == n);
        if n > MAX_VISIBLE_ITEMS {
            MAX_VISIBLE_ITEMS
        } else if n > 0 {
            n
        } else if !self.query.as_str().is_empty() {
            1
        } else {
            0
        }
    }

    /// Selects a result that was clicked.
    pub fn select(&mut self, row: usize)
        ensures
            final(self)@ == (LauncherView { selected: row as int, ..old(self)@ }),
    {
        let ghost before = self@;
        self.selected = row;
        assert(self@ =~= (LauncherView { selected: row as int, ..before }));
    }

    /// Resets transient state when the launcher is dismissed: the query, the
    /// selection and the order of the list.
    pub fn hide_and_reset(&mut self, scores: &Vec<Double>)
        requires
            scores@.len() == old(self)@.entries.len(),
            forall|i: int| 0 <= i < scores@.len() ==> !(#[trigger] scores@[i]).is_nan(),
        ensures
            final(self)@.valid(),
            final(self)@ == (LauncherView {
                query: Seq::empty(),
                filtered: by_use(scores@),
                selected: 0,
                should_hide: false,
                loaded: false,
                ..old(self)@
            }),
    {
        let ghost before = self@;
        proof {
            results_are_entries(before.entries, Seq::empty(), Seq::empty(), scores@);
        }
        self.query = String::new();
        self.selected = 0;
        self.filtered = default_order(scores);
        self.should_hide = false;
        self.loaded = false;
        assert(self.query@ == Seq::<char>::empty());
        assert(self@ =~= (LauncherView {
            query: Seq::empty(),
            filtered: by_use(scores@),
            selected: 0,
            should_hide: false,
            loaded: false,
            ..before
        }));
    }
}

/// The lines of a row, what the query picks highlighted.
pub struct RowLines {
    pub first: Vec<Span>,
    pub second: Option<Vec<Span>>,
}

/// The spans of a line that a query highlights, if it can.
pub open spec fn line_spans(line: Seq<char>, query: Seq<char>) -> Option<Seq<SpanView>> {
    match landing(line, query_offsets(line, query)) {
        Some(p) => Some(spans(line, p)),
        None => None,
    }
}

/// Makes the lines of a row: the name alone, or a title that says more and the
/// name below it. `name` and `title` are what is left of them in the width of
/// the list. None where the query picks bytes that are no characters (see
/// [`highlight_query`]).
pub fn row_lines(e: &Entry, name: &str, title: &str, query: &str) -> (r: Option<RowLines>)
    ensures
        match (e@.subtitle(), line_spans(title@, query@), line_spans(name@, query@)) {
            (Some(_), Some(t), Some(n)) => r matches Some(l) && span_views(l.first@) == t && (
            l.second matches Some(s) && span_views(s@) == n),
            (None, _, Some(n)) => r matches Some(l) && span_views(l.first@) == n && l.second is None,
            _ => r is None,
        },
{
    let below = match highlight_query(name, query) {
        Some(s) => s,
        None => {
            return None;
        },
    };
    match e.subtitle() {
        Some(_) => match highlight_query(title, query) {
            Some(s) => Some(RowLines { first: s, second: Some(below) }),
            None => None,
        },
        None => Some(RowLines { first: below, second: None }),
    }
}

/// What opening an entry takes.
pub enum Opening {
    /// A program and its arguments; none at all for an empty command line.
    Run(Vec<String>),
    /// A request to the compositor.
    Dispatch(String),
}

/// What opening an entry asks for.
pub enum OpeningView {
    Run(Seq<Seq<char>>),
    Dispatch(Seq<char>),
}

impl View for Opening {
    type V = OpeningView;

    open spec fn view(&self) -> OpeningView {
        match self {
            Opening::Run(w) => OpeningView::Run(views(w@)),
            Opening::Dispatch(d) => OpeningView::Dispatch(d@),
        }
    }
}

/// What opening an entry takes, given the terminal's command line where one is
/// set: an application is run, in a terminal if it needs one, and a window gets
/// the focus.
pub open spec fn opened(e: EntryView, term: Option<Seq<char>>) -> OpeningView {
    match e {
        EntryView::Desktop { command, terminal, .. } => OpeningView::Run(
            run_words(command, terminal, term, false),
        ),
        EntryView::Window { address, .. } => OpeningView::Dispatch(focus_window(address)),
    }
}

/// What activating an entry takes: what to open, and what to record of it.
pub struct Activation {
    pub name: String,
    /// Whether the choice is to be recorded with the query.
    pub learn: bool,
    pub opening: Opening,
}

/// The request that gives a window the focus.
pub open spec fn focus_window(address: Seq<char>) -> Seq<char> {
    "hl.dsp.focus({ window = \"address:"@ + address + "\" })"@
}

/// The request that shows a workspace.
pub open spec fn focus_workspace(workspace: Seq<char>) -> Seq<char> {
    "hl.dsp.focus({ workspace = \""@ + workspace + "\" })"@
}

/// The request that puts a window on top.
pub open spec fn raise_window(address: Seq<char>) -> Seq<char> {
    "hl.dsp.window.alter_zorder({ mode = \"top\", window = \"address:"@ + address + "\" })"@
}

fn focus_command(address: &str) -> (r: String)
    ensures
        r@ == focus_window(address@),
{
    let a = concat("hl.dsp.focus({ window = \"address:", address);
    concat(a.as_str(), "\" })")
}

fn workspace_command(workspace: &str) -> (r: String)
    ensures
        r@ == focus_workspace(workspace@),
{
    let a = concat("hl.dsp.focus({ workspace = \"", workspace);
    concat(a.as_str(), "\" })")
}

fn raise_command(address: &str) -> (r: String)
    ensures
        r@ == raise_window(address@),
{
    let a = concat(
        "hl.dsp.window.alter_zorder({ mode = \"top\", window = \"address:",
        address,
    );
    concat(a.as_str(), "\" })")
}

/// The window that has the focus, and since when.
pub struct FocusTracker {
    pub active: Option<String>,
    pub focused_at: Double,
}

/// What a compositor event means to the launcher.
pub struct FocusOutcome {
    /// Whether the list of windows changed.
    pub reload: bool,
    /// The class of the window that lost the focus, and since when it had it.
    pub ended: Option<(String, Double)>,
}

/// Whether an event says that the list of windows changed.
pub open spec fn changes_windows(line: Seq<char>) -> bool {
    "openwindow>>"@.is_prefix_of(line) || "closewindow>>"@.is_prefix_of(line)
        || "movewindow>>"@.is_prefix_of(line)
}

/// The class that a focus event names.
pub open spec fn focused_class(line: Seq<char>) -> Seq<char> {
    split(line.skip("activewindow>>"@.len() as int), Separator::Char(','))[0]
}

/// Which window has the focus, and since when.
#[verifier::ext_equal]
pub struct FocusView {
    pub active: Option<Seq<char>>,
    pub focused_at: Double,
}

impl View for FocusTracker {
    type V = FocusView;

    open spec fn view(&self) -> FocusView {
        FocusView { active: text_of(self.active), focused_at: self.focused_at }
    }
}

impl FocusView {
    /// Whether an event moves the focus.
    pub open spec fn moves(self, line: Seq<char>) -> bool {
        !changes_windows(line) && "activewindow>>"@.is_prefix_of(line)
    }

    /// Who has the focus after an event: the window that it names, or none that
    /// counts.
    pub open spec fn followed(self, line: Seq<char>, now: Double) -> FocusView {
        let class = focused_class(line);
        if !self.moves(line) {
            self
        } else if class.len() > 0 && class != "launcher"@ {
            FocusView { active: Some(class), focused_at: now }
        } else {
            FocusView { active: None, ..self }
        }
    }

    /// The class that loses the focus by an event, and since when it had it.
    pub open spec fn ended(self, line: Seq<char>) -> Option<(Seq<char>, Double)> {
        match self.active {
            Some(class) => if self.moves(line) {
                Some((class, self.focused_at))
            } else {
                None
            },
            None => None,
        }
    }
}

/// What an ended focus says.
pub open spec fn ended_view(o: Option<(String, Double)>) -> Option<(Seq<char>, Double)> {
    match o {
        Some(e) => Some((e.0@, e.1)),
        None => None,
    }
}

impl FocusTracker {
    /// Follows one event of the compositor.
    pub fn on_event(&mut self, line: &str, now: Double) -> (r: FocusOutcome)
        ensures
            final(self)@ == old(self)@.followed(line@, now),
            ended_view(r.ended) == old(self)@.ended(line@),
            r.reload == changes_windows(line@),
            ({
                let focus = !changes_windows(line@) && "activewindow>>"@.is_prefix_of(line@);
                let class = focused_class(line@);
                if focus {
                    &&& text_of(
                        match r.ended {
                            Some(e) => Some(e.0),
                            None => None,
                        },
                    ) == text_of(old(self).active)
                    &&& r.ended matches Some(e) ==> e.1 == old(self).focused_at
                    &&& if class.len() > 0 && class != "launcher"@ {
                        text_of(final(self).active) == Some(class) && final(self).focused_at == now
                    } else {
                        final(self).active is None && final(self).focused_at
                            == old(self).focused_at
                    }
                } else {
                    r.ended is None && *final(self) == *old(self)
                }
            }),
    {
        if starts_with(line, "openwindow>>") || starts_with(line, "closewindow>>") || starts_with(
            line,
            "movewindow>>",
        ) {
            return FocusOutcome { reload: true, ended: None };
        }
        if !starts_with(line, "activewindow>>") {
            return FocusOutcome { reload: false, ended: None };
        }
        let ended = match &self.active {
            Some(c) => Some((c.clone(), self.focused_at)),
            None => None,
        };
        self.active = None;
        let all = chars_of(line);
        let skip: usize = chars_of("activewindow>>").len();
        let rest = slice_subrange(all.as_slice(), skip, all.len());
        assert(rest@ == line@.skip(skip as int));
        let parts = split_chars(rest, Separator::Char(','));
        proof {
            crate::text::split_is_not_empty(rest@, Separator::Char(','));
            assert(parts@.len() == views(parts@).len());
            assert(parts@[0]@ == views(parts@)[0]);
        }
        let class = parts[0].clone();
        if !class.as_str().is_empty() && !same(class.as_str(), "launcher") {
            self.active = Some(class);
            self.focused_at = now;
        }
        FocusOutcome { reload: false, ended }
    }
}

/// The best score of a word on some fields is that of one of them and no less
/// than that of any; without a score it is zero.
pub proof fn best_score_is_best(fields: Seq<Seq<char>>, word: Seq<char>)
    ensures
        best_score(fields, word) >= 0,
        forall|k: int|
            0 <= k < fields.len() ==> (score_of(word, #[trigger] fields[k]) matches Some(s) ==> s
                <= best_score(fields, word)),
        best_score(fields, word) > 0 ==> exists|k: int|
            0 <= k < fields.len() && score_of(word, #[trigger] fields[k]) == Some(
                best_score(fields, word) as u32,
            ) && best_score(fields, word) <= u32::MAX,
    decreases fields.len(),
{
    if fields.len() > 0 {
        let part = fields.drop_last();
        let n = fields.len() - 1;
        best_score_is_best(part, word);
        assert(fields[n] == fields.last());
        assert(forall|k: int| 0 <= k < n ==> #[trigger] fields[k] == part[k]);
        if best_score(fields, word) > 0 && best_score(fields, word) == best_score(part, word) {
            let k = choose|k: int|
                0 <= k < part.len() && score_of(word, #[trigger] part[k]) == Some(
                    best_score(part, word) as u32,
                ) && best_score(part, word) <= u32::MAX;
            assert(fields[k] == part[k]);
        }
    }
}

/// The best similarity is the highest of those that are at least 850
/// thousandths; without one it is zero.
pub proof fn best_similarity_is_best(similar: Seq<u32>)
    ensures
        best_similarity(similar) >= 0,
        forall|k: int|
            0 <= k < similar.len() && similar[k] >= 850 ==> #[trigger] similar[k]
                <= best_similarity(similar),
        best_similarity(similar) > 0 ==> exists|k: int|
            0 <= k < similar.len() && #[trigger] similar[k] == best_similarity(similar)
                && similar[k] >= 850,
    decreases similar.len(),
{
    if similar.len() > 0 {
        let part = similar.drop_last();
        let n = similar.len() - 1;
        best_similarity_is_best(part);
        assert(similar[n] == similar.last());
        assert(forall|k: int| 0 <= k < n ==> #[trigger] similar[k] == part[k]);
        if best_similarity(similar) > 0 && best_similarity(similar) == best_similarity(part) {
            let k = choose|k: int|
                0 <= k < part.len() && #[trigger] part[k] == best_similarity(part) && part[k]
                    >= 850;
            assert(similar[k] == part[k]);
        }
    }
}

proof fn hit_is_match(entries: Seq<EntryView>, query: Seq<char>, signals: Seq<Signals>, k: int)
    requires
        0 <= k < hits(entries, query, signals).len(),
    ensures
        0 <= hits(entries, query, signals)[k].0 < entries.len(),
        match_score(
            entries[hits(entries, query, signals)[k].0],
            query,
            signals[hits(entries, query, signals)[k].0],
        ) == Some(hits(entries, query, signals)[k].1),
    decreases entries.len(),
{
    let part = entries.drop_last();
    let before = hits(part, query, signals);
    if k < before.len() {
        hit_is_match(part, query, signals, k);
        assert(hits(entries, query, signals)[k] == before[k]);
        assert(part[before[k].0] == entries[before[k].0]);
    }
}

proof fn match_is_hit(
    entries: Seq<EntryView>,
    query: Seq<char>,
    signals: Seq<Signals>,
    i: int,
) -> (k: int)
    requires
        0 <= i < entries.len(),
        match_score(entries[i], query, signals[i]) is Some,
    ensures
        0 <= k < hits(entries, query, signals).len(),
        hits(entries, query, signals)[k] == (i, match_score(entries[i], query, signals[i])->0),
    decreases entries.len(),
{
    let part = entries.drop_last();
    let before = hits(part, query, signals);
    if i < part.len() {
        assert(part[i] == entries[i]);
        let k = match_is_hit(part, query, signals, i);
        assert(hits(entries, query, signals)[k] == before[k]);
        k
    } else {
        before.len() as int
    }
}

/// An application is found by its keywords: where the one word of a query has a
/// score on a keyword of which three tenths are a point or more, and the keyword
/// holds the query, the application is among the hits, with at least three
/// tenths of that score.
pub proof fn keywords_are_found(
    entries: Seq<EntryView>,
    query: Seq<char>,
    signals: Seq<Signals>,
    i: int,
    k: int,
    score: u32,
)
    requires
        0 <= i < entries.len(),
        words(query, Separator::Whitespace).len() == 1,
        entries[i] is Desktop,
        0 <= k < entries[i]->keywords.len(),
        score_of(words(query, Separator::Whitespace)[0], entries[i]->keywords[k]) == Some(score),
        score >= 4,
        contains(lowercase(entries[i]->keywords[k]), query),
    ensures
        exists|h: int|
            0 <= h < hits(entries, query, signals).len() && (#[trigger] hits(
                entries,
                query,
                signals,
            )[h]).0 == i && hits(entries, query, signals)[h].1 >= score * 3 / 10
                + signals[i].usage_bonus + signals[i].query_bonus + signals[i].length_bonus,
{
    let e = entries[i];
    let word = words(query, Separator::Whitespace)[0];
    let keywords = e->keywords;
    best_score_is_best(e.secondary(), word);
    best_score_is_best(e.primary(), word);
    best_similarity_is_best(signals[i].primary@);
    best_similarity_is_best(signals[i].secondary@);
    assert(e.secondary()[k] == keywords[k]);
    assert(best_score(e.secondary(), word) >= score);
    assert(e.fields()[e.primary().len() + k] == keywords[k]);
    assert(some_holds(e.fields(), query));
    assert(match_score(e, query, signals[i]) is Some);
    let h = match_is_hit(entries, query, signals, i);
    assert(hits(entries, query, signals)[h].0 == i);
}

/// An entry is found by its name, its title or its class: where the first word
/// of a query scores on one of them and each further word scores on some field
/// or stands in one, the entry is among the hits, with five thousand points more
/// than the score. A single word has to stand in a field, or to be short enough
/// for these points.
pub proof fn names_are_found(
    entries: Seq<EntryView>,
    query: Seq<char>,
    signals: Seq<Signals>,
    i: int,
    k: int,
    score: u32,
)
    requires
        0 <= i < entries.len(),
        words(query, Separator::Whitespace).len() > 0,
        0 <= k < entries[i].primary().len(),
        score_of(words(query, Separator::Whitespace)[0], entries[i].primary()[k]) == Some(score),
        score > 0,
        words(query, Separator::Whitespace).len() == 1 ==> contains(
            lowercase(entries[i].primary()[k]),
            query,
        ) || byte_len(query) * 20 <= score + 5000,
        forall|n: int|
            #![trigger words(query, Separator::Whitespace)[n]]
            1 <= n < words(query, Separator::Whitespace).len() ==> exists|f: int|
                0 <= f < entries[i].fields().len() && ((score_of(
                    words(query, Separator::Whitespace)[n],
                    #[trigger] entries[i].fields()[f],
                ) matches Some(s) && s > 0) || contains(
                    lowercase(entries[i].fields()[f]),
                    words(query, Separator::Whitespace)[n],
                )),
    ensures
        exists|h: int|
            0 <= h < hits(entries, query, signals).len() && (#[trigger] hits(
                entries,
                query,
                signals,
            )[h]).0 == i && hits(entries, query, signals)[h].1 >= score + 5000
                + signals[i].usage_bonus + signals[i].query_bonus + signals[i].length_bonus,
{
    let e = entries[i];
    let tokens = words(query, Separator::Whitespace);
    let word = tokens[0];
    best_score_is_best(e.secondary(), word);
    best_score_is_best(e.primary(), word);
    best_similarity_is_best(signals[i].primary@);
    best_similarity_is_best(signals[i].secondary@);
    assert(best_score(e.primary(), word) >= score);
    assert(e.fields()[k] == e.primary()[k]);
    let rest = tokens.skip(1);
    assert forall|n: int| 0 <= n < rest.len() implies some_scores(e.fields(), #[trigger] rest[n])
        || some_holds(e.fields(), rest[n]) by {
        assert(rest[n] == tokens[n + 1]);
    }
    if tokens.len() == 1 && contains(lowercase(e.primary()[k]), query) {
        assert(some_holds(e.fields(), query));
    }
    assert(match_score(e, query, signals[i]) is Some);
    let h = match_is_hit(entries, query, signals, i);
    assert(hits(entries, query, signals)[h].0 == i);
}

/// An entry whose name begins with the one word that is typed is among the
/// hits, with ten thousand points for it and five thousand for holding it.
pub proof fn beginnings_are_found(
    entries: Seq<EntryView>,
    query: Seq<char>,
    signals: Seq<Signals>,
    i: int,
)
    requires
        0 <= i < entries.len(),
        words(query, Separator::Whitespace) == seq![query],
        query.is_prefix_of(lowercase(entries[i].name())),
    ensures
        exists|h: int|
            0 <= h < hits(entries, query, signals).len() && (#[trigger] hits(
                entries,
                query,
                signals,
            )[h]).0 == i && hits(entries, query, signals)[h].1 >= 15000 + signals[i].usage_bonus
                + signals[i].query_bonus + signals[i].length_bonus,
{
    let e = entries[i];
    let name = lowercase(e.name());
    best_score_is_best(e.secondary(), query);
    best_score_is_best(e.primary(), query);
    best_similarity_is_best(signals[i].primary@);
    best_similarity_is_best(signals[i].secondary@);
    assert(occurs_at(name, query, 0));
    assert(contains(name, query));
    let k = if e is Desktop {
        0int
    } else {
        1int
    };
    assert(e.fields()[k] == e.name());
    assert(some_holds(e.fields(), query));
    assert(match_score(e, query, signals[i]) is Some);
    let h = match_is_hit(entries, query, signals, i);
    assert(hits(entries, query, signals)[h].0 == i);
}

/// The points of an application without keywords for one word: its score on the
/// name, or where it has none its similarity if that is at least 850
/// thousandths; more for a name that begins with the word, for one that scores
/// or holds it and for one with a word that begins with it; and the bonuses.
/// Nothing is found without points for the match, nor where the name does not
/// hold the query and has fewer than twenty points for each of its bytes.
pub proof fn points_of_a_name(e: EntryView, query: Seq<char>, s: Signals, word: Seq<char>)
    requires
        e is Desktop,
        e->keywords.len() == 0,
        words(query, Separator::Whitespace) == seq![word],
        s.valid(e),
    ensures
        ({
            let name = e->Desktop_name;
            let low = lowercase(name);
            let scores = score_of(word, name) matches Some(n) && n > 0;
            let base = (if scores {
                score_of(word, name)->0 as int
            } else if s.primary@[0] >= 850 {
                s.primary@[0] as int
            } else {
                0
            }) + (if word.is_prefix_of(low) {
                10000int
            } else {
                0
            }) + (if scores || contains(low, word) {
                5000int
            } else {
                0
            }) + (if exists|i: int|
                0 <= i < split(low, Separator::NonAlphanumeric).len() && word.is_prefix_of(
                    #[trigger] split(low, Separator::NonAlphanumeric)[i],
                ) {
                4000int
            } else {
                0
            });
            match_score(e, query, s) == if base == 0 || (!contains(low, query) && base < byte_len(
                query,
            ) * 20) {
                None
            } else {
                Some(base + s.usage_bonus + s.query_bonus + s.length_bonus)
            }
        }),
{
    let name = e->Desktop_name;
    let p = e.primary();
    assert(p =~= seq![name]);
    assert(p.drop_last() =~= Seq::<Seq<char>>::empty());
    assert(p.last() == name);
    assert(best_score(p.drop_last(), word) == 0);
    let q = e.secondary();
    assert(best_score(q, word) == 0);
    let sp = s.primary@;
    assert(sp.len() == 1);
    assert(sp.drop_last() =~= Seq::<u32>::empty());
    assert(sp.last() == sp[0]);
    assert(best_similarity(sp.drop_last()) == 0);
    assert(best_similarity(s.secondary@) == 0);
    let f = e.fields();
    assert(f =~= seq![name]);
    assert(some_holds(f, query) == contains(lowercase(name), query)) by {
        assert(f[0] == name);
    }
    assert(begins_some_word(p, word) == begins_a_word(name, word)) by {
        assert(p[0] == name);
    }
}

/// What is found matches: the first word scores on some field, or is similar
/// enough to one, or stands in the name, or begins a word of the name, the title
/// or the class; and each further word scores on some field or stands in one.
pub proof fn hits_match_the_query(
    entries: Seq<EntryView>,
    query: Seq<char>,
    signals: Seq<Signals>,
    h: int,
)
    requires
        0 <= h < hits(entries, query, signals).len(),
    ensures
        ({
            let i = hits(entries, query, signals)[h].0;
            let e = entries[i];
            let s = signals[i];
            let tokens = words(query, Separator::Whitespace);
            &&& 0 <= i < entries.len()
            &&& tokens.len() > 0
            &&& (exists|f: int|
                0 <= f < e.fields().len() && (score_of(tokens[0], #[trigger] e.fields()[f]) matches Some(
                    n,
                ) && n > 0)) || (exists|k: int|
                0 <= k < s.primary@.len() && #[trigger] s.primary@[k] >= 850) || (exists|k: int|
                0 <= k < s.secondary@.len() && #[trigger] s.secondary@[k] >= 850) || contains(
                lowercase(e.name()),
                tokens[0],
            ) || begins_some_word(e.primary(), tokens[0])
            &&& forall|n: int|
                #![trigger tokens[n]]
                1 <= n < tokens.len() ==> exists|f: int|
                    0 <= f < e.fields().len() && ((score_of(
                        tokens[n],
                        #[trigger] e.fields()[f],
                    ) matches Some(x) && x > 0) || contains(lowercase(e.fields()[f]), tokens[n]))
        }),
{
    hit_is_match(entries, query, signals, h);
    let i = hits(entries, query, signals)[h].0;
    let e = entries[i];
    let s = signals[i];
    let tokens = words(query, Separator::Whitespace);
    let word = tokens[0];
    best_score_is_best(e.secondary(), word);
    best_score_is_best(e.primary(), word);
    best_similarity_is_best(s.primary@);
    best_similarity_is_best(s.secondary@);
    if best_score(e.primary(), word) > 0 {
        let k = choose|k: int|
            0 <= k < e.primary().len() && score_of(word, #[trigger] e.primary()[k]) == Some(
                best_score(e.primary(), word) as u32,
            ) && best_score(e.primary(), word) <= u32::MAX;
        assert(e.fields()[k] == e.primary()[k]);
    }
    if best_score(e.secondary(), word) > 0 {
        let k = choose|k: int|
            0 <= k < e.secondary().len() && score_of(word, #[trigger] e.secondary()[k]) == Some(
                best_score(e.secondary(), word) as u32,
            ) && best_score(e.secondary(), word) <= u32::MAX;
        assert(e.fields()[e.primary().len() + k] == e.secondary()[k]);
    }
    if word.is_prefix_of(lowercase(e.name())) {
        assert(occurs_at(lowercase(e.name()), word, 0));
    }
    let rest = tokens.skip(1);
    assert forall|n: int| #![trigger tokens[n]] 1 <= n < tokens.len() implies exists|f: int|
        0 <= f < e.fields().len() && ((score_of(tokens[n], #[trigger] e.fields()[f]) matches Some(
            x,
        ) && x > 0) || contains(lowercase(e.fields()[f]), tokens[n])) by {
        assert(rest[n - 1] == tokens[n]);
        assert(some_scores(e.fields(), rest[n - 1]) || some_holds(e.fields(), rest[n - 1]));
    }
}

/// The bonuses for past use, for past choices and for a short name are added to
/// the points of a match, and decide nothing of whether there is one.
pub proof fn bonuses_are_added(e: EntryView, query: Seq<char>, s: Signals, t: Signals)
    requires
        s.primary@ == t.primary@,
        s.secondary@ == t.secondary@,
    ensures
        match_score(e, query, s) is Some <==> match_score(e, query, t) is Some,
        match_score(e, query, s) is Some ==> match_score(e, query, s)->0 - s.usage_bonus
            - s.query_bonus - s.length_bonus == match_score(e, query, t)->0 - t.usage_bonus
            - t.query_bonus - t.length_bonus,
{
}

/// Results come best first: one that is listed has at least the points of one
/// after it, and of those with as many the first in the list comes first. An
/// entry that matches is left out only where the list is full of results with
/// at least its points.
pub proof fn results_come_best_first(
    entries: Seq<EntryView>,
    query: Seq<char>,
    signals: Seq<Signals>,
)
    ensures
        forall|a: int|
            #![trigger ranked(entries, query, signals)[a]]
            0 <= a < ranked(entries, query, signals).len() ==> {
                let i = ranked(entries, query, signals)[a];
                0 <= i < entries.len() && match_score(entries[i], query, signals[i]) is Some
            },
        forall|a: int, b: int|
            #![trigger ranked(entries, query, signals)[a], ranked(entries, query, signals)[b]]
            0 <= a < b < ranked(entries, query, signals).len() ==> {
                let (i, j) = (
                    ranked(entries, query, signals)[a],
                    ranked(entries, query, signals)[b],
                );
                let p = match_score(entries[i], query, signals[i])->0;
                let q = match_score(entries[j], query, signals[j])->0;
                p > q || (p == q && i < j)
            },
        forall|j: int|
            #![trigger entries[j]]
            0 <= j < entries.len() && match_score(entries[j], query, signals[j]) is Some && !ranked(
                entries,
                query,
                signals,
            ).contains(j) ==> ranked(entries, query, signals).len() == 50 && forall|a: int|
                #![trigger ranked(entries, query, signals)[a]]
                0 <= a < 50 ==> match_score(
                    entries[ranked(entries, query, signals)[a]],
                    query,
                    signals[ranked(entries, query, signals)[a]],
                )->0 >= match_score(entries[j], query, signals[j])->0,
{
    let all = hits(entries, query, signals);
    let n = entries.len() as int;
    let most = MAX_RESULTS as int;
    let r = ranked(entries, query, signals);
    hits_are_entries(entries, query, signals);
    assert forall|a: int| #![trigger r[a]] 0 <= a < r.len() implies 0 <= r[a] < entries.len()
        && match_score(entries[r[a]], query, signals[r[a]]) is Some by {
        let h = listed_hit(all, most, a);
        hit_is_match(entries, query, signals, h);
    }
    assert forall|a: int, b: int| #![trigger r[a], r[b]] 0 <= a < b < r.len() implies ({
        let p = match_score(entries[r[a]], query, signals[r[a]])->0;
        let q = match_score(entries[r[b]], query, signals[r[b]])->0;
        p > q || (p == q && r[a] < r[b])
    }) by {
        let g = listed_hit(all, most, a);
        best_of_leaves_out_the_worst(all, most, n, g);
        let (g, h) = choose|g: int, h: int|
            #![trigger all[g], all[h]]
            0 <= g < all.len() && 0 <= h < all.len() && all[g].0 == r[a] && all[h].0 == r[b]
                && outranks(all, g, h);
        hit_is_match(entries, query, signals, g);
        hit_is_match(entries, query, signals, h);
        if g < h {
            assert(all[g].0 < all[h].0);
        }
    }
    assert forall|j: int|
        #![trigger entries[j]]
        0 <= j < entries.len() && match_score(entries[j], query, signals[j]) is Some
            && !r.contains(j) implies r.len() == MAX_RESULTS && forall|a: int|
        #![trigger r[a]]
        0 <= a < MAX_RESULTS ==> match_score(entries[r[a]], query, signals[r[a]])->0
            >= match_score(entries[j], query, signals[j])->0 by {
        let h = match_is_hit(entries, query, signals, j);
        best_of_leaves_out_the_worst(all, most, n, h);
        assert forall|a: int| #![trigger r[a]] 0 <= a < MAX_RESULTS implies match_score(
            entries[r[a]],
            query,
            signals[r[a]],
        )->0 >= match_score(entries[j], query, signals[j])->0 by {
            let g = listed_hit(all, most, a);
            assert(r.contains(all[g].0));
            assert(outranks(all, g, h));
            hit_is_match(entries, query, signals, g);
        }
    }
}

/// Without a query the first entries are listed, all of them if they are not
/// too many, those used more before those used less and others as they come.
pub proof fn most_used_come_first(scores: Seq<Double>)
    ensures
        by_use(scores).len() == (if scores.len() < 50 {
            scores.len() as int
        } else {
            50
        }),
        by_use(scores).no_duplicates(),
        forall|i: int|
            0 <= i < scores.len() && i < MAX_RESULTS ==> #[trigger] by_use(scores).contains(i),
        forall|a: int, b: int|
            #![trigger by_use(scores)[a], by_use(scores)[b]]
            0 <= a < b < by_use(scores).len() ==> {
                let (i, j) = (by_use(scores)[a], by_use(scores)[b]);
                scores[i].place() > scores[j].place() || (scores[i].place() == scores[j].place()
                    && i < j)
            },
{
    let first = if scores.len() > MAX_RESULTS {
        scores.take(MAX_RESULTS as int)
    } else {
        scores
    };
    let keys = first.map_values(|s: Double| -s.place());
    numbers_are_ranked(keys);
    let r = by_use(scores);
    assert forall|a: int, b: int| #![trigger r[a], r[b]] 0 <= a < b < r.len() implies ({
        let (i, j) = (r[a], r[b]);
        scores[i].place() > scores[j].place() || (scores[i].place() == scores[j].place() && i < j)
    }) by {
        assert(0 <= r[a] < keys.len() && 0 <= r[b] < keys.len());
        assert(keys[r[a]] == -scores[r[a]].place() && keys[r[b]] == -scores[r[b]].place());
    }
}

/// A query is completed by the rest of a name that begins with it, whatever the
/// case; by nothing else.
pub proof fn completion_is_the_rest(query: Seq<char>, name: Seq<char>)
    ensures
        query.len() > 0 && lowercase(query).is_prefix_of(lowercase(name)) && query.len()
            <= name.len() ==> name == name.take(query.len() as int) + ghost_text(query, name),
        ghost_text(query, name).len() > 0 ==> query.len() > 0 && lowercase(query).is_prefix_of(
            lowercase(name),
        ),
{
    if query.len() <= name.len() {
        assert(name =~= name.take(query.len() as int) + name.skip(query.len() as int));
        if query.len() == name.len() {
            assert(name =~= name.take(query.len() as int) + Seq::<char>::empty());
        }
    }
}

/// A window is listed, with its title, class, address and workspace, unless it
/// has no class or is the launcher's own, or it is one that the kind of list
/// leaves out: on a special workspace for all but the toggled one, pinned for
/// the overlay.
pub proof fn windows_are_listed(
    all: Seq<ClientView>,
    icons: Map<Seq<char>, Seq<char>>,
    classes: Map<Seq<char>, Seq<char>>,
    listing: Listing,
    k: int,
)
    requires
        0 <= k < all.len(),
        all[k].class.len() > 0,
        all[k].class != "launcher"@,
        listing != Listing::Toggled ==> !"special:"@.is_prefix_of(all[k].workspace.name),
        listing == Listing::Overlay ==> !all[k].pinned,
        listing == Listing::Windowed ==> all[k].class != "launcher-layer"@,
    ensures
        exists|i: int|
            0 <= i < window_entries(all, icons, classes, listing).len() && (
            #[trigger] window_entries(all, icons, classes, listing)[i] matches EntryView::Window {
                title,
                class,
                address,
                workspace,
                icon,
            } && title == all[k].title && class == all[k].class && address == all[k].address
                && workspace == label(all[k].workspace) && icon == (if classes.contains_key(
                lowercase(class),
            ) {
                Some(classes[lowercase(class)])
            } else if icons.contains_key(lowercase(class)) {
                Some(icons[lowercase(class)])
            } else {
                None
            })),
{
    let keep = |c: ClientView| listing.lists(c);
    let kept = all.filter(keep);
    all.lemma_filter_contains(keep, k);
    let i = choose|i: int| 0 <= i < kept.len() && kept[i] == all[k];
    assert(window_entries(all, icons, classes, listing)[i] is Window);
}

/// Every listed window is one that is open: it has a class, is not the
/// launcher's own, and is not one that the kind of list leaves out.
pub proof fn listed_windows_are_open(
    all: Seq<ClientView>,
    icons: Map<Seq<char>, Seq<char>>,
    classes: Map<Seq<char>, Seq<char>>,
    listing: Listing,
    i: int,
)
    requires
        0 <= i < window_entries(all, icons, classes, listing).len(),
    ensures
        exists|k: int|
            0 <= k < all.len() && (#[trigger] all[k]).class.len() > 0 && all[k].class
                != "launcher"@ && (listing != Listing::Toggled ==> !"special:"@.is_prefix_of(
                all[k].workspace.name,
            )) && (listing == Listing::Overlay ==> !all[k].pinned) && (listing == Listing::Windowed
                ==> all[k].class != "launcher-layer"@) && (window_entries(
                all,
                icons,
                classes,
                listing,
            )[i] matches EntryView::Window { title, class, address, .. } && title == all[k].title
                && class == all[k].class && address == all[k].address),
{
    let keep = |c: ClientView| listing.lists(c);
    let kept = all.filter(keep);
    all.lemma_filter_pred(keep, i);
    assert(kept.contains(kept[i]));
    all.lemma_filter_contains_rev(keep, kept[i]);
    let k = choose|k: int| 0 <= k < all.len() && all[k] == kept[i];
    assert(all[k].class.len() > 0);
}

/// An application is listed under its name with its command and terminal flag,
/// and is sought by its keywords and its generic name.
pub proof fn applications_are_listed(
    de: DesktopEntryView,
    icons: Map<Seq<char>, Seq<char>>,
    exists: bool,
)
    ensures
        app_entry(de, icons, exists) matches EntryView::Desktop {
            name,
            command,
            terminal,
            keywords,
            ..
        } && name == de.name && command == de.command && terminal == de.terminal,
        match de.icon {
            Some(IconView::Path(p)) => app_entry(de, icons, exists)->Desktop_icon == (if exists {
                Some(p)
            } else {
                None
            }),
            Some(IconView::Name(n)) => app_entry(de, icons, exists)->Desktop_icon == (
            if icons.contains_key(lowercase(n)) {
                Some(icons[lowercase(n)])
            } else {
                None
            }),
            None => app_entry(de, icons, exists)->Desktop_icon is None,
        },
        forall|k: Seq<char>| #[trigger]
            app_entry(de, icons, exists).secondary().contains(k) <==> de.keywords.contains(k)
                || de.generic_name == Some(k),
{
    let all = app_entry(de, icons, exists).secondary();
    assert forall|k: Seq<char>| #[trigger] all.contains(k) <==> de.keywords.contains(k)
        || de.generic_name == Some(k) by {
        if de.keywords.contains(k) {
            let i = choose|i: int| 0 <= i < de.keywords.len() && de.keywords[i] == k;
            assert(all[i] == k);
        }
        if de.generic_name == Some(k) {
            assert(all.last() == k);
        }
        if all.contains(k) {
            let i = choose|i: int| 0 <= i < all.len() && all[i] == k;
            if i < de.keywords.len() {
                assert(de.keywords[i] == k);
            }
        }
    }
}

/// An entry is found by what is similar to its fields: where the one word that
/// is typed scores on no field of a kind, but is similar to one of them by 850
/// thousandths or more, the similarity counts in place of a score, three tenths
/// of it for a keyword. The entry is among the hits where these points are
/// enough for the length of the query.
pub proof fn similar_fields_are_found(
    entries: Seq<EntryView>,
    query: Seq<char>,
    signals: Seq<Signals>,
    i: int,
    k: int,
)
    requires
        0 <= i < entries.len(),
        words(query, Separator::Whitespace).len() == 1,
        signals[i].valid(entries[i]),
    ensures
        0 <= k < signals[i].primary@.len() && signals[i].primary@[k] >= 850 && byte_len(query) * 20
            <= signals[i].primary@[k] && (forall|f: int|
            0 <= f < entries[i].primary().len() ==> !(score_of(
                words(query, Separator::Whitespace)[0],
                #[trigger] entries[i].primary()[f],
            ) matches Some(s) && s > 0)) ==> exists|h: int|
            0 <= h < hits(entries, query, signals).len() && (#[trigger] hits(
                entries,
                query,
                signals,
            )[h]).0 == i && hits(entries, query, signals)[h].1 >= signals[i].primary@[k],
        0 <= k < signals[i].secondary@.len() && signals[i].secondary@[k] >= 850 && byte_len(query)
            * 20 <= signals[i].secondary@[k] * 3 / 10 && (forall|f: int|
            0 <= f < entries[i].secondary().len() ==> !(score_of(
                words(query, Separator::Whitespace)[0],
                #[trigger] entries[i].secondary()[f],
            ) matches Some(s) && s > 0)) ==> exists|h: int|
            0 <= h < hits(entries, query, signals).len() && (#[trigger] hits(
                entries,
                query,
                signals,
            )[h]).0 == i && hits(entries, query, signals)[h].1 >= signals[i].secondary@[k] * 3 / 10,
{
    let e = entries[i];
    let word = words(query, Separator::Whitespace)[0];
    let (p, q) = (signals[i].primary@, signals[i].secondary@);
    best_score_is_best(e.primary(), word);
    best_score_is_best(e.secondary(), word);
    best_similarity_is_best(p);
    best_similarity_is_best(q);
    let base = base_score(e, word, p, q);
    if 0 <= k < p.len() && p[k] >= 850 && best_score(e.primary(), word) == 0 {
        assert(base >= p[k]);
    }
    if 0 <= k < q.len() && q[k] >= 850 && best_score(e.secondary(), word) == 0 {
        assert(base >= q[k] * 3 / 10);
    }
    if match_score(e, query, signals[i]) is Some {
        let h = match_is_hit(entries, query, signals, i);
        assert(hits(entries, query, signals)[h].0 == i);
    }
}

/// The case of a query does not count.
pub proof fn case_does_not_count(
    entries: Seq<EntryView>,
    query: Seq<char>,
    other: Seq<char>,
    signals: Seq<Signals>,
    scores: Seq<Double>,
)
    requires
        query.len() > 0,
        other.len() > 0,
        lowercase(query) == lowercase(other),
    ensures
        results(entries, query, signals, scores) == results(entries, other, signals, scores),
{
}

/// New results have the first one selected, and the query is completed by its
/// name; without results by nothing.
pub proof fn first_result_completes(v: LauncherView, filtered: Seq<int>)
    ensures
        v.with_results(filtered).filtered == filtered,
        v.with_results(filtered).selected == 0,
        v.with_results(filtered).query == v.query,
        v.with_results(filtered).entries == v.entries,
        filtered.len() > 0 ==> v.with_results(filtered).completion == ghost_text(
            v.query,
            v.entries[filtered[0]].name(),
        ) && v.with_results(filtered).selection() == Some(v.entries[filtered[0]]),
        filtered.len() == 0 ==> v.with_results(filtered).completion.len() == 0 && v.with_results(
            filtered,
        ).selection() is None,
{
}

/// A window shows its title on a line of its own where it says something else
/// than its class.
pub proof fn titles_are_shown(e: EntryView)
    ensures
        e matches EntryView::Window { title, class, .. } ==> {
            &&& title.len() > 0 && title != class ==> e.subtitle() == Some(title)
            &&& title.len() == 0 || title == class ==> e.subtitle() is None
            &&& e.name() == class
        },
        e matches EntryView::Desktop { name, .. } ==> e.subtitle() is None && e.name() == name,
{
}

/// The list of windows changes when one is opened, closed or moved, whatever
/// the event says of it.
pub proof fn windows_come_and_go(rest: Seq<char>)
    ensures
        changes_windows("openwindow>>"@ + rest),
        changes_windows("closewindow>>"@ + rest),
        changes_windows("movewindow>>"@ + rest),
        !changes_windows("activewindow>>"@ + rest),
{
    reveal_strlit("openwindow>>");
    reveal_strlit("closewindow>>");
    reveal_strlit("movewindow>>");
    reveal_strlit("activewindow>>");
    let (a, b, c, d) = ("openwindow>>"@, "closewindow>>"@, "movewindow>>"@, "activewindow>>"@);
    assert(a =~= (a + rest).subrange(0, a.len() as int));
    assert(b =~= (b + rest).subrange(0, b.len() as int));
    assert(c =~= (c + rest).subrange(0, c.len() as int));
    let s = d + rest;
    assert(s[0] == 'a');
    assert(a[0] == 'o' && b[0] == 'c' && c[0] == 'm');
    assert(a.is_prefix_of(s) ==> s.subrange(0, a.len() as int)[0] == s[0]);
    assert(b.is_prefix_of(s) ==> s.subrange(0, b.len() as int)[0] == s[0]);
    assert(c.is_prefix_of(s) ==> s.subrange(0, c.len() as int)[0] == s[0]);
}

/// A focus event names a window by its class, up to the first comma.
pub proof fn focus_names_the_class(class: Seq<char>, title: Seq<char>)
    requires
        !class.contains(','),
    ensures
        focused_class("activewindow>>"@ + class.push(',') + title) == class,
{
    let head = "activewindow>>"@;
    let sep = Separator::Char(',');
    assert((head + class.push(',') + title).skip(head.len() as int) =~= class.push(',') + title);
    assert forall|i: int| 0 <= i < class.len() implies !sep.cuts(#[trigger] class[i]) by {
        assert(class.contains(class[i]));
    }
    whole_is_one_piece(class, sep);
    separator_cuts(class, ',', title, sep);
    assert((seq![class] + split(title, sep))[0] == class);
}

/// A window that got the focus is reported when the focus moves on, under its
/// class and with the time at which it got it; other events end nothing.
pub proof fn focus_time_is_measured(
    f: FocusView,
    class: Seq<char>,
    title: Seq<char>,
    rest: Seq<char>,
    line: Seq<char>,
    then: Double,
)
    requires
        class.len() > 0,
        class != "launcher"@,
        !class.contains(','),
    ensures
        ({
            let g = f.followed("activewindow>>"@ + class.push(',') + title, then);
            &&& g == (FocusView { active: Some(class), focused_at: then })
            &&& g.ended("activewindow>>"@ + rest) == Some((class, then))
            &&& !"activewindow>>"@.is_prefix_of(line) ==> g.ended(line) is None && g.followed(
                line,
                then,
            ) == g
        }),
{
    let head = "activewindow>>"@;
    let first = head + class.push(',') + title;
    let tail = class.push(',') + title;
    focus_names_the_class(class, title);
    windows_come_and_go(tail);
    windows_come_and_go(rest);
    assert(first =~= head + tail);
    assert(head =~= first.subrange(0, head.len() as int));
    assert(head =~= (head + rest).subrange(0, head.len() as int));
}

/// The launcher itself and the desktop have no time of their own: while one of
/// them has the focus, nothing is measured.
pub proof fn launcher_is_not_measured(f: FocusView, title: Seq<char>, now: Double)
    ensures
        f.followed("activewindow>>launcher,"@ + title, now).active is None,
        f.followed("activewindow>>,"@ + title, now).active is None,
{
    reveal_strlit("activewindow>>launcher,");
    reveal_strlit("activewindow>>,");
    reveal_strlit("activewindow>>");
    reveal_strlit("launcher");
    let head = "activewindow>>"@;
    let own = "launcher"@;
    let none = Seq::<char>::empty();
    let (a, b) = ("activewindow>>launcher,"@, "activewindow>>,"@);
    assert(a + title =~= head + own.push(',') + title);
    assert(b + title =~= head + none.push(',') + title);
    assert(!own.contains(','));
    focus_names_the_class(own, title);
    focus_names_the_class(none, title);
    assert(head + own.push(',') + title =~= head + (own.push(',') + title));
    assert(head + none.push(',') + title =~= head + (none.push(',') + title));
    windows_come_and_go(own.push(',') + title);
    windows_come_and_go(none.push(',') + title);
    assert(head =~= (a + title).subrange(0, head.len() as int));
    assert(head =~= (b + title).subrange(0, head.len() as int));
}

/// Tab takes over the completion. Without one it goes to the next result, from
/// the last to the first, and takes over its name.
pub proof fn tab_completes_or_goes_on(v: LauncherView)
    requires
        v.valid(),
        0 <= v.selected,
    ensures
        v.completion.len() > 0 ==> v.accepted() == (LauncherView {
            query: v.query + v.completion,
            ..v
        }),
        v.completion.len() == 0 && v.selected + 1 < v.filtered.len() ==> v.accepted().selected
            == v.selected + 1 && v.accepted().query == v.entries[v.filtered[v.selected
            + 1]].name(),
        v.completion.len() == 0 && v.filtered.len() > 1 && v.selected + 1 == v.filtered.len()
            ==> v.accepted().selected == 0 && v.accepted().query
            == v.entries[v.filtered[0]].name(),
        v.completion.len() == 0 && v.filtered.len() <= 1 ==> v.accepted() == v,
        v.accepted().entries == v.entries && v.accepted().filtered == v.filtered,
{
    let n = v.filtered.len() as int;
    if v.selected + 1 < n {
        vstd::arithmetic::div_mod::lemma_small_mod((v.selected + 1) as nat, n as nat);
    } else if v.selected + 1 == n {
        vstd::arithmetic::div_mod::lemma_mod_self_0(n);
    }
}

/// Collecting the entries again keeps the selection where it is as long as the
/// list reaches there, and inside the list.
pub proof fn reload_keeps_the_selection(
    v: LauncherView,
    entries: Seq<EntryView>,
    filtered: Seq<int>,
)
    requires
        0 <= v.selected,
    ensures
        v.selected < filtered.len() ==> v.loaded_with(entries, filtered).selected == v.selected,
        filtered.len() > 0 ==> 0 <= v.loaded_with(entries, filtered).selected < filtered.len(),
        v.loaded_with(entries, filtered).filtered == filtered,
        v.loaded_with(entries, filtered).query == v.query,
        v.loaded_with(entries, filtered).loaded,
        filtered.len() > 0 ==> v.loaded_with(entries, filtered).completion == ghost_text(
            v.query,
            entries[filtered[0]].name(),
        ),
{
}

/// Opening an application runs the words of its command that are no field
/// codes; one that needs a terminal is run behind `-e` by the first word of the
/// terminal's command line, or by `kitty` without one. Opening a window asks for
/// the focus by its address.
pub proof fn opening_runs_or_focuses(e: EntryView, term: Seq<char>)
    ensures
        e matches EntryView::Desktop { command, terminal, .. } ==> {
            let w = command_words(command);
            &&& !terminal || w.len() == 0 ==> opened(e, Some(term)) == OpeningView::Run(w)
                && opened(e, None) == OpeningView::Run(w)
            &&& terminal && w.len() > 0 ==> opened(e, None) == OpeningView::Run(
                seq!["kitty"@, "-e"@] + w,
            )
            &&& terminal && w.len() > 0 && words(term, Separator::Whitespace).len() > 0 ==> opened(
                e,
                Some(term),
            ) == OpeningView::Run(seq![words(term, Separator::Whitespace)[0], "-e"@] + w)
        },
        e matches EntryView::Window { address, .. } ==> opened(e, Some(term))
            == OpeningView::Dispatch(
            "hl.dsp.focus({ window = \"address:"@ + address + "\" })"@,
        ) && opened(e, None) == opened(e, Some(term)),
{
    if e is Desktop {
        let command = e->command;
        terminal_runs_the_command(command, term, false);
        let w = command_words(command);
        if w.len() == 0 {
            assert(run_words(command, true, Some(term), false) =~= w);
            assert(run_words(command, true, None, false) =~= w);
        }
    }
}

} // verus!

//! The clipboard window over the history of `cliphist`: its list, the pictures
//! in it, what is copied and deleted.

use crate::common::{truncate, truncated};
use crate::desktop::slice_text;
use crate::keyfile::text_of;
use crate::keys::{any_pressed, move_selection, moved, was_pressed, Key, KeyEvent};
use crate::order::{all_below, ints};
use crate::path::{file_name, file_name_of, join, joined};
use crate::search::{find_rows, texts_of, Searchable};
use crate::text::{
    chars_of, concat, contains, decimal, decimal_string, from_utf8_lossy, lines, lines_of, lossy,
    lowercase, number_in, parse_number, position, position_is_first, position_of, same, string_of,
    to_lowercase, trim, trim_chars, views,
};
use regex::Regex;
use vstd::hash_set::StringHashSet;
use vstd::prelude::*;
use vstd::slice::slice_subrange;

verus! {

/// How the history lists a picture: its size, its format, its dimensions.
pub const PICTURE_PATTERN: &'static str =
    r"\[\[\s*binary data\s+[\d.]+\s*\w+\s+(\w+)\s+(\d+)x(\d+)\s*\]\]";

/// How many lines have their pictures loaded with the list.
pub const MAX_PRELOADED: usize = 20;

/// How many characters of a text a row shows.
pub const ROW_CHARS: usize = 45;

/// The groups of the first match of a pattern in a text, the whole match first,
/// as `regex` gives them.
pub uninterp spec fn captured(pattern: Seq<char>, text: Seq<char>) -> Option<
    Seq<Option<Seq<char>>>,
>;

/// What captured groups hold.
pub open spec fn group_views(v: Seq<Option<String>>) -> Seq<Option<Seq<char>>> {
    v.map_values(|g: Option<String>| text_of(g))
}

/// What optional captured groups hold.
pub open spec fn groups_view(o: Option<Vec<Option<String>>>) -> Option<Seq<Option<Seq<char>>>> {
    match o {
        Some(v) => Some(group_views(v@)),
        None => None,
    }
}

/// Calls `regex::Regex::captures` on a pattern from `Regex::new` and lists the
/// texts of the groups. The result depends on the pattern and the text alone
/// and is named `captured`. There is none where the pattern is not found, nor
/// for a pattern that `Regex::new` refuses.
#[verifier::external_body]
fn capture(pattern: &str, text: &str) -> (r: Option<Vec<Option<String>>>)
    ensures
        groups_view(r) == captured(pattern@, text@),
{
    let groups = Regex::new(pattern).ok()?.captures(text)?;
    Some(groups.iter().map(|g| g.map(|m| m.as_str().to_owned())).collect())
}

/// An entry of the history.
pub struct Entry {
    /// The line that lists it, by which the history finds it again.
    pub id: String,
    pub text: String,
    pub is_image: bool,
    pub dims: Option<(u32, u32)>,
    /// The format of a picture, in lower case.
    pub format: String,
    /// The number of the line.
    pub line: usize,
}

/// What an entry of the history is.
#[verifier::ext_equal]
pub struct EntryView {
    pub id: Seq<char>,
    pub text: Seq<char>,
    pub is_image: bool,
    pub dims: Option<(u32, u32)>,
    pub format: Seq<char>,
    pub line: int,
}

impl View for Entry {
    type V = EntryView;

    open spec fn view(&self) -> EntryView {
        EntryView {
            id: self.id@,
            text: self.text@,
            is_image: self.is_image,
            dims: self.dims,
            format: self.format@,
            line: self.line as int,
        }
    }
}

/// What a list of entries is.
pub open spec fn entry_views(v: Seq<Entry>) -> Seq<EntryView> {
    v.map_values(|e: Entry| e@)
}

impl EntryView {
    /// The text by which an entry is found; a picture has none.
    pub open spec fn searched(self) -> Option<Seq<char>> {
        if self.is_image {
            None
        } else {
            Some(self.text)
        }
    }
}

impl Searchable for Entry {
    open spec fn searched(self) -> Option<Seq<char>> {
        self@.searched()
    }

    fn search_text(&self) -> (r: Option<&str>) {
        if self.is_image {
            None
        } else {
            Some(self.text.as_str())
        }
    }
}

/// A captured group, if it is there.
pub open spec fn group(groups: Seq<Option<Seq<char>>>, i: int) -> Option<Seq<char>> {
    if i < groups.len() {
        groups[i]
    } else {
        None
    }
}

fn group_of(groups: &Vec<Option<String>>, i: usize) -> (r: Option<&str>)
    ensures
        slice_text(r) == group(group_views(groups@), i as int),
{
    let ghost gv = group_views(groups@);
    assert(gv.len() == groups@.len());
    if i < groups.len() {
        assert(gv[i as int] == text_of(groups@[i as int]));
        match &groups[i] {
            Some(s) => Some(s.as_str()),
            None => None,
        }
    } else {
        None
    }
}

/// A captured group read as a number.
pub open spec fn number_at(groups: Seq<Option<Seq<char>>>, i: int) -> Option<u32> {
    match group(groups, i) {
        Some(s) => number_in(s),
        None => None,
    }
}

fn number_of(groups: &Vec<Option<String>>, i: usize) -> (r: Option<u32>)
    ensures
        r == number_at(group_views(groups@), i as int),
{
    match group_of(groups, i) {
        Some(s) => parse_number(s),
        None => None,
    }
}

/// The text of a line: what stands after the first tab, or all of it.
pub open spec fn text_in(line: Seq<char>) -> Seq<char> {
    let at = position(line, '\t');
    if at < line.len() {
        line.skip(at + 1)
    } else {
        line
    }
}

/// The entry of a line, given what the pattern of pictures found in it.
pub open spec fn entry_for(
    line: Seq<char>,
    groups: Option<Seq<Option<Seq<char>>>>,
    at: int,
) -> EntryView {
    match groups {
        Some(g) => EntryView {
            id: line,
            text: "[image]"@,
            is_image: true,
            dims: match (number_at(g, 2), number_at(g, 3)) {
                (Some(w), Some(h)) => Some((w, h)),
                _ => None,
            },
            format: match group(g, 1) {
                Some(f) => lowercase(f),
                None => "png"@,
            },
            line: at,
        },
        None => EntryView {
            id: line,
            text: text_in(line),
            is_image: false,
            dims: None,
            format: Seq::empty(),
            line: at,
        },
    }
}

/// Makes the entry of a line, given what the pattern of pictures found in it.
pub fn make_entry(line: &str, groups: &Option<Vec<Option<String>>>, at: usize) -> (r: Entry)
    ensures
        r@ == entry_for(line@, groups_view(*groups), at as int),
{
    match groups {
        Some(g) => {
            let dims = match (number_of(g, 2), number_of(g, 3)) {
                (Some(w), Some(h)) => Some((w, h)),
                _ => None,
            };
            let format = match group_of(g, 1) {
                Some(f) => to_lowercase(f),
                None => "png".to_owned(),
            };
            Entry {
                id: line.to_owned(),
                text: "[image]".to_owned(),
                is_image: true,
                dims,
                format,
                line: at,
            }
        },
        None => {
            let c = chars_of(line);
            let tab: usize = position_of(c.as_slice(), '\t');
            let text = if tab < c.len() {
                let rest = slice_subrange(c.as_slice(), tab + 1, c.len());
                assert(rest@ == line@.skip(tab + 1));
                string_of(rest)
            } else {
                line.to_owned()
            };
            let r = Entry {
                id: line.to_owned(),
                text,
                is_image: false,
                dims: None,
                format: String::new(),
                line: at,
            };
            assert(r@ =~= entry_for(line@, None, at as int));
            r
        },
    }
}

/// The entry that a line lists; white space around it does not count.
pub open spec fn listed(line: Seq<char>, at: int) -> EntryView {
    entry_for(trim(line), captured(PICTURE_PATTERN@, trim(line)), at)
}

/// What tells entries apart: the line of a picture, the text of anything else.
pub open spec fn key(e: EntryView) -> Seq<char> {
    if e.is_image {
        e.id
    } else {
        e.text
    }
}

/// Whether some line that is not blank lists an entry of a key.
pub open spec fn known(all: Seq<Seq<char>>, k: Seq<char>) -> bool {
    exists|j: int|
        0 <= j < all.len() && trim(#[trigger] all[j]).len() > 0 && key(listed(all[j], j)) == k
}

/// The entries that lines list, each only where it comes first.
pub open spec fn entries_on(all: Seq<Seq<char>>) -> Seq<EntryView>
    decreases all.len(),
{
    if all.len() == 0 {
        Seq::empty()
    } else {
        let before = entries_on(all.drop_last());
        let e = listed(all.last(), all.len() - 1);
        if trim(all.last()).len() == 0 || known(all.drop_last(), key(e)) {
            before
        } else {
            before.push(e)
        }
    }
}

/// Reads the listing of the history, which is taken for UTF-8.
pub fn collect(listing: &[u8]) -> (r: Vec<Entry>)
    ensures
        entry_views(r@) == entries_on(lines(lossy(listing@))),
{
    let text = from_utf8_lossy(listing);
    let all = lines_of(text.as_str());
    let ghost av = lines(text@);
    let mut seen = StringHashSet::new();
    let mut r: Vec<Entry> = Vec::new();
    let mut i: usize = 0;
    assert(entry_views(r@) == entries_on(av.take(0)));
    while i < all.len()
        invariant
            i <= all@.len(),
            av == views(all@),
            forall|k: Seq<char>| #[trigger] seen@.contains(k) <==> known(av.take(i as int), k),
            entry_views(r@) == entries_on(av.take(i as int)),
        decreases all.len() - i,
    {
        let ghost part = av.take(i + 1);
        let ghost head = r@;
        let ghost seen_before = seen@;
        proof {
            assert(part.drop_last() == av.take(i as int));
            assert(part.last() == all@[i as int]@);
        }
        let c = chars_of(all[i].as_str());
        let trimmed = trim_chars(c.as_slice());
        if trimmed.len() > 0 {
            let line = string_of(trimmed);
            let groups = capture(PICTURE_PATTERN, line.as_str());
            let e = make_entry(line.as_str(), &groups, i);
            let k = if e.is_image {
                e.id.clone()
            } else {
                e.text.clone()
            };
            let ghost kv = k@;
            assert(e@ == listed(part.last(), i as int));
            assert(kv == key(e@));
            if !seen.contains(k.as_str()) {
                r.push(e);
                assert(entry_views(r@) == entry_views(head).push(e@));
            }
            seen.insert(k);
            assert forall|n: Seq<char>| #[trigger] seen@.contains(n) <==> known(part, n) by {
                known_grows(av, i as int, n);
                assert(seen@ == seen_before.insert(kv));
            }
        } else {
            assert forall|n: Seq<char>| #[trigger] seen@.contains(n) <==> known(part, n) by {
                known_grows(av, i as int, n);
            }
        }
        i = i + 1;
    }
    assert(av.take(av.len() as int) == av);
    r
}

proof fn known_grows(all: Seq<Seq<char>>, i: int, k: Seq<char>)
    requires
        0 <= i < all.len(),
    ensures
        known(all.take(i + 1), k) <==> known(all.take(i), k) || (trim(all[i]).len() > 0 && key(
            listed(all[i], i),
        ) == k),
{
    let a = all.take(i);
    let b = all.take(i + 1);
    if known(a, k) {
        let j = choose|j: int|
            0 <= j < a.len() && trim(#[trigger] a[j]).len() > 0 && key(listed(a[j], j)) == k;
        assert(b[j] == a[j]);
    }
    if trim(all[i]).len() > 0 && key(listed(all[i], i)) == k {
        assert(b[i] == all[i]);
    }
    if known(b, k) {
        let j = choose|j: int|
            0 <= j < b.len() && trim(#[trigger] b[j]).len() > 0 && key(listed(b[j], j)) == k;
        if j < i {
            assert(a[j] == b[j]);
        } else {
            assert(b[j] == all[i]);
        }
    }
}

/// No two entries of a listing have the same key.
pub proof fn entries_are_distinct(all: Seq<Seq<char>>)
    ensures
        forall|i: int, j: int|
            0 <= i < j < entries_on(all).len() ==> key(#[trigger] entries_on(all)[i]) != key(
                #[trigger] entries_on(all)[j],
            ),
    decreases all.len(),
{
    if all.len() > 0 {
        let before = entries_on(all.drop_last());
        let now = entries_on(all);
        entries_are_distinct(all.drop_last());
        entries_are_known(all.drop_last());
        assert forall|i: int, j: int| 0 <= i < j < now.len() implies key(#[trigger] now[i]) != key(
            #[trigger] now[j],
        ) by {
            if j < before.len() {
                assert(before[i] == now[i] && before[j] == now[j]);
            } else {
                assert(before[i] == now[i]);
                assert(known(all.drop_last(), key(before[i])));
            }
        }
    }
}

proof fn entries_are_known(all: Seq<Seq<char>>)
    ensures
        forall|i: int|
            0 <= i < entries_on(all).len() ==> known(all, key(#[trigger] entries_on(all)[i])),
    decreases all.len(),
{
    if all.len() > 0 {
        let before = entries_on(all.drop_last());
        let now = entries_on(all);
        entries_are_known(all.drop_last());
        let last = all.len() - 1;
        assert(all.take(last) == all.drop_last());
        assert(all.take(last + 1) == all);
        assert forall|i: int| 0 <= i < now.len() implies known(all, key(#[trigger] now[i])) by {
            known_grows(all, last, key(now[i]));
            if i < before.len() {
                assert(before[i] == now[i]);
            }
        }
    }
}

/// Whether the picture of an entry is loaded with the list: if it is one and
/// stands near the top of the listing.
pub fn preloads(e: &Entry) -> (r: bool)
    ensures
        r == (e@.is_image && e@.line < MAX_PRELOADED),
{
    e.is_image && e.line < MAX_PRELOADED
}

/// The window while it runs.
pub struct ClipWindow {
    pub query: String,
    pub entries: Vec<Entry>,
    pub filtered: Vec<usize>,
    pub selected: usize,
    pub should_hide: bool,
    pub loaded: bool,
}

/// What the window shows.
#[verifier::ext_equal]
pub struct ClipWindowView {
    pub query: Seq<char>,
    pub entries: Seq<EntryView>,
    pub filtered: Seq<int>,
    pub selected: int,
    pub should_hide: bool,
    pub loaded: bool,
}

impl View for ClipWindow {
    type V = ClipWindowView;

    open spec fn view(&self) -> ClipWindowView {
        ClipWindowView {
            query: self.query@,
            entries: entry_views(self.entries@),
            filtered: ints(self.filtered@),
            selected: self.selected as int,
            should_hide: self.should_hide,
            loaded: self.loaded,
        }
    }
}

/// What the keys of a frame ask of the window.
#[derive(Clone, Copy, PartialEq, Eq, Structural)]
pub struct Request {
    pub activate: bool,
    pub delete: bool,
}

/// The positions of the entries that are listed for a query.
pub open spec fn rows_for(entries: Seq<EntryView>, query: Seq<char>) -> Seq<int> {
    crate::search::rows_for(entries.map_values(|e: EntryView| e.searched()), query)
}

impl ClipWindowView {
    /// Rows are positions of entries.
    pub open spec fn valid(self) -> bool {
        all_below(self.filtered, self.entries.len() as int)
    }

    /// The entry of the selected row.
    pub open spec fn selection(self) -> Option<EntryView> {
        if self.selected < self.filtered.len() {
            Some(self.entries[self.filtered[self.selected]])
        } else {
            None
        }
    }

    /// The window with the rows for its query, the first one selected.
    pub open spec fn refiltered(self) -> ClipWindowView {
        ClipWindowView { filtered: rows_for(self.entries, self.query), selected: 0, ..self }
    }

    /// The window over other entries, with the selection as far down as it was
    /// if the list reaches there.
    pub open spec fn reloaded(self, entries: Seq<EntryView>) -> ClipWindowView {
        let filtered = rows_for(entries, self.query);
        let last = if filtered.len() > 0 {
            filtered.len() - 1
        } else {
            0
        };
        ClipWindowView {
            entries,
            filtered,
            selected: if self.selected < last {
                self.selected
            } else {
                last
            },
            loaded: true,
            ..self
        }
    }
}

impl ClipWindow {
    /// A window that has nothing to show yet.
    pub fn new() -> (r: ClipWindow)
        ensures
            r@.valid(),
            r@ == (ClipWindowView {
                query: Seq::empty(),
                entries: Seq::empty(),
                filtered: Seq::empty(),
                selected: 0,
                should_hide: false,
                loaded: false,
            }),
    {
        let r = ClipWindow {
            query: String::new(),
            entries: Vec::new(),
            filtered: Vec::new(),
            selected: 0,
            should_hide: false,
            loaded: false,
        };
        assert(r@ =~= (ClipWindowView {
            query: Seq::empty(),
            entries: Seq::empty(),
            filtered: Seq::empty(),
            selected: 0,
            should_hide: false,
            loaded: false,
        }));
        r
    }

    /// Lists the rows for the query and selects the first one.
    pub fn filter(&mut self)
        ensures
            final(self)@.valid(),
            final(self)@ == old(self)@.refiltered(),
    {
        let ghost before = self@;
        assert(texts_of(self.entries@) == before.entries.map_values(|e: EntryView| e.searched()));
        self.filtered = find_rows(&self.entries, self.query.as_str());
        self.selected = 0;
        assert(self@ =~= before.refiltered());
    }

    /// Takes over the entries of a listing; those of an empty one if the history
    /// could not be listed.
    pub fn load_entries(&mut self, listing: &[u8])
        ensures
            final(self)@.valid(),
            final(self)@ == old(self)@.reloaded(entries_on(lines(lossy(listing@)))),
    {
        let ghost before = self@;
        let old_selected: usize = self.selected;
        self.entries = collect(listing);
        self.filter();
        let m: usize = self.filtered.len();
        assert(self@.filtered.len() == m);
        let last: usize = if m > 0 {
            m - 1
        } else {
            0
        };
        self.selected = if old_selected < last {
            old_selected
        } else {
            last
        };
        self.loaded = true;
        assert(self@ =~= before.reloaded(self@.entries));
    }

    /// The position of the selected entry.
    pub fn selected_entry(&self) -> (r: Option<usize>)
        requires
            self@.valid(),
        ensures
            r is Some <==> self@.selection() is Some,
            r matches Some(i) ==> i < self@.entries.len() && Some(self@.entries[i as int])
                == self@.selection(),
    {
        if self.selected < self.filtered.len() {
            let i: usize = self.filtered[self.selected];
            assert(self@.filtered[self.selected as int] == i);
            Some(i)
        } else {
            None
        }
    }

    /// Says which entry to copy and, if there is one, asks to be hidden.
    pub fn activate(&mut self) -> (r: Option<String>)
        requires
            old(self)@.valid(),
        ensures
            final(self)@.valid(),
            match old(self)@.selection() {
                Some(e) => text_of(r) == Some(e.id) && final(self)@ == (ClipWindowView {
                    should_hide: true,
                    ..old(self)@
                }),
                None => r is None && final(self)@ == old(self)@,
            },
    {
        let ghost before = self@;
        match self.selected_entry() {
            None => None,
            Some(i) => {
                assert(before.entries[i as int] == self.entries@[i as int]@);
                let id = self.entries[i].id.clone();
                self.should_hide = true;
                assert(self@ =~= (ClipWindowView { should_hide: true, ..before }));
                Some(id)
            },
        }
    }

    /// Says which entry to delete. The listing has to be read again then.
    pub fn delete(&self) -> (r: Option<String>)
        requires
            self@.valid(),
        ensures
            text_of(r) == (match self@.selection() {
                Some(e) => Some(e.id),
                None => None,
            }),
    {
        match self.selected_entry() {
            None => None,
            Some(i) => {
                assert(self@.entries[i as int] == self.entries@[i as int]@);
                Some(self.entries[i].id.clone())
            },
        }
    }

    /// Reads the keys of a frame and moves the selection: Escape hides, Enter
    /// copies, Ctrl+D deletes.
    pub fn step(&mut self, events: &Vec<KeyEvent>, down: bool, up: bool) -> (r: Request)
        requires
            old(self)@.valid(),
        ensures
            final(self)@.valid(),
            r.activate == any_pressed(events@, Key::Enter, false),
            r.delete == any_pressed(events@, Key::D, true),
            final(self)@ == (ClipWindowView {
                selected: moved(
                    old(self)@.selected,
                    old(self)@.filtered.len() as int,
                    down,
                    up,
                ),
                should_hide: old(self)@.should_hide || any_pressed(events@, Key::Escape, false),
                ..old(self)@
            }),
    {
        let ghost before = self@;
        if was_pressed(events, Key::Escape, false) {
            self.should_hide = true;
        }
        self.selected = move_selection(self.selected, self.filtered.len(), down, up);
        assert(self@ =~= (ClipWindowView {
            selected: moved(before.selected, before.filtered.len() as int, down, up),
            should_hide: before.should_hide || any_pressed(events@, Key::Escape, false),
            ..before
        }));
        Request {
            activate: was_pressed(events, Key::Enter, false),
            delete: was_pressed(events, Key::D, true),
        }
    }

    /// Selects a row that was clicked.
    pub fn select(&mut self, row: usize)
        ensures
            final(self)@ == (ClipWindowView { selected: row as int, ..old(self)@ }),
    {
        let ghost before = self@;
        self.selected = row;
        assert(self@ =~= (ClipWindowView { selected: row as int, ..before }));
    }

    /// Resets the query and the selection when the window is hidden.
    pub fn hide_and_reset(&mut self)
        ensures
            final(self)@.valid(),
            final(self)@ == (ClipWindowView {
                query: Seq::empty(),
                should_hide: false,
                ..old(self)@
            }).refiltered(),
    {
        let ghost before = self@;
        self.query = String::new();
        self.should_hide = false;
        assert(self.query@ == Seq::<char>::empty());
        assert(self@ =~= (ClipWindowView { query: Seq::empty(), should_hide: false, ..before }));
        self.filter();
    }
}

/// The text of an entry's row.
pub open spec fn row_text(e: EntryView) -> Seq<char> {
    if e.is_image {
        match e.dims {
            Some(d) => "[img "@ + decimal(d.0 as nat) + "x"@ + decimal(d.1 as nat) + "]"@,
            None => "[image]"@,
        }
    } else {
        truncated(e.text, ROW_CHARS as int)
    }
}

/// Writes the text of an entry's row.
pub fn display_text(e: &Entry) -> (r: String)
    ensures
        r@ == row_text(e@),
{
    if e.is_image {
        match e.dims {
            Some(d) => {
                let w = decimal_string(d.0 as u128);
                let h = decimal_string(d.1 as u128);
                let a = concat("[img ", w.as_str());
                let b = concat(a.as_str(), "x");
                let c = concat(b.as_str(), h.as_str());
                concat(c.as_str(), "]")
            },
            None => "[image]".to_owned(),
        }
    } else {
        truncate(e.text.as_str(), ROW_CHARS)
    }
}

/// The directory for decoded pictures, under the runtime directory where one is
/// set.
pub fn temp_dir(runtime: Option<&str>) -> (r: String)
    ensures
        r@ == joined(
            match slice_text(runtime) {
                Some(d) => d,
                None => "/tmp"@,
            },
            "clip-layer-cache"@,
        ),
{
    let dir = match runtime {
        Some(d) => d,
        None => "/tmp",
    };
    join(dir, "clip-layer-cache")
}

/// The file for the decoded picture of a number and a format.
pub fn picture_file(dir: &str, number: usize, format: &str) -> (r: String)
    ensures
        r@ == joined(dir@, "img_"@ + decimal(number as nat) + "."@ + format@),
{
    let n = decimal_string(number as u128);
    let a = concat("img_", n.as_str());
    let b = concat(a.as_str(), ".");
    let name = concat(b.as_str(), format);
    join(dir, name.as_str())
}

/// The directory of the history's file, under the home directory where one is
/// set.
pub fn history_dir(home: Option<&str>) -> (r: String)
    ensures
        r@ == (match slice_text(home) {
            Some(h) => joined(h, ".cache/cliphist"@),
            None => "/tmp/cliphist"@,
        }),
{
    match home {
        Some(h) => join(h, ".cache/cliphist"),
        None => "/tmp/cliphist".to_owned(),
    }
}

/// Whether one of the changed files is that of the history.
pub fn touches_history(paths: &Vec<String>) -> (r: bool)
    ensures
        r == exists|i: int|
            0 <= i < paths@.len() && file_name((#[trigger] paths@[i])@) == Some("db"@),
{
    let mut i: usize = 0;
    while i < paths.len()
        invariant
            i <= paths@.len(),
            forall|j: int| 0 <= j < i ==> file_name((#[trigger] paths@[j])@) != Some("db"@),
        decreases paths.len() - i,
    {
        match file_name_of(paths[i].as_str()) {
            Some(n) => {
                if same(n.as_str(), "db") {
                    assert(file_name(paths@[i as int]@) == Some("db"@));
                    return true;
                }
            },
            None => {},
        }
        i = i + 1;
    }
    false
}

/// A line with a tab is the text behind its first one; any other is its own
/// text.
pub proof fn text_follows_the_first_tab(a: Seq<char>, b: Seq<char>)
    requires
        !a.contains('\t'),
    ensures
        text_in(a.push('\t') + b) == b,
        text_in(a) == a,
{
    let line = a.push('\t') + b;
    position_is_first(line, '\t');
    position_is_first(a, '\t');
    let at = position(line, '\t');
    assert(line[a.len() as int] == '\t');
    if at < a.len() {
        assert(a[at] == line[at]);
        assert(a.contains(a[at]));
    }
    assert(at == a.len());
    assert(line.skip(at + 1) =~= b);
    if position(a, '\t') < a.len() {
        assert(a.contains(a[position(a, '\t')]));
    }
}

/// A line that the pattern of pictures matches lists a picture: its dimensions
/// if both are numbers, its format in lower case. Any other lists its text. The
/// history finds either again by the line.
pub proof fn lines_list_pictures_or_text(line: Seq<char>, g: Seq<Option<Seq<char>>>, at: int)
    ensures
        entry_for(line, None, at).id == line,
        !entry_for(line, None, at).is_image,
        entry_for(line, None, at).text == text_in(line),
        entry_for(line, Some(g), at).id == line,
        entry_for(line, Some(g), at).is_image,
        entry_for(line, Some(g), at).line == at,
        entry_for(line, None, at).line == at,
        g.len() > 3 && g[1] is Some ==> entry_for(line, Some(g), at).format == lowercase(g[1]->0),
        g.len() > 3 && g[2] is Some && g[3] is Some && number_in(g[2]->0) is Some && number_in(
            g[3]->0,
        ) is Some ==> entry_for(line, Some(g), at).dims == Some(
            (number_in(g[2]->0)->0, number_in(g[3]->0)->0),
        ),
        entry_for(line, None, at).dims is None,
{
}

/// Every line of a listing that is not blank and whose key no earlier line has
/// lists an entry, and nothing else does.
pub proof fn lines_are_entries(all: Seq<Seq<char>>)
    ensures
        forall|i: int|
            #![trigger all[i]]
            0 <= i < all.len() && trim(all[i]).len() > 0 && (forall|j: int|
                0 <= j < i && trim(#[trigger] all[j]).len() > 0 ==> key(listed(all[j], j)) != key(
                    listed(all[i], i),
                )) ==> entries_on(all).contains(listed(all[i], i)),
        forall|k: int|
            #![trigger entries_on(all)[k]]
            0 <= k < entries_on(all).len() ==> {
                let i = entries_on(all)[k].line;
                0 <= i < all.len() && trim(all[i]).len() > 0 && entries_on(all)[k] == listed(
                    all[i],
                    i,
                )
            },
        forall|j: int, k: int|
            0 <= j < k < entries_on(all).len() ==> (#[trigger] entries_on(all)[j]).line < (
            #[trigger] entries_on(all)[k]).line,
    decreases all.len(),
{
    if all.len() > 0 {
        let part = all.drop_last();
        let n = all.len() - 1;
        let before = entries_on(part);
        let now = entries_on(all);
        lines_are_entries(part);
        assert(all[n] == all.last());
        assert(forall|i: int| 0 <= i < n ==> #[trigger] all[i] == part[i]);
        assert forall|i: int|
            #![trigger all[i]]
            0 <= i < all.len() && trim(all[i]).len() > 0 && (forall|j: int|
                0 <= j < i && trim(#[trigger] all[j]).len() > 0 ==> key(listed(all[j], j)) != key(
                    listed(all[i], i),
                )) implies now.contains(listed(all[i], i)) by {
            if i < n {
                assert(part[i] == all[i]);
                assert forall|j: int| 0 <= j < i && trim(#[trigger] part[j]).len() > 0 implies key(
                    listed(part[j], j),
                ) != key(listed(part[i], i)) by {
                    assert(all[j] == part[j]);
                }
                let k = choose|k: int| 0 <= k < before.len() && before[k] == listed(part[i], i);
                assert(now[k] == before[k]);
            } else {
                if known(part, key(listed(all[i], i))) {
                    let j = choose|j: int|
                        0 <= j < part.len() && trim(#[trigger] part[j]).len() > 0 && key(
                            listed(part[j], j),
                        ) == key(listed(all[i], i));
                    assert(all[j] == part[j]);
                }
                assert(now.last() == listed(all[i], i));
            }
        }
        assert forall|k: int| #![trigger now[k]] 0 <= k < now.len() implies ({
            let i = now[k].line;
            0 <= i < all.len() && trim(all[i]).len() > 0 && now[k] == listed(all[i], i)
        }) by {
            if k < before.len() {
                assert(now[k] == before[k]);
                assert(part[before[k].line] == all[before[k].line]);
            }
        }
        assert forall|j: int, k: int| 0 <= j < k < now.len() implies (#[trigger] now[j]).line < (
        #[trigger] now[k]).line by {
            assert(now[j] == before[j]);
            if k < before.len() {
                assert(now[k] == before[k]);
            }
        }
    }
}

/// A query that is not empty lists the first entries with a text that holds it,
/// whatever the case, and no picture. An entry whose text holds it is left out
/// only where the rows are full and all come before it.
pub proof fn rows_hold_the_query(entries: Seq<EntryView>, query: Seq<char>, i: int)
    requires
        lowercase(query).len() > 0,
        0 <= i < entries.len(),
    ensures
        rows_for(entries, query).contains(i) ==> !entries[i].is_image && contains(
            lowercase(entries[i].text),
            lowercase(query),
        ),
        !entries[i].is_image && contains(lowercase(entries[i].text), lowercase(query)) && !rows_for(
            entries,
            query,
        ).contains(i) ==> rows_for(entries, query).len() == 50 && forall|k: int|
            0 <= k < rows_for(entries, query).len() ==> #[trigger] rows_for(entries, query)[k] < i,
        forall|j: int, k: int|
            0 <= j < k < rows_for(entries, query).len() ==> #[trigger] rows_for(entries, query)[j]
                < #[trigger] rows_for(entries, query)[k],
{
    let texts = entries.map_values(|e: EntryView| e.searched());
    assert(texts[i] == entries[i].searched());
    crate::search::rows_hold_the_query(texts, query, i);
}

/// Reading the listing again keeps the selection where it is as long as the list
/// reaches there, and inside the list.
pub proof fn reload_keeps_the_selection(c: ClipWindowView, entries: Seq<EntryView>)
    requires
        0 <= c.selected,
    ensures
        c.selected < c.reloaded(entries).filtered.len() ==> c.reloaded(entries).selected
            == c.selected,
        c.reloaded(entries).filtered.len() > 0 ==> 0 <= c.reloaded(entries).selected < c.reloaded(
            entries,
        ).filtered.len(),
        c.reloaded(entries).query == c.query,
        c.reloaded(entries).filtered == rows_for(entries, c.query),
{
}

/// No text is listed twice, nor a picture's line.
pub proof fn no_entry_is_listed_twice(all: Seq<Seq<char>>, i: int, j: int)
    requires
        0 <= i < j < entries_on(all).len(),
    ensures
        !entries_on(all)[i].is_image && !entries_on(all)[j].is_image ==> entries_on(all)[i].text
            != entries_on(all)[j].text,
        entries_on(all)[i].is_image && entries_on(all)[j].is_image ==> entries_on(all)[i].id
            != entries_on(all)[j].id,
{
    entries_are_distinct(all);
}

/// White space around a line does not count.
pub proof fn lines_are_trimmed(line: Seq<char>, at: int)
    ensures
        listed(line, at).id == trim(line),
        listed(line, at).line == at,
        listed(line, at).is_image <==> captured(PICTURE_PATTERN@, trim(line)) is Some,
        !listed(line, at).is_image ==> listed(line, at).text == text_in(trim(line)),
{
}

/// A picture whose format is not known is taken for one in PNG, and one whose
/// dimensions are not both numbers has none.
pub proof fn unknown_pictures_are_png(line: Seq<char>, g: Seq<Option<Seq<char>>>, at: int)
    ensures
        g.len() <= 1 || g[1] is None ==> entry_for(line, Some(g), at).format == "png"@,
        g.len() <= 3 || g[2] is None || g[3] is None ==> entry_for(line, Some(g), at).dims is None,
        g.len() > 3 && g[2] is Some && g[3] is Some && (number_in(g[2]->0) is None || number_in(
            g[3]->0,
        ) is None) ==> entry_for(line, Some(g), at).dims is None,
{
}

/// A row shows the dimensions of a picture, width first, and of a text at most
/// [`ROW_CHARS`] characters.
pub proof fn rows_show_size_or_text(e: EntryView)
    ensures
        e.is_image && e.dims is Some ==> row_text(e) == "[img "@ + decimal((e.dims->0).0 as nat)
            + "x"@ + decimal((e.dims->0).1 as nat) + "]"@,
        e.is_image && e.dims is None ==> row_text(e) == "[image]"@,
        !e.is_image ==> row_text(e).len() <= ROW_CHARS,
        !e.is_image && e.text.len() <= ROW_CHARS ==> row_text(e).len() == e.text.len(),
{
}

} // verus!

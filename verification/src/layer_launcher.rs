//! The windowed launcher: its icons, its list, how it ranks what is typed.

use crate::desktop::{
    append_all, command_to_run, command_words, run_words, slice_text, terminal_runs_the_command,
    DesktopEntry, DesktopEntryView, Icon, IconView,
};
use crate::fuzzy::score_of;
use crate::icon_index::{lookup, offered, IconIndex};
use crate::icons::{
    icon_bases, list_icon_bases, list_of, list_theme_dirs, pixmap_dirs, theme_dirs,
};
use crate::keyfile::text_of;
use crate::keys::{any_pressed, move_selection, moved, was_pressed, Key, KeyEvent};
use crate::launcher::{
    best_score, best_score_is_best, best_similarity, best_similarity_is_best, complete, entry_views,
    find_best_score, find_best_similarity, ghost_text, larger, Entry, EntryView,
};
use crate::order::{
    all_below, best_of, best_of_is_found, best_of_leaves_out_the_worst, firsts, ints, list_firsts,
    listed_hit, outranks, pairs, positions_ascend, take_best,
};
use crate::text::{
    chars_of, concat, lines, lines_of, lowercase, starts_with, starts_with_chars, string_of,
    to_lowercase, views, words, Separator,
};
use vstd::prelude::*;
use vstd::slice::slice_subrange;

verus! {

/// How many results are kept for a query.
pub const MAX_RESULTS: usize = 50;

/// How many entries are listed when they were just loaded.
pub const MAX_LOADED: usize = 20;

/// The points of an entry that begins with the query.
pub const PREFIX_BONUS: u32 = 10000;

/// The sizes in which the windowed launcher looks for icons, best first.
pub open spec fn window_icon_sizes() -> Seq<Seq<char>> {
    seq!["48x48"@, "64x64"@, "128x128"@, "256x256"@, "32x32"@, "scalable"@]
}

/// Lists the directories in which the windowed launcher looks for icons, best
/// first.
pub fn window_icon_dirs(home: Option<&str>, data_dirs: Option<&str>) -> (r: Vec<String>)
    ensures
        views(r@) == theme_dirs(
            icon_bases(slice_text(home), slice_text(data_dirs)),
            "hicolor"@,
            window_icon_sizes(),
        ) + pixmap_dirs(),
{
    let bases = list_icon_bases(home, data_dirs);
    let sizes = list_of(&["48x48", "64x64", "128x128", "256x256", "32x32", "scalable"]);
    assert(views(sizes@) == window_icon_sizes());
    let mut r = list_theme_dirs(&bases, "hicolor", &sizes);
    let loose = list_of(&["/run/current-system/sw/share/pixmaps", "/usr/share/pixmaps"]);
    assert(views(loose@) == pixmap_dirs());
    append_all(&mut r, loose);
    r
}

/// What stands behind a prefix on the last of the lines that begin with it.
pub open spec fn last_after(all: Seq<Seq<char>>, prefix: Seq<char>) -> Option<Seq<char>>
    decreases all.len(),
{
    if all.len() == 0 {
        None
    } else if prefix.is_prefix_of(all.last()) {
        Some(all.last().skip(prefix.len() as int))
    } else {
        last_after(all.drop_last(), prefix)
    }
}

fn find_last_after(all: &Vec<String>, prefix: &str) -> (r: Option<String>)
    ensures
        text_of(r) == last_after(views(all@), prefix@),
{
    let ghost av = views(all@);
    let p = chars_of(prefix);
    let mut r: Option<String> = None;
    let mut i: usize = 0;
    while i < all.len()
        invariant
            i <= all@.len(),
            av == views(all@),
            p@ == prefix@,
            text_of(r) == last_after(av.take(i as int), prefix@),
        decreases all.len() - i,
    {
        proof {
            assert(av.take(i + 1).drop_last() == av.take(i as int));
            assert(av.take(i + 1).last() == all@[i as int]@);
        }
        let c = chars_of(all[i].as_str());
        if starts_with_chars(c.as_slice(), p.as_slice()) {
            let rest = slice_subrange(c.as_slice(), p.len(), c.len());
            assert(rest@ == av[i as int].skip(prefix@.len() as int));
            r = Some(string_of(rest));
        }
        i = i + 1;
    }
    assert(av.take(av.len() as int) == av);
    r
}

/// The icon files by lower-case window class, given the contents of application
/// files: for each that names a class and an icon that the index holds, unless
/// its class came before.
pub open spec fn class_icons(
    contents: Seq<Seq<char>>,
    index: Map<Seq<char>, Seq<char>>,
) -> Map<Seq<char>, Seq<char>>
    decreases contents.len(),
{
    if contents.len() == 0 {
        Map::empty()
    } else {
        let before = class_icons(contents.drop_last(), index);
        let all = lines(contents.last());
        match (last_after(all, "StartupWMClass="@), last_after(all, "Icon="@)) {
            (Some(class), Some(icon)) => match lookup(index, icon) {
                Some(path) => offered(before, lowercase(class), path),
                None => before,
            },
            _ => before,
        }
    }
}

/// Maps window classes to icon files.
pub fn build_wmclass_icon_map(contents: &Vec<String>, icon_index: &IconIndex) -> (r: IconIndex)
    ensures
        r@ == class_icons(views(contents@), icon_index@),
{
    let ghost cv = views(contents@);
    let mut r = IconIndex::new();
    let mut i: usize = 0;
    while i < contents.len()
        invariant
            i <= contents@.len(),
            cv == views(contents@),
            r@ == class_icons(cv.take(i as int), icon_index@),
        decreases contents.len() - i,
    {
        proof {
            assert(cv.take(i + 1).drop_last() == cv.take(i as int));
            assert(cv.take(i + 1).last() == contents@[i as int]@);
        }
        let all = lines_of(contents[i].as_str());
        let class = find_last_after(&all, "StartupWMClass=");
        let icon = find_last_after(&all, "Icon=");
        match (class, icon) {
            (Some(class), Some(icon)) => match icon_index.get(icon.as_str()) {
                Some(path) => {
                    r.offer(to_lowercase(class.as_str()), path);
                },
                None => {},
            },
            _ => {},
        }
        i = i + 1;
    }
    assert(cv.take(cv.len() as int) == cv);
    r
}

impl IconView {
    /// The value that an icon reference was read from.
    pub open spec fn value(self) -> Seq<char> {
        match self {
            IconView::Path(p) => p,
            IconView::Name(n) => n,
        }
    }

    /// The file that an icon reference leads to without regard to other forms of
    /// its name: a path that is there to itself, anything else to what the index
    /// holds under it.
    pub open spec fn exact(self, index: Map<Seq<char>, Seq<char>>, exists: bool) -> Option<
        Seq<char>,
    > {
        if self is Path && exists {
            Some(self.value())
        } else {
            lookup(index, self.value())
        }
    }
}

impl Icon {
    /// Resolves to a file path by the exact name.
    pub fn resolve_exact(&self, icon_index: &IconIndex, exists: bool) -> (r: Option<String>)
        ensures
            text_of(r) == self@.exact(icon_index@, exists),
    {
        match self {
            Icon::Path(p) => if exists {
                Some(p.clone())
            } else {
                icon_index.get(p.as_str())
            },
            Icon::Name(n) => icon_index.get(n.as_str()),
        }
    }
}

/// The entry for an application, with its keywords or without.
pub open spec fn plain_entry(
    de: DesktopEntryView,
    icons: Map<Seq<char>, Seq<char>>,
    exists: bool,
    keywords: bool,
) -> EntryView {
    EntryView::Desktop {
        name: de.name,
        command: de.command,
        terminal: de.terminal,
        icon: match de.icon {
            Some(i) => i.exact(icons, exists),
            None => None,
        },
        keywords: if keywords {
            de.keywords
        } else {
            Seq::empty()
        },
    }
}

/// Makes the entries for applications. `exists` says of each whether the file
/// of a path reference is there.
pub fn plain_entries(
    found: &Vec<DesktopEntry>,
    icon_index: &IconIndex,
    exists: &Vec<bool>,
    keywords: bool,
) -> (r: Vec<Entry>)
    requires
        exists@.len() == found@.len(),
    ensures
        r@.len() == found@.len(),
        forall|i: int|
            0 <= i < r@.len() ==> (#[trigger] r@[i])@ == plain_entry(
                found@[i]@,
                icon_index@,
                exists@[i],
                keywords,
            ),
{
    let mut r: Vec<Entry> = Vec::new();
    let mut i: usize = 0;
    while i < found.len()
        invariant
            i <= found@.len(),
            exists@.len() == found@.len(),
            r@.len() == i,
            forall|j: int|
                0 <= j < i ==> (#[trigger] r@[j])@ == plain_entry(
                    found@[j]@,
                    icon_index@,
                    exists@[j],
                    keywords,
                ),
        decreases found.len() - i,
    {
        let de = &found[i];
        let icon = match &de.icon {
            Some(ic) => ic.resolve_exact(icon_index, exists[i]),
            None => None,
        };
        let sought = if keywords {
            crate::desktop::copy_texts(&de.keywords)
        } else {
            let none: Vec<String> = Vec::new();
            assert(views(none@) == Seq::<Seq<char>>::empty());
            none
        };
        let e = Entry::Desktop {
            name: de.name.clone(),
            command: de.command.clone(),
            terminal: de.terminal,
            icon,
            keywords: sought,
        };
        assert(e@ == plain_entry(found@[i as int]@, icon_index@, exists@[i as int], keywords));
        r.push(e);
        i = i + 1;
    }
    r
}

impl EntryView {
    /// The name under which the windowed launchers list an entry: an
    /// application's name, a window's title or, without one, its class.
    pub open spec fn title(self) -> Seq<char> {
        match self {
            EntryView::Desktop { name, .. } => name,
            EntryView::Window { title, class, .. } => if title.len() == 0 {
                class
            } else {
                title
            },
        }
    }

    /// The workspace of a window.
    pub open spec fn workspace(self) -> Option<Seq<char>> {
        match self {
            EntryView::Window { workspace, .. } => Some(workspace),
            _ => None,
        }
    }
}

impl Entry {
    /// The name under which the windowed launchers list an entry.
    pub fn title(&self) -> (r: &str)
        ensures
            r@ == self@.title(),
    {
        match self {
            Entry::Desktop { name, .. } => name.as_str(),
            Entry::Window { title, class, .. } => if title.as_str().is_empty() {
                class.as_str()
            } else {
                title.as_str()
            },
        }
    }

    /// The workspace of a window.
    pub fn workspace(&self) -> (r: Option<&str>)
        ensures
            slice_text(r) == self@.workspace(),
    {
        match self {
            Entry::Window { workspace, .. } => Some(workspace.as_str()),
            Entry::Desktop { .. } => None,
        }
    }
}

/// Whether some field begins with a text in lower case, whatever its own case.
pub open spec fn some_begins(fields: Seq<Seq<char>>, text: Seq<char>) -> bool {
    exists|i: int| 0 <= i < fields.len() && text.is_prefix_of(lowercase(#[trigger] fields[i]))
}

fn field_begins(fields: &Vec<String>, text: &str) -> (r: bool)
    ensures
        r == some_begins(views(fields@), text@),
{
    let ghost fv = views(fields@);
    let mut i: usize = 0;
    while i < fields.len()
        invariant
            i <= fields@.len(),
            fv == views(fields@),
            forall|j: int| 0 <= j < i ==> !text@.is_prefix_of(lowercase(#[trigger] fv[j])),
        decreases fields.len() - i,
    {
        assert(fv[i as int] == fields@[i as int]@);
        let low = to_lowercase(fields[i].as_str());
        if starts_with(low.as_str(), text) {
            return true;
        }
        i = i + 1;
    }
    false
}

/// The points of an entry for a query: its best match or, without one, its best
/// similarity, and a bonus if a field begins with the query. `similar` says how
/// similar the query is to each field, in thousandths.
pub open spec fn points(e: EntryView, query: Seq<char>, similar: Seq<u32>) -> int {
    let best = best_score(e.primary(), query);
    let near = if best == 0 {
        best_similarity(similar)
    } else {
        0
    };
    larger(best, near) + (if some_begins(e.primary(), lowercase(query)) {
        PREFIX_BONUS as int
    } else {
        0
    })
}

fn count_points(e: &Entry, query: &str, low: &str, similar: &Vec<u32>) -> (r: i128)
    requires
        low@ == lowercase(query@),
        forall|i: int| 0 <= i < similar@.len() ==> #[trigger] similar@[i] <= 1000,
    ensures
        r == points(e@, query@, similar@),
{
    let fields = e.primary_fields();
    let best: u32 = find_best_score(&fields, query);
    let near: u32 = if best == 0 {
        find_best_similarity(similar)
    } else {
        0
    };
    let most: u32 = if best > near {
        best
    } else {
        near
    };
    let bonus: u32 = if field_begins(&fields, low) {
        PREFIX_BONUS
    } else {
        0
    };
    most as i128 + bonus as i128
}

/// The entries that a query finds, each with its points.
pub open spec fn hits(entries: Seq<EntryView>, query: Seq<char>, similar: Seq<Vec<u32>>) -> Seq<
    (int, int),
>
    decreases entries.len(),
{
    if entries.len() == 0 {
        Seq::empty()
    } else {
        let before = hits(entries.drop_last(), query, similar);
        let p = points(entries.last(), query, similar[entries.len() - 1]@);
        if p == 0 {
            before
        } else {
            before.push((entries.len() - 1, p))
        }
    }
}

/// The results for a query: the first entries, or those with the most points.
pub open spec fn results(entries: Seq<EntryView>, query: Seq<char>, similar: Seq<Vec<u32>>) -> Seq<
    int,
> {
    if query.len() == 0 {
        firsts(entries.len() as int, MAX_RESULTS as int)
    } else {
        best_of(hits(entries, query, similar), MAX_RESULTS as int)
    }
}

proof fn hits_are_entries(entries: Seq<EntryView>, query: Seq<char>, similar: Seq<Vec<u32>>)
    ensures
        positions_ascend(hits(entries, query, similar), entries.len() as int),
    decreases entries.len(),
{
    if entries.len() > 0 {
        hits_are_entries(entries.drop_last(), query, similar);
        let before = hits(entries.drop_last(), query, similar);
        let all = hits(entries, query, similar);
        assert forall|k: int| 0 <= k < all.len() implies 0 <= (#[trigger] all[k]).0
            < entries.len() by {
            if k < before.len() {
                assert(all[k] == before[k]);
            }
        }
        assert forall|i: int, j: int| 0 <= i < j < all.len() implies (#[trigger] all[i]).0 < (
        #[trigger] all[j]).0 by {
            assert(all[i] == before[i]);
            if j < before.len() {
                assert(all[j] == before[j]);
            }
        }
    }
}

/// Results are positions of entries, none twice and not too many of them.
pub proof fn results_are_entries(
    entries: Seq<EntryView>,
    query: Seq<char>,
    similar: Seq<Vec<u32>>,
)
    ensures
        all_below(results(entries, query, similar), entries.len() as int),
        results(entries, query, similar).len() <= MAX_RESULTS,
        results(entries, query, similar).no_duplicates(),
{
    hits_are_entries(entries, query, similar);
    best_of_is_found(hits(entries, query, similar), MAX_RESULTS as int, entries.len() as int);
}

/// Whether there is a list of similarities for each entry, none above one.
pub open spec fn similarities(similar: Seq<Vec<u32>>, n: int) -> bool {
    &&& similar.len() == n
    &&& forall|i: int, j: int|
        0 <= i < n && 0 <= j < similar[i]@.len() ==> #[trigger] similar[i]@[j] <= 1000
}

fn rank_entries(entries: &Vec<Entry>, query: &str, similar: &Vec<Vec<u32>>) -> (r: Vec<usize>)
    requires
        query@.len() > 0,
        similarities(similar@, entries@.len() as int),
    ensures
        ints(r@) == results(entry_views(entries@), query@, similar@),
{
    let ghost ev = entry_views(entries@);
    let low = to_lowercase(query);
    let mut scored: Vec<(usize, i128)> = Vec::new();
    let mut i: usize = 0;
    assert(pairs(scored@) == hits(ev.take(0), query@, similar@));
    while i < entries.len()
        invariant
            i <= entries@.len(),
            ev == entry_views(entries@),
            low@ == lowercase(query@),
            similarities(similar@, entries@.len() as int),
            pairs(scored@) == hits(ev.take(i as int), query@, similar@),
            forall|k: int| 0 <= k < scored@.len() ==> 0 <= (#[trigger] scored@[k]).1,
        decreases entries.len() - i,
    {
        proof {
            assert(ev.take(i + 1).drop_last() == ev.take(i as int));
            assert(ev.take(i + 1).last() == entries@[i as int]@);
            assert(ev[i as int] == entries@[i as int]@);
        }
        let ghost head = scored@;
        let p: i128 = count_points(&entries[i], query, low.as_str(), &similar[i]);
        proof {
            points_count(ev[i as int], query@, similar@[i as int]@);
        }
        if p != 0 {
            scored.push((i, p));
            assert(pairs(scored@) == pairs(head).push((i as int, p as int)));
        }
        i = i + 1;
    }
    assert(ev.take(ev.len() as int) == ev);
    take_best(&scored, MAX_RESULTS)
}

proof fn points_count(e: EntryView, query: Seq<char>, similar: Seq<u32>)
    ensures
        points(e, query, similar) >= 0,
{
    scores_count(e.primary(), query);
}

proof fn scores_count(fields: Seq<Seq<char>>, word: Seq<char>)
    ensures
        best_score(fields, word) >= 0,
    decreases fields.len(),
{
    if fields.len() > 0 {
        scores_count(fields.drop_last(), word);
    }
}

/// The windowed launcher while it runs.
pub struct WindowLauncher {
    pub query: String,
    pub entries: Vec<Entry>,
    pub filtered: Vec<usize>,
    pub selected: usize,
    pub should_hide: bool,
    pub loaded: bool,
}

/// What the windowed launcher shows.
#[verifier::ext_equal]
pub struct WindowLauncherView {
    pub query: Seq<char>,
    pub entries: Seq<EntryView>,
    pub filtered: Seq<int>,
    pub selected: int,
    pub should_hide: bool,
    pub loaded: bool,
}

impl View for WindowLauncher {
    type V = WindowLauncherView;

    open spec fn view(&self) -> WindowLauncherView {
        WindowLauncherView {
            query: self.query@,
            entries: entry_views(self.entries@),
            filtered: ints(self.filtered@),
            selected: self.selected as int,
            should_hide: self.should_hide,
            loaded: self.loaded,
        }
    }
}

impl WindowLauncherView {
    /// Results are positions of entries.
    pub open spec fn valid(self) -> bool {
        all_below(self.filtered, self.entries.len() as int)
    }

    /// The entry that is selected.
    pub open spec fn selection(self) -> Option<EntryView> {
        if self.selected < self.filtered.len() {
            Some(self.entries[self.filtered[self.selected]])
        } else {
            None
        }
    }
}

/// The request that gives a window the focus.
pub open spec fn focus_args(address: Seq<char>) -> Seq<Seq<char>> {
    seq!["dispatch"@, "focuswindow"@, "address:"@ + address]
}

/// Writes the request that gives a window the focus, as arguments of the
/// compositor's control program.
pub fn focus_window_args(address: &str) -> (r: Vec<String>)
    ensures
        views(r@) == focus_args(address@),
{
    let mut r: Vec<String> = Vec::new();
    r.push("dispatch".to_owned());
    r.push("focuswindow".to_owned());
    r.push(concat("address:", address));
    assert(views(r@) == focus_args(address@));
    r
}

/// What opening an entry of the windowed launcher takes.
pub enum WindowOpening {
    /// A program and its arguments; none at all for an empty command line.
    Run(Vec<String>),
    /// Arguments of the compositor's control program.
    Control(Vec<String>),
}

/// What opening an entry of the windowed launcher asks for.
pub enum WindowOpeningView {
    Run(Seq<Seq<char>>),
    Control(Seq<Seq<char>>),
}

impl View for WindowOpening {
    type V = WindowOpeningView;

    open spec fn view(&self) -> WindowOpeningView {
        match self {
            WindowOpening::Run(w) => WindowOpeningView::Run(views(w@)),
            WindowOpening::Control(w) => WindowOpeningView::Control(views(w@)),
        }
    }
}

/// What opening an entry of the windowed launcher takes, given the terminal's
/// command line where one is set.
pub open spec fn window_opened(e: EntryView, term: Option<Seq<char>>) -> WindowOpeningView {
    match e {
        EntryView::Desktop { command, terminal, .. } => WindowOpeningView::Run(
            run_words(command, terminal, term, true),
        ),
        EntryView::Window { address, .. } => WindowOpeningView::Control(focus_args(address)),
    }
}

impl WindowLauncher {
    /// A launcher that has nothing to show yet.
    pub fn new() -> (r: WindowLauncher)
        ensures
            r@.valid(),
            r@ == (WindowLauncherView {
                query: Seq::empty(),
                entries: Seq::empty(),
                filtered: Seq::empty(),
                selected: 0,
                should_hide: false,
                loaded: false,
            }),
    {
        let r = WindowLauncher {
            query: String::new(),
            entries: Vec::new(),
            filtered: Vec::new(),
            selected: 0,
            should_hide: false,
            loaded: false,
        };
        assert(r@ =~= (WindowLauncherView {
            query: Seq::empty(),
            entries: Seq::empty(),
            filtered: Seq::empty(),
            selected: 0,
            should_hide: false,
            loaded: false,
        }));
        r
    }

    /// Whether the entries have to be collected before the next frame.
    pub fn needs_load(&self) -> (r: bool)
        ensures
            r == (!self@.loaded || self@.entries.len() == 0),
    {
        assert(self@.entries.len() == self.entries@.len());
        !self.loaded || self.entries.len() == 0
    }

    /// Takes over newly collected entries, windows first, and lists the first of
    /// them.
    pub fn load_entries(&mut self, windows: Vec<Entry>, apps: Vec<Entry>)
        ensures
            final(self)@.valid(),
            ({
                let entries = entry_views(windows@) + entry_views(apps@);
                final(self)@ == (WindowLauncherView {
                    entries,
                    filtered: firsts(entries.len() as int, MAX_LOADED as int),
                    loaded: true,
                    ..old(self)@
                })
            }),
    {
        let ghost before = self@;
        let ghost wv = windows@;
        let ghost av = apps@;
        let mut all = windows;
        let mut rest = apps;
        all.append(&mut rest);
        assert(entry_views(all@) == entry_views(wv) + entry_views(av));
        self.filtered = list_firsts(all.len(), MAX_LOADED);
        self.entries = all;
        self.loaded = true;
        assert(self@ =~= (WindowLauncherView {
            entries: entry_views(wv) + entry_views(av),
            filtered: self@.filtered,
            loaded: true,
            ..before
        }));
    }

    /// Lists the results for the query and selects the first one.
    pub fn filter(&mut self, similar: &Vec<Vec<u32>>)
        requires
            old(self)@.valid(),
            similarities(similar@, old(self)@.entries.len() as int),
        ensures
            final(self)@.valid(),
            final(self)@ == (WindowLauncherView {
                filtered: results(old(self)@.entries, old(self)@.query, similar@),
                selected: 0,
                ..old(self)@
            }),
    {
        let ghost before = self@;
        proof {
            results_are_entries(before.entries, before.query, similar@);
        }
        if self.query.as_str().is_empty() {
            self.filtered = list_firsts(self.entries.len(), MAX_RESULTS);
        } else {
            self.filtered = rank_entries(&self.entries, self.query.as_str(), similar);
        }
        self.selected = 0;
        assert(self@ =~= (WindowLauncherView {
            filtered: results(before.entries, before.query, similar@),
            selected: 0,
            ..before
        }));
    }

    /// The completion of the query by the first result.
    pub fn ghost_text(&self) -> (r: String)
        requires
            self@.valid(),
        ensures
            r@ == (if self@.filtered.len() > 0 {
                ghost_text(self@.query, self@.entries[self@.filtered[0]].title())
            } else {
                Seq::empty()
            }),
    {
        if self.filtered.len() > 0 {
            let first: usize = self.filtered[0];
            assert(self@.filtered[0] == first);
            assert(self@.entries[first as int] == self.entries@[first as int]@);
            complete(self.query.as_str(), self.entries[first].title())
        } else {
            String::new()
        }
    }

    /// Opens the selected entry and asks to be hidden. `term` is the terminal's
    /// command line, where one is set; its own arguments are kept. Nothing is
    /// opened without a selection.
    pub fn activate(&mut self, term: Option<&str>) -> (r: Option<WindowOpening>)
        requires
            old(self)@.valid(),
        ensures
            final(self)@.valid(),
            final(self)@ == (WindowLauncherView { should_hide: true, ..old(self)@ }),
            r matches Some(w) ==> w@ == window_opened(old(self)@.selection()->0, slice_text(term)),
            match old(self)@.selection() {
                Some(EntryView::Desktop { command, terminal, .. }) => r matches Some(
                    WindowOpening::Run(w),
                ) && views(w@) == run_words(command, terminal, slice_text(term), true),
                Some(EntryView::Window { address, .. }) => r matches Some(
                    WindowOpening::Control(w),
                ) && views(w@) == focus_args(address),
                None => r is None,
            },
    {
        let ghost before = self@;
        self.should_hide = true;
        assert(self@ =~= (WindowLauncherView { should_hide: true, ..before }));
        if self.selected >= self.filtered.len() {
            return None;
        }
        let idx: usize = self.filtered[self.selected];
        proof {
            assert(before.filtered[self.selected as int] == idx);
            assert(before.entries[idx as int] == self.entries@[idx as int]@);
        }
        match &self.entries[idx] {
            Entry::Desktop { command, terminal, .. } => Some(
                WindowOpening::Run(command_to_run(command.as_str(), *terminal, term, true)),
            ),
            Entry::Window { address, .. } => Some(
                WindowOpening::Control(focus_window_args(address.as_str())),
            ),
        }
    }

    /// Reads the keys of a frame and moves the selection. Returns whether Enter
    /// was pressed; Escape hides.
    pub fn step(&mut self, events: &Vec<KeyEvent>, down: bool, up: bool) -> (r: bool)
        requires
            old(self)@.valid(),
        ensures
            final(self)@.valid(),
            r == any_pressed(events@, Key::Enter, false),
            final(self)@ == (WindowLauncherView {
                selected: moved(
                    old(self)@.selected,
                    old(self)@.filtered.len() as int,
                    down,
                    up,
                ),
                should_hide: old(self)@.should_hide || any_pressed(events@, Key::Escape, false),
                ..old(self)@
            }),
    {
        let ghost before = self@;
        if was_pressed(events, Key::Escape, false) {
            self.should_hide = true;
        }
        self.selected = move_selection(self.selected, self.filtered.len(), down, up);
        assert(self@ =~= (WindowLauncherView {
            selected: moved(before.selected, before.filtered.len() as int, down, up),
            should_hide: before.should_hide || any_pressed(events@, Key::Escape, false),
            ..before
        }));
        was_pressed(events, Key::Enter, false)
    }

    /// Selects a row that was clicked.
    pub fn select(&mut self, row: usize)
        ensures
            final(self)@ == (WindowLauncherView { selected: row as int, ..old(self)@ }),
    {
        let ghost before = self@;
        self.selected = row;
        assert(self@ =~= (WindowLauncherView { selected: row as int, ..before }));
    }

    /// Resets the query, the selection and the list when the window is hidden.
    pub fn hide_and_reset(&mut self)
        ensures
            final(self)@.valid(),
            final(self)@ == (WindowLauncherView {
                query: Seq::empty(),
                selected: 0,
                filtered: firsts(old(self)@.entries.len() as int, MAX_RESULTS as int),
                should_hide: false,
                ..old(self)@
            }),
    {
        let ghost before = self@;
        self.query = String::new();
        self.selected = 0;
        self.filtered = list_firsts(self.entries.len(), MAX_RESULTS);
        self.should_hide = false;
        assert(self.query@ == Seq::<char>::empty());
        assert(self@ =~= (WindowLauncherView {
            query: Seq::empty(),
            selected: 0,
            filtered: firsts(before.entries.len() as int, MAX_RESULTS as int),
            should_hide: false,
            ..before
        }));
    }
}

/// A search for the longest front of a text that fits in a width. The text
/// itself does not fit.
#[derive(Clone, Copy, PartialEq, Eq, Structural)]
pub struct WidthSearch {
    pub low: usize,
    pub high: usize,
}

/// Whether longer fronts fit only if shorter ones do.
pub open spec fn shrinks(fits: spec_fn(int) -> bool) -> bool {
    forall|a: int, b: int| 0 < a <= b && #[trigger] fits(b) ==> #[trigger] fits(a)
}

impl WidthSearch {
    /// Whether the longest front that fits is still in the range: fronts up to
    /// `low` fit, fronts beyond `high` do not.
    pub open spec fn holds(self, fits: spec_fn(int) -> bool, len: int) -> bool {
        &&& self.low <= self.high <= len
        &&& forall|n: int| 0 < n <= self.low ==> #[trigger] fits(n)
        &&& forall|n: int| self.high < n <= len ==> !#[trigger] fits(n)
    }

    /// A search over a text of so many characters.
    pub fn new(len: usize) -> (r: WidthSearch)
        ensures
            r == (WidthSearch { low: 0, high: len }),
    {
        WidthSearch { low: 0, high: len }
    }

    /// The front to measure next: half way between the ends of the range. None
    /// once the range holds one length.
    pub fn probe(&self) -> (r: Option<usize>)
        requires
            self.low <= self.high,
        ensures
            r is Some <==> self.low < self.high,
            r matches Some(n) ==> self.low < n <= self.high && n == (self.low + self.high + 1) / 2,
    {
        if self.low < self.high {
            let apart: usize = self.high - self.low;
            Some(self.low + apart / 2 + apart % 2)
        } else {
            None
        }
    }

    /// Takes note of whether the front that was measured fits.
    pub fn note(&mut self, n: usize, fits: bool)
        requires
            old(self).low < n <= old(self).high,
        ensures
            *final(self) == (if fits {
                WidthSearch { low: n, ..*old(self) }
            } else {
                WidthSearch { high: (n - 1) as usize, ..*old(self) }
            }),
            final(self).high - final(self).low < old(self).high - old(self).low,
    {
        if fits {
            self.low = n;
        } else {
            self.high = n - 1;
        }
    }
}

/// The search keeps its range right: a true answer about the front that was
/// measured leaves the longest front that fits in it.
pub proof fn answer_narrows(
    s: WidthSearch,
    fits: spec_fn(int) -> bool,
    len: int,
    n: usize,
)
    requires
        shrinks(fits),
        s.holds(fits, len),
        s.low < n <= s.high,
    ensures
        fits(n as int) ==> (WidthSearch { low: n, ..s }).holds(fits, len),
        !fits(n as int) ==> (WidthSearch { high: (n - 1) as usize, ..s }).holds(fits, len),
{
    if fits(n as int) {
        assert forall|k: int| 0 < k <= n implies #[trigger] fits(k) by {}
    } else {
        assert forall|k: int| n - 1 < k <= len implies !#[trigger] fits(k) by {
            if fits(k) {
                assert(fits(n as int));
            }
        }
    }
}

/// A finished search has found the longest front that fits.
pub proof fn search_finds_longest(s: WidthSearch, fits: spec_fn(int) -> bool, len: int)
    requires
        s.holds(fits, len),
        s.low == s.high,
    ensures
        s.low > 0 ==> fits(s.low as int),
        forall|n: int| s.low < n <= len ==> !#[trigger] fits(n),
{
}

/// The front of a text with an ellipsis behind it.
pub fn cut_text(text: &str, n: usize) -> (r: String)
    requires
        n <= text@.len(),
    ensures
        r@ == text@.take(n as int) + "…"@,
{
    let c = chars_of(text);
    let front = slice_subrange(c.as_slice(), 0, n);
    assert(front@ == text@.take(n as int));
    let s = string_of(front);
    concat(s.as_str(), "…")
}

/// What stands behind a prefix comes from a line that begins with it and after
/// which none does.
pub proof fn last_after_is_last(all: Seq<Seq<char>>, prefix: Seq<char>)
    ensures
        last_after(all, prefix) is None <==> (forall|i: int|
            0 <= i < all.len() ==> !prefix.is_prefix_of(#[trigger] all[i])),
        last_after(all, prefix) matches Some(rest) ==> exists|k: int|
            0 <= k < all.len() && #[trigger] all[k] == prefix + rest && forall|j: int|
                k < j < all.len() ==> !prefix.is_prefix_of(#[trigger] all[j]),
    decreases all.len(),
{
    if all.len() > 0 {
        let part = all.drop_last();
        let n = all.len() - 1;
        last_after_is_last(part, prefix);
        assert(all[n] == all.last());
        assert(forall|i: int| 0 <= i < n ==> #[trigger] all[i] == part[i]);
        if prefix.is_prefix_of(all.last()) {
            let rest = all.last().skip(prefix.len() as int);
            assert(all[n] =~= prefix + rest);
        } else if last_after(part, prefix) is Some {
            let rest = last_after(part, prefix)->0;
            let k = choose|k: int|
                0 <= k < part.len() && #[trigger] part[k] == prefix + rest && forall|j: int|
                    k < j < part.len() ==> !prefix.is_prefix_of(#[trigger] part[j]);
            assert(all[k] == part[k]);
            assert forall|j: int| k < j < all.len() implies !prefix.is_prefix_of(
                #[trigger] all[j],
            ) by {
                if j < n {
                    assert(part[j] == all[j]);
                }
            }
            assert(prefix.is_prefix_of(all[k])) by {
                assert(prefix =~= (prefix + rest).subrange(0, prefix.len() as int));
            }
        } else {
            assert forall|i: int| 0 <= i < all.len() implies !prefix.is_prefix_of(
                #[trigger] all[i],
            ) by {
                if i < n {
                    assert(part[i] == all[i]);
                }
            }
        }
    }
}

/// Whether an application file names a window class, in lower case, and an icon
/// that the index holds.
pub open spec fn names_icon(
    content: Seq<char>,
    index: Map<Seq<char>, Seq<char>>,
    class: Seq<char>,
) -> bool {
    match (
        last_after(lines(content), "StartupWMClass="@),
        last_after(lines(content), "Icon="@),
    ) {
        (Some(c), Some(i)) => lowercase(c) == class && index.contains_key(i),
        _ => false,
    }
}

/// The icon of a window class is that of the first application file that names
/// the class and an icon that the index holds.
pub proof fn first_file_gives_the_icon(
    contents: Seq<Seq<char>>,
    index: Map<Seq<char>, Seq<char>>,
    class: Seq<char>,
    i: int,
)
    requires
        0 <= i < contents.len(),
        names_icon(contents[i], index, class),
        forall|j: int| 0 <= j < i ==> !names_icon(#[trigger] contents[j], index, class),
    ensures
        class_icons(contents, index).contains_key(class),
        class_icons(contents, index)[class] == index[last_after(
            lines(contents[i]),
            "Icon="@,
        )->0],
    decreases contents.len(),
{
    let part = contents.drop_last();
    let n = contents.len() - 1;
    if i < n {
        assert(part[i] == contents[i]);
        assert forall|j: int| 0 <= j < i implies !names_icon(#[trigger] part[j], index, class) by {
            assert(part[j] == contents[j]);
        }
        first_file_gives_the_icon(part, index, class, i);
    } else if class_icons(part, index).contains_key(class) {
        let k = classes_have_files(part, index, class);
        assert(part[k] == contents[k]);
    }
}

/// A class has an icon only if some application file gives it one.
pub proof fn classes_have_files(
    contents: Seq<Seq<char>>,
    index: Map<Seq<char>, Seq<char>>,
    class: Seq<char>,
) -> (i: int)
    requires
        class_icons(contents, index).contains_key(class),
    ensures
        0 <= i < contents.len(),
        names_icon(contents[i], index, class),
    decreases contents.len(),
{
    let part = contents.drop_last();
    let n = contents.len() - 1;
    assert(contents.len() > 0);
    if class_icons(part, index).contains_key(class) {
        let i = classes_have_files(part, index, class);
        assert(part[i] == contents[i]);
        i
    } else {
        n
    }
}

/// The points of an entry for a query: the best score of its name, or of its
/// title and class, on which no field counts for more; without a score the best
/// similarity of at least 850 thousandths; and ten thousand more where a field
/// begins with the query, whatever the case.
pub proof fn points_are_the_best(e: EntryView, query: Seq<char>, similar: Seq<u32>)
    ensures
        ({
            let begins = exists|i: int|
                0 <= i < e.primary().len() && lowercase(query).is_prefix_of(
                    lowercase(#[trigger] e.primary()[i]),
                );
            let rest = points(e, query, similar) - (if begins {
                10000int
            } else {
                0
            });
            &&& rest >= 0
            &&& forall|k: int|
                0 <= k < e.primary().len() ==> (score_of(
                    query,
                    #[trigger] e.primary()[k],
                ) matches Some(s) ==> s <= rest)
            &&& (forall|k: int|
                0 <= k < e.primary().len() ==> !(score_of(
                    query,
                    #[trigger] e.primary()[k],
                ) matches Some(s) && s > 0)) ==> forall|k: int|
                0 <= k < similar.len() && similar[k] >= 850 ==> #[trigger] similar[k] <= rest
            &&& rest > 0 ==> (exists|k: int|
                0 <= k < e.primary().len() && (score_of(
                    query,
                    #[trigger] e.primary()[k],
                ) matches Some(s) && s == rest)) || (exists|k: int|
                0 <= k < similar.len() && #[trigger] similar[k] == rest && similar[k] >= 850)
        }),
{
    best_score_is_best(e.primary(), query);
    best_similarity_is_best(similar);
    let best = best_score(e.primary(), query);
    if best > 0 {
        let k = choose|k: int|
            0 <= k < e.primary().len() && score_of(query, #[trigger] e.primary()[k]) == Some(
                best as u32,
            ) && best <= u32::MAX;
        assert(score_of(query, e.primary()[k]) == Some(best as u32));
    }
}

proof fn hit_is_match(entries: Seq<EntryView>, query: Seq<char>, similar: Seq<Vec<u32>>, k: int)
    requires
        0 <= k < hits(entries, query, similar).len(),
    ensures
        0 <= hits(entries, query, similar)[k].0 < entries.len(),
        points(
            entries[hits(entries, query, similar)[k].0],
            query,
            similar[hits(entries, query, similar)[k].0]@,
        ) == hits(entries, query, similar)[k].1,
        hits(entries, query, similar)[k].1 != 0,
    decreases entries.len(),
{
    let part = entries.drop_last();
    let before = hits(part, query, similar);
    if k < before.len() {
        hit_is_match(part, query, similar, k);
        assert(hits(entries, query, similar)[k] == before[k]);
        assert(part[before[k].0] == entries[before[k].0]);
    }
}

proof fn match_is_hit(
    entries: Seq<EntryView>,
    query: Seq<char>,
    similar: Seq<Vec<u32>>,
    i: int,
) -> (k: int)
    requires
        0 <= i < entries.len(),
        points(entries[i], query, similar[i]@) != 0,
    ensures
        0 <= k < hits(entries, query, similar).len(),
        hits(entries, query, similar)[k] == (i, points(entries[i], query, similar[i]@)),
    decreases entries.len(),
{
    let part = entries.drop_last();
    let before = hits(part, query, similar);
    if i < part.len() {
        assert(part[i] == entries[i]);
        let k = match_is_hit(part, query, similar, i);
        assert(hits(entries, query, similar)[k] == before[k]);
        k
    } else {
        before.len() as int
    }
}

/// Results for a query come best first: each has points, none fewer than one
/// after it, and entries with as many come in their order. An entry with points
/// is left out only where the list is full of results with at least as many.
pub proof fn results_come_best_first(
    entries: Seq<EntryView>,
    query: Seq<char>,
    similar: Seq<Vec<u32>>,
)
    requires
        query.len() > 0,
    ensures
        forall|a: int|
            #![trigger results(entries, query, similar)[a]]
            0 <= a < results(entries, query, similar).len() ==> {
                let i = results(entries, query, similar)[a];
                0 <= i < entries.len() && points(entries[i], query, similar[i]@) > 0
            },
        forall|a: int, b: int|
            #![trigger results(entries, query, similar)[a], results(entries, query, similar)[b]]
            0 <= a < b < results(entries, query, similar).len() ==> {
                let (i, j) = (
                    results(entries, query, similar)[a],
                    results(entries, query, similar)[b],
                );
                let p = points(entries[i], query, similar[i]@);
                let q = points(entries[j], query, similar[j]@);
                p > q || (p == q && i < j)
            },
        forall|j: int|
            #![trigger entries[j]]
            0 <= j < entries.len() && points(entries[j], query, similar[j]@) > 0 && !results(
                entries,
                query,
                similar,
            ).contains(j) ==> results(entries, query, similar).len() == 50 && forall|a: int|
                #![trigger results(entries, query, similar)[a]]
                0 <= a < 50 ==> points(
                    entries[results(entries, query, similar)[a]],
                    query,
                    similar[results(entries, query, similar)[a]]@,
                ) >= points(entries[j], query, similar[j]@),
{
    let all = hits(entries, query, similar);
    let n = entries.len() as int;
    let most = MAX_RESULTS as int;
    let r = results(entries, query, similar);
    hits_are_entries(entries, query, similar);
    assert forall|a: int| #![trigger r[a]] 0 <= a < r.len() implies 0 <= r[a] < entries.len()
        && points(entries[r[a]], query, similar[r[a]]@) > 0 by {
        let h = listed_hit(all, most, a);
        hit_is_match(entries, query, similar, h);
        points_count(entries[r[a]], query, similar[r[a]]@);
    }
    assert forall|a: int, b: int| #![trigger r[a], r[b]] 0 <= a < b < r.len() implies ({
        let p = points(entries[r[a]], query, similar[r[a]]@);
        let q = points(entries[r[b]], query, similar[r[b]]@);
        p > q || (p == q && r[a] < r[b])
    }) by {
        let g = listed_hit(all, most, a);
        best_of_leaves_out_the_worst(all, most, n, g);
        let (g, h) = choose|g: int, h: int|
            #![trigger all[g], all[h]]
            0 <= g < all.len() && 0 <= h < all.len() && all[g].0 == r[a] && all[h].0 == r[b]
                && outranks(all, g, h);
        hit_is_match(entries, query, similar, g);
        hit_is_match(entries, query, similar, h);
        if g < h {
            assert(all[g].0 < all[h].0);
        }
    }
    assert forall|j: int|
        #![trigger entries[j]]
        0 <= j < entries.len() && points(entries[j], query, similar[j]@) > 0 && !r.contains(
            j,
        ) implies r.len() == MAX_RESULTS && forall|a: int|
        #![trigger r[a]]
        0 <= a < MAX_RESULTS ==> points(entries[r[a]], query, similar[r[a]]@) >= points(
            entries[j],
            query,
            similar[j]@,
        ) by {
        let h = match_is_hit(entries, query, similar, j);
        best_of_leaves_out_the_worst(all, most, n, h);
        assert forall|a: int| #![trigger r[a]] 0 <= a < MAX_RESULTS implies points(
            entries[r[a]],
            query,
            similar[r[a]]@,
        ) >= points(entries[j], query, similar[j]@) by {
            let g = listed_hit(all, most, a);
            assert(r.contains(all[g].0));
            assert(outranks(all, g, h));
            hit_is_match(entries, query, similar, g);
        }
    }
}

/// An application is listed under its name with its command and terminal flag,
/// its icon by the exact value that it names, and its keywords where they are
/// wanted.
pub proof fn plain_entries_keep_their_files(
    de: DesktopEntryView,
    icons: Map<Seq<char>, Seq<char>>,
    exists: bool,
    keywords: bool,
)
    ensures
        plain_entry(de, icons, exists, keywords) matches EntryView::Desktop {
            name,
            command,
            terminal,
            ..
        } && name == de.name && command == de.command && terminal == de.terminal,
        keywords ==> plain_entry(de, icons, exists, keywords).secondary() == de.keywords,
        !keywords ==> plain_entry(de, icons, exists, keywords).secondary().len() == 0,
        match de.icon {
            Some(IconView::Path(p)) => plain_entry(de, icons, exists, keywords)->Desktop_icon == (
            if exists {
                Some(p)
            } else if icons.contains_key(p) {
                Some(icons[p])
            } else {
                None
            }),
            Some(IconView::Name(n)) => plain_entry(de, icons, exists, keywords)->Desktop_icon == (
            if icons.contains_key(n) {
                Some(icons[n])
            } else {
                None
            }),
            None => plain_entry(de, icons, exists, keywords)->Desktop_icon is None,
        },
{
}

/// A window goes by its title, or by its class where it has no title; an
/// application by its name. Only a window has a workspace.
pub proof fn entries_go_by_their_titles(e: EntryView)
    ensures
        e matches EntryView::Window { title, class, workspace, .. } ==> {
            &&& title.len() > 0 ==> e.title() == title
            &&& title.len() == 0 ==> e.title() == class
            &&& e.workspace() == Some(workspace)
        },
        e matches EntryView::Desktop { name, .. } ==> e.title() == name && e.workspace() is None,
{
}

/// Opening an application runs the words of its command that are no field
/// codes; one that needs a terminal is run behind `-e` by the terminal's command
/// line, or by `kitty` without one. Opening a window asks for the focus by its
/// address.
pub proof fn opening_runs_or_focuses(e: EntryView, term: Seq<char>)
    ensures
        e matches EntryView::Desktop { command, terminal, .. } ==> {
            let w = command_words(command);
            &&& !terminal || w.len() == 0 ==> window_opened(e, Some(term))
                == WindowOpeningView::Run(w) && window_opened(e, None) == WindowOpeningView::Run(w)
            &&& terminal && w.len() > 0 ==> window_opened(e, None) == WindowOpeningView::Run(
                seq!["kitty"@, "-e"@] + w,
            )
            &&& terminal && w.len() > 0 && words(term, Separator::Whitespace).len() > 0
                ==> window_opened(e, Some(term)) == WindowOpeningView::Run(
                words(term, Separator::Whitespace).push("-e"@) + w,
            )
        },
        e matches EntryView::Window { address, .. } ==> window_opened(e, Some(term))
            == WindowOpeningView::Control(
            seq!["dispatch"@, "focuswindow"@, "address:"@ + address],
        ) && window_opened(e, None) == window_opened(e, Some(term)),
{
    if e is Desktop {
        let command = e->command;
        terminal_runs_the_command(command, term, true);
        let w = command_words(command);
        if w.len() == 0 {
            assert(run_words(command, true, Some(term), true) =~= w);
            assert(run_words(command, true, None, true) =~= w);
        }
    }
}

} // verus!

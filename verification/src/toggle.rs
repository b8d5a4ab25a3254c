//! The launcher that a key toggles: a state and the messages that change it.

use crate::common::{highlight, positions_are_highlighted, span_views, spans, Span, SpanView};
use crate::desktop::{
    append_all, command_words, is_field_code, join_each, parse_exec, slice_text,
};
use crate::fuzzy::{find_skim, skim_of};
use crate::icons::{list_of, list_size_dirs, size_dirs};
use crate::launcher::{entry_views, Entry, EntryView};
use crate::layer_launcher::{focus_args, focus_window_args};
use crate::order::{ints, keys_of, numbers_are_ranked, rank, ranking, ranks};
use crate::path::{join, joined};
use crate::text::{
    chars_of, concat, decimal, decimal_string, is_whitespace, join_texts, joined_by, lowercase,
    same, split, split_chars, string_of, to_lowercase, trim, trim_chars, trim_end, trim_end_chars,
    views, whitespace, words, Separator,
};
use vstd::prelude::*;
use vstd::slice::slice_subrange;

verus! {

/// How many rows are shown.
pub const MAX_SHOWN: usize = 20;

/// How many rows the window is high at most.
pub const MAX_HIGH: usize = 12;

/// How many rows are in view when the list scrolls down.
pub const ROWS_IN_VIEW: usize = 8;

/// The height of a row.
pub const ROW_HEIGHT: usize = 40;

/// The height of the input.
pub const INPUT_HEIGHT: usize = 50;

/// The sizes in which this launcher looks for icons, best first.
pub open spec fn toggle_icon_sizes() -> Seq<Seq<char>> {
    seq!["256x256"@, "128x128"@, "64x64"@, "48x48"@, "32x32"@, "24x24"@, "scalable"@]
}

/// The directories that hold icon themes or loose pictures, best first.
pub open spec fn toggle_icon_bases(home: Option<Seq<char>>, data_dirs: Option<Seq<char>>) -> Seq<
    Seq<char>,
> {
    let own = match home {
        Some(h) => seq![joined(h, ".local/share/icons"@), joined(h, ".icons"@)],
        None => Seq::empty(),
    };
    let shared = match data_dirs {
        Some(d) => d,
        None => "/usr/local/share:/usr/share"@,
    };
    own + split(shared, Separator::Char(':')).map_values(|d: Seq<char>| joined(d, "icons"@)) + seq![
        "/usr/share/pixmaps"@,
    ]
}

/// Lists the directories that hold icon themes or loose pictures. In each of
/// them, the theme directories come before its own files.
pub fn get_icon_dirs(home: Option<&str>, data_dirs: Option<&str>) -> (r: Vec<String>)
    ensures
        views(r@) == toggle_icon_bases(slice_text(home), slice_text(data_dirs)),
{
    let mut r: Vec<String> = Vec::new();
    match home {
        Some(h) => {
            r.push(join(h, ".local/share/icons"));
            r.push(join(h, ".icons"));
        },
        None => {},
    }
    let ghost own = match home {
        Some(h) => seq![joined(h@, ".local/share/icons"@), joined(h@, ".icons"@)],
        None => Seq::empty(),
    };
    assert(views(r@) == own);
    let shared = match data_dirs {
        Some(d) => d,
        None => "/usr/local/share:/usr/share",
    };
    let dirs = split_chars(chars_of(shared).as_slice(), Separator::Char(':'));
    append_all(&mut r, join_each(&dirs, "icons"));
    let ghost most = r@;
    r.push("/usr/share/pixmaps".to_owned());
    assert(views(r@) == views(most) + seq!["/usr/share/pixmaps"@]);
    r
}

/// Lists the theme directories of a base in which icons are looked for, best
/// first.
pub fn base_icon_dirs(base: &str) -> (r: Vec<String>)
    ensures
        views(r@) == size_dirs(joined(base@, "hicolor"@), toggle_icon_sizes()),
{
    let sizes = list_of(
        &["256x256", "128x128", "64x64", "48x48", "32x32", "24x24", "scalable"],
    );
    assert(views(sizes@) == toggle_icon_sizes());
    let theme = join(base, "hicolor");
    list_size_dirs(theme.as_str(), &sizes)
}

/// What happens to the launcher.
pub enum Message {
    QueryChanged(String),
    Submit,
    SelectNext,
    SelectPrev,
    ClearQuery,
    DeleteWord,
    Hide,
    Toggle,
    Show,
    Reset,
}

/// What a message says.
pub enum MessageView {
    QueryChanged(Seq<char>),
    Submit,
    SelectNext,
    SelectPrev,
    ClearQuery,
    DeleteWord,
    Hide,
    Toggle,
    Show,
    Reset,
}

impl View for Message {
    type V = MessageView;

    open spec fn view(&self) -> MessageView {
        match self {
            Message::QueryChanged(q) => MessageView::QueryChanged(q@),
            Message::Submit => MessageView::Submit,
            Message::SelectNext => MessageView::SelectNext,
            Message::SelectPrev => MessageView::SelectPrev,
            Message::ClearQuery => MessageView::ClearQuery,
            Message::DeleteWord => MessageView::DeleteWord,
            Message::Hide => MessageView::Hide,
            Message::Toggle => MessageView::Toggle,
            Message::Show => MessageView::Show,
            Message::Reset => MessageView::Reset,
        }
    }
}

/// What an optional message says.
pub open spec fn message_view(o: Option<Message>) -> Option<MessageView> {
    match o {
        Some(m) => Some(m@),
        None => None,
    }
}

/// A line that another program sent: a request to toggle, show or hide.
pub open spec fn line_message(line: Seq<char>) -> Option<MessageView> {
    let t = trim(line);
    if t == "toggle"@ {
        Some(MessageView::Toggle)
    } else if t == "show"@ {
        Some(MessageView::Show)
    } else if t == "hide"@ {
        Some(MessageView::Hide)
    } else {
        None
    }
}

/// Reads a line that another program sent.
pub fn message_for_line(line: &str) -> (r: Option<Message>)
    ensures
        message_view(r) == line_message(line@),
{
    let c = chars_of(line);
    let t = string_of(trim_chars(c.as_slice()));
    if same(t.as_str(), "toggle") {
        Some(Message::Toggle)
    } else if same(t.as_str(), "show") {
        Some(Message::Show)
    } else if same(t.as_str(), "hide") {
        Some(Message::Hide)
    } else {
        None
    }
}

/// A key as the window system names it.
pub enum PressedKey {
    Escape,
    ArrowDown,
    ArrowUp,
    Enter,
    Character(String),
    Other,
}

/// What a key press means. Letters count with Ctrl, whatever their case.
pub open spec fn key_message(key: PressedKey, ctrl: bool) -> Option<MessageView> {
    match key {
        PressedKey::Escape => Some(MessageView::Hide),
        PressedKey::ArrowDown => Some(MessageView::SelectNext),
        PressedKey::ArrowUp => Some(MessageView::SelectPrev),
        PressedKey::Enter => Some(MessageView::Submit),
        PressedKey::Character(c) => if ctrl {
            let l = lowercase(c@);
            if l == "j"@ || l == "n"@ {
                Some(MessageView::SelectNext)
            } else if l == "k"@ || l == "p"@ {
                Some(MessageView::SelectPrev)
            } else if l == "u"@ {
                Some(MessageView::ClearQuery)
            } else if l == "w"@ {
                Some(MessageView::DeleteWord)
            } else {
                None
            }
        } else {
            None
        },
        PressedKey::Other => None,
    }
}

/// Says what a key press means.
pub fn message_for_key(key: &PressedKey, ctrl: bool) -> (r: Option<Message>)
    ensures
        message_view(r) == key_message(*key, ctrl),
{
    match key {
        PressedKey::Escape => Some(Message::Hide),
        PressedKey::ArrowDown => Some(Message::SelectNext),
        PressedKey::ArrowUp => Some(Message::SelectPrev),
        PressedKey::Enter => Some(Message::Submit),
        PressedKey::Character(c) => {
            if !ctrl {
                return None;
            }
            let low = to_lowercase(c.as_str());
            let l = low.as_str();
            if same(l, "j") || same(l, "n") {
                Some(Message::SelectNext)
            } else if same(l, "k") || same(l, "p") {
                Some(Message::SelectPrev)
            } else if same(l, "u") {
                Some(Message::ClearQuery)
            } else if same(l, "w") {
                Some(Message::DeleteWord)
            } else {
                None
            }
        },
        PressedKey::Other => None,
    }
}

/// What happened to the window.
#[derive(Clone, Copy, PartialEq, Eq, Structural)]
pub enum WindowEvent {
    CloseRequested,
    Unfocused,
    Focused,
    Other,
}

/// Says what an event of the window means.
pub fn message_for_window(event: WindowEvent) -> (r: Option<Message>)
    ensures
        message_view(r) == (match event {
            WindowEvent::CloseRequested => Some(MessageView::Hide),
            WindowEvent::Unfocused => Some(MessageView::Reset),
            WindowEvent::Focused => Some(MessageView::Show),
            WindowEvent::Other => None,
        }),
{
    match event {
        WindowEvent::CloseRequested => Some(Message::Hide),
        WindowEvent::Unfocused => Some(Message::Reset),
        WindowEvent::Focused => Some(Message::Show),
        WindowEvent::Other => None,
    }
}

/// The position after the last white space of a text; zero without any.
pub open spec fn after_space(s: Seq<char>) -> int
    decreases s.len(),
{
    if s.len() == 0 {
        0
    } else if whitespace(s.last()) {
        s.len() as int
    } else {
        after_space(s.drop_last())
    }
}

/// A query without its last word: what stands up to the white space in front of
/// it.
pub open spec fn without_word(query: Seq<char>) -> Seq<char> {
    let t = trim_end(query);
    t.take(after_space(t))
}

/// Takes the last word off a query.
pub fn delete_word(query: &str) -> (r: String)
    ensures
        r@ == without_word(query@),
{
    let c = chars_of(query);
    let t = trim_end_chars(c.as_slice());
    let mut n: usize = t.len();
    assert(t@.take(n as int) == t@);
    while n > 0 && !is_whitespace(t[n - 1])
        invariant
            n <= t@.len(),
            after_space(t@) == after_space(t@.take(n as int)),
        decreases n,
    {
        assert(t@.take(n as int).drop_last() == t@.take(n - 1));
        n = n - 1;
    }
    proof {
        if n > 0 {
            assert(t@.take(n as int).last() == t@[n - 1]);
        }
    }
    let front = slice_subrange(t, 0, n);
    assert(front@ == t@.take(n as int));
    string_of(front)
}

/// What the skim matcher finds of a query in the best of some fields: that with
/// the highest score, the last of them if several have it.
pub open spec fn best_match(fields: Seq<Seq<char>>, query: Seq<char>) -> Option<(i64, Seq<usize>)>
    decreases fields.len(),
{
    if fields.len() == 0 {
        None
    } else {
        let before = best_match(fields.drop_last(), query);
        match (skim_of(fields.last(), query), before) {
            (Some(m), Some(b)) => if m.0 >= b.0 {
                Some(m)
            } else {
                Some(b)
            },
            (Some(m), None) => Some(m),
            (None, b) => b,
        }
    }
}

fn fields_of(e: &Entry) -> (r: Vec<String>)
    ensures
        views(r@) == e@.fields(),
{
    let mut r = e.primary_fields();
    append_all(&mut r, e.secondary_fields());
    r
}

/// A result: the position of an entry, and those of the matched characters.
pub struct Hit {
    pub entry: usize,
    pub positions: Vec<usize>,
}

/// What a result says.
pub struct HitView {
    pub entry: int,
    pub positions: Seq<usize>,
}

impl View for Hit {
    type V = HitView;

    open spec fn view(&self) -> HitView {
        HitView { entry: self.entry as int, positions: self.positions@ }
    }
}

/// What a list of results says.
pub open spec fn hit_views(v: Seq<Hit>) -> Seq<HitView> {
    v.map_values(|h: Hit| h@)
}

/// The entries that a query finds, each with its score.
pub open spec fn found(entries: Seq<EntryView>, query: Seq<char>) -> Seq<(i64, HitView)>
    decreases entries.len(),
{
    if entries.len() == 0 {
        Seq::empty()
    } else {
        let before = found(entries.drop_last(), query);
        match best_match(entries.last().fields(), query) {
            Some(m) => before.push((m.0, HitView { entry: entries.len() - 1, positions: m.1 })),
            None => before,
        }
    }
}

/// The results for a query: all entries, or those that it finds, best first.
pub open spec fn results(entries: Seq<EntryView>, query: Seq<char>) -> Seq<HitView> {
    if query.len() == 0 {
        Seq::new(entries.len(), |i: int| HitView { entry: i, positions: Seq::empty() })
    } else {
        let f = found(entries, query);
        ranking::<i128>(f.map_values(|h: (i64, HitView)| -h.0)).map_values(|i: int| f[i].1)
    }
}

fn find_best(fields: &Vec<String>, query: &str) -> (r: Option<(i64, Vec<usize>)>)
    ensures
        match r {
            Some(m) => best_match(views(fields@), query@) == Some((m.0, m.1@)),
            None => best_match(views(fields@), query@) is None,
        },
{
    let ghost fv = views(fields@);
    let mut best: Option<(i64, Vec<usize>)> = None;
    let mut i: usize = 0;
    while i < fields.len()
        invariant
            i <= fields@.len(),
            fv == views(fields@),
            match best {
                Some(m) => best_match(fv.take(i as int), query@) == Some((m.0, m.1@)),
                None => best_match(fv.take(i as int), query@) is None,
            },
        decreases fields.len() - i,
    {
        proof {
            assert(fv.take(i + 1).drop_last() == fv.take(i as int));
            assert(fv.take(i + 1).last() == fields@[i as int]@);
            assert(fv[i as int] == fields@[i as int]@);
        }
        match find_skim(fields[i].as_str(), query) {
            Some(m) => {
                let better = match &best {
                    Some(b) => m.0 >= b.0,
                    None => true,
                };
                if better {
                    best = Some(m);
                }
            },
            None => {},
        }
        i = i + 1;
    }
    assert(fv.take(fv.len() as int) == fv);
    best
}

/// The scores and results as they are found.
spec fn scored_views(v: Seq<(i64, Hit)>) -> Seq<(i64, HitView)> {
    v.map_values(|p: (i64, Hit)| (p.0, p.1@))
}

fn copy_positions(v: &Vec<usize>) -> (r: Vec<usize>)
    ensures
        r@ == v@,
{
    let mut r: Vec<usize> = Vec::new();
    let mut i: usize = 0;
    while i < v.len()
        invariant
            i <= v@.len(),
            r@ == v@.take(i as int),
        decreases v.len() - i,
    {
        r.push(v[i]);
        assert(v@.take(i + 1) == v@.take(i as int).push(v@[i as int]));
        i = i + 1;
    }
    assert(v@.take(v@.len() as int) == v@);
    r
}

fn find_results(entries: &Vec<Entry>, query: &str) -> (r: Vec<Hit>)
    ensures
        hit_views(r@) == results(entry_views(entries@), query@),
        forall|k: int| 0 <= k < r@.len() ==> (#[trigger] r@[k]).entry < entries@.len(),
{
    let ghost ev = entry_views(entries@);
    let mut r: Vec<Hit> = Vec::new();
    let mut i: usize = 0;
    if query.is_empty() {
        while i < entries.len()
            invariant
                i <= entries@.len(),
                r@.len() == i,
                forall|j: int|
                    0 <= j < i ==> (#[trigger] r@[j]).entry == j && r@[j].positions@.len() == 0,
            decreases entries.len() - i,
        {
            r.push(Hit { entry: i, positions: Vec::new() });
            i = i + 1;
        }
        assert forall|j: int| 0 <= j < r@.len() implies hit_views(r@)[j] == (HitView {
            entry: j,
            positions: Seq::empty(),
        }) by {
            assert(r@[j].positions@ =~= Seq::empty());
        }
        assert(hit_views(r@) =~= results(ev, query@));
        return r;
    }
    let mut scored: Vec<(i64, Hit)> = Vec::new();
    assert(scored_views(scored@) == found(ev.take(0), query@));
    while i < entries.len()
        invariant
            i <= entries@.len(),
            ev == entry_views(entries@),
            scored_views(scored@) == found(ev.take(i as int), query@),
            forall|k: int| 0 <= k < scored@.len() ==> (#[trigger] scored@[k]).1.entry < entries@.len(),
        decreases entries.len() - i,
    {
        proof {
            assert(ev.take(i + 1).drop_last() == ev.take(i as int));
            assert(ev.take(i + 1).last() == entries@[i as int]@);
            assert(ev[i as int] == entries@[i as int]@);
        }
        let fields = fields_of(&entries[i]);
        let ghost head = scored@;
        match find_best(&fields, query) {
            Some(m) => {
                scored.push((m.0, Hit { entry: i, positions: m.1 }));
                assert(scored_views(scored@) == scored_views(head).push(
                    (m.0, HitView { entry: i as int, positions: m.1@ }),
                ));
            },
            None => {},
        }
        i = i + 1;
    }
    assert(ev.take(ev.len() as int) == ev);
    let ghost f = found(ev, query@);
    let mut keys: Vec<i128> = Vec::new();
    let mut k: usize = 0;
    while k < scored.len()
        invariant
            k <= scored@.len(),
            keys@.len() == k,
            forall|j: int| 0 <= j < k ==> #[trigger] keys@[j] as int == -(scored@[j].0 as int),
        decreases scored.len() - k,
    {
        keys.push(-(scored[k].0 as i128));
        k = k + 1;
    }
    let ghost kv = f.map_values(|h: (i64, HitView)| -h.0);
    assert(f == scored_views(scored@));
    assert(keys_of(keys@) =~= kv);
    let order = rank(&keys);
    let ghost ranked = ints(order@);
    let mut n: usize = 0;
    while n < order.len()
        invariant
            n <= order@.len(),
            ranked == ints(order@),
            ranks::<i128>(ranked, kv),
            kv.len() == scored@.len(),
            f == scored_views(scored@),
            forall|k: int| 0 <= k < scored@.len() ==> (#[trigger] scored@[k]).1.entry < entries@.len(),
            r@.len() == n,
            forall|j: int|
                0 <= j < n ==> (#[trigger] r@[j])@ == f[ranked[j]].1 && r@[j].entry < entries@.len(),
        decreases order.len() - n,
    {
        assert(ranked[n as int] == order@[n as int] as int);
        let at: usize = order[n];
        assert(f[at as int] == (scored@[at as int].0, scored@[at as int].1@));
        let h = &scored[at].1;
        r.push(Hit { entry: h.entry, positions: copy_positions(&h.positions) });
        n = n + 1;
    }
    assert(hit_views(r@) =~= results(ev, query@));
    r
}

/// What is left to do after a message.
pub enum Effect {
    /// Runs the compositor's control program.
    Control(Vec<String>),
    /// Runs a program.
    Run(Vec<String>),
    /// Puts the cursor into the input.
    FocusInput,
    /// Scrolls the list so that a row is the topmost.
    Scroll(usize),
}

/// What an effect is.
pub enum EffectView {
    Control(Seq<Seq<char>>),
    Run(Seq<Seq<char>>),
    FocusInput,
    Scroll(int),
}

impl View for Effect {
    type V = EffectView;

    open spec fn view(&self) -> EffectView {
        match self {
            Effect::Control(a) => EffectView::Control(views(a@)),
            Effect::Run(a) => EffectView::Run(views(a@)),
            Effect::FocusInput => EffectView::FocusInput,
            Effect::Scroll(row) => EffectView::Scroll(*row as int),
        }
    }
}

/// What a list of effects is.
pub open spec fn effect_views(v: Seq<Effect>) -> Seq<EffectView> {
    v.map_values(|e: Effect| e@)
}

/// What shows the launcher's workspace, or hides it.
pub open spec fn toggle_workspace() -> EffectView {
    EffectView::Control(seq!["dispatch"@, "togglespecialworkspace"@, "launcher"@])
}

fn workspace_effect() -> (r: Effect)
    ensures
        r@ == toggle_workspace(),
{
    let args = list_of(&["dispatch", "togglespecialworkspace", "launcher"]);
    assert(views(args@) == seq!["dispatch"@, "togglespecialworkspace"@, "launcher"@]);
    Effect::Control(args)
}

/// The height of the window for so many results.
pub open spec fn height_for(results: int) -> int {
    INPUT_HEIGHT + (if results < MAX_HIGH {
        results
    } else {
        MAX_HIGH as int
    }) * ROW_HEIGHT
}

/// What fits the window to so many results.
pub open spec fn resize(results: int) -> EffectView {
    EffectView::Control(
        seq![
            "dispatch"@,
            "resizewindowpixel"@,
            "exact 600 "@ + decimal(height_for(results) as nat) + ",class:launcher"@,
        ],
    )
}

fn resize_effect(results: usize) -> (r: Effect)
    ensures
        r@ == resize(results as int),
{
    let rows: usize = if results < MAX_HIGH {
        results
    } else {
        MAX_HIGH
    };
    let height: usize = INPUT_HEIGHT + rows * ROW_HEIGHT;
    let h = decimal_string(height as u128);
    let a = concat("exact 600 ", h.as_str());
    let mut args: Vec<String> = Vec::new();
    args.push("dispatch".to_owned());
    args.push("resizewindowpixel".to_owned());
    args.push(concat(a.as_str(), ",class:launcher"));
    assert(views(args@) == seq![
        "dispatch"@,
        "resizewindowpixel"@,
        "exact 600 "@ + decimal(height_for(results as int) as nat) + ",class:launcher"@,
    ]);
    Effect::Control(args)
}

/// What opens an entry: an application's command line in a shell of its own, a
/// window by a request to the compositor.
pub open spec fn opening(e: EntryView) -> EffectView {
    match e {
        EntryView::Desktop { command, .. } => EffectView::Run(
            seq!["setsid"@, "-f"@, "sh"@, "-c"@, joined_by(command_words(command), " "@)],
        ),
        EntryView::Window { address, .. } => EffectView::Control(focus_args(address)),
    }
}

/// Says what opens an entry.
pub fn activate(e: &Entry) -> (r: Effect)
    ensures
        r@ == opening(e@),
{
    match e {
        Entry::Desktop { command, .. } => {
            let words = parse_exec(command.as_str());
            let line = join_texts(&words, " ");
            let mut args = list_of(&["setsid", "-f", "sh", "-c"]);
            let ghost front = args@;
            assert(views(front) == seq!["setsid"@, "-f"@, "sh"@, "-c"@]);
            args.push(line);
            assert(views(args@) == seq![
                "setsid"@,
                "-f"@,
                "sh"@,
                "-c"@,
                joined_by(command_words(command@), " "@),
            ]);
            Effect::Run(args)
        },
        Entry::Window { address, .. } => Effect::Control(focus_window_args(address.as_str())),
    }
}

/// The launcher while it runs.
pub struct ToggleLauncher {
    pub query: String,
    pub entries: Vec<Entry>,
    pub filtered: Vec<Hit>,
    pub selected: usize,
    pub visible: bool,
}

/// What the launcher shows.
#[verifier::ext_equal]
pub struct ToggleView {
    pub query: Seq<char>,
    pub entries: Seq<EntryView>,
    pub filtered: Seq<HitView>,
    pub selected: int,
    pub visible: bool,
}

impl View for ToggleLauncher {
    type V = ToggleView;

    open spec fn view(&self) -> ToggleView {
        ToggleView {
            query: self.query@,
            entries: entry_views(self.entries@),
            filtered: hit_views(self.filtered@),
            selected: self.selected as int,
            visible: self.visible,
        }
    }
}

impl ToggleView {
    /// Results are positions of entries.
    pub open spec fn valid(self) -> bool {
        forall|i: int|
            0 <= i < self.filtered.len() ==> 0 <= (#[trigger] self.filtered[i]).entry
                < self.entries.len()
    }

    /// The query that a message leads to, if it searches again.
    pub open spec fn sought(self, m: MessageView) -> Option<Seq<char>> {
        match m {
            MessageView::QueryChanged(q) => Some(q),
            MessageView::ClearQuery => Some(Seq::empty()),
            MessageView::DeleteWord => Some(without_word(self.query)),
            _ => None,
        }
    }

    /// Whether a message makes the launcher appear.
    pub open spec fn appears(self, m: MessageView) -> bool {
        m is Show || (m is Toggle && !self.visible)
    }

    /// Whether a message makes the launcher disappear.
    pub open spec fn disappears(self, m: MessageView) -> bool {
        m is Hide || (m is Toggle && self.visible)
    }

    /// The entry that is selected.
    pub open spec fn selection(self) -> Option<EntryView> {
        if self.selected < self.filtered.len() {
            Some(self.entries[self.filtered[self.selected].entry])
        } else {
            None
        }
    }

    /// The launcher after a message. `fresh` are newly collected entries, which
    /// it takes over when it appears.
    pub open spec fn updated(self, m: MessageView, fresh: Seq<EntryView>) -> ToggleView {
        if self.appears(m) {
            ToggleView {
                query: Seq::empty(),
                entries: fresh,
                filtered: results(fresh, Seq::empty()),
                selected: 0,
                visible: true,
            }
        } else if self.disappears(m) || m is Reset {
            ToggleView { query: Seq::empty(), selected: 0, visible: false, ..self }
        } else {
            match self.sought(m) {
                Some(q) => ToggleView {
                    query: q,
                    filtered: results(self.entries, q),
                    selected: 0,
                    ..self
                },
                None => match m {
                    MessageView::SelectNext => ToggleView {
                        selected: if self.selected + 1 < MAX_SHOWN && self.selected + 1
                            < self.filtered.len() {
                            self.selected + 1
                        } else {
                            self.selected
                        },
                        ..self
                    },
                    MessageView::SelectPrev => ToggleView {
                        selected: if self.selected > 0 {
                            self.selected - 1
                        } else {
                            0
                        },
                        ..self
                    },
                    _ => ToggleView { visible: self.visible && self.selection() is None, ..self },
                },
            }
        }
    }

    /// What is left to do after a message. `next` is the launcher after it.
    pub open spec fn effects(self, m: MessageView, next: ToggleView) -> Seq<EffectView> {
        if self.appears(m) {
            seq![resize(next.filtered.len() as int), EffectView::FocusInput, EffectView::Scroll(0)]
        } else if self.disappears(m) {
            seq![toggle_workspace()]
        } else if self.sought(m) is Some {
            seq![resize(next.filtered.len() as int)]
        } else if m is SelectNext {
            if next.selected >= ROWS_IN_VIEW {
                seq![EffectView::Scroll(next.selected - ROWS_IN_VIEW + 1)]
            } else {
                Seq::empty()
            }
        } else if m is SelectPrev {
            seq![EffectView::Scroll(next.selected)]
        } else if m is Submit && self.selection() is Some {
            seq![toggle_workspace(), opening(self.selection()->0)]
        } else {
            Seq::empty()
        }
    }
}

impl ToggleLauncher {
    /// A hidden launcher over some entries.
    pub fn new(entries: Vec<Entry>) -> (r: ToggleLauncher)
        ensures
            r@.valid(),
            r@ == (ToggleView {
                query: Seq::empty(),
                entries: entry_views(entries@),
                filtered: results(entry_views(entries@), Seq::empty()),
                selected: 0,
                visible: false,
            }),
    {
        let ghost ev = entry_views(entries@);
        let query = String::new();
        assert(query@ == Seq::<char>::empty());
        let filtered = find_results(&entries, query.as_str());
        let r = ToggleLauncher { query, entries, filtered, selected: 0, visible: false };
        assert(r@ =~= (ToggleView {
            query: Seq::empty(),
            entries: ev,
            filtered: results(ev, Seq::empty()),
            selected: 0,
            visible: false,
        }));
        assert forall|i: int| 0 <= i < r@.filtered.len() implies 0 <= (#[trigger] r@.filtered[i]).entry
            < r@.entries.len() by {
            assert(r@.filtered[i] == filtered@[i]@);
        }
        r
    }

    /// Whether a message makes the launcher appear, for which entries have to be
    /// collected first.
    pub fn needs_entries(&self, m: &Message) -> (r: bool)
        ensures
            r == self@.appears(m@),
    {
        match m {
            Message::Show => true,
            Message::Toggle => !self.visible,
            _ => false,
        }
    }

    fn search(&mut self, query: String) -> (r: Effect)
        requires
            old(self)@.valid(),
        ensures
            final(self)@.valid(),
            final(self)@ == (ToggleView {
                query: query@,
                filtered: results(old(self)@.entries, query@),
                selected: 0,
                ..old(self)@
            }),
            r@ == resize(final(self)@.filtered.len() as int),
    {
        let ghost before = self@;
        let ghost q = query@;
        self.filtered = find_results(&self.entries, query.as_str());
        self.query = query;
        self.selected = 0;
        assert(self@ =~= (ToggleView {
            query: q,
            filtered: results(before.entries, q),
            selected: 0,
            ..before
        }));
        assert forall|i: int| 0 <= i < self@.filtered.len() implies 0 <= (
        #[trigger] self@.filtered[i]).entry < self@.entries.len() by {
            assert(self@.filtered[i] == self.filtered@[i]@);
        }
        assert(self@.filtered.len() == self.filtered@.len());
        resize_effect(self.filtered.len())
    }

    fn leave(&mut self)
        ensures
            final(self)@ == (ToggleView {
                query: Seq::empty(),
                selected: 0,
                visible: false,
                ..old(self)@
            }),
    {
        let ghost before = self@;
        self.visible = false;
        self.query = String::new();
        self.selected = 0;
        assert(self.query@ == Seq::<char>::empty());
        assert(self@ =~= (ToggleView {
            query: Seq::empty(),
            selected: 0,
            visible: false,
            ..before
        }));
    }

    /// Carries out a message. `fresh` are newly collected entries, which are
    /// taken over if the launcher appears.
    pub fn update(&mut self, m: Message, fresh: Vec<Entry>) -> (r: Vec<Effect>)
        requires
            old(self)@.valid(),
        ensures
            final(self)@.valid(),
            final(self)@ == old(self)@.updated(m@, entry_views(fresh@)),
            effect_views(r@) == old(self)@.effects(m@, final(self)@),
    {
        let ghost before = self@;
        let ghost mv = m@;
        let ghost fv = entry_views(fresh@);
        let mut r: Vec<Effect> = Vec::new();
        if self.needs_entries(&m) {
            self.visible = true;
            self.entries = fresh;
            self.filtered = Vec::new();
            assert(self@.filtered.len() == 0);
            let query = String::new();
            assert(query@ == Seq::<char>::empty());
            r.push(self.search(query));
            r.push(Effect::FocusInput);
            r.push(Effect::Scroll(0));
            assert(self@ =~= before.updated(mv, fv));
            assert(effect_views(r@) =~= before.effects(mv, self@));
            return r;
        }
        match m {
            Message::Reset => {
                self.leave();
            },
            Message::QueryChanged(q) => {
                r.push(self.search(q));
            },
            Message::ClearQuery => {
                let q = String::new();
                assert(q@ == Seq::<char>::empty());
                r.push(self.search(q));
            },
            Message::DeleteWord => {
                let q = delete_word(self.query.as_str());
                r.push(self.search(q));
            },
            Message::Submit => {
                if self.selected < self.filtered.len() {
                    let h = &self.filtered[self.selected];
                    assert(before.filtered[self.selected as int] == h@);
                    assert(before.entries[h.entry as int] == self.entries@[h.entry as int]@);
                    r.push(workspace_effect());
                    r.push(activate(&self.entries[h.entry]));
                    self.visible = false;
                }
                assert(self@ =~= before.updated(mv, fv));
            },
            Message::SelectNext => {
                let n: usize = if self.filtered.len() < MAX_SHOWN {
                    self.filtered.len()
                } else {
                    MAX_SHOWN
                };
                assert(before.filtered.len() == self.filtered@.len());
                if n > 0 && self.selected < n - 1 {
                    self.selected = self.selected + 1;
                }
                assert(self@ =~= before.updated(mv, fv));
                if self.selected >= ROWS_IN_VIEW {
                    r.push(Effect::Scroll(self.selected - ROWS_IN_VIEW + 1));
                }
            },
            Message::SelectPrev => {
                if self.selected > 0 {
                    self.selected = self.selected - 1;
                }
                assert(self@ =~= before.updated(mv, fv));
                r.push(Effect::Scroll(self.selected));
            },
            Message::Hide => {
                self.leave();
                r.push(workspace_effect());
            },
            Message::Toggle => {
                self.leave();
                r.push(workspace_effect());
            },
            Message::Show => {},
        }
        assert(self@ =~= before.updated(mv, fv));
        assert(effect_views(r@) =~= before.effects(mv, self@));
        r
    }
}

/// A row of the list: a mark in front of windows, and the name with what the
/// query matches highlighted.
pub struct Row {
    pub mark: String,
    pub spans: Vec<Span>,
}

/// The spans of an entry's name.
pub open spec fn row_spans(e: EntryView, query: Seq<char>) -> Seq<SpanView> {
    match skim_of(e.title(), query) {
        Some(m) => if query.len() > 0 {
            spans(e.title(), ints(m.1))
        } else {
            spans(e.title(), Seq::empty())
        },
        None => spans(e.title(), Seq::empty()),
    }
}

/// Makes the row of an entry.
pub fn make_row(e: &Entry, query: &str) -> (r: Row)
    ensures
        r.mark@ == (if e@ is Window {
            "● "@
        } else {
            ""@
        }),
        span_views(r.spans@) == row_spans(e@, query@),
{
    let name = e.title();
    let mark = if e.is_window() {
        "● ".to_owned()
    } else {
        "".to_owned()
    };
    let mut positions: Vec<usize> = Vec::new();
    if !query.is_empty() {
        match find_skim(name, query) {
            Some(m) => {
                positions = m.1;
            },
            None => {},
        }
    }
    proof {
        if positions@.len() == 0 {
            assert(ints(positions@) =~= Seq::<int>::empty());
        }
    }
    let parts = highlight(name, &positions);
    Row { mark, spans: parts }
}

/// Selecting the next row and then the one before leads back, where there is a
/// next row.
pub proof fn next_then_prev(t: ToggleView, fresh: Seq<EntryView>)
    requires
        0 <= t.selected,
        t.selected + 1 < t.filtered.len(),
        t.selected + 1 < MAX_SHOWN,
    ensures
        t.updated(MessageView::SelectNext, fresh).updated(MessageView::SelectPrev, fresh) == t,
{
}

/// Toggling twice leaves the launcher's visibility as it was.
pub proof fn toggle_twice(t: ToggleView, fresh: Seq<EntryView>)
    ensures
        t.updated(MessageView::Toggle, fresh).updated(MessageView::Toggle, fresh).visible
            == t.visible,
{
}

proof fn after_space_fits(s: Seq<char>)
    ensures
        0 <= after_space(s) <= s.len(),
        forall|i: int| after_space(s) <= i < s.len() ==> !whitespace(#[trigger] s[i]),
        after_space(s) > 0 ==> whitespace(s[after_space(s) - 1]),
    decreases s.len(),
{
    if s.len() > 0 && !whitespace(s.last()) {
        after_space_fits(s.drop_last());
        assert forall|i: int| after_space(s) <= i < s.len() implies !whitespace(#[trigger] s[i]) by {
            if i < s.len() - 1 {
                assert(s.drop_last()[i] == s[i]);
            }
        }
    }
}

/// Taking the last word off a query leaves a front of it, which is shorter
/// unless the query is empty, and ends in white space unless it is empty.
pub proof fn word_is_taken_off(query: Seq<char>)
    ensures
        without_word(query).is_prefix_of(query),
        query.len() > 0 ==> without_word(query).len() < query.len(),
        without_word(query).len() > 0 ==> whitespace(without_word(query).last()),
{
    let t = trim_end(query);
    trim_end_is_front(query);
    after_space_fits(t);
    assert(without_word(query) =~= query.take(after_space(t)));
}

proof fn trim_end_is_front(s: Seq<char>)
    ensures
        trim_end(s).is_prefix_of(s),
        trim_end(s).len() > 0 ==> !whitespace(trim_end(s).last()),
    decreases s.len(),
{
    if s.len() > 0 && whitespace(s.last()) {
        trim_end_is_front(s.drop_last());
    }
}

/// Whether the matcher gives a field of a list the highest score, and no later
/// field the same.
pub open spec fn scores_highest(fields: Seq<Seq<char>>, query: Seq<char>, k: int) -> bool {
    &&& 0 <= k < fields.len()
    &&& skim_of(fields[k], query) is Some
    &&& forall|j: int|
        #![trigger fields[j]]
        0 <= j < fields.len() && skim_of(fields[j], query) is Some ==> {
            let s = (skim_of(fields[j], query)->0).0;
            let best = (skim_of(fields[k], query)->0).0;
            s < best || (s == best && j <= k)
        }
}

/// The match of a query in some fields is that of the field with the highest
/// score, the last of them if several have it; there is none exactly if the
/// matcher finds the query in no field.
pub proof fn best_match_is_highest(fields: Seq<Seq<char>>, query: Seq<char>)
    ensures
        best_match(fields, query) is None <==> (forall|k: int|
            0 <= k < fields.len() ==> skim_of(#[trigger] fields[k], query) is None),
        best_match(fields, query) is Some ==> exists|k: int| #[trigger]
            scores_highest(fields, query, k) && skim_of(fields[k], query) == best_match(
                fields,
                query,
            ),
    decreases fields.len(),
{
    if fields.len() > 0 {
        let part = fields.drop_last();
        let n = fields.len() - 1;
        best_match_is_highest(part, query);
        let before = best_match(part, query);
        let last = skim_of(fields[n], query);
        assert(forall|k: int| 0 <= k < n ==> #[trigger] fields[k] == part[k]);
        if before is Some {
            let at = choose|k: int| #[trigger]
                scores_highest(part, query, k) && skim_of(part[k], query) == before;
            assert(fields[at] == part[at]);
            if last is Some && (last->0).0 >= (before->0).0 {
                assert(scores_highest(fields, query, n));
            } else {
                assert(scores_highest(fields, query, at));
            }
        } else {
            assert forall|k: int| 0 <= k < n implies skim_of(#[trigger] fields[k], query) is None by {
                assert(part[k] == fields[k]);
            }
            if last is Some {
                assert(scores_highest(fields, query, n));
            }
        }
    }
}

proof fn found_are_matches(entries: Seq<EntryView>, query: Seq<char>)
    ensures
        forall|k: int|
            #![trigger found(entries, query)[k]]
            0 <= k < found(entries, query).len() ==> {
                let f = found(entries, query)[k];
                &&& 0 <= f.1.entry < entries.len()
                &&& best_match(entries[f.1.entry].fields(), query) == Some((f.0, f.1.positions))
            },
        forall|i: int, j: int|
            0 <= i < j < found(entries, query).len() ==> (#[trigger] found(entries, query)[i]).1.entry
                < (#[trigger] found(entries, query)[j]).1.entry,
        forall|e: int|
            #![trigger entries[e]]
            0 <= e < entries.len() && best_match(entries[e].fields(), query) is Some ==> exists|
                k: int,
            |
                0 <= k < found(entries, query).len() && (#[trigger] found(entries, query)[k]).1.entry
                    == e,
    decreases entries.len(),
{
    if entries.len() > 0 {
        let part = entries.drop_last();
        let n = entries.len() - 1;
        let before = found(part, query);
        let all = found(entries, query);
        found_are_matches(part, query);
        assert(entries[n] == entries.last());
        assert forall|k: int| #![trigger all[k]] 0 <= k < all.len() implies 0 <= all[k].1.entry
            < entries.len() && best_match(entries[all[k].1.entry].fields(), query) == Some(
            (all[k].0, all[k].1.positions),
        ) by {
            if k < before.len() {
                assert(all[k] == before[k]);
                assert(part[before[k].1.entry] == entries[before[k].1.entry]);
            }
        }
        assert forall|i: int, j: int| 0 <= i < j < all.len() implies (#[trigger] all[i]).1.entry < (
        #[trigger] all[j]).1.entry by {
            assert(all[i] == before[i]);
            if j < before.len() {
                assert(all[j] == before[j]);
            }
        }
        assert forall|e: int|
            #![trigger entries[e]]
            0 <= e < entries.len() && best_match(
                entries[e].fields(),
                query,
            ) is Some implies exists|k: int|
            0 <= k < all.len() && (#[trigger] all[k]).1.entry == e by {
            if e < n {
                assert(part[e] == entries[e]);
                let k = choose|k: int| 0 <= k < before.len() && (#[trigger] before[k]).1.entry == e;
                assert(all[k] == before[k]);
            } else {
                assert(all[before.len() as int].1.entry == e);
            }
        }
    }
}

/// The results of a query that is not empty are the entries in some field of
/// which the matcher finds it, each once and with the places of its best match.
/// They come best first: no result has a lower score than one after it, and
/// those of the same score come in the order of the entries.
pub proof fn results_come_best_first(entries: Seq<EntryView>, query: Seq<char>)
    requires
        query.len() > 0,
    ensures
        forall|i: int|
            #![trigger results(entries, query)[i]]
            0 <= i < results(entries, query).len() ==> {
                let h = results(entries, query)[i];
                &&& 0 <= h.entry < entries.len()
                &&& best_match(entries[h.entry].fields(), query) matches Some(m) && m.1
                    == h.positions
            },
        forall|i: int, j: int|
            #![trigger results(entries, query)[i], results(entries, query)[j]]
            0 <= i < j < results(entries, query).len() ==> {
                let (a, b) = (results(entries, query)[i].entry, results(entries, query)[j].entry);
                let s = (best_match(entries[a].fields(), query)->0).0;
                let t = (best_match(entries[b].fields(), query)->0).0;
                s > t || (s == t && a < b)
            },
        forall|e: int|
            #![trigger entries[e]]
            0 <= e < entries.len() && (exists|k: int|
                0 <= k < entries[e].fields().len() && skim_of(
                    #[trigger] entries[e].fields()[k],
                    query,
                ) is Some) ==> exists|i: int|
                0 <= i < results(entries, query).len() && (#[trigger] results(
                    entries,
                    query,
                )[i]).entry == e,
{
    let f = found(entries, query);
    let keys = f.map_values(|h: (i64, HitView)| -h.0);
    let r = ranking::<i128>(keys);
    let all = results(entries, query);
    found_are_matches(entries, query);
    numbers_are_ranked(keys);
    assert forall|i: int| #![trigger all[i]] 0 <= i < all.len() implies 0 <= r[i] < f.len()
        && all[i] == f[r[i]].1 by {
        assert(0 <= r[i] < keys.len());
    }
    assert forall|i: int, j: int| #![trigger all[i], all[j]] 0 <= i < j < all.len() implies ({
        let (a, b) = (all[i].entry, all[j].entry);
        let s = (best_match(entries[a].fields(), query)->0).0;
        let t = (best_match(entries[b].fields(), query)->0).0;
        s > t || (s == t && a < b)
    }) by {
        assert(keys[r[i]] == -f[r[i]].0 && keys[r[j]] == -f[r[j]].0);
        assert(all[i] == f[r[i]].1 && all[j] == f[r[j]].1);
    }
    assert forall|e: int|
        #![trigger entries[e]]
        0 <= e < entries.len() && (exists|k: int|
            0 <= k < entries[e].fields().len() && skim_of(
                #[trigger] entries[e].fields()[k],
                query,
            ) is Some) implies exists|i: int| 0 <= i < all.len() && (#[trigger] all[i]).entry
        == e by {
        best_match_is_highest(entries[e].fields(), query);
        let k = choose|k: int| 0 <= k < f.len() && (#[trigger] f[k]).1.entry == e;
        assert(r.contains(k));
        let i = choose|i: int| 0 <= i < r.len() && r[i] == k;
        assert(all[i] == f[k].1);
    }
}

/// An empty query lists every entry in its place, with nothing marked.
pub proof fn no_query_lists_all(entries: Seq<EntryView>)
    ensures
        results(entries, Seq::empty()).len() == entries.len(),
        forall|i: int|
            #![trigger results(entries, Seq::empty())[i]]
            0 <= i < entries.len() ==> results(entries, Seq::empty())[i].entry == i && results(
                entries,
                Seq::empty(),
            )[i].positions.len() == 0,
{
}

/// What a visible launcher lists are the results of its query among its
/// entries, whatever messages come, and its selection is one of the rows that
/// are shown.
pub proof fn rows_follow_the_query(t: ToggleView, m: MessageView, fresh: Seq<EntryView>)
    requires
        t.visible ==> t.filtered == results(t.entries, t.query),
        0 <= t.selected < MAX_SHOWN,
        t.selected == 0 || t.selected < t.filtered.len(),
    ensures
        t.updated(m, fresh).visible ==> t.updated(m, fresh).filtered == results(
            t.updated(m, fresh).entries,
            t.updated(m, fresh).query,
        ),
        0 <= t.updated(m, fresh).selected < MAX_SHOWN,
        t.updated(m, fresh).selected == 0 || t.updated(m, fresh).selected < t.updated(
            m,
            fresh,
        ).filtered.len(),
        t.updated(m, fresh).entries == t.entries || (t.updated(m, fresh).entries == fresh
            && t.updated(m, fresh).query.len() == 0),
{
}

/// Whatever is typed is the query from there on, and the first row is selected.
pub proof fn typing_seeks(t: ToggleView, q: Seq<char>, fresh: Seq<EntryView>)
    ensures
        t.updated(MessageView::QueryChanged(q), fresh).query == q,
        t.updated(MessageView::QueryChanged(q), fresh).filtered == results(t.entries, q),
        t.updated(MessageView::QueryChanged(q), fresh).selected == 0,
        t.updated(MessageView::QueryChanged(q), fresh).visible == t.visible,
        t.updated(MessageView::QueryChanged(q), fresh).updated(
            MessageView::ClearQuery,
            fresh,
        ).filtered.len() == t.entries.len(),
{
}

/// Submitting opens the entry of the selected row, and nothing else: a window
/// gets the focus by its address, an application is run by a shell with the
/// words of its command that are no field codes. The launcher is hidden after
/// it.
pub proof fn submit_opens_the_selection(t: ToggleView, fresh: Seq<EntryView>)
    requires
        0 <= t.selected < t.filtered.len(),
    ensures
        !t.updated(MessageView::Submit, fresh).visible,
        ({
            let e = t.entries[t.filtered[t.selected].entry];
            let all = t.effects(MessageView::Submit, t.updated(MessageView::Submit, fresh));
            &&& all.len() == 2
            &&& all[0] == EffectView::Control(
                seq!["dispatch"@, "togglespecialworkspace"@, "launcher"@],
            )
            &&& e matches EntryView::Window { address, .. } ==> all[1] == EffectView::Control(
                seq!["dispatch"@, "focuswindow"@, "address:"@ + address],
            )
            &&& e matches EntryView::Desktop { command, .. } ==> (all[1] matches EffectView::Run(
                args,
            ) && args.len() == 5 && args.take(4) == seq!["setsid"@, "-f"@, "sh"@, "-c"@] && args[4]
                == joined_by(
                words(command, Separator::Whitespace).filter(
                    |w: Seq<char>| !(w.len() > 0 && w[0] == '%'),
                ),
                " "@,
            ))
        }),
{
    let e = t.entries[t.filtered[t.selected].entry];
    if e is Desktop {
        let command = e->command;
        let line = joined_by(command_words(command), " "@);
        assert(seq!["setsid"@, "-f"@, "sh"@, "-c"@, line].take(4) =~= seq![
            "setsid"@,
            "-f"@,
            "sh"@,
            "-c"@,
        ]);
        assert((|w: Seq<char>| !is_field_code(w)) =~= (|w: Seq<char>|
            !(w.len() > 0 && w[0] == '%')));
    }
}

/// A launcher that is hidden forgets its query and its selection. Being asked
/// to hide, or toggled while it is visible, gives its workspace back.
pub proof fn hiding_resets(t: ToggleView, fresh: Seq<EntryView>)
    ensures
        ({
            let h = t.updated(MessageView::Hide, fresh);
            !h.visible && h.query.len() == 0 && h.selected == 0 && h.entries == t.entries
        }),
        t.updated(MessageView::Reset, fresh) == t.updated(MessageView::Hide, fresh),
        t.visible ==> t.updated(MessageView::Toggle, fresh) == t.updated(MessageView::Hide, fresh),
        t.effects(MessageView::Hide, t.updated(MessageView::Hide, fresh)) == seq![
            EffectView::Control(seq!["dispatch"@, "togglespecialworkspace"@, "launcher"@]),
        ],
        t.effects(MessageView::Reset, t.updated(MessageView::Reset, fresh)).len() == 0,
        t.visible ==> t.effects(MessageView::Toggle, t.updated(MessageView::Toggle, fresh))
            == t.effects(MessageView::Hide, t.updated(MessageView::Hide, fresh)),
{
}

/// A launcher that is shown lists all entries that were just collected, from the
/// top and without a query, takes the keyboard and has the height for them.
pub proof fn showing_lists_all(t: ToggleView, fresh: Seq<EntryView>)
    ensures
        ({
            let s = t.updated(MessageView::Show, fresh);
            &&& s.visible
            &&& s.query.len() == 0
            &&& s.selected == 0
            &&& s.entries == fresh
            &&& s.filtered.len() == fresh.len()
            &&& forall|i: int| 0 <= i < fresh.len() ==> (#[trigger] s.filtered[i]).entry == i
        }),
        !t.visible ==> t.updated(MessageView::Toggle, fresh) == t.updated(MessageView::Show, fresh),
        t.effects(MessageView::Show, t.updated(MessageView::Show, fresh)) == seq![
            resize(fresh.len() as int),
            EffectView::FocusInput,
            EffectView::Scroll(0),
        ],
{
}

/// The window is as high as its input and a row for each result, up to
/// [`MAX_HIGH`] rows, and 600 wide.
pub proof fn window_grows_by_rows(n: int)
    requires
        n >= 0,
    ensures
        height_for(0) == INPUT_HEIGHT,
        n < MAX_HIGH ==> height_for(n + 1) == height_for(n) + ROW_HEIGHT,
        n >= MAX_HIGH ==> height_for(n + 1) == height_for(n),
        resize(n) == EffectView::Control(
            seq![
                "dispatch"@,
                "resizewindowpixel"@,
                "exact 600 "@ + decimal(height_for(n) as nat) + ",class:launcher"@,
            ],
        ),
{
}

/// Whatever changes the query has the window resized for what it finds.
pub proof fn seeking_resizes(t: ToggleView, q: Seq<char>, fresh: Seq<EntryView>)
    ensures
        t.effects(
            MessageView::QueryChanged(q),
            t.updated(MessageView::QueryChanged(q), fresh),
        ) == seq![resize(results(t.entries, q).len() as int)],
        t.effects(MessageView::ClearQuery, t.updated(MessageView::ClearQuery, fresh)) == seq![
            resize(t.entries.len() as int),
        ],
        t.updated(MessageView::DeleteWord, fresh) == t.updated(
            MessageView::QueryChanged(without_word(t.query)),
            fresh,
        ),
        t.updated(MessageView::ClearQuery, fresh) == t.updated(
            MessageView::QueryChanged(Seq::empty()),
            fresh,
        ),
{
}

/// The list scrolls so that the selected row stays in view: down as far as
/// needed for it to be the last row there, up so that it is the first.
pub proof fn selection_stays_in_view(t: ToggleView, fresh: Seq<EntryView>)
    ensures
        ({
            let n = t.updated(MessageView::SelectNext, fresh);
            let all = t.effects(MessageView::SelectNext, n);
            &&& n.selected < ROWS_IN_VIEW ==> all.len() == 0
            &&& n.selected >= ROWS_IN_VIEW ==> all.len() == 1 && (all[0] matches EffectView::Scroll(
                top,
            ) && top + ROWS_IN_VIEW == n.selected + 1)
        }),
        ({
            let p = t.updated(MessageView::SelectPrev, fresh);
            t.effects(MessageView::SelectPrev, p) == seq![EffectView::Scroll(p.selected)]
        }),
{
}

/// A line is understood whatever white space stands around its word, and any
/// other word is not.
pub proof fn words_are_understood(line: Seq<char>)
    ensures
        trim(line) == "toggle"@ ==> line_message(line) == Some(MessageView::Toggle),
        trim(line) == "show"@ ==> line_message(line) == Some(MessageView::Show),
        trim(line) == "hide"@ ==> line_message(line) == Some(MessageView::Hide),
        trim(line) != "toggle"@ && trim(line) != "show"@ && trim(line) != "hide"@
            ==> line_message(line) is None,
{
    reveal_strlit("toggle");
    reveal_strlit("show");
    reveal_strlit("hide");
    assert("show"@[0] == 's' && "hide"@[0] == 'h' && "toggle"@[0] == 't');
}

/// With Ctrl the letters J and N select the next row as the arrow does, K and P
/// the one before, U clears the query and W takes its last word off, whatever
/// their case. Without Ctrl letters mean nothing.
pub proof fn letters_act_with_ctrl(c: PressedKey, ctrl: bool)
    ensures
        c matches PressedKey::Character(s) ==> {
            &&& !ctrl ==> key_message(c, ctrl) is None
            &&& ctrl && (lowercase(s@) == "j"@ || lowercase(s@) == "n"@) ==> key_message(c, ctrl)
                == key_message(PressedKey::ArrowDown, ctrl)
            &&& ctrl && (lowercase(s@) == "k"@ || lowercase(s@) == "p"@) ==> key_message(c, ctrl)
                == key_message(PressedKey::ArrowUp, ctrl)
            &&& ctrl && lowercase(s@) == "u"@ ==> key_message(c, ctrl) == Some(
                MessageView::ClearQuery,
            )
            &&& ctrl && lowercase(s@) == "w"@ ==> key_message(c, ctrl) == Some(
                MessageView::DeleteWord,
            )
        },
        key_message(PressedKey::ArrowDown, ctrl) == Some(MessageView::SelectNext),
        key_message(PressedKey::ArrowUp, ctrl) == Some(MessageView::SelectPrev),
        key_message(PressedKey::Enter, ctrl) == Some(MessageView::Submit),
        key_message(PressedKey::Escape, ctrl) == Some(MessageView::Hide),
        key_message(PressedKey::Other, ctrl) is None,
{
    reveal_strlit("j");
    reveal_strlit("n");
    reveal_strlit("k");
    reveal_strlit("p");
    reveal_strlit("u");
    reveal_strlit("w");
    assert("j"@[0] == 'j' && "n"@[0] == 'n' && "k"@[0] == 'k' && "p"@[0] == 'p' && "u"@[0] == 'u'
        && "w"@[0] == 'w');
}

/// A row highlights the characters of its name that the matcher found, and none
/// without a query or a match.
pub proof fn rows_highlight_the_match(e: EntryView, query: Seq<char>)
    ensures
        query.len() > 0 && skim_of(e.title(), query) is Some ==> row_spans(e, query).filter(
            |s: SpanView| s.highlighted,
        ).map_values(|s: SpanView| s.text) == ints((skim_of(e.title(), query)->0).1).map_values(
            |p: int| seq![e.title()[p]],
        ),
        query.len() == 0 || skim_of(e.title(), query) is None ==> row_spans(e, query).filter(
            |s: SpanView| s.highlighted,
        ).len() == 0,
{
    let none = Seq::<int>::empty();
    let lit = |s: SpanView| s.highlighted;
    let plain = spans(e.title(), none).filter(lit);
    positions_are_highlighted(e.title(), none);
    assert(plain.map_values(|s: SpanView| s.text).len() == plain.len());
    assert(none.map_values(|p: int| seq![e.title()[p]]).len() == 0);
    if skim_of(e.title(), query) is Some {
        positions_are_highlighted(e.title(), ints((skim_of(e.title(), query)->0).1));
    }
}

/// The user's own icons come before the shared ones, in the order of the data
/// directories, and loose pictures last.
pub proof fn own_icons_come_first(home: Seq<char>, data_dirs: Seq<char>, i: int)
    ensures
        ({
            let all = toggle_icon_bases(Some(home), Some(data_dirs));
            let shared = split(data_dirs, Separator::Char(':'));
            &&& all.len() == shared.len() + 3
            &&& all[0] == joined(home, ".local/share/icons"@)
            &&& all[1] == joined(home, ".icons"@)
            &&& 0 <= i < shared.len() ==> all[i + 2] == joined(shared[i], "icons"@)
            &&& all.last() == "/usr/share/pixmaps"@
            &&& toggle_icon_bases(None, Some(data_dirs)) == all.skip(2)
        }),
        toggle_icon_bases(Some(home), None) == toggle_icon_bases(
            Some(home),
            Some("/usr/local/share:/usr/share"@),
        ),
{
    let all = toggle_icon_bases(Some(home), Some(data_dirs));
    assert(toggle_icon_bases(None, Some(data_dirs)) =~= all.skip(2));
}

} // verus!

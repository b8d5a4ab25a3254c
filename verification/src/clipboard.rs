//! The clipboard overlay: its rows, what is typed, what is pasted and deleted.

use crate::clip::db::{
    id_at, limited, listing_descends, meta, mime_is, newer, newest_first, row_views, rows_are_found,
    ClipboardDb, Entry as DbEntry, Row, Table,
};
use crate::common::{
    clip_display_line, display_line, highlight_query, landing, mime_base, query_offsets,
    should_show_mime_label, span_views, spans, Span,
};
use crate::desktop::copy_text;
use crate::keyfile::text_of;
use crate::keys::{any_pressed, was_pressed, Key, KeyEvent};
use crate::order::{all_below, ints};
use crate::picture::{read_size, size_in};
use crate::search::{find_rows, texts_of, Searchable};
use crate::text::{
    chars_of, concat, contains, decimal, decimal_string, from_utf8_lossy, join_texts, joined_by,
    lossy, lowercase, starts_with, string_of, trim, trim_chars, views,
};
use crate::time::{ago, compact, compact_time_at, relative_time_at};
use vstd::prelude::*;
use vstd::slice::slice_to_vec;

verus! {

/// How many entries of the history are shown at most.
pub const MAX_LISTED: i64 = 500;

/// An entry of the clipboard history as the overlay holds it. The bytes of
/// pictures are not held.
pub struct Entry {
    pub id: i64,
    pub content: Vec<u8>,
    pub text: String,
    pub mime: String,
    pub source_app: Option<String>,
    pub last_used: i64,
    pub is_image: bool,
    pub dims: Option<(u32, u32)>,
}

/// What an entry shows.
#[verifier::ext_equal]
pub struct EntryView {
    pub id: int,
    pub content: Seq<u8>,
    pub text: Seq<char>,
    pub mime: Seq<char>,
    pub source_app: Option<Seq<char>>,
    pub last_used: int,
    pub is_image: bool,
    pub dims: Option<(u32, u32)>,
}

impl View for Entry {
    type V = EntryView;

    open spec fn view(&self) -> EntryView {
        EntryView {
            id: self.id as int,
            content: self.content@,
            text: self.text@,
            mime: self.mime@,
            source_app: text_of(self.source_app),
            last_used: self.last_used as int,
            is_image: self.is_image,
            dims: self.dims,
        }
    }
}

/// What a list of entries shows.
pub open spec fn entry_views(v: Seq<Entry>) -> Seq<EntryView> {
    v.map_values(|e: Entry| e@)
}

/// Whether a mime type is that of a picture.
pub open spec fn is_image(mime: Seq<char>) -> bool {
    "image/"@.is_prefix_of(mime)
}

/// Whether a mime type is that of a picture.
pub fn is_image_mime(mime: &str) -> (r: bool)
    ensures
        r == is_image(mime@),
{
    starts_with(mime, "image/")
}

/// The overlay's entry for a row of the history: of a picture its dimensions,
/// of anything else its text and its bytes.
pub open spec fn shown(r: Row) -> EntryView {
    let image = is_image(r.mime);
    EntryView {
        id: r.id,
        content: if image {
            Seq::empty()
        } else {
            r.content
        },
        text: if image {
            Seq::empty()
        } else {
            lossy(r.content)
        },
        mime: r.mime,
        source_app: r.source_app,
        last_used: r.last_used,
        is_image: image,
        dims: if image {
            match size_in(r.content) {
                Some(s) => Some((s.0 as u32, s.1 as u32)),
                None => None,
            }
        } else {
            None
        },
    }
}

fn show(e: &DbEntry) -> (r: Entry)
    ensures
        r@ == shown(e@),
{
    let image = is_image_mime(e.mime.as_str());
    let text = if image {
        String::new()
    } else {
        from_utf8_lossy(e.content.as_slice())
    };
    let dims = if image {
        match read_size(e.content.as_slice()) {
            Some(s) => Some((s.0 as u32, s.1 as u32)),
            None => None,
        }
    } else {
        None
    };
    let content: Vec<u8> = if image {
        Vec::new()
    } else {
        slice_to_vec(e.content.as_slice())
    };
    let r = Entry {
        id: e.id,
        content,
        text,
        mime: e.mime.clone(),
        source_app: copy_text(&e.source_app),
        last_used: e.last_used,
        is_image: image,
        dims,
    };
    assert(r@ =~= shown(e@));
    r
}

/// Makes the overlay's entries for rows of the history.
pub fn convert_rows(rows: &Vec<DbEntry>) -> (r: Vec<Entry>)
    ensures
        entry_views(r@) == row_views(rows@).map_values(|r: Row| shown(r)),
{
    let mut r: Vec<Entry> = Vec::new();
    let mut i: usize = 0;
    while i < rows.len()
        invariant
            i <= rows@.len(),
            r@.len() == i,
            forall|j: int| 0 <= j < i ==> (#[trigger] r@[j])@ == shown(rows@[j]@),
        decreases rows.len() - i,
    {
        r.push(show(&rows[i]));
        i = i + 1;
    }
    assert(entry_views(r@) =~= row_views(rows@).map_values(|r: Row| shown(r)));
    r
}

impl Searchable for Entry {
    open spec fn searched(self) -> Option<Seq<char>> {
        self@.searched()
    }

    fn search_text(&self) -> (r: Option<&str>) {
        if self.is_image {
            None
        } else {
            Some(self.text.as_str())
        }
    }
}

impl EntryView {
    /// The text by which an entry is found; a picture has none.
    pub open spec fn searched(self) -> Option<Seq<char>> {
        if self.is_image {
            None
        } else {
            Some(self.text)
        }
    }
}

/// The positions of the entries that are listed for a query.
pub open spec fn rows_for(entries: Seq<EntryView>, query: Seq<char>) -> Seq<int> {
    crate::search::rows_for(entries.map_values(|e: EntryView| e.searched()), query)
}

/// How far the pictures of an entry are.
#[derive(Clone, Copy, PartialEq, Eq, Structural)]
pub enum Texture {
    Missing,
    Loaded,
    Failed,
}

/// The overlay while it runs.
pub struct Clipboard {
    pub query: String,
    pub entries: Vec<Entry>,
    pub display: Vec<usize>,
    pub selected: usize,
    pub should_hide: bool,
    pub loaded: bool,
    /// How far the pictures of each entry are.
    pub textures: Vec<Texture>,
    /// The entry whose pictures were asked for last.
    pub last_ensured: Option<usize>,
    /// The row whose deletion is shown.
    pub deleting: Option<usize>,
    /// Whether the focused row has to be brought into view.
    pub scroll_pending: bool,
    pub last_selected: usize,
}

/// What the overlay shows.
#[verifier::ext_equal]
pub struct ClipboardView {
    pub query: Seq<char>,
    pub entries: Seq<EntryView>,
    pub display: Seq<int>,
    pub selected: int,
    pub should_hide: bool,
    pub loaded: bool,
    pub textures: Seq<Texture>,
    pub last_ensured: Option<usize>,
    pub deleting: Option<usize>,
    pub scroll_pending: bool,
    pub last_selected: int,
}

impl View for Clipboard {
    type V = ClipboardView;

    open spec fn view(&self) -> ClipboardView {
        ClipboardView {
            query: self.query@,
            entries: entry_views(self.entries@),
            display: ints(self.display@),
            selected: self.selected as int,
            should_hide: self.should_hide,
            loaded: self.loaded,
            textures: self.textures@,
            last_ensured: self.last_ensured,
            deleting: self.deleting,
            scroll_pending: self.scroll_pending,
            last_selected: self.last_selected as int,
        }
    }
}

impl ClipboardView {
    /// Rows are positions of entries, and each entry's pictures are accounted
    /// for.
    pub open spec fn valid(self) -> bool {
        &&& self.textures.len() == self.entries.len()
        &&& all_below(self.display, self.entries.len() as int)
    }

    /// The entry of the selected row.
    pub open spec fn selected_entry(self) -> Option<int> {
        if self.selected < self.display.len() {
            Some(self.display[self.selected])
        } else {
            None
        }
    }

    /// The overlay after the keys that move the selection.
    pub open spec fn moved(self, down: bool, up: bool) -> ClipboardView {
        let below = if down && self.selected + 1 < self.display.len() {
            self.selected + 1
        } else {
            self.selected
        };
        let above = if up && below > 0 {
            below - 1
        } else {
            below
        };
        ClipboardView { selected: above, ..self }
    }

    /// What pasting the selected entry takes, given the rows of the history;
    /// nothing without a selection, or for a picture that is gone.
    pub open spec fn paste(self, rows: Seq<Row>) -> Option<PasteView> {
        match self.selected_entry() {
            None => None,
            Some(i) => {
                let e = self.entries[i];
                let at = id_at(rows, e.id);
                if e.is_image {
                    if at < rows.len() {
                        Some(
                            PasteView {
                                id: e.id,
                                args: seq!["--type"@, e.mime],
                                content: rows[at].content,
                            },
                        )
                    } else {
                        None
                    }
                } else {
                    Some(PasteView { id: e.id, args: Seq::empty(), content: e.content })
                }
            },
        }
    }

    /// The overlay once the deletion of the selected row was asked for.
    pub open spec fn doomed(self) -> ClipboardView {
        if self.deleting is None {
            ClipboardView { deleting: Some(self.selected as usize), ..self }
        } else {
            self
        }
    }

    /// The entry whose pictures the selected row lacks, if it was not asked for
    /// last.
    pub open spec fn wanted(self) -> Option<usize> {
        match self.selected_entry() {
            Some(i) => if self.last_ensured != Some(i as usize) && self.entries[i].is_image
                && self.textures[i] == Texture::Missing {
                Some(i as usize)
            } else {
                None
            },
            None => None,
        }
    }

    /// The overlay once the pictures of the selected row were asked for.
    pub open spec fn ensured(self) -> ClipboardView {
        match self.selected_entry() {
            Some(i) => ClipboardView { last_ensured: Some(i as usize), ..self },
            None => self,
        }
    }

    /// The overlay over other entries, with the selection as far down as it was
    /// if the list reaches there. No picture is loaded yet.
    pub open spec fn reloaded(self, entries: Seq<EntryView>) -> ClipboardView {
        let display = rows_for(entries, self.query);
        let last = if display.len() > 0 {
            display.len() - 1
        } else {
            0
        };
        ClipboardView {
            entries,
            display,
            selected: if self.selected < last {
                self.selected
            } else {
                last
            },
            loaded: true,
            textures: Seq::new(entries.len(), |i: int| Texture::Missing),
            last_ensured: None,
            ..self
        }
    }

    /// The overlay with the rows for its query, the first one selected.
    pub open spec fn filtered(self) -> ClipboardView {
        ClipboardView { display: rows_for(self.entries, self.query), selected: 0, ..self }
    }
}

/// What pasting an entry takes.
pub struct Paste {
    pub id: i64,
    /// The arguments for the program that owns the clipboard.
    pub args: Vec<String>,
    /// The bytes to hand over.
    pub content: Vec<u8>,
}

/// What a paste holds.
#[verifier::ext_equal]
pub struct PasteView {
    pub id: int,
    pub args: Seq<Seq<char>>,
    pub content: Seq<u8>,
}

impl View for Paste {
    type V = PasteView;

    open spec fn view(&self) -> PasteView {
        PasteView { id: self.id as int, args: views(self.args@), content: self.content@ }
    }
}

/// What an optional paste holds.
pub open spec fn paste_view(o: Option<Paste>) -> Option<PasteView> {
    match o {
        Some(p) => Some(p@),
        None => None,
    }
}

/// What is left to do for a frame.
pub enum Step {
    /// Paste, if there is anything to paste, and draw nothing.
    Paste(Option<Paste>),
    /// Load the pictures of the entry, if any is given, and draw.
    Draw { pictures: Option<usize> },
}

/// The entries that the overlay shows of a history.
pub open spec fn listed(rows: Seq<Row>) -> Seq<EntryView> {
    limited(newest_first(rows), MAX_LISTED as int).map_values(|r: Row| meta(r)).map_values(
        |r: Row| shown(r),
    )
}

/// What the keys of a frame ask of the overlay.
#[derive(Clone, Copy, PartialEq, Eq, Structural)]
pub struct Request {
    pub activate: bool,
    pub delete: bool,
}

impl Clipboard {
    /// An overlay that has nothing to show yet.
    pub fn new() -> (r: Clipboard)
        ensures
            r@ == (ClipboardView {
                query: Seq::empty(),
                entries: Seq::empty(),
                display: Seq::empty(),
                selected: 0,
                should_hide: false,
                loaded: false,
                textures: Seq::empty(),
                last_ensured: None,
                deleting: None,
                scroll_pending: false,
                last_selected: 0,
            }),
            r@.valid(),
    {
        let r = Clipboard {
            query: String::new(),
            entries: Vec::new(),
            display: Vec::new(),
            selected: 0,
            should_hide: false,
            loaded: false,
            textures: Vec::new(),
            last_ensured: None,
            deleting: None,
            scroll_pending: false,
            last_selected: 0,
        };
        assert(r@ =~= (ClipboardView {
            query: Seq::empty(),
            entries: Seq::empty(),
            display: Seq::empty(),
            selected: 0,
            should_hide: false,
            loaded: false,
            textures: Seq::empty(),
            last_ensured: None,
            deleting: None,
            scroll_pending: false,
            last_selected: 0,
        }));
        r
    }

    /// The entry of the selected row.
    pub fn selected_entry_idx(&self) -> (r: Option<usize>)
        requires
            self@.valid(),
        ensures
            r is Some <==> self@.selected_entry() is Some,
            r matches Some(i) ==> Some(i as int) == self@.selected_entry() && i < self@.entries.len(),
    {
        if self.selected < self.display.len() {
            let i: usize = self.display[self.selected];
            assert(self@.display[self.selected as int] == i);
            Some(i)
        } else {
            None
        }
    }

    /// The next row, or the same at the end of the list.
    pub fn nav_next(&self) -> (r: usize)
        ensures
            r == (if self@.selected + 1 < self@.display.len() {
                self@.selected + 1
            } else {
                self@.selected
            }),
    {
        let n: usize = self.display.len();
        assert(self@.display.len() == n);
        if self.selected < n && self.selected + 1 < n {
            self.selected + 1
        } else {
            self.selected
        }
    }

    /// The row before, or the first one.
    pub fn nav_prev(&self) -> (r: usize)
        ensures
            r == (if self@.selected > 0 {
                self@.selected - 1
            } else {
                0
            }),
    {
        if self.selected > 0 {
            self.selected - 1
        } else {
            0
        }
    }

    /// Lists the rows for the query and selects the first one.
    pub fn filter(&mut self)
        requires
            old(self)@.valid(),
        ensures
            final(self)@.valid(),
            final(self)@ == old(self)@.filtered(),
    {
        let ghost before = self@;
        assert(texts_of(self.entries@) == before.entries.map_values(|e: EntryView| e.searched()));
        self.display = find_rows(&self.entries, self.query.as_str());
        self.selected = 0;
        assert(self@ =~= before.filtered());
    }

    /// Takes over the rows of the history, keeping the selection as far down as
    /// it was if the list reaches there. No picture is loaded yet.
    pub fn load_entries(&mut self, rows: &Vec<DbEntry>)
        ensures
            final(self)@.valid(),
            final(self)@ == old(self)@.reloaded(
                row_views(rows@).map_values(|r: Row| shown(r)),
            ),
    {
        let ghost before = self@;
        let old_selected: usize = self.selected;
        self.entries = convert_rows(rows);
        let n: usize = self.entries.len();
        let mut textures: Vec<Texture> = Vec::new();
        let mut i: usize = 0;
        while i < n
            invariant
                i <= n,
                textures@.len() == i,
                forall|j: int| 0 <= j < i ==> #[trigger] textures@[j] == Texture::Missing,
            decreases n - i,
        {
            textures.push(Texture::Missing);
            i = i + 1;
        }
        self.textures = textures;
        self.last_ensured = None;
        self.display = Vec::new();
        assert(self@.entries.len() == n);
        self.filter();
        let m: usize = self.display.len();
        assert(self@.display.len() == m);
        let last: usize = if m > 0 {
            m - 1
        } else {
            0
        };
        self.selected = if old_selected < last {
            old_selected
        } else {
            last
        };
        self.loaded = true;
        assert(self@.textures =~= Seq::new(self@.entries.len(), |i: int| Texture::Missing));
        assert(self@ =~= before.reloaded(self@.entries));
    }

    /// Takes over the newest rows of the history.
    pub fn reload(&mut self, db: &ClipboardDb)
        ensures
            final(self)@.valid(),
            final(self)@ == old(self)@.reloaded(listed(db@.rows)),
    {
        let rows = db.list_meta(MAX_LISTED);
        self.load_entries(&rows);
    }

    /// Whether the history has to be read before the next frame: it was not yet
    /// read, or it was changed since.
    pub fn needs_load(&self, changed: bool) -> (r: bool)
        ensures
            r == (!self@.loaded || changed),
    {
        !self.loaded || changed
    }

    /// Whether a query found nothing.
    pub fn shows_empty_state(&self) -> (r: bool)
        ensures
            r == (self@.display.len() == 0 && self@.query.len() > 0),
    {
        assert(self@.display.len() == self.display@.len());
        self.display.len() == 0 && !self.query.as_str().is_empty()
    }

    /// Reads the keys of a frame: Escape hides, Enter or Ctrl+C pastes, Delete
    /// or Ctrl+D deletes.
    pub fn on_keys(&mut self, events: &Vec<KeyEvent>) -> (r: Request)
        ensures
            r.activate == (any_pressed(events@, Key::Enter, false) || any_pressed(
                events@,
                Key::C,
                true,
            )),
            r.delete == (any_pressed(events@, Key::Delete, false) || any_pressed(
                events@,
                Key::D,
                true,
            )),
            final(self)@ == (ClipboardView {
                should_hide: old(self)@.should_hide || any_pressed(events@, Key::Escape, false),
                ..old(self)@
            }),
    {
        let ghost before = self@;
        if was_pressed(events, Key::Escape, false) {
            self.should_hide = true;
        }
        assert(self@ =~= (ClipboardView {
            should_hide: before.should_hide || any_pressed(events@, Key::Escape, false),
            ..before
        }));
        let enter = was_pressed(events, Key::Enter, false);
        let copy = was_pressed(events, Key::C, true);
        let del = was_pressed(events, Key::Delete, false);
        let ctrl_d = was_pressed(events, Key::D, true);
        Request { activate: enter || copy, delete: del || ctrl_d }
    }

    /// Moves the selection.
    pub fn navigate(&mut self, down: bool, up: bool)
        ensures
            final(self)@ == old(self)@.moved(down, up),
    {
        let ghost before = self@;
        if down {
            self.selected = self.nav_next();
        }
        if up {
            self.selected = self.nav_prev();
        }
        assert(self@ =~= before.moved(down, up));
    }

    /// Says what pasting the selected entry takes. The bytes of a picture are
    /// read from the history.
    pub fn activate(&self, db: &ClipboardDb) -> (r: Option<Paste>)
        requires
            self@.valid(),
        ensures
            paste_view(r) == self@.paste(db@.rows),
    {
        match self.selected_entry_idx() {
            None => None,
            Some(i) => {
                assert(self@.entries[i as int] == self.entries@[i as int]@);
                let e = &self.entries[i];
                let mut args: Vec<String> = Vec::new();
                let content = if e.is_image {
                    args.push("--type".to_owned());
                    args.push(e.mime.clone());
                    assert(views(args@) == seq!["--type"@, e.mime@]);
                    match db.get(e.id) {
                        Some(row) => row.content,
                        None => {
                            return None;
                        },
                    }
                } else {
                    assert(views(args@) == Seq::<Seq<char>>::empty());
                    slice_to_vec(e.content.as_slice())
                };
                Some(Paste { id: e.id, args, content })
            },
        }
    }

    /// Asks to be hidden once an entry was pasted.
    pub fn pasted(&mut self)
        ensures
            final(self)@ == (ClipboardView { should_hide: true, ..old(self)@ }),
    {
        let ghost before = self@;
        self.should_hide = true;
        assert(self@ =~= (ClipboardView { should_hide: true, ..before }));
    }

    /// Begins to show the deletion of the selected row, unless one is shown.
    pub fn begin_delete(&mut self)
        ensures
            final(self)@ == old(self)@.doomed(),
    {
        let ghost before = self@;
        if self.deleting.is_none() {
            self.deleting = Some(self.selected);
        }
        assert(self@ =~= before.doomed());
    }

    /// Ends a deletion: the entry of the row that is selected now leaves the
    /// history, which is then read again. Without a selection nothing leaves.
    pub fn finish_delete(&mut self, db: &mut ClipboardDb)
        requires
            old(self)@.valid(),
            old(db)@.valid(),
        ensures
            final(self)@.valid(),
            final(db)@.valid(),
            final(db)@.last_id == old(db)@.last_id,
            ({
                let t = ClipboardView { deleting: None, ..old(self)@ };
                match t.selected_entry() {
                    Some(i) => {
                        let id = t.entries[i].id;
                        &&& final(db)@.rows == old(db)@.rows.filter(|r: Row| r.id != id)
                        &&& final(self)@ == t.reloaded(listed(final(db)@.rows))
                    },
                    None => final(db)@ == old(db)@ && final(self)@ == t,
                }
            }),
    {
        let ghost before = self@;
        self.deleting = None;
        assert(self@ =~= (ClipboardView { deleting: None, ..before }));
        match self.selected_entry_idx() {
            None => {},
            Some(i) => {
                assert(self@.entries[i as int] == self.entries@[i as int]@);
                let id: i64 = self.entries[i].id;
                let ghost kept = |r: Row| r.id != id;
                let ghost kept_by_view = |r: Row| r.id != before.entries[i as int].id;
                assert(kept =~= kept_by_view);
                db.delete(id);
                self.reload(&*db);
            },
        }
    }

    /// Whether a row is the one whose deletion is shown.
    pub fn is_deleting(&self, row: usize) -> (r: bool)
        ensures
            r == (self@.deleting == Some(row)),
    {
        match self.deleting {
            Some(d) => d == row,
            None => false,
        }
    }

    /// Says whose pictures have to be loaded for the selected row: those of a
    /// picture that has none and has not failed, if it was not asked for last.
    pub fn ensure_texture(&mut self) -> (r: Option<usize>)
        requires
            old(self)@.valid(),
        ensures
            final(self)@.valid(),
            final(self)@ == old(self)@.ensured(),
            r == old(self)@.wanted(),
    {
        let ghost before = self@;
        match self.selected_entry_idx() {
            None => None,
            Some(i) => {
                assert(before.entries[i as int] == self.entries@[i as int]@);
                let again = match self.last_ensured {
                    Some(k) => k == i,
                    None => false,
                };
                let wanted = !again && self.entries[i].is_image && self.textures[i]
                    == Texture::Missing;
                self.last_ensured = Some(i);
                assert(self@ =~= before.ensured());
                if wanted {
                    Some(i)
                } else {
                    None
                }
            },
        }
    }

    /// Carries out what the keys of a frame ask for: the selection moves, then
    /// its entry is pasted, or else its deletion begins. Whose pictures the
    /// selected row then lacks is said with it.
    pub fn step(&mut self, request: Request, down: bool, up: bool, db: &ClipboardDb) -> (r: Step)
        requires
            old(self)@.valid(),
        ensures
            final(self)@.valid(),
            ({
                let t = old(self)@.moved(down, up);
                let d = if request.delete {
                    t.doomed()
                } else {
                    t
                };
                if request.activate {
                    &&& r matches Step::Paste(p) && paste_view(p) == t.paste(db@.rows)
                    &&& final(self)@ == (ClipboardView {
                        should_hide: t.should_hide || t.paste(db@.rows) is Some,
                        ..t
                    })
                } else {
                    &&& r matches Step::Draw { pictures } && pictures == d.wanted()
                    &&& final(self)@ == d.ensured()
                }
            }),
    {
        self.navigate(down, up);
        if request.activate {
            let p = self.activate(db);
            let ghost t = self@;
            if p.is_some() {
                self.pasted();
            }
            assert(self@ =~= (ClipboardView {
                should_hide: t.should_hide || p is Some,
                ..t
            }));
            return Step::Paste(p);
        }
        if request.delete {
            self.begin_delete();
        }
        let pictures = self.ensure_texture();
        Step::Draw { pictures }
    }

    /// Notes whether the pictures of an entry were loaded. A row grows with its
    /// picture, so it has to be brought into view again.
    pub fn texture_done(&mut self, i: usize, ok: bool)
        requires
            old(self)@.valid(),
            i < old(self)@.entries.len(),
        ensures
            final(self)@.valid(),
            final(self)@ == (ClipboardView {
                textures: old(self)@.textures.update(
                    i as int,
                    if ok {
                        Texture::Loaded
                    } else {
                        Texture::Failed
                    },
                ),
                scroll_pending: old(self)@.scroll_pending || ok,
                ..old(self)@
            }),
    {
        let ghost before = self@;
        let state = if ok {
            Texture::Loaded
        } else {
            Texture::Failed
        };
        self.textures.set(i, state);
        if ok {
            self.scroll_pending = true;
        }
        assert(self@ =~= (ClipboardView {
            textures: before.textures.update(i as int, state),
            scroll_pending: before.scroll_pending || ok,
            ..before
        }));
    }

    /// Whether the focused row is brought into view in this frame: the keys
    /// moved, the selection changed otherwise, or a picture was loaded.
    pub fn take_scroll(&mut self, moved: bool) -> (r: bool)
        ensures
            r == (moved || old(self)@.scroll_pending || old(self)@.selected
                != old(self)@.last_selected),
            final(self)@ == (ClipboardView {
                scroll_pending: false,
                last_selected: old(self)@.selected,
                ..old(self)@
            }),
    {
        let ghost before = self@;
        let changed = self.selected != self.last_selected;
        let r = moved || self.scroll_pending || changed;
        self.last_selected = self.selected;
        self.scroll_pending = false;
        assert(self@ =~= (ClipboardView {
            scroll_pending: false,
            last_selected: before.selected,
            ..before
        }));
        r
    }

    /// Selects a row that was clicked.
    pub fn select(&mut self, row: usize)
        ensures
            final(self)@ == (ClipboardView { selected: row as int, ..old(self)@ }),
    {
        let ghost before = self@;
        self.selected = row;
        assert(self@ =~= (ClipboardView { selected: row as int, ..before }));
    }

    /// Resets transient state when the overlay is dismissed. No picture stays
    /// loaded.
    pub fn hide_and_reset(&mut self)
        requires
            old(self)@.valid(),
        ensures
            final(self)@.valid(),
            final(self)@ == (ClipboardView {
                query: Seq::empty(),
                should_hide: false,
                loaded: false,
                last_ensured: None,
                textures: Seq::new(old(self)@.entries.len(), |i: int| Texture::Missing),
                ..old(self)@
            }).filtered(),
    {
        let ghost before = self@;
        self.query = String::new();
        self.should_hide = false;
        self.loaded = false;
        self.last_ensured = None;
        let n: usize = self.textures.len();
        let mut textures: Vec<Texture> = Vec::new();
        let mut i: usize = 0;
        while i < n
            invariant
                i <= n,
                textures@.len() == i,
                forall|j: int| 0 <= j < i ==> #[trigger] textures@[j] == Texture::Missing,
            decreases n - i,
        {
            textures.push(Texture::Missing);
            i = i + 1;
        }
        self.textures = textures;
        assert(self.query@ == Seq::<char>::empty());
        assert(self@.textures =~= Seq::new(before.entries.len(), |i: int| Texture::Missing));
        let ghost reset = ClipboardView {
            query: Seq::empty(),
            should_hide: false,
            loaded: false,
            last_ensured: None,
            textures: Seq::new(before.entries.len(), |i: int| Texture::Missing),
            ..before
        };
        assert(self@ =~= reset);
        self.filter();
    }
}

/// Dimensions in words.
pub open spec fn dims_text(d: (u32, u32)) -> Seq<char> {
    decimal(d.0 as nat) + "×"@ + decimal(d.1 as nat)
}

fn write_dims(d: (u32, u32)) -> (r: String)
    ensures
        r@ == dims_text(d),
{
    let w = decimal_string(d.0 as u128);
    let a = concat(w.as_str(), "×");
    let h = decimal_string(d.1 as u128);
    concat(a.as_str(), h.as_str())
}

/// The label of a picture: its dimensions where they are known.
pub open spec fn label_text(dims: Option<(u32, u32)>) -> Seq<char> {
    match dims {
        Some(d) => dims_text(d),
        None => "image"@,
    }
}

/// Writes the label of a picture.
pub fn image_label(dims: Option<(u32, u32)>) -> (r: String)
    ensures
        r@ == label_text(dims),
{
    match dims {
        Some(d) => write_dims(d),
        None => "image".to_owned(),
    }
}

/// Whether a mime type is worth showing.
pub open spec fn tells(mime: Seq<char>) -> bool {
    let base = mime_base(mime);
    !(base == "text/plain"@ || base == "image/png"@ || base == "image/jpeg"@ || base
        == "text/uri-list"@)
}

/// The parts of the metadata line: dimensions of a picture, a mime type that
/// tells something, the application, how long ago.
pub open spec fn metadata(e: EntryView, now: int) -> Seq<Seq<char>> {
    (if e.is_image && e.dims is Some {
        seq![dims_text(e.dims->0)]
    } else {
        Seq::empty()
    }) + (if tells(e.mime) {
        seq![e.mime]
    } else {
        Seq::empty()
    }) + (match e.source_app {
        Some(a) => seq![a],
        None => Seq::empty(),
    }) + seq![ago(now - e.last_used)]
}

/// Writes the metadata line of the focused row.
pub fn metadata_line(e: &Entry, now: i64) -> (r: String)
    ensures
        r@ == joined_by(metadata(e@, now as int), "  ·  "@),
{
    let mut parts: Vec<String> = Vec::new();
    if e.is_image {
        match e.dims {
            Some(d) => {
                parts.push(write_dims(d));
            },
            None => {},
        }
    }
    let ghost a: Seq<Seq<char>> = if e.is_image && e.dims is Some {
        seq![dims_text(e.dims->0)]
    } else {
        Seq::empty()
    };
    assert(views(parts@) == a);
    if should_show_mime_label(e.mime.as_str()) {
        parts.push(e.mime.clone());
    }
    let ghost b: Seq<Seq<char>> = if tells(e.mime@) {
        seq![e.mime@]
    } else {
        Seq::empty()
    };
    assert(views(parts@) == a + b);
    match &e.source_app {
        Some(app) => {
            parts.push(app.clone());
        },
        None => {},
    }
    let ghost c: Seq<Seq<char>> = match e@.source_app {
        Some(app) => seq![app],
        None => Seq::empty(),
    };
    assert(views(parts@) == a + b + c);
    parts.push(relative_time_at(now, e.last_used));
    assert(views(parts@) == metadata(e@, now as int));
    join_texts(&parts, "  ·  ")
}

/// What a row shows of its entry.
pub enum RowModel {
    /// The picture itself, and its metadata line.
    PictureCard { metadata: String },
    /// The whole text, and its metadata line.
    TextCard { text: String, metadata: String },
    /// A small picture, its label and its time.
    PictureLine { label: String, time: String },
    /// The text on one line, what the query picks highlighted, and its time.
    TextLine { spans: Vec<Span>, time: String },
}

/// Makes the row of an entry: a card for the focused one, a line for any other.
/// None for a line of text in which the query picks bytes that are no
/// characters (see [`highlight_query`]).
pub fn row_model(e: &Entry, focused: bool, query: &str, now: i64) -> (r: Option<RowModel>)
    ensures
        ({
            let line = display_line(e@.text);
            let at = landing(line, query_offsets(line, query@));
            let meta = joined_by(metadata(e@, now as int), "  ·  "@);
            let when = compact(now as int, e@.last_used);
            if focused && e@.is_image {
                r matches Some(RowModel::PictureCard { metadata }) && metadata@ == meta
            } else if focused {
                r matches Some(RowModel::TextCard { text, metadata }) && metadata@ == meta && text@
                    == trim(e@.text)
            } else if e@.is_image {
                r matches Some(RowModel::PictureLine { label, time }) && time@ == when && label@
                    == label_text(e@.dims)
            } else {
                match at {
                    Some(p) => r matches Some(RowModel::TextLine { spans: s, time }) && time@ == when
                        && span_views(s@) == spans(line, p),
                    None => r is None,
                }
            }
        }),
{
    if focused {
        let meta = metadata_line(e, now);
        if e.is_image {
            return Some(RowModel::PictureCard { metadata: meta });
        }
        return Some(RowModel::TextCard { text: expanded_text(e.text.as_str()), metadata: meta });
    }
    let time = compact_time_at(now, e.last_used);
    if e.is_image {
        return Some(RowModel::PictureLine { label: image_label(e.dims), time });
    }
    let line = clip_display_line(e.text.as_str());
    match highlight_query(line.as_str(), query) {
        Some(s) => Some(RowModel::TextLine { spans: s, time }),
        None => None,
    }
}

/// The text of an expanded row: without white space around it.
pub fn expanded_text(text: &str) -> (r: String)
    ensures
        r@ == trim(text@),
{
    let all = chars_of(text);
    string_of(trim_chars(all.as_slice()))
}

/// The entry of a row keeps its id, mime type, application and last use. Text
/// keeps its bytes, a picture shows no text and holds no bytes.
pub proof fn entries_keep_their_rows(r: Row)
    ensures
        shown(r).id == r.id,
        shown(r).mime == r.mime,
        shown(r).source_app == r.source_app,
        shown(r).last_used == r.last_used,
        shown(r).is_image == "image/"@.is_prefix_of(r.mime),
        !"image/"@.is_prefix_of(r.mime) ==> shown(r).content == r.content && shown(r).text == lossy(
            r.content,
        ) && shown(r).dims is None,
        "image/"@.is_prefix_of(r.mime) ==> shown(r).content.len() == 0 && shown(r).text.len() == 0
            && (shown(r).dims is Some <==> size_in(r.content) is Some),
{
}

/// A query that is not empty lists the first entries with a text that holds it,
/// whatever the case, and no picture. An entry whose text holds it is left out
/// only where the rows are full and all come before it.
pub proof fn rows_hold_the_query(entries: Seq<EntryView>, query: Seq<char>, i: int)
    requires
        lowercase(query).len() > 0,
        0 <= i < entries.len(),
    ensures
        rows_for(entries, query).contains(i) ==> !entries[i].is_image && contains(
            lowercase(entries[i].text),
            lowercase(query),
        ),
        !entries[i].is_image && contains(lowercase(entries[i].text), lowercase(query)) && !rows_for(
            entries,
            query,
        ).contains(i) ==> rows_for(entries, query).len() == 50 && forall|k: int|
            0 <= k < rows_for(entries, query).len() ==> #[trigger] rows_for(entries, query)[k] < i,
        forall|j: int, k: int|
            0 <= j < k < rows_for(entries, query).len() ==> #[trigger] rows_for(entries, query)[j]
                < #[trigger] rows_for(entries, query)[k],
{
    let texts = entries.map_values(|e: EntryView| e.searched());
    assert(texts[i] == entries[i].searched());
    crate::search::rows_hold_the_query(texts, query, i);
}

/// The overlay shows the rows of the history, the newer ones first, at most five
/// hundred of them.
pub proof fn newest_rows_are_shown(t: Table)
    requires
        t.valid(),
    ensures
        listed(t.rows).len() == (if t.rows.len() < 500 {
            t.rows.len() as int
        } else {
            500
        }),
        forall|i: int|
            #![trigger listed(t.rows)[i]]
            0 <= i < listed(t.rows).len() ==> exists|k: int|
                0 <= k < t.rows.len() && #[trigger] t.rows[k] == newest_first(t.rows)[i] && listed(
                    t.rows,
                )[i].id == t.rows[k].id,
        forall|i: int, j: int|
            #![trigger listed(t.rows)[i], listed(t.rows)[j]]
            0 <= i < j < listed(t.rows).len() ==> {
                let (a, b) = (listed(t.rows)[i], listed(t.rows)[j]);
                a.last_used > b.last_used || (a.last_used == b.last_used && a.id > b.id)
            },
{
    let all = newest_first(t.rows);
    let some = listed(t.rows);
    listing_descends(t);
    assert forall|i: int| #![trigger some[i]] 0 <= i < some.len() implies some[i] == shown(
        meta(all[i]),
    ) by {}
    assert forall|i: int| #![trigger some[i]] 0 <= i < some.len() implies exists|k: int|
        0 <= k < t.rows.len() && #[trigger] t.rows[k] == all[i] && some[i].id == t.rows[k].id by {
        assert(all.contains(all[i]));
        assert(t.rows.contains(all[i]));
        let k = choose|k: int| 0 <= k < t.rows.len() && t.rows[k] == all[i];
        assert(some[i] == shown(meta(all[i])));
        assert(t.rows[k] == all[i]);
    }
    assert forall|i: int, j: int| #![trigger some[i], some[j]] 0 <= i < j < some.len() implies ({
        let (a, b) = (some[i], some[j]);
        a.last_used > b.last_used || (a.last_used == b.last_used && a.id > b.id)
    }) by {
        assert(newer(all[i], all[j]));
        assert(some[i] == shown(meta(all[i])) && some[j] == shown(meta(all[j])));
    }
}

/// Pasting gives back what was copied: the bytes of the row of the history that
/// the selected entry shows, and for a picture its mime type. Left out are rows
/// whose mime type is that of a picture but for its case.
pub proof fn paste_gives_back_the_row(c: ClipboardView, t: Table)
    requires
        t.valid(),
        c.valid(),
        c.entries == listed(t.rows),
        0 <= c.selected < c.display.len(),
        forall|k: int|
            0 <= k < t.rows.len() && mime_is((#[trigger] t.rows[k]).mime, "image/"@) ==> is_image(
                t.rows[k].mime,
            ),
    ensures
        exists|k: int|
            0 <= k < t.rows.len() && (#[trigger] t.rows[k]).id
                == c.entries[c.display[c.selected]].id && (c.paste(t.rows) matches Some(p) && p.id
                == t.rows[k].id && p.content == t.rows[k].content && p.args == (
            if "image/"@.is_prefix_of(t.rows[k].mime) {
                seq!["--type"@, t.rows[k].mime]
            } else {
                Seq::empty()
            })),
{
    let i = c.display[c.selected];
    let all = newest_first(t.rows);
    listing_descends(t);
    assert(0 <= i < c.entries.len());
    assert(all.contains(all[i]));
    assert(t.rows.contains(all[i]));
    let k = choose|k: int| 0 <= k < t.rows.len() && t.rows[k] == all[i];
    let r = t.rows[k];
    let e = c.entries[i];
    assert(e == shown(meta(r)));
    rows_are_found(t, k);
    if !is_image(r.mime) {
        assert(!mime_is(r.mime, "image/"@));
        assert(meta(r) == r);
    }
}

/// Moving the selection goes by one row and stays in the list.
pub proof fn selection_stays_in_the_list(c: ClipboardView, down: bool, up: bool)
    requires
        0 <= c.selected < c.display.len(),
    ensures
        0 <= c.moved(down, up).selected < c.display.len(),
        down && !up && c.selected + 1 < c.display.len() ==> c.moved(down, up).selected == c.selected
            + 1,
        up && !down && c.selected > 0 ==> c.moved(down, up).selected == c.selected - 1,
        !up && !down ==> c.moved(down, up) == c,
        c.moved(down, up).display == c.display,
{
}

/// Reading the history again keeps the selection where it is as long as the list
/// reaches there, and inside the list.
pub proof fn reload_keeps_the_selection(c: ClipboardView, entries: Seq<EntryView>)
    requires
        0 <= c.selected,
    ensures
        c.selected < c.reloaded(entries).display.len() ==> c.reloaded(entries).selected
            == c.selected,
        c.reloaded(entries).display.len() > 0 ==> 0 <= c.reloaded(entries).selected < c.reloaded(
            entries,
        ).display.len(),
        c.reloaded(entries).query == c.query,
        c.reloaded(entries).display == rows_for(entries, c.query),
{
}

/// Pictures are asked for exactly where the selected row is a picture that has
/// none and has not failed, and not twice in a row.
pub proof fn pictures_are_asked_for_once(c: ClipboardView)
    requires
        c.valid(),
        0 <= c.selected < c.display.len(),
        c.entries.len() <= usize::MAX,
    ensures
        c.ensured().wanted() is None,
        c.wanted() matches Some(i) ==> i == c.display[c.selected] && c.entries[i as int].is_image
            && c.textures[i as int] == Texture::Missing,
        c.last_ensured is None && c.entries[c.display[c.selected]].is_image
            && c.textures[c.display[c.selected]] == Texture::Missing ==> c.wanted() is Some,
{
}

/// The metadata line ends with how long ago the entry was used, and names its
/// application where it is known and a mime type that says something.
pub proof fn metadata_tells_what_is_known(e: EntryView, now: int)
    ensures
        metadata(e, now).last() == ago(now - e.last_used),
        e.source_app matches Some(a) ==> metadata(e, now).contains(a),
        tells(e.mime) ==> metadata(e, now).contains(e.mime),
        e.is_image && e.dims is Some ==> metadata(e, now)[0] == decimal((e.dims->0).0 as nat)
            + "×"@ + decimal((e.dims->0).1 as nat),
{
    let all = metadata(e, now);
    let n = all.len() as int;
    let a: int = if e.is_image && e.dims is Some {
        1
    } else {
        0
    };
    if tells(e.mime) {
        assert(all[a] == e.mime);
    }
    if e.source_app is Some {
        assert(all[n - 2] == e.source_app->0);
    }
}

/// A deletion is shown for the selected row, and another does not begin before
/// it ended.
pub proof fn one_deletion_at_a_time(c: ClipboardView)
    ensures
        c.deleting is None && 0 <= c.selected <= usize::MAX ==> (c.doomed().deleting matches Some(d)
            && d == c.selected),
        c.deleting is Some ==> c.doomed() == c,
        c.doomed().doomed() == c.doomed(),
        c.doomed().entries == c.entries && c.doomed().selected == c.selected,
{
}

/// The types of plain text, of the two common kinds of pictures and of lists of
/// addresses are not worth showing, with parameters or without; any other is.
pub proof fn common_types_are_not_told(mime: Seq<char>)
    ensures
        tells(mime) <==> !(mime_base(mime) == "text/plain"@ || mime_base(mime) == "image/png"@
            || mime_base(mime) == "image/jpeg"@ || mime_base(mime) == "text/uri-list"@),
{
}

/// A picture is labelled by its width and height where they are known.
pub proof fn pictures_are_labelled_by_size(w: u32, h: u32)
    ensures
        label_text(Some((w, h))) == decimal(w as nat) + "×"@ + decimal(h as nat),
        label_text(None) == "image"@,
{
}

/// The dimensions of a picture are those that its header gives.
pub proof fn dimensions_come_from_the_header(r: Row, w: usize, h: usize)
    requires
        "image/"@.is_prefix_of(r.mime),
        size_in(r.content) == Some((w, h)),
        w <= u32::MAX,
        h <= u32::MAX,
    ensures
        shown(r).dims matches Some(d) && d.0 == w && d.1 == h,
{
}

/// No picture counts as loaded after the history was read again.
pub proof fn reload_forgets_pictures(c: ClipboardView, entries: Seq<EntryView>)
    ensures
        c.reloaded(entries).entries == entries,
        c.reloaded(entries).loaded,
        c.reloaded(entries).textures.len() == entries.len(),
        forall|i: int|
            0 <= i < entries.len() ==> #[trigger] c.reloaded(entries).textures[i]
                == Texture::Missing,
        c.reloaded(entries).last_ensured is None,
        c.filtered().selected == 0,
        c.filtered().display == rows_for(c.entries, c.query),
{
}

} // verus!

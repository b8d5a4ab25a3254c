//! Desktop entries: what an application file offers, its icon, where to look for both.

use crate::icon_index::{lookup, IconIndex};
use crate::keyfile::{
    find_first, find_first_items, find_last, find_last_items, first_at, first_items,
    first_items_are_first, first_value, first_value_is_first, flag, is_set, last_at, last_items,
    last_value, last_value_is_last, parse_settings, setting_views, settings, text_of, Setting,
    SettingView,
};
use crate::order::{
    ahead, ints, keys_of, rank, ranking, ranking_exists, ranks, texts_are_ranked,
};
use crate::path::{absolute, extension, extension_of, file_name, is_absolute, join, joined};
use crate::text::{
    chars_of, concat, lowercase, order_is_total, precedes, same, split, split_chars, to_lowercase,
    views, word_is_its_own, words, words_of, Separator,
};
use vstd::hash_set::StringHashSet;
use vstd::prelude::*;

verus! {

/// Icon reference: either an absolute path or a theme name to look up.
pub enum Icon {
    Path(String),
    Name(String),
}

/// What an icon reference says.
pub enum IconView {
    Path(Seq<char>),
    Name(Seq<char>),
}

impl View for Icon {
    type V = IconView;

    open spec fn view(&self) -> IconView {
        match self {
            Icon::Path(p) => IconView::Path(p@),
            Icon::Name(n) => IconView::Name(n@),
        }
    }
}

/// The icon reference that an `Icon` value stands for.
pub open spec fn icon_from(value: Seq<char>) -> IconView {
    if absolute(value) {
        IconView::Path(value)
    } else {
        IconView::Name(value)
    }
}

impl IconView {
    /// The file that an icon reference leads to: a path to itself if it is
    /// there, a theme name to what the index holds under its lower-case form.
    pub open spec fn resolved(self, index: Map<Seq<char>, Seq<char>>, exists: bool) -> Option<
        Seq<char>,
    > {
        match self {
            IconView::Path(p) => if exists {
                Some(p)
            } else {
                None
            },
            IconView::Name(n) => lookup(index, lowercase(n)),
        }
    }
}

impl Icon {
    /// Reads the value of an `Icon` key.
    pub fn from_value(s: &str) -> (r: Icon)
        ensures
            r@ == icon_from(s@),
    {
        if is_absolute(s) {
            Icon::Path(s.to_owned())
        } else {
            Icon::Name(s.to_owned())
        }
    }

    /// Resolves to a file path, using the icon index for theme names. `exists`
    /// says whether the file of a path reference is there.
    pub fn resolve(&self, icon_index: &IconIndex, exists: bool) -> (r: Option<String>)
        ensures
            text_of(r) == self@.resolved(icon_index@, exists),
    {
        match self {
            Icon::Path(p) => if exists {
                Some(p.clone())
            } else {
                None
            },
            Icon::Name(name) => {
                let key = to_lowercase(name.as_str());
                icon_index.get(key.as_str())
            },
        }
    }

    /// The same icon reference once more.
    pub fn copy(&self) -> (r: Icon)
        ensures
            r@ == self@,
    {
        match self {
            Icon::Path(p) => Icon::Path(p.clone()),
            Icon::Name(n) => Icon::Name(n.clone()),
        }
    }
}

/// An entry that can be launched.
pub struct DesktopEntry {
    pub name: String,
    pub generic_name: Option<String>,
    pub command: String,
    pub terminal: bool,
    pub icon: Option<Icon>,
    pub keywords: Vec<String>,
    pub wm_class: Option<String>,
}

/// What a desktop entry says.
#[verifier::ext_equal]
pub struct DesktopEntryView {
    pub name: Seq<char>,
    pub generic_name: Option<Seq<char>>,
    pub command: Seq<char>,
    pub terminal: bool,
    pub icon: Option<IconView>,
    pub keywords: Seq<Seq<char>>,
    pub wm_class: Option<Seq<char>>,
}

/// What an optional icon reference says.
pub open spec fn icon_view(o: Option<Icon>) -> Option<IconView> {
    match o {
        Some(i) => Some(i@),
        None => None,
    }
}

impl View for DesktopEntry {
    type V = DesktopEntryView;

    open spec fn view(&self) -> DesktopEntryView {
        DesktopEntryView {
            name: self.name@,
            generic_name: text_of(self.generic_name),
            command: self.command@,
            terminal: self.terminal,
            icon: icon_view(self.icon),
            keywords: views(self.keywords@),
            wm_class: text_of(self.wm_class),
        }
    }
}

/// What a list of desktop entries says.
pub open spec fn entry_views(v: Seq<DesktopEntry>) -> Seq<DesktopEntryView> {
    v.map_values(|e: DesktopEntry| e@)
}

/// The section of the application itself.
pub open spec fn main_section() -> Seq<char> {
    "Desktop Entry"@
}

/// The section of one of the application's actions.
pub open spec fn action_section(id: Seq<char>) -> Seq<char> {
    "Desktop Action "@ + id
}

/// A name to show and a command line to run.
pub struct Launch {
    pub name: String,
    pub command: String,
    pub is_action: bool,
}

/// What a launch says.
pub struct LaunchView {
    pub name: Seq<char>,
    pub command: Seq<char>,
    pub is_action: bool,
}

impl View for Launch {
    type V = LaunchView;

    open spec fn view(&self) -> LaunchView {
        LaunchView { name: self.name@, command: self.command@, is_action: self.is_action }
    }
}

/// What a list of launches says.
pub open spec fn launch_views(v: Seq<Launch>) -> Seq<LaunchView> {
    v.map_values(|l: Launch| l@)
}

/// Whether an application asks not to be listed.
pub open spec fn unlisted(all: Seq<SettingView>) -> bool {
    is_set(all, main_section(), "NoDisplay"@) || is_set(all, main_section(), "Hidden"@)
}

/// The launch of the application itself, if it has a name and a command.
pub open spec fn main_launch(all: Seq<SettingView>) -> Seq<LaunchView> {
    match (
        first_value(all, main_section(), "Name"@),
        last_value(all, main_section(), "Exec"@),
    ) {
        (Some(name), Some(command)) => seq![LaunchView { name, command, is_action: false }],
        _ => Seq::empty(),
    }
}

/// The name under which an action is shown: the application's in front of it,
/// if it has one.
pub open spec fn action_name(app: Option<Seq<char>>, action: Seq<char>) -> Seq<char> {
    match app {
        Some(a) => a + ": "@ + action,
        None => action,
    }
}

/// The launch of an action, if it has a name and a command.
pub open spec fn action_launch(all: Seq<SettingView>, id: Seq<char>) -> Seq<LaunchView> {
    match (
        last_value(all, action_section(id), "Name"@),
        last_value(all, action_section(id), "Exec"@),
    ) {
        (Some(name), Some(command)) => seq![
            LaunchView {
                name: action_name(first_value(all, main_section(), "Name"@), name),
                command,
                is_action: true,
            },
        ],
        _ => Seq::empty(),
    }
}

/// The launches of the listed actions, in order.
pub open spec fn action_launches(all: Seq<SettingView>, ids: Seq<Seq<char>>) -> Seq<LaunchView>
    decreases ids.len(),
{
    if ids.len() == 0 {
        Seq::empty()
    } else {
        action_launches(all, ids.drop_last()) + action_launch(all, ids.last())
    }
}

/// The launches that an application file offers: the application, then its
/// actions in the order in which it lists them.
pub open spec fn launches(all: Seq<SettingView>) -> Seq<LaunchView> {
    if unlisted(all) {
        Seq::empty()
    } else {
        main_launch(all) + action_launches(
            all,
            last_items(all, main_section(), "Actions"@),
        )
    }
}

/// Reads the launches that an application file offers.
pub fn find_launches(all: &Vec<Setting>) -> (r: Vec<Launch>)
    ensures
        launch_views(r@) == launches(setting_views(all@)),
{
    let ghost av = setting_views(all@);
    let mut r: Vec<Launch> = Vec::new();
    if flag(all, "Desktop Entry", "NoDisplay") || flag(all, "Desktop Entry", "Hidden") {
        assert(launch_views(r@) == Seq::<LaunchView>::empty());
        return r;
    }
    let main_name = find_first(all, "Desktop Entry", "Name");
    let main_command = find_last(all, "Desktop Entry", "Exec");
    match (&main_name, main_command) {
        (Some(name), Some(command)) => {
            r.push(Launch { name: name.clone(), command, is_action: false });
        },
        _ => {},
    }
    assert(launch_views(r@) == main_launch(av));
    let ids = find_last_items(all, "Desktop Entry", "Actions");
    let ghost idv = views(ids@);
    let mut i: usize = 0;
    assert(launch_views(r@) == main_launch(av) + action_launches(av, idv.take(0)));
    while i < ids.len()
        invariant
            i <= ids.len(),
            av == setting_views(all@),
            idv == views(ids@),
            text_of(main_name) == first_value(av, main_section(), "Name"@),
            launch_views(r@) == main_launch(av) + action_launches(av, idv.take(i as int)),
        decreases ids.len() - i,
    {
        let ghost head = r@;
        let ghost id = idv[i as int];
        proof {
            assert(idv.take(i + 1).drop_last() == idv.take(i as int));
            assert(idv.take(i + 1).last() == id);
        }
        let section = concat("Desktop Action ", ids[i].as_str());
        assert(section@ == action_section(id));
        match (find_last(all, section.as_str(), "Name"), find_last(all, section.as_str(), "Exec")) {
            (Some(name), Some(command)) => {
                let shown = match &main_name {
                    Some(app) => {
                        let front = concat(app.as_str(), ": ");
                        concat(front.as_str(), name.as_str())
                    },
                    None => name,
                };
                r.push(Launch { name: shown, command, is_action: true });
                assert(launch_views(r@) == launch_views(head).push(r@.last()@));
                assert(launch_views(r@) == launch_views(head) + action_launch(av, id));
            },
            _ => {
                assert(action_launch(av, id) == Seq::<LaunchView>::empty());
                assert(launch_views(r@) == launch_views(head) + action_launch(av, id));
            },
        }
        assert(action_launches(av, idv.take(i + 1)) == action_launches(av, idv.take(i as int))
            + action_launch(av, id));
        assert(main_launch(av) + action_launches(av, idv.take(i as int)) + action_launch(av, id)
            == main_launch(av) + action_launches(av, idv.take(i + 1)));
        i = i + 1;
    }
    assert(idv.take(idv.len() as int) == idv);
    r
}

/// Which of several lines of keywords counts.
#[derive(Clone, Copy, PartialEq, Eq, Structural)]
pub enum Keywords {
    First,
    Last,
}

/// The keywords of an application.
pub open spec fn keywords_in(all: Seq<SettingView>, which: Keywords) -> Seq<Seq<char>> {
    match which {
        Keywords::First => first_items(all, main_section(), "Keywords"@),
        Keywords::Last => last_items(all, main_section(), "Keywords"@),
    }
}

/// The entry for a launch. Actions share the application's icon and terminal
/// flag but not its search metadata.
pub open spec fn entry_for(all: Seq<SettingView>, l: LaunchView, which: Keywords) -> DesktopEntryView {
    DesktopEntryView {
        name: l.name,
        generic_name: if l.is_action {
            None
        } else {
            first_value(all, main_section(), "GenericName"@)
        },
        command: l.command,
        terminal: is_set(all, main_section(), "Terminal"@),
        icon: match last_value(all, main_section(), "Icon"@) {
            Some(v) => Some(icon_from(v)),
            None => None,
        },
        keywords: if l.is_action {
            Seq::empty()
        } else {
            keywords_in(all, which)
        },
        wm_class: if l.is_action {
            None
        } else {
            last_value(all, main_section(), "StartupWMClass"@)
        },
    }
}

/// The entries that an application file offers.
pub open spec fn desktop_entries(content: Seq<char>, which: Keywords) -> Seq<DesktopEntryView> {
    let all = settings(content);
    launches(all).map_values(|l: LaunchView| entry_for(all, l, which))
}

/// Reads the entries that an application file offers.
pub fn parse_desktop_file(content: &str, which: Keywords) -> (r: Vec<DesktopEntry>)
    ensures
        entry_views(r@) == desktop_entries(content@, which),
{
    let all = parse_settings(content);
    let ghost av = settings(content@);
    let found = find_launches(&all);
    let generic_name = find_first(&all, "Desktop Entry", "GenericName");
    let icon_value = find_last(&all, "Desktop Entry", "Icon");
    let keywords = match which {
        Keywords::First => find_first_items(&all, "Desktop Entry", "Keywords"),
        Keywords::Last => find_last_items(&all, "Desktop Entry", "Keywords"),
    };
    let wm_class = find_last(&all, "Desktop Entry", "StartupWMClass");
    let terminal = flag(&all, "Desktop Entry", "Terminal");
    let mut r: Vec<DesktopEntry> = Vec::new();
    let mut i: usize = 0;
    while i < found.len()
        invariant
            i <= found.len(),
            launch_views(found@) == launches(av),
            text_of(generic_name) == first_value(av, main_section(), "GenericName"@),
            text_of(icon_value) == last_value(av, main_section(), "Icon"@),
            views(keywords@) == keywords_in(av, which),
            text_of(wm_class) == last_value(av, main_section(), "StartupWMClass"@),
            terminal == is_set(av, main_section(), "Terminal"@),
            r@.len() == i,
            forall|j: int|
                0 <= j < i ==> (#[trigger] r@[j])@ == entry_for(av, launches(av)[j], which),
        decreases found.len() - i,
    {
        let is_action = found[i].is_action;
        assert(launch_views(found@)[i as int] == found@[i as int]@);
        let icon = match &icon_value {
            Some(v) => Some(Icon::from_value(v.as_str())),
            None => None,
        };
        let e = DesktopEntry {
            name: found[i].name.clone(),
            generic_name: if is_action {
                None
            } else {
                copy_text(&generic_name)
            },
            command: found[i].command.clone(),
            terminal,
            icon,
            keywords: if is_action {
                Vec::new()
            } else {
                copy_texts(&keywords)
            },
            wm_class: if is_action {
                None
            } else {
                copy_text(&wm_class)
            },
        };
        assert(e@ =~= entry_for(av, launches(av)[i as int], which));
        r.push(e);
        i = i + 1;
    }
    assert(entry_views(r@) == desktop_entries(content@, which));
    r
}

/// The same optional text once more.
pub fn copy_text(o: &Option<String>) -> (r: Option<String>)
    ensures
        text_of(r) == text_of(*o),
{
    match o {
        Some(s) => Some(s.clone()),
        None => None,
    }
}

/// The same texts once more.
pub fn copy_texts(v: &Vec<String>) -> (r: Vec<String>)
    ensures
        views(r@) == views(v@),
{
    let mut r: Vec<String> = Vec::new();
    let mut i: usize = 0;
    while i < v.len()
        invariant
            i <= v.len(),
            r@.len() == i,
            forall|j: int| 0 <= j < i ==> (#[trigger] r@[j])@ == v@[j]@,
        decreases v.len() - i,
    {
        r.push(v[i].clone());
        i = i + 1;
    }
    assert(views(r@) == views(v@));
    r
}

impl DesktopEntry {
    /// The same entry once more.
    pub fn copy(&self) -> (r: DesktopEntry)
        ensures
            r@ == self@,
    {
        let icon = match &self.icon {
            Some(i) => Some(i.copy()),
            None => None,
        };
        let r = DesktopEntry {
            name: self.name.clone(),
            generic_name: copy_text(&self.generic_name),
            command: self.command.clone(),
            terminal: self.terminal,
            icon,
            keywords: copy_texts(&self.keywords),
            wm_class: copy_text(&self.wm_class),
        };
        assert(r@ =~= self@);
        r
    }
}

/// The directories that hold application files, given the home directory and
/// the colon-separated data directories.
pub open spec fn application_dirs(home: Option<Seq<char>>, data_dirs: Option<Seq<char>>) -> Seq<
    Seq<char>,
> {
    let own = match home {
        Some(h) => seq![joined(h, ".local/share/applications"@)],
        None => Seq::empty(),
    };
    let shared = match data_dirs {
        Some(d) => d,
        None => "/usr/local/share:/usr/share"@,
    };
    own + split(shared, Separator::Char(':')).map_values(
        |d: Seq<char>| joined(d, "applications"@),
    ) + seq!["/var/lib/flatpak/exports/share/applications"@]
}

/// The text behind an optional string slice.
pub open spec fn slice_text(o: Option<&str>) -> Option<Seq<char>> {
    match o {
        Some(s) => Some(s@),
        None => None,
    }
}

/// Extends each of several paths.
pub fn join_each(dirs: &Vec<String>, part: &str) -> (r: Vec<String>)
    ensures
        views(r@) == views(dirs@).map_values(|d: Seq<char>| joined(d, part@)),
{
    let mut r: Vec<String> = Vec::new();
    let mut i: usize = 0;
    while i < dirs.len()
        invariant
            i <= dirs.len(),
            r@.len() == i,
            forall|j: int| 0 <= j < i ==> (#[trigger] r@[j])@ == joined(dirs@[j]@, part@),
        decreases dirs.len() - i,
    {
        r.push(join(dirs[i].as_str(), part));
        i = i + 1;
    }
    assert(views(r@) == views(dirs@).map_values(|d: Seq<char>| joined(d, part@)));
    r
}

/// Appends one list of texts to another.
pub fn append_all(v: &mut Vec<String>, more: Vec<String>)
    ensures
        views(final(v)@) == views(old(v)@) + views(more@),
{
    let mut rest = more;
    let ghost a = v@;
    v.append(&mut rest);
    assert(views(v@) == views(a) + views(more@));
}

/// Lists the directories that hold application files. `home` and `data_dirs`
/// are the values of `HOME` and `XDG_DATA_DIRS`, where they are set.
pub fn applications_dirs(home: Option<&str>, data_dirs: Option<&str>) -> (r: Vec<String>)
    ensures
        views(r@) == application_dirs(slice_text(home), slice_text(data_dirs)),
{
    let mut r: Vec<String> = Vec::new();
    match home {
        Some(h) => {
            r.push(join(h, ".local/share/applications"));
        },
        None => {},
    }
    let ghost own = match home {
        Some(h) => seq![joined(h@, ".local/share/applications"@)],
        None => Seq::empty(),
    };
    assert(views(r@) == own);
    let shared = match data_dirs {
        Some(d) => d,
        None => "/usr/local/share:/usr/share",
    };
    let dirs = split_chars(chars_of(shared).as_slice(), Separator::Char(':'));
    append_all(&mut r, join_each(&dirs, "applications"));
    let ghost most = r@;
    r.push("/var/lib/flatpak/exports/share/applications".to_owned());
    assert(views(r@) == views(most) + seq!["/var/lib/flatpak/exports/share/applications"@]);
    r
}

/// A file found in an application directory, with its content if it could be
/// read.
pub struct AppFile {
    pub file_name: String,
    pub content: Option<String>,
}

/// What an application file holds.
pub struct AppFileView {
    pub file_name: Seq<char>,
    pub content: Option<Seq<char>>,
}

impl View for AppFile {
    type V = AppFileView;

    open spec fn view(&self) -> AppFileView {
        AppFileView { file_name: self.file_name@, content: text_of(self.content) }
    }
}

/// What a list of application files holds.
pub open spec fn file_views(v: Seq<AppFile>) -> Seq<AppFileView> {
    v.map_values(|f: AppFile| f@)
}

/// Whether a file name is that of an application file.
pub open spec fn is_desktop_file(name: Seq<char>) -> bool {
    extension(name) == Some("desktop"@)
}

/// The application files, each file name only where it comes first.
pub open spec fn first_files(files: Seq<AppFileView>) -> Seq<AppFileView>
    decreases files.len(),
{
    if files.len() == 0 {
        Seq::empty()
    } else {
        let before = files.drop_last();
        let f = files.last();
        if is_desktop_file(f.file_name) && (forall|i: int|
            0 <= i < before.len() ==> (#[trigger] before[i]).file_name != f.file_name) {
            first_files(before).push(f)
        } else {
            first_files(before)
        }
    }
}

/// The positions of the files that `first_files` keeps.
pub fn find_first_files(files: &Vec<AppFile>) -> (r: Vec<usize>)
    ensures
        forall|k: int| 0 <= k < r@.len() ==> #[trigger] r@[k] < files@.len(),
        first_files(file_views(files@)) == r@.map_values(|k: usize| files@[k as int]@),
{
    let ghost all = file_views(files@);
    let mut seen = StringHashSet::new();
    let mut r: Vec<usize> = Vec::new();
    let mut i: usize = 0;
    assert(first_files(all.take(0)) == r@.map_values(|k: usize| files@[k as int]@));
    while i < files.len()
        invariant
            i <= files.len(),
            all == file_views(files@),
            forall|n: Seq<char>| #[trigger]
                seen@.contains(n) <==> exists|j: int|
                    0 <= j < i && (#[trigger] all[j]).file_name == n,
            forall|k: int| 0 <= k < r@.len() ==> #[trigger] r@[k] < files@.len(),
            first_files(all.take(i as int)) == r@.map_values(|k: usize| files@[k as int]@),
        decreases files.len() - i,
    {
        let ghost part = all.take(i + 1);
        proof {
            assert(part.drop_last() == all.take(i as int));
            assert(part.last() == all[i as int]);
        }
        let name = files[i].file_name.as_str();
        let fits = match extension_of(name) {
            Some(e) => same(e.as_str(), "desktop"),
            None => false,
        };
        let fresh = !seen.contains(name);
        proof {
            assert(seen@.contains(name@) <==> exists|j: int|
                0 <= j < i && (#[trigger] all[j]).file_name == name@);
            if fresh {
                assert forall|j: int| 0 <= j < i implies (#[trigger] part.drop_last()[j]).file_name
                    != name@ by {
                    assert(all[j] == part.drop_last()[j]);
                }
            } else {
                let j = choose|j: int| 0 <= j < i && (#[trigger] all[j]).file_name == name@;
                assert(part.drop_last()[j] == all[j]);
            }
        }
        let ghost kept = r@;
        let ghost known = seen@;
        if fits && fresh {
            r.push(i);
        }
        seen.insert(name.to_owned());
        proof {
            assert(kept.push(i).map_values(|k: usize| files@[k as int]@) == kept.map_values(
                |k: usize| files@[k as int]@,
            ).push(all[i as int]));
            assert forall|n: Seq<char>| #[trigger] seen@.contains(n) <==> exists|j: int|
                0 <= j < i + 1 && (#[trigger] all[j]).file_name == n by {
                assert(seen@ == known.insert(name@));
                assert(known.contains(n) <==> exists|j: int|
                    0 <= j < i && (#[trigger] all[j]).file_name == n);
                assert(all[i as int].file_name == name@);
            }
        }
        i = i + 1;
    }
    assert(all.take(all.len() as int) == all);
    r
}

/// The entries of several application files, in order.
pub open spec fn entries_in(files: Seq<AppFileView>, which: Keywords) -> Seq<DesktopEntryView>
    decreases files.len(),
{
    if files.len() == 0 {
        Seq::empty()
    } else {
        entries_in(files.drop_last(), which) + match files.last().content {
            Some(c) => desktop_entries(c, which),
            None => Seq::empty(),
        }
    }
}

/// The entries, each name (whatever its case) only where it comes first.
pub open spec fn first_names(all: Seq<DesktopEntryView>) -> Seq<DesktopEntryView>
    decreases all.len(),
{
    if all.len() == 0 {
        Seq::empty()
    } else {
        let before = all.drop_last();
        if forall|i: int|
            0 <= i < before.len() ==> lowercase((#[trigger] before[i]).name) != lowercase(
                all.last().name,
            ) {
            first_names(before).push(all.last())
        } else {
            first_names(before)
        }
    }
}

/// The entries in ascending order of their lower-case names.
pub open spec fn by_name(all: Seq<DesktopEntryView>) -> Seq<DesktopEntryView> {
    ranking::<String>(all.map_values(|e: DesktopEntryView| lowercase(e.name))).map_values(
        |i: int| all[i],
    )
}

proof fn first_names_are_distinct(all: Seq<DesktopEntryView>)
    ensures
        forall|i: int|
            0 <= i < first_names(all).len() ==> all.contains(#[trigger] first_names(all)[i]),
        forall|i: int, j: int|
            0 <= i < j < first_names(all).len() ==> lowercase(
                (#[trigger] first_names(all)[i]).name,
            ) != lowercase((#[trigger] first_names(all)[j]).name),
    decreases all.len(),
{
    if all.len() > 0 {
        let before = all.drop_last();
        let now = first_names(all);
        let old_names = first_names(before);
        first_names_are_distinct(before);
        assert forall|i: int| 0 <= i < now.len() implies all.contains(#[trigger] now[i]) by {
            if i < old_names.len() {
                assert(now[i] == old_names[i]);
                let k = choose|k: int| 0 <= k < before.len() && before[k] == old_names[i];
                assert(all[k] == now[i]);
            } else {
                assert(all[all.len() - 1] == now[i]);
            }
        }
        assert forall|i: int, j: int| 0 <= i < j < now.len() implies lowercase(
            (#[trigger] now[i]).name,
        ) != lowercase((#[trigger] now[j]).name) by {
            assert(now[i] == old_names[i]);
            if j < old_names.len() {
                assert(now[j] == old_names[j]);
            } else {
                let k = choose|k: int| 0 <= k < before.len() && before[k] == old_names[i];
                assert(lowercase(before[k].name) != lowercase(all.last().name));
            }
        }
    }
}

/// Collected entries come in ascending order of their names, whatever the case,
/// and no name comes twice.
pub proof fn collected_names_ascend(all: Seq<DesktopEntryView>)
    ensures
        ({
            let r = by_name(first_names(all));
            &&& r.len() == first_names(all).len()
            &&& forall|i: int, j: int|
                0 <= i < j < r.len() ==> precedes(
                    lowercase((#[trigger] r[i]).name),
                    lowercase((#[trigger] r[j]).name),
                )
        }),
{
    let kept = first_names(all);
    let keys = kept.map_values(|e: DesktopEntryView| lowercase(e.name));
    first_names_are_distinct(all);
    ranking_exists::<String>(keys);
    let order = ranking::<String>(keys);
    let r = by_name(kept);
    assert forall|i: int, j: int| 0 <= i < j < r.len() implies precedes(
        lowercase((#[trigger] r[i]).name),
        lowercase((#[trigger] r[j]).name),
    ) by {
        assert(ahead::<String>(keys, order[i], order[j]));
        assert(r[i] == kept[order[i]] && r[j] == kept[order[j]]);
        assert(keys[order[i]] == lowercase(r[i].name));
        assert(keys[order[j]] == lowercase(r[j].name));
        order_is_total(keys[order[i]], keys[order[i]]);
        assert(order[i] != order[j]);
        if order[i] < order[j] {
            assert(keys[order[i]] != keys[order[j]]);
        } else {
            assert(keys[order[j]] != keys[order[i]]);
        }
        order_is_total(keys[order[i]], keys[order[j]]);
    }
}

/// The entries of all application files, those of the first file of each name,
/// without repeated names and ordered by name.
pub open spec fn collected(files: Seq<AppFileView>) -> Seq<DesktopEntryView> {
    by_name(first_names(entries_in(first_files(files), Keywords::First)))
}

/// Collects the entries of all application files, those of the first file of
/// each name, without repeated names and ordered by name.
pub fn collect_entries(files: &Vec<AppFile>) -> (r: Vec<DesktopEntry>)
    ensures
        entry_views(r@) == collected(file_views(files@)),
        entry_views(r@) == by_name(
            first_names(entries_in(first_files(file_views(files@)), Keywords::First)),
        ),
{
    sort_by_name(&keep_first_names(&gather_entries(files, Keywords::First)))
}

/// Collects the entries of all application files, those of the first file of
/// each name, ordered by name.
pub fn collect_all_entries(files: &Vec<AppFile>, which: Keywords) -> (r: Vec<DesktopEntry>)
    ensures
        entry_views(r@) == by_name(entries_in(first_files(file_views(files@)), which)),
{
    sort_by_name(&gather_entries(files, which))
}

fn gather_entries(files: &Vec<AppFile>, which: Keywords) -> (r: Vec<DesktopEntry>)
    ensures
        entry_views(r@) == entries_in(first_files(file_views(files@)), which),
{
    let kept = find_first_files(files);
    let ghost chosen = first_files(file_views(files@));
    let mut all: Vec<DesktopEntry> = Vec::new();
    let mut i: usize = 0;
    assert(entry_views(all@) == entries_in(chosen.take(0), which));
    while i < kept.len()
        invariant
            i <= kept.len(),
            forall|k: int| 0 <= k < kept@.len() ==> #[trigger] kept@[k] < files@.len(),
            chosen == kept@.map_values(|k: usize| files@[k as int]@),
            entry_views(all@) == entries_in(chosen.take(i as int), which),
        decreases kept.len() - i,
    {
        proof {
            assert(chosen.take(i + 1).drop_last() == chosen.take(i as int));
            assert(chosen.take(i + 1).last() == files@[kept@[i as int] as int]@);
        }
        let ghost head = all@;
        match &files[kept[i]].content {
            Some(c) => {
                let mut found = parse_desktop_file(c.as_str(), which);
                let ghost more = found@;
                all.append(&mut found);
                assert(entry_views(all@) == entry_views(head) + entry_views(more));
            },
            None => {
                assert(entry_views(all@) == entry_views(head) + Seq::<DesktopEntryView>::empty());
            },
        }
        i = i + 1;
    }
    assert(chosen.take(chosen.len() as int) == chosen);
    all
}

fn keep_first_names(all: &Vec<DesktopEntry>) -> (r: Vec<DesktopEntry>)
    ensures
        entry_views(r@) == first_names(entry_views(all@)),
{
    let ghost av = entry_views(all@);
    let mut seen = StringHashSet::new();
    let mut r: Vec<DesktopEntry> = Vec::new();
    let mut i: usize = 0;
    assert(entry_views(r@) == first_names(av.take(0)));
    while i < all.len()
        invariant
            i <= all.len(),
            av == entry_views(all@),
            forall|n: Seq<char>| #[trigger]
                seen@.contains(n) <==> exists|j: int|
                    0 <= j < i && lowercase((#[trigger] av[j]).name) == n,
            entry_views(r@) == first_names(av.take(i as int)),
        decreases all.len() - i,
    {
        let ghost part = av.take(i + 1);
        proof {
            assert(part.drop_last() == av.take(i as int));
            assert(part.last() == av[i as int]);
        }
        let name = to_lowercase(all[i].name.as_str());
        let fresh = !seen.contains(name.as_str());
        proof {
            assert(seen@.contains(name@) <==> exists|j: int|
                0 <= j < i && lowercase((#[trigger] av[j]).name) == name@);
            if fresh {
                assert forall|j: int| 0 <= j < i implies lowercase(
                    (#[trigger] part.drop_last()[j]).name,
                ) != name@ by {
                    assert(av[j] == part.drop_last()[j]);
                }
            } else {
                let j = choose|j: int| 0 <= j < i && lowercase((#[trigger] av[j]).name) == name@;
                assert(part.drop_last()[j] == av[j]);
            }
        }
        let ghost kept = r@;
        let ghost known = seen@;
        let ghost key = name@;
        if fresh {
            r.push(all[i].copy());
            assert(entry_views(r@) == entry_views(kept).push(av[i as int]));
        }
        seen.insert(name);
        proof {
            assert forall|n: Seq<char>| #[trigger] seen@.contains(n) <==> exists|j: int|
                0 <= j < i + 1 && lowercase((#[trigger] av[j]).name) == n by {
                assert(seen@ == known.insert(key));
                assert(known.contains(n) <==> exists|j: int|
                    0 <= j < i && lowercase((#[trigger] av[j]).name) == n);
                assert(lowercase(av[i as int].name) == key);
            }
        }
        i = i + 1;
    }
    assert(av.take(av.len() as int) == av);
    r
}

fn sort_by_name(all: &Vec<DesktopEntry>) -> (r: Vec<DesktopEntry>)
    ensures
        entry_views(r@) == by_name(entry_views(all@)),
{
    let ghost av = entry_views(all@);
    let mut names: Vec<String> = Vec::new();
    let mut i: usize = 0;
    while i < all.len()
        invariant
            i <= all.len(),
            names@.len() == i,
            forall|j: int| 0 <= j < i ==> (#[trigger] names@[j])@ == lowercase(all@[j].name@),
        decreases all.len() - i,
    {
        names.push(to_lowercase(all[i].name.as_str()));
        i = i + 1;
    }
    let ghost keys = av.map_values(|e: DesktopEntryView| lowercase(e.name));
    assert(keys_of(names@) == keys);
    let order = rank(&names);
    let ghost ranked = ints(order@);
    let mut r: Vec<DesktopEntry> = Vec::new();
    let mut k: usize = 0;
    while k < order.len()
        invariant
            k <= order.len(),
            ranked == ints(order@),
            ranks::<String>(ranked, keys),
            keys.len() == all@.len(),
            av == entry_views(all@),
            r@.len() == k,
            forall|j: int| 0 <= j < k ==> (#[trigger] r@[j])@ == av[ranked[j]],
        decreases order.len() - k,
    {
        assert(ranked[k as int] == order@[k as int] as int);
        r.push(all[order[k]].copy());
        k = k + 1;
    }
    assert(entry_views(r@) == by_name(av));
    r
}

/// Whether a word of a command line is a field code.
pub open spec fn is_field_code(w: Seq<char>) -> bool {
    w.len() > 0 && w[0] == '%'
}

/// The words of a command line, without field codes.
pub open spec fn command_words(command: Seq<char>) -> Seq<Seq<char>> {
    words(command, Separator::Whitespace).filter(|w: Seq<char>| !is_field_code(w))
}

/// Splits a command line into its words, without field codes.
pub fn parse_exec(command: &str) -> (r: Vec<String>)
    ensures
        views(r@) == command_words(command@),
{
    let all = words_of(chars_of(command).as_slice(), Separator::Whitespace);
    let ghost av = words(command@, Separator::Whitespace);
    let ghost keep = |w: Seq<char>| !is_field_code(w);
    let mut r: Vec<String> = Vec::new();
    let mut i: usize = 0;
    proof {
        reveal(Seq::filter);
    }
    assert(views(r@) == av.take(0).filter(keep));
    while i < all.len()
        invariant
            i <= all@.len(),
            views(all@) == av,
            keep == (|w: Seq<char>| !is_field_code(w)),
            views(r@) == av.take(i as int).filter(keep),
        decreases all.len() - i,
    {
        proof {
            reveal(Seq::filter);
            assert(av.take(i + 1).drop_last() == av.take(i as int));
            assert(av.take(i + 1).last() == all@[i as int]@);
        }
        let c = chars_of(all[i].as_str());
        let ghost head = r@;
        if !(c.len() > 0 && c[0] == '%') {
            r.push(all[i].clone());
            assert(views(r@) == views(head).push(av[i as int]));
        }
        i = i + 1;
    }
    assert(av.take(av.len() as int) == av);
    r
}

/// The words to run for a command line: those of the line, or, for one that
/// needs a terminal, the terminal's program (with its own arguments where they
/// are wanted) and `-e` in front of them. A line without words runs nothing.
pub open spec fn run_words(
    command: Seq<char>,
    terminal: bool,
    term: Option<Seq<char>>,
    term_args: bool,
) -> Seq<Seq<char>> {
    let parts = command_words(command);
    let tw = words(
        match term {
            Some(t) => t,
            None => "kitty"@,
        },
        Separator::Whitespace,
    );
    let front = if tw.len() == 0 {
        seq!["kitty"@]
    } else if term_args {
        tw
    } else {
        seq![tw[0]]
    };
    if parts.len() == 0 || !terminal {
        parts
    } else {
        front.push("-e"@) + parts
    }
}

/// Lists the words to run for a command line.
pub fn command_to_run(command: &str, terminal: bool, term: Option<&str>, term_args: bool) -> (r: Vec<
    String,
>)
    ensures
        views(r@) == run_words(command@, terminal, slice_text(term), term_args),
{
    let parts = parse_exec(command);
    assert(parts@.len() == views(parts@).len());
    if parts.len() == 0 || !terminal {
        return parts;
    }
    let t = match term {
        Some(t) => t,
        None => "kitty",
    };
    let tw = words_of(chars_of(t).as_slice(), Separator::Whitespace);
    assert(tw@.len() == views(tw@).len());
    let ghost twv = views(tw@);
    let mut r: Vec<String> = Vec::new();
    if tw.len() == 0 {
        r.push("kitty".to_owned());
        assert(views(r@) == seq!["kitty"@]);
    } else if term_args {
        r = tw;
    } else {
        r.push(tw[0].clone());
        assert(views(r@) == seq![twv[0]]);
    }
    let ghost front = r@;
    r.push("-e".to_owned());
    assert(views(r@) == views(front).push("-e"@));
    append_all(&mut r, parts);
    r
}

/// An entry runs in a terminal exactly if the last `Terminal` setting of the
/// file's main section is `true`.
pub proof fn entries_need_terminal(content: Seq<char>, which: Keywords)
    ensures
        forall|i: int|
            0 <= i < desktop_entries(content, which).len() ==> (#[trigger] desktop_entries(
                content,
                which,
            )[i]).terminal == (exists|k: int| #[trigger]
                last_at(settings(content), "Desktop Entry"@, "Terminal"@, k) && settings(
                    content,
                )[k].value == "true"@),
{
    last_value_is_last(settings(content), "Desktop Entry"@, "Terminal"@);
}

/// Every entry of a file has the icon of the last `Icon` setting of its main
/// section: a path if that is absolute, else the name of an icon. Without such
/// a setting it has none.
pub proof fn entries_share_the_icon(content: Seq<char>, which: Keywords, i: int)
    requires
        0 <= i < desktop_entries(content, which).len(),
    ensures
        forall|k: int| #[trigger]
            last_at(settings(content), "Desktop Entry"@, "Icon"@, k) ==> desktop_entries(
                content,
                which,
            )[i].icon == Some(
                if settings(content)[k].value.len() > 0 && settings(content)[k].value[0] == '/' {
                    IconView::Path(settings(content)[k].value)
                } else {
                    IconView::Name(settings(content)[k].value)
                },
            ),
        desktop_entries(content, which)[i].icon is Some ==> exists|k: int| #[trigger]
            last_at(settings(content), "Desktop Entry"@, "Icon"@, k),
{
    last_value_is_last(settings(content), "Desktop Entry"@, "Icon"@);
}

/// A file whose last `NoDisplay` or last `Hidden` setting is `true` offers no
/// entries.
pub proof fn hidden_files_offer_nothing(content: Seq<char>, which: Keywords, key: Seq<char>, k: int)
    requires
        key == "NoDisplay"@ || key == "Hidden"@,
        last_at(settings(content), "Desktop Entry"@, key, k),
        settings(content)[k].value == "true"@,
    ensures
        desktop_entries(content, which).len() == 0,
{
    last_value_is_last(settings(content), "Desktop Entry"@, key);
}

proof fn unlisted_asks_to_hide(all: Seq<SettingView>)
    ensures
        unlisted(all) ==> exists|k: int|
            0 <= k < all.len() && (#[trigger] all[k]).value == "true"@ && (last_at(
                all,
                "Desktop Entry"@,
                "NoDisplay"@,
                k,
            ) || last_at(all, "Desktop Entry"@, "Hidden"@, k)),
{
    last_value_is_last(all, "Desktop Entry"@, "NoDisplay"@);
    last_value_is_last(all, "Desktop Entry"@, "Hidden"@);
    if unlisted(all) {
        if is_set(all, main_section(), "NoDisplay"@) {
            let k = choose|k: int| #[trigger] last_at(all, "Desktop Entry"@, "NoDisplay"@, k);
            assert(all[k].value == "true"@);
        } else {
            let k = choose|k: int| #[trigger] last_at(all, "Desktop Entry"@, "Hidden"@, k);
            assert(all[k].value == "true"@);
        }
    }
}

/// The application of a file that does not ask to be hidden is its first entry:
/// under the first name, with the last command, the first generic name, the
/// keywords and the last window class that the main section gives.
pub proof fn application_comes_first(content: Seq<char>, which: Keywords, n: int, c: int)
    requires
        first_at(settings(content), "Desktop Entry"@, "Name"@, n),
        last_at(settings(content), "Desktop Entry"@, "Exec"@, c),
        forall|k: int|
            0 <= k < settings(content).len() && (last_at(
                settings(content),
                "Desktop Entry"@,
                "NoDisplay"@,
                k,
            ) || last_at(settings(content), "Desktop Entry"@, "Hidden"@, k)) ==> (
            #[trigger] settings(content)[k]).value != "true"@,
    ensures
        desktop_entries(content, which).len() > 0,
        desktop_entries(content, which)[0].name == settings(content)[n].value,
        desktop_entries(content, which)[0].command == settings(content)[c].value,
        forall|k: int| #[trigger]
            first_at(settings(content), "Desktop Entry"@, "GenericName"@, k) ==> desktop_entries(
                content,
                which,
            )[0].generic_name == Some(settings(content)[k].value),
        desktop_entries(content, which)[0].generic_name is Some ==> exists|k: int| #[trigger]
            first_at(settings(content), "Desktop Entry"@, "GenericName"@, k),
        forall|k: int| #[trigger]
            last_at(settings(content), "Desktop Entry"@, "StartupWMClass"@, k) ==> desktop_entries(
                content,
                which,
            )[0].wm_class == Some(settings(content)[k].value),
        desktop_entries(content, which)[0].wm_class is Some ==> exists|k: int| #[trigger]
            last_at(settings(content), "Desktop Entry"@, "StartupWMClass"@, k),
        which == Keywords::Last ==> forall|k: int| #[trigger]
            last_at(settings(content), "Desktop Entry"@, "Keywords"@, k) ==> desktop_entries(
                content,
                which,
            )[0].keywords == words(settings(content)[k].value, Separator::Char(';')),
        forall|k: int| #[trigger]
            first_at(settings(content), "Desktop Entry"@, "Keywords"@, k) && last_at(
                settings(content),
                "Desktop Entry"@,
                "Keywords"@,
                k,
            ) ==> desktop_entries(content, which)[0].keywords == words(
                settings(content)[k].value,
                Separator::Char(';'),
            ),
{
    let all = settings(content);
    let m = "Desktop Entry"@;
    unlisted_asks_to_hide(all);
    first_value_is_first(all, m, "Name"@);
    last_value_is_last(all, m, "Exec"@);
    first_value_is_first(all, m, "GenericName"@);
    last_value_is_last(all, m, "StartupWMClass"@);
    last_value_is_last(all, m, "Keywords"@);
    first_items_are_first(all, m, "Keywords"@);
    let e = desktop_entries(content, which)[0];
    assert(launches(all)[0] == main_launch(all)[0]);
    assert(e == entry_for(all, main_launch(all)[0], which));
    assert forall|k: int| #[trigger] first_at(all, m, "Keywords"@, k) && last_at(
        all,
        m,
        "Keywords"@,
        k,
    ) implies e.keywords == words(all[k].value, Separator::Char(';')) by {
        assert(all[k].section == m);
        let list = first_items(all, m, "Keywords"@);
        if which == Keywords::First {
            if list.len() == 0 {
                assert(words(all[k].value, Separator::Char(';')).len() == 0);
                assert(list =~= words(all[k].value, Separator::Char(';')));
            } else {
                let i = choose|i: int|
                    0 <= i < all.len() && (#[trigger] all[i]).section == m && all[i].key
                        == "Keywords"@ && list == words(all[i].value, Separator::Char(';'))
                        && forall|j: int|
                        0 <= j < i && (#[trigger] all[j]).section == m && all[j].key
                            == "Keywords"@ ==> words(all[j].value, Separator::Char(';')).len() == 0;
                assert(i == k);
            }
        }
    }
}

proof fn action_launches_are_listed(all: Seq<SettingView>, ids: Seq<Seq<char>>, i: int)
    requires
        0 <= i < ids.len(),
        action_launch(all, ids[i]).len() > 0,
    ensures
        exists|k: int|
            0 <= k < action_launches(all, ids).len() && #[trigger] action_launches(all, ids)[k]
                == action_launch(all, ids[i])[0],
    decreases ids.len(),
{
    let part = ids.drop_last();
    let before = action_launches(all, part);
    let now = action_launches(all, ids);
    if i == ids.len() - 1 {
        assert(now[before.len() as int] == action_launch(all, ids[i])[0]);
    } else {
        assert(part[i] == ids[i]);
        action_launches_are_listed(all, part, i);
        let k = choose|k: int|
            0 <= k < before.len() && #[trigger] before[k] == action_launch(all, ids[i])[0];
        assert(now[k] == before[k]);
    }
}

/// A listed action with a name and a command is an entry of its own, shown
/// behind the application's name. It has no generic name, keywords or window
/// class.
pub proof fn actions_are_entries(
    content: Seq<char>,
    which: Keywords,
    app: int,
    listed: int,
    i: int,
    n: int,
    c: int,
)
    requires
        first_at(settings(content), "Desktop Entry"@, "Name"@, app),
        last_at(settings(content), "Desktop Entry"@, "Actions"@, listed),
        0 <= i < words(settings(content)[listed].value, Separator::Char(';')).len(),
        last_at(
            settings(content),
            "Desktop Action "@ + words(settings(content)[listed].value, Separator::Char(';'))[i],
            "Name"@,
            n,
        ),
        last_at(
            settings(content),
            "Desktop Action "@ + words(settings(content)[listed].value, Separator::Char(';'))[i],
            "Exec"@,
            c,
        ),
        forall|k: int|
            0 <= k < settings(content).len() && (last_at(
                settings(content),
                "Desktop Entry"@,
                "NoDisplay"@,
                k,
            ) || last_at(settings(content), "Desktop Entry"@, "Hidden"@, k)) ==> (
            #[trigger] settings(content)[k]).value != "true"@,
    ensures
        exists|k: int|
            0 <= k < desktop_entries(content, which).len() && (#[trigger] desktop_entries(
                content,
                which,
            )[k]).name == settings(content)[app].value + ": "@ + settings(content)[n].value
                && desktop_entries(content, which)[k].command == settings(content)[c].value
                && desktop_entries(content, which)[k].generic_name is None && desktop_entries(
                content,
                which,
            )[k].keywords.len() == 0 && desktop_entries(content, which)[k].wm_class is None,
{
    let all = settings(content);
    let m = "Desktop Entry"@;
    let ids = words(all[listed].value, Separator::Char(';'));
    let section = "Desktop Action "@ + ids[i];
    unlisted_asks_to_hide(all);
    first_value_is_first(all, m, "Name"@);
    last_value_is_last(all, m, "Actions"@);
    last_value_is_last(all, section, "Name"@);
    last_value_is_last(all, section, "Exec"@);
    assert(last_items(all, m, "Actions"@) == ids);
    assert(action_section(ids[i]) == section);
    action_launches_are_listed(all, ids, i);
    let k = choose|k: int|
        0 <= k < action_launches(all, ids).len() && #[trigger] action_launches(all, ids)[k]
            == action_launch(all, ids[i])[0];
    let at = main_launch(all).len() + k;
    assert(launches(all)[at] == action_launch(all, ids[i])[0]);
    assert(desktop_entries(content, which)[at] == entry_for(all, launches(all)[at], which));
}

proof fn action_launches_are_actions(all: Seq<SettingView>, ids: Seq<Seq<char>>, k: int)
    requires
        0 <= k < action_launches(all, ids).len(),
    ensures
        action_launches(all, ids)[k].is_action,
        exists|i: int|
            0 <= i < ids.len() && last_value(all, "Desktop Action "@ + #[trigger] ids[i], "Exec"@)
                == Some(action_launches(all, ids)[k].command),
    decreases ids.len(),
{
    let part = ids.drop_last();
    let n = ids.len() - 1;
    let before = action_launches(all, part);
    if k < before.len() {
        action_launches_are_actions(all, part, k);
        let i = choose|i: int|
            0 <= i < part.len() && last_value(all, "Desktop Action "@ + #[trigger] part[i], "Exec"@)
                == Some(before[k].command);
        assert(part[i] == ids[i]);
    } else {
        assert(ids[n] == ids.last());
    }
}

/// Every command of a file's entries is the last command of its main section or
/// of the section of an action.
pub proof fn commands_are_settings(content: Seq<char>, which: Keywords, i: int)
    requires
        0 <= i < desktop_entries(content, which).len(),
    ensures
        exists|k: int|
            0 <= k < settings(content).len() && (#[trigger] settings(content)[k]).key == "Exec"@
                && settings(content)[k].value == desktop_entries(content, which)[i].command
                && last_at(settings(content), settings(content)[k].section, "Exec"@, k) && (
            settings(content)[k].section == "Desktop Entry"@
                || "Desktop Action "@.is_prefix_of(settings(content)[k].section)),
{
    let all = settings(content);
    let m = "Desktop Entry"@;
    let l = launches(all)[i];
    let e = desktop_entries(content, which)[i];
    assert(e == entry_for(all, l, which));
    if i < main_launch(all).len() {
        last_value_is_last(all, m, "Exec"@);
        assert(l == main_launch(all)[i]);
        let k = choose|k: int| #[trigger] last_at(all, m, "Exec"@, k);
        assert(all[k].key == "Exec"@);
    } else {
        let ids = last_items(all, m, "Actions"@);
        let at = i - main_launch(all).len();
        assert(l == action_launches(all, ids)[at]);
        action_launches_are_actions(all, ids, at);
        let j = choose|j: int|
            0 <= j < ids.len() && last_value(all, "Desktop Action "@ + #[trigger] ids[j], "Exec"@)
                == Some(l.command);
        let section = "Desktop Action "@ + ids[j];
        last_value_is_last(all, section, "Exec"@);
        let k = choose|k: int| #[trigger] last_at(all, section, "Exec"@, k);
        assert(all[k].key == "Exec"@);
        assert("Desktop Action "@ =~= section.take("Desktop Action "@.len() as int));
    }
}

/// Of the files of one name only the first counts, and only application files
/// do.
pub proof fn first_files_are_first(files: Seq<AppFileView>)
    ensures
        forall|i: int|
            #![trigger files[i]]
            0 <= i < files.len() && extension(files[i].file_name) == Some("desktop"@) && (forall|
                j: int,
            |
                0 <= j < i ==> (#[trigger] files[j]).file_name != files[i].file_name)
                ==> first_files(files).contains(files[i]),
        forall|k: int|
            #![trigger first_files(files)[k]]
            0 <= k < first_files(files).len() ==> exists|i: int|
                0 <= i < files.len() && #[trigger] files[i] == first_files(files)[k] && extension(
                    files[i].file_name,
                ) == Some("desktop"@) && forall|j: int|
                    0 <= j < i ==> (#[trigger] files[j]).file_name != files[i].file_name,
    decreases files.len(),
{
    if files.len() > 0 {
        let part = files.drop_last();
        let n = files.len() - 1;
        let before = first_files(part);
        let now = first_files(files);
        first_files_are_first(part);
        assert(forall|j: int| 0 <= j < n ==> #[trigger] files[j] == part[j]);
        assert forall|i: int|
            #![trigger files[i]]
            0 <= i < files.len() && extension(files[i].file_name) == Some("desktop"@) && (forall|
                j: int,
            |
                0 <= j < i ==> (#[trigger] files[j]).file_name
                    != files[i].file_name) implies now.contains(files[i]) by {
            if i < n {
                assert(part[i] == files[i]);
                assert(before.contains(part[i]));
                let k = choose|k: int| 0 <= k < before.len() && before[k] == part[i];
                assert(now[k] == files[i]);
            } else {
                assert forall|j: int| 0 <= j < part.len() implies (#[trigger] part[j]).file_name
                    != files.last().file_name by {
                    assert(files[j] == part[j]);
                }
                assert(now.last() == files[i]);
            }
        }
        assert forall|k: int| #![trigger now[k]] 0 <= k < now.len() implies exists|i: int|
            0 <= i < files.len() && #[trigger] files[i] == now[k] && extension(files[i].file_name)
                == Some("desktop"@) && forall|j: int|
                0 <= j < i ==> (#[trigger] files[j]).file_name != files[i].file_name by {
            if k < before.len() {
                assert(now[k] == before[k]);
                let i = choose|i: int|
                    0 <= i < part.len() && #[trigger] part[i] == before[k] && extension(
                        part[i].file_name,
                    ) == Some("desktop"@) && forall|j: int|
                        0 <= j < i ==> (#[trigger] part[j]).file_name != part[i].file_name;
                assert(files[i] == part[i]);
                assert forall|j: int| 0 <= j < i implies (#[trigger] files[j]).file_name
                    != files[i].file_name by {
                    assert(part[j] == files[j]);
                }
            } else {
                assert(files[n] == now[k]);
                assert forall|j: int| 0 <= j < n implies (#[trigger] files[j]).file_name
                    != files[n].file_name by {
                    assert(part[j] == files[j]);
                }
            }
        }
    }
}

/// What is gathered from some files are the entries of each that could be read,
/// and nothing else.
pub proof fn gathered_are_entries(files: Seq<AppFileView>, which: Keywords, e: DesktopEntryView)
    ensures
        entries_in(files, which).contains(e) <==> exists|i: int|
            0 <= i < files.len() && ((#[trigger] files[i]).content matches Some(c)
                && desktop_entries(c, which).contains(e)),
    decreases files.len(),
{
    if files.len() > 0 {
        let part = files.drop_last();
        let n = files.len() - 1;
        let before = entries_in(part, which);
        let now = entries_in(files, which);
        gathered_are_entries(part, which, e);
        assert(forall|j: int| 0 <= j < n ==> #[trigger] files[j] == part[j]);
        let last = match files.last().content {
            Some(c) => desktop_entries(c, which),
            None => Seq::empty(),
        };
        assert(now == before + last);
        assert(files[n] == files.last());
        if now.contains(e) {
            let k = choose|k: int| 0 <= k < now.len() && now[k] == e;
            if k < before.len() {
                assert(before[k] == e);
                let i = choose|i: int|
                    0 <= i < part.len() && ((#[trigger] part[i]).content matches Some(c)
                        && desktop_entries(c, which).contains(e));
                assert(files[i] == part[i]);
            } else {
                assert(last[k - before.len()] == e);
            }
        }
        if exists|i: int|
            0 <= i < files.len() && ((#[trigger] files[i]).content matches Some(c)
                && desktop_entries(c, which).contains(e)) {
            let i = choose|i: int|
                0 <= i < files.len() && ((#[trigger] files[i]).content matches Some(c)
                    && desktop_entries(c, which).contains(e));
            if i < n {
                assert(part[i] == files[i]);
                let k = choose|k: int| 0 <= k < before.len() && before[k] == e;
                assert(now[k] == e);
            } else {
                let k = choose|k: int| 0 <= k < last.len() && last[k] == e;
                assert(now[before.len() + k] == e);
            }
        }
    }
}

/// Of the entries whose names differ at most in case, the first is kept.
pub proof fn first_of_each_name_stays(all: Seq<DesktopEntryView>, i: int)
    requires
        0 <= i < all.len(),
        forall|j: int| 0 <= j < i ==> lowercase((#[trigger] all[j]).name) != lowercase(all[i].name),
    ensures
        by_name(first_names(all)).contains(all[i]),
{
    first_name_is_kept(all, i);
    let kept = first_names(all);
    let k = choose|k: int| 0 <= k < kept.len() && kept[k] == all[i];
    sorting_keeps_entries(kept, k);
}

proof fn first_name_is_kept(all: Seq<DesktopEntryView>, i: int)
    requires
        0 <= i < all.len(),
        forall|j: int| 0 <= j < i ==> lowercase((#[trigger] all[j]).name) != lowercase(all[i].name),
    ensures
        first_names(all).contains(all[i]),
    decreases all.len(),
{
    let part = all.drop_last();
    let now = first_names(all);
    assert(forall|j: int| 0 <= j < all.len() - 1 ==> #[trigger] all[j] == part[j]);
    if i == all.len() - 1 {
        assert forall|j: int| 0 <= j < part.len() implies lowercase((#[trigger] part[j]).name)
            != lowercase(all.last().name) by {
            assert(all[j] == part[j]);
        }
        assert(now.last() == all[i]);
    } else {
        assert(part[i] == all[i]);
        assert forall|j: int| 0 <= j < i implies lowercase((#[trigger] part[j]).name) != lowercase(
            part[i].name,
        ) by {
            assert(all[j] == part[j]);
        }
        first_name_is_kept(part, i);
        let before = first_names(part);
        let k = choose|k: int| 0 <= k < before.len() && before[k] == part[i];
        assert(now[k] == all[i]);
    }
}

/// Sorting by name loses no entry and adds none, puts the names in ascending
/// order whatever their case, and leaves entries of the same name as they came.
pub proof fn sorting_keeps_entries(all: Seq<DesktopEntryView>, k: int)
    requires
        0 <= k < all.len(),
    ensures
        by_name(all).len() == all.len(),
        by_name(all).contains(all[k]),
        all.contains(by_name(all)[k]),
        forall|i: int, j: int|
            #![trigger by_name(all)[i], by_name(all)[j]]
            0 <= i < j < all.len() ==> precedes(
                lowercase(by_name(all)[i].name),
                lowercase(by_name(all)[j].name),
            ) || lowercase(by_name(all)[i].name) == lowercase(by_name(all)[j].name),
{
    let keys = all.map_values(|e: DesktopEntryView| lowercase(e.name));
    texts_are_ranked(keys);
    let r = ranking::<String>(keys);
    let sorted = by_name(all);
    assert(r.contains(k));
    let at = choose|at: int| 0 <= at < r.len() && r[at] == k;
    assert(sorted[at] == all[k]);
    assert(0 <= r[k] < all.len());
    assert(all[r[k]] == sorted[k]);
    assert forall|i: int, j: int|
        #![trigger sorted[i], sorted[j]]
        0 <= i < j < all.len() implies precedes(
        lowercase(sorted[i].name),
        lowercase(sorted[j].name),
    ) || lowercase(sorted[i].name) == lowercase(sorted[j].name) by {
        assert(0 <= r[i] < keys.len() && 0 <= r[j] < keys.len());
        assert(keys[r[i]] == lowercase(sorted[i].name) && keys[r[j]] == lowercase(sorted[j].name));
    }
}

/// The words that run are those of the command line except those that begin
/// with a percent sign; without such words they are all of them, in order.
pub proof fn field_codes_are_left_out(command: Seq<char>)
    ensures
        forall|w: Seq<char>| #[trigger]
            command_words(command).contains(w) <==> words(command, Separator::Whitespace).contains(
                w,
            ) && !(w.len() > 0 && w[0] == '%'),
        (forall|i: int|
            0 <= i < words(command, Separator::Whitespace).len() ==> (#[trigger] words(
                command,
                Separator::Whitespace,
            )[i])[0] != '%') ==> command_words(command) == words(command, Separator::Whitespace),
{
    let all = words(command, Separator::Whitespace);
    let keep = |v: Seq<char>| !is_field_code(v);
    assert forall|w: Seq<char>| #[trigger] command_words(command).contains(w) <==> all.contains(w)
        && !(w.len() > 0 && w[0] == '%') by {
        if command_words(command).contains(w) {
            all.lemma_filter_contains_rev(keep, w);
            let i = choose|i: int| 0 <= i < all.filter(keep).len() && all.filter(keep)[i] == w;
            all.lemma_filter_pred(keep, i);
        }
        if all.contains(w) && keep(w) {
            let i = choose|i: int| 0 <= i < all.len() && all[i] == w;
            all.lemma_filter_contains(keep, i);
        }
    }
    if forall|i: int| 0 <= i < all.len() ==> (#[trigger] all[i])[0] != '%' {
        nothing_is_left_out(all, keep);
    }
}

proof fn nothing_is_left_out(all: Seq<Seq<char>>, keep: spec_fn(Seq<char>) -> bool)
    requires
        forall|i: int| 0 <= i < all.len() ==> keep(#[trigger] all[i]),
    ensures
        all.filter(keep) == all,
    decreases all.len(),
{
    reveal(Seq::filter);
    if all.len() > 0 {
        let part = all.drop_last();
        assert forall|i: int| 0 <= i < part.len() implies keep(#[trigger] part[i]) by {
            assert(part[i] == all[i]);
        }
        nothing_is_left_out(part, keep);
        assert(keep(all[all.len() - 1]));
        assert(part.push(all.last()) =~= all);
    }
}

/// A command that needs a terminal is run by it behind `-e`. The terminal is
/// the one that is given, with its arguments where they are wanted, and `kitty`
/// without one. Any other command is run as it is, and one without words not at
/// all.
pub proof fn terminal_runs_the_command(command: Seq<char>, term: Seq<char>, term_args: bool)
    ensures
        run_words(command, false, Some(term), term_args) == command_words(command),
        run_words(command, false, None, term_args) == command_words(command),
        command_words(command).len() == 0 ==> run_words(
            command,
            true,
            Some(term),
            term_args,
        ).len() == 0 && run_words(command, true, None, term_args).len() == 0,
        command_words(command).len() > 0 ==> run_words(command, true, None, term_args) == seq![
            "kitty"@,
            "-e"@,
        ] + command_words(command),
        command_words(command).len() > 0 && words(term, Separator::Whitespace).len() > 0
            && term_args ==> run_words(command, true, Some(term), term_args) == words(
            term,
            Separator::Whitespace,
        ).push("-e"@) + command_words(command),
        command_words(command).len() > 0 && words(term, Separator::Whitespace).len() > 0
            && !term_args ==> run_words(command, true, Some(term), term_args) == seq![
            words(term, Separator::Whitespace)[0],
            "-e"@,
        ] + command_words(command),
{
    reveal_strlit("kitty");
    let k = "kitty"@;
    assert forall|i: int| 0 <= i < k.len() implies !Separator::Whitespace.cuts(#[trigger] k[i]) by {
        assert(k[0] == 'k' && k[1] == 'i' && k[2] == 't' && k[3] == 't' && k[4] == 'y');
    }
    word_is_its_own(k, Separator::Whitespace);
    assert(seq![k].push("-e"@) =~= seq![k, "-e"@]);
    let first = words(term, Separator::Whitespace)[0];
    assert(seq![first].push("-e"@) =~= seq![first, "-e"@]);
}

/// An icon that is named by its path leads to that path if the file is there;
/// one that is named otherwise to what the index holds under its lower-case
/// name.
pub proof fn icons_lead_to_files(value: Seq<char>, index: Map<Seq<char>, Seq<char>>, exists: bool)
    ensures
        value.len() > 0 && value[0] == '/' ==> icon_from(value).resolved(index, exists) == (
        if exists {
            Some(value)
        } else {
            None
        }),
        !(value.len() > 0 && value[0] == '/') ==> icon_from(value).resolved(index, exists) == (
        if index.contains_key(lowercase(value)) {
            Some(index[lowercase(value)])
        } else {
            None
        }),
{
}

/// The user's own applications come before those of the shared data directories,
/// in their order, and those of the other package system come last.
pub proof fn own_applications_come_first(home: Seq<char>, data_dirs: Seq<char>, i: int)
    ensures
        application_dirs(Some(home), Some(data_dirs))[0] == joined(
            home,
            ".local/share/applications"@,
        ),
        0 <= i < split(data_dirs, Separator::Char(':')).len() ==> application_dirs(
            Some(home),
            Some(data_dirs),
        )[i + 1] == joined(split(data_dirs, Separator::Char(':'))[i], "applications"@),
        application_dirs(Some(home), Some(data_dirs)).len() == split(
            data_dirs,
            Separator::Char(':'),
        ).len() + 2,
        application_dirs(Some(home), Some(data_dirs)).last()
            == "/var/lib/flatpak/exports/share/applications"@,
        application_dirs(None, Some(data_dirs)) == application_dirs(
            Some(home),
            Some(data_dirs),
        ).drop_first(),
{
    assert(application_dirs(None, Some(data_dirs)) =~= application_dirs(
        Some(home),
        Some(data_dirs),
    ).drop_first());
}

/// An action of a file that names no application is shown under its own name.
pub proof fn nameless_applications_have_actions(
    content: Seq<char>,
    which: Keywords,
    listed: int,
    i: int,
    n: int,
    c: int,
)
    requires
        forall|k: int| !#[trigger] first_at(settings(content), "Desktop Entry"@, "Name"@, k),
        last_at(settings(content), "Desktop Entry"@, "Actions"@, listed),
        0 <= i < words(settings(content)[listed].value, Separator::Char(';')).len(),
        last_at(
            settings(content),
            "Desktop Action "@ + words(settings(content)[listed].value, Separator::Char(';'))[i],
            "Name"@,
            n,
        ),
        last_at(
            settings(content),
            "Desktop Action "@ + words(settings(content)[listed].value, Separator::Char(';'))[i],
            "Exec"@,
            c,
        ),
        forall|k: int|
            0 <= k < settings(content).len() && (last_at(
                settings(content),
                "Desktop Entry"@,
                "NoDisplay"@,
                k,
            ) || last_at(settings(content), "Desktop Entry"@, "Hidden"@, k)) ==> (
            #[trigger] settings(content)[k]).value != "true"@,
    ensures
        exists|k: int|
            0 <= k < desktop_entries(content, which).len() && (#[trigger] desktop_entries(
                content,
                which,
            )[k]).name == settings(content)[n].value && desktop_entries(content, which)[k].command
                == settings(content)[c].value,
{
    let all = settings(content);
    let m = "Desktop Entry"@;
    let ids = words(all[listed].value, Separator::Char(';'));
    let section = "Desktop Action "@ + ids[i];
    unlisted_asks_to_hide(all);
    first_value_is_first(all, m, "Name"@);
    last_value_is_last(all, m, "Actions"@);
    last_value_is_last(all, section, "Name"@);
    last_value_is_last(all, section, "Exec"@);
    assert(last_items(all, m, "Actions"@) == ids);
    assert(action_section(ids[i]) == section);
    action_launches_are_listed(all, ids, i);
    let k = choose|k: int|
        0 <= k < action_launches(all, ids).len() && #[trigger] action_launches(all, ids)[k]
            == action_launch(all, ids[i])[0];
    let at = main_launch(all).len() + k;
    assert(launches(all)[at] == action_launch(all, ids[i])[0]);
    assert(desktop_entries(content, which)[at] == entry_for(all, launches(all)[at], which));
}

/// Where the first list of keywords counts, an application has the keywords of
/// the first list in its main section that is not empty.
pub proof fn first_keywords_count(content: Seq<char>, n: int, c: int, k: int)
    requires
        first_at(settings(content), "Desktop Entry"@, "Name"@, n),
        last_at(settings(content), "Desktop Entry"@, "Exec"@, c),
        forall|j: int|
            0 <= j < settings(content).len() && (last_at(
                settings(content),
                "Desktop Entry"@,
                "NoDisplay"@,
                j,
            ) || last_at(settings(content), "Desktop Entry"@, "Hidden"@, j)) ==> (
            #[trigger] settings(content)[j]).value != "true"@,
        0 <= k < settings(content).len(),
        settings(content)[k].section == "Desktop Entry"@,
        settings(content)[k].key == "Keywords"@,
        words(settings(content)[k].value, Separator::Char(';')).len() > 0,
        forall|j: int|
            0 <= j < k && (#[trigger] settings(content)[j]).section == "Desktop Entry"@ && settings(
                content,
            )[j].key == "Keywords"@ ==> words(
                settings(content)[j].value,
                Separator::Char(';'),
            ).len() == 0,
    ensures
        desktop_entries(content, Keywords::First).len() > 0,
        desktop_entries(content, Keywords::First)[0].keywords == words(
            settings(content)[k].value,
            Separator::Char(';'),
        ),
{
    let all = settings(content);
    let m = "Desktop Entry"@;
    application_comes_first(content, Keywords::First, n, c);
    first_value_is_first(all, m, "Name"@);
    last_value_is_last(all, m, "Exec"@);
    unlisted_asks_to_hide(all);
    first_items_are_first(all, m, "Keywords"@);
    let list = first_items(all, m, "Keywords"@);
    assert(all[k].section == m);
    assert(list.len() > 0);
    let i = choose|i: int|
        0 <= i < all.len() && (#[trigger] all[i]).section == m && all[i].key == "Keywords"@ && list
            == words(all[i].value, Separator::Char(';')) && forall|j: int|
            0 <= j < i && (#[trigger] all[j]).section == m && all[j].key == "Keywords"@ ==> words(
                all[j].value,
                Separator::Char(';'),
            ).len() == 0;
    assert(all[i].section == m);
    assert(i == k);
    assert(launches(all)[0] == main_launch(all)[0]);
    assert(desktop_entries(content, Keywords::First)[0] == entry_for(
        all,
        main_launch(all)[0],
        Keywords::First,
    ));
}

/// Without shared data directories the two standard ones are taken.
pub proof fn standard_data_directories(home: Option<Seq<char>>)
    ensures
        application_dirs(home, None) == application_dirs(
            home,
            Some("/usr/local/share:/usr/share"@),
        ),
{
}

proof fn first_of_the_name(all: Seq<DesktopEntryView>, i: int) -> (k: int)
    requires
        0 <= i < all.len(),
    ensures
        0 <= k <= i,
        lowercase(all[k].name) == lowercase(all[i].name),
        forall|j: int| 0 <= j < k ==> lowercase((#[trigger] all[j]).name) != lowercase(all[k].name),
    decreases i,
{
    if forall|j: int| 0 <= j < i ==> lowercase((#[trigger] all[j]).name) != lowercase(all[i].name) {
        i
    } else {
        let j = choose|j: int|
            0 <= j < i && lowercase((#[trigger] all[j]).name) == lowercase(all[i].name);
        first_of_the_name(all, j)
    }
}

/// Every entry of an application file that could be read and is the first of its
/// name is collected, or another of the same name, whatever the case, in its
/// place.
pub proof fn applications_are_collected(files: Seq<AppFileView>, i: int, k: int)
    requires
        0 <= i < files.len(),
        extension(files[i].file_name) == Some("desktop"@),
        forall|j: int| 0 <= j < i ==> (#[trigger] files[j]).file_name != files[i].file_name,
        files[i].content is Some,
        0 <= k < desktop_entries(files[i].content->0, Keywords::First).len(),
    ensures
        exists|n: int|
            0 <= n < collected(files).len() && lowercase((#[trigger] collected(files)[n]).name)
                == lowercase(desktop_entries(files[i].content->0, Keywords::First)[k].name),
{
    let chosen = first_files(files);
    let all = entries_in(chosen, Keywords::First);
    let e = desktop_entries(files[i].content->0, Keywords::First)[k];
    first_files_are_first(files);
    assert(chosen.contains(files[i]));
    let at = choose|at: int| 0 <= at < chosen.len() && chosen[at] == files[i];
    gathered_are_entries(chosen, Keywords::First, e);
    assert(chosen[at].content == files[i].content);
    assert(desktop_entries(files[i].content->0, Keywords::First).contains(e));
    assert(all.contains(e));
    let m = choose|m: int| 0 <= m < all.len() && all[m] == e;
    let first = first_of_the_name(all, m);
    first_of_each_name_stays(all, first);
    let n = choose|n: int| 0 <= n < collected(files).len() && collected(files)[n] == all[first];
    assert(lowercase(collected(files)[n].name) == lowercase(e.name));
}

/// Everything that is collected is an entry of an application file, the first of
/// its name; it comes in ascending order of the names, whatever the case, and no
/// name comes twice.
pub proof fn collected_are_applications(files: Seq<AppFileView>, n: int)
    requires
        0 <= n < collected(files).len(),
    ensures
        exists|i: int|
            0 <= i < files.len() && ((#[trigger] files[i]).content matches Some(c)
                && desktop_entries(c, Keywords::First).contains(collected(files)[n])) && extension(
                files[i].file_name,
            ) == Some("desktop"@) && forall|j: int|
                0 <= j < i ==> (#[trigger] files[j]).file_name != files[i].file_name,
        forall|a: int, b: int|
            0 <= a < b < collected(files).len() ==> precedes(
                lowercase((#[trigger] collected(files)[a]).name),
                lowercase((#[trigger] collected(files)[b]).name),
            ),
{
    let chosen = first_files(files);
    let all = entries_in(chosen, Keywords::First);
    let kept = first_names(all);
    let e = collected(files)[n];
    collected_names_ascend(all);
    sorting_keeps_entries(kept, n);
    let k = choose|k: int| 0 <= k < kept.len() && kept[k] == e;
    first_names_are_distinct(all);
    assert(all.contains(kept[k]));
    gathered_are_entries(chosen, Keywords::First, e);
    let m = choose|m: int|
        0 <= m < chosen.len() && ((#[trigger] chosen[m]).content matches Some(c)
            && desktop_entries(c, Keywords::First).contains(e));
    first_files_are_first(files);
    let i = choose|i: int|
        0 <= i < files.len() && #[trigger] files[i] == chosen[m] && extension(files[i].file_name)
            == Some("desktop"@) && forall|j: int|
            0 <= j < i ==> (#[trigger] files[j]).file_name != files[i].file_name;
    assert(files[i].content == chosen[m].content);
}

} // verus!

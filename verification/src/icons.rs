//! Icon files: where icon themes keep them, the index by name, cached pictures.

use crate::desktop::{
    append_all, join_each, slice_text, DesktopEntry, DesktopEntryView, entry_views,
};
use crate::icon_index::{offered, IconIndex};
use crate::keyfile::text_of;
use crate::path::{
    extension, extension_is_replaced, extension_of, file_name, file_name_of, join, joined,
    joined_name_is_the_file_name, last_at_is_last, set_extension, stem, stem_of, with_extension,
};
use crate::text::{
    chars_of, concat, lines, lines_of, lowercase, same, split, split_chars, starts_with_chars,
    string_of, to_lowercase, views, Separator,
};
use vstd::prelude::*;
use vstd::slice::slice_subrange;

verus! {

/// The directories of an icon theme that hold application icons.
pub open spec fn size_dirs(theme_dir: Seq<char>, sizes: Seq<Seq<char>>) -> Seq<Seq<char>>
    decreases sizes.len(),
{
    if sizes.len() == 0 {
        Seq::empty()
    } else {
        let dir = joined(theme_dir, sizes.last());
        size_dirs(theme_dir, sizes.drop_last()) + seq![
            joined(dir, "apps"@),
            joined(dir, "applications"@),
        ]
    }
}

/// The directories of an icon theme under several bases.
pub open spec fn theme_dirs(
    bases: Seq<Seq<char>>,
    theme: Seq<char>,
    sizes: Seq<Seq<char>>,
) -> Seq<Seq<char>>
    decreases bases.len(),
{
    if bases.len() == 0 {
        Seq::empty()
    } else {
        theme_dirs(bases.drop_last(), theme, sizes) + size_dirs(joined(bases.last(), theme), sizes)
    }
}

/// Lists the directories of an icon theme that hold application icons.
pub fn list_size_dirs(theme_dir: &str, sizes: &Vec<String>) -> (r: Vec<String>)
    ensures
        views(r@) == size_dirs(theme_dir@, views(sizes@)),
{
    let ghost sv = views(sizes@);
    let mut r: Vec<String> = Vec::new();
    let mut i: usize = 0;
    assert(views(r@) == size_dirs(theme_dir@, sv.take(0)));
    while i < sizes.len()
        invariant
            i <= sizes.len(),
            sv == views(sizes@),
            views(r@) == size_dirs(theme_dir@, sv.take(i as int)),
        decreases sizes.len() - i,
    {
        proof {
            assert(sv.take(i + 1).drop_last() == sv.take(i as int));
            assert(sv.take(i + 1).last() == sizes@[i as int]@);
        }
        let ghost head = r@;
        let dir = join(theme_dir, sizes[i].as_str());
        r.push(join(dir.as_str(), "apps"));
        r.push(join(dir.as_str(), "applications"));
        assert(views(r@) == views(head) + seq![
            joined(dir@, "apps"@),
            joined(dir@, "applications"@),
        ]);
        i = i + 1;
    }
    assert(sv.take(sv.len() as int) == sv);
    r
}

/// Lists the directories of an icon theme under several bases.
pub fn list_theme_dirs(bases: &Vec<String>, theme: &str, sizes: &Vec<String>) -> (r: Vec<String>)
    ensures
        views(r@) == theme_dirs(views(bases@), theme@, views(sizes@)),
{
    let ghost bv = views(bases@);
    let mut r: Vec<String> = Vec::new();
    let mut i: usize = 0;
    assert(views(r@) == theme_dirs(bv.take(0), theme@, views(sizes@)));
    while i < bases.len()
        invariant
            i <= bases.len(),
            bv == views(bases@),
            views(r@) == theme_dirs(bv.take(i as int), theme@, views(sizes@)),
        decreases bases.len() - i,
    {
        proof {
            assert(bv.take(i + 1).drop_last() == bv.take(i as int));
            assert(bv.take(i + 1).last() == bases@[i as int]@);
        }
        let dir = join(bases[i].as_str(), theme);
        append_all(&mut r, list_size_dirs(dir.as_str(), sizes));
        i = i + 1;
    }
    assert(bv.take(bv.len() as int) == bv);
    r
}

/// The sizes in which application icons are looked for, best first.
pub open spec fn icon_sizes() -> Seq<Seq<char>> {
    seq!["48x48"@, "64x64"@, "128x128"@, "256x256"@, "512x512"@, "32x32"@, "scalable"@]
}

/// Lists texts given as slices.
pub fn list_of(v: &[&str]) -> (r: Vec<String>)
    ensures
        views(r@) == v@.map_values(|s: &str| s@),
{
    let mut r: Vec<String> = Vec::new();
    let mut i: usize = 0;
    while i < v.len()
        invariant
            i <= v.len(),
            r@.len() == i,
            forall|j: int| 0 <= j < i ==> (#[trigger] r@[j])@ == v@[j]@,
        decreases v.len() - i,
    {
        r.push(v[i].to_owned());
        i = i + 1;
    }
    assert(views(r@) == v@.map_values(|s: &str| s@));
    r
}

/// The directories that hold icon themes.
pub open spec fn icon_bases(home: Option<Seq<char>>, data_dirs: Option<Seq<char>>) -> Seq<
    Seq<char>,
> {
    let own = match home {
        Some(h) => seq![joined(h, ".icons"@), joined(h, ".local/share/icons"@)],
        None => Seq::empty(),
    };
    let shared = match data_dirs {
        Some(d) => split(d, Separator::Char(':')).map_values(|d: Seq<char>| joined(d, "icons"@)),
        None => Seq::empty(),
    };
    own + seq!["/run/current-system/sw/share/icons"@, "/usr/share/icons"@] + shared
}

/// Lists the directories that hold icon themes.
pub fn list_icon_bases(home: Option<&str>, data_dirs: Option<&str>) -> (r: Vec<String>)
    ensures
        views(r@) == icon_bases(slice_text(home), slice_text(data_dirs)),
{
    let mut r: Vec<String> = Vec::new();
    match home {
        Some(h) => {
            r.push(join(h, ".icons"));
            r.push(join(h, ".local/share/icons"));
        },
        None => {},
    }
    let ghost own = match home {
        Some(h) => seq![joined(h@, ".icons"@), joined(h@, ".local/share/icons"@)],
        None => Seq::empty(),
    };
    assert(views(r@) == own);
    r.push("/run/current-system/sw/share/icons".to_owned());
    r.push("/usr/share/icons".to_owned());
    assert(views(r@) == own + seq!["/run/current-system/sw/share/icons"@, "/usr/share/icons"@]);
    match data_dirs {
        Some(d) => {
            let dirs = split_chars(chars_of(d).as_slice(), Separator::Char(':'));
            append_all(&mut r, join_each(&dirs, "icons"));
        },
        None => {
            assert(views(r@) == views(r@) + Seq::<Seq<char>>::empty());
        },
    }
    r
}

/// The directories of loose pictures.
pub open spec fn pixmap_dirs() -> Seq<Seq<char>> {
    seq!["/run/current-system/sw/share/pixmaps"@, "/usr/share/pixmaps"@]
}

/// The directories in which icons are looked for, best first: the chosen theme
/// where there is one, the fallback theme, loose pictures.
pub open spec fn icon_dirs(
    home: Option<Seq<char>>,
    data_dirs: Option<Seq<char>>,
    theme: Option<Seq<char>>,
) -> Seq<Seq<char>> {
    let bases = icon_bases(home, data_dirs);
    let chosen = match theme {
        Some(t) => theme_dirs(bases, t, icon_sizes()),
        None => Seq::empty(),
    };
    chosen + theme_dirs(bases, "hicolor"@, icon_sizes()) + pixmap_dirs()
}

/// Lists the directories in which icons are looked for, best first.
pub fn list_icon_dirs(home: Option<&str>, data_dirs: Option<&str>, theme: Option<&str>) -> (r: Vec<
    String,
>)
    ensures
        views(r@) == icon_dirs(slice_text(home), slice_text(data_dirs), slice_text(theme)),
{
    let bases = list_icon_bases(home, data_dirs);
    let sizes = list_of(
        &["48x48", "64x64", "128x128", "256x256", "512x512", "32x32", "scalable"],
    );
    assert(views(sizes@) == icon_sizes());
    let mut r = match theme {
        Some(t) => list_theme_dirs(&bases, t, &sizes),
        None => {
            let none: Vec<String> = Vec::new();
            assert(views(none@) == Seq::<Seq<char>>::empty());
            none
        },
    };
    append_all(&mut r, list_theme_dirs(&bases, "hicolor", &sizes));
    let loose = list_of(&["/run/current-system/sw/share/pixmaps", "/usr/share/pixmaps"]);
    assert(views(loose@) == pixmap_dirs());
    append_all(&mut r, loose);
    r
}

/// A text without the given prefix, as often as it stands in front.
pub open spec fn strip_all(s: Seq<char>, prefix: Seq<char>) -> Seq<char>
    decreases s.len(),
{
    if prefix.len() > 0 && prefix.is_prefix_of(s) {
        strip_all(s.skip(prefix.len() as int), prefix)
    } else {
        s
    }
}

/// The icon theme that the first of the given lines chooses.
pub open spec fn theme_on(all: Seq<Seq<char>>) -> Option<Seq<char>>
    decreases all.len(),
{
    if all.len() == 0 {
        None
    } else if "gtk-icon-theme-name="@.is_prefix_of(all[0]) {
        Some(strip_all(all[0], "gtk-icon-theme-name="@))
    } else {
        theme_on(all.drop_first())
    }
}

fn strip_all_chars(s: &[char], prefix: &[char]) -> (r: String)
    requires
        prefix@.len() > 0,
    ensures
        r@ == strip_all(s@, prefix@),
{
    let ghost whole = s@;
    let mut rest = s;
    while starts_with_chars(rest, prefix)
        invariant
            prefix@.len() > 0,
            strip_all(whole, prefix@) == strip_all(rest@, prefix@),
        decreases rest@.len(),
    {
        let next = slice_subrange(rest, prefix.len(), rest.len());
        assert(next@ == rest@.skip(prefix@.len() as int));
        rest = next;
    }
    string_of(rest)
}

/// Reads the chosen icon theme out of the toolkit's settings file.
pub fn gtk_icon_theme(content: &str) -> (r: Option<String>)
    ensures
        text_of(r) == theme_on(lines(content@)),
{
    let all = lines_of(content);
    let ghost av = lines(content@);
    let key = chars_of("gtk-icon-theme-name=");
    let mut i: usize = 0;
    assert(av.skip(0) == av);
    proof {
        reveal_strlit("gtk-icon-theme-name=");
    }
    while i < all.len()
        invariant
            i <= all.len(),
            av == lines(content@),
            views(all@) == av,
            key@ == "gtk-icon-theme-name="@,
            key@.len() > 0,
            theme_on(av) == theme_on(av.skip(i as int)),
        decreases all.len() - i,
    {
        let line = chars_of(all[i].as_str());
        proof {
            assert(av.skip(i as int)[0] == line@);
            assert(av.skip(i as int).drop_first() == av.skip(i + 1));
        }
        if starts_with_chars(line.as_slice(), key.as_slice()) {
            return Some(strip_all_chars(line.as_slice(), key.as_slice()));
        }
        i = i + 1;
    }
    None
}

/// The index of icon files by the lower-case stems of their names, the first
/// file of each stem.
pub open spec fn indexed(paths: Seq<Seq<char>>) -> Map<Seq<char>, Seq<char>>
    decreases paths.len(),
{
    if paths.len() == 0 {
        Map::empty()
    } else {
        let before = indexed(paths.drop_last());
        match file_name(paths.last()) {
            Some(n) => offered(before, lowercase(stem(n)), paths.last()),
            None => before,
        }
    }
}

/// Builds the icon index from the files found in the icon directories, in the
/// order of the directories.
pub fn build_icon_index(paths: &Vec<String>) -> (r: IconIndex)
    ensures
        r@ == indexed(views(paths@)),
{
    let ghost pv = views(paths@);
    let mut r = IconIndex::new();
    let mut i: usize = 0;
    while i < paths.len()
        invariant
            i <= paths.len(),
            pv == views(paths@),
            r@ == indexed(pv.take(i as int)),
        decreases paths.len() - i,
    {
        proof {
            assert(pv.take(i + 1).drop_last() == pv.take(i as int));
            assert(pv.take(i + 1).last() == paths@[i as int]@);
        }
        match file_name_of(paths[i].as_str()) {
            Some(n) => {
                let s = stem_of(n.as_str());
                r.offer(to_lowercase(s.as_str()), paths[i].clone());
            },
            None => {},
        }
        i = i + 1;
    }
    assert(pv.take(pv.len() as int) == pv);
    r
}

/// The index of icon files by the stems of their names as they are, the first
/// file of each stem. Scalable pictures count or not.
pub open spec fn named(paths: Seq<Seq<char>>, scalable: bool) -> Map<Seq<char>, Seq<char>>
    decreases paths.len(),
{
    if paths.len() == 0 {
        Map::empty()
    } else {
        let before = named(paths.drop_last(), scalable);
        match file_name(paths.last()) {
            Some(n) => if !scalable && extension(n) == Some("svg"@) {
                before
            } else {
                offered(before, stem(n), paths.last())
            },
            None => before,
        }
    }
}

/// Builds the index of icon files by their names as they are.
pub fn build_name_index(paths: &Vec<String>, scalable: bool) -> (r: IconIndex)
    ensures
        r@ == named(views(paths@), scalable),
{
    let ghost pv = views(paths@);
    let mut r = IconIndex::new();
    let mut i: usize = 0;
    while i < paths.len()
        invariant
            i <= paths.len(),
            pv == views(paths@),
            r@ == named(pv.take(i as int), scalable),
        decreases paths.len() - i,
    {
        proof {
            assert(pv.take(i + 1).drop_last() == pv.take(i as int));
            assert(pv.take(i + 1).last() == paths@[i as int]@);
        }
        match file_name_of(paths[i].as_str()) {
            Some(n) => {
                let svg = match extension_of(n.as_str()) {
                    Some(e) => same(e.as_str(), "svg"),
                    None => false,
                };
                if scalable || !svg {
                    r.offer(stem_of(n.as_str()), paths[i].clone());
                }
            },
            None => {},
        }
        i = i + 1;
    }
    assert(pv.take(pv.len() as int) == pv);
    r
}

/// Whether a path is that of a scalable picture.
pub open spec fn is_svg(path: Seq<char>) -> bool {
    file_name(path) matches Some(n) && extension(n) == Some("svg"@)
}

/// Where the bitmap of a scalable picture is kept.
pub open spec fn cached_bitmap(cache_dir: Seq<char>, path: Seq<char>) -> Seq<char> {
    with_extension(joined(cache_dir, stem(file_name(path).unwrap())), "png"@)
}

/// The bitmap to make for an indexed file, if that is a scalable picture.
pub fn bitmap_for(cache_dir: &str, path: &str) -> (r: Option<String>)
    ensures
        r is Some <==> is_svg(path@),
        r matches Some(b) ==> b@ == cached_bitmap(cache_dir@, path@),
{
    match file_name_of(path) {
        Some(n) => match extension_of(n.as_str()) {
            Some(e) => if same(e.as_str(), "svg") {
                let s = stem_of(n.as_str());
                let p = join(cache_dir, s.as_str());
                Some(set_extension(p.as_str(), "png"))
            } else {
                None
            },
            None => None,
        },
        None => None,
    }
}

/// The arguments with which the converter makes a bitmap.
pub fn convert_args(path: &str, bitmap: &str) -> (r: Vec<String>)
    ensures
        views(r@) == seq![
            "-background"@,
            "none"@,
            path@,
            "-resize"@,
            "128x128"@,
            "png32:"@ + bitmap@,
        ],
{
    let mut r: Vec<String> = Vec::new();
    r.push("-background".to_owned());
    r.push("none".to_owned());
    r.push(path.to_owned());
    r.push("-resize".to_owned());
    r.push("128x128".to_owned());
    r.push(concat("png32:", bitmap));
    assert(views(r@) == seq![
        "-background"@,
        "none"@,
        path@,
        "-resize"@,
        "128x128"@,
        "png32:"@ + bitmap@,
    ]);
    r
}

/// An index whose scalable pictures are replaced by their bitmaps under the
/// names for which those are there.
pub open spec fn with_bitmaps(
    index: Map<Seq<char>, Seq<char>>,
    cache_dir: Seq<char>,
    ready: Seq<Seq<char>>,
) -> Map<Seq<char>, Seq<char>> {
    Map::new(
        |n: Seq<char>| index.contains_key(n),
        |n: Seq<char>|
            if ready.contains(n) && is_svg(index[n]) {
                cached_bitmap(cache_dir, index[n])
            } else {
                index[n]
            },
    )
}

/// Points the index at the cached bitmaps. `ready` lists the names whose
/// bitmap is there, made before or just now; no name twice.
pub fn cache_svgs(index: &mut IconIndex, cache_dir: &str, ready: &Vec<String>)
    requires
        views(ready@).no_duplicates(),
    ensures
        final(index)@ == with_bitmaps(old(index)@, cache_dir@, views(ready@)),
{
    let ghost before = index@;
    let ghost rv = views(ready@);
    let mut i: usize = 0;
    assert(index@ =~= with_bitmaps(before, cache_dir@, rv.take(0)));
    while i < ready.len()
        invariant
            i <= ready.len(),
            rv == views(ready@),
            rv.no_duplicates(),
            index@ == with_bitmaps(before, cache_dir@, rv.take(i as int)),
        decreases ready.len() - i,
    {
        let ghost seen = rv.take(i as int);
        let ghost name = rv[i as int];
        proof {
            assert(!seen.contains(name));
            assert(rv.take(i + 1) == seen.push(name));
            assert forall|n: Seq<char>| #[trigger] rv.take(i + 1).contains(n) <==> (seen.contains(n)
                || n == name) by {
                assert(seen.push(name)[i as int] == name);
                if seen.contains(n) {
                    let k = choose|k: int| 0 <= k < seen.len() && seen[k] == n;
                    assert(seen.push(name)[k] == n);
                }
            }
        }
        match index.get(ready[i].as_str()) {
            Some(path) => match bitmap_for(cache_dir, path.as_str()) {
                Some(b) => {
                    index.replace(ready[i].as_str(), b);
                },
                None => {},
            },
            None => {},
        }
        assert(index@ =~= with_bitmaps(before, cache_dir@, rv.take(i + 1)));
        i = i + 1;
    }
    assert(rv.take(rv.len() as int) == rv);
}

/// The directory of cached bitmaps, under the runtime directory where one is
/// set.
pub fn svg_cache_dir(runtime: Option<&str>) -> (r: String)
    ensures
        r@ == joined(
            match slice_text(runtime) {
                Some(d) => d,
                None => "/tmp"@,
            },
            "launcher-svg-cache"@,
        ),
{
    match runtime {
        Some(d) => join(d, "launcher-svg-cache"),
        None => join("/tmp", "launcher-svg-cache"),
    }
}

/// The icon files by lower-case window class: for each entry that has both a
/// class and an icon that resolves, unless its class came before. `exists`
/// says of each entry whether the file of a path reference is there.
pub open spec fn class_icons(
    entries: Seq<DesktopEntryView>,
    index: Map<Seq<char>, Seq<char>>,
    exists: Seq<bool>,
) -> Map<Seq<char>, Seq<char>>
    decreases entries.len(),
{
    if entries.len() == 0 {
        Map::empty()
    } else {
        let before = class_icons(entries.drop_last(), index, exists);
        let e = entries.last();
        match (e.wm_class, e.icon) {
            (Some(class), Some(icon)) => match icon.resolved(index, exists[entries.len() - 1]) {
                Some(path) => offered(before, lowercase(class), path),
                None => before,
            },
            _ => before,
        }
    }
}

/// Maps window classes to icon files.
pub fn wmclass_icon_map(
    entries: &Vec<DesktopEntry>,
    icon_index: &IconIndex,
    exists: &Vec<bool>,
) -> (r: IconIndex)
    requires
        exists@.len() == entries@.len(),
    ensures
        r@ == class_icons(entry_views(entries@), icon_index@, exists@),
{
    let ghost ev = entry_views(entries@);
    let mut r = IconIndex::new();
    let mut i: usize = 0;
    while i < entries.len()
        invariant
            i <= entries.len(),
            exists@.len() == entries@.len(),
            ev == entry_views(entries@),
            r@ == class_icons(ev.take(i as int), icon_index@, exists@),
        decreases entries.len() - i,
    {
        proof {
            assert(ev.take(i + 1).drop_last() == ev.take(i as int));
            assert(ev.take(i + 1).last() == entries@[i as int]@);
        }
        match (&entries[i].wm_class, &entries[i].icon) {
            (Some(class), Some(icon)) => match icon.resolve(icon_index, exists[i]) {
                Some(path) => {
                    r.offer(to_lowercase(class.as_str()), path);
                },
                None => {},
            },
            _ => {},
        }
        i = i + 1;
    }
    assert(ev.take(ev.len() as int) == ev);
    r
}

/// Each size of a theme has two directories, in the order of the sizes.
pub proof fn sizes_come_in_order(theme_dir: Seq<char>, sizes: Seq<Seq<char>>)
    ensures
        size_dirs(theme_dir, sizes).len() == 2 * sizes.len(),
        forall|i: int|
            #![trigger sizes[i]]
            0 <= i < sizes.len() ==> size_dirs(theme_dir, sizes)[2 * i] == joined(
                joined(theme_dir, sizes[i]),
                "apps"@,
            ) && size_dirs(theme_dir, sizes)[2 * i + 1] == joined(
                joined(theme_dir, sizes[i]),
                "applications"@,
            ),
    decreases sizes.len(),
{
    if sizes.len() > 0 {
        let part = sizes.drop_last();
        let n = sizes.len() - 1;
        sizes_come_in_order(theme_dir, part);
        assert(sizes[n] == sizes.last());
        assert(forall|i: int| 0 <= i < n ==> #[trigger] sizes[i] == part[i]);
        assert forall|i: int| #![trigger sizes[i]] 0 <= i < sizes.len() implies size_dirs(
            theme_dir,
            sizes,
        )[2 * i] == joined(joined(theme_dir, sizes[i]), "apps"@) && size_dirs(
            theme_dir,
            sizes,
        )[2 * i + 1] == joined(joined(theme_dir, sizes[i]), "applications"@) by {
            if i < n {
                assert(part[i] == sizes[i]);
            }
        }
    }
}

/// A theme is looked for under each base in turn, in all sizes.
pub proof fn bases_come_in_order(bases: Seq<Seq<char>>, theme: Seq<char>, sizes: Seq<Seq<char>>)
    ensures
        theme_dirs(bases, theme, sizes).len() == bases.len() * (2 * sizes.len()),
        forall|b: int, k: int|
            #![trigger size_dirs(joined(bases[b], theme), sizes)[k]]
            0 <= b < bases.len() && 0 <= k < 2 * sizes.len() ==> theme_dirs(
                bases,
                theme,
                sizes,
            )[b * (2 * sizes.len()) + k] == size_dirs(joined(bases[b], theme), sizes)[k],
    decreases bases.len(),
{
    let w = 2 * sizes.len() as int;
    if bases.len() > 0 {
        let part = bases.drop_last();
        let n = bases.len() - 1;
        let before = theme_dirs(part, theme, sizes);
        let all = theme_dirs(bases, theme, sizes);
        bases_come_in_order(part, theme, sizes);
        sizes_come_in_order(joined(bases.last(), theme), sizes);
        assert(bases[n] == bases.last());
        assert((n + 1) * w == n * w + w) by (nonlinear_arith);
        assert forall|b: int, k: int|
            #![trigger size_dirs(joined(bases[b], theme), sizes)[k]]
            0 <= b < bases.len() && 0 <= k < w implies all[b * w + k] == size_dirs(
            joined(bases[b], theme),
            sizes,
        )[k] by {
            if b < n {
                assert(part[b] == bases[b]);
                assert(before[b * w + k] == size_dirs(joined(part[b], theme), sizes)[k]);
                assert(0 <= b * w + k < n * w) by (nonlinear_arith)
                    requires
                        0 <= b < n,
                        0 <= k < w,
                ;
            }
        }
    } else {
        assert(0 * w == 0);
    }
}

/// The chosen theme is looked through before the fallback theme, and loose
/// pictures come last.
pub proof fn chosen_theme_comes_first(
    home: Option<Seq<char>>,
    data_dirs: Option<Seq<char>>,
    theme: Seq<char>,
)
    ensures
        theme_dirs(icon_bases(home, data_dirs), theme, icon_sizes()).is_prefix_of(
            icon_dirs(home, data_dirs, Some(theme)),
        ),
        icon_dirs(home, data_dirs, Some(theme)) == theme_dirs(
            icon_bases(home, data_dirs),
            theme,
            icon_sizes(),
        ) + icon_dirs(home, data_dirs, None),
        theme_dirs(icon_bases(home, data_dirs), "hicolor"@, icon_sizes()).is_prefix_of(
            icon_dirs(home, data_dirs, None),
        ),
        icon_dirs(home, data_dirs, None).last() == "/usr/share/pixmaps"@,
{
    let bases = icon_bases(home, data_dirs);
    let chosen = theme_dirs(bases, theme, icon_sizes());
    let plain = theme_dirs(bases, "hicolor"@, icon_sizes());
    let all = icon_dirs(home, data_dirs, Some(theme));
    let rest = icon_dirs(home, data_dirs, None);
    assert(rest =~= plain + pixmap_dirs());
    assert(all =~= chosen + rest);
    assert(chosen =~= all.subrange(0, chosen.len() as int));
    assert(plain =~= rest.subrange(0, plain.len() as int));
}

/// A text is freed of a prefix as often as it stands in front, and of nothing
/// else.
pub proof fn stripping_leaves_no_prefix(s: Seq<char>, prefix: Seq<char>)
    requires
        prefix.len() > 0,
    ensures
        !prefix.is_prefix_of(strip_all(s, prefix)),
        !prefix.is_prefix_of(s) ==> strip_all(s, prefix) == s,
        strip_all(prefix + s, prefix) == strip_all(s, prefix),
    decreases s.len(),
{
    let both = prefix + s;
    assert(prefix =~= both.subrange(0, prefix.len() as int));
    assert(both.skip(prefix.len() as int) =~= s);
    if prefix.is_prefix_of(s) {
        stripping_leaves_no_prefix(s.skip(prefix.len() as int), prefix);
    }
}

/// The chosen theme is named on the first line that sets it.
pub proof fn first_line_chooses_the_theme(all: Seq<Seq<char>>, k: int, name: Seq<char>)
    requires
        0 <= k < all.len(),
        all[k] == "gtk-icon-theme-name="@ + name,
        !"gtk-icon-theme-name="@.is_prefix_of(name),
        forall|j: int|
            0 <= j < k ==> !"gtk-icon-theme-name="@.is_prefix_of(#[trigger] all[j]),
    ensures
        theme_on(all) == Some(name),
    decreases k,
{
    let p = "gtk-icon-theme-name="@;
    assert(p.len() > 0) by {
        reveal_strlit("gtk-icon-theme-name=");
    }
    if k == 0 {
        assert(p =~= all[0].subrange(0, p.len() as int));
        stripping_leaves_no_prefix(name, p);
    } else {
        let rest = all.drop_first();
        assert(rest[k - 1] == all[k]);
        assert forall|j: int| 0 <= j < k - 1 implies !p.is_prefix_of(#[trigger] rest[j]) by {
            assert(rest[j] == all[j + 1]);
        }
        first_line_chooses_the_theme(rest, k - 1, name);
    }
}

/// Whether an icon file is indexed under a name: the stem of its own name is
/// that in lower case.
pub open spec fn indexed_under(path: Seq<char>, key: Seq<char>) -> bool {
    file_name(path) matches Some(n) && lowercase(stem(n)) == key
}

/// An icon is found under the lower-case stem of its file's name, and of the
/// files with the same the first counts.
pub proof fn first_file_is_indexed(paths: Seq<Seq<char>>, key: Seq<char>, i: int)
    requires
        0 <= i < paths.len(),
        indexed_under(paths[i], key),
        forall|j: int| 0 <= j < i ==> !indexed_under(#[trigger] paths[j], key),
    ensures
        indexed(paths).contains_key(key),
        indexed(paths)[key] == paths[i],
    decreases paths.len(),
{
    let part = paths.drop_last();
    let n = paths.len() - 1;
    if i < n {
        assert(part[i] == paths[i]);
        assert forall|j: int| 0 <= j < i implies !indexed_under(#[trigger] part[j], key) by {
            assert(part[j] == paths[j]);
        }
        first_file_is_indexed(part, key, i);
    } else if indexed(part).contains_key(key) {
        let k = indexed_names_have_files(part, key);
        assert(part[k] == paths[k]);
    }
}

/// Every name in the index is that of one of the files.
pub proof fn indexed_names_have_files(paths: Seq<Seq<char>>, key: Seq<char>) -> (i: int)
    requires
        indexed(paths).contains_key(key),
    ensures
        0 <= i < paths.len(),
        indexed_under(paths[i], key),
    decreases paths.len(),
{
    let part = paths.drop_last();
    let n = paths.len() - 1;
    assert(paths.len() > 0);
    if indexed(part).contains_key(key) {
        let i = indexed_names_have_files(part, key);
        assert(part[i] == paths[i]);
        i
    } else {
        n
    }
}

/// Whether a file counts under a name: the stem of its name is that, and it is
/// no scalable picture where those do not count.
pub open spec fn counts_under(path: Seq<char>, scalable: bool, key: Seq<char>) -> bool {
    file_name(path) matches Some(n) && stem(n) == key && (scalable || extension(n) != Some("svg"@))
}

/// An icon is found under the stem of its file's name as it is, and of the files
/// with the same the first counts.
pub proof fn first_file_is_named(paths: Seq<Seq<char>>, scalable: bool, key: Seq<char>, i: int)
    requires
        0 <= i < paths.len(),
        counts_under(paths[i], scalable, key),
        forall|j: int| 0 <= j < i ==> !counts_under(#[trigger] paths[j], scalable, key),
    ensures
        named(paths, scalable).contains_key(key),
        named(paths, scalable)[key] == paths[i],
    decreases paths.len(),
{
    let part = paths.drop_last();
    let n = paths.len() - 1;
    if i < n {
        assert(part[i] == paths[i]);
        assert forall|j: int| 0 <= j < i implies !counts_under(
            #[trigger] part[j],
            scalable,
            key,
        ) by {
            assert(part[j] == paths[j]);
        }
        first_file_is_named(part, scalable, key, i);
    } else if named(part, scalable).contains_key(key) {
        let k = names_have_files(part, scalable, key);
        assert(part[k] == paths[k]);
    }
}

/// Every name is that of one of the files that count.
pub proof fn names_have_files(paths: Seq<Seq<char>>, scalable: bool, key: Seq<char>) -> (i: int)
    requires
        named(paths, scalable).contains_key(key),
    ensures
        0 <= i < paths.len(),
        counts_under(paths[i], scalable, key),
    decreases paths.len(),
{
    let part = paths.drop_last();
    let n = paths.len() - 1;
    assert(paths.len() > 0);
    if named(part, scalable).contains_key(key) {
        let i = names_have_files(part, scalable, key);
        assert(part[i] == paths[i]);
        i
    } else {
        n
    }
}

/// Only scalable pictures whose bitmap is ready are replaced by it; every name
/// stays, and no other is added.
pub proof fn bitmaps_replace_scalable(
    index: Map<Seq<char>, Seq<char>>,
    cache_dir: Seq<char>,
    ready: Seq<Seq<char>>,
    n: Seq<char>,
)
    ensures
        with_bitmaps(index, cache_dir, ready).contains_key(n) == index.contains_key(n),
        index.contains_key(n) && !(ready.contains(n) && is_svg(index[n])) ==> with_bitmaps(
            index,
            cache_dir,
            ready,
        )[n] == index[n],
        index.contains_key(n) && ready.contains(n) && is_svg(index[n]) ==> with_bitmaps(
            index,
            cache_dir,
            ready,
        )[n] == cached_bitmap(cache_dir, index[n]),
{
}

/// Whether an entry gives an icon file to a window class, in lower case.
pub open spec fn gives_icon(
    e: DesktopEntryView,
    index: Map<Seq<char>, Seq<char>>,
    exists: bool,
    class: Seq<char>,
) -> bool {
    match (e.wm_class, e.icon) {
        (Some(c), Some(icon)) => lowercase(c) == class && icon.resolved(index, exists) is Some,
        _ => false,
    }
}

/// The icon of a window class is that of the first entry that has the class and
/// an icon that leads to a file.
pub proof fn first_entry_gives_the_icon(
    entries: Seq<DesktopEntryView>,
    index: Map<Seq<char>, Seq<char>>,
    exists: Seq<bool>,
    class: Seq<char>,
    i: int,
)
    requires
        0 <= i < entries.len(),
        gives_icon(entries[i], index, exists[i], class),
        forall|j: int|
            0 <= j < i ==> !gives_icon(#[trigger] entries[j], index, exists[j], class),
    ensures
        class_icons(entries, index, exists).contains_key(class),
        Some(class_icons(entries, index, exists)[class]) == entries[i].icon->0.resolved(
            index,
            exists[i],
        ),
    decreases entries.len(),
{
    let part = entries.drop_last();
    let n = entries.len() - 1;
    if i < n {
        assert(part[i] == entries[i]);
        assert forall|j: int| 0 <= j < i implies !gives_icon(
            #[trigger] part[j],
            index,
            exists[j],
            class,
        ) by {
            assert(part[j] == entries[j]);
        }
        first_entry_gives_the_icon(part, index, exists, class, i);
    } else if class_icons(part, index, exists).contains_key(class) {
        let k = classes_have_entries(part, index, exists, class);
        assert(part[k] == entries[k]);
    }
}

/// A class has an icon only if some entry gives it one.
pub proof fn classes_have_entries(
    entries: Seq<DesktopEntryView>,
    index: Map<Seq<char>, Seq<char>>,
    exists: Seq<bool>,
    class: Seq<char>,
) -> (i: int)
    requires
        class_icons(entries, index, exists).contains_key(class),
    ensures
        0 <= i < entries.len(),
        gives_icon(entries[i], index, exists[i], class),
    decreases entries.len(),
{
    let part = entries.drop_last();
    let n = entries.len() - 1;
    assert(entries.len() > 0);
    if class_icons(part, index, exists).contains_key(class) {
        let i = classes_have_entries(part, index, exists, class);
        assert(part[i] == entries[i]);
        i
    } else {
        n
    }
}

/// The bitmap of a scalable picture is kept in the cache directory under the
/// stem of the picture's name, with an extension of its own.
pub proof fn bitmaps_are_kept_by_stem(cache_dir: Seq<char>, dir: Seq<char>, n: Seq<char>)
    requires
        n.len() > 0,
        !n.contains('/'),
        n != seq!['.'],
        n != seq!['.', '.'],
        stem(n) != seq!['.'],
        stem(n) != seq!['.', '.'],
    ensures
        cached_bitmap(cache_dir, joined(dir, n)) == joined(
            cache_dir,
            stem(stem(n)) + seq!['.'] + "png"@,
        ),
{
    joined_name_is_the_file_name(dir, n);
    let s = stem(n);
    last_at_is_last(n, '.');
    if s.contains('/') {
        let i = choose|i: int| 0 <= i < s.len() && s[i] == '/';
        assert(n[i] == '/');
    }
    extension_is_replaced(cache_dir, s, "png"@);
}

/// The user's own icons come before the shared ones, and those of the data
/// directories last, in their order.
pub proof fn own_icons_come_first(home: Seq<char>, data_dirs: Seq<char>, i: int)
    ensures
        ({
            let all = icon_bases(Some(home), Some(data_dirs));
            let shared = split(data_dirs, Separator::Char(':'));
            &&& all.len() == shared.len() + 4
            &&& all[0] == joined(home, ".icons"@)
            &&& all[1] == joined(home, ".local/share/icons"@)
            &&& all[2] == "/run/current-system/sw/share/icons"@
            &&& all[3] == "/usr/share/icons"@
            &&& 0 <= i < shared.len() ==> all[i + 4] == joined(shared[i], "icons"@)
            &&& icon_bases(None, Some(data_dirs)) == all.skip(2)
            &&& icon_bases(Some(home), None) == all.take(4)
        }),
{
    let all = icon_bases(Some(home), Some(data_dirs));
    assert(icon_bases(None, Some(data_dirs)) =~= all.skip(2));
    assert(icon_bases(Some(home), None) =~= all.take(4));
}

} // verus!

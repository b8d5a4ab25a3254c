//! Key files: `key=value` lines under `[section]` headings.

use crate::text::{
    chars_of, position, position_is_first, position_of, same, split, split_chars, string_of, trim,
    trim_chars, views, words, words_of, Separator,
};
use vstd::prelude::*;
use vstd::slice::slice_subrange;

verus! {

/// One `key=value` line with the section it stands in.
pub struct Setting {
    pub section: String,
    pub key: String,
    pub value: String,
}

/// What a setting says.
pub struct SettingView {
    pub section: Seq<char>,
    pub key: Seq<char>,
    pub value: Seq<char>,
}

impl View for Setting {
    type V = SettingView;

    open spec fn view(&self) -> SettingView {
        SettingView { section: self.section@, key: self.key@, value: self.value@ }
    }
}

/// What a list of settings says.
pub open spec fn setting_views(v: Seq<Setting>) -> Seq<SettingView> {
    v.map_values(|s: Setting| s@)
}

/// The section that a line opens, if it is a heading.
pub open spec fn heading(line: Seq<char>) -> Option<Seq<char>> {
    if line.len() > 1 && line[0] == '[' && line.last() == ']' {
        Some(line.subrange(1, line.len() - 1))
    } else {
        None
    }
}

/// Whether a line is a comment.
pub open spec fn comment(line: Seq<char>) -> bool {
    line.len() > 0 && line[0] == '#'
}

/// Whether a line is neither a heading nor a comment and holds an equals sign.
pub open spec fn assigns(line: Seq<char>) -> bool {
    heading(line) is None && !comment(line) && position(line, '=') < line.len()
}

/// The section that is open after the given lines; empty before the first
/// heading.
pub open spec fn open_section(lines: Seq<Seq<char>>) -> Seq<char>
    decreases lines.len(),
{
    if lines.len() == 0 {
        Seq::empty()
    } else {
        match heading(trim(lines.last())) {
            Some(name) => name,
            None => open_section(lines.drop_last()),
        }
    }
}

/// The settings on the given lines, in order. White space around a line does
/// not count; a key ends at the first equals sign.
pub open spec fn settings_on(lines: Seq<Seq<char>>) -> Seq<SettingView>
    decreases lines.len(),
{
    if lines.len() == 0 {
        Seq::empty()
    } else {
        let before = settings_on(lines.drop_last());
        let line = trim(lines.last());
        if assigns(line) {
            let at = position(line, '=');
            before.push(
                SettingView {
                    section: open_section(lines.drop_last()),
                    key: line.take(at),
                    value: line.skip(at + 1),
                },
            )
        } else {
            before
        }
    }
}

/// The settings of a file.
pub open spec fn settings(content: Seq<char>) -> Seq<SettingView> {
    settings_on(split(content, Separator::Char('\n')))
}

/// Reads the settings of a file.
pub fn parse_settings(content: &str) -> (r: Vec<Setting>)
    ensures
        setting_views(r@) == settings(content@),
{
    let lines = split_chars(chars_of(content).as_slice(), Separator::Char('\n'));
    let ghost all = views(lines@);
    let mut r: Vec<Setting> = Vec::new();
    let mut section = String::new();
    let mut i: usize = 0;
    assert(section@ == Seq::<char>::empty());
    while i < lines.len()
        invariant
            i <= lines.len(),
            all == views(lines@),
            section@ == open_section(all.take(i as int)),
            setting_views(r@) == settings_on(all.take(i as int)),
        decreases lines.len() - i,
    {
        let raw = chars_of(lines[i].as_str());
        let line = trim_chars(raw.as_slice());
        let ghost seen = all.take(i + 1);
        proof {
            assert(seen.drop_last() == all.take(i as int));
            assert(seen.last() == raw@);
        }
        let ghost head = r@;
        let n: usize = line.len();
        if n > 1 && line[0] == '[' && line[n - 1] == ']' {
            section = string_of(slice_subrange(line, 1, n - 1));
        } else if n > 0 && line[0] == '#' {
        } else {
            let at: usize = position_of(line, '=');
            if at < n {
                let key = slice_subrange(line, 0, at);
                let value = slice_subrange(line, at + 1, n);
                assert(key@ == line@.take(at as int));
                assert(value@ == line@.skip(at + 1));
                r.push(
                    Setting {
                        section: section.clone(),
                        key: string_of(key),
                        value: string_of(value),
                    },
                );
                assert(setting_views(r@) == setting_views(head).push(r@.last()@));
            }
        }
        i = i + 1;
    }
    assert(all.take(all.len() as int) == all);
    r
}

/// Whether a setting stands in a section under a key.
pub open spec fn is_at(s: SettingView, section: Seq<char>, key: Seq<char>) -> bool {
    s.section == section && s.key == key
}

/// The value of the first setting in a section under a key.
pub open spec fn first_value(all: Seq<SettingView>, section: Seq<char>, key: Seq<char>) -> Option<
    Seq<char>,
>
    decreases all.len(),
{
    if all.len() == 0 {
        None
    } else {
        match first_value(all.drop_last(), section, key) {
            Some(v) => Some(v),
            None => if is_at(all.last(), section, key) {
                Some(all.last().value)
            } else {
                None
            },
        }
    }
}

/// The value of the last setting in a section under a key.
pub open spec fn last_value(all: Seq<SettingView>, section: Seq<char>, key: Seq<char>) -> Option<
    Seq<char>,
>
    decreases all.len(),
{
    if all.len() == 0 {
        None
    } else if is_at(all.last(), section, key) {
        Some(all.last().value)
    } else {
        last_value(all.drop_last(), section, key)
    }
}

/// The items of a semicolon-separated list.
pub open spec fn items(value: Seq<char>) -> Seq<Seq<char>> {
    words(value, Separator::Char(';'))
}

/// The items of the last list in a section under a key; none without one.
pub open spec fn last_items(all: Seq<SettingView>, section: Seq<char>, key: Seq<char>) -> Seq<
    Seq<char>,
> {
    match last_value(all, section, key) {
        Some(v) => items(v),
        None => Seq::empty(),
    }
}

/// The items of the first list in a section under a key that has any.
pub open spec fn first_items(all: Seq<SettingView>, section: Seq<char>, key: Seq<char>) -> Seq<
    Seq<char>,
>
    decreases all.len(),
{
    if all.len() == 0 {
        Seq::empty()
    } else {
        let before = first_items(all.drop_last(), section, key);
        if before.len() == 0 && is_at(all.last(), section, key) {
            items(all.last().value)
        } else {
            before
        }
    }
}

/// Whether the last setting in a section under a key is `true`.
pub open spec fn is_set(all: Seq<SettingView>, section: Seq<char>, key: Seq<char>) -> bool {
    last_value(all, section, key) == Some("true"@)
}

/// The text behind an optional string.
pub open spec fn text_of(o: Option<String>) -> Option<Seq<char>> {
    match o {
        Some(s) => Some(s@),
        None => None,
    }
}

fn stands_at(s: &Setting, section: &str, key: &str) -> (r: bool)
    ensures
        r == is_at(s@, section@, key@),
{
    same(s.section.as_str(), section) && same(s.key.as_str(), key)
}

/// Looks up the first value in a section under a key.
pub fn find_first(all: &Vec<Setting>, section: &str, key: &str) -> (r: Option<String>)
    ensures
        text_of(r) == first_value(setting_views(all@), section@, key@),
{
    let ghost av = setting_views(all@);
    let mut i: usize = 0;
    while i < all.len()
        invariant
            i <= all.len(),
            av == setting_views(all@),
            first_value(av.take(i as int), section@, key@) is None,
        decreases all.len() - i,
    {
        assert(av.take(i + 1).drop_last() == av.take(i as int));
        if stands_at(&all[i], section, key) {
            proof {
                let hit = av.take(i + 1);
                assert(hit.last() == all@[i as int]@);
                first_value_stays(av, section@, key@, i + 1);
            }
            return Some(all[i].value.clone());
        }
        i = i + 1;
    }
    assert(av.take(av.len() as int) == av);
    None
}

/// A first value found in a front part of the settings is that of the whole.
proof fn first_value_stays(all: Seq<SettingView>, section: Seq<char>, key: Seq<char>, n: int)
    requires
        0 <= n <= all.len(),
        first_value(all.take(n), section, key) is Some,
    ensures
        first_value(all, section, key) == first_value(all.take(n), section, key),
    decreases all.len(),
{
    if n == all.len() {
        assert(all.take(n) == all);
    } else {
        assert(all.drop_last().take(n) == all.take(n));
        first_value_stays(all.drop_last(), section, key, n);
    }
}

/// Looks up the last value in a section under a key.
pub fn find_last(all: &Vec<Setting>, section: &str, key: &str) -> (r: Option<String>)
    ensures
        text_of(r) == last_value(setting_views(all@), section@, key@),
{
    let ghost av = setting_views(all@);
    let mut i: usize = all.len();
    assert(av.take(av.len() as int) == av);
    while i > 0
        invariant
            i <= all.len(),
            av == setting_views(all@),
            last_value(av, section@, key@) == last_value(av.take(i as int), section@, key@),
        decreases i,
    {
        proof {
            assert(av.take(i as int).drop_last() == av.take(i - 1));
            assert(av.take(i as int).last() == all@[i - 1]@);
        }
        if stands_at(&all[i - 1], section, key) {
            return Some(all[i - 1].value.clone());
        }
        i = i - 1;
    }
    None
}

/// Splits a semicolon-separated list.
pub fn split_items(value: &str) -> (r: Vec<String>)
    ensures
        views(r@) == items(value@),
{
    words_of(chars_of(value).as_slice(), Separator::Char(';'))
}

/// Looks up the last list in a section under a key.
pub fn find_last_items(all: &Vec<Setting>, section: &str, key: &str) -> (r: Vec<String>)
    ensures
        views(r@) == last_items(setting_views(all@), section@, key@),
{
    match find_last(all, section, key) {
        Some(v) => split_items(v.as_str()),
        None => {
            let r: Vec<String> = Vec::new();
            assert(views(r@) == Seq::<Seq<char>>::empty());
            r
        },
    }
}

/// Looks up the first list in a section under a key that has any items.
pub fn find_first_items(all: &Vec<Setting>, section: &str, key: &str) -> (r: Vec<String>)
    ensures
        views(r@) == first_items(setting_views(all@), section@, key@),
{
    let ghost av = setting_views(all@);
    let mut r: Vec<String> = Vec::new();
    let mut i: usize = 0;
    assert(views(r@) == Seq::<Seq<char>>::empty());
    while i < all.len()
        invariant
            i <= all.len(),
            av == setting_views(all@),
            views(r@) == first_items(av.take(i as int), section@, key@),
        decreases all.len() - i,
    {
        proof {
            assert(av.take(i + 1).drop_last() == av.take(i as int));
            assert(av.take(i + 1).last() == all@[i as int]@);
            assert(views(r@).len() == r@.len());
        }
        if r.len() == 0 && stands_at(&all[i], section, key) {
            r = split_items(all[i].value.as_str());
        }
        i = i + 1;
    }
    assert(av.take(av.len() as int) == av);
    r
}

/// Whether the last setting in a section under a key is `true`.
pub fn flag(all: &Vec<Setting>, section: &str, key: &str) -> (r: bool)
    ensures
        r == is_set(setting_views(all@), section@, key@),
{
    match find_last(all, section, key) {
        Some(v) => same(v.as_str(), "true"),
        None => false,
    }
}

/// Whether a setting is the first in a section under a key.
pub open spec fn first_at(all: Seq<SettingView>, section: Seq<char>, key: Seq<char>, k: int) -> bool {
    &&& 0 <= k < all.len()
    &&& all[k].section == section && all[k].key == key
    &&& forall|j: int|
        0 <= j < k ==> !((#[trigger] all[j]).section == section && all[j].key == key)
}

/// Whether a setting is the last in a section under a key.
pub open spec fn last_at(all: Seq<SettingView>, section: Seq<char>, key: Seq<char>, k: int) -> bool {
    &&& 0 <= k < all.len()
    &&& all[k].section == section && all[k].key == key
    &&& forall|j: int|
        k < j < all.len() ==> !((#[trigger] all[j]).section == section && all[j].key == key)
}

/// The first value in a section under a key is that of the first setting there,
/// and there is one exactly if such a setting is.
pub proof fn first_value_is_first(all: Seq<SettingView>, section: Seq<char>, key: Seq<char>)
    ensures
        forall|k: int| #[trigger]
            first_at(all, section, key, k) ==> first_value(all, section, key) == Some(all[k].value),
        first_value(all, section, key) is Some ==> exists|k: int| #[trigger]
            first_at(all, section, key, k),
    decreases all.len(),
{
    if all.len() > 0 {
        let part = all.drop_last();
        let n = all.len() - 1;
        first_value_is_first(part, section, key);
        assert(forall|j: int| 0 <= j < n ==> #[trigger] all[j] == part[j]);
        if first_value(part, section, key) is Some {
            let k = choose|k: int| #[trigger] first_at(part, section, key, k);
            assert(all[k] == part[k]);
            assert(first_at(all, section, key, k));
            assert forall|m: int| #[trigger] first_at(all, section, key, m) implies m == k by {
                assert(all[k] == part[k]);
            }
        } else {
            assert forall|j: int| 0 <= j < n implies !((#[trigger] all[j]).section == section
                && all[j].key == key) by {
                if all[j].section == section && all[j].key == key {
                    let least = least_at(part, section, key, j);
                    assert(first_at(part, section, key, least));
                }
            }
            if is_at(all.last(), section, key) {
                assert(first_at(all, section, key, n));
            }
        }
    }
}

proof fn least_at(all: Seq<SettingView>, section: Seq<char>, key: Seq<char>, j: int) -> (k: int)
    requires
        0 <= j < all.len(),
        all[j].section == section && all[j].key == key,
    ensures
        first_at(all, section, key, k),
    decreases j,
{
    if forall|i: int|
        0 <= i < j ==> !((#[trigger] all[i]).section == section && all[i].key == key) {
        j
    } else {
        let i = choose|i: int|
            0 <= i < j && (#[trigger] all[i]).section == section && all[i].key == key;
        least_at(all, section, key, i)
    }
}

/// The last value in a section under a key is that of the last setting there,
/// and there is one exactly if such a setting is.
pub proof fn last_value_is_last(all: Seq<SettingView>, section: Seq<char>, key: Seq<char>)
    ensures
        forall|k: int| #[trigger]
            last_at(all, section, key, k) ==> last_value(all, section, key) == Some(all[k].value),
        last_value(all, section, key) is Some ==> exists|k: int| #[trigger]
            last_at(all, section, key, k),
    decreases all.len(),
{
    if all.len() > 0 {
        let part = all.drop_last();
        let n = all.len() - 1;
        last_value_is_last(part, section, key);
        assert(forall|j: int| 0 <= j < n ==> #[trigger] all[j] == part[j]);
        if is_at(all.last(), section, key) {
            assert(last_at(all, section, key, n));
            assert forall|m: int| #[trigger] last_at(all, section, key, m) implies m == n by {
                assert(all[n].section == section);
            }
        } else {
            if last_value(part, section, key) is Some {
                let k = choose|k: int| #[trigger] last_at(part, section, key, k);
                assert(all[k] == part[k]);
                assert(last_at(all, section, key, k));
            }
            assert forall|m: int| #[trigger] last_at(all, section, key, m) implies last_value(
                all,
                section,
                key,
            ) == Some(all[m].value) by {
                assert(all[m] == part[m]);
                assert forall|j: int| m < j < part.len() implies !((
                #[trigger] part[j]).section == section && part[j].key == key) by {
                    assert(all[j] == part[j]);
                }
                assert(last_at(part, section, key, m));
            }
        }
    }
}

/// The items of the first list that has any are those of a setting in that
/// section under that key before which none there has an item; without items no
/// setting there has one.
pub proof fn first_items_are_first(all: Seq<SettingView>, section: Seq<char>, key: Seq<char>)
    ensures
        first_items(all, section, key).len() > 0 ==> exists|k: int|
            0 <= k < all.len() && (#[trigger] all[k]).section == section && all[k].key == key
                && first_items(all, section, key) == words(all[k].value, Separator::Char(';'))
                && forall|j: int|
                0 <= j < k && (#[trigger] all[j]).section == section && all[j].key == key ==> words(
                    all[j].value,
                    Separator::Char(';'),
                ).len() == 0,
        first_items(all, section, key).len() == 0 ==> forall|j: int|
            0 <= j < all.len() && (#[trigger] all[j]).section == section && all[j].key == key
                ==> words(all[j].value, Separator::Char(';')).len() == 0,
    decreases all.len(),
{
    if all.len() > 0 {
        let part = all.drop_last();
        let n = all.len() - 1;
        first_items_are_first(part, section, key);
        assert(forall|j: int| 0 <= j < n ==> #[trigger] all[j] == part[j]);
        let before = first_items(part, section, key);
        if before.len() > 0 {
            let k = choose|k: int|
                0 <= k < part.len() && (#[trigger] part[k]).section == section && part[k].key == key
                    && before == words(part[k].value, Separator::Char(';')) && forall|j: int|
                    0 <= j < k && (#[trigger] part[j]).section == section && part[j].key == key
                        ==> words(part[j].value, Separator::Char(';')).len() == 0;
            assert(all[k] == part[k]);
        } else {
            assert forall|j: int|
                0 <= j < n && (#[trigger] all[j]).section == section && all[j].key
                    == key implies words(all[j].value, Separator::Char(';')).len() == 0 by {
                assert(part[j] == all[j]);
            }
            if first_items(all, section, key).len() > 0 {
                assert(all[n].section == section);
            }
        }
    }
}

/// Whether a line without the white space around it is a heading: a name in
/// square brackets.
pub open spec fn bracketed(line: Seq<char>, name: Seq<char>) -> bool {
    line == seq!['['] + name + seq![']']
}

/// A section holds from its heading to the next one.
pub proof fn section_is_last_heading(lines: Seq<Seq<char>>, h: int, name: Seq<char>)
    requires
        0 <= h < lines.len(),
        bracketed(trim(lines[h]), name),
        forall|j: int, other: Seq<char>|
            h < j < lines.len() ==> !#[trigger] bracketed(trim(lines[j]), other),
    ensures
        open_section(lines) == name,
    decreases lines.len(),
{
    let n = lines.len() - 1;
    if h == n {
        let t = trim(lines.last());
        assert(t[0] == '[' && t.last() == ']');
        assert(t.subrange(1, t.len() - 1) =~= name);
    } else {
        let t = trim(lines.last());
        assert(lines.last() == lines[n]);
        if t.len() > 1 && t[0] == '[' && t.last() == ']' {
            let inner = t.subrange(1, t.len() - 1);
            assert(t =~= seq!['['] + inner + seq![']']);
            assert(bracketed(trim(lines[n]), inner));
        }
        assert forall|j: int, other: Seq<char>| h < j < lines.drop_last().len() implies
            !#[trigger] bracketed(trim(lines.drop_last()[j]), other) by {
            assert(lines.drop_last()[j] == lines[j]);
            assert(!bracketed(trim(lines[j]), other));
        }
        section_is_last_heading(lines.drop_last(), h, name);
    }
}

/// Before the first heading the section has no name.
pub proof fn no_heading_no_section(lines: Seq<Seq<char>>)
    requires
        forall|j: int, other: Seq<char>|
            0 <= j < lines.len() ==> !#[trigger] bracketed(trim(lines[j]), other),
    ensures
        open_section(lines).len() == 0,
    decreases lines.len(),
{
    if lines.len() > 0 {
        let n = lines.len() - 1;
        let t = trim(lines.last());
        assert(lines.last() == lines[n]);
        if t.len() > 1 && t[0] == '[' && t.last() == ']' {
            let inner = t.subrange(1, t.len() - 1);
            assert(t =~= seq!['['] + inner + seq![']']);
            assert(bracketed(trim(lines[n]), inner));
        }
        assert forall|j: int, other: Seq<char>| 0 <= j < lines.drop_last().len() implies
            !#[trigger] bracketed(trim(lines.drop_last()[j]), other) by {
            assert(lines.drop_last()[j] == lines[j]);
            assert(!bracketed(trim(lines[j]), other));
        }
        no_heading_no_section(lines.drop_last());
    }
}

/// Whether a line without the white space around it sets a key to a value: they
/// stand on the two sides of its first equals sign, and it is neither a comment
/// nor a heading.
pub open spec fn sets(line: Seq<char>, key: Seq<char>, value: Seq<char>) -> bool {
    &&& line == key.push('=') + value
    &&& !key.contains('=')
    &&& line[0] != '#'
    &&& !(line[0] == '[' && line.last() == ']')
}

proof fn first_sign(line: Seq<char>, key: Seq<char>, value: Seq<char>)
    requires
        line == key.push('=') + value,
        !key.contains('='),
    ensures
        position(line, '=') == key.len(),
{
    position_is_first(line, '=');
    assert(line[key.len() as int] == '=');
    let at = position(line, '=');
    if at < key.len() {
        assert(key[at] == line[at]);
    }
}

/// A line that sets a key to a value is read as that setting, in the section
/// that is open before it and after the settings of the lines before it.
pub proof fn assignment_is_read(lines: Seq<Seq<char>>, i: int, key: Seq<char>, value: Seq<char>)
    requires
        0 <= i < lines.len(),
        sets(trim(lines[i]), key, value),
    ensures
        settings_on(lines.take(i)).len() < settings_on(lines).len(),
        settings_on(lines)[settings_on(lines.take(i)).len() as int] == (SettingView {
            section: open_section(lines.take(i)),
            key,
            value,
        }),
    decreases lines.len(),
{
    let n = lines.len() - 1;
    let at = settings_on(lines.take(i)).len() as int;
    if i == n {
        let t = trim(lines.last());
        assert(lines.take(i) =~= lines.drop_last());
        assert(lines.last() == lines[n]);
        first_sign(t, key, value);
        assert(t.take(key.len() as int) =~= key);
        assert(t.skip(key.len() as int + 1) =~= value);
    } else {
        assert(lines.drop_last().take(i) =~= lines.take(i));
        assert(lines.drop_last()[i] == lines[i]);
        assignment_is_read(lines.drop_last(), i, key, value);
        assert(settings_on(lines)[at] == settings_on(lines.drop_last())[at]);
    }
}

/// Every setting comes from a line that sets its key to its value, in the
/// section that is open before that line.
pub proof fn settings_are_assignments(lines: Seq<Seq<char>>, k: int)
    requires
        0 <= k < settings_on(lines).len(),
    ensures
        exists|i: int|
            0 <= i < lines.len() && sets(
                trim(#[trigger] lines[i]),
                settings_on(lines)[k].key,
                settings_on(lines)[k].value,
            ) && settings_on(lines)[k].section == open_section(lines.take(i)),
    decreases lines.len(),
{
    let part = lines.drop_last();
    let n = lines.len() - 1;
    let s = settings_on(lines)[k];
    if k < settings_on(part).len() {
        settings_are_assignments(part, k);
        let i = choose|i: int|
            0 <= i < part.len() && sets(trim(#[trigger] part[i]), s.key, s.value) && s.section
                == open_section(part.take(i));
        assert(part[i] == lines[i]);
        assert(part.take(i) =~= lines.take(i));
    } else {
        let t = trim(lines.last());
        let at = position(t, '=');
        position_is_first(t, '=');
        assert(lines.take(n) =~= part);
        assert(t =~= s.key.push('=') + s.value);
        if s.key.contains('=') {
            let j = choose|j: int| 0 <= j < s.key.len() && s.key[j] == '=';
            assert(t[j] == '=');
        }
        assert(t.len() > 0);
        if t[0] == '[' && t.last() == ']' {
            assert(t.len() > 1);
        }
        assert(sets(trim(lines[n]), s.key, s.value));
    }
}

} // verus!

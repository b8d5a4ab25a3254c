use launcher::double::Double;
use launcher::hyprland::{clients, event_socket, Client, Workspace};
use launcher::icon_index::IconIndex;
use launcher::keys::{Key, KeyEvent};
use launcher::launcher::{
    collect_hyprland_windows, complete, convert_desktop_entries, default_order, filter, primary_token,
    row_lines, Entry, FocusTracker, Launcher, Listing, Opening, Signals,
};
use launcher::layer_launcher::{
    build_wmclass_icon_map, cut_text, plain_entries, window_icon_dirs, WidthSearch, WindowLauncher,
    WindowOpening,
};
use launcher::picker::{read_items, resize_command, Picker};
use launcher::toggle::{
    activate, base_icon_dirs, delete_word, get_icon_dirs, make_row, message_for_key,
    message_for_line, message_for_window, Effect, Message, PressedKey, ToggleLauncher, WindowEvent,
};

fn texts(v: &[&str]) -> Vec<String> {
    v.iter().map(|s| s.to_string()).collect()
}

fn app(name: &str, keywords: &[&str]) -> Entry {
    Entry::Desktop {
        name: name.to_string(),
        command: format!("{} %u", name.to_lowercase()),
        terminal: false,
        icon: None,
        keywords: texts(keywords),
    }
}

fn window(title: &str, class: &str) -> Entry {
    Entry::Window {
        title: title.to_string(),
        class: class.to_string(),
        address: "0xabc".to_string(),
        workspace: "3".to_string(),
        icon: None,
    }
}

fn client(class: &str, workspace: &str, focus: i32, pinned: bool) -> Client {
    Client {
        address: format!("0x{}", focus),
        title: format!("{} title", class),
        class: class.to_string(),
        workspace: Workspace { id: -1, name: workspace.to_string() },
        focus_history_id: focus,
        pinned,
    }
}

fn signals(e: &Entry) -> Signals {
    Signals {
        primary: vec![0; e.primary_fields().len()],
        secondary: vec![0; e.secondary_fields().len()],
        usage_bonus: 0,
        query_bonus: 0,
        length_bonus: 0,
    }
}

fn double(x: f64) -> Double {
    Double { bits: x.to_bits() }
}

fn press(key: Key) -> KeyEvent {
    KeyEvent { key, pressed: true, ctrl: false }
}

#[test]
fn three_tenths_in_whole_numbers() {
    for s in 0..=65535u32 {
        assert_eq!((s as f32 * 0.3) as u32, s * 3 / 10);
    }
}

#[test]
fn doubles_compare_as_numbers() {
    let all = [f64::NEG_INFINITY, -2.5, -0.0, 0.0, 1e-300, 1.0, 2.5, f64::INFINITY, f64::NAN];
    for a in all {
        for b in all {
            assert_eq!(double(a).is_less(double(b)), a < b, "{} {}", a, b);
        }
        assert_eq!(double(a).nan(), a.is_nan());
    }
}

#[test]
fn windows_are_listed_by_focus() {
    let found = vec![
        client("b", "1", 2, false),
        client("a", "1", 0, false),
        client("", "1", 1, false),
        client("launcher", "1", 3, false),
        client("launcher-layer", "1", 4, false),
        client("c", "special:x", 5, false),
        client("d", "1", 6, true),
    ];
    let order: Vec<i32> = clients(&found).into_iter().map(|c| c.focus_history_id).collect();
    assert_eq!(order, [0, 1, 2, 3, 4, 5, 6]);
    let none = IconIndex::new();
    let list = |l: Listing| {
        collect_hyprland_windows(&found, &none, &none, l)
            .iter()
            .map(|e| e.name().to_string())
            .collect::<Vec<String>>()
    };
    assert_eq!(list(Listing::Overlay), ["a", "b", "launcher-layer"]);
    assert_eq!(list(Listing::Windowed), ["a", "b", "d"]);
    assert_eq!(list(Listing::Toggled), ["a", "b", "launcher-layer", "c", "d"]);
}

#[test]
fn windows_have_icons_and_workspaces() {
    let mut icons = IconIndex::new();
    icons.offer("firefox".to_string(), "/i/f.png".to_string());
    icons.offer("foot".to_string(), "/i/foot.png".to_string());
    let mut classes = IconIndex::new();
    classes.offer("foot".to_string(), "/c/foot.png".to_string());
    let mut a = client("Firefox", "x", 0, false);
    a.workspace.id = 4;
    let b = client("FOOT", "named", 1, false);
    let v = collect_hyprland_windows(&vec![a, b], &icons, &classes, Listing::Overlay);
    assert_eq!(v[0].icon(), Some("/i/f.png"));
    assert_eq!(v[0].workspace(), Some("4"));
    assert_eq!(v[1].icon(), Some("/c/foot.png"));
    assert_eq!(v[1].workspace(), Some("named"));
}

#[test]
fn event_socket_path() {
    assert_eq!(event_socket(Some("/run"), "sig"), "/run/hypr/sig/.socket2.sock");
    assert_eq!(event_socket(None, "sig"), "/tmp/hypr/sig/.socket2.sock");
}

#[test]
fn applications_become_entries() {
    let all = launcher::desktop::parse_desktop_file(
        "[Desktop Entry]\nName=X\nGenericName=Gen\nExec=x\nIcon=/p.png\nKeywords=k\n",
        launcher::desktop::Keywords::First,
    );
    let v = convert_desktop_entries(&all, &IconIndex::new(), &vec![true]);
    assert_eq!(v[0].secondary_fields(), ["k", "Gen"]);
    assert_eq!(v[0].icon(), Some("/p.png"));
    assert!(!v[0].is_window());
    assert_eq!(v[0].subtitle(), None);
    let v = plain_entries(&all, &IconIndex::new(), &vec![false], false);
    assert_eq!(v[0].icon(), None);
    assert!(v[0].secondary_fields().is_empty());
    let mut index = IconIndex::new();
    index.offer("/p.png".to_string(), "/by/name.png".to_string());
    let v = plain_entries(&all, &index, &vec![false], true);
    assert_eq!(v[0].icon(), Some("/by/name.png"));
    assert_eq!(v[0].secondary_fields(), ["k"]);
}

#[test]
fn names_and_titles() {
    let w = window("Page", "firefox");
    assert_eq!((w.name(), w.subtitle(), w.title()), ("firefox", Some("Page"), "Page"));
    assert_eq!(window("", "x").title(), "x");
    assert_eq!(window("x", "x").subtitle(), None);
    assert_eq!(app("A", &[]).title(), "A");
    assert_eq!(app("A", &[]).workspace(), None);
    assert!(w.is_window());
}

#[test]
fn query_ranks_prefixes_first() {
    let entries = vec![app("Campfire", &[]), app("GIMP", &[]), app("Firefox", &[]), app("Forest Fire", &[])];
    let s: Vec<Signals> = entries.iter().map(signals).collect();
    assert_eq!(filter(&entries, "fir", &s), vec![2, 3, 0]);
    assert_eq!(filter(&entries, "FIR", &s), vec![2, 3, 0]);
    assert_eq!(filter(&entries, "zzz", &s), vec![]);
    assert_eq!(filter(&entries, "  ", &s), vec![]);
}

#[test]
fn further_words_have_to_match() {
    let entries = vec![app("Firefox", &["web", "browser"]), app("Fire Safety", &["drill"])];
    let s: Vec<Signals> = entries.iter().map(signals).collect();
    assert_eq!(filter(&entries, "fire browser", &s), vec![0]);
    assert_eq!(filter(&entries, "fire drill", &s), vec![1]);
    assert_eq!(filter(&entries, "fire web browser", &s), vec![0]);
    assert_eq!(filter(&entries, "fire web zzz", &s), vec![]);
    let entries = vec![app("Firefox Web Browser", &[])];
    let s: Vec<Signals> = entries.iter().map(signals).collect();
    assert_eq!(filter(&entries, "fire web", &s), vec![0]);
    assert_eq!(filter(&entries, "fire web zzz", &s), vec![]);
}

#[test]
fn similarities_are_taken_to_the_first_word() {
    assert_eq!(primary_token("  Fire Fox"), Some("fire".to_string()));
    assert_eq!(primary_token(" \t"), None);
    assert_eq!(primary_token(""), None);
}

#[test]
fn bonuses_decide_between_equals() {
    let entries = vec![app("Fox A", &[]), app("Fox B", &[])];
    let mut s: Vec<Signals> = entries.iter().map(signals).collect();
    assert_eq!(filter(&entries, "fox", &s), vec![0, 1]);
    s[1].usage_bonus = 1;
    assert_eq!(filter(&entries, "fox", &s), vec![1, 0]);
}

#[test]
fn similar_names_are_found_despite_typos() {
    let entries = vec![app("Firefox", &[])];
    let mut s: Vec<Signals> = entries.iter().map(signals).collect();
    assert_eq!(filter(&entries, "firefxo", &s), vec![]);
    s[0].primary = vec![970];
    assert_eq!(filter(&entries, "firefxo", &s), vec![0]);
    s[0].primary = vec![849];
    assert_eq!(filter(&entries, "firefxo", &s), vec![]);
}

#[test]
fn empty_query_lists_by_use() {
    assert_eq!(default_order(&vec![double(0.0), double(2.0), double(1.0), double(2.0)]), [1, 3, 2, 0]);
    let many: Vec<Double> = (0..60).map(|i| double(i as f64)).collect();
    let order = default_order(&many);
    assert_eq!(order.len(), 50);
    assert_eq!(order[0], 49);
}

#[test]
fn names_complete_queries() {
    assert_eq!(complete("fire", "Firefox"), "fox");
    assert_eq!(complete("", "Firefox"), "");
    assert_eq!(complete("x", "Firefox"), "");
    assert_eq!(complete("firefox", "Firefox"), "");
}

#[test]
fn launcher_runs_through_a_session() {
    let mut l = Launcher::new();
    assert!(l.needs_load(false));
    let windows = vec![window("Page", "firefox")];
    let apps = vec![app("Files", &[]), app("Firefox", &[])];
    let all: Vec<Entry> = windows.into_iter().chain(apps).collect();
    let s: Vec<Signals> = all.iter().map(signals).collect();
    let scores = vec![double(0.0); 3];
    l.load_entries(all, &s, &scores);
    assert!(l.loaded && !l.needs_load(false) && l.needs_load(true));
    assert_eq!(l.filtered, [0, 1, 2]);
    assert_eq!(l.rows_high(), 3);
    l.query = "fir".to_string();
    l.refilter(&s, &scores);
    assert_eq!(l.completion, "efox");
    assert!(l.accept_ghost());
    assert_eq!(l.query, "firefox");
    let asked = l.navigate(l.filtered.len(), false, false);
    assert!(asked.is_empty());
    l.query = "zzzz".to_string();
    l.refilter(&s, &scores);
    assert_eq!(l.rows_high(), 1);
    assert!(l.activate(None).is_none());
    assert!(l.should_hide);
    l.hide_and_reset(&scores);
    assert!(!l.should_hide && !l.loaded && l.query.is_empty());
}

#[test]
fn launcher_previews_and_opens_windows() {
    let mut l = Launcher::new();
    let windows = vec![window("Page", "firefox"), window("Mail", "mutt")];
    let s: Vec<Signals> = windows.iter().map(signals).collect();
    let scores = vec![double(0.0); 2];
    l.load_entries(windows, &s, &scores);
    let asked = l.navigate(2, true, false);
    assert_eq!(
        asked,
        [
            "hl.dsp.focus({ workspace = \"3\" })",
            "hl.dsp.window.alter_zorder({ mode = \"top\", window = \"address:0xabc\" })",
        ]
    );
    assert_eq!(l.selected, 1);
    let a = l.activate(None).unwrap();
    assert_eq!(a.name, "mutt");
    assert!(!a.learn);
    assert!(matches!(a.opening, Opening::Dispatch(d) if d == "hl.dsp.focus({ window = \"address:0xabc\" })"));
    l.select(0);
    assert_eq!(l.selected, 0);
}

#[test]
fn launcher_reads_its_keys() {
    let press = |key: Key| KeyEvent { key, pressed: true, ctrl: false };
    let mut l = Launcher::new();
    let r = l.on_keys(&vec![press(Key::Enter)]);
    assert!(r.activate && !r.accept && !l.should_hide);
    let r = l.on_keys(&vec![press(Key::Tab), press(Key::Escape)]);
    assert!(!r.activate && r.accept && l.should_hide);
    let up = KeyEvent { key: Key::Enter, pressed: false, ctrl: false };
    let r = l.on_keys(&vec![up]);
    assert!(!r.activate && l.should_hide);
}

#[test]
fn tab_without_completion_cycles() {
    let mut l = Launcher::new();
    let apps = vec![app("A", &[]), app("B", &[])];
    let s: Vec<Signals> = apps.iter().map(signals).collect();
    let scores = vec![double(0.0); 2];
    l.load_entries(apps, &s, &scores);
    assert!(l.accept_ghost());
    assert_eq!((l.selected, l.query.as_str()), (1, "B"));
}

#[test]
fn rows_show_what_matches() {
    let w = window("Page", "firefox");
    let r = row_lines(&w, "firefox", "Pa…", "pa").unwrap();
    assert!(r.first[0].highlighted && r.first[0].text == "P");
    assert!(!r.second.unwrap()[0].highlighted);
    let r = row_lines(&app("Firefox", &[]), "Firefox", "", "fox").unwrap();
    assert_eq!(r.first[0].text, "Fire");
    assert!(r.second.is_none());
}

#[test]
fn focus_is_tracked() {
    let mut t = FocusTracker { active: None, focused_at: double(0.0) };
    let o = t.on_event("openwindow>>x", double(1.0));
    assert!(o.reload && o.ended.is_none());
    let o = t.on_event("activewindow>>firefox,Page", double(2.0));
    assert!(!o.reload && o.ended.is_none());
    let o = t.on_event("activewindow>>launcher,x", double(5.0));
    let (class, since) = o.ended.unwrap();
    assert_eq!(class, "firefox");
    assert!(since == double(2.0));
    assert!(t.active.is_none());
    let o = t.on_event("windowtitle>>x", double(6.0));
    assert!(!o.reload && o.ended.is_none());
}

#[test]
fn windowed_launcher_ranks_and_opens() {
    let mut l = WindowLauncher::new();
    assert!(l.needs_load());
    let many: Vec<Entry> = (0..30).map(|i| app(&format!("App {}", i), &["kw"])).collect();
    l.load_entries(vec![window("Firefox", "ff")], many);
    assert_eq!(l.filtered.len(), 20);
    let none: Vec<Vec<u32>> = l.entries.iter().map(|e| vec![0; e.primary_fields().len()]).collect();
    l.query = "app 7".to_string();
    l.filter(&none);
    assert_eq!(l.filtered[0], 8);
    assert_eq!(l.ghost_text(), "");
    l.query = "kw".to_string();
    l.filter(&none);
    assert!(l.filtered.is_empty());
    l.query = "fire".to_string();
    l.filter(&none);
    assert_eq!(l.filtered, [0]);
    assert_eq!(l.ghost_text(), "fox");
    assert!(l.step(&vec![press(Key::Enter)], false, false));
    let o = l.activate(Some("foot --x")).unwrap();
    assert!(matches!(o, WindowOpening::Control(a) if a == ["dispatch", "focuswindow", "address:0xabc"]));
    assert!(l.should_hide);
    l.hide_and_reset();
    assert_eq!(l.filtered.len(), 31);
    l.select(1);
    assert!(matches!(l.activate(None), Some(WindowOpening::Run(a)) if a == ["app", "0"]));
}

#[test]
fn windowed_launcher_counts_similarity() {
    let mut l = WindowLauncher::new();
    l.load_entries(vec![], vec![app("Firefox", &[])]);
    l.query = "firefxo".to_string();
    l.filter(&vec![vec![900]]);
    assert_eq!(l.filtered, [0]);
    l.filter(&vec![vec![800]]);
    assert!(l.filtered.is_empty());
}

#[test]
fn windowed_launcher_finds_icons() {
    let dirs = window_icon_dirs(Some("/h"), None);
    assert_eq!(dirs[0], "/h/.icons/hicolor/48x48/apps");
    assert_eq!(dirs.len(), 4 * 6 * 2 + 2);
    let mut index = IconIndex::new();
    index.offer("Fox".to_string(), "/i/fox.png".to_string());
    let contents = texts(&[
        "StartupWMClass=Foo\nStartupWMClass=Firefox\nIcon=Fox\n",
        "StartupWMClass=Bar\nIcon=fox\n",
        " StartupWMClass=Baz\nIcon=Fox\n",
    ]);
    let map = build_wmclass_icon_map(&contents, &index);
    assert_eq!(map.names(), ["firefox"]);
    assert_eq!(map.get("firefox").as_deref(), Some("/i/fox.png"));
}

#[test]
fn width_search_finds_the_longest_front() {
    for len in 0..20usize {
        for fit in 0..=len {
            let mut s = WidthSearch::new(len);
            while let Some(n) = s.probe() {
                s.note(n, n <= fit);
            }
            assert_eq!(s.low, fit);
        }
    }
    assert_eq!(cut_text("hello", 2), "he…");
    assert_eq!(cut_text("hello", 0), "…");
}

#[test]
fn picker_picks_a_line() {
    let items = read_items("alpha\n\nbeta\r\nal\n");
    assert_eq!(items, ["alpha", "beta", "al"]);
    let mut p = Picker::new(items);
    assert_eq!(p.filtered, [0, 1, 2]);
    p.query = "al".to_string();
    p.filter();
    assert_eq!(p.filtered, [0, 2]);
    assert_eq!(p.completion, "pha");
    assert_eq!(p.visible_rows(), 2);
    p.query = "ta".to_string();
    p.filter();
    assert_eq!(p.filtered, [1]);
    assert_eq!(p.completion, "");
    p.query = String::new();
    p.filter();
    p.step(&vec![], true, false);
    assert_eq!(p.selected, 1);
    p.step(&vec![press(Key::Enter)], false, false);
    assert!(p.should_exit);
    assert_eq!(p.result.as_deref(), Some("beta"));
}

#[test]
fn picker_leaves_without_a_choice() {
    let mut p = Picker::new(texts(&["a", "b"]));
    p.step(&vec![press(Key::Escape)], false, false);
    assert!(p.should_exit && p.result.is_none());
    let mut p = Picker::new(texts(&["a", "b"]));
    p.query = "zz".to_string();
    p.filter();
    p.step(&vec![press(Key::Enter)], false, false);
    assert!(p.should_exit && p.result.is_none());
    let mut p = Picker::new(texts(&["a", "b"]));
    p.click(1);
    assert_eq!(p.result.as_deref(), Some("b"));
}

#[test]
fn picker_prefers_prefixes() {
    let mut p = Picker::new(texts(&["x fox", "Foxtrot", "faoaxa"]));
    p.query = "fox".to_string();
    p.filter();
    assert_eq!(p.filtered[0], 1);
    assert_eq!(p.filtered.len(), 3);
    assert_eq!(
        resize_command(600, -4),
        "hl.dsp.window.resize({ x = 600, y = -4, window = \"class:picker\" })"
    );
}

#[test]
fn too_long_pairs_do_not_match() {
    let long = "a".repeat(3000);
    let mut p = Picker::new(vec![long.clone(), "b".to_string(), "a".repeat(2519)]);
    p.query = long.clone();
    p.selected = 2;
    p.filter();
    assert!(p.filtered.is_empty());
    assert_eq!(p.selected, 0);
    p.query = "a".repeat(2519);
    p.filter();
    assert_eq!(p.filtered, [0, 2]);
    p.query = "a ".repeat(1500);
    p.filter();
    assert_eq!(p.filtered, [0, 2]);
    p.query = "\\".repeat(1260);
    p.filter();
    assert!(p.filtered.is_empty());

    let entries = vec![app(&long, &[]), app("Files", &[])];
    let s: Vec<Signals> = entries.iter().map(signals).collect();
    let scores = vec![double(0.0); 2];
    let mut l = Launcher::new();
    l.load_entries(entries, &s, &scores);
    l.query = long.clone();
    l.selected = 1;
    l.refilter(&s, &scores);
    assert_eq!((l.filtered.as_slice(), l.selected), ([0].as_slice(), 0));
    l.query = format!("{}b", long);
    l.refilter(&s, &scores);
    assert!(l.filtered.is_empty());

    let mut w = WindowLauncher::new();
    w.load_entries(vec![], vec![app("Files", &[]), app(&long, &[])]);
    w.query = long;
    w.selected = 1;
    w.filter(&vec![vec![0], vec![0]]);
    assert_eq!((w.filtered.as_slice(), w.selected), ([1].as_slice(), 0));
}

#[test]
fn backslashes_in_patterns_count_twice() {
    let mut p = Picker::new(texts(&["\\\\é", "\\é", "é"]));
    p.query = "\\é".to_string();
    p.filter();
    assert_eq!(p.filtered, [0]);
    let text = format!("{}é", "\\".repeat(2516));
    let mut p = Picker::new(vec![text]);
    p.query = format!("{}é", "\\".repeat(1258));
    p.filter();
    assert_eq!(p.filtered, [0]);
}

fn controls(e: &Effect) -> Vec<String> {
    match e {
        Effect::Control(a) => a.clone(),
        Effect::Run(a) => a.clone(),
        Effect::FocusInput => texts(&["focus"]),
        Effect::Scroll(row) => vec![format!("scroll {}", row)],
    }
}

fn update(t: &mut ToggleLauncher, m: Message, fresh: Vec<Entry>) -> Vec<Vec<String>> {
    t.update(m, fresh).iter().map(controls).collect()
}

#[test]
fn lines_and_keys_are_messages() {
    assert!(matches!(message_for_line(" toggle\n"), Some(Message::Toggle)));
    assert!(matches!(message_for_line("show"), Some(Message::Show)));
    assert!(matches!(message_for_line("hide"), Some(Message::Hide)));
    assert!(message_for_line("Hide").is_none());
    let c = |s: &str| PressedKey::Character(s.to_string());
    assert!(matches!(message_for_key(&PressedKey::Escape, false), Some(Message::Hide)));
    assert!(matches!(message_for_key(&PressedKey::ArrowDown, false), Some(Message::SelectNext)));
    assert!(matches!(message_for_key(&PressedKey::ArrowUp, false), Some(Message::SelectPrev)));
    assert!(matches!(message_for_key(&PressedKey::Enter, false), Some(Message::Submit)));
    assert!(matches!(message_for_key(&c("J"), true), Some(Message::SelectNext)));
    assert!(matches!(message_for_key(&c("n"), true), Some(Message::SelectNext)));
    assert!(matches!(message_for_key(&c("k"), true), Some(Message::SelectPrev)));
    assert!(matches!(message_for_key(&c("p"), true), Some(Message::SelectPrev)));
    assert!(matches!(message_for_key(&c("u"), true), Some(Message::ClearQuery)));
    assert!(matches!(message_for_key(&c("w"), true), Some(Message::DeleteWord)));
    assert!(message_for_key(&c("j"), false).is_none());
    assert!(message_for_key(&c("x"), true).is_none());
    assert!(message_for_key(&PressedKey::Other, true).is_none());
    assert!(matches!(message_for_window(WindowEvent::CloseRequested), Some(Message::Hide)));
    assert!(matches!(message_for_window(WindowEvent::Unfocused), Some(Message::Reset)));
    assert!(matches!(message_for_window(WindowEvent::Focused), Some(Message::Show)));
    assert!(message_for_window(WindowEvent::Other).is_none());
}

#[test]
fn last_word_is_deleted() {
    assert_eq!(delete_word("foo bar"), "foo ");
    assert_eq!(delete_word("foo bar  "), "foo ");
    assert_eq!(delete_word("foo"), "");
    assert_eq!(delete_word("  "), "");
    assert_eq!(delete_word("a b\u{2003}cä"), "a b\u{2003}");
}

#[test]
fn toggled_launcher_appears_and_disappears() {
    let mut t = ToggleLauncher::new(vec![]);
    assert!(!t.visible);
    assert!(t.needs_entries(&Message::Toggle));
    let done = update(&mut t, Message::Toggle, vec![app("A", &[]), app("B", &[])]);
    assert!(t.visible);
    assert_eq!(
        done,
        [
            texts(&["dispatch", "resizewindowpixel", "exact 600 130,class:launcher"]),
            texts(&["focus"]),
            texts(&["scroll 0"]),
        ]
    );
    assert!(!t.needs_entries(&Message::Toggle));
    let done = update(&mut t, Message::Toggle, vec![]);
    assert!(!t.visible);
    assert_eq!(done, [texts(&["dispatch", "togglespecialworkspace", "launcher"])]);
    assert_eq!(t.entries.len(), 2);
}

#[test]
fn toggled_launcher_searches() {
    let mut t = ToggleLauncher::new(vec![app("Files", &["manager"]), app("Firefox", &["web"])]);
    let done = update(&mut t, Message::QueryChanged("web".to_string()), vec![]);
    assert_eq!(done, [texts(&["dispatch", "resizewindowpixel", "exact 600 90,class:launcher"])]);
    assert_eq!(t.filtered.len(), 1);
    assert_eq!(t.filtered[0].entry, 1);
    assert_eq!(t.filtered[0].positions, [0, 1, 2]);
    update(&mut t, Message::QueryChanged("web manager".to_string()), vec![]);
    assert!(t.filtered.is_empty());
    update(&mut t, Message::DeleteWord, vec![]);
    assert_eq!(t.query, "web ");
    update(&mut t, Message::ClearQuery, vec![]);
    assert_eq!(t.filtered.len(), 2);
    let done = update(&mut t, Message::Submit, vec![]);
    assert_eq!(
        done,
        [
            texts(&["dispatch", "togglespecialworkspace", "launcher"]),
            texts(&["setsid", "-f", "sh", "-c", "files"]),
        ]
    );
    update(&mut t, Message::QueryChanged("zzz".to_string()), vec![]);
    assert!(update(&mut t, Message::Submit, vec![]).is_empty());
    update(&mut t, Message::Reset, vec![]);
    assert_eq!(t.query, "");
    assert_eq!(t.filtered.len(), 0);
}

#[test]
fn accented_words_match() {
    let mut p = Picker::new(texts(&["\u{17f}xsä", "xsä", "Réglages µ", "Ελλάς", "ςxσä"]));
    p.query = "sä".to_string();
    p.filter();
    assert_eq!(p.filtered, [1]);
    p.query = "ré".to_string();
    p.filter();
    assert_eq!(p.filtered, [2]);
    p.query = "ελς".to_string();
    p.filter();
    assert_eq!(p.filtered, [3]);
    p.query = "σä".to_string();
    p.filter();
    assert!(p.filtered.is_empty());
    p.query = "xa".to_string();
    p.filter();
    assert_eq!(p.filtered.len(), 3);
}

#[test]
fn toggled_launcher_scrolls() {
    let many: Vec<Entry> = (0..30).map(|i| app(&format!("App {}", i), &[])).collect();
    let mut t = ToggleLauncher::new(many);
    assert!(update(&mut t, Message::SelectNext, vec![]).is_empty());
    assert_eq!(t.selected, 1);
    assert_eq!(update(&mut t, Message::SelectPrev, vec![]), [texts(&["scroll 0"])]);
    for _ in 0..8 {
        update(&mut t, Message::SelectNext, vec![]);
    }
    assert_eq!(update(&mut t, Message::SelectNext, vec![]), [texts(&["scroll 2"])]);
    for _ in 0..30 {
        update(&mut t, Message::SelectNext, vec![]);
    }
    assert_eq!(t.selected, 19);
    let long = "a".repeat(0x400_0000);
    t.update(Message::QueryChanged(long), vec![]);
    assert_eq!((t.query.len(), t.filtered.len(), t.selected), (0x400_0000, 0, 0));
    t.update(Message::DeleteWord, vec![]);
    assert_eq!((t.query.as_str(), t.filtered.len()), ("", 30));
}

#[test]
fn toggled_launcher_rows() {
    let r = make_row(&window("Page", "firefox"), "pg");
    assert_eq!(r.mark, "● ");
    let shown: Vec<(&str, bool)> = r.spans.iter().map(|s| (s.text.as_str(), s.highlighted)).collect();
    assert_eq!(shown, [("P", true), ("a", false), ("g", true), ("e", false)]);
    let r = make_row(&app("Files", &[]), "");
    assert_eq!((r.mark.as_str(), r.spans.len()), ("", 1));
    let r = make_row(&app("aaaa", &[]), &"a".repeat(0x400_0000));
    assert!(r.spans.len() == 1 && !r.spans[0].highlighted && r.spans[0].text == "aaaa");
    let r = make_row(&app(&"ab".repeat(2000), &[]), &"a".repeat(500));
    assert_eq!(r.spans.iter().filter(|s| s.highlighted).count(), 500);
    assert!(matches!(activate(&window("a", "b")), Effect::Control(a) if a[2] == "address:0xabc"));
}

#[test]
fn toggled_launcher_icon_directories() {
    assert_eq!(
        get_icon_dirs(Some("/h"), Some("/a:/b")),
        ["/h/.local/share/icons", "/h/.icons", "/a/icons", "/b/icons", "/usr/share/pixmaps"]
    );
    let dirs = base_icon_dirs("/a/icons");
    assert_eq!(dirs.len(), 14);
    assert_eq!(dirs[0], "/a/icons/hicolor/256x256/apps");
    assert_eq!(dirs[13], "/a/icons/hicolor/scalable/applications");
}

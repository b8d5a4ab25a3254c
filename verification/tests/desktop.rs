use launcher::desktop::{
    applications_dirs, collect_all_entries, collect_entries, command_to_run, find_first_files,
    parse_desktop_file, parse_exec, AppFile, Icon, Keywords,
};
use launcher::icon_index::IconIndex;
use launcher::icons::{
    bitmap_for, build_icon_index, build_name_index, cache_svgs, convert_args, gtk_icon_theme,
    list_icon_bases, list_icon_dirs, svg_cache_dir, wmclass_icon_map,
};

const FIREFOX: &str = "[Desktop Entry]
Name=Firefox
Name=Ignored
GenericName=Web Browser
Exec=firefox --old
Exec=firefox %u
Icon=firefox
Keywords=web;internet;
Keywords=late
StartupWMClass=Firefox-ESR
Actions=new-window;broken;
Terminal=false

[Desktop Action new-window]
Name=New Window
Exec=firefox --new-window

[Desktop Action broken]
Name=Nothing to run

[Desktop Action unlisted]
Name=Unlisted
Exec=firefox --x
";

fn file(name: &str, content: &str) -> AppFile {
    AppFile { file_name: name.to_string(), content: Some(content.to_string()) }
}

fn app(name: &str) -> String {
    format!("[Desktop Entry]\nName={}\nExec=run {}\n", name, name)
}

fn icon_text(i: &Option<Icon>) -> String {
    match i {
        Some(Icon::Path(p)) => format!("path {}", p),
        Some(Icon::Name(n)) => format!("name {}", n),
        None => "none".to_string(),
    }
}

#[test]
fn application_file_offers_itself_and_its_actions() {
    let all = parse_desktop_file(FIREFOX, Keywords::First);
    assert_eq!(all.len(), 2);
    assert_eq!(all[0].name, "Firefox");
    assert_eq!(all[0].command, "firefox %u");
    assert_eq!(all[0].generic_name.as_deref(), Some("Web Browser"));
    assert_eq!(all[0].keywords, ["web", "internet"]);
    assert_eq!(all[0].wm_class.as_deref(), Some("Firefox-ESR"));
    assert_eq!(icon_text(&all[0].icon), "name firefox");
    assert!(!all[0].terminal);
    assert_eq!(all[1].name, "Firefox: New Window");
    assert_eq!(all[1].command, "firefox --new-window");
    assert_eq!(all[1].keywords, Vec::<String>::new());
    assert_eq!(all[1].wm_class, None);
    assert_eq!(icon_text(&all[1].icon), "name firefox");
}

#[test]
fn the_last_keywords_can_count() {
    let all = parse_desktop_file(FIREFOX, Keywords::Last);
    assert_eq!(all[0].keywords, ["late"]);
}

#[test]
fn hidden_applications_are_not_listed() {
    for key in ["NoDisplay", "Hidden"] {
        let content = format!("{}{}=true\n", app("x"), key);
        assert!(parse_desktop_file(&content, Keywords::First).is_empty());
        let content = format!("{}{}=false\n", app("x"), key);
        assert_eq!(parse_desktop_file(&content, Keywords::First).len(), 1);
    }
}

#[test]
fn applications_need_a_name_and_a_command() {
    assert!(parse_desktop_file("[Desktop Entry]\nName=x\n", Keywords::First).is_empty());
    assert!(parse_desktop_file("[Desktop Entry]\nExec=x\n", Keywords::First).is_empty());
    assert!(parse_desktop_file("Name=x\nExec=x\n", Keywords::First).is_empty());
    let nameless = "[Desktop Entry]\nActions=a\n[Desktop Action a]\nName=Act\nExec=run\n";
    assert_eq!(parse_desktop_file(nameless, Keywords::First)[0].name, "Act");
}

#[test]
fn icons_are_paths_or_names() {
    let mut index = IconIndex::new();
    index.offer("firefox".to_string(), "/i/firefox.png".to_string());
    index.offer("firefox".to_string(), "/i/other.png".to_string());
    assert_eq!(Icon::from_value("FireFox").resolve(&index, false).as_deref(), Some("/i/firefox.png"));
    assert_eq!(Icon::from_value("none").resolve(&index, true), None);
    assert_eq!(Icon::from_value("/x.png").resolve(&index, true).as_deref(), Some("/x.png"));
    assert_eq!(Icon::from_value("/x.png").resolve(&index, false), None);
}

#[test]
fn application_directories() {
    assert_eq!(
        applications_dirs(Some("/h"), Some("/a:/b")),
        [
            "/h/.local/share/applications",
            "/a/applications",
            "/b/applications",
            "/var/lib/flatpak/exports/share/applications",
        ]
    );
    assert_eq!(
        applications_dirs(None, None),
        [
            "/usr/local/share/applications",
            "/usr/share/applications",
            "/var/lib/flatpak/exports/share/applications",
        ]
    );
}

#[test]
fn first_file_of_a_name_counts() {
    let files = vec![
        file("a.desktop", &app("One")),
        file("a.txt", &app("Text")),
        file("a.desktop", &app("Two")),
        AppFile { file_name: "b.desktop".to_string(), content: None },
        file("b.desktop", &app("Three")),
    ];
    assert_eq!(find_first_files(&files), [0, 3]);
    let names: Vec<String> = collect_entries(&files).into_iter().map(|e| e.name).collect();
    assert_eq!(names, ["One"]);
}

#[test]
fn entries_are_sorted_and_names_not_repeated() {
    let files = vec![
        file("1.desktop", &app("zed")),
        file("2.desktop", &app("Alpha")),
        file("3.desktop", &app("ZED")),
        file("4.desktop", &app("beta")),
    ];
    let names = |v: Vec<launcher::desktop::DesktopEntry>| {
        v.into_iter().map(|e| e.name).collect::<Vec<String>>()
    };
    assert_eq!(names(collect_entries(&files)), ["Alpha", "beta", "zed"]);
    assert_eq!(
        names(collect_all_entries(&files, Keywords::Last)),
        ["Alpha", "beta", "zed", "ZED"]
    );
}

#[test]
fn command_lines_lose_field_codes() {
    assert_eq!(parse_exec("firefox %u --x  %F"), ["firefox", "--x"]);
    assert_eq!(parse_exec(" %u "), Vec::<String>::new());
}

#[test]
fn terminal_programs_run_in_the_terminal() {
    assert_eq!(command_to_run("htop -d 5", false, Some("foot"), false), ["htop", "-d", "5"]);
    assert_eq!(command_to_run("htop", true, None, false), ["kitty", "-e", "htop"]);
    assert_eq!(command_to_run("htop", true, Some("foot --x"), false), ["foot", "-e", "htop"]);
    assert_eq!(command_to_run("htop", true, Some("foot --x"), true), ["foot", "--x", "-e", "htop"]);
    assert_eq!(command_to_run("htop", true, Some("  "), true), ["kitty", "-e", "htop"]);
    assert_eq!(command_to_run("%f", true, None, true), Vec::<String>::new());
}

#[test]
fn icon_directories_follow_the_theme() {
    let bases = list_icon_bases(Some("/h"), Some("/d"));
    assert_eq!(
        bases,
        [
            "/h/.icons",
            "/h/.local/share/icons",
            "/run/current-system/sw/share/icons",
            "/usr/share/icons",
            "/d/icons",
        ]
    );
    let dirs = list_icon_dirs(None, None, Some("Papirus"));
    assert_eq!(dirs[0], "/run/current-system/sw/share/icons/Papirus/48x48/apps");
    assert_eq!(dirs[1], "/run/current-system/sw/share/icons/Papirus/48x48/applications");
    assert_eq!(dirs.len(), 2 * 2 * 7 * 2 + 2);
    assert_eq!(dirs[28], "/run/current-system/sw/share/icons/hicolor/48x48/apps");
    assert_eq!(dirs.last().unwrap(), "/usr/share/pixmaps");
    assert_eq!(list_icon_dirs(None, None, None).len(), 2 * 7 * 2 + 2);
}

#[test]
fn icon_theme_is_read_from_settings() {
    assert_eq!(
        gtk_icon_theme("[Settings]\ngtk-icon-theme-name=Papirus-Dark\n").as_deref(),
        Some("Papirus-Dark")
    );
    assert_eq!(gtk_icon_theme("[Settings]\n"), None);
}

#[test]
fn icon_index_keeps_the_first_file() {
    let paths: Vec<String> =
        ["/a/Firefox.png", "/b/firefox.svg", "/b/..", "/c/x.tar.gz"].map(String::from).to_vec();
    let index = build_icon_index(&paths);
    assert_eq!(index.get("firefox").as_deref(), Some("/a/Firefox.png"));
    assert_eq!(index.get("Firefox"), None);
    assert_eq!(index.get("x.tar").as_deref(), Some("/c/x.tar.gz"));
    assert_eq!(index.names(), ["firefox", "x.tar"]);
}

#[test]
fn icon_index_by_exact_name() {
    let paths: Vec<String> = ["/b/Fox.svg", "/a/Fox.png", "/a/fox.png"].map(String::from).to_vec();
    let index = build_name_index(&paths, false);
    assert_eq!(index.get("Fox").as_deref(), Some("/a/Fox.png"));
    assert_eq!(index.get("fox").as_deref(), Some("/a/fox.png"));
    let index = build_name_index(&paths, true);
    assert_eq!(index.get("Fox").as_deref(), Some("/b/Fox.svg"));
}

#[test]
fn scalable_icons_are_replaced_by_bitmaps() {
    let mut index = IconIndex::new();
    index.offer("a".to_string(), "/i/a.svg".to_string());
    index.offer("b".to_string(), "/i/b.png".to_string());
    index.offer("c".to_string(), "/i/c.svg".to_string());
    assert_eq!(bitmap_for("/cache", "/i/a.svg").as_deref(), Some("/cache/a.png"));
    assert_eq!(bitmap_for("/cache", "/i/b.png"), None);
    assert_eq!(
        convert_args("/i/a.svg", "/cache/a.png"),
        ["-background", "none", "/i/a.svg", "-resize", "128x128", "png32:/cache/a.png"]
    );
    cache_svgs(&mut index, "/cache", &vec!["a".to_string(), "b".to_string()]);
    assert_eq!(index.get("a").as_deref(), Some("/cache/a.png"));
    assert_eq!(index.get("b").as_deref(), Some("/i/b.png"));
    assert_eq!(index.get("c").as_deref(), Some("/i/c.svg"));
    assert_eq!(svg_cache_dir(Some("/run")), "/run/launcher-svg-cache");
    assert_eq!(svg_cache_dir(None), "/tmp/launcher-svg-cache");
}

#[test]
fn window_classes_find_icons() {
    let mut index = IconIndex::new();
    index.offer("firefox".to_string(), "/i/firefox.png".to_string());
    let all = parse_desktop_file(FIREFOX, Keywords::First);
    let map = wmclass_icon_map(&all, &index, &vec![false, false]);
    assert_eq!(map.get("firefox-esr").as_deref(), Some("/i/firefox.png"));
    assert_eq!(map.names().len(), 1);
}

use launcher::clip::db::ClipboardDb;
use launcher::clipboard::{
    convert_rows, expanded_text, image_label, is_image_mime, metadata_line, row_model, Clipboard,
    Entry, RowModel, Step, Texture,
};
use launcher::double::Double;
use launcher::keys::{Key, KeyEvent};
use launcher::layer_clip::{
    collect, display_text, history_dir, make_entry, picture_file, preloads, temp_dir,
    touches_history, ClipWindow,
};
use launcher::picture::{is_jpeg, is_webp, load_picture, load_with_thumb, Loaded};
use launcher::usage::{usage_path, UsageLog, MAX_EVENTS};

fn png(width: u32, height: u32) -> Vec<u8> {
    let mut bytes = std::io::Cursor::new(Vec::new());
    image::RgbaImage::from_pixel(width, height, image::Rgba([1, 2, 3, 255]))
        .write_to(&mut bytes, image::ImageFormat::Png)
        .unwrap();
    bytes.into_inner()
}

fn press(key: Key, ctrl: bool) -> KeyEvent {
    KeyEvent { key, pressed: true, ctrl }
}

fn double(x: f64) -> Double {
    Double { bits: x.to_bits() }
}

fn history() -> ClipboardDb {
    let mut db = ClipboardDb::new();
    assert!(db.store(b"Hello World", 1, "text/plain", Some("kitty"), 100).is_ok());
    assert!(db.store(&png(30, 20), 2, "image/png", None, 200).is_ok());
    assert!(db.store(b"bad \xff byte", 3, "text/html", None, 300).is_ok());
    db
}

#[test]
fn pictures_are_decoded() {
    let Loaded::Done(p) = load_picture(&png(3, 2)) else { panic!("not decoded") };
    assert_eq!((p.width, p.height), (3, 2));
    assert_eq!(p.pixels.len(), 24);
    assert_eq!(&p.pixels[..4], [1, 2, 3, 255]);
    assert!(matches!(load_picture(b"no picture"), Loaded::Failed));
    assert!(matches!(load_with_thumb(b""), Loaded::Failed));
    let Loaded::Done((full, thumb)) = load_with_thumb(&png(256, 64)) else { panic!("not decoded") };
    assert_eq!((full.width, full.height), (256, 64));
    assert_eq!((thumb.width, thumb.height), (128, 32));
}

#[test]
fn some_files_are_handed_back() {
    assert!(is_jpeg(&[0xff, 0xd8, 0xff]) && !is_jpeg(&[0xff, 0xd8]) && !is_jpeg(&png(1, 1)));
    assert!(is_webp(b"RIFF\x01\x02\x03\x04WEBP") && !is_webp(b"RIFF\0\0\0\0WEB") && !is_webp(b""));
    assert!(!is_webp(b"RIFF\0\0\0\0WAVE") && !is_webp(&png(1, 1)));
    assert!(matches!(load_picture(&[0xff, 0xd8, 0xff, 0xe0]), Loaded::Elsewhere));
    assert!(matches!(load_with_thumb(&[0xff, 0xd8, 0xff, 0xe0]), Loaded::Elsewhere));
    assert!(matches!(load_picture(b"RIFF\0\0\0\0WEBPVP8 "), Loaded::Elsewhere));
    assert!(matches!(load_with_thumb(b"RIFF\0\0\0\0WEBPVP8 "), Loaded::Elsewhere));
    assert!(matches!(load_picture(&[0xff, 0xd8]), Loaded::Failed));
}

#[test]
fn history_becomes_rows() {
    let v = convert_rows(&history().list_meta(10));
    assert_eq!(v.len(), 3);
    assert_eq!(v[0].text, "bad \u{fffd} byte");
    assert_eq!(v[0].content, b"bad \xff byte");
    assert!(v[1].is_image && v[1].content.is_empty() && v[1].text.is_empty());
    assert_eq!(v[1].dims, Some((30, 20)));
    assert_eq!(v[2].source_app.as_deref(), Some("kitty"));
    assert!(is_image_mime("image/x"));
    assert!(!is_image_mime("text/x"));
}

#[test]
fn overlay_filters_texts() {
    let mut c = Clipboard::new();
    assert!(c.needs_load(false));
    c.reload(&history());
    assert!(!c.needs_load(false) && c.needs_load(true));
    assert_eq!(c.display, [0, 1, 2]);
    c.query = "WORLD".to_string();
    c.filter();
    assert_eq!(c.display, [2]);
    c.query = "zzz".to_string();
    c.filter();
    assert!(c.display.is_empty() && c.shows_empty_state());
    c.hide_and_reset();
    assert_eq!(c.display, [0, 1, 2]);
    assert!(!c.loaded && !c.shows_empty_state());
}

#[test]
fn overlay_keeps_the_first_rows() {
    let mut db = ClipboardDb::new();
    for i in 0..60 {
        assert!(db.store(b"x", i, "text/plain", None, i).is_ok());
    }
    let mut c = Clipboard::new();
    c.reload(&db);
    assert_eq!((c.entries.len(), c.display.len()), (60, 50));
    c.query = "x".to_string();
    c.filter();
    assert_eq!(c.display.len(), 50);
}

#[test]
fn overlay_navigates_within_bounds() {
    let mut c = Clipboard::new();
    c.reload(&history());
    c.navigate(false, true);
    assert_eq!(c.selected, 0);
    c.navigate(true, false);
    c.navigate(true, false);
    c.navigate(true, false);
    assert_eq!(c.selected, 2);
    assert_eq!((c.nav_next(), c.nav_prev()), (2, 1));
    c.select(1);
    assert_eq!(c.selected_entry_idx(), Some(1));
    assert!(c.take_scroll(false));
    assert!(!c.take_scroll(false));
    assert!(c.take_scroll(true));
}

#[test]
fn overlay_pastes() {
    let db = history();
    let mut c = Clipboard::new();
    c.reload(&db);
    let r = c.on_keys(&vec![press(Key::Enter, false)]);
    assert!(r.activate && !r.delete);
    match c.step(r, true, false, &db) {
        Step::Paste(Some(p)) => {
            assert_eq!(p.args, ["--type", "image/png"]);
            assert_eq!(p.content, png(30, 20));
            assert_eq!(p.id, 2);
        }
        _ => panic!("nothing to paste"),
    }
    assert!(c.should_hide);
    c.select(2);
    let p = c.activate(&db).unwrap();
    assert!(p.args.is_empty());
    assert_eq!(p.content, b"Hello World");
    c.select(1);
    assert!(c.activate(&ClipboardDb::new()).is_none());
}

#[test]
fn overlay_reads_keys() {
    let mut c = Clipboard::new();
    assert!(c.on_keys(&vec![press(Key::C, true)]).activate);
    assert!(!c.on_keys(&vec![press(Key::C, false)]).activate);
    assert!(c.on_keys(&vec![press(Key::D, true)]).delete);
    assert!(c.on_keys(&vec![press(Key::Delete, false)]).delete);
    assert!(!c.should_hide);
    c.on_keys(&vec![press(Key::Escape, false)]);
    assert!(c.should_hide);
}

#[test]
fn overlay_deletes() {
    let mut db = history();
    let mut c = Clipboard::new();
    c.reload(&db);
    c.select(2);
    let r = c.on_keys(&vec![press(Key::Delete, false)]);
    assert!(matches!(c.step(r, false, false, &db), Step::Draw { pictures: None }));
    assert!(c.is_deleting(2) && !c.is_deleting(1));
    c.finish_delete(&mut db);
    assert_eq!(db.count(), 2);
    assert!(db.get_by_hash(1).is_none());
    assert_eq!((c.selected, c.entries.len()), (1, 2));
    assert!(!c.is_deleting(2));
}

#[test]
fn overlay_loads_pictures_once() {
    let mut c = Clipboard::new();
    c.reload(&history());
    assert_eq!(c.ensure_texture(), None);
    c.select(1);
    assert_eq!(c.ensure_texture(), Some(1));
    assert_eq!(c.ensure_texture(), None);
    c.texture_done(1, false);
    assert!(c.textures[1] == Texture::Failed && !c.scroll_pending);
    c.texture_done(1, true);
    assert!(c.textures[1] == Texture::Loaded && c.scroll_pending);
    c.select(0);
    assert_eq!(c.ensure_texture(), None);
    c.select(1);
    assert_eq!(c.ensure_texture(), None);
}

fn entry(text: &str, image: bool) -> Entry {
    Entry {
        id: 1,
        content: vec![],
        text: text.to_string(),
        mime: (if image { "image/webp" } else { "text/plain" }).to_string(),
        source_app: Some("gimp".to_string()),
        last_used: 1000,
        is_image: image,
        dims: if image { Some((640, 480)) } else { None },
    }
}

#[test]
fn rows_show_their_entries() {
    assert_eq!(metadata_line(&entry("", true), 1300), "640×480  ·  image/webp  ·  gimp  ·  5m");
    assert_eq!(metadata_line(&entry("x", false), 1000), "gimp  ·  now");
    assert_eq!(image_label(None), "image");
    assert_eq!(image_label(Some((2, 3))), "2×3");
    assert_eq!(expanded_text(" a\n b "), "a\n b");
    match row_model(&entry(" Hello\n World", false), false, "world", 1060) {
        Some(RowModel::TextLine { spans, time }) => {
            assert_eq!(time, "1m");
            assert_eq!(spans[0].text, "Hello ");
            assert!(spans[1].highlighted && spans[1].text == "W");
        }
        _ => panic!("no line"),
    }
    assert!(matches!(
        row_model(&entry(" x ", false), true, "", 1000),
        Some(RowModel::TextCard { text, .. }) if text == "x"
    ));
    assert!(matches!(
        row_model(&entry("", true), false, "", 1000),
        Some(RowModel::PictureLine { label, .. }) if label == "640×480"
    ));
    assert!(matches!(row_model(&entry("", true), true, "", 1000), Some(RowModel::PictureCard { .. })));
    assert!(row_model(&entry("İä", false), false, "ä", 1000).is_none());
}

const LISTING: &[u8] = b"12\thello\n11\t[[ binary data 5.1 KiB PNG 64x48 ]]\n\n10\thello\n9\tother\ttab\n8\t[[ binary data 1 B jpg 99999999999x1 ]]\n11\t[[ binary data 5.1 KiB PNG 64x48 ]]\nplain\n";

#[test]
fn listing_becomes_entries() {
    let v = collect(LISTING);
    let texts: Vec<&str> = v.iter().map(|e| e.text.as_str()).collect();
    assert_eq!(texts, ["hello", "[image]", "other\ttab", "[image]", "plain"]);
    assert_eq!(v[1].dims, Some((64, 48)));
    assert_eq!(v[1].format, "png");
    assert_eq!(v[1].id, "11\t[[ binary data 5.1 KiB PNG 64x48 ]]");
    assert_eq!(v[3].dims, None);
    assert_eq!(v[3].format, "jpg");
    assert_eq!(v[4].line, 7);
    assert!(preloads(&v[1]) && !preloads(&v[0]));
    assert_eq!(display_text(&v[1]), "[img 64x48]");
    assert_eq!(display_text(&v[3]), "[image]");
    assert_eq!(display_text(&v[2]), "other tab");
    assert!(collect(b"").is_empty());
}

#[test]
fn entries_follow_what_was_captured() {
    let e = make_entry("a\tb", &None, 3);
    assert_eq!((e.text.as_str(), e.is_image, e.line), ("b", false, 3));
    let groups = Some(vec![Some("x".to_string()), None, Some("7".to_string()), Some("8".to_string())]);
    let e = make_entry("a", &groups, 25);
    assert_eq!((e.format.as_str(), e.dims), ("png", Some((7, 8))));
    assert!(!preloads(&e));
    let e = make_entry("a", &Some(vec![]), 0);
    assert_eq!(e.dims, None);
}

#[test]
fn clip_window_copies_and_deletes() {
    let mut w = ClipWindow::new();
    w.load_entries(LISTING);
    assert!(w.loaded);
    assert_eq!(w.filtered, [0, 1, 2, 3, 4]);
    w.query = "OTHER".to_string();
    w.filter();
    assert_eq!(w.filtered, [2]);
    let r = w.step(&vec![press(Key::D, true)], true, false);
    assert!(r.delete && !r.activate);
    assert_eq!(w.delete().as_deref(), Some("9\tother\ttab"));
    assert_eq!(w.activate().as_deref(), Some("9\tother\ttab"));
    assert!(w.should_hide);
    w.hide_and_reset();
    assert!(!w.should_hide && w.query.is_empty());
    w.select(4);
    w.load_entries(b"1\tx\n2\ty\n");
    assert_eq!(w.selected, 1);
    w.load_entries(b"");
    assert_eq!(w.activate(), None);
    assert!(!w.should_hide);
    let r = w.step(&vec![press(Key::Escape, false), press(Key::Enter, false)], false, false);
    assert!(r.activate && w.should_hide);
}

#[test]
fn clip_window_paths() {
    assert_eq!(temp_dir(Some("/run/u")), "/run/u/clip-layer-cache");
    assert_eq!(temp_dir(None), "/tmp/clip-layer-cache");
    assert_eq!(picture_file("/c", 7, "png"), "/c/img_7.png");
    assert_eq!(history_dir(Some("/h")), "/h/.cache/cliphist");
    assert_eq!(history_dir(None), "/tmp/cliphist");
    assert!(touches_history(&vec!["/x/y".to_string(), "/x/db".to_string()]));
    assert!(!touches_history(&vec!["/x/db.lock".to_string()]));
}

#[test]
fn use_is_recorded() {
    let mut u = UsageLog::default();
    assert!(!u.save(double(0.0)));
    u.record_focus("Firefox", double(0.5), double(10.0));
    assert!(u.events.is_empty() && !u.dirty);
    u.record_focus("Firefox", double(1.0), double(10.0));
    u.record_launch("FOOT", double(20.0));
    u.record_focus("firefox", double(9.0), double(30.0));
    assert_eq!(u.events[0].class, "firefox");
    assert!(u.events[1].duration_secs == double(0.0));
    let groups = u.class_events();
    assert_eq!(groups.len(), 2);
    let g = groups.iter().find(|g| g.class == "firefox").unwrap();
    assert_eq!(g.members, [0, 2]);
    u.record_selection("", "x", double(1.0));
    assert!(u.selections.is_empty());
    u.record_selection("Fire", "Firefox", double(40.0));
    u.record_selection("mail", "mutt", double(40.0));
    let groups = u.query_class_selections("FI");
    assert_eq!(groups.len(), 1);
    assert_eq!((groups[0].class.as_str(), groups[0].members.clone()), ("firefox", vec![0]));
    assert_eq!(u.query_class_selections("firefox x").len(), 1);
    assert!(u.save(double(15.0)));
    assert_eq!(u.events.len(), 2);
    assert!(!u.dirty);
    assert_eq!(usage_path(Some("/d")), "/d/launcher/usage.json");
    assert_eq!(usage_path(None), "/tmp/launcher/usage.json");
}

#[test]
fn log_is_capped() {
    let mut u = UsageLog::default();
    for i in 0..(MAX_EVENTS + 7) {
        u.record_launch("x", double(1.0 + i as f64));
    }
    assert!(u.save(double(0.0)));
    assert_eq!(u.events.len(), MAX_EVENTS);
    assert!(u.events[0].timestamp == double(8.0));
}

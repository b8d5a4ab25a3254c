use launcher::keys::{
    clear_input, finish_input, handle_navigation_keys, move_selection, render_range, shows_ghost,
    was_pressed, Direction, Held, InputChange, Key, KeyEvent,
};
use launcher::layer::{Drawn, Focus, PopUp};

const MS: u128 = 1_000_000;

fn press(key: Key, ctrl: bool) -> KeyEvent {
    KeyEvent { key, pressed: true, ctrl }
}

fn release(key: Key) -> KeyEvent {
    KeyEvent { key, pressed: false, ctrl: false }
}

#[test]
fn arrows_and_letters_navigate() {
    let mut held = None;
    for (e, down, up) in [
        (press(Key::ArrowDown, false), true, false),
        (press(Key::ArrowUp, false), false, true),
        (press(Key::J, true), true, false),
        (press(Key::K, true), false, true),
        (press(Key::N, true), true, false),
        (press(Key::P, true), false, true),
        (press(Key::J, false), false, false),
        (press(Key::Enter, false), false, false),
    ] {
        held = None;
        let n = handle_navigation_keys(true, &vec![e], &mut held, 0);
        assert_eq!((n.down, n.up), (down, up));
    }
    assert!(held.is_none());
}

#[test]
fn held_key_repeats_after_the_delay() {
    let mut held = None;
    let n = handle_navigation_keys(true, &vec![press(Key::J, true)], &mut held, 1000 * MS);
    assert!(n.down && n.repaint);
    assert!(held == Some(Held { direction: Direction::Down, since: 1000 * MS }));
    for (at, down) in [(1100, false), (1300, false), (1301, true), (1350, true), (1421, true)] {
        let n = handle_navigation_keys(true, &vec![], &mut held, at * MS);
        assert_eq!((n.down, n.up, n.repaint), (down, false, true), "{}", at);
    }
    let n = handle_navigation_keys(true, &vec![release(Key::J)], &mut held, 2000 * MS);
    assert!(!n.down && !n.repaint);
    assert!(held.is_none());
}

#[test]
fn lost_focus_releases_keys() {
    let mut held = Some(Held { direction: Direction::Up, since: 0 });
    let n = handle_navigation_keys(false, &vec![press(Key::ArrowUp, false)], &mut held, 9000 * MS);
    assert!(!n.down && !n.up && !n.repaint);
    assert!(held.is_none());
}

#[test]
fn selection_stays_in_the_list() {
    assert_eq!(move_selection(0, 3, true, false), 1);
    assert_eq!(move_selection(2, 3, true, false), 2);
    assert_eq!(move_selection(0, 3, false, true), 0);
    assert_eq!(move_selection(1, 3, true, true), 1);
    assert_eq!(move_selection(0, 0, true, false), 0);
    assert_eq!(move_selection(9, 3, true, false), 2);
}

#[test]
fn presses_are_found() {
    let events = vec![press(Key::C, false), press(Key::D, true), release(Key::Enter)];
    assert!(was_pressed(&events, Key::C, false));
    assert!(!was_pressed(&events, Key::C, true));
    assert!(was_pressed(&events, Key::D, true));
    assert!(was_pressed(&events, Key::D, false));
    assert!(!was_pressed(&events, Key::Enter, false));
}

#[test]
fn ctrl_u_clears_the_input() {
    let mut q = "abc".to_string();
    let start: InputChange = clear_input(&mut q, &vec![press(Key::U, true)]);
    assert_eq!(q, "");
    assert!(start.cleared);
    let end = finish_input(start, "", "x");
    assert!(end.changed && end.cleared);
    let mut q = "abc".to_string();
    let start = clear_input(&mut q, &vec![press(Key::U, false)]);
    assert_eq!(q, "abc");
    let end = finish_input(start, "abc", "abc");
    assert!(!end.changed && !end.cleared);
}

#[test]
fn completion_shows_behind_a_query() {
    assert!(shows_ghost("fox", "fire"));
    assert!(!shows_ghost("", "fire"));
    assert!(!shows_ghost("fox", ""));
}

#[test]
fn one_row_more_is_drawn_on_each_side() {
    assert_eq!(render_range(5, 10, 100), (4, 11));
    assert_eq!(render_range(0, 10, 10), (0, 10));
}

#[test]
fn hooks_run_on_the_first_frames() {
    let mut p = PopUp::new();
    let h = p.begin(&vec![]);
    assert!(h.frame_init && !h.show);
    p.end(None);
    let h = p.begin(&vec![]);
    assert!(h.frame_init);
    p.end(Some(Drawn { height: 40, should_hide: false }));
    let h = p.begin(&vec![Focus::Enter]);
    assert!(!h.frame_init && h.show);
    p.end(Some(Drawn { height: 40, should_hide: false }));
    let h = p.begin(&vec![Focus::Leave, Focus::Enter]);
    assert!(!h.frame_init && !h.show);
}

#[test]
fn surface_is_resized_by_more_than_a_pixel() {
    let mut p = PopUp::new();
    p.begin(&vec![]);
    assert_eq!(p.end(None).resize, None);
    assert_eq!(p.end(Some(Drawn { height: 50, should_hide: false })).resize, Some(50));
    assert_eq!(p.end(Some(Drawn { height: 51, should_hide: false })).resize, None);
    assert_eq!(p.end(Some(Drawn { height: 48, should_hide: false })).resize, Some(48));
    assert_eq!(p.end(Some(Drawn { height: 0, should_hide: false })).resize, Some(1));
}

#[test]
fn overlay_is_dismissed_by_its_frame_or_by_focus_loss() {
    let mut p = PopUp::new();
    p.begin(&vec![Focus::Leave]);
    assert!(!p.end(Some(Drawn { height: 9, should_hide: false })).dismiss);
    assert!(p.end(Some(Drawn { height: 9, should_hide: true })).dismiss);
    p.begin(&vec![Focus::Enter]);
    assert!(!p.end(None).dismiss);
    p.begin(&vec![Focus::Leave]);
    assert!(p.end(None).dismiss);
}

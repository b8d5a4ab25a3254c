//! Keys: navigation with repeat, the input row, the window on a long list.

use crate::text::same;
use vstd::prelude::*;

verus! {

/// Milliseconds for which a key is held before it repeats.
pub const REPEAT_DELAY_MS: u128 = 300;

/// A number of milliseconds between repeats. It sets no pace: a key that is held
/// past the delay repeats in every frame.
pub const REPEAT_INTERVAL_MS: u128 = 120;

/// The keys that mean something here.
#[derive(Clone, Copy, PartialEq, Eq, Structural)]
pub enum Key {
    ArrowDown,
    ArrowUp,
    Enter,
    Escape,
    Tab,
    Delete,
    C,
    D,
    J,
    K,
    N,
    P,
    U,
    Other,
}

/// A key that went down or up.
#[derive(Clone, Copy)]
pub struct KeyEvent {
    pub key: Key,
    pub pressed: bool,
    pub ctrl: bool,
}

/// A direction in a list.
#[derive(Clone, Copy, PartialEq, Eq, Structural)]
pub enum Direction {
    Down,
    Up,
}

/// A navigation key that is held: its direction, and since when in nanoseconds.
#[derive(Clone, Copy, PartialEq, Eq, Structural)]
pub struct Held {
    pub direction: Direction,
    pub since: u128,
}

/// What the navigation keys ask for in one frame.
#[derive(Clone, Copy, PartialEq, Eq, Structural)]
pub struct Navigation {
    pub down: bool,
    pub up: bool,
    /// Whether a key is held, so that another frame is wanted.
    pub repaint: bool,
}

/// Whether the release of a key ends a repeat.
pub open spec fn ends_repeat(e: KeyEvent) -> bool {
    !e.pressed && match e.key {
        Key::ArrowDown | Key::ArrowUp | Key::J | Key::K | Key::N | Key::P => true,
        _ => false,
    }
}

/// The direction that a press asks for: an arrow key's, or that of Ctrl with
/// J or N (down), K or P (up).
pub open spec fn asks_for(e: KeyEvent) -> Option<Direction> {
    if !e.pressed {
        None
    } else {
        match e.key {
            Key::ArrowDown => Some(Direction::Down),
            Key::ArrowUp => Some(Direction::Up),
            Key::J | Key::N => if e.ctrl {
                Some(Direction::Down)
            } else {
                None
            },
            Key::K | Key::P => if e.ctrl {
                Some(Direction::Up)
            } else {
                None
            },
            _ => None,
        }
    }
}

/// Whether some event ends a repeat.
pub open spec fn any_end(events: Seq<KeyEvent>) -> bool {
    exists|i: int| 0 <= i < events.len() && ends_repeat(#[trigger] events[i])
}

/// Whether some event asks for a direction.
pub open spec fn any_press(events: Seq<KeyEvent>, d: Direction) -> bool {
    exists|i: int| 0 <= i < events.len() && asks_for(#[trigger] events[i]) == Some(d)
}

/// The direction that the last of the presses asks for.
pub open spec fn last_press(events: Seq<KeyEvent>) -> Option<Direction>
    decreases events.len(),
{
    if events.len() == 0 {
        None
    } else {
        match asks_for(events.last()) {
            Some(d) => Some(d),
            None => last_press(events.drop_last()),
        }
    }
}

/// What is held after the events of a frame: the last press, from now; else
/// what was held, unless a release ended it.
pub open spec fn held_after(held: Option<Held>, events: Seq<KeyEvent>, now: u128) -> Option<Held> {
    match last_press(events) {
        Some(direction) => Some(Held { direction, since: now }),
        None => if any_end(events) {
            None
        } else {
            held
        },
    }
}

/// Whole milliseconds from one time in nanoseconds to another.
pub open spec fn elapsed_ms(since: u128, now: u128) -> int {
    if now >= since {
        (now - since) / 1_000_000
    } else {
        0
    }
}

/// Whether a held key repeats in a direction: it has been held for longer
/// than the delay.
pub open spec fn repeats(held: Option<Held>, d: Direction, now: u128) -> bool {
    match held {
        Some(h) => h.direction == d && elapsed_ms(h.since, now) > REPEAT_DELAY_MS,
        None => false,
    }
}

fn ends(e: &KeyEvent) -> (r: bool)
    ensures
        r == ends_repeat(*e),
{
    !e.pressed && match e.key {
        Key::ArrowDown | Key::ArrowUp | Key::J | Key::K | Key::N | Key::P => true,
        _ => false,
    }
}

fn direction_of(e: &KeyEvent) -> (r: Option<Direction>)
    ensures
        r == asks_for(*e),
{
    if !e.pressed {
        return None;
    }
    match e.key {
        Key::ArrowDown => Some(Direction::Down),
        Key::ArrowUp => Some(Direction::Up),
        Key::J | Key::N => if e.ctrl {
            Some(Direction::Down)
        } else {
            None
        },
        Key::K | Key::P => if e.ctrl {
            Some(Direction::Up)
        } else {
            None
        },
        _ => None,
    }
}

/// Handles the navigation keys of one frame and the repeat of a held one.
/// `now` is in nanoseconds, on the clock of `held`. Without focus nothing is
/// held and nothing is asked for.
pub fn handle_navigation_keys(
    focused: bool,
    events: &Vec<KeyEvent>,
    held: &mut Option<Held>,
    now: u128,
) -> (r: Navigation)
    ensures
        !focused ==> *final(held) == None::<Held> && r == (Navigation {
            down: false,
            up: false,
            repaint: false,
        }),
        focused ==> {
            &&& *final(held) == held_after(*old(held), events@, now)
            &&& r.down == (any_press(events@, Direction::Down) || repeats(
                *final(held),
                Direction::Down,
                now,
            ))
            &&& r.up == (any_press(events@, Direction::Up) || repeats(
                *final(held),
                Direction::Up,
                now,
            ))
            &&& r.repaint == (*final(held)).is_some()
        },
{
    if !focused {
        *held = None;
        return Navigation { down: false, up: false, repaint: false };
    }
    let mut released = false;
    let mut i: usize = 0;
    while i < events.len()
        invariant
            i <= events@.len(),
            released == exists|j: int| 0 <= j < i && ends_repeat(#[trigger] events@[j]),
        decreases events.len() - i,
    {
        if ends(&events[i]) {
            released = true;
        }
        i = i + 1;
    }
    if released {
        *held = None;
    }
    let ghost kept = *held;
    let mut down = false;
    let mut up = false;
    let mut k: usize = 0;
    assert(events@.take(0) == Seq::<KeyEvent>::empty());
    while k < events.len()
        invariant
            k <= events@.len(),
            down == exists|j: int|
                0 <= j < k && asks_for(#[trigger] events@[j]) == Some(Direction::Down),
            up == exists|j: int|
                0 <= j < k && asks_for(#[trigger] events@[j]) == Some(Direction::Up),
            *held == (match last_press(events@.take(k as int)) {
                Some(direction) => Some(Held { direction, since: now }),
                None => kept,
            }),
        decreases events.len() - k,
    {
        proof {
            assert(events@.take(k + 1).drop_last() == events@.take(k as int));
            assert(events@.take(k + 1).last() == events@[k as int]);
        }
        match direction_of(&events[k]) {
            Some(direction) => {
                match direction {
                    Direction::Down => {
                        down = true;
                    },
                    Direction::Up => {
                        up = true;
                    },
                }
                *held = Some(Held { direction, since: now });
            },
            None => {},
        }
        k = k + 1;
    }
    assert(events@.take(events@.len() as int) == events@);
    let mut repaint = false;
    match *held {
        Some(h) => {
            let elapsed: u128 = if now >= h.since {
                (now - h.since) / 1_000_000
            } else {
                0
            };
            if elapsed > REPEAT_DELAY_MS {
                let past: u128 = elapsed - REPEAT_DELAY_MS;
                let count: u128 = past / REPEAT_INTERVAL_MS;
                let earlier: u128 = if past >= REPEAT_INTERVAL_MS {
                    (past - REPEAT_INTERVAL_MS) / REPEAT_INTERVAL_MS
                } else {
                    0
                };
                if count > earlier || past < REPEAT_INTERVAL_MS {
                    match h.direction {
                        Direction::Down => {
                            down = true;
                        },
                        Direction::Up => {
                            up = true;
                        },
                    }
                }
            }
            repaint = true;
        },
        None => {},
    }
    Navigation { down, up, repaint }
}

/// A selection moved down or up by one row within a list of `len` rows.
pub open spec fn moved(selected: int, len: int, down: bool, up: bool) -> int {
    let last = if len > 0 {
        len - 1
    } else {
        0
    };
    let below = if down {
        if selected + 1 < last {
            selected + 1
        } else {
            last
        }
    } else {
        selected
    };
    if up && below > 0 {
        below - 1
    } else {
        below
    }
}

/// Moves a selection down or up by one row, not past the ends of the list.
pub fn move_selection(selected: usize, len: usize, down: bool, up: bool) -> (r: usize)
    ensures
        r == moved(selected as int, len as int, down, up),
{
    let last: usize = if len > 0 {
        len - 1
    } else {
        0
    };
    let below: usize = if down {
        if selected < last {
            selected + 1
        } else {
            last
        }
    } else {
        selected
    };
    if up && below > 0 {
        below - 1
    } else {
        below
    }
}

/// A selection that is in the list stays in the list.
pub proof fn moved_stays_inside(selected: int, len: int, down: bool, up: bool)
    requires
        0 <= selected < len,
    ensures
        0 <= moved(selected, len, down, up) < len,
{
}

/// Whether some event is the press of a key, with Ctrl where that is asked for.
pub open spec fn any_pressed(events: Seq<KeyEvent>, key: Key, with_ctrl: bool) -> bool {
    exists|i: int|
        0 <= i < events.len() && (#[trigger] events[i]).pressed && events[i].key == key && (
        with_ctrl ==> events[i].ctrl)
}

/// Whether a key was pressed, with Ctrl where that is asked for.
pub fn was_pressed(events: &Vec<KeyEvent>, key: Key, with_ctrl: bool) -> (r: bool)
    ensures
        r == any_pressed(events@, key, with_ctrl),
{
    let mut i: usize = 0;
    while i < events.len()
        invariant
            i <= events@.len(),
            forall|j: int|
                0 <= j < i ==> !((#[trigger] events@[j]).pressed && events@[j].key == key && (
                with_ctrl ==> events@[j].ctrl)),
        decreases events.len() - i,
    {
        let e = events[i];
        if e.pressed && e.key == key && (!with_ctrl || e.ctrl) {
            assert(events@[i as int].pressed);
            return true;
        }
        i = i + 1;
    }
    false
}

/// What happened to the query of an input row in one frame.
#[derive(Clone, Copy, PartialEq, Eq, Structural)]
pub struct InputChange {
    pub changed: bool,
    pub cleared: bool,
}

/// Clears the query of an input row on Ctrl+U, before the field sees the keys.
pub fn clear_input(query: &mut String, events: &Vec<KeyEvent>) -> (r: InputChange)
    ensures
        r.cleared == any_pressed(events@, Key::U, true),
        r.changed == (r.cleared && old(query)@.len() > 0),
        final(query)@ == (if r.cleared {
            Seq::empty()
        } else {
            old(query)@
        }),
{
    let cleared = was_pressed(events, Key::U, true);
    let mut changed = false;
    if cleared && !query.as_str().is_empty() {
        *query = String::new();
        changed = true;
    }
    proof {
        if cleared && !changed {
            assert(query@ == Seq::<char>::empty());
        }
        assert(changed ==> query@ == Seq::<char>::empty());
    }
    InputChange { changed, cleared }
}

/// What happened to the query once the field has taken its keys: `before` is
/// the query that the field was given, `after` the one it left.
pub fn finish_input(start: InputChange, before: &str, after: &str) -> (r: InputChange)
    ensures
        r.cleared == start.cleared,
        r.changed == (start.changed || before@ != after@),
{
    InputChange { changed: start.changed || !same(before, after), cleared: start.cleared }
}

/// Whether the completion is painted behind the query.
pub fn shows_ghost(completion: &str, query: &str) -> (r: bool)
    ensures
        r == (completion@.len() > 0 && query@.len() > 0),
{
    !completion.is_empty() && !query.is_empty()
}

/// The rows of a list that are rendered: those in view and one on each side.
/// `first` is the first row in view, `last` the one after the last.
pub fn render_range(first: usize, last: usize, total: usize) -> (r: (usize, usize))
    ensures
        r.0 == (if first > 0 {
            first - 1
        } else {
            0
        }),
        r.1 == (if last < total {
            last + 1
        } else {
            total as int
        }),
{
    let start: usize = if first > 0 {
        first - 1
    } else {
        0
    };
    let end: usize = if last < total {
        last + 1
    } else {
        total
    };
    (start, end)
}

/// The last press is that of the last event that asks for a direction.
pub proof fn last_press_is_last(events: Seq<KeyEvent>)
    ensures
        last_press(events) is None <==> (forall|i: int|
            0 <= i < events.len() ==> asks_for(#[trigger] events[i]) is None),
        last_press(events) is Some ==> exists|k: int|
            0 <= k < events.len() && asks_for(#[trigger] events[k]) == last_press(events) && forall|
                j: int,
            |
                k < j < events.len() ==> asks_for(#[trigger] events[j]) is None,
    decreases events.len(),
{
    if events.len() > 0 {
        let part = events.drop_last();
        let n = events.len() - 1;
        last_press_is_last(part);
        assert(events[n] == events.last());
        assert(forall|i: int| 0 <= i < n ==> #[trigger] events[i] == part[i]);
        if asks_for(events.last()) is None {
            if last_press(part) is Some {
                let k = choose|k: int|
                    0 <= k < part.len() && asks_for(#[trigger] part[k]) == last_press(part)
                        && forall|j: int|
                        k < j < part.len() ==> asks_for(#[trigger] part[j]) is None;
                assert(events[k] == part[k]);
                assert forall|j: int| k < j < events.len() implies asks_for(
                    #[trigger] events[j],
                ) is None by {
                    if j < n {
                        assert(part[j] == events[j]);
                    }
                }
            } else {
                assert forall|i: int| 0 <= i < events.len() implies asks_for(
                    #[trigger] events[i],
                ) is None by {
                    if i < n {
                        assert(part[i] == events[i]);
                    }
                }
            }
        }
    }
}

/// A key that is pressed and kept down is held from then on: events that ask
/// for nothing and end nothing leave it, and it repeats once it was held for
/// more than the delay, in its own direction only.
pub proof fn held_key_repeats(h: Held, events: Seq<KeyEvent>, now: u128)
    requires
        forall|i: int|
            0 <= i < events.len() ==> asks_for(#[trigger] events[i]) is None && !ends_repeat(
                events[i],
            ),
    ensures
        held_after(Some(h), events, now) == Some(h),
        repeats(Some(h), h.direction, now) <==> now >= h.since + (REPEAT_DELAY_MS + 1) * 1_000_000,
        h.direction == Direction::Down ==> !repeats(Some(h), Direction::Up, now),
        h.direction == Direction::Up ==> !repeats(Some(h), Direction::Down, now),
{
    last_press_is_last(events);
}

/// A press of a navigation key is held from now on, and letting one go ends it.
pub proof fn press_is_held(held: Option<Held>, e: KeyEvent, now: u128)
    ensures
        asks_for(e) matches Some(direction) ==> held_after(held, seq![e], now) == Some(
            (Held { direction, since: now }),
        ),
        !e.pressed && (e.key == Key::ArrowDown || e.key == Key::ArrowUp || e.key == Key::J || e.key
            == Key::K || e.key == Key::N || e.key == Key::P) ==> held_after(
            held,
            seq![e],
            now,
        ) is None,
        e.pressed && e.key == Key::ArrowDown ==> asks_for(e) == Some(Direction::Down),
        e.pressed && e.key == Key::ArrowUp ==> asks_for(e) == Some(Direction::Up),
        e.pressed && e.ctrl && (e.key == Key::J || e.key == Key::N) ==> asks_for(e) == Some(
            Direction::Down,
        ),
        e.pressed && e.ctrl && (e.key == Key::K || e.key == Key::P) ==> asks_for(e) == Some(
            Direction::Up,
        ),
        !e.ctrl && e.key != Key::ArrowDown && e.key != Key::ArrowUp ==> asks_for(e) is None,
{
    let s = seq![e];
    assert(s.last() == e);
    assert(s.drop_last() =~= Seq::<KeyEvent>::empty());
    assert(last_press(s.drop_last()) is None);
    if ends_repeat(e) {
        assert(s[0] == e);
    }
}

/// Down selects the next row and up the one before; at the ends the selection
/// stays, and without a key it does not move.
pub proof fn selection_moves_by_one(selected: int, len: int)
    requires
        0 <= selected < len,
    ensures
        moved(selected, len, false, false) == selected,
        selected + 1 < len ==> moved(selected, len, true, false) == selected + 1,
        selected + 1 == len ==> moved(selected, len, true, false) == selected,
        selected > 0 ==> moved(selected, len, false, true) == selected - 1,
        selected == 0 ==> moved(selected, len, false, true) == 0,
{
}

/// A key counts as pressed once an event presses it, whatever else happens in
/// the frame; where Ctrl is asked for, only one with Ctrl does.
pub proof fn presses_count(events: Seq<KeyEvent>, e: KeyEvent, key: Key, with_ctrl: bool)
    ensures
        !any_pressed(Seq::empty(), key, with_ctrl),
        any_pressed(events.push(e), key, with_ctrl) == (any_pressed(events, key, with_ctrl) || (
        e.pressed && e.key == key && (e.ctrl || !with_ctrl))),
        any_pressed(events, key, true) ==> any_pressed(events, key, false),
{
    let all = events.push(e);
    let n = events.len() as int;
    assert(all[n] == e);
    assert(forall|i: int| 0 <= i < n ==> #[trigger] all[i] == events[i]);
    if any_pressed(events, key, with_ctrl) {
        let i = choose|i: int|
            0 <= i < events.len() && (#[trigger] events[i]).pressed && events[i].key == key && (
            with_ctrl ==> events[i].ctrl);
        assert(all[i] == events[i]);
    }
}

} // verus!

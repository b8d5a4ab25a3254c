//! One pop-up of an overlay: when its hooks run, when its surface is resized and
//! when it is dismissed.

use vstd::prelude::*;

verus! {

/// What the keyboard did to the overlay's surface.
#[derive(Clone, Copy, PartialEq, Eq, Structural)]
pub enum Focus {
    Enter,
    Leave,
}

/// A pop-up from the moment its surface is there.
#[derive(Clone, Copy, PartialEq, Eq, Structural)]
pub struct PopUp {
    pub has_focus: bool,
    pub ever_focused: bool,
    /// Whether the hook for the first frame has still to run.
    pub frame_init_pending: bool,
    /// Whether the hook for the first frame with focus has still to run.
    pub show_pending: bool,
    /// The height that was asked for last.
    pub last_height: u32,
}

/// The hooks that run before the first frame of a pass.
#[derive(Clone, Copy, PartialEq, Eq, Structural)]
pub struct Hooks {
    pub frame_init: bool,
    pub show: bool,
}

/// What a frame asks for: a height, and whether to dismiss the overlay.
#[derive(Clone, Copy, PartialEq, Eq, Structural)]
pub struct Drawn {
    pub height: u32,
    pub should_hide: bool,
}

/// What is left to do after a pass.
#[derive(Clone, Copy, PartialEq, Eq, Structural)]
pub struct Outcome {
    /// The height to ask for, if it changed.
    pub resize: Option<u32>,
    pub dismiss: bool,
}

/// A pop-up whose surface was just made.
pub open spec fn fresh() -> PopUp {
    PopUp {
        has_focus: false,
        ever_focused: false,
        frame_init_pending: true,
        show_pending: true,
        last_height: 0,
    }
}

impl PopUp {
    /// The pop-up after the keyboard came and went.
    pub open spec fn focused(self, events: Seq<Focus>) -> PopUp
        decreases events.len(),
    {
        if events.len() == 0 {
            self
        } else {
            let before = self.focused(events.drop_last());
            match events.last() {
                Focus::Enter => PopUp { has_focus: true, ever_focused: true, ..before },
                Focus::Leave => PopUp { has_focus: false, ..before },
            }
        }
    }

    /// The hooks that run if this pass draws a frame.
    pub open spec fn due(self) -> Hooks {
        Hooks {
            frame_init: self.frame_init_pending,
            show: self.show_pending && self.ever_focused,
        }
    }

    /// The height that this pass wants, at least one pixel: that of the frame,
    /// or the last one if nothing was drawn.
    pub open spec fn wanted(self, drawn: Option<Drawn>) -> u32 {
        let h = match drawn {
            Some(d) => d.height,
            None => self.last_height,
        };
        if h < 1 {
            1
        } else {
            h
        }
    }

    /// Whether a height differs from the last one by more than a pixel.
    pub open spec fn differs(self, height: u32) -> bool {
        height - self.last_height > 1 || self.last_height - height > 1
    }

    /// The pop-up after a pass. The hooks that were due are done if a frame was
    /// drawn.
    pub open spec fn passed(self, drawn: Option<Drawn>) -> PopUp {
        PopUp {
            frame_init_pending: self.frame_init_pending && drawn is None,
            show_pending: self.show_pending && (drawn is None || !self.ever_focused),
            last_height: if self.differs(self.wanted(drawn)) {
                self.wanted(drawn)
            } else {
                self.last_height
            },
            ..self
        }
    }

    /// What is left to do after a pass: the overlay is dismissed when its frame
    /// asks for it, or when it had the focus and lost it.
    pub open spec fn outcome(self, drawn: Option<Drawn>) -> Outcome {
        Outcome {
            resize: if self.differs(self.wanted(drawn)) {
                Some(self.wanted(drawn))
            } else {
                None
            },
            dismiss: (drawn matches Some(d) && d.should_hide) || (self.ever_focused
                && !self.has_focus),
        }
    }

    /// A pop-up whose surface was just made.
    pub fn new() -> (r: PopUp)
        ensures
            r == fresh(),
    {
        PopUp {
            has_focus: false,
            ever_focused: false,
            frame_init_pending: true,
            show_pending: true,
            last_height: 0,
        }
    }

    /// Begins a pass: takes note of the keyboard and says which hooks are due.
    pub fn begin(&mut self, events: &Vec<Focus>) -> (r: Hooks)
        ensures
            *final(self) == old(self).focused(events@),
            r == final(self).due(),
    {
        let ghost before = *self;
        let mut i: usize = 0;
        assert(*self == before.focused(events@.take(0)));
        while i < events.len()
            invariant
                i <= events@.len(),
                *self == before.focused(events@.take(i as int)),
            decreases events.len() - i,
        {
            assert(events@.take(i + 1).drop_last() == events@.take(i as int));
            assert(events@.take(i + 1).last() == events@[i as int]);
            match events[i] {
                Focus::Enter => {
                    self.has_focus = true;
                    self.ever_focused = true;
                },
                Focus::Leave => {
                    self.has_focus = false;
                },
            }
            i = i + 1;
        }
        assert(events@.take(events@.len() as int) == events@);
        Hooks { frame_init: self.frame_init_pending, show: self.show_pending && self.ever_focused }
    }

    /// Ends a pass that drew a frame, or none.
    pub fn end(&mut self, drawn: Option<Drawn>) -> (r: Outcome)
        ensures
            *final(self) == old(self).passed(drawn),
            r == old(self).outcome(drawn),
    {
        let mut height: u32 = self.last_height;
        let mut leave = false;
        match drawn {
            Some(d) => {
                height = d.height;
                leave = d.should_hide;
                self.frame_init_pending = false;
                if self.ever_focused {
                    self.show_pending = false;
                }
            },
            None => {},
        }
        if height < 1 {
            height = 1;
        }
        let apart: u32 = if height > self.last_height {
            height - self.last_height
        } else {
            self.last_height - height
        };
        let mut resize = None;
        if apart > 1 {
            self.last_height = height;
            resize = Some(height);
        }
        Outcome { resize, dismiss: leave || (self.ever_focused && !self.has_focus) }
    }
}

/// The hook for the first frame runs once: it is due until a frame was drawn,
/// and never after.
pub proof fn frame_init_runs_once(p: PopUp, events: Seq<Focus>, drawn: Option<Drawn>)
    ensures
        p.focused(events).frame_init_pending == p.frame_init_pending,
        p.passed(drawn).due().frame_init == (p.due().frame_init && drawn is None),
    decreases events.len(),
{
    if events.len() > 0 {
        frame_init_runs_once(p, events.drop_last(), drawn);
    }
}

/// The hook for the focus runs once: a frame that ran it leaves it never due
/// again, whatever the keyboard does.
pub proof fn show_runs_once(p: PopUp, events: Seq<Focus>, drawn: Drawn)
    requires
        p.due().show,
    ensures
        !p.passed(Some(drawn)).focused(events).due().show,
{
    show_stays(p.passed(Some(drawn)), events);
}

proof fn show_stays(p: PopUp, events: Seq<Focus>)
    ensures
        p.focused(events).show_pending == p.show_pending,
    decreases events.len(),
{
    if events.len() > 0 {
        show_stays(p, events.drop_last());
    }
}

/// Without the focus ever, an overlay is dismissed only by its own frame.
pub proof fn unfocused_stays(p: PopUp, drawn: Option<Drawn>)
    requires
        !p.ever_focused,
    ensures
        p.outcome(drawn).dismiss == (drawn matches Some(d) && d.should_hide),
{
}

/// A height that was asked for is not asked for again.
pub proof fn resize_settles(p: PopUp, drawn: Drawn)
    ensures
        p.passed(Some(drawn)).outcome(Some(drawn)).resize is None,
{
}

/// The last thing that the keyboard did decides who has the focus, and having
/// had it once is not forgotten.
pub proof fn last_focus_counts(p: PopUp, events: Seq<Focus>)
    ensures
        events.len() == 0 ==> p.focused(events) == p,
        events.len() > 0 ==> p.focused(events).has_focus == (events.last() == Focus::Enter),
        p.focused(events).ever_focused == (p.ever_focused || exists|i: int|
            0 <= i < events.len() && #[trigger] events[i] == Focus::Enter),
        p.focused(events).last_height == p.last_height,
    decreases events.len(),
{
    if events.len() > 0 {
        let part = events.drop_last();
        let n = events.len() - 1;
        last_focus_counts(p, part);
        assert(events[n] == events.last());
        assert(forall|i: int| 0 <= i < n ==> #[trigger] events[i] == part[i]);
        if exists|i: int| 0 <= i < part.len() && #[trigger] part[i] == Focus::Enter {
            let i = choose|i: int| 0 <= i < part.len() && #[trigger] part[i] == Focus::Enter;
            assert(events[i] == Focus::Enter);
        }
    }
}

/// An overlay that had the focus and lost it is dismissed; one that has it stays
/// unless its frame asks to be hidden.
pub proof fn lost_focus_dismisses(p: PopUp, drawn: Option<Drawn>)
    ensures
        p.ever_focused && !p.has_focus ==> p.outcome(drawn).dismiss,
        p.has_focus && !(drawn matches Some(d) && d.should_hide) ==> !p.outcome(drawn).dismiss,
        (drawn matches Some(d) && d.should_hide) ==> p.outcome(drawn).dismiss,
{
}

/// A frame that is higher or lower than the last by more than a pixel has the
/// surface resized to its height; another leaves it.
pub proof fn surface_follows_the_frame(p: PopUp, drawn: Drawn)
    requires
        drawn.height >= 1,
    ensures
        drawn.height > p.last_height + 1 || p.last_height > drawn.height + 1 ==> p.outcome(
            Some(drawn),
        ).resize == Some(drawn.height) && p.passed(Some(drawn)).last_height == drawn.height,
        drawn.height <= p.last_height + 1 && p.last_height <= drawn.height + 1 ==> p.outcome(
            Some(drawn),
        ).resize is None && p.passed(Some(drawn)).last_height == p.last_height,
{
}

} // verus!

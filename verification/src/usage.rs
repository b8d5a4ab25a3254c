//! The log of how applications are used: what is recorded, what is pruned, and
//! which records count for a class.
//!
//! Raw events are the source of truth; scores are sums over them with
//! time-decay weights.

use crate::double::{Double, ONE};
use crate::path::{join, joined};
use crate::desktop::slice_text;
use crate::text::{lowercase, starts_with, to_lowercase};
use vstd::hash_map::StringHashMap;
use vstd::prelude::*;

verus! {

/// Max events to retain.
pub const MAX_EVENTS: usize = 5000;

/// A launch, or a time for which a window had the focus.
pub struct Event {
    /// Normalized app class (lowercase).
    pub class: String,
    /// Unix timestamp.
    pub timestamp: Double,
    /// Focus duration in seconds (0 for launches).
    pub duration_secs: Double,
}

/// What the user chose when they typed a given query.
pub struct Selection {
    /// The query typed (lowercase).
    pub query: String,
    /// The entry chosen (lowercase class or name).
    pub class: String,
    /// Unix timestamp.
    pub timestamp: Double,
}

/// What an event says.
pub struct EventView {
    pub class: Seq<char>,
    pub timestamp: Double,
    pub duration_secs: Double,
}

/// What a selection says.
pub struct SelectionView {
    pub query: Seq<char>,
    pub class: Seq<char>,
    pub timestamp: Double,
}

impl View for Event {
    type V = EventView;

    open spec fn view(&self) -> EventView {
        EventView {
            class: self.class@,
            timestamp: self.timestamp,
            duration_secs: self.duration_secs,
        }
    }
}

impl View for Selection {
    type V = SelectionView;

    open spec fn view(&self) -> SelectionView {
        SelectionView { query: self.query@, class: self.class@, timestamp: self.timestamp }
    }
}

/// The log of use.
pub struct UsageLog {
    pub events: Vec<Event>,
    pub selections: Vec<Selection>,
    /// Whether anything was recorded since the log was written.
    pub dirty: bool,
}

/// What the log of use says.
#[verifier::ext_equal]
pub struct UsageView {
    pub events: Seq<EventView>,
    pub selections: Seq<SelectionView>,
    pub dirty: bool,
}

impl View for UsageLog {
    type V = UsageView;

    open spec fn view(&self) -> UsageView {
        UsageView {
            events: self.events@.map_values(|e: Event| e@),
            selections: self.selections@.map_values(|s: Selection| s@),
            dirty: self.dirty,
        }
    }
}

impl Default for UsageLog {
    fn default() -> (r: UsageLog)
        ensures
            r@ == (UsageView { events: Seq::empty(), selections: Seq::empty(), dirty: false }),
    {
        let r = UsageLog { events: Vec::new(), selections: Vec::new(), dirty: false };
        assert(r@ =~= (UsageView { events: Seq::empty(), selections: Seq::empty(), dirty: false }));
        r
    }
}

/// The path of the log's file, under the data directory where there is one.
pub fn usage_path(data_dir: Option<&str>) -> (r: String)
    ensures
        r@ == joined(
            joined(
                match slice_text(data_dir) {
                    Some(d) => d,
                    None => "/tmp"@,
                },
                "launcher"@,
            ),
            "usage.json"@,
        ),
{
    let dir = match data_dir {
        Some(d) => join(d, "launcher"),
        None => join("/tmp", "launcher"),
    };
    join(dir.as_str(), "usage.json")
}

/// The last items of a list.
pub open spec fn last_of<A>(s: Seq<A>, n: int) -> Seq<A> {
    if s.len() > n {
        s.skip(s.len() - n)
    } else {
        s
    }
}

/// The records that pruning keeps: those after the cutoff, of these the last.
pub open spec fn pruned(u: UsageView, cutoff: Double) -> UsageView {
    UsageView {
        events: last_of(
            u.events.filter(|e: EventView| cutoff.less(e.timestamp)),
            MAX_EVENTS as int,
        ),
        selections: last_of(
            u.selections.filter(|s: SelectionView| cutoff.less(s.timestamp)),
            MAX_EVENTS as int,
        ),
        dirty: false,
    }
}

/// A pruned log is capped: it holds at most [`MAX_EVENTS`] records of each sort,
/// all of them later than the cutoff and all of them from the log.
pub proof fn pruned_log_is_capped(u: UsageView, cutoff: Double)
    ensures
        ({
            let p = pruned(u, cutoff);
            &&& p.events.len() <= MAX_EVENTS
            &&& p.selections.len() <= MAX_EVENTS
            &&& forall|i: int|
                0 <= i < p.events.len() ==> cutoff.less((#[trigger] p.events[i]).timestamp)
                    && u.events.contains(p.events[i])
            &&& forall|i: int|
                0 <= i < p.selections.len() ==> cutoff.less((#[trigger] p.selections[i]).timestamp)
                    && u.selections.contains(p.selections[i])
        }),
{
    let late = |e: EventView| cutoff.less(e.timestamp);
    let late_s = |s: SelectionView| cutoff.less(s.timestamp);
    let p = pruned(u, cutoff);
    let events = u.events.filter(late);
    let selections = u.selections.filter(late_s);
    assert forall|i: int| 0 <= i < p.events.len() implies cutoff.less(
        (#[trigger] p.events[i]).timestamp,
    ) && u.events.contains(p.events[i]) by {
        let k = i + events.len() - p.events.len();
        assert(p.events[i] == events[k]);
        u.events.lemma_filter_pred(late, k);
        assert(events.contains(events[k]));
        u.events.lemma_filter_contains_rev(late, events[k]);
    }
    assert forall|i: int| 0 <= i < p.selections.len() implies cutoff.less(
        (#[trigger] p.selections[i]).timestamp,
    ) && u.selections.contains(p.selections[i]) by {
        let k = i + selections.len() - p.selections.len();
        assert(p.selections[i] == selections[k]);
        u.selections.lemma_filter_pred(late_s, k);
        assert(selections.contains(selections[k]));
        u.selections.lemma_filter_contains_rev(late_s, selections[k]);
    }
}

impl UsageView {
    /// The log with one more event, of a class in lower case.
    pub open spec fn with_event(self, class: Seq<char>, duration_secs: Double, now: Double) -> UsageView {
        UsageView {
            events: self.events.push(
                EventView { class: lowercase(class), timestamp: now, duration_secs },
            ),
            dirty: true,
            ..self
        }
    }

    /// The log after a window had the focus: less than a second does not count.
    pub open spec fn focused(self, class: Seq<char>, duration_secs: Double, now: Double) -> UsageView {
        if duration_secs.less((Double { bits: ONE })) {
            self
        } else {
            self.with_event(class, duration_secs, now)
        }
    }

    /// The log after an application was launched.
    pub open spec fn launched(self, class: Seq<char>, now: Double) -> UsageView {
        self.with_event(class, (Double { bits: 0 }), now)
    }

    /// The log after an entry was chosen for a query: an empty one teaches
    /// nothing.
    pub open spec fn chosen(self, query: Seq<char>, class: Seq<char>, now: Double) -> UsageView {
        if lowercase(query).len() == 0 {
            self
        } else {
            UsageView {
                selections: self.selections.push(
                    SelectionView {
                        query: lowercase(query),
                        class: lowercase(class),
                        timestamp: now,
                    },
                ),
                dirty: true,
                ..self
            }
        }
    }
}

impl UsageLog {
    /// Records a focus duration event. Blips of less than a second are ignored.
    pub fn record_focus(&mut self, class: &str, duration_secs: Double, now: Double)
        ensures
            final(self)@ == old(self)@.focused(class@, duration_secs, now),
            final(self)@ == (if duration_secs.less((Double { bits: ONE })) {
                old(self)@
            } else {
                (UsageView {
                    events: old(self)@.events.push(
                        (EventView { class: lowercase(class@), timestamp: now, duration_secs }),
                    ),
                    selections: old(self)@.selections,
                    dirty: true,
                })
            }),
    {
        if duration_secs.is_less(Double { bits: ONE }) {
            return;
        }
        self.record(class, duration_secs, now);
    }

    fn record(&mut self, class: &str, duration_secs: Double, now: Double)
        ensures
            final(self)@ == (UsageView {
                events: old(self)@.events.push(
                    (EventView { class: lowercase(class@), timestamp: now, duration_secs }),
                ),
                selections: old(self)@.selections,
                dirty: true,
            }),
    {
        let ghost before = self@;
        let e = Event { class: to_lowercase(class), timestamp: now, duration_secs };
        self.events.push(e);
        self.dirty = true;
        assert(self@ =~= (UsageView {
            events: before.events.push(
                (EventView { class: lowercase(class@), timestamp: now, duration_secs }),
            ),
            selections: before.selections,
            dirty: true,
        }));
    }

    /// Records an app launch (fixed weight, no duration).
    pub fn record_launch(&mut self, class: &str, now: Double)
        ensures
            final(self)@ == old(self)@.launched(class@, now),
            final(self)@ == (UsageView {
                events: old(self)@.events.push(
                    (EventView {
                        class: lowercase(class@),
                        timestamp: now,
                        duration_secs: (Double { bits: 0 }),
                    }),
                ),
                selections: old(self)@.selections,
                dirty: true,
            }),
    {
        self.record(class, Double { bits: 0 }, now);
    }

    /// Records what was chosen for a query. An empty query teaches nothing.
    pub fn record_selection(&mut self, query: &str, class: &str, now: Double)
        ensures
            final(self)@ == old(self)@.chosen(query@, class@, now),
            final(self)@ == (if lowercase(query@).len() == 0 {
                old(self)@
            } else {
                (UsageView {
                    events: old(self)@.events,
                    selections: old(self)@.selections.push(
                        (SelectionView {
                            query: lowercase(query@),
                            class: lowercase(class@),
                            timestamp: now,
                        }),
                    ),
                    dirty: true,
                })
            }),
    {
        let q = to_lowercase(query);
        if q.as_str().is_empty() {
            return;
        }
        let ghost before = self@;
        let s = Selection { query: q, class: to_lowercase(class), timestamp: now };
        self.selections.push(s);
        self.dirty = true;
        assert(self@ =~= (UsageView {
            events: before.events,
            selections: before.selections.push(s@),
            dirty: true,
        }));
    }

    /// Prunes old events and caps the size, if anything was recorded since the
    /// last time. Returns whether the log is to be written.
    pub fn save(&mut self, cutoff: Double) -> (r: bool)
        ensures
            r == old(self)@.dirty,
            final(self)@ == (if old(self)@.dirty {
                pruned(old(self)@, cutoff)
            } else {
                old(self)@
            }),
    {
        if !self.dirty {
            return false;
        }
        let ghost before = self@;
        let ghost late = |e: EventView| cutoff.less(e.timestamp);
        let ghost late_s = |s: SelectionView| cutoff.less(s.timestamp);
        let mut events: Vec<Event> = Vec::new();
        let mut i: usize = 0;
        proof {
            reveal(Seq::filter);
        }
        assert(events@.map_values(|e: Event| e@) == before.events.take(0).filter(late));
        while i < self.events.len()
            invariant
                i <= self.events@.len(),
                before.events == self.events@.map_values(|e: Event| e@),
                late == (|e: EventView| cutoff.less(e.timestamp)),
                events@.map_values(|e: Event| e@) == before.events.take(i as int).filter(late),
            decreases self.events.len() - i,
        {
            proof {
                reveal(Seq::filter);
                assert(before.events.take(i + 1).drop_last() == before.events.take(i as int));
                assert(before.events.take(i + 1).last() == self.events@[i as int]@);
            }
            let ghost head = events@;
            if cutoff.is_less(self.events[i].timestamp) {
                events.push(
                    Event {
                        class: self.events[i].class.clone(),
                        timestamp: self.events[i].timestamp,
                        duration_secs: self.events[i].duration_secs,
                    },
                );
                assert(events@.map_values(|e: Event| e@) == head.map_values(|e: Event| e@).push(
                    before.events[i as int],
                ));
            }
            i = i + 1;
        }
        assert(before.events.take(before.events.len() as int) == before.events);
        let mut selections: Vec<Selection> = Vec::new();
        let mut k: usize = 0;
        assert(selections@.map_values(|s: Selection| s@) == before.selections.take(0).filter(
            late_s,
        ));
        while k < self.selections.len()
            invariant
                k <= self.selections@.len(),
                before.selections == self.selections@.map_values(|s: Selection| s@),
                late_s == (|s: SelectionView| cutoff.less(s.timestamp)),
                selections@.map_values(|s: Selection| s@) == before.selections.take(
                    k as int,
                ).filter(late_s),
            decreases self.selections.len() - k,
        {
            proof {
                reveal(Seq::filter);
                assert(before.selections.take(k + 1).drop_last() == before.selections.take(
                    k as int,
                ));
                assert(before.selections.take(k + 1).last() == self.selections@[k as int]@);
            }
            let ghost head = selections@;
            if cutoff.is_less(self.selections[k].timestamp) {
                selections.push(
                    Selection {
                        query: self.selections[k].query.clone(),
                        class: self.selections[k].class.clone(),
                        timestamp: self.selections[k].timestamp,
                    },
                );
                assert(selections@.map_values(|s: Selection| s@) == head.map_values(
                    |s: Selection| s@,
                ).push(before.selections[k as int]));
            }
            k = k + 1;
        }
        assert(before.selections.take(before.selections.len() as int) == before.selections);
        let ghost ev = events@.map_values(|e: Event| e@);
        let ghost sv = selections@.map_values(|s: Selection| s@);
        if events.len() > MAX_EVENTS {
            let at: usize = events.len() - MAX_EVENTS;
            events = events.split_off(at);
        }
        if selections.len() > MAX_EVENTS {
            let at: usize = selections.len() - MAX_EVENTS;
            selections = selections.split_off(at);
        }
        assert(events@.map_values(|e: Event| e@) == last_of(ev, MAX_EVENTS as int));
        assert(selections@.map_values(|s: Selection| s@) == last_of(sv, MAX_EVENTS as int));
        self.events = events;
        self.selections = selections;
        self.dirty = false;
        assert(self@ =~= pruned(before, cutoff));
        true
    }

    /// The positions of the events of each class.
    pub fn class_events(&self) -> (r: Vec<Group>)
        ensures
            groups(
                r@,
                self@.events.map_values(|e: EventView| e.class),
                self@.events.map_values(|e: EventView| true),
            ),
    {
        let mut keys: Vec<String> = Vec::new();
        let mut counted: Vec<bool> = Vec::new();
        let mut i: usize = 0;
        while i < self.events.len()
            invariant
                i <= self.events@.len(),
                keys@.len() == i,
                counted@.len() == i,
                forall|j: int| 0 <= j < i ==> (#[trigger] keys@[j])@ == self.events@[j].class@,
                forall|j: int| 0 <= j < i ==> #[trigger] counted@[j],
            decreases self.events.len() - i,
        {
            keys.push(self.events[i].class.clone());
            counted.push(true);
            i = i + 1;
        }
        proof {
            assert(crate::text::views(keys@) == self@.events.map_values(|e: EventView| e.class));
            assert(counted@ == self@.events.map_values(|e: EventView| true));
        }
        group(&keys, &counted)
    }

    /// The positions, for each class, of the selections that were made for a
    /// query that is a prefix of the given one or is prefixed by it.
    pub fn query_class_selections(&self, query: &str) -> (r: Vec<Group>)
        ensures
            groups(
                r@,
                self@.selections.map_values(|s: SelectionView| s.class),
                self@.selections.map_values(
                    |s: SelectionView| akin(s.query, lowercase(query@)),
                ),
            ),
    {
        let q = to_lowercase(query);
        let mut keys: Vec<String> = Vec::new();
        let mut counted: Vec<bool> = Vec::new();
        let mut i: usize = 0;
        while i < self.selections.len()
            invariant
                i <= self.selections@.len(),
                q@ == lowercase(query@),
                keys@.len() == i,
                counted@.len() == i,
                forall|j: int| 0 <= j < i ==> (#[trigger] keys@[j])@ == self.selections@[j].class@,
                forall|j: int|
                    0 <= j < i ==> #[trigger] counted@[j] == akin(
                        self.selections@[j].query@,
                        lowercase(query@),
                    ),
            decreases self.selections.len() - i,
        {
            keys.push(self.selections[i].class.clone());
            let s = self.selections[i].query.as_str();
            counted.push(starts_with(q.as_str(), s) || starts_with(s, q.as_str()));
            i = i + 1;
        }
        proof {
            assert(crate::text::views(keys@) == self@.selections.map_values(
                |s: SelectionView| s.class,
            ));
            assert(counted@ == self@.selections.map_values(
                |s: SelectionView| akin(s.query, lowercase(query@)),
            ));
        }
        group(&keys, &counted)
    }
}

/// Whether one of two queries is a prefix of the other.
pub open spec fn akin(a: Seq<char>, b: Seq<char>) -> bool {
    a.is_prefix_of(b) || b.is_prefix_of(a)
}

/// The records of one class, by their positions in the log.
pub struct Group {
    pub class: String,
    pub members: Vec<usize>,
}

/// The positions at which a key stands and counts, in ascending order.
pub open spec fn members_of(keys: Seq<Seq<char>>, counted: Seq<bool>, key: Seq<char>) -> Seq<usize>
    decreases keys.len(),
{
    if keys.len() == 0 {
        Seq::empty()
    } else {
        let before = members_of(keys.drop_last(), counted, key);
        if keys.last() == key && counted[keys.len() - 1] {
            before.push((keys.len() - 1) as usize)
        } else {
            before
        }
    }
}

/// Whether `r` has exactly one group for each key that counts somewhere, with
/// all positions at which it does.
pub open spec fn groups(r: Seq<Group>, keys: Seq<Seq<char>>, counted: Seq<bool>) -> bool {
    &&& forall|g: int|
        0 <= g < r.len() ==> (#[trigger] r[g]).members@ == members_of(keys, counted, r[g].class@)
    &&& forall|g: int| 0 <= g < r.len() ==> (#[trigger] r[g]).members@.len() > 0
    &&& forall|g: int, h: int|
        0 <= g < h < r.len() ==> (#[trigger] r[g]).class@ != (#[trigger] r[h]).class@
    &&& forall|i: int| 0 <= i < keys.len() && counted[i] ==> has_group(r, #[trigger] keys[i])
}

/// Whether some group is that of a key.
pub open spec fn has_group(r: Seq<Group>, key: Seq<char>) -> bool {
    exists|g: int| 0 <= g < r.len() && (#[trigger] r[g]).class@ == key
}

fn group(keys: &Vec<String>, counted: &Vec<bool>) -> (r: Vec<Group>)
    requires
        counted@.len() == keys@.len(),
    ensures
        groups(r@, crate::text::views(keys@), counted@),
{
    let ghost kv = crate::text::views(keys@);
    let mut r: Vec<Group> = Vec::new();
    let mut index: StringHashMap<usize> = StringHashMap::new();
    let mut i: usize = 0;
    while i < keys.len()
        invariant
            i <= keys@.len(),
            kv == crate::text::views(keys@),
            counted@.len() == keys@.len(),
            groups(r@, kv.take(i as int), counted@),
            forall|c: Seq<char>| #[trigger]
                index@.contains_key(c) ==> index@[c] < r@.len() && r@[index@[c] as int].class@ == c,
            forall|g: int| 0 <= g < r@.len() ==> index@.contains_key((#[trigger] r@[g]).class@),
        decreases keys.len() - i,
    {
        let ghost part = kv.take(i as int);
        let ghost next = kv.take(i + 1);
        let ghost before = r@;
        let ghost held = index@;
        let ghost key = kv[i as int];
        proof {
            assert(next.drop_last() == part);
            assert(next.last() == key);
            assert forall|c: Seq<char>| c != key || !counted@[i as int] implies #[trigger] members_of(
                next,
                counted@,
                c,
            ) == members_of(part, counted@, c) by {}
            if !held.contains_key(key) {
                no_members(part, counted@, before, key);
            }
        }
        if counted[i] {
            match index.get(keys[i].as_str()) {
                Some(at) => {
                    let g: usize = *at;
                    let mut members = r[g].members.clone();
                    members.push(i);
                    let class = r[g].class.clone();
                    r.set(g, Group { class, members });
                    proof {
                        assert(r@[g as int].members@ == before[g as int].members@.push(i));
                        assert forall|h: int| 0 <= h < r@.len() implies (
                        #[trigger] r@[h]).class@ == before[h].class@ by {}
                    }
                },
                None => {
                    let mut members: Vec<usize> = Vec::new();
                    members.push(i);
                    index.insert(keys[i].clone(), r.len());
                    r.push(Group { class: keys[i].clone(), members });
                    proof {
                        assert(r@.last().members@ == seq![i]);
                        assert(members_of(next, counted@, key) == Seq::<usize>::empty().push(i));
                    }
                },
            }
        }
        proof {
            assert(r@.len() >= before.len());
            assert forall|h: int| 0 <= h < before.len() implies (#[trigger] r@[h]).class@
                == before[h].class@ by {}
            assert forall|g: int| 0 <= g < r@.len() implies (#[trigger] r@[g]).members@
                == members_of(next, counted@, r@[g].class@) by {
                if g < before.len() {
                    assert(before[g].members@ == members_of(part, counted@, before[g].class@));
                }
            }
            assert forall|j: int| 0 <= j < next.len() && counted@[j] implies has_group(
                r@,
                #[trigger] next[j],
            ) by {
                if j < i {
                    assert(part[j] == next[j]);
                    let g = choose|g: int|
                        0 <= g < before.len() && (#[trigger] before[g]).class@ == part[j];
                    assert(r@[g].class@ == next[j]);
                } else {
                    assert(index@.contains_key(key));
                    assert(r@[index@[key] as int].class@ == key);
                }
            }
        }
        i = i + 1;
    }
    assert(kv.take(kv.len() as int) == kv);
    r
}

proof fn no_members(keys: Seq<Seq<char>>, counted: Seq<bool>, r: Seq<Group>, key: Seq<char>)
    requires
        keys.len() <= counted.len(),
        forall|i: int| 0 <= i < keys.len() && counted[i] ==> has_group(r, #[trigger] keys[i]),
        forall|g: int| 0 <= g < r.len() ==> (#[trigger] r[g]).class@ != key,
    ensures
        members_of(keys, counted, key) == Seq::<usize>::empty(),
    decreases keys.len(),
{
    if keys.len() > 0 {
        let front = keys.drop_last();
        assert forall|i: int| 0 <= i < front.len() && counted[i] implies has_group(
            r,
            #[trigger] front[i],
        ) by {
            assert(front[i] == keys[i]);
        }
        no_members(front, counted, r, key);
        let i = keys.len() - 1;
        assert(keys.last() == keys[i]);
        if counted[i] && keys[i] == key {
            let g = choose|g: int| 0 <= g < r.len() && (#[trigger] r[g]).class@ == keys[i];
        }
    }
}

/// Pruning keeps every event after the cutoff that is among the last five
/// thousand, and every such selection.
pub proof fn pruning_keeps_recent(u: UsageView, cutoff: Double, i: int)
    ensures
        0 <= i < u.events.len() && u.events.len() - i <= 5000 && cutoff.less(
            u.events[i].timestamp,
        ) ==> pruned(u, cutoff).events.contains(u.events[i]),
        0 <= i < u.selections.len() && u.selections.len() - i <= 5000 && cutoff.less(
            u.selections[i].timestamp,
        ) ==> pruned(u, cutoff).selections.contains(u.selections[i]),
{
    let late = |e: EventView| cutoff.less(e.timestamp);
    let late_s = |s: SelectionView| cutoff.less(s.timestamp);
    if 0 <= i < u.events.len() && u.events.len() - i <= MAX_EVENTS && late(u.events[i]) {
        late_ones_stay(u.events, late, i, MAX_EVENTS as int);
    }
    if 0 <= i < u.selections.len() && u.selections.len() - i <= MAX_EVENTS && late_s(
        u.selections[i],
    ) {
        late_ones_stay(u.selections, late_s, i, MAX_EVENTS as int);
    }
}

proof fn late_ones_stay<A>(s: Seq<A>, late: spec_fn(A) -> bool, i: int, n: int)
    requires
        0 <= i < s.len(),
        s.len() - i <= n,
        late(s[i]),
    ensures
        last_of(s.filter(late), n).contains(s[i]),
{
    let front = s.take(i);
    let back = s.skip(i);
    assert(s =~= front + back);
    Seq::filter_distributes_over_add(front, back, late);
    back.lemma_filter_len(late);
    assert(back[0] == s[i]);
    back.lemma_filter_contains(late, 0);
    let all = s.filter(late);
    let some = back.filter(late);
    let k = choose|k: int| 0 <= k < some.len() && some[k] == s[i];
    let at = front.filter(late).len() + k;
    assert(all[at] == s[i]);
    let last = last_of(all, n);
    let gone = all.len() - last.len();
    assert(last[at - gone] == s[i]);
}

/// The members of a key's group are the positions at which it stands and
/// counts, in ascending order.
pub proof fn members_are_positions(keys: Seq<Seq<char>>, counted: Seq<bool>, key: Seq<char>)
    requires
        keys.len() <= usize::MAX,
        keys.len() <= counted.len(),
    ensures
        forall|i: usize| #[trigger]
            members_of(keys, counted, key).contains(i) <==> i < keys.len() && keys[i as int] == key
                && counted[i as int],
        forall|a: int, b: int|
            0 <= a < b < members_of(keys, counted, key).len() ==> #[trigger] members_of(
                keys,
                counted,
                key,
            )[a] < #[trigger] members_of(keys, counted, key)[b],
    decreases keys.len(),
{
    if keys.len() > 0 {
        let part = keys.drop_last();
        let n = keys.len() - 1;
        let before = members_of(part, counted, key);
        let all = members_of(keys, counted, key);
        members_are_positions(part, counted, key);
        assert forall|i: usize| #[trigger] all.contains(i) <==> i < keys.len() && keys[i as int]
            == key && counted[i as int] by {
            assert(before.contains(i) <==> i < part.len() && part[i as int] == key
                && counted[i as int]);
            if before.contains(i) {
                let k = choose|k: int| 0 <= k < before.len() && before[k] == i;
                assert(all[k] == i);
            }
            if all.contains(i) {
                let k = choose|k: int| 0 <= k < all.len() && all[k] == i;
                if k < before.len() {
                    assert(before[k] == i);
                }
            }
            if i == n && keys[n] == key && counted[n] {
                assert(all.last() == i);
            }
        }
        assert forall|a: int, b: int| 0 <= a < b < all.len() implies #[trigger] all[a]
            < #[trigger] all[b] by {
            assert(all[a] == before[a]);
            assert(before.contains(before[a]));
            if b < before.len() {
                assert(all[b] == before[b]);
            }
        }
    }
}

/// A query is akin to whatever it begins with and to whatever begins with it,
/// and to nothing else.
pub proof fn beginnings_are_akin(a: Seq<char>, b: Seq<char>)
    ensures
        akin(a, a + b),
        akin(a + b, a),
        akin(a, b) == akin(b, a),
        akin(a, b) && a.len() <= b.len() ==> b.take(a.len() as int) == a,
{
    assert(a =~= (a + b).subrange(0, a.len() as int));
    if akin(a, b) && a.len() <= b.len() {
        if b.is_prefix_of(a) {
            assert(b =~= a.subrange(0, b.len() as int));
            assert(a =~= b);
        }
        assert(b.take(a.len() as int) =~= a);
    }
}

/// A launch is one more event of its class, in lower case, at its time and
/// without a duration. Nothing else of the log changes but that it has to be
/// written.
pub proof fn launches_are_recorded(u: UsageView, class: Seq<char>, now: Double)
    ensures
        u.launched(class, now).events.drop_last() == u.events,
        u.launched(class, now).events.last().class == lowercase(class),
        u.launched(class, now).events.last().timestamp == now,
        u.launched(class, now).events.last().duration_secs.bits == 0,
        u.launched(class, now).selections == u.selections,
        u.launched(class, now).dirty,
{
    assert(u.launched(class, now).events.drop_last() =~= u.events);
}

/// A time with the focus is one more event of its class, in lower case, with its
/// duration, if that is not less than a second; a shorter one leaves the log as
/// it is.
pub proof fn focus_times_are_recorded(
    u: UsageView,
    class: Seq<char>,
    duration_secs: Double,
    now: Double,
)
    ensures
        duration_secs.bits < 0x3ff0_0000_0000_0000 ==> u.focused(class, duration_secs, now) == u,
        0x3ff0_0000_0000_0000 <= duration_secs.bits <= 0x7ff0_0000_0000_0000 ==> {
            let v = u.focused(class, duration_secs, now);
            &&& v.events.drop_last() == u.events
            &&& v.events.last().class == lowercase(class)
            &&& v.events.last().timestamp == now
            &&& v.events.last().duration_secs == duration_secs
            &&& v.selections == u.selections
            &&& v.dirty
        },
{
    assert(u.with_event(class, duration_secs, now).events.drop_last() =~= u.events);
}

/// A choice is one more selection, of the query and the class in lower case at
/// its time; one without a query leaves the log as it is.
pub proof fn choices_are_recorded(u: UsageView, query: Seq<char>, class: Seq<char>, now: Double)
    ensures
        lowercase(query).len() == 0 ==> u.chosen(query, class, now) == u,
        lowercase(query).len() > 0 ==> {
            let v = u.chosen(query, class, now);
            &&& v.selections.drop_last() == u.selections
            &&& v.selections.last().query == lowercase(query)
            &&& v.selections.last().class == lowercase(class)
            &&& v.selections.last().timestamp == now
            &&& v.events == u.events
            &&& v.dirty
        },
{
    let v = u.chosen(query, class, now);
    if lowercase(query).len() > 0 {
        assert(v.selections.drop_last() =~= u.selections);
    }
}

/// What was recorded after the cutoff is still there when the log is written.
pub proof fn records_outlive_a_save(
    u: UsageView,
    query: Seq<char>,
    class: Seq<char>,
    now: Double,
    cutoff: Double,
)
    requires
        cutoff.less(now),
        lowercase(query).len() > 0,
    ensures
        pruned(u.launched(class, now), cutoff).events.contains(
            u.launched(class, now).events.last(),
        ),
        pruned(u.chosen(query, class, now), cutoff).selections.contains(
            u.chosen(query, class, now).selections.last(),
        ),
        !pruned(u, cutoff).dirty,
{
    pruning_keeps_recent(u.launched(class, now), cutoff, u.events.len() as int);
    pruning_keeps_recent(u.chosen(query, class, now), cutoff, u.selections.len() as int);
}

} // verus!

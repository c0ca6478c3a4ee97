//! Coalescing bursts of file events: after a change has been announced, further
//! events are absorbed until the debounce window has passed.

use vstd::prelude::*;
use crate::chars::same_text;

verus! {

/// The debounce window, in nanoseconds: 100 ms.
pub const DEBOUNCE_WINDOW: u128 = 100_000_000;

/// Whether a file of this name is watched: the configuration file, in either of
/// its two formats.
pub open spec fn is_watched(name: Seq<char>) -> bool {
    name == "config.json"@ || name == "config.toml"@
}

/// Whether a file of this name is watched.
pub fn watches(name: &str) -> (r: bool)
    ensures
        r == is_watched(name@),
{
    same_text(name, "config.json") || same_text(name, "config.toml")
}

/// Whether an event at time `now` on a file named `name` is announced, when the
/// last announcement was at time `last`: the file is watched, and more than the
/// debounce window has passed. An event without a file name is never announced.
pub open spec fn announces(last: u128, name: Option<Seq<char>>, now: u128) -> bool {
    name is Some && is_watched(name->0) && now - last > DEBOUNCE_WINDOW
}

/// The state of the watcher: when it last announced a change. Times are
/// nanoseconds on a clock that never runs backwards.
#[derive(Clone, Copy, Debug)]
pub struct Debouncer {
    pub last_emit: u128,
}

impl Debouncer {
    /// A watcher that starts at time `now`. The start counts as an announcement:
    /// events within the first window are absorbed.
    pub fn new(now: u128) -> (d: Debouncer)
        ensures
            d.last_emit == now,
    {
        Debouncer { last_emit: now }
    }

    /// Takes an event at time `now` on the file named `name` (`None` if the event
    /// names no file) and says whether the change is to be announced. If it is,
    /// the window starts anew at `now`; if not, nothing changes.
    pub fn on_event(&mut self, name: Option<&str>, now: u128) -> (announce: bool)
        ensures
            announce == announces(
                old(self).last_emit,
                match name {
                    Some(n) => Some(n@),
                    None => None,
                },
                now,
            ),
            final(self).last_emit == (if announce {
                now
            } else {
                old(self).last_emit
            }),
    {
        match name {
            None => false,
            Some(n) => {
                if watches(n) && now > self.last_emit && now - self.last_emit > DEBOUNCE_WINDOW {
                    self.last_emit = now;
                    true
                } else {
                    false
                }
            },
        }
    }
}

/// A file event: the name of the file it is about, if any, and its time.
pub struct FileEvent {
    pub name: Option<Seq<char>>,
    pub at: u128,
}

/// The time of the last announcement after the events have been taken in order.
pub open spec fn last_emit_after(start: u128, events: Seq<FileEvent>) -> u128
    decreases events.len(),
{
    if events.len() == 0 {
        start
    } else {
        let before = last_emit_after(start, events.drop_last());
        if announces(before, events.last().name, events.last().at) {
            events.last().at
        } else {
            before
        }
    }
}

/// Whether the event at position `i` is announced when the events are taken in
/// order by a watcher started at `start`.
pub open spec fn announced(start: u128, events: Seq<FileEvent>, i: int) -> bool {
    announces(last_emit_after(start, events.take(i)), events[i].name, events[i].at)
}

/// Whether the times of the events never go back.
pub open spec fn in_time_order(events: Seq<FileEvent>) -> bool {
    forall|i: int, j: int|
        0 <= i <= j < events.len() ==> (#[trigger] events[i]).at <= (#[trigger] events[j]).at
}

/// An announced event is never later than the last announcement after it.
proof fn lemma_last_emit_covers(start: u128, events: Seq<FileEvent>, i: int)
    requires
        in_time_order(events),
        0 <= i < events.len(),
        announced(start, events, i),
    ensures
        events[i].at <= last_emit_after(start, events),
    decreases events.len(),
{
    let init = events.drop_last();
    if i == events.len() - 1 {
        assert(events.take(i) == init);
    } else {
        assert forall|a: int, b: int| 0 <= a <= b < init.len() implies (#[trigger] init[a]).at <= (
        #[trigger] init[b]).at by {
            assert(init[a] == events[a] && init[b] == events[b]);
        }
        assert(events.take(i) == init.take(i));
        assert(events[i] == init[i]);
        lemma_last_emit_covers(start, init, i);
    }
}

/// Between two announcements more than the debounce window passes: of a burst
/// of events within one window, at most the first is announced.
pub proof fn lemma_announcements_spaced(start: u128, events: Seq<FileEvent>, i: int, j: int)
    requires
        in_time_order(events),
        0 <= i < j < events.len(),
        announced(start, events, i),
        announced(start, events, j),
    ensures
        events[j].at - events[i].at > DEBOUNCE_WINDOW,
{
    let upto = events.take(j);
    assert forall|a: int, b: int| 0 <= a <= b < upto.len() implies (#[trigger] upto[a]).at <= (
    #[trigger] upto[b]).at by {
        assert(upto[a] == events[a] && upto[b] == events[b]);
    }
    assert(upto.take(i) == events.take(i));
    assert(upto[i] == events[i]);
    lemma_last_emit_covers(start, upto, i);
}

} // verus!

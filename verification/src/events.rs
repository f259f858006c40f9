//! The event loop's decisions: how long to wait for the terminal, which of its
//! events the view hears about, when a tick is due, and which tick brings a
//! re-render for the file's changes.
//! The program polls the terminal, drains the file watcher and sends what these
//! functions decide.

use vstd::prelude::*;

use crate::input::{Key, MouseKind};

verus! {

/// Whether a key went down, repeats while held, or came up.
#[derive(Clone, Copy, Debug, PartialEq, Eq, Structural)]
pub enum KeyKind {
    Press,
    Repeat,
    Release,
}

/// What the terminal reports, as far as the event loop tells events apart.
#[derive(Clone, Copy, Debug, PartialEq, Eq, Structural)]
pub enum TermEvent {
    Key { key: Key, ctrl: bool, kind: KeyKind },
    Mouse(MouseKind),
    Resize(u16, u16),
    /// Focus changes and pastes.
    Other,
}

/// Anything the main loop might wake up for.
#[derive(Clone, Copy, Debug, PartialEq, Eq, Structural)]
pub enum Event {
    Tick,
    Key { key: Key, ctrl: bool },
    Mouse(MouseKind),
    Resize(u16, u16),
    /// The watched file changed on disk.
    ReRender,
}

/// What the view hears of a terminal event: key presses (not repeats or
/// releases), mouse events and resizes; nothing of the rest.
pub open spec fn spec_forward(ev: TermEvent) -> Option<Event> {
    match ev {
        TermEvent::Key { key, ctrl, kind } => if kind == KeyKind::Press {
            Some(Event::Key { key, ctrl })
        } else {
            None
        },
        TermEvent::Mouse(m) => Some(Event::Mouse(m)),
        TermEvent::Resize(w, h) => Some(Event::Resize(w, h)),
        TermEvent::Other => None,
    }
}

/// How long to wait for the terminal, in milliseconds, `elapsed_ms` after the
/// last tick: what is left of the tick, or a whole tick once it is overdue.
pub fn poll_timeout(tick_ms: u64, elapsed_ms: u64) -> (r: u64)
    ensures
        r == if elapsed_ms <= tick_ms { tick_ms - elapsed_ms } else { tick_ms as int },
{
    if elapsed_ms <= tick_ms {
        tick_ms - elapsed_ms
    } else {
        tick_ms
    }
}

/// The event a terminal event becomes, if the view hears of it.
pub fn forward(ev: TermEvent) -> (r: Option<Event>)
    ensures
        r == spec_forward(ev),
{
    match ev {
        TermEvent::Key { key, ctrl, kind } => match kind {
            KeyKind::Press => Some(Event::Key { key, ctrl }),
            _ => None,
        },
        TermEvent::Mouse(m) => Some(Event::Mouse(m)),
        TermEvent::Resize(w, h) => Some(Event::Resize(w, h)),
        TermEvent::Other => None,
    }
}

/// `a + b`, capped at the largest `usize`.
pub open spec fn sat_add(a: usize, b: usize) -> usize {
    if a + b > usize::MAX { usize::MAX } else { (a + b) as usize }
}

/// One wake of the event thread, `elapsed_ms` after the last tick, with
/// `pending` change signals held from earlier wakes and `arrived` drained
/// from the file watcher now: whether a tick is due, whether a re-render
/// comes with it, and the signals held after it. A tick takes all that are
/// held, so however many signals a save sends, one tick brings one re-render.
pub open spec fn spec_wake(elapsed_ms: u64, tick_ms: u64, pending: usize, arrived: usize) -> (bool, bool, usize) {
    let held = sat_add(pending, arrived);
    if elapsed_ms >= tick_ms {
        (true, held > 0, 0)
    } else {
        (false, false, held)
    }
}

/// What a run of wakes gives, each `(elapsed_ms, arrived)`, starting with
/// `pending` signals held: for each wake, whether it ticks and whether it
/// re-renders.
pub open spec fn spec_wakes(pending: usize, ws: Seq<(u64, usize)>, tick_ms: u64) -> Seq<(bool, bool)>
    decreases ws.len(),
{
    if ws.len() == 0 {
        seq![]
    } else {
        let w = spec_wake(ws[0].0, tick_ms, pending, ws[0].1);
        seq![(w.0, w.1)] + spec_wakes(w.2, ws.drop_first(), tick_ms)
    }
}

/// Decides one wake of the event thread; see `spec_wake`.
pub fn wake_step(elapsed_ms: u64, tick_ms: u64, pending: usize, arrived: usize) -> (r: (bool, bool, usize))
    ensures
        r == spec_wake(elapsed_ms, tick_ms, pending, arrived),
{
    let held = pending.saturating_add(arrived);
    if elapsed_ms >= tick_ms {
        (true, held > 0, 0)
    } else {
        (false, false, held)
    }
}

/// A burst of change signals between two ticks brings exactly one re-render:
/// over wakes of which only the last is due, none but the last ticks or
/// re-renders, and the last re-renders exactly when a signal was held before
/// the run or arrived during it.
pub proof fn lemma_burst_one_rerender(pending: usize, ws: Seq<(u64, usize)>, tick_ms: u64)
    requires
        ws.len() > 0,
        forall|k: int| 0 <= k < ws.len() - 1 ==> (#[trigger] ws[k]).0 < tick_ms,
        ws.last().0 >= tick_ms,
    ensures
        spec_wakes(pending, ws, tick_ms).len() == ws.len(),
        forall|k: int| 0 <= k < ws.len() - 1 ==> !(#[trigger] spec_wakes(pending, ws, tick_ms)[k]).0
            && !spec_wakes(pending, ws, tick_ms)[k].1,
        spec_wakes(pending, ws, tick_ms).last().0,
        spec_wakes(pending, ws, tick_ms).last().1 <==> (pending > 0 || exists|k: int| 0 <= k < ws.len() && (#[trigger] ws[k]).1 > 0),
    decreases ws.len(),
{
    let w = spec_wake(ws[0].0, tick_ms, pending, ws[0].1);
    let out = spec_wakes(pending, ws, tick_ms);
    if ws.len() == 1 {
        assert(ws.drop_first().len() == 0);
        assert(spec_wakes(w.2, ws.drop_first(), tick_ms) =~= Seq::<(bool, bool)>::empty());
        assert(out =~= seq![(w.0, w.1)]);
        if exists|k: int| 0 <= k < ws.len() && (#[trigger] ws[k]).1 > 0 {
            let k = choose|k: int| 0 <= k < ws.len() && (#[trigger] ws[k]).1 > 0;
            assert(k == 0);
        }
    } else {
        let rest = ws.drop_first();
        assert forall|k: int| 0 <= k < rest.len() - 1 implies (#[trigger] rest[k]).0 < tick_ms by {
            assert(rest[k] == ws[k + 1]);
        }
        assert(rest.last() == ws.last());
        assert(ws[0].0 < tick_ms);
        lemma_burst_one_rerender(w.2, rest, tick_ms);
        let tail = spec_wakes(w.2, rest, tick_ms);
        assert(out == seq![(w.0, w.1)] + tail);
        assert forall|k: int| 0 <= k < ws.len() - 1 implies !(#[trigger] out[k]).0 && !out[k].1 by {
            if k > 0 {
                assert(out[k] == tail[k - 1]);
            }
        }
        assert(out.last() == tail.last());
        if exists|k: int| 0 <= k < ws.len() && (#[trigger] ws[k]).1 > 0 {
            let k = choose|k: int| 0 <= k < ws.len() && (#[trigger] ws[k]).1 > 0;
            if k > 0 {
                assert(rest[k - 1] == ws[k]);
            }
        }
        if exists|k: int| 0 <= k < rest.len() && (#[trigger] rest[k]).1 > 0 {
            let k = choose|k: int| 0 <= k < rest.len() && (#[trigger] rest[k]).1 > 0;
            assert(ws[k + 1] == rest[k]);
        }
    }
}

} // verus!

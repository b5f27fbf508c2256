//! Mathematical model of the playback scheduler: the multi-track temporal
//! merge that interleaves the independently paced tracks into one globally
//! ordered emission sequence.
//!
//! The model is a recursive trace function over a scheduler state made of
//! the (immutable) tracks, a global tick count, and a per-track timer and
//! cursor. Each trace entry pairs the tick count at the moment of emission
//! with the emitted event; [`crate::midi::Midi::run`] produces exactly the
//! events of this trace, ticks stripped.

use vstd::prelude::*;
use crate::midi::{CmdV, EventV, MidiV, PlaybackEvent};

verus! {

/// The duration of one tick in microseconds: tempo over ticks per quarter,
/// truncated toward zero.
pub open spec fn spec_tick_duration(m: MidiV) -> u64 {
    (m.tempo / m.delta_time) as u64
}

/// An all-zero sequence of the given length.
pub open spec fn zero_seq(n: nat) -> Seq<nat> {
    Seq::new(n, |i: int| 0nat)
}

/// The timers and cursors match the tracks in number.
pub open spec fn sched_state_wf(tracks: Seq<Seq<CmdV>>, timers: Seq<nat>, cursors: Seq<nat>) -> bool {
    &&& timers.len() == tracks.len()
    &&& cursors.len() == tracks.len()
}

/// Whether track `i` still has unread commands.
pub open spec fn track_active(tracks: Seq<Seq<CmdV>>, cursors: Seq<nat>, i: int) -> bool {
    cursors[i] < tracks[i].len()
}

/// The smallest index at or after `i` of an active track whose timer has
/// been reached; `tracks.len()` if there is none.
pub open spec fn first_due_from(
    tracks: Seq<Seq<CmdV>>,
    cursors: Seq<nat>,
    timers: Seq<nat>,
    tick: nat,
    i: int,
) -> int
    decreases tracks.len() - i,
{
    if i >= tracks.len() {
        tracks.len() as int
    } else if track_active(tracks, cursors, i) && timers[i] <= tick {
        i
    } else {
        first_due_from(tracks, cursors, timers, tick, i + 1)
    }
}

/// The smallest timer among active tracks at or after `i`, if any.
pub open spec fn min_active_timer_from(
    tracks: Seq<Seq<CmdV>>,
    cursors: Seq<nat>,
    timers: Seq<nat>,
    i: int,
) -> Option<nat>
    decreases tracks.len() - i,
{
    if i >= tracks.len() {
        None
    } else {
        let rest = min_active_timer_from(tracks, cursors, timers, i + 1);
        if track_active(tracks, cursors, i) {
            match rest {
                None => Some(timers[i]),
                Some(m) => Some(if timers[i] <= m { timers[i] } else { m }),
            }
        } else {
            rest
        }
    }
}

/// Count of unread commands across all tracks at or after `i`.
pub open spec fn remaining_from(tracks: Seq<Seq<CmdV>>, cursors: Seq<nat>, i: int) -> nat
    decreases tracks.len() - i,
{
    if i < 0 || i >= tracks.len() {
        0
    } else {
        let here: nat = if cursors[i] < tracks[i].len() {
            (tracks[i].len() - cursors[i]) as nat
        } else {
            0
        };
        here + remaining_from(tracks, cursors, i + 1)
    }
}

/// Advancing the cursor of an active track lowers the count of unread
/// commands by one, seen from any start index at or before it.
pub proof fn lemma_remaining_update(tracks: Seq<Seq<CmdV>>, cursors: Seq<nat>, t: int, i: int)
    requires
        0 <= t < tracks.len(),
        0 <= i,
        cursors.len() == tracks.len(),
        track_active(tracks, cursors, t),
    ensures
        remaining_from(tracks, cursors.update(t, (cursors[t] + 1) as nat), i) == if i <= t {
            remaining_from(tracks, cursors, i) - 1
        } else {
            remaining_from(tracks, cursors, i) as int
        },
    decreases tracks.len() - i,
{
    if i < tracks.len() {
        lemma_remaining_update(tracks, cursors, t, i + 1);
    }
}

/// One played command of track `t`, due at `tick1`, followed by the rest of
/// the trace; `pre` is prepended (a pending wait emission, or nothing).
pub open spec fn sched_play(
    tracks: Seq<Seq<CmdV>>,
    dur: u64,
    tick1: nat,
    timers: Seq<nat>,
    cursors: Seq<nat>,
    t: int,
    pre: Seq<(nat, EventV)>,
) -> Seq<(nat, EventV)>
    decreases remaining_from(tracks, cursors, 0), 0nat,
        when sched_state_wf(tracks, timers, cursors) && 0 <= t < tracks.len()
            && track_active(tracks, cursors, t)
{
    proof {
        lemma_remaining_update(tracks, cursors, t, 0);
    }
    let cmd = tracks[t][cursors[t] as int];
    let cursors2 = cursors.update(t, (cursors[t] + 1) as nat);
    match cmd {
        CmdV::Delay(n) => pre + sched_trace(
            tracks,
            dur,
            tick1,
            timers.update(t, (timers[t] + n) as nat),
            cursors2,
        ),
        CmdV::SetKeyState(note, pressed, velocity) => {
            let ev = if pressed {
                EventV::NoteDown(t, note, velocity)
            } else {
                EventV::NoteUp(t, note, velocity)
            };
            pre + seq![(tick1, ev)] + sched_trace(tracks, dur, tick1, timers, cursors2)
        },
    }
}

/// The full emission trace from a scheduler state: repeatedly play the
/// lowest-indexed due track, and when no track is due, emit a wait for the
/// nearest timer and advance the tick count to it.
pub open spec fn sched_trace(
    tracks: Seq<Seq<CmdV>>,
    dur: u64,
    tick: nat,
    timers: Seq<nat>,
    cursors: Seq<nat>,
) -> Seq<(nat, EventV)>
    decreases remaining_from(tracks, cursors, 0), 1nat,
        when sched_state_wf(tracks, timers, cursors)
{
    let t0 = first_due_from(tracks, cursors, timers, tick, 0);
    if t0 < tracks.len() {
        sched_play(tracks, dur, tick, timers, cursors, t0, Seq::empty())
    } else {
        match min_active_timer_from(tracks, cursors, timers, 0) {
            None => Seq::empty(),
            Some(m) => {
                let t1 = first_due_from(tracks, cursors, timers, m, 0);
                if t1 < tracks.len() {
                    let wait = (m, EventV::Wait((((m - tick) * dur) as u128)));
                    sched_play(tracks, dur, m, timers, cursors, t1, seq![wait])
                } else {
                    Seq::empty()
                }
            },
        }
    }
}

/// Sum of the delay ticks among the first `k` commands of a track.
pub open spec fn delay_sum(cmds: Seq<CmdV>, k: int) -> nat
    decreases k,
{
    if k <= 0 {
        0
    } else {
        delay_sum(cmds, k - 1) + match cmds[k - 1] {
            CmdV::Delay(n) => n as nat,
            CmdV::SetKeyState(..) => 0nat,
        }
    }
}

/// Sum of all delay ticks of a track: the tick at which its last command
/// becomes due.
pub open spec fn track_delay_total(cmds: Seq<CmdV>) -> nat {
    delay_sum(cmds, cmds.len() as int)
}

/// The delay sum never shrinks as more commands are included.
pub proof fn lemma_delay_sum_mono(cmds: Seq<CmdV>, k1: int, k2: int)
    requires
        k1 <= k2,
    ensures
        delay_sum(cmds, k1) <= delay_sum(cmds, k2),
    decreases k2 - k1,
{
    if k1 < k2 {
        lemma_delay_sum_mono(cmds, k1, k2 - 1);
    }
}

/// The ticks of a trace, stripped away: the plain emission sequence.
pub open spec fn strip_ticks(trace: Seq<(nat, EventV)>) -> Seq<EventV> {
    trace.map_values(|e: (nat, EventV)| e.1)
}

/// The views of a vector of playback events.
pub open spec fn event_views(events: Seq<PlaybackEvent>) -> Seq<EventV> {
    events.map_values(|e: PlaybackEvent| e@)
}

/// The full emission sequence of a midi aggregate: the trace from the
/// initial state (tick zero, all timers and cursors zero), ticks stripped.
pub open spec fn midi_emissions(m: MidiV) -> Seq<EventV> {
    strip_ticks(
        sched_trace(
            m.tracks,
            spec_tick_duration(m),
            0,
            zero_seq(m.tracks.len()),
            zero_seq(m.tracks.len()),
        ),
    )
}

/// A sequence of machine cursors, as mathematical naturals.
pub open spec fn nats_of_usizes(s: Seq<usize>) -> Seq<nat> {
    s.map_values(|x: usize| x as nat)
}

/// A sequence of machine timers, as mathematical naturals.
pub open spec fn nats_of_u64s(s: Seq<u64>) -> Seq<nat> {
    s.map_values(|x: u64| x as nat)
}

/// Phase of a scheduler state: zero while some track is due, one while the
/// tick count must first be advanced. Advancing the tick makes the nearest
/// track due, so the pair (unread commands, phase) shrinks at every step.
pub open spec fn sched_phase(
    tracks: Seq<Seq<CmdV>>,
    cursors: Seq<nat>,
    timers: Seq<nat>,
    tick: nat,
) -> int {
    if first_due_from(tracks, cursors, timers, tick, 0) < tracks.len() {
        0
    } else {
        1
    }
}

/// What `first_due_from` returns: an index between `i` and the track count;
/// when below the track count, the first active-and-due index at or after
/// `i`; when equal to it, a witness that no such index exists.
pub proof fn lemma_first_due_props(
    tracks: Seq<Seq<CmdV>>,
    cursors: Seq<nat>,
    timers: Seq<nat>,
    tick: nat,
    i: int,
)
    requires
        0 <= i <= tracks.len(),
    ensures
        ({
            let r = first_due_from(tracks, cursors, timers, tick, i);
            &&& i <= r <= tracks.len()
            &&& r < tracks.len() ==> track_active(tracks, cursors, r) && timers[r] <= tick
            &&& forall|k: int|
                i <= k < r ==> !(track_active(tracks, cursors, k) && timers[k] <= tick)
        }),
    decreases tracks.len() - i,
{
    if i < tracks.len() && !(track_active(tracks, cursors, i) && timers[i] <= tick) {
        lemma_first_due_props(tracks, cursors, timers, tick, i + 1);
    }
}

/// A scan that found no active-and-due index before `r`, and found `r`
/// itself due (or ran off the end), names exactly `first_due_from`.
pub proof fn lemma_first_due_is(
    tracks: Seq<Seq<CmdV>>,
    cursors: Seq<nat>,
    timers: Seq<nat>,
    tick: nat,
    i: int,
    r: int,
)
    requires
        0 <= i <= r <= tracks.len(),
        forall|k: int| i <= k < r ==> !(track_active(tracks, cursors, k) && timers[k] <= tick),
        r < tracks.len() ==> track_active(tracks, cursors, r) && timers[r] <= tick,
    ensures
        first_due_from(tracks, cursors, timers, tick, i) == r,
    decreases r - i,
{
    if i < r {
        lemma_first_due_is(tracks, cursors, timers, tick, i + 1, r);
    }
}

/// What `min_active_timer_from` returns: nothing when no track at or after
/// `i` is active; otherwise an achieved lower bound of the active timers.
pub proof fn lemma_min_active_props(
    tracks: Seq<Seq<CmdV>>,
    cursors: Seq<nat>,
    timers: Seq<nat>,
    i: int,
)
    requires
        0 <= i <= tracks.len(),
    ensures
        ({
            let r = min_active_timer_from(tracks, cursors, timers, i);
            &&& r is None ==> forall|k: int|
                i <= k < tracks.len() ==> !track_active(tracks, cursors, k)
            &&& r matches Some(m) ==> {
                &&& exists|k: int|
                    i <= k < tracks.len() && track_active(tracks, cursors, k) && timers[k] == m
                &&& forall|k: int|
                    i <= k < tracks.len() && track_active(tracks, cursors, k) ==> timers[k] >= m
            }
        }),
    decreases tracks.len() - i,
{
    if i < tracks.len() {
        lemma_min_active_props(tracks, cursors, timers, i + 1);
    }
}

/// The track a note event belongs to; nothing for a wait.
pub open spec fn event_track(e: EventV) -> Option<int> {
    match e {
        EventV::NoteDown(t, _, _) => Some(t),
        EventV::NoteUp(t, _, _) => Some(t),
        EventV::Wait(_) => None,
    }
}

/// The entries of a trace that are note events of track `t`, in order.
pub open spec fn note_entries_of_track(trace: Seq<(nat, EventV)>, t: int) -> Seq<(nat, EventV)>
    decreases trace.len(),
{
    if trace.len() == 0 {
        Seq::empty()
    } else {
        let head: Seq<(nat, EventV)> = if event_track(trace[0].1) == Some(t) {
            seq![trace[0]]
        } else {
            Seq::empty()
        };
        head + note_entries_of_track(trace.drop_first(), t)
    }
}

/// Filtering a track's note entries distributes over concatenation.
pub proof fn lemma_note_entries_concat(a: Seq<(nat, EventV)>, b: Seq<(nat, EventV)>, t: int)
    ensures
        note_entries_of_track(a + b, t) == note_entries_of_track(a, t) + note_entries_of_track(
            b,
            t,
        ),
    decreases a.len(),
{
    if a.len() == 0 {
        assert(a + b =~= b);
        assert(note_entries_of_track(a, t) + note_entries_of_track(b, t) =~= note_entries_of_track(
            b,
            t,
        ));
    } else {
        assert((a + b).drop_first() =~= a.drop_first() + b);
        assert((a + b)[0] == a[0]);
        assert((a + b).len() > 0);
        lemma_note_entries_concat(a.drop_first(), b, t);
        assert(note_entries_of_track(a, t) + note_entries_of_track(b, t)
            =~= (if event_track(a[0].1) == Some(t) {
            seq![a[0]]
        } else {
            Seq::empty()
        }) + (note_entries_of_track(a.drop_first(), t) + note_entries_of_track(b, t)));
    }
}

/// The ideal schedule of one track on its own: its key-state commands in
/// order, each paired with the sum of the delay ticks before it — the tick
/// at which it becomes due. `k` is the cursor, `acc` the delays summed so
/// far.
pub open spec fn track_schedule_from(cmds: Seq<CmdV>, t: int, k: int, acc: nat) -> Seq<
    (nat, EventV),
>
    decreases cmds.len() - k,
{
    if k < 0 || k >= cmds.len() {
        Seq::empty()
    } else {
        match cmds[k] {
            CmdV::Delay(n) => track_schedule_from(cmds, t, k + 1, (acc + n) as nat),
            CmdV::SetKeyState(note, pressed, velocity) => {
                let ev = if pressed {
                    EventV::NoteDown(t, note, velocity)
                } else {
                    EventV::NoteUp(t, note, velocity)
                };
                seq![(acc, ev)] + track_schedule_from(cmds, t, k + 1, acc)
            },
        }
    }
}

/// Ticks never run backward: the trace is emitted in chronological order,
/// and never before the starting tick count.
pub proof fn lemma_trace_ticks_sorted(
    tracks: Seq<Seq<CmdV>>,
    dur: u64,
    tick: nat,
    timers: Seq<nat>,
    cursors: Seq<nat>,
)
    requires
        sched_state_wf(tracks, timers, cursors),
    ensures
        ({
            let trace = sched_trace(tracks, dur, tick, timers, cursors);
            &&& forall|k1: int, k2: int|
                0 <= k1 <= k2 < trace.len() ==> trace[k1].0 <= trace[k2].0
            &&& forall|k: int| 0 <= k < trace.len() ==> trace[k].0 >= tick
        }),
    decreases remaining_from(tracks, cursors, 0), 1nat,
{
    let trace = sched_trace(tracks, dur, tick, timers, cursors);
    let t0 = first_due_from(tracks, cursors, timers, tick, 0);
    lemma_first_due_props(tracks, cursors, timers, tick, 0);
    lemma_min_active_props(tracks, cursors, timers, 0);
    if t0 < tracks.len() {
        lemma_trace_step_sorted(tracks, dur, tick, timers, cursors, t0, tick, Seq::empty());
        assert(trace == sched_play(tracks, dur, tick, timers, cursors, t0, Seq::empty()));
    } else {
        match min_active_timer_from(tracks, cursors, timers, 0) {
            None => {},
            Some(m) => {
                let k = choose|k: int|
                    0 <= k < tracks.len() && track_active(tracks, cursors, k) && timers[k] == m;
                assert(m > tick);
                lemma_first_due_props(tracks, cursors, timers, m, 0);
                let t1 = first_due_from(tracks, cursors, timers, m, 0);
                assert(t1 <= k);
                let wait = (m, EventV::Wait((((m - tick) * dur) as u128)));
                assert(seq![wait][0] == wait);
                lemma_trace_step_sorted(tracks, dur, tick, timers, cursors, t1, m, seq![wait]);
                assert(trace == sched_play(tracks, dur, m, timers, cursors, t1, seq![wait]));
            },
        }
    }
}

/// Helper for the chronological-order law: one played command, with the
/// optional pending wait in front.
proof fn lemma_trace_step_sorted(
    tracks: Seq<Seq<CmdV>>,
    dur: u64,
    tick: nat,
    timers: Seq<nat>,
    cursors: Seq<nat>,
    t: int,
    tick1: nat,
    pre: Seq<(nat, EventV)>,
)
    requires
        sched_state_wf(tracks, timers, cursors),
        0 <= t < tracks.len(),
        track_active(tracks, cursors, t),
        tick <= tick1,
        forall|k: int| 0 <= k < pre.len() ==> pre[k].0 == tick1,
    ensures
        ({
            let trace = sched_play(tracks, dur, tick1, timers, cursors, t, pre);
            &&& forall|k1: int, k2: int|
                0 <= k1 <= k2 < trace.len() ==> trace[k1].0 <= trace[k2].0
            &&& forall|k: int| 0 <= k < trace.len() ==> trace[k].0 >= tick
        }),
    decreases remaining_from(tracks, cursors, 0), 0nat,
{
    lemma_remaining_update(tracks, cursors, t, 0);
    let trace = sched_play(tracks, dur, tick1, timers, cursors, t, pre);
    let cursors2 = cursors.update(t, (cursors[t] + 1) as nat);
    match tracks[t][cursors[t] as int] {
        CmdV::Delay(n) => {
            let timers2 = timers.update(t, (timers[t] + n) as nat);
            lemma_trace_ticks_sorted(tracks, dur, tick1, timers2, cursors2);
            let rest = sched_trace(tracks, dur, tick1, timers2, cursors2);
            assert(trace == pre + rest);
            assert forall|k: int| 0 <= k < trace.len() implies trace[k].0 >= tick by {
                if k < pre.len() {
                    assert(trace[k] == pre[k]);
                } else {
                    assert(trace[k] == rest[k - pre.len()]);
                }
            }
            assert forall|k1: int, k2: int|
                0 <= k1 <= k2 < trace.len() implies trace[k1].0 <= trace[k2].0 by {
                if k1 < pre.len() {
                    assert(trace[k1] == pre[k1]);
                } else {
                    assert(trace[k1] == rest[k1 - pre.len()]);
                }
                if k2 < pre.len() {
                    assert(trace[k2] == pre[k2]);
                } else {
                    assert(trace[k2] == rest[k2 - pre.len()]);
                }
            }
        },
        CmdV::SetKeyState(note, pressed, velocity) => {
            lemma_trace_ticks_sorted(tracks, dur, tick1, timers, cursors2);
            let rest = sched_trace(tracks, dur, tick1, timers, cursors2);
            let ev = if pressed {
                EventV::NoteDown(t, note, velocity)
            } else {
                EventV::NoteUp(t, note, velocity)
            };
            assert(trace == pre + seq![(tick1, ev)] + rest);
            let mid = pre.len() as int;
            assert forall|k: int| 0 <= k < trace.len() implies trace[k].0 >= tick by {
                if k < mid {
                    assert(trace[k] == pre[k]);
                } else if k == mid {
                    assert(trace[k] == (tick1, ev));
                } else {
                    assert(trace[k] == rest[k - mid - 1]);
                }
            }
            assert forall|k1: int, k2: int|
                0 <= k1 <= k2 < trace.len() implies trace[k1].0 <= trace[k2].0 by {
                if k1 < mid {
                    assert(trace[k1] == pre[k1]);
                } else if k1 == mid {
                    assert(trace[k1] == (tick1, ev));
                } else {
                    assert(trace[k1] == rest[k1 - mid - 1]);
                }
                if k2 < mid {
                    assert(trace[k2] == pre[k2]);
                } else if k2 == mid {
                    assert(trace[k2] == (tick1, ev));
                } else {
                    assert(trace[k2] == rest[k2 - mid - 1]);
                }
            }
        },
    }
}

/// Every note event of track `j` in the trace is emitted while `j` is
/// active, and not before `j`'s current timer.
pub proof fn lemma_trace_note_sources(
    tracks: Seq<Seq<CmdV>>,
    dur: u64,
    tick: nat,
    timers: Seq<nat>,
    cursors: Seq<nat>,
    j: int,
)
    requires
        sched_state_wf(tracks, timers, cursors),
        0 <= j < tracks.len(),
    ensures
        ({
            let trace = sched_trace(tracks, dur, tick, timers, cursors);
            forall|k: int|
                0 <= k < trace.len() && event_track(trace[k].1) == Some(j) ==> track_active(
                    tracks,
                    cursors,
                    j,
                ) && trace[k].0 >= timers[j]
        }),
    decreases remaining_from(tracks, cursors, 0), 1nat,
{
    let trace = sched_trace(tracks, dur, tick, timers, cursors);
    let t0 = first_due_from(tracks, cursors, timers, tick, 0);
    lemma_first_due_props(tracks, cursors, timers, tick, 0);
    lemma_min_active_props(tracks, cursors, timers, 0);
    if t0 < tracks.len() {
        lemma_trace_step_note_sources(tracks, dur, timers, cursors, t0, tick, Seq::empty(), j);
    } else {
        match min_active_timer_from(tracks, cursors, timers, 0) {
            None => {},
            Some(m) => {
                let k = choose|k: int|
                    0 <= k < tracks.len() && track_active(tracks, cursors, k) && timers[k] == m;
                lemma_first_due_props(tracks, cursors, timers, m, 0);
                let t1 = first_due_from(tracks, cursors, timers, m, 0);
                assert(t1 <= k);
                let wait = (m, EventV::Wait((((m - tick) * dur) as u128)));
                lemma_trace_step_note_sources(tracks, dur, timers, cursors, t1, m, seq![wait], j);
            },
        }
    }
}

/// A stretch of trace without note events of track `t` filters to nothing.
proof fn lemma_note_entries_none(a: Seq<(nat, EventV)>, t: int)
    requires
        forall|k: int| 0 <= k < a.len() ==> event_track(a[k].1) != Some(t),
    ensures
        note_entries_of_track(a, t) == Seq::<(nat, EventV)>::empty(),
    decreases a.len(),
{
    if a.len() > 0 {
        assert(event_track(a[0].1) != Some(t));
        lemma_note_entries_none(a.drop_first(), t);
        assert(note_entries_of_track(a, t) =~= Seq::<(nat, EventV)>::empty());
    }
}

/// Tie-breaking law: among note events emitted at the same tick count, the
/// track indexes never decrease — when several tracks are due at the same
/// tick, the lower-indexed track's events are emitted first.
pub proof fn lemma_trace_tie_order(
    tracks: Seq<Seq<CmdV>>,
    dur: u64,
    tick: nat,
    timers: Seq<nat>,
    cursors: Seq<nat>,
)
    requires
        sched_state_wf(tracks, timers, cursors),
    ensures
        ({
            let trace = sched_trace(tracks, dur, tick, timers, cursors);
            forall|k1: int, k2: int|
                0 <= k1 < k2 < trace.len() && trace[k1].0 == trace[k2].0 && event_track(
                    trace[k1].1,
                ) is Some && event_track(trace[k2].1) is Some ==> event_track(
                    trace[k1].1,
                ).unwrap() <= event_track(trace[k2].1).unwrap()
        }),
    decreases remaining_from(tracks, cursors, 0), 1nat,
{
    let trace = sched_trace(tracks, dur, tick, timers, cursors);
    let t0 = first_due_from(tracks, cursors, timers, tick, 0);
    lemma_first_due_props(tracks, cursors, timers, tick, 0);
    lemma_min_active_props(tracks, cursors, timers, 0);
    if t0 < tracks.len() {
        lemma_trace_step_tie(tracks, dur, timers, cursors, t0, tick, Seq::empty());
        assert(trace == sched_play(tracks, dur, tick, timers, cursors, t0, Seq::empty()));
    } else {
        match min_active_timer_from(tracks, cursors, timers, 0) {
            None => {},
            Some(m) => {
                let k = choose|k: int|
                    0 <= k < tracks.len() && track_active(tracks, cursors, k) && timers[k] == m;
                lemma_first_due_props(tracks, cursors, timers, m, 0);
                let t1 = first_due_from(tracks, cursors, timers, m, 0);
                assert(t1 <= k);
                let wait = (m, EventV::Wait((((m - tick) * dur) as u128)));
                lemma_trace_step_tie(tracks, dur, timers, cursors, t1, m, seq![wait]);
                assert(trace == sched_play(tracks, dur, m, timers, cursors, t1, seq![wait]));
            },
        }
    }
}

/// Helper for the tie-breaking law: one played command of the first due
/// track.
proof fn lemma_trace_step_tie(
    tracks: Seq<Seq<CmdV>>,
    dur: u64,
    timers: Seq<nat>,
    cursors: Seq<nat>,
    t: int,
    tick1: nat,
    pre: Seq<(nat, EventV)>,
)
    requires
        sched_state_wf(tracks, timers, cursors),
        0 <= t < tracks.len(),
        track_active(tracks, cursors, t),
        timers[t] <= tick1,
        forall|j: int| 0 <= j < t ==> !(track_active(tracks, cursors, j) && timers[j] <= tick1),
        forall|k: int| 0 <= k < pre.len() ==> event_track(pre[k].1) is None,
    ensures
        ({
            let trace = sched_play(tracks, dur, tick1, timers, cursors, t, pre);
            forall|k1: int, k2: int|
                0 <= k1 < k2 < trace.len() && trace[k1].0 == trace[k2].0 && event_track(
                    trace[k1].1,
                ) is Some && event_track(trace[k2].1) is Some ==> event_track(
                    trace[k1].1,
                ).unwrap() <= event_track(trace[k2].1).unwrap()
        }),
    decreases remaining_from(tracks, cursors, 0), 0nat,
{
    lemma_remaining_update(tracks, cursors, t, 0);
    let trace = sched_play(tracks, dur, tick1, timers, cursors, t, pre);
    let cursors2 = cursors.update(t, (cursors[t] + 1) as nat);
    match tracks[t][cursors[t] as int] {
        CmdV::Delay(n) => {
            let timers2 = timers.update(t, (timers[t] + n) as nat);
            lemma_trace_tie_order(tracks, dur, tick1, timers2, cursors2);
            let rest = sched_trace(tracks, dur, tick1, timers2, cursors2);
            assert(trace == pre + rest);
            assert forall|k1: int, k2: int|
                0 <= k1 < k2 < trace.len() && trace[k1].0 == trace[k2].0 && event_track(
                    trace[k1].1,
                ) is Some && event_track(trace[k2].1) is Some implies event_track(
                trace[k1].1,
            ).unwrap() <= event_track(trace[k2].1).unwrap() by {
                if k1 < pre.len() {
                    assert(trace[k1] == pre[k1]);
                } else {
                    assert(trace[k1] == rest[k1 - pre.len()]);
                    assert(trace[k2] == rest[k2 - pre.len()]);
                }
            }
        },
        CmdV::SetKeyState(note, pressed, velocity) => {
            lemma_trace_tie_order(tracks, dur, tick1, timers, cursors2);
            let rest = sched_trace(tracks, dur, tick1, timers, cursors2);
            let ev = if pressed {
                EventV::NoteDown(t, note, velocity)
            } else {
                EventV::NoteUp(t, note, velocity)
            };
            assert(trace == pre + seq![(tick1, ev)] + rest);
            let mid = pre.len() as int;
            assert forall|k1: int, k2: int|
                0 <= k1 < k2 < trace.len() && trace[k1].0 == trace[k2].0 && event_track(
                    trace[k1].1,
                ) is Some && event_track(trace[k2].1) is Some implies event_track(
                trace[k1].1,
            ).unwrap() <= event_track(trace[k2].1).unwrap() by {
                if k1 < mid {
                    assert(trace[k1] == pre[k1]);
                } else if k1 == mid {
                    assert(trace[k1] == (tick1, ev));
                    assert(trace[k2] == rest[k2 - mid - 1]);
                    let j = event_track(trace[k2].1).unwrap();
                    if 0 <= j < tracks.len() {
                        lemma_trace_note_sources(tracks, dur, tick1, timers, cursors2, j);
                        if j < t {
                            assert(track_active(tracks, cursors2, j));
                            assert(track_active(tracks, cursors, j));
                            assert(timers[j] > tick1);
                            assert(trace[k2].0 >= timers[j]);
                            assert(false);
                        }
                    } else {
                        lemma_trace_note_tracks_in_range(tracks, dur, tick1, timers, cursors2);
                        assert(false);
                    }
                } else {
                    assert(trace[k1] == rest[k1 - mid - 1]);
                    assert(trace[k2] == rest[k2 - mid - 1]);
                }
            }
        },
    }
}

/// Every note event of the trace names a track index within range.
pub proof fn lemma_trace_note_tracks_in_range(
    tracks: Seq<Seq<CmdV>>,
    dur: u64,
    tick: nat,
    timers: Seq<nat>,
    cursors: Seq<nat>,
)
    requires
        sched_state_wf(tracks, timers, cursors),
    ensures
        ({
            let trace = sched_trace(tracks, dur, tick, timers, cursors);
            forall|k: int|
                0 <= k < trace.len() && event_track(trace[k].1) is Some ==> 0 <= event_track(
                    trace[k].1,
                ).unwrap() < tracks.len()
        }),
    decreases remaining_from(tracks, cursors, 0), 1nat,
{
    let trace = sched_trace(tracks, dur, tick, timers, cursors);
    let t0 = first_due_from(tracks, cursors, timers, tick, 0);
    lemma_first_due_props(tracks, cursors, timers, tick, 0);
    lemma_min_active_props(tracks, cursors, timers, 0);
    if t0 < tracks.len() {
        lemma_trace_step_note_range(tracks, dur, timers, cursors, t0, tick, Seq::empty());
        assert(trace == sched_play(tracks, dur, tick, timers, cursors, t0, Seq::empty()));
    } else {
        match min_active_timer_from(tracks, cursors, timers, 0) {
            None => {},
            Some(m) => {
                let k = choose|k: int|
                    0 <= k < tracks.len() && track_active(tracks, cursors, k) && timers[k] == m;
                lemma_first_due_props(tracks, cursors, timers, m, 0);
                let t1 = first_due_from(tracks, cursors, timers, m, 0);
                assert(t1 <= k);
                let wait = (m, EventV::Wait((((m - tick) * dur) as u128)));
                lemma_trace_step_note_range(tracks, dur, timers, cursors, t1, m, seq![wait]);
                assert(trace == sched_play(tracks, dur, m, timers, cursors, t1, seq![wait]));
            },
        }
    }
}

/// Helper for the track-range law: one played command.
proof fn lemma_trace_step_note_range(
    tracks: Seq<Seq<CmdV>>,
    dur: u64,
    timers: Seq<nat>,
    cursors: Seq<nat>,
    t: int,
    tick1: nat,
    pre: Seq<(nat, EventV)>,
)
    requires
        sched_state_wf(tracks, timers, cursors),
        0 <= t < tracks.len(),
        track_active(tracks, cursors, t),
        forall|k: int| 0 <= k < pre.len() ==> event_track(pre[k].1) is None,
    ensures
        ({
            let trace = sched_play(tracks, dur, tick1, timers, cursors, t, pre);
            forall|k: int|
                0 <= k < trace.len() && event_track(trace[k].1) is Some ==> 0 <= event_track(
                    trace[k].1,
                ).unwrap() < tracks.len()
        }),
    decreases remaining_from(tracks, cursors, 0), 0nat,
{
    lemma_remaining_update(tracks, cursors, t, 0);
    let cursors2 = cursors.update(t, (cursors[t] + 1) as nat);
    match tracks[t][cursors[t] as int] {
        CmdV::Delay(n) => {
            let timers2 = timers.update(t, (timers[t] + n) as nat);
            lemma_trace_note_tracks_in_range(tracks, dur, tick1, timers2, cursors2);
        },
        CmdV::SetKeyState(..) => {
            lemma_trace_note_tracks_in_range(tracks, dur, tick1, timers, cursors2);
        },
    }
}

/// Per-track timer accuracy: the note events of track `t` within the whole
/// trace are exactly the track's key-state commands in order, each emitted
/// at the tick count equal to the sum of the delay ticks before it in that
/// track. Requires only that no still-active timer lies in the past, which
/// holds of the initial state where everything is zero.
pub proof fn lemma_per_track_schedule(
    tracks: Seq<Seq<CmdV>>,
    dur: u64,
    tick: nat,
    timers: Seq<nat>,
    cursors: Seq<nat>,
    t: int,
)
    requires
        sched_state_wf(tracks, timers, cursors),
        0 <= t < tracks.len(),
        cursors[t] <= tracks[t].len(),
        forall|j: int|
            0 <= j < tracks.len() && track_active(tracks, cursors, j) ==> timers[j] >= tick,
    ensures
        note_entries_of_track(sched_trace(tracks, dur, tick, timers, cursors), t)
            == track_schedule_from(tracks[t], t, cursors[t] as int, timers[t]),
    decreases remaining_from(tracks, cursors, 0), 1nat,
{
    let trace = sched_trace(tracks, dur, tick, timers, cursors);
    let t0 = first_due_from(tracks, cursors, timers, tick, 0);
    lemma_first_due_props(tracks, cursors, timers, tick, 0);
    lemma_min_active_props(tracks, cursors, timers, 0);
    if t0 < tracks.len() {
        lemma_step_track_schedule(tracks, dur, timers, cursors, t0, tick, Seq::empty(), t);
        assert(trace == sched_play(tracks, dur, tick, timers, cursors, t0, Seq::empty()));
    } else {
        match min_active_timer_from(tracks, cursors, timers, 0) {
            None => {
                assert(!track_active(tracks, cursors, t));
                assert(note_entries_of_track(trace, t) =~= Seq::<(nat, EventV)>::empty());
                assert(track_schedule_from(tracks[t], t, cursors[t] as int, timers[t])
                    =~= Seq::<(nat, EventV)>::empty());
            },
            Some(m) => {
                let k = choose|k: int|
                    0 <= k < tracks.len() && track_active(tracks, cursors, k) && timers[k] == m;
                lemma_first_due_props(tracks, cursors, timers, m, 0);
                let t1 = first_due_from(tracks, cursors, timers, m, 0);
                assert(t1 <= k);
                let wait = (m, EventV::Wait((((m - tick) * dur) as u128)));
                lemma_step_track_schedule(tracks, dur, timers, cursors, t1, m, seq![wait], t);
                assert(trace == sched_play(tracks, dur, m, timers, cursors, t1, seq![wait]));
            },
        }
    }
}

/// Helper for the per-track timer law: one played command.
proof fn lemma_step_track_schedule(
    tracks: Seq<Seq<CmdV>>,
    dur: u64,
    timers: Seq<nat>,
    cursors: Seq<nat>,
    tau: int,
    tick1: nat,
    pre: Seq<(nat, EventV)>,
    t: int,
)
    requires
        sched_state_wf(tracks, timers, cursors),
        0 <= tau < tracks.len(),
        track_active(tracks, cursors, tau),
        timers[tau] <= tick1,
        forall|j: int|
            0 <= j < tracks.len() && track_active(tracks, cursors, j) ==> timers[j] >= tick1,
        0 <= t < tracks.len(),
        cursors[t] <= tracks[t].len(),
        forall|k: int| 0 <= k < pre.len() ==> event_track(pre[k].1) is None,
    ensures
        note_entries_of_track(sched_play(tracks, dur, tick1, timers, cursors, tau, pre), t)
            == track_schedule_from(tracks[t], t, cursors[t] as int, timers[t]),
    decreases remaining_from(tracks, cursors, 0), 0nat,
{
    lemma_remaining_update(tracks, cursors, tau, 0);
    let trace = sched_play(tracks, dur, tick1, timers, cursors, tau, pre);
    let cursors2 = cursors.update(tau, (cursors[tau] + 1) as nat);
    assert(timers[tau] == tick1);
    lemma_note_entries_none(pre, t);
    match tracks[tau][cursors[tau] as int] {
        CmdV::Delay(n) => {
            let timers2 = timers.update(tau, (timers[tau] + n) as nat);
            assert forall|j: int|
                0 <= j < tracks.len() && track_active(tracks, cursors2, j) implies timers2[j]
                >= tick1 by {
                if j != tau {
                    assert(track_active(tracks, cursors, j));
                    assert(timers2[j] == timers[j]);
                } else {
                    assert(timers2[j] == timers[tau] + n);
                }
            }
            lemma_per_track_schedule(tracks, dur, tick1, timers2, cursors2, t);
            let rest = sched_trace(tracks, dur, tick1, timers2, cursors2);
            assert(trace == pre + rest);
            lemma_note_entries_concat(pre, rest, t);
            if tau == t {
                assert(track_schedule_from(tracks[t], t, cursors[t] as int, timers[t])
                    == track_schedule_from(
                    tracks[t],
                    t,
                    cursors[t] as int + 1,
                    (timers[t] + n) as nat,
                ));
            }
        },
        CmdV::SetKeyState(note, pressed, velocity) => {
            assert forall|j: int|
                0 <= j < tracks.len() && track_active(tracks, cursors2, j) implies timers[j]
                >= tick1 by {
                assert(track_active(tracks, cursors, j));
            }
            lemma_per_track_schedule(tracks, dur, tick1, timers, cursors2, t);
            let rest = sched_trace(tracks, dur, tick1, timers, cursors2);
            let ev = if pressed {
                EventV::NoteDown(tau, note, velocity)
            } else {
                EventV::NoteUp(tau, note, velocity)
            };
            assert(trace == pre + seq![(tick1, ev)] + rest);
            lemma_note_entries_concat(pre + seq![(tick1, ev)], rest, t);
            lemma_note_entries_concat(pre, seq![(tick1, ev)], t);
            let single: Seq<(nat, EventV)> = seq![(tick1, ev)];
            assert(single.len() == 1);
            assert(single[0] == (tick1, ev));
            assert(single.drop_first() =~= Seq::<(nat, EventV)>::empty());
            assert(note_entries_of_track(single.drop_first(), t) == Seq::<(nat, EventV)>::empty());
            if tau == t {
                assert(event_track(ev) == Some(t));
                assert(note_entries_of_track(single, t) =~= seq![(timers[t], ev)]);
            } else {
                assert(event_track(ev) == Some(tau));
                assert(note_entries_of_track(single, t) =~= Seq::<(nat, EventV)>::empty());
            }
        },
    }
}

/// Numeric edge law: with a zero tick duration (tempo smaller than the
/// ticks per quarter note), every wait in the trace carries a zero
/// duration, whatever the tick counts are.
pub proof fn lemma_zero_duration_waits(
    tracks: Seq<Seq<CmdV>>,
    dur: u64,
    tick: nat,
    timers: Seq<nat>,
    cursors: Seq<nat>,
)
    requires
        sched_state_wf(tracks, timers, cursors),
        dur == 0,
    ensures
        ({
            let trace = sched_trace(tracks, dur, tick, timers, cursors);
            forall|k: int|
                0 <= k < trace.len() ==> ((#[trigger] trace[k]).1 matches EventV::Wait(micros)
                    ==> micros == 0)
        }),
    decreases remaining_from(tracks, cursors, 0), 1nat,
{
    let trace = sched_trace(tracks, dur, tick, timers, cursors);
    let t0 = first_due_from(tracks, cursors, timers, tick, 0);
    lemma_first_due_props(tracks, cursors, timers, tick, 0);
    lemma_min_active_props(tracks, cursors, timers, 0);
    if t0 < tracks.len() {
        lemma_step_zero_duration(tracks, dur, timers, cursors, t0, tick, Seq::empty());
        assert(trace == sched_play(tracks, dur, tick, timers, cursors, t0, Seq::empty()));
    } else {
        match min_active_timer_from(tracks, cursors, timers, 0) {
            None => {},
            Some(m) => {
                let k = choose|k: int|
                    0 <= k < tracks.len() && track_active(tracks, cursors, k) && timers[k] == m;
                lemma_first_due_props(tracks, cursors, timers, m, 0);
                let t1 = first_due_from(tracks, cursors, timers, m, 0);
                assert(t1 <= k);
                let wait = (m, EventV::Wait((((m - tick) * dur) as u128)));
                assert(wait.1 == EventV::Wait(0u128));
                lemma_step_zero_duration(tracks, dur, timers, cursors, t1, m, seq![wait]);
                assert(trace == sched_play(tracks, dur, m, timers, cursors, t1, seq![wait]));
            },
        }
    }
}

/// Helper for the zero-duration law: one played command.
proof fn lemma_step_zero_duration(
    tracks: Seq<Seq<CmdV>>,
    dur: u64,
    timers: Seq<nat>,
    cursors: Seq<nat>,
    t: int,
    tick1: nat,
    pre: Seq<(nat, EventV)>,
)
    requires
        sched_state_wf(tracks, timers, cursors),
        0 <= t < tracks.len(),
        track_active(tracks, cursors, t),
        dur == 0,
        forall|k: int|
            0 <= k < pre.len() ==> ((#[trigger] pre[k]).1 matches EventV::Wait(micros) ==> micros
                == 0),
    ensures
        ({
            let trace = sched_play(tracks, dur, tick1, timers, cursors, t, pre);
            forall|k: int|
                0 <= k < trace.len() ==> ((#[trigger] trace[k]).1 matches EventV::Wait(micros)
                    ==> micros == 0)
        }),
    decreases remaining_from(tracks, cursors, 0), 0nat,
{
    lemma_remaining_update(tracks, cursors, t, 0);
    let trace = sched_play(tracks, dur, tick1, timers, cursors, t, pre);
    let cursors2 = cursors.update(t, (cursors[t] + 1) as nat);
    match tracks[t][cursors[t] as int] {
        CmdV::Delay(n) => {
            let timers2 = timers.update(t, (timers[t] + n) as nat);
            lemma_zero_duration_waits(tracks, dur, tick1, timers2, cursors2);
            let rest = sched_trace(tracks, dur, tick1, timers2, cursors2);
            assert(trace == pre + rest);
            assert forall|k: int|
                0 <= k < trace.len() implies ((#[trigger] trace[k]).1 matches EventV::Wait(micros)
                ==> micros == 0) by {
                if k < pre.len() {
                    assert(trace[k] == pre[k]);
                } else {
                    assert(trace[k] == rest[k - pre.len()]);
                }
            }
        },
        CmdV::SetKeyState(note, pressed, velocity) => {
            lemma_zero_duration_waits(tracks, dur, tick1, timers, cursors2);
            let rest = sched_trace(tracks, dur, tick1, timers, cursors2);
            let ev = if pressed {
                EventV::NoteDown(t, note, velocity)
            } else {
                EventV::NoteUp(t, note, velocity)
            };
            assert(trace == pre + seq![(tick1, ev)] + rest);
            let mid = pre.len() as int;
            assert forall|k: int|
                0 <= k < trace.len() implies ((#[trigger] trace[k]).1 matches EventV::Wait(micros)
                ==> micros == 0) by {
                if k < mid {
                    assert(trace[k] == pre[k]);
                } else if k == mid {
                    assert(trace[k] == (tick1, ev));
                } else {
                    assert(trace[k] == rest[k - mid - 1]);
                }
            }
        },
    }
}

/// Scheduler ordering law for a whole aggregate: the trace behind
/// [`crate::midi::Midi::run`] emits in never-decreasing tick order, and
/// among note events at the same tick the track indexes never decrease —
/// the lower-indexed track wins a tie.
pub proof fn lemma_midi_emission_order(m: MidiV)
    ensures
        ({
            let trace = sched_trace(
                m.tracks,
                spec_tick_duration(m),
                0,
                zero_seq(m.tracks.len()),
                zero_seq(m.tracks.len()),
            );
            &&& forall|k1: int, k2: int|
                0 <= k1 <= k2 < trace.len() ==> trace[k1].0 <= trace[k2].0
            &&& forall|k1: int, k2: int|
                0 <= k1 < k2 < trace.len() && trace[k1].0 == trace[k2].0 && event_track(
                    trace[k1].1,
                ) is Some && event_track(trace[k2].1) is Some ==> event_track(
                    trace[k1].1,
                ).unwrap() <= event_track(trace[k2].1).unwrap()
        }),
{
    let zeros = zero_seq(m.tracks.len());
    lemma_trace_ticks_sorted(m.tracks, spec_tick_duration(m), 0, zeros, zeros);
    lemma_trace_tie_order(m.tracks, spec_tick_duration(m), 0, zeros, zeros);
}

/// Per-track timer law for a whole aggregate: within the trace behind
/// [`crate::midi::Midi::run`], the note events of track `t` are exactly its
/// key-state commands in file order, each emitted at the tick count equal
/// to the sum of the delay ticks standing before it in that track.
pub proof fn lemma_midi_track_schedule(m: MidiV, t: int)
    requires
        0 <= t < m.tracks.len(),
    ensures
        note_entries_of_track(
            sched_trace(
                m.tracks,
                spec_tick_duration(m),
                0,
                zero_seq(m.tracks.len()),
                zero_seq(m.tracks.len()),
            ),
            t,
        ) == track_schedule_from(m.tracks[t], t, 0, 0),
{
    let zeros = zero_seq(m.tracks.len());
    assert(zeros[t] == 0);
    lemma_per_track_schedule(m.tracks, spec_tick_duration(m), 0, zeros, zeros, t);
}

/// Numeric edge law for a whole aggregate: when the tick duration
/// truncates to zero, every wait of the trace behind
/// [`crate::midi::Midi::run`] carries a zero duration.
pub proof fn lemma_midi_zero_duration(m: MidiV)
    requires
        spec_tick_duration(m) == 0,
    ensures
        ({
            let trace = sched_trace(
                m.tracks,
                spec_tick_duration(m),
                0,
                zero_seq(m.tracks.len()),
                zero_seq(m.tracks.len()),
            );
            forall|k: int|
                0 <= k < trace.len() ==> ((#[trigger] trace[k]).1 matches EventV::Wait(micros)
                    ==> micros == 0)
        }),
{
    let zeros = zero_seq(m.tracks.len());
    lemma_zero_duration_waits(m.tracks, spec_tick_duration(m), 0, zeros, zeros);
}

/// Helper for the note-source law: one played command.
proof fn lemma_trace_step_note_sources(
    tracks: Seq<Seq<CmdV>>,
    dur: u64,
    timers: Seq<nat>,
    cursors: Seq<nat>,
    t: int,
    tick1: nat,
    pre: Seq<(nat, EventV)>,
    j: int,
)
    requires
        sched_state_wf(tracks, timers, cursors),
        0 <= t < tracks.len(),
        0 <= j < tracks.len(),
        track_active(tracks, cursors, t),
        timers[t] <= tick1,
        forall|k: int| 0 <= k < pre.len() ==> event_track(pre[k].1) is None,
    ensures
        ({
            let trace = sched_play(tracks, dur, tick1, timers, cursors, t, pre);
            forall|k: int|
                0 <= k < trace.len() && event_track(trace[k].1) == Some(j) ==> track_active(
                    tracks,
                    cursors,
                    j,
                ) && trace[k].0 >= timers[j]
        }),
    decreases remaining_from(tracks, cursors, 0), 0nat,
{
    lemma_remaining_update(tracks, cursors, t, 0);
    let cursors2 = cursors.update(t, (cursors[t] + 1) as nat);
    match tracks[t][cursors[t] as int] {
        CmdV::Delay(n) => {
            let timers2 = timers.update(t, (timers[t] + n) as nat);
            lemma_trace_note_sources(tracks, dur, tick1, timers2, cursors2, j);
        },
        CmdV::SetKeyState(..) => {
            lemma_trace_note_sources(tracks, dur, tick1, timers, cursors2, j);
        },
    }
}

} // verus!

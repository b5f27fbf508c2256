//! The decoded MIDI aggregate: header fields plus ordered tracks of
//! commands, and playback of that aggregate as one chronologically ordered
//! emission sequence.

use vstd::prelude::*;
use crate::note::{Note, NoteV};
use crate::schedule::{
    delay_sum, event_views, first_due_from, lemma_delay_sum_mono, lemma_first_due_is,
    lemma_first_due_props, lemma_min_active_props, lemma_remaining_update, midi_emissions,
    min_active_timer_from, nats_of_u64s, nats_of_usizes, remaining_from, sched_phase, sched_play,
    sched_trace, spec_tick_duration, strip_ticks, track_active, track_delay_total, zero_seq,
};

verus! {

/// Index of a track within a [`Midi`].
pub type TrackIndex = usize;

/// Loudness of a note press/release.
pub type Velocity = u8;

/// Mathematical model of a [`MidiCommand`].
pub ghost enum CmdV {
    /// Ticks elapsed since the previous command of the same track.
    Delay(u64),
    /// A note press (`true`) or release (`false`) with its velocity.
    SetKeyState(NoteV, bool, u8),
}

/// One decoded instruction in a track's event stream, in file order.
pub enum MidiCommand {
    /// Ticks elapsed since the previous command of the same track.
    Delay(u64),
    /// A note press (`true`) or release (`false`) with its velocity.
    SetKeyState(Note, bool, Velocity),
}

impl View for MidiCommand {
    type V = CmdV;

    open spec fn view(&self) -> CmdV {
        match self {
            MidiCommand::Delay(ticks) => CmdV::Delay(*ticks),
            MidiCommand::SetKeyState(note, pressed, velocity) => CmdV::SetKeyState(
                note@,
                *pressed,
                *velocity,
            ),
        }
    }
}

/// An ordered sequence of commands; insertion order is the event order on
/// the wire.
pub struct MidiTrack(pub Vec<MidiCommand>);

impl View for MidiTrack {
    type V = Seq<CmdV>;

    open spec fn view(&self) -> Seq<CmdV> {
        self.0@.map_values(|c: MidiCommand| c@)
    }
}

/// Mathematical model of a [`Midi`].
pub ghost struct MidiV {
    pub tempo: u32,
    pub delta_time: u32,
    pub tracks: Seq<Seq<CmdV>>,
}

/// A decoded MIDI file: tempo, ticks per quarter note, and the tracks.
pub struct Midi {
    /// Microseconds per quarter note; the last "set tempo" meta event seen
    /// anywhere in the file wins.
    pub tempo: u32,
    /// Ticks per quarter note.
    pub delta_time: u32,
    /// The decoded tracks, in file order.
    pub tracks: Vec<MidiTrack>,
}

impl View for Midi {
    type V = MidiV;

    open spec fn view(&self) -> MidiV {
        MidiV {
            tempo: self.tempo,
            delta_time: self.delta_time,
            tracks: self.tracks@.map_values(|t: MidiTrack| t@),
        }
    }
}

/// Mathematical model of a [`PlaybackEvent`].
pub ghost enum EventV {
    /// A note was pressed on the given track with the given velocity.
    NoteDown(int, NoteV, u8),
    /// A note was released on the given track with the given velocity.
    NoteUp(int, NoteV, u8),
    /// Real time should pass: the duration in microseconds.
    Wait(u128),
}

/// One element of the playback emission sequence, in true chronological
/// order across all tracks.
pub enum PlaybackEvent {
    /// A note was pressed on the given track with the given velocity.
    NoteDown(TrackIndex, Note, Velocity),
    /// A note was released on the given track with the given velocity.
    NoteUp(TrackIndex, Note, Velocity),
    /// Real time should pass: the duration in microseconds.
    Wait(u128),
}

impl View for PlaybackEvent {
    type V = EventV;

    open spec fn view(&self) -> EventV {
        match self {
            PlaybackEvent::NoteDown(track, note, velocity) => EventV::NoteDown(
                *track as int,
                note@,
                *velocity,
            ),
            PlaybackEvent::NoteUp(track, note, velocity) => EventV::NoteUp(
                *track as int,
                note@,
                *velocity,
            ),
            PlaybackEvent::Wait(micros) => EventV::Wait(*micros),
        }
    }
}

impl Midi {
    /// Create a new midi aggregate from its parts.
    pub fn new(tempo: u32, delta_time: u32, tracks: Vec<MidiTrack>) -> (r: Midi)
        ensures
            r.tempo == tempo,
            r.delta_time == delta_time,
            r.tracks == tracks,
    {
        Midi { tempo, delta_time, tracks }
    }

    /// Create a new midi by decoding complete midi file content.
    pub fn from_content(content: Vec<u8>) -> (r: Result<Midi, crate::midi_parser::DecodeError>)
        ensures
            ({
                match crate::midi_parser::spec_parse_midi(content@) {
                    Ok(mv) => r matches Ok(m) && m@ == mv,
                    Err(e) => r matches Err(e2) && e2 == e,
                }
            }),
    {
        crate::midi_parser::MidiParser::new(content).parse()
    }

    /// The duration of one tick in microseconds: the tempo (microseconds per
    /// quarter note) divided by the ticks per quarter note, truncated.
    pub fn tick_duration(&self) -> (d: u64)
        requires
            self.delta_time > 0,
        ensures
            d == spec_tick_duration(self@),
    {
        (self.tempo / self.delta_time) as u64
    }

    /// Play the whole timeline: merge the tracks into one emission sequence
    /// in true chronological order. Among simultaneously due tracks the
    /// lowest index wins; when no track is due, a wait for the nearest timer
    /// is emitted and the tick count advances to it.
    pub fn run(&self) -> (events: Vec<PlaybackEvent>)
        requires
            self.delta_time > 0,
            forall|i: int|
                0 <= i < self@.tracks.len() ==> track_delay_total(self@.tracks[i]) <= u64::MAX,
        ensures
            event_views(events@) == midi_emissions(self@),
    {
        let ghost tv: Seq<Seq<CmdV>> = self@.tracks;
        let dur: u64 = self.tick_duration();
        let n: usize = self.tracks.len();
        let mut timers: Vec<u64> = Vec::new();
        while timers.len() < n
            invariant
                timers@.len() <= n,
                forall|k: int| 0 <= k < timers@.len() ==> timers@[k] == 0u64,
            decreases n - timers.len(),
        {
            timers.push(0);
        }
        let mut cursors: Vec<usize> = Vec::new();
        while cursors.len() < n
            invariant
                cursors@.len() <= n,
                forall|k: int| 0 <= k < cursors@.len() ==> cursors@[k] == 0usize,
            decreases n - cursors.len(),
        {
            cursors.push(0);
        }
        let mut tick: u64 = 0;
        let mut events: Vec<PlaybackEvent> = Vec::new();
        let ghost target = sched_trace(tv, dur, 0, zero_seq(tv.len()), zero_seq(tv.len()));
        proof {
            assert(nats_of_u64s(timers@) =~= zero_seq(tv.len()));
            assert(nats_of_usizes(cursors@) =~= zero_seq(tv.len()));
            assert(event_views(events@) + strip_ticks(target) =~= strip_ticks(target));
            assert(forall|i: int|
                0 <= i < n ==> nats_of_u64s(timers@)[i] == delay_sum(tv[i], cursors@[i] as int));
        }
        loop
            invariant
                n == self.tracks@.len(),
                tv == self@.tracks,
                dur == spec_tick_duration(self@),
                timers@.len() == n,
                cursors@.len() == n,
                forall|i: int| 0 <= i < n ==> cursors@[i] <= self.tracks@[i].0@.len(),
                forall|i: int|
                    0 <= i < n ==> timers@[i] as nat == delay_sum(tv[i], cursors@[i] as int),
                forall|i: int| 0 <= i < n ==> track_delay_total(tv[i]) <= u64::MAX,
                event_views(events@) + strip_ticks(
                    sched_trace(tv, dur, tick as nat, nats_of_u64s(timers@), nats_of_usizes(cursors@)),
                ) == strip_ticks(target),
            ensures
                event_views(events@) == strip_ticks(target),
            decreases
                remaining_from(tv, nats_of_usizes(cursors@), 0),
                sched_phase(tv, nats_of_usizes(cursors@), nats_of_u64s(timers@), tick as nat),
        {
            let ghost cv = nats_of_usizes(cursors@);
            let ghost tmv = nats_of_u64s(timers@);
            let t = find_first_due(&self.tracks, &cursors, &timers, tick);
            if t < n {
                proof {
                    lemma_first_due_props(tv, cv, tmv, tick as nat, 0);
                    assert(track_active(tv, cv, t as int));
                    assert(tv[t as int] == self.tracks@[t as int]@);
                }
                let ci = cursors[t];
                let tlen = self.tracks[t].0.len();
                proof {
                    assert(ci < tlen);
                    assert(tv[t as int][ci as int] == self.tracks@[t as int].0@[ci as int]@);
                    lemma_remaining_update(tv, cv, t as int, 0);
                }
                match &self.tracks[t].0[ci] {
                    MidiCommand::Delay(ticks) => {
                        proof {
                            assert(delay_sum(tv[t as int], ci + 1) == delay_sum(
                                tv[t as int],
                                ci as int,
                            ) + *ticks);
                            lemma_delay_sum_mono(tv[t as int], ci + 1, tv[t as int].len() as int);
                            assert(timers@[t as int] + *ticks <= u64::MAX);
                        }
                        let nt = timers[t] + *ticks;
                        timers.set(t, nt);
                        cursors.set(t, ci + 1);
                        proof {
                            assert(nats_of_u64s(timers@) =~= tmv.update(
                                t as int,
                                (tmv[t as int] + *ticks) as nat,
                            ));
                            assert(nats_of_usizes(cursors@) =~= cv.update(
                                t as int,
                                (cv[t as int] + 1) as nat,
                            ));
                            assert(sched_trace(tv, dur, tick as nat, tmv, cv) == sched_play(
                                tv,
                                dur,
                                tick as nat,
                                tmv,
                                cv,
                                t as int,
                                Seq::empty(),
                            ));
                            assert(sched_trace(tv, dur, tick as nat, tmv, cv) =~= sched_trace(
                                tv,
                                dur,
                                tick as nat,
                                nats_of_u64s(timers@),
                                nats_of_usizes(cursors@),
                            ));
                        }
                    },
                    MidiCommand::SetKeyState(note, pressed, velocity) => {
                        let ev = if *pressed {
                            PlaybackEvent::NoteDown(t, note.duplicate(), *velocity)
                        } else {
                            PlaybackEvent::NoteUp(t, note.duplicate(), *velocity)
                        };
                        let ghost evv = ev@;
                        let ghost pre_events = events@;
                        events.push(ev);
                        cursors.set(t, ci + 1);
                        proof {
                            assert(nats_of_usizes(cursors@) =~= cv.update(
                                t as int,
                                (cv[t as int] + 1) as nat,
                            ));
                            assert(sched_trace(tv, dur, tick as nat, tmv, cv) == sched_play(
                                tv,
                                dur,
                                tick as nat,
                                tmv,
                                cv,
                                t as int,
                                Seq::empty(),
                            ));
                            let rest = sched_trace(
                                tv,
                                dur,
                                tick as nat,
                                nats_of_u64s(timers@),
                                nats_of_usizes(cursors@),
                            );
                            assert(sched_trace(tv, dur, tick as nat, tmv, cv) =~= Seq::empty()
                                + seq![(tick as nat, evv)] + rest);
                            assert(strip_ticks(Seq::empty() + seq![(tick as nat, evv)] + rest)
                                =~= seq![evv] + strip_ticks(rest));
                            assert(event_views(events@) =~= event_views(pre_events) + seq![evv]);
                            assert(event_views(events@) + strip_ticks(rest) =~= event_views(
                                pre_events,
                            ) + strip_ticks(sched_trace(tv, dur, tick as nat, tmv, cv)));
                        }
                    },
                }
            } else {
                let m_opt = min_active_timer(&self.tracks, &cursors, &timers);
                proof {
                    lemma_min_active_props(tv, cv, tmv, 0);
                    lemma_first_due_props(tv, cv, tmv, tick as nat, 0);
                }
                match m_opt {
                    None => {
                        proof {
                            assert(sched_trace(tv, dur, tick as nat, tmv, cv) =~= Seq::<
                                (nat, EventV),
                            >::empty());
                            assert(event_views(events@) =~= strip_ticks(target));
                        }
                        break ;
                    },
                    Some(m) => {
                        proof {
                            let k = choose|k: int|
                                0 <= k < tv.len() && track_active(tv, cv, k) && tmv[k] == m as nat;
                            assert(tmv[k] > tick as nat);
                            lemma_first_due_props(tv, cv, tmv, m as nat, 0);
                            assert(first_due_from(tv, cv, tmv, m as nat, 0) <= k);
                        }
                        let ghost tick0 = tick as nat;
                        let delta = m - tick;
                        let ghost pre_events = events@;
                        proof {
                            assert(delta as nat * dur as nat <= u64::MAX as nat * u64::MAX
                                as nat) by (nonlinear_arith)
                                requires
                                    delta as nat <= u64::MAX as nat,
                                    dur as nat <= u64::MAX as nat,
                            ;
                        }
                        let ev = PlaybackEvent::Wait((delta as u128) * (dur as u128));
                        let ghost evv = ev@;
                        events.push(ev);
                        tick = m;
                        proof {
                            assert((m as nat - tick0) * (dur as nat) <= u64::MAX as nat
                                * u64::MAX as nat) by (nonlinear_arith)
                                requires
                                    m as nat - tick0 <= u64::MAX as nat,
                                    dur as nat <= u64::MAX as nat,
                            ;
                            assert(evv == EventV::Wait((((m as nat - tick0) * dur) as u128)));
                            let t1 = first_due_from(tv, cv, tmv, m as nat, 0);
                            let rest = sched_trace(tv, dur, m as nat, tmv, cv);
                            assert(rest == sched_play(tv, dur, m as nat, tmv, cv, t1, Seq::empty()));
                            assert(sched_trace(tv, dur, tick0, tmv, cv) =~= seq![(m as nat, evv)]
                                + rest);
                            assert(strip_ticks(seq![(m as nat, evv)] + rest) =~= seq![evv]
                                + strip_ticks(rest));
                            assert(event_views(events@) =~= event_views(pre_events) + seq![evv]);
                            assert(event_views(events@) + strip_ticks(rest) =~= event_views(
                                pre_events,
                            ) + strip_ticks(sched_trace(tv, dur, tick0, tmv, cv)));
                        }
                    },
                }
            }
        }
        events
    }
}

/// The lowest-indexed track that is still active and whose timer has been
/// reached; the track count if there is none.
fn find_first_due(tracks: &Vec<MidiTrack>, cursors: &Vec<usize>, timers: &Vec<u64>, tick: u64) -> (r:
    usize)
    requires
        cursors@.len() == tracks@.len(),
        timers@.len() == tracks@.len(),
    ensures
        r as int == first_due_from(
            tracks@.map_values(|tr: MidiTrack| tr@),
            nats_of_usizes(cursors@),
            nats_of_u64s(timers@),
            tick as nat,
            0,
        ),
        r <= tracks@.len(),
{
    let ghost tv = tracks@.map_values(|tr: MidiTrack| tr@);
    let ghost cv = nats_of_usizes(cursors@);
    let ghost tmv = nats_of_u64s(timers@);
    let n = tracks.len();
    let mut i: usize = 0;
    while i < n
        invariant
            i <= n,
            n == tracks@.len(),
            cursors@.len() == n,
            timers@.len() == n,
            tv == tracks@.map_values(|tr: MidiTrack| tr@),
            cv == nats_of_usizes(cursors@),
            tmv == nats_of_u64s(timers@),
            forall|k: int| 0 <= k < i ==> !(track_active(tv, cv, k) && tmv[k] <= tick as nat),
        decreases n - i,
    {
        proof {
            assert(tv[i as int] == tracks@[i as int]@);
        }
        if cursors[i] < tracks[i].0.len() && timers[i] <= tick {
            proof {
                lemma_first_due_is(tv, cv, tmv, tick as nat, 0, i as int);
            }
            return i;
        }
        i = i + 1;
    }
    proof {
        lemma_first_due_is(tv, cv, tmv, tick as nat, 0, n as int);
    }
    n
}

/// The smallest timer among the still-active tracks, if any track is still
/// active.
fn min_active_timer(tracks: &Vec<MidiTrack>, cursors: &Vec<usize>, timers: &Vec<u64>) -> (r: Option<
    u64,
>)
    requires
        cursors@.len() == tracks@.len(),
        timers@.len() == tracks@.len(),
    ensures
        ({
            let spec_min = min_active_timer_from(
                tracks@.map_values(|tr: MidiTrack| tr@),
                nats_of_usizes(cursors@),
                nats_of_u64s(timers@),
                0,
            );
            match r {
                None => spec_min is None,
                Some(m) => spec_min == Some(m as nat),
            }
        }),
{
    let ghost tv = tracks@.map_values(|tr: MidiTrack| tr@);
    let ghost cv = nats_of_usizes(cursors@);
    let ghost tmv = nats_of_u64s(timers@);
    let n = tracks.len();
    let mut best: Option<u64> = None;
    let ghost mut w: int = 0;
    let mut i: usize = 0;
    while i < n
        invariant
            i <= n,
            n == tracks@.len(),
            cursors@.len() == n,
            timers@.len() == n,
            tv == tracks@.map_values(|tr: MidiTrack| tr@),
            cv == nats_of_usizes(cursors@),
            tmv == nats_of_u64s(timers@),
            best is None ==> forall|k: int| 0 <= k < i ==> !track_active(tv, cv, k),
            best matches Some(b) ==> 0 <= w < i && track_active(tv, cv, w) && tmv[w] == b as nat,
            best matches Some(b) ==> forall|k: int|
                0 <= k < i && track_active(tv, cv, k) ==> tmv[k] >= b as nat,
        decreases n - i,
    {
        proof {
            assert(tv[i as int] == tracks@[i as int]@);
        }
        if cursors[i] < tracks[i].0.len() {
            proof {
                assert(track_active(tv, cv, i as int));
            }
            match best {
                None => {
                    best = Some(timers[i]);
                    proof {
                        w = i as int;
                    }
                },
                Some(b) => {
                    if timers[i] < b {
                        best = Some(timers[i]);
                        proof {
                            w = i as int;
                        }
                    }
                },
            }
        } else {
            proof {
                assert(!track_active(tv, cv, i as int));
            }
        }
        i = i + 1;
    }
    proof {
        lemma_min_active_props(tv, cv, tmv, 0);
        let spec_min = min_active_timer_from(tv, cv, tmv, 0);
        match best {
            None => {
                if spec_min is Some {
                    let k = choose|k: int|
                        0 <= k < tv.len() && track_active(tv, cv, k) && tmv[k]
                            == spec_min.unwrap();
                    assert(false);
                }
            },
            Some(b) => {
                assert(spec_min is Some);
            },
        }
    }
    best
}

} // verus!

use midi_player::{Midi, MidiCommand, MidiTrack, Note, PlaybackEvent};

fn down(velocity: u8) -> MidiCommand {
    MidiCommand::SetKeyState(Note::from_midi_id(6), true, velocity)
}

fn up(velocity: u8) -> MidiCommand {
    MidiCommand::SetKeyState(Note::from_midi_id(6), false, velocity)
}

// (track, pressed, velocity) of the note events of an emission sequence.
fn note_events(events: &[PlaybackEvent]) -> Vec<(usize, bool, u8)> {
    let mut notes: Vec<(usize, bool, u8)> = Vec::new();
    for event in events {
        match event {
            PlaybackEvent::NoteDown(track, _, velocity) => notes.push((*track, true, *velocity)),
            PlaybackEvent::NoteUp(track, _, velocity) => notes.push((*track, false, *velocity)),
            PlaybackEvent::Wait(_) => {}
        }
    }
    notes
}

#[test]
fn tick_duration_truncates() {
    assert_eq!(Midi::new(500000, 480, Vec::new()).tick_duration(), 1041);
    // tempo 8 over 16 ticks per quarter truncates to zero
    assert_eq!(Midi::new(8, 16, Vec::new()).tick_duration(), 0);
}

#[test]
fn per_track_timer_accuracy() {
    // one track, delays of 4 ticks between successive note events
    let commands = vec![
        MidiCommand::Delay(4),
        down(10),
        MidiCommand::Delay(4),
        up(20),
        MidiCommand::Delay(4),
        down(30),
    ];
    let midi = Midi::new(16, 16, vec![MidiTrack(commands)]);
    assert_eq!(midi.tick_duration(), 1);
    let events = midi.run();
    // each note becomes due 4 ticks after the previous one
    let expected = [
        (4u128, true, 10u8),
        (4, false, 20),
        (4, true, 30),
    ];
    let mut i = 0;
    for pair in events.chunks(2) {
        match (&pair[0], &pair[1]) {
            (PlaybackEvent::Wait(micros), PlaybackEvent::NoteDown(0, _, velocity)) => {
                assert_eq!((*micros, true, *velocity), expected[i]);
            }
            (PlaybackEvent::Wait(micros), PlaybackEvent::NoteUp(0, _, velocity)) => {
                assert_eq!((*micros, false, *velocity), expected[i]);
            }
            _ => panic!("expected a wait followed by a note event"),
        }
        i += 1;
    }
    assert_eq!(i, 3);
}

#[test]
fn zero_tick_duration_yields_zero_waits() {
    // tempo 8 over 16 ticks per quarter: every wait must carry zero
    let commands = vec![
        MidiCommand::Delay(4),
        down(10),
        MidiCommand::Delay(500),
        up(20),
    ];
    let midi = Midi::new(8, 16, vec![MidiTrack(commands)]);
    assert_eq!(midi.tick_duration(), 0);
    let events = midi.run();
    let mut waits = 0;
    for event in &events {
        if let PlaybackEvent::Wait(micros) = event {
            assert_eq!(*micros, 0);
            waits += 1;
        }
    }
    assert_eq!(waits, 2);
    assert_eq!(note_events(&events).len(), 2);
}

#[test]
fn scheduler_orders_interleaved_tracks() {
    // two tracks; the second becomes due earlier than the first
    let first = vec![MidiCommand::Delay(10), down(1)];
    let second = vec![MidiCommand::Delay(3), down(2), MidiCommand::Delay(4), up(3)];
    let midi = Midi::new(16, 16, vec![MidiTrack(first), MidiTrack(second)]);
    let events = midi.run();
    assert_eq!(
        note_events(&events),
        vec![(1, true, 2), (1, false, 3), (0, true, 1)]
    );
    // waits pace out the gaps: 3, then 4, then 3 ticks at one microsecond each
    let waits: Vec<u128> = events
        .iter()
        .filter_map(|e| match e {
            PlaybackEvent::Wait(micros) => Some(*micros),
            _ => None,
        })
        .collect();
    assert_eq!(waits, vec![3, 4, 3]);
}

#[test]
fn simultaneous_tracks_emit_lowest_index_first() {
    // both tracks due at tick 5: track 0 wins the tie
    let first = vec![MidiCommand::Delay(5), down(1)];
    let second = vec![MidiCommand::Delay(5), down(2)];
    let midi = Midi::new(16, 16, vec![MidiTrack(first), MidiTrack(second)]);
    assert_eq!(
        note_events(&midi.run()),
        vec![(0, true, 1), (1, true, 2)]
    );
}

#[test]
fn empty_tracks_emit_nothing() {
    let midi = Midi::new(16, 16, vec![MidiTrack(Vec::new()), MidiTrack(Vec::new())]);
    assert_eq!(midi.run().len(), 0);
}

#[test]
fn end_to_end_three_tracks() {
    // the example file: three tracks of one, two and three press/release
    // pairs, note id 6, velocities 0, 12, 24, ..., delays 4, 8, 12, ...,
    // tempo 8 and sixteen ticks per quarter note
    let mut bytes: Vec<u8> = Vec::new();
    bytes.extend_from_slice(&[0x4D, 0x54, 0x68, 0x64, 0x00, 0x00, 0x00, 0x06]);
    bytes.extend_from_slice(&[0, 0, 0, 3, 0, 16]);
    for track_index in 0..3u8 {
        bytes.extend_from_slice(&[0x4D, 0x54, 0x72, 0x6B]);
        let mut track_bytes: Vec<u8> = vec![0, 0xFF, 0x51, 3, 0, 0, 8];
        for command_index in 0..(1 + track_index) * 2 {
            let status: u8 = if command_index % 2 == 0 {
                (0x09 << 4) ^ track_index
            } else {
                (0x08 << 4) ^ track_index
            };
            track_bytes.extend_from_slice(&[
                (command_index + 1) * 4,
                status,
                6,
                command_index * 12,
            ]);
        }
        track_bytes.extend_from_slice(&[0, 0xFF, 0x2F, 0]);
        bytes.extend_from_slice(&(track_bytes.len() as u32).to_be_bytes());
        bytes.extend_from_slice(&track_bytes);
    }

    let midi = Midi::from_content(bytes).unwrap();
    assert_eq!(midi.tracks.len(), 3);
    for track_index in 0..3usize {
        assert_eq!(midi.tracks[track_index].0.len(), (track_index + 1) * 2 * 2);
    }

    let events = midi.run();
    // global order: by due tick, ties resolved to the lower track index;
    // due ticks per track are 4, 12, 24, 40, 60, 84
    assert_eq!(
        note_events(&events),
        vec![
            (0, true, 0),
            (1, true, 0),
            (2, true, 0),
            (0, false, 12),
            (1, false, 12),
            (2, false, 12),
            (1, true, 24),
            (2, true, 24),
            (1, false, 36),
            (2, false, 36),
            (2, true, 48),
            (2, false, 60),
        ]
    );
    // tick duration truncates to zero here, so every wait carries zero
    for event in &events {
        if let PlaybackEvent::Wait(micros) = event {
            assert_eq!(*micros, 0);
        }
    }
}

use midi_player::{DecodeError, Midi, MidiCommand};

// Build the example midi used across the decode tests: three tracks with
// one, two and three press/release pairs, all on note id 6, velocities
// 0, 12, 24, ..., delays 4, 8, 12, ... ticks, shared tempo 8 and sixteen
// ticks per quarter note.
fn create_test_midi_bytes() -> Vec<u8> {
    let mut test_midi_bytes: Vec<u8> = Vec::new();
    test_midi_bytes.extend_from_slice(&[0x4D, 0x54, 0x68, 0x64, 0x00, 0x00, 0x00, 0x06]);
    test_midi_bytes.extend_from_slice(&[0, 0]); // 2-byte file format
    test_midi_bytes.extend_from_slice(&[0, 3]); // 2-byte track count
    test_midi_bytes.extend_from_slice(&[0, 16]); // 2-byte delta time

    for track_index in 0..3u8 {
        test_midi_bytes.extend_from_slice(&[0x4D, 0x54, 0x72, 0x6B]);
        let mut track_bytes: Vec<u8> = Vec::new();
        // Set tempo.
        track_bytes.extend_from_slice(&[
            0,    // no delay
            0xFF, // meta event
            0x51, // set tempo
            3,    // data length
            0, 0, 8, // 3-byte tempo
        ]);
        // Press/release commands.
        for command_index in 0..(1 + track_index) * 2 {
            let status: u8 = if command_index % 2 == 0 {
                (0x09 << 4) ^ track_index // press on track
            } else {
                (0x08 << 4) ^ track_index // release on track
            };
            track_bytes.extend_from_slice(&[
                (command_index + 1) * 4, // delay
                status,
                6,                  // note id
                command_index * 12, // velocity
            ]);
        }
        // End of track.
        track_bytes.extend_from_slice(&[0, 0xFF, 0x2F, 0]);
        test_midi_bytes.extend_from_slice(&(track_bytes.len() as u32).to_be_bytes());
        test_midi_bytes.extend_from_slice(&track_bytes);
    }
    test_midi_bytes
}

#[test]
fn test_parse_example_midi() {
    // Parse example midi.
    let midi: Midi = Midi::from_content(create_test_midi_bytes()).unwrap();

    // Compare results.
    assert_eq!(midi.delta_time, 16);
    assert_eq!(midi.tempo, 8);
    assert_eq!(midi.tracks.len(), 3);
    for track_index in 0..3usize {
        let commands = &midi.tracks[track_index].0;
        // each note event is a synthetic delay command plus a key state
        assert_eq!(commands.len(), (track_index + 1) * 2 * 2);
        for command_index in 0..(track_index + 1) * 2 {
            match &commands[2 * command_index] {
                MidiCommand::Delay(ticks) => {
                    assert_eq!(*ticks, (command_index as u64 + 1) * 4);
                }
                _ => panic!("expected a delay command"),
            }
            match &commands[2 * command_index + 1] {
                MidiCommand::SetKeyState(note, pressed, velocity) => {
                    assert_eq!(note.note, 6);
                    assert_eq!(note.octave, -1);
                    assert_eq!(*pressed, command_index % 2 == 0);
                    assert_eq!(*velocity, command_index as u8 * 12);
                }
                _ => panic!("expected a key state command"),
            }
        }
    }
}

// One-track file with the given body bytes, declared track count one.
fn single_track_file(body: &[u8]) -> Vec<u8> {
    let mut bytes: Vec<u8> = Vec::new();
    bytes.extend_from_slice(&[0x4D, 0x54, 0x68, 0x64, 0x00, 0x00, 0x00, 0x06]);
    bytes.extend_from_slice(&[0, 0, 0, 1, 0, 16]);
    bytes.extend_from_slice(&[0x4D, 0x54, 0x72, 0x6B]);
    bytes.extend_from_slice(&(body.len() as u32).to_be_bytes());
    bytes.extend_from_slice(body);
    bytes
}

#[test]
fn vlq_zero_byte_decodes_to_zero() {
    // delay byte 0x00 decodes to 0
    let midi = Midi::from_content(single_track_file(&[
        0x00, 0x90, 6, 40, // delay 0, note on
        0, 0xFF, 0x2F, 0, // end of track
    ]))
    .unwrap();
    match &midi.tracks[0].0[0] {
        MidiCommand::Delay(ticks) => assert_eq!(*ticks, 0),
        _ => panic!("expected a delay command"),
    }
}

#[test]
fn vlq_two_bytes_decode_to_128() {
    // the two-byte sequence [0x81, 0x00] decodes to 128
    let midi = Midi::from_content(single_track_file(&[
        0x81, 0x00, 0x90, 6, 40, // delay 128, note on
        0, 0xFF, 0x2F, 0,
    ]))
    .unwrap();
    match &midi.tracks[0].0[0] {
        MidiCommand::Delay(ticks) => assert_eq!(*ticks, 128),
        _ => panic!("expected a delay command"),
    }
}

#[test]
fn vlq_single_byte_decodes_to_itself() {
    // any value below 0x80 decodes to itself in one byte
    let midi = Midi::from_content(single_track_file(&[
        0x7F, 0x90, 6, 40, // delay 127, note on
        0x23, 0x80, 6, 40, // delay 0x23, note off
        0, 0xFF, 0x2F, 0,
    ]))
    .unwrap();
    match &midi.tracks[0].0[0] {
        MidiCommand::Delay(ticks) => assert_eq!(*ticks, 0x7F),
        _ => panic!("expected a delay command"),
    }
    match &midi.tracks[0].0[2] {
        MidiCommand::Delay(ticks) => assert_eq!(*ticks, 0x23),
        _ => panic!("expected a delay command"),
    }
}

#[test]
fn header_round_trip() {
    // format 0, track count 3, ticks per quarter 16, three empty tracks
    let mut bytes: Vec<u8> = Vec::new();
    bytes.extend_from_slice(&[0x4D, 0x54, 0x68, 0x64, 0x00, 0x00, 0x00, 0x06]);
    bytes.extend_from_slice(&[0, 0, 0, 3, 0, 16]);
    for _ in 0..3 {
        bytes.extend_from_slice(&[0x4D, 0x54, 0x72, 0x6B, 0, 0, 0, 0]);
    }
    let midi = Midi::from_content(bytes).unwrap();
    assert_eq!(midi.delta_time, 16);
    assert_eq!(midi.tracks.len(), 3);
}

#[test]
fn tempo_last_write_wins() {
    // a single set-tempo with payload [0, 0, 8] yields tempo 8
    let midi = Midi::from_content(single_track_file(&[
        0, 0xFF, 0x51, 3, 0, 0, 8, // set tempo 8
        0, 0xFF, 0x2F, 0,
    ]))
    .unwrap();
    assert_eq!(midi.tempo, 8);

    // a later set-tempo overwrites an earlier one
    let midi = Midi::from_content(single_track_file(&[
        0, 0xFF, 0x51, 3, 0, 0, 8, // set tempo 8
        0, 0xFF, 0x51, 3, 0, 0, 50, // set tempo 50
        0, 0xFF, 0x2F, 0,
    ]))
    .unwrap();
    assert_eq!(midi.tempo, 50);
}

#[test]
fn default_tempo_without_tempo_event() {
    let midi = Midi::from_content(single_track_file(&[0, 0xFF, 0x2F, 0])).unwrap();
    assert_eq!(midi.tempo, 60);
}

#[test]
fn unknown_channel_command_is_fatal() {
    // high nibble 0xF (not 0xFF meta) aborts the whole decode
    let result = Midi::from_content(single_track_file(&[
        0, 0xF0, 0, 0, // unrecognized status byte
        0, 0xFF, 0x2F, 0,
    ]));
    assert!(matches!(result, Err(DecodeError::UnknownChannelCommand)));

    // a low high-nibble is just as unrecognizable
    let result = Midi::from_content(single_track_file(&[
        0, 0x35, 0, 0, // unrecognized status byte
        0, 0xFF, 0x2F, 0,
    ]));
    assert!(matches!(result, Err(DecodeError::UnknownChannelCommand)));
}

#[test]
fn malformed_header_is_fatal() {
    assert!(matches!(
        Midi::from_content(vec![]),
        Err(DecodeError::MalformedHeader)
    ));
    assert!(matches!(
        Midi::from_content(vec![0x4D, 0x54, 0x68]),
        Err(DecodeError::MalformedHeader)
    ));
    // wrong magic
    let mut bytes = single_track_file(&[0, 0xFF, 0x2F, 0]);
    bytes[0] = 0x4E;
    assert!(matches!(
        Midi::from_content(bytes),
        Err(DecodeError::MalformedHeader)
    ));
}

#[test]
fn truncated_event_is_fatal() {
    // note-on whose velocity byte is missing at the end of the buffer
    let mut bytes: Vec<u8> = Vec::new();
    bytes.extend_from_slice(&[0x4D, 0x54, 0x68, 0x64, 0x00, 0x00, 0x00, 0x06]);
    bytes.extend_from_slice(&[0, 0, 0, 1, 0, 16]);
    bytes.extend_from_slice(&[0x4D, 0x54, 0x72, 0x6B, 0, 0, 0, 8]);
    bytes.extend_from_slice(&[0, 0x90, 6]); // declared length 8, body cut short
    assert!(matches!(
        Midi::from_content(bytes),
        Err(DecodeError::Truncated)
    ));
}

#[test]
fn vlq_overflow_is_fatal() {
    // ten groups of maximal seven-bit digits exceed sixty-four bits
    let mut body: Vec<u8> = vec![0xFF; 10];
    body.push(0x7F);
    body.extend_from_slice(&[0x90, 6, 40, 0, 0xFF, 0x2F, 0]);
    assert!(matches!(
        Midi::from_content(single_track_file(&body)),
        Err(DecodeError::VlqOverflow)
    ));
}

#[test]
fn delay_overflow_is_fatal() {
    // a delay of u64::MAX, a skipped program change, then one more tick
    let mut body: Vec<u8> = vec![0x81];
    body.extend_from_slice(&[0xFF; 8]);
    body.push(0x7F); // variable-length encoding of u64::MAX
    body.push(0xC0); // program change, one operand byte
    body.push(0);
    body.extend_from_slice(&[0x01, 0x90, 6, 40]); // one more delay tick
    body.extend_from_slice(&[0, 0xFF, 0x2F, 0]);
    assert!(matches!(
        Midi::from_content(single_track_file(&body)),
        Err(DecodeError::DelayOverflow)
    ));
}

#[test]
fn missing_track_magic_stops_track_list_silently() {
    // declared count two, but the second track magic is absent
    let mut bytes: Vec<u8> = Vec::new();
    bytes.extend_from_slice(&[0x4D, 0x54, 0x68, 0x64, 0x00, 0x00, 0x00, 0x06]);
    bytes.extend_from_slice(&[0, 0, 0, 2, 0, 16]);
    bytes.extend_from_slice(&[0x4D, 0x54, 0x72, 0x6B, 0, 0, 0, 4]);
    bytes.extend_from_slice(&[0, 0xFF, 0x2F, 0]);
    bytes.extend_from_slice(&[9, 9, 9, 9, 9, 9, 9, 9, 9]); // junk, no magic
    let midi = Midi::from_content(bytes).unwrap();
    assert_eq!(midi.tracks.len(), 1);
}

#[test]
fn skipped_events_still_advance_the_delay() {
    // aftertouch and control events emit nothing but keep their ticks
    let midi = Midi::from_content(single_track_file(&[
        3, 0xA0, 1, 2, // key aftertouch, skipped
        4, 0xB0, 1, 2, // control change, skipped
        5, 0xC0, 1, // program change, skipped
        6, 0xD0, 1, // channel aftertouch, skipped
        7, 0xE0, 1, 2, // pitch bend, skipped
        8, 0x90, 6, 40, // note on after 3+4+5+6+7+8 ticks
        0, 0xFF, 0x2F, 0,
    ]))
    .unwrap();
    assert_eq!(midi.tracks[0].0.len(), 2);
    match &midi.tracks[0].0[0] {
        MidiCommand::Delay(ticks) => assert_eq!(*ticks, 33),
        _ => panic!("expected a delay command"),
    }
}

#[test]
fn unknown_meta_event_is_skipped() {
    let midi = Midi::from_content(single_track_file(&[
        0, 0xFF, 0x60, 2, 9, 9, // unrecognized meta type, payload skipped
        4, 0x90, 6, 40, 0, 0xFF, 0x2F, 0,
    ]))
    .unwrap();
    assert_eq!(midi.tracks[0].0.len(), 2);
}

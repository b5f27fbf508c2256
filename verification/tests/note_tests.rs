use midi_player::Note;

#[test]
fn note_from_low_id() {
    // ids below seven sit in octave -1 of the ten-entry table
    let note = Note::from_midi_id(6);
    assert_eq!(note.note, 6);
    assert_eq!(note.octave, -1);
    assert_eq!(note.name, "6-1");

    let note = Note::from_midi_id(0);
    assert_eq!(note.note, 0);
    assert_eq!(note.octave, -1);
    assert_eq!(note.name, "0-1");
}

#[test]
fn note_from_mid_and_high_ids() {
    let note = Note::from_midi_id(64);
    assert_eq!(note.note, 4);
    assert_eq!(note.octave, 5);
    assert_eq!(note.name, "45");

    let note = Note::from_midi_id(127);
    assert_eq!(note.note, 7);
    assert_eq!(note.octave, 12);
    assert_eq!(note.name, "712");
}

#[test]
fn note_new_combines_note_and_octave() {
    // note 7 in octave 13 is id 137 of the ten-entry table
    let note = Note::new(7, 13);
    assert_eq!(note.note, 7);
    assert_eq!(note.octave, 13);
    assert_eq!(note.name, "713");

    let note = Note::new(8, 2);
    assert_eq!(note.note, 8);
    assert_eq!(note.octave, 2);
    assert_eq!(note.name, "82");
}

#[test]
fn note_duplicate_copies_all_fields() {
    let note = Note::from_midi_id(42);
    let copy = note.duplicate();
    assert_eq!(copy.note, note.note);
    assert_eq!(copy.octave, note.octave);
    assert_eq!(copy.name, note.name);
}

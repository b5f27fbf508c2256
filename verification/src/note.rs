//! The note model: maps a numeric pitch identifier to a pitch-class/octave
//! pair together with a display name.
//!
//! The pitch-name table this model is built on has ten entries per octave
//! step rather than the usual twelve semitones; that quirk is part of the
//! design and is kept on purpose.

use vstd::prelude::*;
use vstd::string::StringExecFns;

verus! {

/// Number of entries in the pitch-name table (ten, by design).
pub const NOTE_CLASS_COUNT: u8 = 10;

/// Offset added to a pitch id before the octave division.
pub const OCTAVE_UP_NOTE_OFFSET: u8 = 3;

/// Mathematical model of a [`Note`].
pub ghost struct NoteV {
    pub note: u8,
    pub octave: i8,
    pub name: Seq<char>,
}

/// A pitch-class/octave pair derived from a numeric pitch id, with its
/// display name.
pub struct Note {
    /// Pitch class, in `0..10`.
    pub note: u8,
    /// Octave number; `-1` for the lowest ids.
    pub octave: i8,
    /// Display name: the pitch class digit followed by the octave in decimal.
    pub name: String,
}

impl View for Note {
    type V = NoteV;

    open spec fn view(&self) -> NoteV {
        NoteV { note: self.note, octave: self.octave, name: self.name@ }
    }
}

/// The decimal digit character for `d` in `0..=9`.
pub open spec fn digit_char(d: int) -> char {
    if d == 0 {
        '0'
    } else if d == 1 {
        '1'
    } else if d == 2 {
        '2'
    } else if d == 3 {
        '3'
    } else if d == 4 {
        '4'
    } else if d == 5 {
        '5'
    } else if d == 6 {
        '6'
    } else if d == 7 {
        '7'
    } else if d == 8 {
        '8'
    } else {
        '9'
    }
}

/// Decimal rendering of an octave number in `-9..=99`.
pub open spec fn octave_chars(o: int) -> Seq<char> {
    if o < 0 {
        seq!['-', digit_char(-o)]
    } else if o < 10 {
        seq![digit_char(o)]
    } else {
        seq![digit_char(o / 10), digit_char(o % 10)]
    }
}

/// Pitch class of a pitch id: the id modulo the table size.
pub open spec fn spec_pitch_class(id: u8) -> u8 {
    (id % 10) as u8
}

/// Octave of a pitch id: the offset id divided by the table size, less one.
pub open spec fn spec_octave(id: u8) -> i8 {
    ((id + 3) / 10 - 1) as i8
}

/// Display name of a note: pitch class digit, then the octave in decimal.
pub open spec fn spec_note_name(note: u8, octave: i8) -> Seq<char> {
    seq![digit_char(note as int)] + octave_chars(octave as int)
}

/// The note derived from a pitch id.
pub open spec fn spec_note(id: u8) -> NoteV {
    NoteV {
        note: spec_pitch_class(id),
        octave: spec_octave(id),
        name: spec_note_name(spec_pitch_class(id), spec_octave(id)),
    }
}

/// The one-character string for a decimal digit.
fn digit_str(d: u8) -> (r: &'static str)
    requires
        d < 10,
    ensures
        r@ == seq![digit_char(d as int)],
{
    let r: &'static str = if d == 0 {
        "0"
    } else if d == 1 {
        "1"
    } else if d == 2 {
        "2"
    } else if d == 3 {
        "3"
    } else if d == 4 {
        "4"
    } else if d == 5 {
        "5"
    } else if d == 6 {
        "6"
    } else if d == 7 {
        "7"
    } else if d == 8 {
        "8"
    } else {
        "9"
    };
    proof {
        reveal_strlit("0");
        reveal_strlit("1");
        reveal_strlit("2");
        reveal_strlit("3");
        reveal_strlit("4");
        reveal_strlit("5");
        reveal_strlit("6");
        reveal_strlit("7");
        reveal_strlit("8");
        reveal_strlit("9");
        assert(r@ =~= seq![digit_char(d as int)]);
    }
    r
}

impl Note {
    /// Create a new note from a pitch id.
    pub fn from_midi_id(id: u8) -> (r: Note)
        ensures
            r@ == spec_note(id),
    {
        let note: u8 = id % 10;
        let oct_div: u8 = ((id as u16 + 3) / 10) as u8;
        proof {
            assert(oct_div <= 25);
        }
        let octave: i8 = (oct_div as i8) - 1;
        let mut name: String = String::from_str(digit_str(note));
        if octave < 0 {
            proof {
                reveal_strlit("-");
            }
            name.append("-");
            name.append(digit_str(1));
            proof {
                assert(octave == -1);
            }
        } else if octave < 10 {
            name.append(digit_str(octave as u8));
        } else {
            name.append(digit_str((octave as u8) / 10));
            name.append(digit_str((octave as u8) % 10));
        }
        proof {
            assert(octave as int == spec_octave(id) as int);
            assert(name@ =~= spec_note_name(note, octave));
        }
        Note { note, octave, name }
    }

    /// An owned copy of this note, field for field.
    pub fn duplicate(&self) -> (r: Note)
        ensures
            r@ == self@,
    {
        Note { note: self.note, octave: self.octave, name: self.name.clone() }
    }

    /// Create a new note from pitch class and octave, by combining them into
    /// a pitch id and deriving the note from that id.
    pub fn new(note: u8, octave: u8) -> (r: Note)
        requires
            octave * 10 + note <= 255,
        ensures
            r@ == spec_note((octave * 10 + note) as u8),
    {
        Note::from_midi_id(octave * 10 + note)
    }
}

} // verus!

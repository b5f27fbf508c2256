//! Decoding of Standard MIDI File byte streams into an in-memory timeline of
//! note press/release commands, and a scheduler that merges the per-track
//! timelines into one chronologically ordered emission sequence.

pub mod note;
pub mod midi;
pub mod midi_parser;
pub mod schedule;

pub use midi::{CmdV, EventV, Midi, MidiCommand, MidiTrack, MidiV, PlaybackEvent, TrackIndex,
    Velocity};
pub use midi_parser::{DecodeError, MidiParser};
pub use note::{Note, NoteV};

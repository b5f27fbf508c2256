//! The event decoder: transforms a complete byte buffer into a [`Midi`]
//! aggregate in one pass, and the byte-cursor primitives it is built on.
//!
//! The wire format is specified by the `spec_parse_*` functions over the
//! byte sequence; [`MidiParser::parse`] is proved to return exactly what
//! they describe.

use vstd::prelude::*;
use crate::midi::{CmdV, Midi, MidiCommand, MidiTrack, MidiV};
use crate::note::{spec_note, Note};

verus! {

/// Tempo in microseconds per quarter note assumed until a "set tempo" meta
/// event is seen.
pub const DEFAULT_TEMPO: u32 = 60;

/// Why a decode failed. Every failure aborts the whole decode; no partial
/// aggregate is returned.
#[derive(Clone, Copy, PartialEq, Eq, Debug, Structural)]
pub enum DecodeError {
    /// The file or header magic, or one of the fixed header fields, is
    /// missing or wrong.
    MalformedHeader,
    /// A channel-voice status byte with an unrecognized high nibble: the
    /// operand width cannot be inferred, so the stream cannot be resumed.
    UnknownChannelCommand,
    /// A fixed- or known-width read ran past the end of the buffer.
    Truncated,
    /// A variable-length quantity does not fit in 64 bits.
    VlqOverflow,
    /// An accumulated delay does not fit in 64 bits.
    DelayOverflow,
}

/// The eight header magic bytes: `MThd` and the fixed length six.
pub open spec fn header_magic() -> Seq<u8> {
    seq![0x4Du8, 0x54u8, 0x68u8, 0x64u8, 0x00u8, 0x00u8, 0x00u8, 0x06u8]
}

/// The four track magic bytes: `MTrk`.
pub open spec fn track_magic() -> Seq<u8> {
    seq![0x4Du8, 0x54u8, 0x72u8, 0x6Bu8]
}

/// Big-endian value of the two bytes at `pos`.
pub open spec fn be16(bytes: Seq<u8>, pos: int) -> int {
    bytes[pos] * 0x100 + bytes[pos + 1]
}

/// Big-endian value of the three bytes at `pos`.
pub open spec fn be24(bytes: Seq<u8>, pos: int) -> int {
    bytes[pos] * 0x10000 + bytes[pos + 1] * 0x100 + bytes[pos + 2]
}

/// Big-endian value of the four bytes at `pos`.
pub open spec fn be32(bytes: Seq<u8>, pos: int) -> int {
    bytes[pos] * 0x1000000 + bytes[pos + 1] * 0x10000 + bytes[pos + 2] * 0x100 + bytes[pos + 3]
}

/// The views of a sequence of commands.
pub open spec fn cmds_view(cmds: Seq<MidiCommand>) -> Seq<CmdV> {
    cmds.map_values(|c: MidiCommand| c@)
}

/// Position just after the variable-length quantity starting at `pos`: one
/// past the first byte with a clear high bit; nothing if the buffer ends
/// first.
pub open spec fn vlq_end(bytes: Seq<u8>, pos: int) -> Option<int>
    decreases bytes.len() - pos,
{
    if pos < 0 || pos >= bytes.len() {
        None
    } else if bytes[pos] < 0x80 {
        Some(pos + 1)
    } else {
        vlq_end(bytes, pos + 1)
    }
}

/// The value of the seven-bit groups of the bytes in `pos..end`, assembled
/// most significant group first.
pub open spec fn vlq_value(bytes: Seq<u8>, pos: int, end: int) -> nat
    decreases end - pos,
{
    if end <= pos {
        0
    } else {
        (vlq_value(bytes, pos, end - 1) * 128 + (bytes[end - 1] % 0x80)) as nat
    }
}

/// A variable-length quantity spans at least one byte and ends within the
/// buffer.
pub proof fn lemma_vlq_end_bounds(bytes: Seq<u8>, pos: int)
    requires
        vlq_end(bytes, pos) is Some,
    ensures
        pos < vlq_end(bytes, pos).unwrap() <= bytes.len(),
    decreases bytes.len() - pos,
{
    if !(pos < 0 || pos >= bytes.len()) && !(bytes[pos] < 0x80) {
        lemma_vlq_end_bounds(bytes, pos + 1);
    }
}

/// A variable-length value never shrinks as more groups are included.
pub proof fn lemma_vlq_value_mono(bytes: Seq<u8>, pos: int, e1: int, e2: int)
    requires
        e1 <= e2,
    ensures
        vlq_value(bytes, pos, e1) <= vlq_value(bytes, pos, e2),
    decreases e2 - e1,
{
    if e1 < e2 && pos < e2 {
        lemma_vlq_value_mono(bytes, pos, e1, e2 - 1);
        assert(vlq_value(bytes, pos, e2 - 1) * 128 >= vlq_value(bytes, pos, e2 - 1));
    }
}

/// A byte below `0x80` is a whole variable-length quantity: it decodes to
/// itself in one byte.
pub proof fn lemma_vlq_single_byte(bytes: Seq<u8>, pos: int)
    requires
        0 <= pos < bytes.len(),
        bytes[pos] < 0x80,
    ensures
        vlq_end(bytes, pos) == Some(pos + 1),
        vlq_value(bytes, pos, pos + 1) == bytes[pos] as nat,
{
    assert(vlq_value(bytes, pos, pos) == 0);
}

/// Decoding a single track's events, from `pos` to the declared end `end`
/// or an end-of-track meta event, whichever comes first. `tempo` and the
/// pending delay accumulator are threaded through; decoded commands are
/// appended to `cmds`. Returns the position after the track, the tempo, and
/// the commands.
///
/// Every event is a variable-length delay followed by either a meta event
/// (`0xFF`, a type byte, a one-byte length, the payload) or a channel-voice
/// event (a status byte whose high nibble selects the operand width). Note
/// presses and releases append a synthetic delay command carrying the
/// accumulated ticks, then the key-state command; all other recognized
/// events only advance the accumulator.
pub open spec fn spec_parse_track_events(
    bytes: Seq<u8>,
    pos: int,
    end: int,
    tempo: u32,
    pending: nat,
    cmds: Seq<CmdV>,
) -> Result<(int, u32, Seq<CmdV>), DecodeError>
    decreases bytes.len() - pos,
{
    if pos < 0 || pos >= end {
        Ok((pos, tempo, cmds))
    } else {
        match vlq_end(bytes, pos) {
            None => Err(DecodeError::Truncated),
            Some(e) => {
                proof {
                    lemma_vlq_end_bounds(bytes, pos);
                }
                let dv = vlq_value(bytes, pos, e);
                if dv > u64::MAX as nat {
                    Err(DecodeError::VlqOverflow)
                } else if pending + dv > u64::MAX as nat {
                    Err(DecodeError::DelayOverflow)
                } else {
                    let pend2 = pending + dv;
                    if e + 1 < bytes.len() && bytes[e] == 0xFF {
                        // meta event: type byte, one-byte length, payload
                        let mtype = bytes[e + 1];
                        if e + 2 >= bytes.len() {
                            Err(DecodeError::Truncated)
                        } else {
                            let dlen = bytes[e + 2] as int;
                            if e + 3 + dlen > bytes.len() {
                                Err(DecodeError::Truncated)
                            } else {
                                let next = e + 3 + dlen;
                                if mtype == 0x2F {
                                    // end of track: stop at once, whatever remains declared
                                    Ok((next, tempo, cmds))
                                } else if mtype == 0x51 {
                                    // set tempo: three payload bytes, big endian; last write wins
                                    if dlen < 3 {
                                        Err(DecodeError::Truncated)
                                    } else {
                                        spec_parse_track_events(
                                            bytes,
                                            next,
                                            end,
                                            be24(bytes, e + 3) as u32,
                                            pend2,
                                            cmds,
                                        )
                                    }
                                } else {
                                    // every other meta type: payload skipped by its length
                                    spec_parse_track_events(bytes, next, end, tempo, pend2, cmds)
                                }
                            }
                        }
                    } else {
                        // channel-voice event
                        if e >= bytes.len() {
                            Err(DecodeError::Truncated)
                        } else {
                            let status = bytes[e];
                            let command = status / 16;
                            let opos = e + 1;
                            if command == 0x8 || command == 0x9 {
                                if opos + 2 > bytes.len() {
                                    Err(DecodeError::Truncated)
                                } else {
                                    let cmds2 = cmds + seq![
                                        CmdV::Delay(pend2 as u64),
                                        CmdV::SetKeyState(
                                            spec_note(bytes[opos]),
                                            command == 0x9,
                                            bytes[opos + 1],
                                        ),
                                    ];
                                    spec_parse_track_events(bytes, opos + 2, end, tempo, 0, cmds2)
                                }
                            } else if command == 0xA || command == 0xB || command == 0xE {
                                if opos + 2 > bytes.len() {
                                    Err(DecodeError::Truncated)
                                } else {
                                    spec_parse_track_events(bytes, opos + 2, end, tempo, pend2, cmds)
                                }
                            } else if command == 0xC || command == 0xD {
                                if opos + 1 > bytes.len() {
                                    Err(DecodeError::Truncated)
                                } else {
                                    spec_parse_track_events(bytes, opos + 1, end, tempo, pend2, cmds)
                                }
                            } else {
                                Err(DecodeError::UnknownChannelCommand)
                            }
                        }
                    }
                }
            },
        }
    }
}

/// Decoding of the track list: as long as the declared track count has not
/// been reached and the next four bytes are the track magic, read the
/// four-byte track length and decode the track body. A missing track magic
/// silently ends the list; this early-termination branch is deliberate.
pub open spec fn spec_parse_tracks(
    bytes: Seq<u8>,
    pos: int,
    count_left: int,
    tempo: u32,
    acc: Seq<Seq<CmdV>>,
) -> Result<(u32, Seq<Seq<CmdV>>), DecodeError>
    decreases count_left,
{
    if count_left <= 0 {
        Ok((tempo, acc))
    } else if !(pos + 4 < bytes.len() && bytes.subrange(pos, pos + 4) == track_magic()) {
        Ok((tempo, acc))
    } else if pos + 8 > bytes.len() {
        Err(DecodeError::Truncated)
    } else {
        let tlen = be32(bytes, pos + 4);
        let tstart = pos + 8;
        match spec_parse_track_events(bytes, tstart, tstart + tlen, tempo, 0, Seq::empty()) {
            Err(e) => Err(e),
            Ok((p2, tempo2, cmds)) => spec_parse_tracks(
                bytes,
                p2,
                count_left - 1,
                tempo2,
                acc.push(cmds),
            ),
        }
    }
}

/// Decoding of a whole file: the eight magic bytes, the three fixed header
/// fields (format, track count, ticks per quarter), then the track list.
/// A buffer too short for the header, or with the wrong magic, is a
/// malformed header.
pub open spec fn spec_parse_midi(bytes: Seq<u8>) -> Result<MidiV, DecodeError> {
    if bytes.len() < 14 || bytes.subrange(0, 8) != header_magic() {
        Err(DecodeError::MalformedHeader)
    } else {
        let count = be16(bytes, 10);
        let delta_time = be16(bytes, 12) as u32;
        match spec_parse_tracks(bytes, 14, count, DEFAULT_TEMPO, Seq::empty()) {
            Err(e) => Err(e),
            Ok((tempo, tracks)) => Ok(MidiV { tempo, delta_time, tracks }),
        }
    }
}

/// A forward-only reader over an immutable byte buffer, and the decoder
/// built on it.
pub struct MidiParser {
    /// The whole buffer being decoded.
    pub bytes: Vec<u8>,
    /// The buffer's length.
    pub bytes_size: usize,
    /// The read position; never moves backward.
    pub cursor: usize,
}

impl MidiParser {
    /// The recorded size matches the buffer and the cursor is inside it.
    pub open spec fn wf(&self) -> bool {
        &&& self.bytes_size == self.bytes@.len()
        &&& self.cursor <= self.bytes_size
    }

    /// Create a new midi parser from midi file content.
    pub fn new(content: Vec<u8>) -> (p: MidiParser)
        ensures
            p.wf(),
            p.bytes@ == content@,
            p.cursor == 0,
    {
        let bytes_size: usize = content.len();
        MidiParser { bytes: content, bytes_size, cursor: 0 }
    }

    /// Take one byte and advance, or fail on a buffer that ends here.
    fn take_one(&mut self) -> (r: Result<u8, DecodeError>)
        requires
            old(self).wf(),
        ensures
            final(self).wf(),
            final(self).bytes@ == old(self).bytes@,
            old(self).cursor < old(self).bytes@.len() ==> r == Ok::<u8, DecodeError>(
                old(self).bytes@[old(self).cursor as int],
            ) && final(self).cursor == old(self).cursor + 1,
            old(self).cursor >= old(self).bytes@.len() ==> r == Err::<u8, DecodeError>(
                DecodeError::Truncated,
            ) && final(self).cursor == old(self).cursor,
    {
        if self.cursor < self.bytes_size {
            let b = self.bytes[self.cursor];
            self.cursor = self.cursor + 1;
            Ok(b)
        } else {
            Err(DecodeError::Truncated)
        }
    }

    /// Take the next `n` bytes and advance, or fail on a buffer too short.
    fn take(&mut self, n: usize) -> (r: Result<Vec<u8>, DecodeError>)
        requires
            old(self).wf(),
        ensures
            final(self).wf(),
            final(self).bytes@ == old(self).bytes@,
            old(self).cursor + n <= old(self).bytes@.len() ==> {
                &&& r matches Ok(v) && v@ == old(self).bytes@.subrange(
                    old(self).cursor as int,
                    old(self).cursor + n,
                )
                &&& final(self).cursor == old(self).cursor + n
            },
            old(self).cursor + n > old(self).bytes@.len() ==> r == Err::<Vec<u8>, DecodeError>(
                DecodeError::Truncated,
            ) && final(self).cursor == old(self).cursor,
    {
        if n > self.bytes_size - self.cursor {
            return Err(DecodeError::Truncated);
        }
        let start = self.cursor;
        let mut v: Vec<u8> = Vec::new();
        let mut i: usize = 0;
        while i < n
            invariant
                self.wf(),
                i <= n,
                start + n <= self.bytes@.len(),
                self.cursor == start,
                v@ == self.bytes@.subrange(start as int, start + i),
            decreases n - i,
        {
            let b = self.bytes[start + i];
            v.push(b);
            i = i + 1;
            proof {
                assert(v@ =~= self.bytes@.subrange(start as int, start + i));
            }
        }
        self.cursor = start + n;
        Ok(v)
    }

    /// Peek `expected.len()` bytes: when the cursor plus that length is
    /// strictly inside the buffer and the bytes match, consume them and
    /// report success; otherwise leave the cursor untouched.
    fn take_conditional(&mut self, expected: &Vec<u8>) -> (took: bool)
        requires
            old(self).wf(),
        ensures
            final(self).wf(),
            final(self).bytes@ == old(self).bytes@,
            took == (old(self).cursor + expected@.len() < old(self).bytes@.len() && old(
                self,
            ).bytes@.subrange(
                old(self).cursor as int,
                old(self).cursor + expected@.len(),
            ) == expected@),
            took ==> final(self).cursor == old(self).cursor + expected@.len(),
            !took ==> final(self).cursor == old(self).cursor,
    {
        let n = expected.len();
        if n >= self.bytes_size - self.cursor {
            proof {
                assert(!(self.cursor + expected@.len() < self.bytes@.len()));
            }
            return false;
        }
        let start = self.cursor;
        let mut i: usize = 0;
        while i < n
            invariant
                self.wf(),
                i <= n,
                n == expected@.len(),
                start == self.cursor,
                start + n < self.bytes@.len(),
                forall|k: int| 0 <= k < i ==> self.bytes@[start + k] == expected@[k],
            decreases n - i,
        {
            if self.bytes[start + i] != expected[i] {
                proof {
                    assert(self.bytes@.subrange(start as int, start + n)[i as int] != expected@[i as int]);
                }
                return false;
            }
            i = i + 1;
        }
        proof {
            assert(self.bytes@.subrange(start as int, start + n) =~= expected@);
        }
        self.cursor = start + n;
        true
    }

    /// Take two bytes as a big-endian sixteen-bit value.
    fn take_u16(&mut self) -> (r: Result<u16, DecodeError>)
        requires
            old(self).wf(),
        ensures
            final(self).wf(),
            final(self).bytes@ == old(self).bytes@,
            old(self).cursor + 2 <= old(self).bytes@.len() ==> {
                &&& r matches Ok(v) && v as int == be16(old(self).bytes@, old(self).cursor as int)
                &&& final(self).cursor == old(self).cursor + 2
            },
            old(self).cursor + 2 > old(self).bytes@.len() ==> r == Err::<u16, DecodeError>(
                DecodeError::Truncated,
            ),
    {
        if 2 > self.bytes_size - self.cursor {
            return Err(DecodeError::Truncated);
        }
        let b0 = self.bytes[self.cursor];
        let b1 = self.bytes[self.cursor + 1];
        self.cursor = self.cursor + 2;
        Ok((b0 as u16) * 0x100 + (b1 as u16))
    }

    /// Take four bytes as a big-endian thirty-two-bit value.
    fn take_u32(&mut self) -> (r: Result<u32, DecodeError>)
        requires
            old(self).wf(),
        ensures
            final(self).wf(),
            final(self).bytes@ == old(self).bytes@,
            old(self).cursor + 4 <= old(self).bytes@.len() ==> {
                &&& r matches Ok(v) && v as int == be32(old(self).bytes@, old(self).cursor as int)
                &&& final(self).cursor == old(self).cursor + 4
            },
            old(self).cursor + 4 > old(self).bytes@.len() ==> r == Err::<u32, DecodeError>(
                DecodeError::Truncated,
            ),
    {
        if 4 > self.bytes_size - self.cursor {
            return Err(DecodeError::Truncated);
        }
        let b0 = self.bytes[self.cursor];
        let b1 = self.bytes[self.cursor + 1];
        let b2 = self.bytes[self.cursor + 2];
        let b3 = self.bytes[self.cursor + 3];
        self.cursor = self.cursor + 4;
        Ok((b0 as u32) * 0x1000000 + (b1 as u32) * 0x10000 + (b2 as u32) * 0x100 + (b3 as u32))
    }

    /// Take the bytes of one variable-length quantity, keeping the low
    /// seven bits of each: bytes are consumed through the first one whose
    /// high bit is clear.
    fn take_vl(&mut self) -> (r: Result<Vec<u8>, DecodeError>)
        requires
            old(self).wf(),
        ensures
            final(self).wf(),
            final(self).bytes@ == old(self).bytes@,
            vlq_end(old(self).bytes@, old(self).cursor as int) matches Some(e) ==> (r matches Ok(g)
                && g@.len() == e - old(self).cursor && final(self).cursor == e && forall|k: int|
                0 <= k < g@.len() ==> g@[k] == old(self).bytes@[old(self).cursor + k] % 0x80),
            vlq_end(old(self).bytes@, old(self).cursor as int) is None ==> r == Err::<
                Vec<u8>,
                DecodeError,
            >(DecodeError::Truncated),
    {
        let ghost bytes = self.bytes@;
        let ghost start = self.cursor as int;
        let mut groups: Vec<u8> = Vec::new();
        let mut more: bool = true;
        while more
            invariant
                self.wf(),
                self.bytes@ == bytes,
                bytes == old(self).bytes@,
                start == old(self).cursor,
                start + groups@.len() == self.cursor,
                forall|k: int| 0 <= k < groups@.len() ==> groups@[k] == bytes[start + k] % 0x80,
                more ==> vlq_end(bytes, start) == vlq_end(bytes, self.cursor as int),
                !more ==> vlq_end(bytes, start) == Some(self.cursor as int),
            decreases self.bytes@.len() - self.cursor,
        {
            let ghost cur0 = self.cursor as int;
            match self.take_one() {
                Err(_) => {
                    proof {
                        assert(vlq_end(bytes, cur0) is None);
                    }
                    return Err(DecodeError::Truncated);
                },
                Ok(b) => {
                    groups.push(b % 0x80);
                    more = b >= 0x80;
                },
            }
        }
        Ok(groups)
    }

    /// Take one variable-length quantity as a sixty-four-bit value; fail
    /// when the value does not fit.
    fn take_vl_int(&mut self) -> (r: Result<u64, DecodeError>)
        requires
            old(self).wf(),
        ensures
            final(self).wf(),
            final(self).bytes@ == old(self).bytes@,
            vlq_end(old(self).bytes@, old(self).cursor as int) matches Some(e) ==> {
                let value = vlq_value(old(self).bytes@, old(self).cursor as int, e);
                &&& value <= u64::MAX as nat ==> r == Ok::<u64, DecodeError>(value as u64)
                    && final(self).cursor == e
                &&& value > u64::MAX as nat ==> r == Err::<u64, DecodeError>(
                    DecodeError::VlqOverflow,
                )
            },
            vlq_end(old(self).bytes@, old(self).cursor as int) is None ==> r == Err::<
                u64,
                DecodeError,
            >(DecodeError::Truncated),
    {
        let ghost bytes = self.bytes@;
        let ghost start = self.cursor as int;
        let groups = match self.take_vl() {
            Ok(g) => g,
            Err(e) => {
                return Err(e);
            },
        };
        let ghost e = vlq_end(bytes, start).unwrap();
        let n = groups.len();
        let mut value: u64 = 0;
        let mut i: usize = 0;
        while i < n
            invariant
                self.wf(),
                self.bytes@ == bytes,
                bytes == old(self).bytes@,
                start == old(self).cursor,
                self.cursor == e,
                vlq_end(bytes, start) == Some(e),
                n == groups@.len(),
                e == start + n,
                i <= n,
                forall|k: int| 0 <= k < n ==> groups@[k] == bytes[start + k] % 0x80,
                value as nat == vlq_value(bytes, start, start + i),
            decreases n - i,
        {
            let g = groups[i];
            proof {
                assert(g < 0x80);
                assert(vlq_value(bytes, start, start + i + 1) == vlq_value(bytes, start, start
                    + i) * 128 + (bytes[start + i] % 0x80));
            }
            if value > (u64::MAX - g as u64) / 128 {
                proof {
                    assert((value as nat) * 128 + g as nat > u64::MAX as nat) by (nonlinear_arith)
                        requires
                            value as nat > ((u64::MAX - g as u64) as nat) / 128,
                            g < 0x80,
                    ;
                    lemma_vlq_value_mono(bytes, start, start + i + 1, e);
                }
                return Err(DecodeError::VlqOverflow);
            }
            proof {
                assert((value as nat) * 128 + g as nat <= u64::MAX as nat) by (nonlinear_arith)
                    requires
                        value as nat <= ((u64::MAX - g as u64) as nat) / 128,
                        g < 0x80,
                ;
            }
            value = value * 128 + g as u64;
            i = i + 1;
        }
        Ok(value)
    }

    /// Parse one channel-voice event after its status byte: note releases
    /// (high nibble eight) and presses (nine) append a synthetic delay
    /// command carrying the accumulated ticks and then the key-state
    /// command, and reset the accumulator; aftertouch, control, program and
    /// pitch events consume their fixed operand width and emit nothing; any
    /// other high nibble is fatal.
    fn parse_event(
        &mut self,
        command: u8,
        _midi_channel: u8,
        pending: &mut u64,
        track_data: &mut Vec<MidiCommand>,
    ) -> (r: Result<(), DecodeError>)
        requires
            old(self).wf(),
        ensures
            final(self).wf(),
            final(self).bytes@ == old(self).bytes@,
            ({
                let bytes = old(self).bytes@;
                let pos = old(self).cursor as int;
                if command == 0x8 || command == 0x9 {
                    if pos + 2 <= bytes.len() {
                        &&& r == Ok::<(), DecodeError>(())
                        &&& final(self).cursor == pos + 2
                        &&& cmds_view(final(track_data)@) == cmds_view(old(track_data)@) + seq![
                            CmdV::Delay(*old(pending)),
                            CmdV::SetKeyState(
                                spec_note(bytes[pos]),
                                command == 0x9,
                                bytes[pos + 1],
                            ),
                        ]
                        &&& *final(pending) == 0
                    } else {
                        &&& r == Err::<(), DecodeError>(DecodeError::Truncated)
                        &&& final(track_data)@ == old(track_data)@
                        &&& *final(pending) == *old(pending)
                    }
                } else if command == 0xA || command == 0xB || command == 0xE {
                    &&& final(track_data)@ == old(track_data)@
                    &&& *final(pending) == *old(pending)
                    &&& if pos + 2 <= bytes.len() {
                        r == Ok::<(), DecodeError>(()) && final(self).cursor == pos + 2
                    } else {
                        r == Err::<(), DecodeError>(DecodeError::Truncated)
                    }
                } else if command == 0xC || command == 0xD {
                    &&& final(track_data)@ == old(track_data)@
                    &&& *final(pending) == *old(pending)
                    &&& if pos + 1 <= bytes.len() {
                        r == Ok::<(), DecodeError>(()) && final(self).cursor == pos + 1
                    } else {
                        r == Err::<(), DecodeError>(DecodeError::Truncated)
                    }
                } else {
                    &&& r == Err::<(), DecodeError>(DecodeError::UnknownChannelCommand)
                    &&& final(track_data)@ == old(track_data)@
                    &&& *final(pending) == *old(pending)
                }
            }),
    {
        let ghost data0 = track_data@;
        match command {
            0x08 | 0x09 => {
                // note release / note press
                let id = match self.take_one() {
                    Ok(b) => b,
                    Err(e) => {
                        return Err(e);
                    },
                };
                let velocity = match self.take_one() {
                    Ok(b) => b,
                    Err(e) => {
                        return Err(e);
                    },
                };
                track_data.push(MidiCommand::Delay(*pending));
                track_data.push(
                    MidiCommand::SetKeyState(Note::from_midi_id(id), command == 0x09, velocity),
                );
                *pending = 0;
                proof {
                    assert(cmds_view(track_data@) =~= cmds_view(data0) + seq![
                        CmdV::Delay(*old(pending)),
                        CmdV::SetKeyState(
                            spec_note(old(self).bytes@[old(self).cursor as int]),
                            command == 0x9,
                            old(self).bytes@[old(self).cursor + 1],
                        ),
                    ]);
                }
            },
            0x0A | 0x0B | 0x0E => {
                // aftertouch, control change, pitch bend: two operand bytes
                match self.take_one() {
                    Ok(_) => (),
                    Err(e) => {
                        return Err(e);
                    },
                };
                match self.take_one() {
                    Ok(_) => (),
                    Err(e) => {
                        return Err(e);
                    },
                };
            },
            0x0C | 0x0D => {
                // program change, channel aftertouch: one operand byte
                match self.take_one() {
                    Ok(_) => (),
                    Err(e) => {
                        return Err(e);
                    },
                };
            },
            _ => {
                // unrecognized command: the operand width is unknown
                return Err(DecodeError::UnknownChannelCommand);
            },
        }
        Ok(())
    }

    /// Act on one meta event whose payload has already been read: end of
    /// track stops the track, set tempo overwrites the tempo with the three
    /// big-endian payload bytes (last write wins across the whole file),
    /// and every other type is skipped without effect.
    fn parse_meta_event(
        command: u8,
        data: &Vec<u8>,
        continue_parsing_track: &mut bool,
        tempo: &mut u32,
    ) -> (r: Result<(), DecodeError>)
        ensures
            ({
                if command == 0x2F {
                    &&& r == Ok::<(), DecodeError>(())
                    &&& *final(continue_parsing_track) == false
                    &&& *final(tempo) == *old(tempo)
                } else if command == 0x51 {
                    &&& *final(continue_parsing_track) == *old(continue_parsing_track)
                    &&& if data@.len() >= 3 {
                        r == Ok::<(), DecodeError>(()) && *final(tempo) as int == data@[0] * 0x10000
                            + data@[1] * 0x100 + data@[2]
                    } else {
                        r == Err::<(), DecodeError>(DecodeError::Truncated) && *final(tempo)
                            == *old(tempo)
                    }
                } else {
                    &&& r == Ok::<(), DecodeError>(())
                    &&& *final(continue_parsing_track) == *old(continue_parsing_track)
                    &&& *final(tempo) == *old(tempo)
                }
            }),
    {
        match command {
            0x2F => {
                // end of track
                *continue_parsing_track = false;
            },
            0x51 => {
                // set tempo
                if data.len() < 3 {
                    return Err(DecodeError::Truncated);
                }
                *tempo = (data[0] as u32) * 0x10000 + (data[1] as u32) * 0x100 + (data[2] as u32);
            },
            _ => {
                // sequence numbers, texts, names, markers, signatures and
                // every unrecognized type: the explicit length let the
                // payload be skipped safely, nothing else to do
            },
        }
        Ok(())
    }

    /// Decode one track's events until its declared end or an end-of-track
    /// meta event, whichever comes first; set-tempo events overwrite
    /// `tempo`.
    fn parse_track(&mut self, end: u128, tempo: &mut u32) -> (r: Result<
        Vec<MidiCommand>,
        DecodeError,
    >)
        requires
            old(self).wf(),
        ensures
            final(self).wf(),
            final(self).bytes@ == old(self).bytes@,
            ({
                match spec_parse_track_events(
                    old(self).bytes@,
                    old(self).cursor as int,
                    end as int,
                    *old(tempo),
                    0,
                    Seq::empty(),
                ) {
                    Ok((p2, t2, cmds)) => r matches Ok(v) && cmds_view(v@) == cmds
                        && final(self).cursor == p2 && *final(tempo) == t2,
                    Err(e) => r == Err::<Vec<MidiCommand>, DecodeError>(e),
                }
            }),
    {
        let ghost bytes = old(self).bytes@;
        let ghost target = spec_parse_track_events(
            bytes,
            old(self).cursor as int,
            end as int,
            *old(tempo),
            0,
            Seq::empty(),
        );
        let mut track_data: Vec<MidiCommand> = Vec::new();
        let mut continue_parsing_track: bool = true;
        let mut pending: u64 = 0;
        let ff_marker: Vec<u8> = vec![0xFFu8];
        proof {
            assert(cmds_view(track_data@) =~= Seq::<CmdV>::empty());
        }
        while continue_parsing_track && (self.cursor as u128) < end
            invariant
                self.wf(),
                self.bytes@ == bytes,
                bytes == old(self).bytes@,
                target == spec_parse_track_events(
                    bytes,
                    old(self).cursor as int,
                    end as int,
                    *old(tempo),
                    0,
                    Seq::empty(),
                ),
                ff_marker@ =~= seq![0xFFu8],
                continue_parsing_track ==> spec_parse_track_events(
                    bytes,
                    self.cursor as int,
                    end as int,
                    *tempo,
                    pending as nat,
                    cmds_view(track_data@),
                ) == target,
                !continue_parsing_track ==> target == Ok::<(int, u32, Seq<CmdV>), DecodeError>(
                    (self.cursor as int, *tempo, cmds_view(track_data@)),
                ),
            decreases bytes.len() - self.cursor,
        {
            let ghost cur0 = self.cursor as int;
            let ghost tempo0 = *tempo;
            let ghost pend0 = pending as nat;
            let ghost cmds0 = cmds_view(track_data@);
            // ticks since the previous event of this track
            let delay_ticks = match self.take_vl_int() {
                Ok(d) => d,
                Err(err) => {
                    return Err(err);
                },
            };
            proof {
                lemma_vlq_end_bounds(bytes, cur0);
            }
            let ghost e = vlq_end(bytes, cur0).unwrap();
            // meta events and discarded events advance the accumulator too
            if delay_ticks > u64::MAX - pending {
                return Err(DecodeError::DelayOverflow);
            }
            pending = pending + delay_ticks;
            proof {
                if e + 1 < bytes.len() {
                    if bytes[e] == 0xFFu8 {
                        assert(bytes.subrange(e, e + 1) =~= seq![0xFFu8]);
                    } else {
                        assert(bytes.subrange(e, e + 1)[0] == bytes[e]);
                    }
                }
            }
            if self.take_conditional(&ff_marker) {
                // meta event: type byte, one-byte length, payload
                let command = match self.take_one() {
                    Ok(b) => b,
                    Err(_) => {
                        proof {
                            assert(false);
                        }
                        return Err(DecodeError::Truncated);
                    },
                };
                let data_length = match self.take_one() {
                    Ok(b) => b,
                    Err(err) => {
                        return Err(err);
                    },
                };
                let data = match self.take(data_length as usize) {
                    Ok(d) => d,
                    Err(err) => {
                        return Err(err);
                    },
                };
                match MidiParser::parse_meta_event(
                    command,
                    &data,
                    &mut continue_parsing_track,
                    tempo,
                ) {
                    Ok(_) => {
                        proof {
                            if command == 0x51 {
                                assert(data@[0] == bytes[e + 3]);
                                assert(data@[1] == bytes[e + 4]);
                                assert(data@[2] == bytes[e + 5]);
                            }
                        }
                    },
                    Err(err) => {
                        return Err(err);
                    },
                }
            } else {
                // channel-voice event
                let byte = match self.take_one() {
                    Ok(b) => b,
                    Err(err) => {
                        return Err(err);
                    },
                };
                let command = byte >> 4;
                let midi_channel = byte & 0x0F;
                proof {
                    assert(byte >> 4 == byte / 16) by (bit_vector);
                }
                match self.parse_event(command, midi_channel, &mut pending, &mut track_data) {
                    Ok(_) => (),
                    Err(err) => {
                        return Err(err);
                    },
                }
            }
        }
        Ok(track_data)
    }

    /// Parse the whole contents into a midi aggregate: verify the header
    /// chunk, read the fixed header fields, then decode tracks while the
    /// declared count has not been reached and the track magic matches.
    pub fn parse(self) -> (r: Result<Midi, DecodeError>)
        requires
            self.wf(),
            self.cursor == 0,
        ensures
            ({
                match spec_parse_midi(self.bytes@) {
                    Ok(mv) => r matches Ok(m) && m@ == mv,
                    Err(e) => r matches Err(e2) && e2 == e,
                }
            }),
    {
        let ghost bytes = self.bytes@;
        let mut p = self;
        // file header chunk: magic and fixed length six
        let header = match p.take(8) {
            Ok(h) => h,
            Err(_) => {
                return Err(DecodeError::MalformedHeader);
            },
        };
        let magic_ok = header[0] == 0x4D && header[1] == 0x54 && header[2] == 0x68 && header[3]
            == 0x64 && header[4] == 0x00 && header[5] == 0x00 && header[6] == 0x00 && header[7]
            == 0x06;
        if !magic_ok {
            proof {
                if bytes.subrange(0, 8) == header_magic() {
                    assert(header@[0] == 0x4Du8 && header@[1] == 0x54u8 && header@[2] == 0x68u8
                        && header@[3] == 0x64u8 && header@[4] == 0x00u8 && header@[5] == 0x00u8
                        && header@[6] == 0x00u8 && header@[7] == 0x06u8);
                }
            }
            return Err(DecodeError::MalformedHeader);
        }
        proof {
            assert(bytes.subrange(0, 8) =~= header_magic());
        }
        // fixed header fields: format (consumed, unused), track count,
        // ticks per quarter note
        let _file_format = match p.take_u16() {
            Ok(v) => v,
            Err(_) => {
                return Err(DecodeError::MalformedHeader);
            },
        };
        let track_count = match p.take_u16() {
            Ok(v) => v,
            Err(_) => {
                return Err(DecodeError::MalformedHeader);
            },
        };
        let delta_time16 = match p.take_u16() {
            Ok(v) => v,
            Err(_) => {
                return Err(DecodeError::MalformedHeader);
            },
        };
        let delta_time: u32 = delta_time16 as u32;
        let mut tempo: u32 = DEFAULT_TEMPO;
        let mut tracks: Vec<MidiTrack> = Vec::new();
        let track_marker: Vec<u8> = vec![0x4Du8, 0x54u8, 0x72u8, 0x6Bu8];
        let ghost ttarget = spec_parse_tracks(
            bytes,
            14,
            track_count as int,
            DEFAULT_TEMPO,
            Seq::empty(),
        );
        proof {
            assert(track_marker@ =~= track_magic());
            assert(tracks@.map_values(|t: MidiTrack| t@) =~= Seq::<Seq<CmdV>>::empty());
        }
        loop
            invariant
                p.wf(),
                p.bytes@ == bytes,
                bytes == self.bytes@,
                bytes.len() >= 14,
                bytes.subrange(0, 8) == header_magic(),
                track_count as int == be16(bytes, 10),
                delta_time as int == be16(bytes, 12),
                ttarget == spec_parse_tracks(
                    bytes,
                    14,
                    track_count as int,
                    DEFAULT_TEMPO,
                    Seq::empty(),
                ),
                track_marker@ == track_magic(),
                tracks@.len() <= track_count as int,
                spec_parse_tracks(
                    bytes,
                    p.cursor as int,
                    track_count as int - tracks@.len(),
                    tempo,
                    tracks@.map_values(|t: MidiTrack| t@),
                ) == ttarget,
            ensures
                ttarget == Ok::<(u32, Seq<Seq<CmdV>>), DecodeError>(
                    (tempo, tracks@.map_values(|t: MidiTrack| t@)),
                ),
            decreases track_count as int - tracks@.len(),
        {
            if tracks.len() >= track_count as usize {
                break ;
            }
            let ghost pos0 = p.cursor as int;
            if !p.take_conditional(&track_marker) {
                break ;
            }
            // the four-byte big-endian length of the track body
            let track_length = match p.take_u32() {
                Ok(v) => v,
                Err(err) => {
                    return Err(err);
                },
            };
            let end: u128 = (p.cursor as u128) + (track_length as u128);
            let ghost acc0 = tracks@.map_values(|t: MidiTrack| t@);
            let cmds = match p.parse_track(end, &mut tempo) {
                Ok(c) => c,
                Err(err) => {
                    return Err(err);
                },
            };
            tracks.push(MidiTrack(cmds));
            proof {
                assert(tracks@.map_values(|t: MidiTrack| t@) =~= acc0.push(cmds_view(cmds@)));
            }
        }
        Ok(Midi { tempo, delta_time, tracks })
    }
}

} // verus!

//! Compact, carrier-independent realtime payloads for Tutti sessions.
//!
//! Authentication, replay protection, fragmentation, clocks, and durable
//! confirmation belong to the surrounding session and carrier. This module owns
//! only bounded musical payloads. Round-table frames are embedded byte for byte.

use crate::bytes;
use crate::roundtable::codec as table;
use vstd::prelude::*;

verus! {

/// Compatibility generation for every payload accepted by [`decode`].
///
/// This advances whenever an existing realtime payload changes incompatibly.
/// Carriers must negotiate it before sending realtime frames; the four-byte
/// per-frame magics remain useful corruption and type guards, not negotiation.
pub const WIRE_GENERATION: u8 = 4;

pub const MIDI_FRAME_BYTES: usize = 4 + 1 + 4 + 1 + 1 + 2;

/// The size of the largest frame, which is that of the round table's largest.
pub const MAX_FRAME_BYTES: usize = table::MAX_FRAME_BYTES;

/// The bytes of `TMI1`.
pub const MIDI_MAGIC: [u8; 4] = [0x54, 0x4d, 0x49, 0x31];

#[derive(Clone, Copy, PartialEq, Eq, Debug, Structural)]
pub enum MidiKind {
    NoteOn,
    NoteOff,
    Choke,
    PolyPressure,
    PitchBend,
    ChannelPressure,
}

impl MidiKind {
    /// The byte that stands for the kind on the wire.
    pub open spec fn byte(self) -> u8 {
        match self {
            MidiKind::NoteOn => 1,
            MidiKind::NoteOff => 2,
            MidiKind::Choke => 3,
            MidiKind::PolyPressure => 4,
            MidiKind::PitchBend => 5,
            MidiKind::ChannelPressure => 6,
        }
    }

    pub fn to_byte(self) -> (byte: u8)
        ensures
            byte == self.byte(),
    {
        match self {
            MidiKind::NoteOn => 1,
            MidiKind::NoteOff => 2,
            MidiKind::Choke => 3,
            MidiKind::PolyPressure => 4,
            MidiKind::PitchBend => 5,
            MidiKind::ChannelPressure => 6,
        }
    }

    /// The kind that `byte` stands for.
    pub fn from_byte(byte: u8) -> (result: Result<Self, FrameError>)
        ensures
            match result {
                Ok(kind) => kind.byte() == byte,
                Err(_) => forall|kind: MidiKind| #[trigger] kind.byte() != byte,
            },
    {
        match byte {
            1 => Ok(MidiKind::NoteOn),
            2 => Ok(MidiKind::NoteOff),
            3 => Ok(MidiKind::Choke),
            4 => Ok(MidiKind::PolyPressure),
            5 => Ok(MidiKind::PitchBend),
            6 => Ok(MidiKind::ChannelPressure),
            _ => Err(FrameError::Malformed),
        }
    }
}

/// One MIDI-shaped transient event.
///
/// Sample offsets of an audio host are intentionally absent: they are local
/// scheduling metadata and have no stable meaning after radio or network
/// transit. Receivers schedule the event at their next safe boundary.
#[derive(Clone, Copy, PartialEq, Eq, Debug, Structural)]
pub struct MidiFrame {
    /// Voice identity, or `-1` when the source has none.
    pub voice_id: i32,
    pub channel: u8,
    pub note: u8,
    pub kind: MidiKind,
    /// Normalized 0..=65535 value for velocity, pressure, or pitch bend.
    pub value: u16,
}

/// A signed number as the unsigned one with the same bits.
pub open spec fn unsigned(x: i32) -> nat {
    if x >= 0 {
        x as nat
    } else {
        (x + 0x1_0000_0000) as nat
    }
}

impl MidiFrame {
    pub const NO_VOICE_ID: i32 = -1;

    pub open spec fn valid(self) -> bool {
        self.channel <= 15 && self.note <= 127
    }

    /// The frame with these fields, if MIDI has such a channel and key.
    pub fn from_value(voice_id: i32, channel: u8, note: u8, kind: MidiKind, value: u16) -> (result:
        Result<Self, FrameError>)
        ensures
            ({
                let frame = MidiFrame { voice_id, channel, note, kind, value };
                result == if frame.valid() {
                    Ok::<MidiFrame, FrameError>(frame)
                } else {
                    Err(FrameError::Malformed)
                }
            }),
    {
        let frame = MidiFrame { voice_id, channel, note, kind, value };
        match frame.validate() {
            Ok(_) => Ok(frame),
            Err(error) => Err(error),
        }
    }

    fn validate(self) -> (result: Result<(), FrameError>)
        ensures
            result == if self.valid() {
                Ok::<(), FrameError>(())
            } else {
                Err(FrameError::Malformed)
            },
    {
        if self.channel > 15 || self.note > 127 {
            return Err(FrameError::Malformed);
        }
        Ok(())
    }

    /// The frame on the wire.
    pub open spec fn encoded(self) -> Seq<u8> {
        MIDI_MAGIC@ + seq![self.kind.byte()] + bytes::be(unsigned(self.voice_id), 4) + seq![
            self.channel,
            self.note,
        ] + bytes::be(self.value as nat, 2)
    }
}

#[derive(Clone, Copy, PartialEq, Eq, Debug)]
pub enum Frame {
    Midi(MidiFrame),
    RoundTable(table::Frame),
}

impl Frame {
    /// The frame on the wire.
    pub open spec fn encoded(self) -> Seq<u8> {
        match self {
            Frame::Midi(midi) => midi.encoded(),
            Frame::RoundTable(frame) => frame.encoded(),
        }
    }

    pub open spec fn valid(self) -> bool {
        match self {
            Frame::Midi(midi) => midi.valid(),
            Frame::RoundTable(frame) => frame.valid(),
        }
    }
}

/// A frame on the wire, without heap allocation.
#[derive(Clone, Copy, PartialEq, Eq, Debug)]
pub struct EncodedFrame {
    frame: table::EncodedFrame,
}

impl View for EncodedFrame {
    type V = Seq<u8>;

    closed spec fn view(&self) -> Seq<u8> {
        self.frame@
    }
}

impl EncodedFrame {
    pub fn as_bytes(&self) -> (bytes: &[u8])
        ensures
            bytes@ == self@,
            bytes@.len() <= MAX_FRAME_BYTES,
    {
        self.frame.as_bytes()
    }
}

#[derive(Clone, Copy, PartialEq, Eq, Debug, Structural)]
pub enum FrameError {
    Malformed,
}

impl FrameError {
    pub fn message(&self) -> (message: &'static str)
        ensures
            message@ == "realtime frame is malformed"@,
    {
        "realtime frame is malformed"
    }
}

proof fn lemma_midi_fields(midi: MidiFrame)
    ensures
        ({
            let s = midi.encoded();
            &&& s.len() == MIDI_FRAME_BYTES
            &&& MIDI_MAGIC@.is_prefix_of(s)
            &&& s[4] == midi.kind.byte()
            &&& bytes::be_at(s, 5, 9) == unsigned(midi.voice_id)
            &&& s[9] == midi.channel
            &&& s[10] == midi.note
            &&& bytes::be_at(s, 11, 13) == midi.value
        }),
{
    let s = midi.encoded();
    let v = unsigned(midi.voice_id);
    bytes::lemma_be_ranges();
    bytes::lemma_be_len(v, 4);
    bytes::lemma_be_len(midi.value as nat, 2);
    bytes::lemma_be_round_trip(v, 4);
    bytes::lemma_be_round_trip(midi.value as nat, 2);
    assert(s.subrange(0, 4) =~= MIDI_MAGIC@);
    assert(s.subrange(5, 9) =~= bytes::be(v, 4));
    assert(s.subrange(11, 13) =~= bytes::be(midi.value as nat, 2));
}

/// Different realtime frames have different encodings, so that what decodes is
/// what was encoded; in particular a MIDI event is never taken for a round-table
/// frame.
pub proof fn law_frame_encoding_is_injective(a: Frame, b: Frame)
    requires
        a.encoded() == b.encoded(),
    ensures
        a == b,
{
    match (a, b) {
        (Frame::Midi(x), Frame::Midi(y)) => {
            lemma_midi_fields(x);
            lemma_midi_fields(y);
        },
        (Frame::RoundTable(x), Frame::RoundTable(y)) => {
            table::law_frame_encoding_is_injective(x, y);
        },
        (Frame::Midi(x), Frame::RoundTable(y)) => {
            lemma_magics_differ(x, y);
        },
        (Frame::RoundTable(y), Frame::Midi(x)) => {
            lemma_magics_differ(x, y);
        },
    }
}

proof fn lemma_magics_differ(x: MidiFrame, y: table::Frame)
    ensures
        x.encoded() != y.encoded(),
        x.encoded()[1] == 0x4d,
        y.encoded()[1] == 0x52,
{
    assert(x.encoded()[1] == MIDI_MAGIC@[1]);
    assert(y.encoded()[1] == table::MAGIC@[1]);
}

/// Encodes every round-table frame as it is, and every MIDI event that MIDI has.
pub fn encode(frame: Frame) -> (result: Result<EncodedFrame, FrameError>)
    ensures
        match result {
            Ok(encoded) => (frame is RoundTable || frame.valid()) && encoded@ == frame.encoded(),
            Err(error) => frame is Midi && !frame.valid(),
        },
{
    match frame {
        Frame::Midi(midi) => {
            match midi.validate() {
                Ok(_) => {},
                Err(error) => {
                    return Err(error);
                },
            }
            let mut out: Vec<u8> = bytes::to_vec(&MIDI_MAGIC);
            out.push(midi.kind.to_byte());
            let voice: u64 = if midi.voice_id >= 0 {
                midi.voice_id as u64
            } else {
                (midi.voice_id as i64 + 0x1_0000_0000) as u64
            };
            bytes::push_be(&mut out, voice, 4);
            out.push(midi.channel);
            out.push(midi.note);
            bytes::push_be(&mut out, midi.value as u64, 2);
            proof {
                assert(out@ =~= midi.encoded());
                lemma_midi_fields(midi);
            }
            Ok(EncodedFrame { frame: table::EncodedFrame::from_bytes(out.as_slice()) })
        },
        Frame::RoundTable(frame) => Ok(EncodedFrame { frame: table::encode(frame) }),
    }
}

/// Accepts exactly the encodings of valid frames.
pub fn decode(bytes: &[u8]) -> (result: Result<Frame, FrameError>)
    ensures
        match result {
            Ok(frame) => frame.valid() && bytes@ == frame.encoded(),
            Err(error) => forall|frame: Frame|
                frame.valid() ==> #[trigger] frame.encoded() != bytes@,
        },
{
    if !bytes::begins_with(bytes, &MIDI_MAGIC) {
        return match table::decode(bytes) {
            Ok(frame) => Ok(Frame::RoundTable(frame)),
            Err(_) => {
                proof {
                    assert forall|frame: Frame| frame.valid() implies #[trigger] frame.encoded()
                        != bytes@ by {
                        if let Frame::Midi(midi) = frame {
                            lemma_midi_fields(midi);
                        }
                    }
                }
                Err(FrameError::Malformed)
            },
        };
    }
    proof {
        assert forall|frame: Frame| frame is RoundTable implies #[trigger] frame.encoded()
            != bytes@ by {
            assert(bytes@[1] == MIDI_MAGIC@[1]);
            assert(frame.encoded()[1] == table::MAGIC@[1]);
        }
    }
    if bytes.len() != MIDI_FRAME_BYTES {
        proof {
            assert forall|frame: Frame| frame.valid() implies #[trigger] frame.encoded()
                != bytes@ by {
                if let Frame::Midi(midi) = frame {
                    lemma_midi_fields(midi);
                }
            }
        }
        return Err(FrameError::Malformed);
    }
    let kind: MidiKind = match MidiKind::from_byte(bytes[4]) {
        Ok(kind) => kind,
        Err(error) => {
            proof {
                assert forall|frame: Frame| frame.valid() implies #[trigger] frame.encoded()
                    != bytes@ by {
                    if let Frame::Midi(midi) = frame {
                        lemma_midi_fields(midi);
                        assert(midi.kind.byte() != bytes@[4]);
                    }
                }
            }
            return Err(error);
        },
    };
    let voice: u32 = bytes::read_u32(bytes, 5);
    let voice_id: i32 = if voice < 0x8000_0000 {
        voice as i32
    } else {
        (voice as i64 - 0x1_0000_0000) as i32
    };
    let midi = MidiFrame {
        kind,
        voice_id,
        channel: bytes[9],
        note: bytes[10],
        value: bytes::read_u16(bytes, 11),
    };
    proof {
        bytes::lemma_be_canonical(bytes@.subrange(5, 9));
        bytes::lemma_be_canonical(bytes@.subrange(11, 13));
        assert(unsigned(midi.voice_id) == voice);
        assert(bytes@ =~= midi.encoded());
    }
    match midi.validate() {
        Ok(_) => Ok(Frame::Midi(midi)),
        Err(error) => {
            proof {
                assert forall|frame: Frame| frame.valid() implies #[trigger] frame.encoded()
                    != bytes@ by {
                    if frame.encoded() == bytes@ {
                        law_frame_encoding_is_injective(frame, Frame::Midi(midi));
                    }
                }
            }
            Err(error)
        },
    }
}

/// Where every field of a MIDI frame stands. A negative voice is written as its
/// complement. A frame is valid where its channel and its note are MIDI's.
pub proof fn law_midi_frames_have_their_layout(frame: MidiFrame)
    ensures
        ({
            let s = frame.encoded();
            &&& s.len() == 13
            &&& s.subrange(0, 4) == seq![0x54u8, 0x4d, 0x49, 0x31]
            &&& s[4] == (match frame.kind {
                MidiKind::NoteOn => 1u8,
                MidiKind::NoteOff => 2,
                MidiKind::Choke => 3,
                MidiKind::PolyPressure => 4,
                MidiKind::PitchBend => 5,
                MidiKind::ChannelPressure => 6,
            })
            &&& frame.voice_id >= 0 ==> bytes::be_at(s, 5, 9) == frame.voice_id
            &&& frame.voice_id < 0 ==> bytes::be_at(s, 5, 9) == frame.voice_id + 0x1_0000_0000
            &&& s[9] == frame.channel
            &&& s[10] == frame.note
            &&& bytes::be_at(s, 11, 13) == frame.value
        }),
        frame.valid() <==> frame.channel <= 15 && frame.note <= 127,
{
    let s = frame.encoded();
    let voice = unsigned(frame.voice_id);
    bytes::lemma_be_ranges();
    bytes::lemma_be_len(voice, 4);
    bytes::lemma_be_len(frame.value as nat, 2);
    bytes::lemma_be_round_trip(voice, 4);
    bytes::lemma_be_round_trip(frame.value as nat, 2);
    assert(s.subrange(0, 4) =~= seq![0x54u8, 0x4d, 0x49, 0x31]);
    assert(s.subrange(5, 9) =~= bytes::be(voice, 4));
    assert(s.subrange(11, 13) =~= bytes::be(frame.value as nat, 2));
}

/// A realtime frame is a MIDI frame or one of the round table, written as such and
/// valid as such.
pub proof fn law_realtime_frames_are_of_two_kinds(midi: MidiFrame, frame: table::Frame)
    ensures
        Frame::Midi(midi).encoded() == midi.encoded(),
        Frame::Midi(midi).valid() == midi.valid(),
        Frame::RoundTable(frame).encoded() == frame.encoded(),
        Frame::RoundTable(frame).valid() == frame.valid(),
{
}

} // verus!

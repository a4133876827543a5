//! Round-table frames as bytes.

use crate::bytes;
use crate::music::pattern::RoundTablePattern;
use crate::music::roundtable::{RoundTableConfig, RoundTablePitchMode, RoundTableScale};
use crate::roundtable::participant::{ParticipantId, RunEpoch};
use crate::roundtable::run::RunState;
use vstd::prelude::*;

verus! {

/// The bytes of `TRT3`.
pub const MAGIC: [u8; 4] = [0x54, 0x52, 0x54, 0x33];

pub const KIND_RUN: u8 = 1;

pub const KIND_PULSE: u8 = 2;

pub const KIND_CONFIG: u8 = 3;

pub const CONFIG_BYTES: usize = 4 + 1 + 4 + 1 + 1 + 2 + 2 + 2 + 1 + 16;

pub const RUN_BYTES: usize = 4 + 1 + 8 + 32 + 8 + 32 + 1 + (CONFIG_BYTES - 5);

pub const PULSE_BYTES: usize = 4 + 1 + 8 + 32 + 4 + 32 + 4 + 2 + 2;

/// The size of the largest frame, which is that of a run.
pub const MAX_FRAME_BYTES: usize = RUN_BYTES;

/// A configuration intent or confirmation which does not alter run lifecycle.
/// The receiver authors or observes the durable value, then assigns its own
/// in-run `config_version` if a performance is active.
#[derive(Clone, Copy, PartialEq, Eq, Debug)]
pub struct ConfigState {
    pub config: RoundTableConfig,
}

#[derive(Clone, Copy, PartialEq, Eq, Debug)]
pub struct Pulse {
    pub epoch: RunEpoch,
    pub sequence: u32,
    pub target: ParticipantId,
    pub frequency_millihz: u32,
    pub level_per_mille: u16,
    pub duration_ms: u16,
}

#[derive(Clone, Copy, PartialEq, Eq, Debug)]
pub enum Frame {
    Run(RunState),
    Pulse(Pulse),
    Config(ConfigState),
}

#[derive(Clone, Copy, PartialEq, Eq, Debug, Structural)]
pub enum FrameError {
    Malformed,
}

impl FrameError {
    pub fn message(&self) -> (message: &'static str)
        ensures
            message@ == "round-table frame is malformed"@,
    {
        "round-table frame is malformed"
    }
}

/// The settings as bytes.
pub open spec fn config_bytes(config: RoundTableConfig) -> Seq<u8> {
    bytes::be(config.center_millihz as nat, 4) + seq![
        config.scale.number(),
        config.spread_semitones,
    ] + bytes::be(config.level_per_mille as nat, 2) + bytes::be(config.pulse_ms as nat, 2)
        + bytes::be(config.gap_ms as nat, 2) + seq![config.pitch_mode.number()] + bytes::be(
        config.pattern.word(0) as nat,
        8,
    ) + bytes::be(config.pattern.word(1) as nat, 8)
}

pub open spec fn epoch_bytes(epoch: RunEpoch) -> Seq<u8> {
    bytes::be(epoch.nonce as nat, 8) + epoch.origin@
}

impl Frame {
    pub open spec fn kind(self) -> u8 {
        match self {
            Frame::Run(_) => KIND_RUN,
            Frame::Pulse(_) => KIND_PULSE,
            Frame::Config(_) => KIND_CONFIG,
        }
    }

    pub open spec fn body(self) -> Seq<u8> {
        match self {
            Frame::Run(run) => epoch_bytes(run.epoch) + epoch_bytes(run.config_version) + seq![
                if run.running {
                    1u8
                } else {
                    0u8
                },
            ] + config_bytes(run.config),
            Frame::Pulse(pulse) => epoch_bytes(pulse.epoch) + bytes::be(pulse.sequence as nat, 4)
                + pulse.target@ + bytes::be(pulse.frequency_millihz as nat, 4) + bytes::be(
                pulse.level_per_mille as nat,
                2,
            ) + bytes::be(pulse.duration_ms as nat, 2),
            Frame::Config(state) => config_bytes(state.config),
        }
    }

    /// The frame on the wire.
    pub open spec fn encoded(self) -> Seq<u8> {
        MAGIC@ + seq![self.kind()] + self.body()
    }

    /// Whether the settings in the frame, if any, keep their rules.
    pub open spec fn valid(self) -> bool {
        match self {
            Frame::Run(run) => run.config.valid(),
            Frame::Pulse(_) => true,
            Frame::Config(state) => state.config.valid(),
        }
    }
}

/// A frame on the wire, without heap allocation.
#[derive(Clone, Copy, PartialEq, Eq, Debug)]
pub struct EncodedFrame {
    bytes: [u8; MAX_FRAME_BYTES],
    len: u8,
}

impl View for EncodedFrame {
    type V = Seq<u8>;

    closed spec fn view(&self) -> Seq<u8> {
        self.bytes@.subrange(0, self.len as int)
    }
}

impl EncodedFrame {
    #[verifier::type_invariant]
    spec fn in_bounds(self) -> bool {
        self.len <= MAX_FRAME_BYTES
    }

    pub(crate) fn from_bytes(bytes: &[u8]) -> (encoded: Self)
        requires
            bytes@.len() <= MAX_FRAME_BYTES,
        ensures
            encoded@ == bytes@,
    {
        let mut room: [u8; MAX_FRAME_BYTES] = [0u8; MAX_FRAME_BYTES];
        let mut i: usize = 0;
        while i < bytes.len()
            invariant
                i <= bytes@.len() <= MAX_FRAME_BYTES,
                forall|j: int| 0 <= j < i ==> room@[j] == bytes@[j],
            decreases bytes@.len() - i,
        {
            room[i] = bytes[i];
            i = i + 1;
        }
        assert(room@.subrange(0, bytes@.len() as int) =~= bytes@);
        EncodedFrame { bytes: room, len: bytes.len() as u8 }
    }

    pub fn as_bytes(&self) -> (bytes: &[u8])
        ensures
            bytes@ == self@,
            bytes@.len() <= MAX_FRAME_BYTES,
    {
        proof {
            use_type_invariant(self);
        }
        &self.bytes[0..self.len as usize]
    }
}

fn push_config(out: &mut Vec<u8>, config: RoundTableConfig)
    ensures
        final(out)@ == old(out)@ + config_bytes(config),
{
    bytes::push_be(out, config.center_millihz as u64, 4);
    out.push(config.scale.id());
    out.push(config.spread_semitones);
    bytes::push_be(out, config.level_per_mille as u64, 2);
    bytes::push_be(out, config.pulse_ms as u64, 2);
    bytes::push_be(out, config.gap_ms as u64, 2);
    out.push(config.pitch_mode.id());
    let pattern: [u64; 2] = config.pattern.words();
    bytes::push_be(out, pattern[0], 8);
    bytes::push_be(out, pattern[1], 8);
    assert(out@ =~= old(out)@ + config_bytes(config));
}

fn push_epoch(out: &mut Vec<u8>, epoch: RunEpoch)
    ensures
        final(out)@ == old(out)@ + epoch_bytes(epoch),
{
    bytes::push_be(out, epoch.nonce, 8);
    bytes::push_bytes(out, epoch.origin.as_bytes());
    assert(out@ =~= old(out)@ + epoch_bytes(epoch));
}

pub fn encode(frame: Frame) -> (encoded: EncodedFrame)
    ensures
        encoded@ == frame.encoded(),
{
    let mut out: Vec<u8> = bytes::to_vec(&MAGIC);
    match frame {
        Frame::Run(run) => {
            out.push(KIND_RUN);
            push_epoch(&mut out, run.epoch);
            push_epoch(&mut out, run.config_version);
            out.push(
                if run.running {
                    1u8
                } else {
                    0u8
                },
            );
            push_config(&mut out, run.config);
        },
        Frame::Pulse(pulse) => {
            out.push(KIND_PULSE);
            push_epoch(&mut out, pulse.epoch);
            bytes::push_be(&mut out, pulse.sequence as u64, 4);
            bytes::push_bytes(&mut out, pulse.target.as_bytes());
            bytes::push_be(&mut out, pulse.frequency_millihz as u64, 4);
            bytes::push_be(&mut out, pulse.level_per_mille as u64, 2);
            bytes::push_be(&mut out, pulse.duration_ms as u64, 2);
        },
        Frame::Config(state) => {
            out.push(KIND_CONFIG);
            push_config(&mut out, state.config);
        },
    }
    proof {
        assert(out@ =~= frame.encoded());
        lemma_frame_fields(frame);
    }
    EncodedFrame::from_bytes(out.as_slice())
}

proof fn lemma_config_fields(config: RoundTableConfig)
    ensures
        ({
            let s = config_bytes(config);
            &&& s.len() == CONFIG_BYTES - 5
            &&& bytes::be_at(s, 0, 4) == config.center_millihz
            &&& s[4] == config.scale.number()
            &&& s[5] == config.spread_semitones
            &&& bytes::be_at(s, 6, 8) == config.level_per_mille
            &&& bytes::be_at(s, 8, 10) == config.pulse_ms
            &&& bytes::be_at(s, 10, 12) == config.gap_ms
            &&& s[12] == config.pitch_mode.number()
            &&& bytes::be_at(s, 13, 21) == config.pattern.word(0)
            &&& bytes::be_at(s, 21, 29) == config.pattern.word(1)
        }),
{
    let s = config_bytes(config);
    let (a, b, c, d) = (
        config.center_millihz as nat,
        config.level_per_mille as nat,
        config.pulse_ms as nat,
        config.gap_ms as nat,
    );
    let (v, w) = (config.pattern.word(0) as nat, config.pattern.word(1) as nat);
    bytes::lemma_be_ranges();
    bytes::lemma_be_len(a, 4);
    bytes::lemma_be_len(b, 2);
    bytes::lemma_be_len(c, 2);
    bytes::lemma_be_len(d, 2);
    bytes::lemma_be_len(v, 8);
    bytes::lemma_be_len(w, 8);
    bytes::lemma_be_round_trip(a, 4);
    bytes::lemma_be_round_trip(b, 2);
    bytes::lemma_be_round_trip(c, 2);
    bytes::lemma_be_round_trip(d, 2);
    bytes::lemma_be_round_trip(v, 8);
    bytes::lemma_be_round_trip(w, 8);
    assert(s.subrange(0, 4) =~= bytes::be(a, 4));
    assert(s.subrange(6, 8) =~= bytes::be(b, 2));
    assert(s.subrange(8, 10) =~= bytes::be(c, 2));
    assert(s.subrange(10, 12) =~= bytes::be(d, 2));
    assert(s.subrange(13, 21) =~= bytes::be(v, 8));
    assert(s.subrange(21, 29) =~= bytes::be(w, 8));
}

/// Different settings have different bytes.
pub proof fn law_config_encoding_is_injective(a: RoundTableConfig, b: RoundTableConfig)
    requires
        config_bytes(a) == config_bytes(b),
    ensures
        a == b,
{
    lemma_config_fields(a);
    lemma_config_fields(b);
    RoundTablePattern::lemma_extensional(a.pattern, b.pattern);
}

/// Accepts exactly the bytes of settings that keep their rules.
fn decode_config(s: &[u8]) -> (result: Result<RoundTableConfig, FrameError>)
    ensures
        match result {
            Ok(config) => config.valid() && config_bytes(config) == s@,
            Err(error) => forall|config: RoundTableConfig|
                config.valid() ==> #[trigger] config_bytes(config) != s@,
        },
{
    if s.len() != CONFIG_BYTES - 5 {
        proof {
            assert forall|config: RoundTableConfig| config.valid() implies #[trigger] config_bytes(
                config,
            ) != s@ by {
                lemma_config_fields(config);
            }
        }
        return Err(FrameError::Malformed);
    }
    let pitch_mode: RoundTablePitchMode = match RoundTablePitchMode::from_id(s[12]) {
        Some(mode) => mode,
        None => {
            proof {
                assert forall|config: RoundTableConfig|
                    config.valid() implies #[trigger] config_bytes(config) != s@ by {
                    lemma_config_fields(config);
                    assert(config.pitch_mode.number() != s@[12]);
                }
            }
            return Err(FrameError::Malformed);
        },
    };
    let scale: RoundTableScale = match RoundTableScale::from_id(s[4]) {
        Some(scale) => scale,
        None => {
            proof {
                assert forall|config: RoundTableConfig|
                    config.valid() implies #[trigger] config_bytes(config) != s@ by {
                    lemma_config_fields(config);
                    assert(config.scale.number() != s@[4]);
                }
            }
            return Err(FrameError::Malformed);
        },
    };
    let config = RoundTableConfig {
        pitch_mode,
        pattern: RoundTablePattern::from_words([bytes::read_u64(s, 13), bytes::read_u64(s, 21)]),
        center_millihz: bytes::read_u32(s, 0),
        scale,
        spread_semitones: s[5],
        level_per_mille: bytes::read_u16(s, 6),
        pulse_ms: bytes::read_u16(s, 8),
        gap_ms: bytes::read_u16(s, 10),
    };
    proof {
        bytes::lemma_be_canonical(s@.subrange(0, 4));
        bytes::lemma_be_canonical(s@.subrange(6, 8));
        bytes::lemma_be_canonical(s@.subrange(8, 10));
        bytes::lemma_be_canonical(s@.subrange(10, 12));
        bytes::lemma_be_canonical(s@.subrange(13, 21));
        bytes::lemma_be_canonical(s@.subrange(21, 29));
        assert(config_bytes(config) =~= s@);
    }
    match config.validate() {
        Ok(config) => Ok(config),
        Err(_) => {
            proof {
                assert forall|other: RoundTableConfig| other.valid() implies #[trigger] config_bytes(
                    other,
                ) != s@ by {
                    if config_bytes(other) == s@ {
                        law_config_encoding_is_injective(other, config);
                    }
                }
            }
            Err(FrameError::Malformed)
        },
    }
}

proof fn lemma_epoch_fields(epoch: RunEpoch)
    ensures
        epoch_bytes(epoch).len() == 40,
        bytes::be_at(epoch_bytes(epoch), 0, 8) == epoch.nonce,
        epoch_bytes(epoch).subrange(8, 40) == epoch.origin@,
{
    epoch.origin.lemma_len();
    bytes::lemma_be_ranges();
    bytes::lemma_be_len(epoch.nonce as nat, 8);
    bytes::lemma_be_round_trip(epoch.nonce as nat, 8);
    assert(epoch_bytes(epoch).subrange(0, 8) =~= bytes::be(epoch.nonce as nat, 8));
    assert(epoch_bytes(epoch).subrange(8, 40) =~= epoch.origin@);
}

proof fn lemma_epoch_injective(a: RunEpoch, b: RunEpoch)
    requires
        epoch_bytes(a) == epoch_bytes(b),
    ensures
        a == b,
{
    lemma_epoch_fields(a);
    lemma_epoch_fields(b);
    ParticipantId::lemma_extensional(a.origin, b.origin);
}

/// Where the fields of a frame stand.
proof fn lemma_frame_fields(frame: Frame)
    ensures
        ({
            let s = frame.encoded();
            &&& MAGIC@.is_prefix_of(s)
            &&& s.len() <= MAX_FRAME_BYTES
            &&& s[4] == frame.kind()
            &&& match frame {
                Frame::Run(run) => {
                    &&& s.len() == RUN_BYTES
                    &&& s.subrange(5, 45) == epoch_bytes(run.epoch)
                    &&& s.subrange(45, 85) == epoch_bytes(run.config_version)
                    &&& s[85] == if run.running {
                        1u8
                    } else {
                        0u8
                    }
                    &&& s.subrange(86, 115) == config_bytes(run.config)
                },
                Frame::Pulse(pulse) => {
                    &&& s.len() == PULSE_BYTES
                    &&& s.subrange(5, 45) == epoch_bytes(pulse.epoch)
                    &&& bytes::be_at(s, 45, 49) == pulse.sequence
                    &&& s.subrange(49, 81) == pulse.target@
                    &&& bytes::be_at(s, 81, 85) == pulse.frequency_millihz
                    &&& bytes::be_at(s, 85, 87) == pulse.level_per_mille
                    &&& bytes::be_at(s, 87, 89) == pulse.duration_ms
                },
                Frame::Config(state) => {
                    &&& s.len() == CONFIG_BYTES
                    &&& s.subrange(5, 34) == config_bytes(state.config)
                },
            }
        }),
{
    let s = frame.encoded();
    assert(s.subrange(0, 4) =~= MAGIC@);
    match frame {
        Frame::Run(run) => {
            lemma_epoch_fields(run.epoch);
            lemma_epoch_fields(run.config_version);
            lemma_config_fields(run.config);
            assert(s.subrange(5, 45) =~= epoch_bytes(run.epoch));
            assert(s.subrange(45, 85) =~= epoch_bytes(run.config_version));
            assert(s.subrange(86, 115) =~= config_bytes(run.config));
        },
        Frame::Pulse(pulse) => {
            lemma_epoch_fields(pulse.epoch);
            pulse.target.lemma_len();
            bytes::lemma_be_ranges();
            bytes::lemma_be_len(pulse.sequence as nat, 4);
            bytes::lemma_be_len(pulse.frequency_millihz as nat, 4);
            bytes::lemma_be_len(pulse.level_per_mille as nat, 2);
            bytes::lemma_be_len(pulse.duration_ms as nat, 2);
            bytes::lemma_be_round_trip(pulse.sequence as nat, 4);
            bytes::lemma_be_round_trip(pulse.frequency_millihz as nat, 4);
            bytes::lemma_be_round_trip(pulse.level_per_mille as nat, 2);
            bytes::lemma_be_round_trip(pulse.duration_ms as nat, 2);
            assert(s.subrange(5, 45) =~= epoch_bytes(pulse.epoch));
            assert(s.subrange(45, 49) =~= bytes::be(pulse.sequence as nat, 4));
            assert(s.subrange(49, 81) =~= pulse.target@);
            assert(s.subrange(81, 85) =~= bytes::be(pulse.frequency_millihz as nat, 4));
            assert(s.subrange(85, 87) =~= bytes::be(pulse.level_per_mille as nat, 2));
            assert(s.subrange(87, 89) =~= bytes::be(pulse.duration_ms as nat, 2));
        },
        Frame::Config(state) => {
            lemma_config_fields(state.config);
            assert(s.subrange(5, 34) =~= config_bytes(state.config));
        },
    }
}

/// Different frames have different encodings, so that what decodes is what was
/// encoded.
pub proof fn law_frame_encoding_is_injective(a: Frame, b: Frame)
    requires
        a.encoded() == b.encoded(),
    ensures
        a == b,
{
    lemma_frame_fields(a);
    lemma_frame_fields(b);
    match (a, b) {
        (Frame::Run(x), Frame::Run(y)) => {
            lemma_epoch_injective(x.epoch, y.epoch);
            lemma_epoch_injective(x.config_version, y.config_version);
            law_config_encoding_is_injective(x.config, y.config);
        },
        (Frame::Pulse(x), Frame::Pulse(y)) => {
            lemma_epoch_injective(x.epoch, y.epoch);
            ParticipantId::lemma_extensional(x.target, y.target);
        },
        (Frame::Config(x), Frame::Config(y)) => {
            law_config_encoding_is_injective(x.config, y.config);
        },
        _ => {},
    }
}

fn read_epoch(s: &[u8], from: usize) -> (epoch: RunEpoch)
    requires
        from + 40 <= s@.len(),
    ensures
        epoch_bytes(epoch) == s@.subrange(from as int, from + 40),
{
    assert(s.len() == s@.len());
    let epoch = RunEpoch {
        nonce: bytes::read_u64(s, from),
        origin: ParticipantId::from_bytes(bytes::array_at::<32>(s, from + 8)),
    };
    proof {
        bytes::lemma_be_canonical(s@.subrange(from as int, from + 8));
        assert(epoch_bytes(epoch) =~= s@.subrange(from as int, from + 40));
    }
    epoch
}

/// Accepts exactly the encodings of valid frames.
pub fn decode(bytes: &[u8]) -> (result: Result<Frame, FrameError>)
    ensures
        match result {
            Ok(frame) => frame.valid() && bytes@ == frame.encoded(),
            Err(error) => forall|frame: Frame|
                frame.valid() ==> #[trigger] frame.encoded() != bytes@,
        },
{
    if bytes.len() < 5 || !bytes::begins_with(bytes, &MAGIC) {
        proof {
            assert forall|frame: Frame| frame.valid() implies #[trigger] frame.encoded()
                != bytes@ by {
                lemma_frame_fields(frame);
            }
        }
        return Err(FrameError::Malformed);
    }
    let kind: u8 = bytes[4];
    let len: usize = bytes.len();
    if kind == KIND_RUN && len == RUN_BYTES && (bytes[85] == 0 || bytes[85] == 1) {
        let config: RoundTableConfig = match decode_config(&bytes[86..115]) {
            Ok(config) => config,
            Err(error) => {
                proof {
                    assert forall|frame: Frame| frame.valid() implies #[trigger] frame.encoded()
                        != bytes@ by {
                        lemma_frame_fields(frame);
                    }
                }
                return Err(error);
            },
        };
        let frame = Frame::Run(
            RunState {
                epoch: read_epoch(bytes, 5),
                config_version: read_epoch(bytes, 45),
                running: bytes[85] == 1,
                config,
            },
        );
        assert(bytes@ =~= frame.encoded());
        return Ok(frame);
    }
    if kind == KIND_PULSE && len == PULSE_BYTES {
        let frame = Frame::Pulse(
            Pulse {
                epoch: read_epoch(bytes, 5),
                sequence: bytes::read_u32(bytes, 45),
                target: ParticipantId::from_bytes(bytes::array_at::<32>(bytes, 49)),
                frequency_millihz: bytes::read_u32(bytes, 81),
                level_per_mille: bytes::read_u16(bytes, 85),
                duration_ms: bytes::read_u16(bytes, 87),
            },
        );
        proof {
            bytes::lemma_be_canonical(bytes@.subrange(45, 49));
            bytes::lemma_be_canonical(bytes@.subrange(81, 85));
            bytes::lemma_be_canonical(bytes@.subrange(85, 87));
            bytes::lemma_be_canonical(bytes@.subrange(87, 89));
            assert(bytes@ =~= frame.encoded());
        }
        return Ok(frame);
    }
    if kind == KIND_CONFIG && len == CONFIG_BYTES {
        let config: RoundTableConfig = match decode_config(&bytes[5..CONFIG_BYTES]) {
            Ok(config) => config,
            Err(error) => {
                proof {
                    assert forall|frame: Frame| frame.valid() implies #[trigger] frame.encoded()
                        != bytes@ by {
                        lemma_frame_fields(frame);
                    }
                }
                return Err(error);
            },
        };
        let frame = Frame::Config(ConfigState { config });
        assert(bytes@ =~= frame.encoded());
        return Ok(frame);
    }
    proof {
        assert forall|frame: Frame| frame.valid() implies #[trigger] frame.encoded() != bytes@ by {
            lemma_frame_fields(frame);
        }
    }
    Err(FrameError::Malformed)
}

proof fn lemma_config_inside(s: Seq<u8>, base: int, config: RoundTableConfig)
    requires
        0 <= base,
        base + 29 <= s.len(),
        s.subrange(base, base + 29) == config_bytes(config),
    ensures
        bytes::be_at(s, base, base + 4) == config.center_millihz,
        s[base + 4] == config.scale.number(),
        s[base + 5] == config.spread_semitones,
        bytes::be_at(s, base + 6, base + 8) == config.level_per_mille,
        bytes::be_at(s, base + 8, base + 10) == config.pulse_ms,
        bytes::be_at(s, base + 10, base + 12) == config.gap_ms,
        s[base + 12] == config.pitch_mode.number(),
        bytes::be_at(s, base + 13, base + 21) == config.pattern.word(0),
        bytes::be_at(s, base + 21, base + 29) == config.pattern.word(1),
{
    lemma_config_fields(config);
    let inner = s.subrange(base, base + 29);
    assert(inner.subrange(0, 4) =~= s.subrange(base, base + 4));
    assert(inner[4] == s[base + 4]);
    assert(inner[5] == s[base + 5]);
    assert(inner.subrange(6, 8) =~= s.subrange(base + 6, base + 8));
    assert(inner.subrange(8, 10) =~= s.subrange(base + 8, base + 10));
    assert(inner.subrange(10, 12) =~= s.subrange(base + 10, base + 12));
    assert(inner[12] == s[base + 12]);
    assert(inner.subrange(13, 21) =~= s.subrange(base + 13, base + 21));
    assert(inner.subrange(21, 29) =~= s.subrange(base + 21, base + 29));
}

/// Where every field of a settings frame stands, after the magic and the kind.
pub proof fn law_settings_frames_have_their_layout(state: ConfigState)
    ensures
        ({
            let s = Frame::Config(state).encoded();
            &&& s.len() == 34
            &&& s.subrange(0, 5) == seq![0x54u8, 0x52, 0x54, 0x33, 3]
            &&& bytes::be_at(s, 5, 9) == state.config.center_millihz
            &&& s[9] == state.config.scale.number()
            &&& s[10] == state.config.spread_semitones
            &&& bytes::be_at(s, 11, 13) == state.config.level_per_mille
            &&& bytes::be_at(s, 13, 15) == state.config.pulse_ms
            &&& bytes::be_at(s, 15, 17) == state.config.gap_ms
            &&& s[17] == state.config.pitch_mode.number()
            &&& bytes::be_at(s, 18, 26) == state.config.pattern.word(0)
            &&& bytes::be_at(s, 26, 34) == state.config.pattern.word(1)
        }),
        Frame::Config(state).valid() == state.config.valid(),
{
    let s = Frame::Config(state).encoded();
    lemma_frame_fields(Frame::Config(state));
    lemma_config_inside(s, 5, state.config);
    assert(s.subrange(0, 5) =~= seq![0x54u8, 0x52, 0x54, 0x33, 3]);
}

/// Where every field of a run frame stands, after the magic and the kind.
pub proof fn law_run_frames_have_their_layout(run: RunState)
    ensures
        ({
            let s = Frame::Run(run).encoded();
            &&& s.len() == 115
            &&& s.subrange(0, 5) == seq![0x54u8, 0x52, 0x54, 0x33, 1]
            &&& bytes::be_at(s, 5, 13) == run.epoch.nonce
            &&& s.subrange(13, 45) == run.epoch.origin@
            &&& bytes::be_at(s, 45, 53) == run.config_version.nonce
            &&& s.subrange(53, 85) == run.config_version.origin@
            &&& run.running ==> s[85] == 1
            &&& !run.running ==> s[85] == 0
            &&& bytes::be_at(s, 86, 90) == run.config.center_millihz
            &&& s[90] == run.config.scale.number()
            &&& s[91] == run.config.spread_semitones
            &&& bytes::be_at(s, 92, 94) == run.config.level_per_mille
            &&& bytes::be_at(s, 94, 96) == run.config.pulse_ms
            &&& bytes::be_at(s, 96, 98) == run.config.gap_ms
            &&& s[98] == run.config.pitch_mode.number()
            &&& bytes::be_at(s, 99, 107) == run.config.pattern.word(0)
            &&& bytes::be_at(s, 107, 115) == run.config.pattern.word(1)
        }),
        Frame::Run(run).valid() == run.config.valid(),
{
    let s = Frame::Run(run).encoded();
    lemma_frame_fields(Frame::Run(run));
    lemma_epoch_fields(run.epoch);
    lemma_epoch_fields(run.config_version);
    lemma_config_inside(s, 86, run.config);
    let (p, q) = (s.subrange(5, 45), s.subrange(45, 85));
    assert(p.subrange(0, 8) =~= s.subrange(5, 13));
    assert(p.subrange(8, 40) =~= s.subrange(13, 45));
    assert(q.subrange(0, 8) =~= s.subrange(45, 53));
    assert(q.subrange(8, 40) =~= s.subrange(53, 85));
    assert(s.subrange(0, 5) =~= seq![0x54u8, 0x52, 0x54, 0x33, 1]);
}

/// Where every field of a pulse frame stands, after the magic and the kind.
pub proof fn law_pulse_frames_have_their_layout(pulse: Pulse)
    ensures
        ({
            let s = Frame::Pulse(pulse).encoded();
            &&& s.len() == 89
            &&& s.subrange(0, 5) == seq![0x54u8, 0x52, 0x54, 0x33, 2]
            &&& bytes::be_at(s, 5, 13) == pulse.epoch.nonce
            &&& s.subrange(13, 45) == pulse.epoch.origin@
            &&& bytes::be_at(s, 45, 49) == pulse.sequence
            &&& s.subrange(49, 81) == pulse.target@
            &&& bytes::be_at(s, 81, 85) == pulse.frequency_millihz
            &&& bytes::be_at(s, 85, 87) == pulse.level_per_mille
            &&& bytes::be_at(s, 87, 89) == pulse.duration_ms
        }),
        Frame::Pulse(pulse).valid(),
{
    let s = Frame::Pulse(pulse).encoded();
    lemma_frame_fields(Frame::Pulse(pulse));
    lemma_epoch_fields(pulse.epoch);
    let p = s.subrange(5, 45);
    assert(p.subrange(0, 8) =~= s.subrange(5, 13));
    assert(p.subrange(8, 40) =~= s.subrange(13, 45));
    assert(s.subrange(0, 5) =~= seq![0x54u8, 0x52, 0x54, 0x33, 2]);
}

} // verus!

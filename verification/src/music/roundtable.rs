//! Durable musical parameters for the round-table pulse performance.
//!
//! This module describes musical meaning only. Start/stop, the current turn,
//! deadlines, retries, membership, and packets are live session concerns and
//! deliberately do not appear in [`RoundTableConfig`].

use crate::bits;
use crate::music::pattern;
use crate::music::pattern::{RoundTablePattern, MAX_PATTERN_NOTES, MIDI_KEYS};
use crate::order;
use vstd::prelude::*;

verus! {

pub const MIN_PLAYABLE_MILLIHZ: u32 = 30_000;

pub const MAX_PLAYABLE_MILLIHZ: u32 = 240_000;

pub const MIN_CENTER_MILLIHZ: u32 = 60_000;

pub const MAX_CENTER_MILLIHZ: u32 = 120_000;

pub const MAX_SPREAD_SEMITONES: u8 = 12;

pub const MIN_PULSE_MS: u16 = 80;

pub const MAX_PULSE_MS: u16 = 2_000;

pub const MAX_GAP_MS: u16 = 2_000;

pub const MAX_LEVEL_PER_MILLE: u16 = 450;

pub const MIN_MIDI_MILLIHZ: u32 = 8_000;

pub const MAX_MIDI_MILLIHZ: u32 = 13_000_000;

/// How the round table chooses the next member of the shared note set.
///
/// Both modes use the same note set and register controls. The mode changes
/// ordering only; it never introduces a pitch class which is absent from the
/// set.
#[derive(Debug, Clone, Copy, PartialEq, Eq, PartialOrd, Ord, Structural)]
pub enum RoundTablePitchMode {
    Ascending,
    Random,
}

impl RoundTablePitchMode {
    pub open spec fn number(self) -> u8 {
        match self {
            RoundTablePitchMode::Ascending => 0,
            RoundTablePitchMode::Random => 1,
        }
    }

    pub fn id(self) -> (id: u8)
        ensures
            id == self.number(),
    {
        match self {
            RoundTablePitchMode::Ascending => 0,
            RoundTablePitchMode::Random => 1,
        }
    }

    /// The mode with this number, if there is one.
    pub fn from_id(id: u8) -> (mode: Option<Self>)
        ensures
            match mode {
                Some(mode) => mode.number() == id,
                None => forall|mode: RoundTablePitchMode| #[trigger] mode.number() != id,
            },
    {
        match id {
            0 => Some(RoundTablePitchMode::Ascending),
            1 => Some(RoundTablePitchMode::Random),
            _ => None,
        }
    }
}

/// Named note-set presets.
///
/// These masks are UI conveniences: applying one writes its notes into the
/// shared set. The pulse planner never treats this catalog as a second pitch
/// filter.
#[derive(Debug, Clone, Copy, PartialEq, Eq, PartialOrd, Ord, Structural)]
pub enum RoundTableScale {
    Root,
    MinorPentatonic,
    MajorPentatonic,
    NaturalMinor,
    Major,
    Dorian,
    Chromatic,
}

impl RoundTableScale {
    pub const ALL: [RoundTableScale; 7] = [
        RoundTableScale::Root,
        RoundTableScale::MinorPentatonic,
        RoundTableScale::MajorPentatonic,
        RoundTableScale::NaturalMinor,
        RoundTableScale::Major,
        RoundTableScale::Dorian,
        RoundTableScale::Chromatic,
    ];

    /// The semitones above the root, as bits.
    pub open spec fn semitones(self) -> u16 {
        match self {
            RoundTableScale::Root => 0x001,
            RoundTableScale::MinorPentatonic => 0x4a9,
            RoundTableScale::MajorPentatonic => 0x295,
            RoundTableScale::NaturalMinor => 0x5ad,
            RoundTableScale::Major => 0xab5,
            RoundTableScale::Dorian => 0x6ad,
            RoundTableScale::Chromatic => 0xfff,
        }
    }

    pub fn mask(self) -> (mask: u16)
        ensures
            mask == self.semitones(),
    {
        match self {
            RoundTableScale::Root => 0x001,
            RoundTableScale::MinorPentatonic => 0x4a9,
            RoundTableScale::MajorPentatonic => 0x295,
            RoundTableScale::NaturalMinor => 0x5ad,
            RoundTableScale::Major => 0xab5,
            RoundTableScale::Dorian => 0x6ad,
            RoundTableScale::Chromatic => 0xfff,
        }
    }

    pub open spec fn number(self) -> u8 {
        match self {
            RoundTableScale::Root => 0,
            RoundTableScale::MinorPentatonic => 1,
            RoundTableScale::MajorPentatonic => 2,
            RoundTableScale::NaturalMinor => 3,
            RoundTableScale::Major => 4,
            RoundTableScale::Dorian => 5,
            RoundTableScale::Chromatic => 6,
        }
    }

    pub fn id(self) -> (id: u8)
        ensures
            id == self.number(),
    {
        match self {
            RoundTableScale::Root => 0,
            RoundTableScale::MinorPentatonic => 1,
            RoundTableScale::MajorPentatonic => 2,
            RoundTableScale::NaturalMinor => 3,
            RoundTableScale::Major => 4,
            RoundTableScale::Dorian => 5,
            RoundTableScale::Chromatic => 6,
        }
    }

    /// The scale with this number, if there is one.
    pub fn from_id(id: u8) -> (scale: Option<Self>)
        ensures
            match scale {
                Some(scale) => scale.number() == id,
                None => forall|scale: RoundTableScale| #[trigger] scale.number() != id,
            },
    {
        match id {
            0 => Some(RoundTableScale::Root),
            1 => Some(RoundTableScale::MinorPentatonic),
            2 => Some(RoundTableScale::MajorPentatonic),
            3 => Some(RoundTableScale::NaturalMinor),
            4 => Some(RoundTableScale::Major),
            5 => Some(RoundTableScale::Dorian),
            6 => Some(RoundTableScale::Chromatic),
            _ => None,
        }
    }

    /// The keys of the scale on `root`.
    pub open spec fn keys(self, root: u8) -> Set<u8> {
        Set::new(
            |key: u8|
                root <= key < root + 12 && bits::bit16(self.semitones(), (key - root) as u16),
        )
    }

    /// Materialize this named preset into the one authoritative note set.
    ///
    /// `root` is the MIDI key used for degree zero. Applying a preset is an
    /// edit of the set, not a persistent filter on later pulse selection.
    pub fn pattern(self, root: u8) -> (result: Result<RoundTablePattern, RoundTableConfigError>)
        ensures
            pattern::edited(
                result,
                if forall|offset: u16|
                    offset < 12 && #[trigger] bits::bit16(self.semitones(), offset) ==> root
                        + offset < MIDI_KEYS {
                    Ok(self.keys(root))
                } else {
                    Err(RoundTableConfigError::Pattern)
                },
            ),
    {
        let mut pattern: RoundTablePattern = RoundTablePattern::default().cleared();
        let mask: u16 = self.mask();
        let mut offset: u8 = 0;
        let ghost below = |bound: int|
            Set::new(
                |key: u8| root <= key < root + bound && bits::bit16(mask, (key - root) as u16),
            );
        proof {
            assert(pattern@ =~= below(0));
            pattern::lemma_empty_population(128);
        }
        while offset < 12
            invariant
                offset <= 12,
                mask == self.semitones(),
                below == |bound: int|
                    Set::new(
                        |key: u8|
                            root <= key < root + bound && bits::bit16(mask, (key - root) as u16),
                    ),
                pattern@ == below(offset as int),
                pattern::ascending(pattern@).len() <= offset,
                forall|o: u16|
                    o < offset && #[trigger] bits::bit16(mask, o) ==> root + o < MIDI_KEYS,
            decreases 12 - offset,
        {
            proof {
                bits::lemma_bit16_test(mask, offset as u16);
            }
            if mask & (1u16 << (offset as u16)) != 0 {
                assert(bits::bit16(mask, offset as u16));
                let note: u8 = match root.checked_add(offset) {
                    Some(note) => note,
                    None => {
                        return Err(RoundTableConfigError::Pattern);
                    },
                };
                let ghost before = pattern@;
                pattern =
                match pattern.toggled(note) {
                    Ok(next) => next,
                    Err(error) => {
                        return Err(error);
                    },
                };
                proof {
                    pattern::lemma_population_insert(before, note, 128);
                    assert(pattern@ =~= below(offset + 1));
                }
            } else {
                assert(pattern@ =~= below(offset + 1));
            }
            offset = offset + 1;
        }
        assert(pattern@ =~= self.keys(root));
        Ok(pattern)
    }
}

/// Convergent room-wide settings for the bass pulse performance.
///
/// Integer units keep the canonical encoding stable across desktop and
/// embedded targets. Device master volume and DAC gain remain local settings;
/// `level_per_mille` is the musical voice level shared by the room.
#[derive(Debug, Clone, Copy, PartialEq, Eq, PartialOrd, Ord, Structural)]
pub struct RoundTableConfig {
    pub pitch_mode: RoundTablePitchMode,
    pub pattern: RoundTablePattern,
    pub center_millihz: u32,
    pub scale: RoundTableScale,
    pub spread_semitones: u8,
    pub level_per_mille: u16,
    pub pulse_ms: u16,
    pub gap_ms: u16,
}

impl View for RoundTableConfig {
    type V = RoundTableConfig;

    open spec fn view(&self) -> RoundTableConfig {
        *self
    }
}

impl RoundTableConfig {
    /// Whether these are the settings that hold before any were made.
    pub open spec fn is_default(self) -> bool {
        &&& self.pitch_mode == RoundTablePitchMode::Ascending
        &&& self.pattern@ == set![48u8, 51u8, 55u8, 58u8]
        &&& self.center_millihz == 80_000
        &&& self.scale == RoundTableScale::MinorPentatonic
        &&& self.spread_semitones == 5
        &&& self.level_per_mille == 300
        &&& self.pulse_ms == 80
        &&& self.gap_ms == 10
    }
}

impl Default for RoundTableConfig {
    fn default() -> (config: Self)
        ensures
            config.is_default(),
    {
        RoundTableConfig {
            pitch_mode: RoundTablePitchMode::Ascending,
            pattern: RoundTablePattern::default(),
            center_millihz: 80_000,
            scale: RoundTableScale::MinorPentatonic,
            spread_semitones: 5,
            level_per_mille: 300,
            pulse_ms: 80,
            gap_ms: 10,
        }
    }
}

#[derive(Debug, Clone, Copy, PartialEq, Eq, Structural)]
pub enum RoundTableConfigError {
    Center,
    Spread,
    Level,
    Pulse,
    Gap,
    Pattern,
}

impl RoundTableConfigError {
    /// The error in words.
    pub open spec fn text(self) -> Seq<char> {
        match self {
            RoundTableConfigError::Center => "bass center must be 60000..=120000 millihertz"@,
            RoundTableConfigError::Spread => "pitch spread must be at most 12 semitones"@,
            RoundTableConfigError::Level => "voice level must be 1..=450 per mille"@,
            RoundTableConfigError::Pulse => "pulse duration must be 80..=2000 milliseconds"@,
            RoundTableConfigError::Gap => "gap duration must be at most 2000 milliseconds"@,
            RoundTableConfigError::Pattern =>
                "arpeggiator pattern must contain at most 24 notes"@,
        }
    }

    pub fn message(&self) -> (message: &'static str)
        ensures
            message@ == self.text(),
    {
        match self {
            RoundTableConfigError::Center => "bass center must be 60000..=120000 millihertz",
            RoundTableConfigError::Spread => "pitch spread must be at most 12 semitones",
            RoundTableConfigError::Level => "voice level must be 1..=450 per mille",
            RoundTableConfigError::Pulse => "pulse duration must be 80..=2000 milliseconds",
            RoundTableConfigError::Gap => "gap duration must be at most 2000 milliseconds",
            RoundTableConfigError::Pattern => "arpeggiator pattern must contain at most 24 notes",
        }
    }
}

impl RoundTableConfig {
    /// The first rule that the settings break, if they break one.
    pub open spec fn verdict(self) -> Result<(), RoundTableConfigError> {
        if !(MIN_CENTER_MILLIHZ <= self.center_millihz <= MAX_CENTER_MILLIHZ) {
            Err(RoundTableConfigError::Center)
        } else if self.spread_semitones > MAX_SPREAD_SEMITONES {
            Err(RoundTableConfigError::Spread)
        } else if !(1 <= self.level_per_mille <= MAX_LEVEL_PER_MILLE) {
            Err(RoundTableConfigError::Level)
        } else if !(MIN_PULSE_MS <= self.pulse_ms <= MAX_PULSE_MS) {
            Err(RoundTableConfigError::Pulse)
        } else if self.gap_ms > MAX_GAP_MS {
            Err(RoundTableConfigError::Gap)
        } else if pattern::ascending(self.pattern@).len() > MAX_PATTERN_NOTES {
            Err(RoundTableConfigError::Pattern)
        } else {
            Ok(())
        }
    }

    /// Whether the settings keep every rule.
    pub open spec fn valid(self) -> bool {
        self.verdict() is Ok
    }

    pub fn validate(self) -> (result: Result<Self, RoundTableConfigError>)
        ensures
            match result {
                Ok(config) => self.valid() && config == self,
                Err(error) => self.verdict() == Err::<(), RoundTableConfigError>(error),
            },
    {
        if self.center_millihz < MIN_CENTER_MILLIHZ || self.center_millihz > MAX_CENTER_MILLIHZ {
            return Err(RoundTableConfigError::Center);
        }
        if self.spread_semitones > MAX_SPREAD_SEMITONES {
            return Err(RoundTableConfigError::Spread);
        }
        if self.level_per_mille < 1 || self.level_per_mille > MAX_LEVEL_PER_MILLE {
            return Err(RoundTableConfigError::Level);
        }
        if self.pulse_ms < MIN_PULSE_MS || self.pulse_ms > MAX_PULSE_MS {
            return Err(RoundTableConfigError::Pulse);
        }
        if self.gap_ms > MAX_GAP_MS {
            return Err(RoundTableConfigError::Gap);
        }
        if self.pattern.len() > MAX_PATTERN_NOTES {
            return Err(RoundTableConfigError::Pattern);
        }
        Ok(self)
    }

    /// The settings as numbers, in the order in which they are compared.
    pub open spec fn words(self) -> Seq<u64> {
        seq![
            self.pitch_mode.number() as u64,
            self.pattern.word(0),
            self.pattern.word(1),
            self.center_millihz as u64,
            self.scale.number() as u64,
            self.spread_semitones as u64,
            self.level_per_mille as u64,
            self.pulse_ms as u64,
            self.gap_ms as u64,
        ]
    }

    pub open spec fn key(self) -> Seq<int> {
        order::word_key(self.words())
    }

    fn to_words(self) -> (words: [u64; 9])
        ensures
            words@ == self.words(),
    {
        let pattern: [u64; 2] = self.pattern.words();
        let words: [u64; 9] = [
            self.pitch_mode.id() as u64,
            pattern[0],
            pattern[1],
            self.center_millihz as u64,
            self.scale.id() as u64,
            self.spread_semitones as u64,
            self.level_per_mille as u64,
            self.pulse_ms as u64,
            self.gap_ms as u64,
        ];
        assert(words@ =~= self.words());
        words
    }

    /// Whether these settings come before `other` in the total order on
    /// settings.
    pub fn precedes(self, other: Self) -> (r: bool)
        ensures
            r == order::before(self.key(), other.key()),
    {
        order::words_before(&self.to_words(), &other.to_words())
    }

    /// Settings with the same key are the same settings.
    pub proof fn lemma_key_injective(a: Self, b: Self)
        requires
            a.key() == b.key(),
        ensures
            a == b,
    {
        assert forall|i: int| 0 <= i < 9 implies a.words()[i] == b.words()[i] by {
            assert(a.key()[i] == a.words()[i] as int);
            assert(b.key()[i] == b.words()[i] as int);
        }
        let (u, v) = (a.words(), b.words());
        assert(u[0] == v[0] && u[1] == v[1] && u[2] == v[2] && u[3] == v[3] && u[4] == v[4] && u[5]
            == v[5] && u[6] == v[6] && u[7] == v[7] && u[8] == v[8]);
        RoundTablePattern::lemma_extensional(a.pattern, b.pattern);
    }
}

/// Every scale holds its root, and the number of a scale tells it from all
/// others.
pub proof fn law_scales_have_roots_and_unique_numbers(a: RoundTableScale, b: RoundTableScale)
    ensures
        bits::bit16(a.semitones(), 0),
        a.number() == b.number() ==> a == b,
{
    assert((0x001u16 >> 0u16) & 1 == 1 && (0x4a9u16 >> 0u16) & 1 == 1 && (0x295u16 >> 0u16) & 1 == 1
        && (0x5adu16 >> 0u16) & 1 == 1 && (0xab5u16 >> 0u16) & 1 == 1 && (0x6adu16 >> 0u16) & 1
        == 1 && (0xfffu16 >> 0u16) & 1 == 1) by (bit_vector);
}

/// The preset of each scale on a root holds the keys at these distances above the
/// root and no other key.
pub proof fn law_scales_hold_their_intervals(scale: RoundTableScale, root: u8, key: u8)
    ensures
        scale.keys(root).contains(key) <==> ({
            let above = key - root;
            match scale {
                RoundTableScale::Root => above == 0,
                RoundTableScale::MinorPentatonic => above == 0 || above == 3 || above == 5 || above
                    == 7 || above == 10,
                RoundTableScale::MajorPentatonic => above == 0 || above == 2 || above == 4 || above
                    == 7 || above == 9,
                RoundTableScale::NaturalMinor => above == 0 || above == 2 || above == 3 || above == 5
                    || above == 7 || above == 8 || above == 10,
                RoundTableScale::Major => above == 0 || above == 2 || above == 4 || above == 5
                    || above == 7 || above == 9 || above == 11,
                RoundTableScale::Dorian => above == 0 || above == 2 || above == 3 || above == 5
                    || above == 7 || above == 9 || above == 10,
                RoundTableScale::Chromatic => 0 <= above <= 11,
            }
        }),
{
    if root <= key {
        law_masks_hold_their_intervals(scale, (key - root) as u16);
    }
}

/// The mask of each scale has the bits of these intervals and no other.
pub proof fn law_masks_hold_their_intervals(scale: RoundTableScale, above: u16)
    ensures
        bits::bit16(scale.semitones(), above) <==> (match scale {
            RoundTableScale::Root => above == 0,
            RoundTableScale::MinorPentatonic => above == 0 || above == 3 || above == 5 || above == 7
                || above == 10,
            RoundTableScale::MajorPentatonic => above == 0 || above == 2 || above == 4 || above == 7
                || above == 9,
            RoundTableScale::NaturalMinor => above == 0 || above == 2 || above == 3 || above == 5
                || above == 7 || above == 8 || above == 10,
            RoundTableScale::Major => above == 0 || above == 2 || above == 4 || above == 5 || above
                == 7 || above == 9 || above == 11,
            RoundTableScale::Dorian => above == 0 || above == 2 || above == 3 || above == 5 || above
                == 7 || above == 9 || above == 10,
            RoundTableScale::Chromatic => above <= 11,
        }),
{
    assert((0x001u16 >> above) & 1 == 1 <==> above == 0) by (bit_vector);
    assert((0x4a9u16 >> above) & 1 == 1 <==> above == 0 || above == 3 || above == 5 || above == 7
        || above == 10) by (bit_vector);
    assert((0x295u16 >> above) & 1 == 1 <==> above == 0 || above == 2 || above == 4 || above == 7
        || above == 9) by (bit_vector);
    assert((0x5adu16 >> above) & 1 == 1 <==> above == 0 || above == 2 || above == 3 || above == 5
        || above == 7 || above == 8 || above == 10) by (bit_vector);
    assert((0xab5u16 >> above) & 1 == 1 <==> above == 0 || above == 2 || above == 4 || above == 5
        || above == 7 || above == 9 || above == 11) by (bit_vector);
    assert((0x6adu16 >> above) & 1 == 1 <==> above == 0 || above == 2 || above == 3 || above == 5
        || above == 7 || above == 9 || above == 10) by (bit_vector);
    assert((0xfffu16 >> above) & 1 == 1 <==> above <= 11) by (bit_vector);
}

/// A preset can be written on a root exactly where its highest key is a MIDI key.
pub proof fn law_presets_fit_below_the_last_key(scale: RoundTableScale, root: u8)
    ensures
        (forall|offset: u16|
            offset < 12 && #[trigger] bits::bit16(scale.semitones(), offset) ==> root + offset
                < MIDI_KEYS) <==> root + (match scale {
            RoundTableScale::Root => 0int,
            RoundTableScale::MinorPentatonic => 10,
            RoundTableScale::MajorPentatonic => 9,
            RoundTableScale::NaturalMinor => 10,
            RoundTableScale::Major => 11,
            RoundTableScale::Dorian => 10,
            RoundTableScale::Chromatic => 11,
        }) <= 127,
{
    let top: u16 = match scale {
        RoundTableScale::Root => 0,
        RoundTableScale::MinorPentatonic => 10,
        RoundTableScale::MajorPentatonic => 9,
        RoundTableScale::NaturalMinor => 10,
        RoundTableScale::Major => 11,
        RoundTableScale::Dorian => 10,
        RoundTableScale::Chromatic => 11,
    };
    law_masks_hold_their_intervals(scale, top);
    assert forall|offset: u16|
        offset < 12 && #[trigger] bits::bit16(scale.semitones(), offset) implies offset <= top by {
        law_masks_hold_their_intervals(scale, offset);
    }
}

/// Modes and scales have the numbers under which peers know them.
pub proof fn law_choices_have_fixed_numbers(mode: RoundTablePitchMode, scale: RoundTableScale)
    ensures
        mode.number() == 0 <==> mode is Ascending,
        mode.number() == 1 <==> mode is Random,
        scale.number() == 0 <==> scale is Root,
        scale.number() == 1 <==> scale is MinorPentatonic,
        scale.number() == 2 <==> scale is MajorPentatonic,
        scale.number() == 3 <==> scale is NaturalMinor,
        scale.number() == 4 <==> scale is Major,
        scale.number() == 5 <==> scale is Dorian,
        scale.number() == 6 <==> scale is Chromatic,
{
}

/// Settings are kept exactly where every number is in its range. The first number
/// out of its range, in the order of the fields, names the fault, and a note set
/// that is too large is named last.
pub proof fn law_settings_keep_their_ranges(config: RoundTableConfig)
    ensures
        config.valid() <==> {
            &&& 60_000 <= config.center_millihz <= 120_000
            &&& config.spread_semitones <= 12
            &&& 1 <= config.level_per_mille <= 450
            &&& 80 <= config.pulse_ms <= 2_000
            &&& config.gap_ms <= 2_000
            &&& pattern::ascending(config.pattern@).len() <= 24
        },
        config.verdict() == Err::<(), RoundTableConfigError>(RoundTableConfigError::Center) <==> (
        config.center_millihz < 60_000 || config.center_millihz > 120_000),
        config.verdict() == Err::<(), RoundTableConfigError>(RoundTableConfigError::Spread) ==> {
            &&& config.spread_semitones > 12
            &&& 60_000 <= config.center_millihz <= 120_000
        },
        config.verdict() == Err::<(), RoundTableConfigError>(RoundTableConfigError::Level) ==> {
            &&& !(1 <= config.level_per_mille <= 450)
            &&& 60_000 <= config.center_millihz <= 120_000
            &&& config.spread_semitones <= 12
        },
        config.verdict() == Err::<(), RoundTableConfigError>(RoundTableConfigError::Pulse) ==> {
            &&& !(80 <= config.pulse_ms <= 2_000)
            &&& 60_000 <= config.center_millihz <= 120_000
            &&& config.spread_semitones <= 12
            &&& 1 <= config.level_per_mille <= 450
        },
        config.verdict() == Err::<(), RoundTableConfigError>(RoundTableConfigError::Gap) ==> {
            &&& config.gap_ms > 2_000
            &&& 60_000 <= config.center_millihz <= 120_000
            &&& config.spread_semitones <= 12
            &&& 1 <= config.level_per_mille <= 450
            &&& 80 <= config.pulse_ms <= 2_000
        },
        config.verdict() == Err::<(), RoundTableConfigError>(RoundTableConfigError::Pattern) ==> {
            &&& pattern::ascending(config.pattern@).len() > 24
            &&& 60_000 <= config.center_millihz <= 120_000
            &&& config.spread_semitones <= 12
            &&& 1 <= config.level_per_mille <= 450
            &&& 80 <= config.pulse_ms <= 2_000
            &&& config.gap_ms <= 2_000
        },
{
}

/// Settings are ordered by their fields, each deciding only where those before it
/// agree.
pub proof fn law_settings_are_ordered_by_their_fields(a: RoundTableConfig, b: RoundTableConfig)
    ensures
        order::before(a.key(), b.key()) <==> (if a.pitch_mode != b.pitch_mode {
            a.pitch_mode is Ascending
        } else if a.pattern.word(0) != b.pattern.word(0) {
            a.pattern.word(0) < b.pattern.word(0)
        } else if a.pattern.word(1) != b.pattern.word(1) {
            a.pattern.word(1) < b.pattern.word(1)
        } else if a.center_millihz != b.center_millihz {
            a.center_millihz < b.center_millihz
        } else if a.scale != b.scale {
            a.scale.number() < b.scale.number()
        } else if a.spread_semitones != b.spread_semitones {
            a.spread_semitones < b.spread_semitones
        } else if a.level_per_mille != b.level_per_mille {
            a.level_per_mille < b.level_per_mille
        } else if a.pulse_ms != b.pulse_ms {
            a.pulse_ms < b.pulse_ms
        } else {
            a.gap_ms < b.gap_ms
        }),
{
    reveal_with_fuel(order::before, 10);
    let (p, q) = (a.key(), b.key());
    assert(p.len() == 9 && q.len() == 9);
    assert(p[0] == a.pitch_mode.number() && p[1] == a.pattern.word(0) && p[2] == a.pattern.word(1)
        && p[3] == a.center_millihz && p[4] == a.scale.number() && p[5] == a.spread_semitones
        && p[6] == a.level_per_mille && p[7] == a.pulse_ms && p[8] == a.gap_ms);
    assert(q[0] == b.pitch_mode.number() && q[1] == b.pattern.word(0) && q[2] == b.pattern.word(1)
        && q[3] == b.center_millihz && q[4] == b.scale.number() && q[5] == b.spread_semitones
        && q[6] == b.level_per_mille && q[7] == b.pulse_ms && q[8] == b.gap_ms);
}

/// The built-in settings are these, and settings that differ from them in anything are
/// not the built-in ones.
pub proof fn law_built_in_settings(config: RoundTableConfig)
    ensures
        config.is_default() <==> {
            &&& config.pitch_mode is Ascending
            &&& forall|key: u8| #[trigger]
                config.pattern@.contains(key) <==> key == 48 || key == 51 || key == 55 || key == 58
            &&& config.center_millihz == 80_000
            &&& config.scale is MinorPentatonic
            &&& config.spread_semitones == 5
            &&& config.level_per_mille == 300
            &&& config.pulse_ms == 80
            &&& config.gap_ms == 10
        },
{
    if forall|key: u8| #[trigger]
        config.pattern@.contains(key) <==> key == 48 || key == 51 || key == 55 || key == 58 {
        assert(config.pattern@ =~= set![48u8, 51u8, 55u8, 58u8]);
    }
}

} // verus!

//! The pulse that a turn plays.

use crate::music::pattern;
use crate::music::roundtable::{
    RoundTableConfig, RoundTablePitchMode, MAX_PLAYABLE_MILLIHZ, MIN_PLAYABLE_MILLIHZ,
};
use crate::roundtable::codec::Pulse;
use crate::roundtable::participant::{ParticipantId, RunEpoch};
use crate::roundtable::pitch;
use crate::roundtable::roster::Roster;
use vstd::prelude::*;

verus! {

/// The keys from `first` up to but not including `bound` whose pitch class is in
/// the note set, in ascending order.
pub open spec fn candidates(keys: Set<u8>, first: int, bound: int) -> Seq<int>
    decreases bound - first,
{
    if bound <= first {
        Seq::empty()
    } else {
        let rest = candidates(keys, first, bound - 1);
        if pattern::has_class(keys, bound - 1) {
            rest.push(bound - 1)
        } else {
            rest
        }
    }
}

/// Spreads the bits of a number over all others.
pub open spec fn mixed(value: u64) -> u64 {
    let a = value.wrapping_add(0x9e37_79b9_7f4a_7c15);
    let b = (a ^ (a >> 30u64)).wrapping_mul(0xbf58_476d_1ce4_e5b9);
    let c = (b ^ (b >> 27u64)).wrapping_mul(0x94d0_49bb_1331_11eb);
    c ^ (c >> 31u64)
}

fn mix64(value: u64) -> (r: u64)
    ensures
        r == mixed(value),
{
    let a: u64 = value.wrapping_add(0x9e37_79b9_7f4a_7c15);
    let b: u64 = (a ^ (a >> 30u64)).wrapping_mul(0xbf58_476d_1ce4_e5b9);
    let c: u64 = (b ^ (b >> 27u64)).wrapping_mul(0x94d0_49bb_1331_11eb);
    c ^ (c >> 31u64)
}

/// A frequency brought into the range that the instrument can play.
pub open spec fn playable(millihz: int) -> int {
    if millihz < MIN_PLAYABLE_MILLIHZ {
        MIN_PLAYABLE_MILLIHZ as int
    } else if millihz > MAX_PLAYABLE_MILLIHZ {
        MAX_PLAYABLE_MILLIHZ as int
    } else {
        millihz
    }
}

/// The keys that a turn may play: those of the note set within the spread of the
/// center.
pub open spec fn choices(config: RoundTableConfig) -> Seq<int> {
    let center = pitch::key_near(config.center_millihz as int);
    candidates(
        config.pattern@,
        center - config.spread_semitones,
        center + config.spread_semitones + 1,
    )
}

/// Which of `count` choices a turn takes.
pub open spec fn choice(
    mode: RoundTablePitchMode,
    epoch: RunEpoch,
    sequence: u32,
    count: nat,
) -> int {
    match mode {
        RoundTablePitchMode::Ascending => sequence as int % count as int,
        RoundTablePitchMode::Random => mixed(epoch.nonce ^ (sequence as u64)) as int % count as int,
    }
}

/// The pulse of one turn: nothing where the settings break a rule, nobody is at
/// the table, or the note set has no key in the register.
pub open spec fn planned(
    config: RoundTableConfig,
    members: Seq<ParticipantId>,
    epoch: RunEpoch,
    sequence: u32,
) -> Option<Pulse> {
    let keys = choices(config);
    if !config.valid() || members.len() == 0 || keys.len() == 0 {
        None
    } else {
        let key = keys[choice(config.pitch_mode, epoch, sequence, keys.len())];
        Some(
            Pulse {
                epoch,
                sequence,
                target: members[sequence as int % members.len() as int],
                frequency_millihz: playable(pitch::millihz_near(key)) as u32,
                level_per_mille: config.level_per_mille,
                duration_ms: config.pulse_ms,
            },
        )
    }
}

/// Build the deterministic pulse for one sequence. The carrier's elected
/// leader sends this plan; every peer can independently verify its contents.
pub fn plan_pulse<const N: usize>(
    config: RoundTableConfig,
    roster: &Roster<N>,
    epoch: RunEpoch,
    sequence: u32,
) -> (pulse: Option<Pulse>)
    ensures
        pulse == planned(config, roster@, epoch, sequence),
        pulse is Some ==> pulse->0.duration_ms == config.pulse_ms && pulse->0.level_per_mille
            == config.level_per_mille && pulse->0.epoch == epoch && pulse->0.sequence == sequence,
{
    let config: RoundTableConfig = match config.validate() {
        Ok(config) => config,
        Err(_) => {
            return None;
        },
    };
    let target: ParticipantId = match roster.target(sequence) {
        Some(target) => target,
        None => {
            return None;
        },
    };
    let center: u8 = pitch::center_key(config.center_millihz);
    let first: u8 = center - config.spread_semitones;
    let bound: u8 = center + config.spread_semitones + 1;
    let mut keys: Vec<u8> = Vec::new();
    let mut key: u8 = first;
    while key < bound
        invariant
            first <= key <= bound <= 60,
            keys@.len() == candidates(config.pattern@, first as int, key as int).len(),
            forall|i: int|
                0 <= i < keys@.len() ==> {
                    &&& #[trigger] keys@[i] == candidates(
                        config.pattern@,
                        first as int,
                        key as int,
                    )[i]
                    &&& first <= keys@[i] < bound
                },
        decreases bound - key,
    {
        if config.pattern.contains_pitch_class(key) {
            keys.push(key);
        }
        key = key + 1;
    }
    if keys.len() == 0 {
        return None;
    }
    let count: usize = keys.len();
    let choice: usize = match config.pitch_mode {
        RoundTablePitchMode::Ascending => sequence as usize % count,
        RoundTablePitchMode::Random => (mix64(epoch.nonce ^ (sequence as u64)) % (
        count as u64)) as usize,
    };
    let millihz: u32 = pitch::key_millihz(keys[choice]);
    let frequency_millihz: u32 = if millihz < MIN_PLAYABLE_MILLIHZ {
        MIN_PLAYABLE_MILLIHZ
    } else if millihz > MAX_PLAYABLE_MILLIHZ {
        MAX_PLAYABLE_MILLIHZ
    } else {
        millihz
    };
    Some(
        Pulse {
            epoch,
            sequence,
            target,
            frequency_millihz,
            level_per_mille: config.level_per_mille,
            duration_ms: config.pulse_ms,
        },
    )
}

proof fn lemma_candidates_are_members(keys: Set<u8>, first: int, bound: int, i: int)
    requires
        0 <= i < candidates(keys, first, bound).len(),
    ensures
        first <= candidates(keys, first, bound)[i] < bound,
        pattern::has_class(keys, candidates(keys, first, bound)[i]),
    decreases bound - first,
{
    if i < candidates(keys, first, bound - 1).len() {
        lemma_candidates_are_members(keys, first, bound - 1, i);
    }
}

/// A pulse plays a key of the note set, within the spread of the center, in
/// either mode. It never leaves the playable range, and the MIDI key nearest to
/// its frequency has a pitch class of the note set.
pub proof fn law_pulses_stay_in_the_note_set(
    config: RoundTableConfig,
    members: Seq<ParticipantId>,
    epoch: RunEpoch,
    sequence: u32,
)
    requires
        planned(config, members, epoch, sequence) is Some,
    ensures
        ({
            let pulse = planned(config, members, epoch, sequence)->0;
            let center = pitch::key_near(config.center_millihz as int);
            let key = pitch::key_near(pulse.frequency_millihz as int);
            &&& pulse.epoch == epoch
            &&& pulse.sequence == sequence
            &&& pulse.target == members[sequence as int % members.len() as int]
            &&& MIN_PLAYABLE_MILLIHZ <= pulse.frequency_millihz <= MAX_PLAYABLE_MILLIHZ
            &&& pitch::nearest_key(pulse.frequency_millihz as int, key)
            &&& pattern::has_class(config.pattern@, key)
            &&& center - config.spread_semitones <= key <= center + config.spread_semitones
            &&& pulse.frequency_millihz == playable(pitch::millihz_near(key))
            &&& pulse.level_per_mille == config.level_per_mille
            &&& pulse.duration_ms == config.pulse_ms
            &&& 1 <= pulse.level_per_mille <= 450
            &&& 80 <= pulse.duration_ms <= 2_000
            &&& 30_000 <= pulse.frequency_millihz <= 240_000
        }),
{
    let center = pitch::key_near(config.center_millihz as int);
    let keys = choices(config);
    let i = choice(config.pitch_mode, epoch, sequence, keys.len());
    assert(0 <= i < keys.len()) by {
        match config.pitch_mode {
            RoundTablePitchMode::Ascending => {
                vstd::arithmetic::div_mod::lemma_mod_bound(sequence as int, keys.len() as int);
            },
            RoundTablePitchMode::Random => {
                vstd::arithmetic::div_mod::lemma_mod_bound(
                    mixed(epoch.nonce ^ (sequence as u64)) as int,
                    keys.len() as int,
                );
            },
        }
    }
    lemma_candidates_are_members(
        config.pattern@,
        center - config.spread_semitones,
        center + config.spread_semitones + 1,
        i,
    );
    let key = keys[i];
    pitch::lemma_center_near(config.center_millihz as int);
    pitch::lemma_key_is_heard(key);
    let millihz = playable(pitch::millihz_near(key));
    pitch::law_nearest_key_is_unique(millihz, key, pitch::key_near(millihz));
}

proof fn lemma_no_candidates(keys: Set<u8>, first: int, bound: int)
    requires
        keys == Set::<u8>::empty(),
    ensures
        candidates(keys, first, bound).len() == 0,
    decreases bound - first,
{
    if bound > first {
        lemma_no_candidates(keys, first, bound - 1);
    }
}

/// Nothing is played under settings that break a rule, at an empty table, or
/// without a note.
pub proof fn law_nothing_is_played_without_notes(
    config: RoundTableConfig,
    members: Seq<ParticipantId>,
    epoch: RunEpoch,
    sequence: u32,
)
    requires
        !config.valid() || members.len() == 0 || config.pattern@ == Set::<u8>::empty(),
    ensures
        planned(config, members, epoch, sequence) is None,
{
    if config.pattern@ == Set::<u8>::empty() {
        let center = pitch::key_near(config.center_millihz as int);
        lemma_no_candidates(
            config.pattern@,
            center - config.spread_semitones,
            center + config.spread_semitones + 1,
        );
    }
}

/// The named palette is metadata: it neither filters nor introduces notes.
pub proof fn law_palette_does_not_matter(
    config: RoundTableConfig,
    other: RoundTableConfig,
    members: Seq<ParticipantId>,
    epoch: RunEpoch,
    sequence: u32,
)
    requires
        other == (RoundTableConfig { scale: other.scale, ..config }),
    ensures
        planned(config, members, epoch, sequence) == planned(other, members, epoch, sequence),
{
}

/// In ascending mode the keys of the register are played in order, round and
/// round.
pub proof fn law_ascending_mode_cycles(
    config: RoundTableConfig,
    members: Seq<ParticipantId>,
    epoch: RunEpoch,
    sequence: u32,
    later: u32,
)
    requires
        config.pitch_mode == RoundTablePitchMode::Ascending,
        choices(config).len() > 0,
        sequence as int % choices(config).len() as int == later as int % choices(
            config,
        ).len() as int,
        planned(config, members, epoch, sequence) is Some,
    ensures
        planned(config, members, epoch, later) is Some,
        planned(config, members, epoch, later)->0.frequency_millihz == planned(
            config,
            members,
            epoch,
            sequence,
        )->0.frequency_millihz,
{
}

proof fn lemma_candidates_are_complete(keys: Set<u8>, first: int, bound: int, key: int) -> (i: int)
    requires
        first <= key < bound,
        pattern::has_class(keys, key),
    ensures
        0 <= i < candidates(keys, first, bound).len(),
        candidates(keys, first, bound)[i] == key,
    decreases bound - first,
{
    if key == bound - 1 {
        candidates(keys, first, bound).len() - 1
    } else {
        lemma_candidates_are_complete(keys, first, bound - 1, key)
    }
}

proof fn lemma_candidates_climb(keys: Set<u8>, first: int, bound: int, i: int, j: int)
    requires
        0 <= i < j < candidates(keys, first, bound).len(),
    ensures
        candidates(keys, first, bound)[i] < candidates(keys, first, bound)[j],
    decreases bound - first,
{
    if j < candidates(keys, first, bound - 1).len() {
        lemma_candidates_climb(keys, first, bound - 1, i, j);
    } else {
        lemma_candidates_are_members(keys, first, bound - 1, i);
    }
}

proof fn lemma_candidates_are_few(keys: Set<u8>, first: int, bound: int)
    requires
        first <= bound,
    ensures
        candidates(keys, first, bound).len() <= bound - first,
    decreases bound - first,
{
    if first < bound {
        lemma_candidates_are_few(keys, first, bound - 1);
    }
}

/// In ascending mode every key of the note set within the spread of the center is
/// played by one of the first turns.
pub proof fn law_ascending_mode_plays_every_key(
    config: RoundTableConfig,
    members: Seq<ParticipantId>,
    epoch: RunEpoch,
    key: int,
) -> (sequence: u32)
    requires
        config.valid(),
        config.pitch_mode == RoundTablePitchMode::Ascending,
        members.len() > 0,
        pattern::has_class(config.pattern@, key),
        pitch::key_near(config.center_millihz as int) - config.spread_semitones <= key,
        key <= pitch::key_near(config.center_millihz as int) + config.spread_semitones,
    ensures
        sequence <= 2 * config.spread_semitones,
        planned(config, members, epoch, sequence) is Some,
        pitch::key_near(planned(config, members, epoch, sequence)->0.frequency_millihz as int)
            == key,
{
    let center = pitch::key_near(config.center_millihz as int);
    let (first, bound) = (
        center - config.spread_semitones,
        center + config.spread_semitones + 1,
    );
    let i = lemma_candidates_are_complete(config.pattern@, first, bound, key);
    lemma_candidates_are_few(config.pattern@, first, bound);
    let sequence = i as u32;
    vstd::arithmetic::div_mod::lemma_small_mod(i as nat, choices(config).len());
    pitch::lemma_center_near(config.center_millihz as int);
    pitch::lemma_key_is_heard(key);
    let millihz = playable(pitch::millihz_near(key));
    pitch::law_nearest_key_is_unique(millihz, key, pitch::key_near(millihz));
    sequence
}

/// In ascending mode a turn plays a higher key than the turn before it, until the
/// turn that begins the round again.
pub proof fn law_ascending_mode_climbs(
    config: RoundTableConfig,
    members: Seq<ParticipantId>,
    epoch: RunEpoch,
    sequence: u32,
    later: u32,
)
    requires
        config.pitch_mode == RoundTablePitchMode::Ascending,
        (sequence as int % choices(config).len() as int) < (later as int % choices(
            config,
        ).len() as int),
        planned(config, members, epoch, sequence) is Some,
    ensures
        planned(config, members, epoch, later) is Some,
        pitch::key_near(planned(config, members, epoch, sequence)->0.frequency_millihz as int)
            < pitch::key_near(planned(config, members, epoch, later)->0.frequency_millihz as int),
{
    let center = pitch::key_near(config.center_millihz as int);
    let (first, bound) = (
        center - config.spread_semitones,
        center + config.spread_semitones + 1,
    );
    let keys = choices(config);
    let (i, j) = (sequence as int % keys.len() as int, later as int % keys.len() as int);
    vstd::arithmetic::div_mod::lemma_mod_bound(sequence as int, keys.len() as int);
    vstd::arithmetic::div_mod::lemma_mod_bound(later as int, keys.len() as int);
    lemma_candidates_climb(config.pattern@, first, bound, i, j);
    pitch::lemma_center_near(config.center_millihz as int);
    lemma_candidates_are_members(config.pattern@, first, bound, i);
    lemma_candidates_are_members(config.pattern@, first, bound, j);
    pitch::lemma_key_is_heard(keys[i]);
    pitch::lemma_key_is_heard(keys[j]);
    let (p, q) = (
        playable(pitch::millihz_near(keys[i])),
        playable(pitch::millihz_near(keys[j])),
    );
    pitch::law_nearest_key_is_unique(p, keys[i], pitch::key_near(p));
    pitch::law_nearest_key_is_unique(q, keys[j], pitch::key_near(q));
}

/// A turn is played wherever the settings keep their rules, somebody is at the
/// table, and the note set has a key within the spread of the center, in either
/// mode.
pub proof fn law_turns_are_played(
    config: RoundTableConfig,
    members: Seq<ParticipantId>,
    epoch: RunEpoch,
    sequence: u32,
)
    ensures
        planned(config, members, epoch, sequence) is Some <==> {
            &&& config.valid()
            &&& members.len() > 0
            &&& exists|key: int|
                #![trigger pattern::has_class(config.pattern@, key)]
                pattern::has_class(config.pattern@, key) && pitch::key_near(
                    config.center_millihz as int,
                ) - config.spread_semitones <= key <= pitch::key_near(config.center_millihz as int)
                    + config.spread_semitones
        },
{
    let center = pitch::key_near(config.center_millihz as int);
    let (first, bound) = (
        center - config.spread_semitones,
        center + config.spread_semitones + 1,
    );
    if choices(config).len() > 0 {
        lemma_candidates_are_members(config.pattern@, first, bound, 0);
    }
    if exists|key: int|
        #![trigger pattern::has_class(config.pattern@, key)]
        pattern::has_class(config.pattern@, key) && first <= key < bound {
        let key = choose|key: int|
            #![trigger pattern::has_class(config.pattern@, key)]
            pattern::has_class(config.pattern@, key) && first <= key < bound;
        let i = lemma_candidates_are_complete(config.pattern@, first, bound, key);
    }
}

/// In random mode the epoch's nonce and the sequence alone pick the key: turns for
/// which they combine to the same number play the same key, and the keys that can
/// be picked are those of the ascending mode.
pub proof fn law_random_mode_follows_the_nonce(
    config: RoundTableConfig,
    members: Seq<ParticipantId>,
    epoch: RunEpoch,
    sequence: u32,
    other: RunEpoch,
    later: u32,
)
    requires
        config.pitch_mode == RoundTablePitchMode::Random,
        epoch.nonce ^ (sequence as u64) == other.nonce ^ (later as u64),
        planned(config, members, epoch, sequence) is Some,
    ensures
        planned(config, members, other, later) is Some,
        planned(config, members, other, later)->0.frequency_millihz == planned(
            config,
            members,
            epoch,
            sequence,
        )->0.frequency_millihz,
{
}

/// What a number is mixed to, step by step over the numbers below two to the
/// sixty-fourth: an odd constant is added, and twice the upper bits are folded into
/// the lower and the result is multiplied by an odd constant, before they are folded a
/// last time.
pub proof fn law_numbers_are_mixed_in_three_rounds(value: u64)
    ensures
        ({
            let modulus = 0x1_0000_0000_0000_0000int;
            let a = ((value + 0x9e37_79b9_7f4a_7c15) % modulus) as u64;
            let b = (((a ^ (a >> 30u64)) * 0xbf58_476d_1ce4_e5b9) % modulus) as u64;
            let c = (((b ^ (b >> 27u64)) * 0x94d0_49bb_1331_11eb) % modulus) as u64;
            mixed(value) == c ^ (c >> 31u64)
        }),
{
    let modulus = 0x1_0000_0000_0000_0000int;
    let a = ((value + 0x9e37_79b9_7f4a_7c15) % modulus) as u64;
    assert(a == value.wrapping_add(0x9e37_79b9_7f4a_7c15));
    let x = a ^ (a >> 30u64);
    let b = ((x * 0xbf58_476d_1ce4_e5b9) % modulus) as u64;
    assert(b == x.wrapping_mul(0xbf58_476d_1ce4_e5b9));
    let y = b ^ (b >> 27u64);
    let c = ((y * 0x94d0_49bb_1331_11eb) % modulus) as u64;
    assert(c == y.wrapping_mul(0x94d0_49bb_1331_11eb));
}

/// In random mode the mixed number of the nonce and the sequence counts off the keys of
/// the register from the lowest, round and round.
pub proof fn law_random_mode_counts_off_the_register(
    config: RoundTableConfig,
    members: Seq<ParticipantId>,
    epoch: RunEpoch,
    sequence: u32,
    turn: u32,
)
    requires
        config.pitch_mode == RoundTablePitchMode::Random,
        planned(config, members, epoch, sequence) is Some,
        turn == mixed(epoch.nonce ^ (sequence as u64)) as int % choices(config).len() as int,
    ensures
        ({
            let ascending = RoundTableConfig {
                pitch_mode: RoundTablePitchMode::Ascending,
                ..config
            };
            &&& planned(ascending, members, epoch, turn) is Some
            &&& planned(config, members, epoch, sequence)->0.frequency_millihz == planned(
                ascending,
                members,
                epoch,
                turn,
            )->0.frequency_millihz
        }),
{
    let ascending = RoundTableConfig { pitch_mode: RoundTablePitchMode::Ascending, ..config };
    assert(choices(ascending) == choices(config));
    vstd::arithmetic::div_mod::lemma_mod_bound(
        mixed(epoch.nonce ^ (sequence as u64)) as int,
        choices(config).len() as int,
    );
    vstd::arithmetic::div_mod::lemma_small_mod(turn as nat, choices(config).len());
}

/// A frequency that can be played is played as it is, and every other as the nearest
/// that can.
pub proof fn law_frequencies_are_kept_in_range(millihz: int)
    ensures
        30_000 <= millihz <= 240_000 ==> playable(millihz) == millihz,
        millihz < 30_000 ==> playable(millihz) == 30_000,
        millihz > 240_000 ==> playable(millihz) == 240_000,
{
}

} // verus!

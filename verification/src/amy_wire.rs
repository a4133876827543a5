//! Pure projection from a materialized Tutti music view to AMY wire messages.
//!
//! Nothing here links AMY. Desktop renderers and embedded leaves therefore
//! share exactly one transition compiler while each platform owns its own AMY
//! runtime and audio hardware.

use crate::collections;
use crate::collections::{SortedMap, SortedSet};
use crate::music::facets::{Envelope, EnvelopeView, Interp, MAX_ENV_LEVEL};
use crate::music::tuning::{TunedDegree, TunedPeriodicPitch, Tuning, TuningView};
use crate::text;
use vstd::prelude::*;

verus! {

/// A materialized pitch set cannot be represented by the configured AMY
/// oscillator pool.
#[derive(Clone, Copy, Debug, PartialEq, Eq, Structural)]
pub struct AmyVoiceCapacityError {
    pub required: usize,
    pub available: u16,
}

impl AmyVoiceCapacityError {
    pub fn message(&self) -> (message: String)
        ensures
            message@ == "AMY projection needs "@ + text::decimal(self.required as nat)
                + " voices but only "@ + text::decimal(self.available as nat)
                + " oscillators are available"@,
    {
        let mut message: String = text::string_of("AMY projection needs ");
        text::push_decimal(&mut message, self.required as u64);
        text::push_str(&mut message, " voices but only ");
        text::push_decimal(&mut message, self.available as u64);
        text::push_str(&mut message, " oscillators are available");
        message
    }
}

/// The oscillator that a pitch would like: its degree, spread over the pool by
/// its period.
pub open spec fn preferred(pitch: TunedPeriodicPitch, pool: int) -> int {
    (pitch.pitch.period * 257 + pitch.pitch.degree) % pool
}

/// The first oscillator from `start` on, going round the pool, that is not in
/// use; `tries` more are looked at.
pub open spec fn probe(used: Seq<u16>, start: int, pool: int, tries: nat) -> int
    decreases tries,
{
    if tries == 0 || !used.contains(start as u16) {
        start
    } else {
        probe(used, (start + 1) % pool, pool, (tries - 1) as nat)
    }
}

/// The oscillator of each pitch, in the order of the pitches.
pub open spec fn oscillators(pitches: Seq<TunedPeriodicPitch>, pool: int) -> Seq<u16>
    decreases pitches.len(),
{
    if pitches.len() == 0 {
        Seq::empty()
    } else {
        let used = oscillators(pitches.drop_last(), pool);
        used.push(
            probe(used, preferred(pitches.last(), pool), pool, pool as nat) as u16,
        )
    }
}

/// How often `x` is looked at by `tries` steps round the pool from `start`.
proof fn lemma_probe_finds(used: Seq<u16>, start: int, pool: int, tries: nat, free: int)
    requires
        0 <= start < pool <= 65535,
        0 <= free < pool,
        !used.contains(free as u16),
        tries > (free - start) % pool,
    ensures
        0 <= probe(used, start, pool, tries) < pool,
        !used.contains(probe(used, start, pool, tries) as u16),
    decreases tries,
{
    if used.contains(start as u16) {
        let next = (start + 1) % pool;
        assert(start != free);
        assert(0 <= next < pool);
        assert((free - next) % pool == (free - start) % pool - 1) by {
            lemma_distance_shrinks(start, free, pool);
        }
        lemma_probe_finds(used, next, pool, (tries - 1) as nat, free);
    }
}

proof fn lemma_distance_shrinks(start: int, free: int, pool: int)
    requires
        0 <= start < pool,
        0 <= free < pool,
        start != free,
    ensures
        (free - (start + 1) % pool) % pool == (free - start) % pool - 1,
        0 <= (start + 1) % pool < pool,
{
    let next = (start + 1) % pool;
    if start + 1 < pool {
        vstd::arithmetic::div_mod::lemma_small_mod((start + 1) as nat, pool as nat);
    } else {
        vstd::arithmetic::div_mod::lemma_mod_self_0(pool);
    }
    if free > start {
        vstd::arithmetic::div_mod::lemma_small_mod((free - start) as nat, pool as nat);
        vstd::arithmetic::div_mod::lemma_small_mod((free - next) as nat, pool as nat);
    } else {
        let d = free - start + pool;
        vstd::arithmetic::div_mod::lemma_mod_add_multiples_vanish(free - start, pool);
        vstd::arithmetic::div_mod::lemma_small_mod(d as nat, pool as nat);
        if start + 1 < pool {
            vstd::arithmetic::div_mod::lemma_mod_add_multiples_vanish(free - next, pool);
            vstd::arithmetic::div_mod::lemma_small_mod((d - 1) as nat, pool as nat);
        } else {
            vstd::arithmetic::div_mod::lemma_small_mod(free as nat, pool as nat);
        }
    }
}

/// Fewer oscillators in use than there are leave one free.
proof fn lemma_free_exists(used: Seq<u16>, pool: int) -> (free: int)
    requires
        used.len() < pool <= 65535,
    ensures
        0 <= free < pool,
        !used.contains(free as u16),
    decreases used.len(),
{
    let all = Set::new(|x: u16| 0 <= x < pool);
    if forall|x: u16| x < pool ==> used.contains(x) {
        lemma_pool_len(pool);
        assert(all.subset_of(used.to_set()));
        vstd::seq_lib::seq_to_set_is_finite(used);
        vstd::set_lib::lemma_len_subset(all, used.to_set());
        used.lemma_cardinality_of_set();
        0
    } else {
        let x = choose|x: u16| x < pool && !used.contains(x);
        x as int
    }
}

proof fn lemma_pool_len(pool: int)
    requires
        0 <= pool <= 65535,
    ensures
        Set::new(|x: u16| 0 <= x < pool).finite(),
        Set::new(|x: u16| 0 <= x < pool).len() == pool,
    decreases pool,
{
    let all = Set::new(|x: u16| 0 <= x < pool);
    if pool == 0 {
        assert(all =~= Set::<u16>::empty());
    } else {
        lemma_pool_len(pool - 1);
        assert(all =~= Set::new(|x: u16| 0 <= x < pool - 1).insert((pool - 1) as u16));
    }
}

/// No two pitches share an oscillator, and every oscillator is in the pool.
pub proof fn law_oscillators_are_distinct(pitches: Seq<TunedPeriodicPitch>, pool: int)
    requires
        pitches.len() <= pool <= 65535,
    ensures
        oscillators(pitches, pool).len() == pitches.len(),
        oscillators(pitches, pool).no_duplicates(),
        forall|i: int| 0 <= i < pitches.len() ==> (#[trigger] oscillators(pitches, pool)[i]) < pool,
    decreases pitches.len(),
{
    if pitches.len() > 0 {
        let earlier = pitches.drop_last();
        law_oscillators_are_distinct(earlier, pool);
        let used = oscillators(earlier, pool);
        let start = preferred(pitches.last(), pool);
        vstd::arithmetic::div_mod::lemma_mod_bound(
            pitches.last().pitch.period * 257 + pitches.last().pitch.degree,
            pool,
        );
        let free = lemma_free_exists(used, pool);
        vstd::arithmetic::div_mod::lemma_mod_bound(free - start, pool);
        lemma_probe_finds(used, start, pool, pool as nat, free);
        let all = oscillators(pitches, pool);
        assert forall|i: int, j: int| 0 <= i < all.len() && 0 <= j < all.len() && i
            != j implies all[i] != all[j] by {
            if i < used.len() {
                assert(used.contains(used[i]));
            }
            if j < used.len() {
                assert(used.contains(used[j]));
            }
        }
    }
}

/// A pitch keeps the oscillator it prefers, unless a pitch before it took it.
pub proof fn law_preferred_oscillator_is_kept(pitches: Seq<TunedPeriodicPitch>, pool: int)
    requires
        0 < pitches.len() <= pool <= 65535,
        !oscillators(pitches.drop_last(), pool).contains(preferred(pitches.last(), pool) as u16),
    ensures
        oscillators(pitches, pool).last() == preferred(pitches.last(), pool),
{
    vstd::arithmetic::div_mod::lemma_mod_bound(
        pitches.last().pitch.period * 257 + pitches.last().pitch.degree,
        pool,
    );
}

/// Deterministically assign distinct oscillators to every pitch.
///
/// A degree's index remains its preferred oscillator, which keeps the wire
/// compact for ordinary scales. Collisions use deterministic linear probing
/// instead of aliasing two sounding pitches onto one oscillator.
fn assignments(pitches: &[TunedPeriodicPitch], max_oscs: u16) -> (result: Result<
    Vec<u16>,
    AmyVoiceCapacityError,
>)
    ensures
        match result {
            Ok(assigned) => pitches@.len() <= max_oscs && assigned@ == oscillators(
                pitches@,
                max_oscs as int,
            ),
            Err(error) => pitches@.len() > max_oscs && error == (AmyVoiceCapacityError {
                required: pitches@.len() as usize,
                available: max_oscs,
            }),
        },
{
    if pitches.len() > max_oscs as usize {
        return Err(
            AmyVoiceCapacityError { required: pitches.len(), available: max_oscs },
        );
    }
    let mut assigned: Vec<u16> = Vec::new();
    let mut used: Vec<bool> = Vec::new();
    let mut k: usize = 0;
    while k < max_oscs as usize
        invariant
            k <= max_oscs,
            used@.len() == k,
            forall|o: int| 0 <= o < k ==> !used@[o],
        decreases max_oscs - k,
    {
        used.push(false);
        k = k + 1;
    }
    let mut i: usize = 0;
    assert(pitches@.subrange(0, 0).len() == 0);
    while i < pitches.len()
        invariant
            i <= pitches@.len() <= max_oscs,
            used@.len() == max_oscs,
            assigned@ == oscillators(pitches@.subrange(0, i as int), max_oscs as int),
            assigned@.len() == i,
            forall|o: int|
                0 <= o < max_oscs ==> #[trigger] used@[o] == assigned@.contains(o as u16),
        decreases pitches@.len() - i,
    {
        let pitch: TunedPeriodicPitch = pitches[i];
        let pool: i64 = max_oscs as i64;
        let spread: i64 = (pitch.pitch.period as i64) * 257 + pitch.pitch.degree as i64;
        let start: u16 = euclid(spread, max_oscs);
        let oscillator: u16 = first_free(&used, start, max_oscs, &assigned);
        proof {
            let prefix = pitches@.subrange(0, i + 1);
            assert(prefix.drop_last() =~= pitches@.subrange(0, i as int));
            law_oscillators_are_distinct(prefix, max_oscs as int);
            assert(oscillators(prefix, max_oscs as int)[i as int] < max_oscs);
        }
        let ghost before = assigned@;
        assigned.push(oscillator);
        used.set(oscillator as usize, true);
        proof {
            assert forall|o: int| 0 <= o < max_oscs implies #[trigger] used@[o]
                == assigned@.contains(o as u16) by {
                assert(assigned@[i as int] == oscillator);
                if before.contains(o as u16) {
                    let j = before.index_of(o as u16);
                    assert(assigned@[j] == o as u16);
                }
                if assigned@.contains(o as u16) && o as u16 != oscillator {
                    let j = assigned@.index_of(o as u16);
                    assert(before[j] == o as u16);
                }
            }
        }
        i = i + 1;
    }
    assert(pitches@.subrange(0, i as int) =~= pitches@);
    Ok(assigned)
}

/// The remainder in `0..pool`.
fn euclid(x: i64, pool: u16) -> (r: u16)
    requires
        pool > 0,
        -0x100_0000_0000 <= x <= 0x100_0000_0000,
    ensures
        r == x as int % pool as int,
{
    proof {
        let (p, q) = (pool as int, 0x200_0000_0000int / pool as int);
        vstd::arithmetic::div_mod::lemma_fundamental_div_mod(0x200_0000_0000, p);
        vstd::arithmetic::div_mod::lemma_mod_bound(0x200_0000_0000, p);
        vstd::arithmetic::mul::lemma_mul_is_commutative(p, q);
        vstd::arithmetic::div_mod::lemma_mod_multiples_vanish(q, x as int, p);
    }
    // A multiple of the pool that makes the number non-negative.
    let lift: u64 = 0x200_0000_0000 / (pool as u64) * (pool as u64);
    let lifted: u64 = (x + lift as i64) as u64;
    (lifted % (pool as u64)) as u16
}

fn first_free(used: &Vec<bool>, start: u16, pool: u16, assigned: &Vec<u16>) -> (free: u16)
    requires
        start < pool,
        used@.len() == pool,
        forall|o: int| 0 <= o < pool ==> #[trigger] used@[o] == assigned@.contains(o as u16),
    ensures
        free == probe(assigned@, start as int, pool as int, pool as nat),
{
    let mut candidate: u16 = start;
    let mut tries: u16 = pool;
    while tries > 0 && used[candidate as usize]
        invariant
            candidate < pool,
            used@.len() == pool,
            forall|o: int| 0 <= o < pool ==> #[trigger] used@[o] == assigned@.contains(o as u16),
            probe(assigned@, candidate as int, pool as int, tries as nat) == probe(
                assigned@,
                start as int,
                pool as int,
                pool as nat,
            ),
        decreases tries,
    {
        assert(used@[candidate as int]);
        proof {
            if candidate + 1 < pool {
                vstd::arithmetic::div_mod::lemma_small_mod((candidate + 1) as nat, pool as nat);
            } else {
                vstd::arithmetic::div_mod::lemma_mod_self_0(pool as int);
            }
        }
        candidate =
        if candidate + 1 < pool {
            candidate + 1
        } else {
            0
        };
        tries = tries - 1;
    }
    proof {
        if tries > 0 {
            assert(!used@[candidate as int]);
        }
    }
    candidate
}

/// Digits with leading zeros.
pub open spec fn padded(n: nat, width: nat) -> Seq<char>
    decreases width,
{
    if width == 0 {
        Seq::empty()
    } else {
        padded(n / 10, (width - 1) as nat).push(text::digit(n % 10))
    }
}

/// Digits after a decimal point, without trailing zeros.
pub open spec fn trimmed(n: nat, width: nat) -> Seq<char>
    decreases width,
{
    if width == 0 || n % 10 != 0 {
        padded(n, width)
    } else {
        trimmed(n / 10, (width - 1) as nat)
    }
}

/// A whole number of units, of which `scale` make one, as a decimal number
/// without trailing zeros. `width` is the number of digits after the point.
pub open spec fn fixed_point(units: nat, scale: nat, width: nat) -> Seq<char> {
    text::decimal(units / scale) + if units % scale == 0 {
        Seq::empty()
    } else {
        "."@ + trimmed(units % scale, width)
    }
}

/// A number of millionths of a unit as the nearest number of units, the even one
/// where two are equally near.
pub open spec fn nearest_unit(millionths: nat) -> nat {
    let (whole, rest) = (millionths / 1_000_000, millionths % 1_000_000);
    if rest < 500_000 || (rest == 500_000 && whole % 2 == 0) {
        whole
    } else {
        whole + 1
    }
}

/// A MIDI key, given in billionths, as AMY reads it: to the nearest thousandth.
/// A key less than a ten-thousandth below zero has no sign.
pub open spec fn key_text(billionths: int) -> Seq<char> {
    if billionths <= -100_000 {
        "-"@ + fixed_point(nearest_unit((-billionths) as nat), 1000, 3)
    } else if billionths < 0 {
        fixed_point(0, 1000, 3)
    } else {
        fixed_point(nearest_unit(billionths as nat), 1000, 3)
    }
}

/// A level, in ten-thousandths of full amplitude, to the nearest.
pub open spec fn level_units(level: u8) -> nat {
    let bounded = if level > MAX_ENV_LEVEL {
        MAX_ENV_LEVEL
    } else {
        level
    };
    ((20_000 * bounded + MAX_ENV_LEVEL) / (2 * MAX_ENV_LEVEL as int)) as nat
}

/// A level as AMY reads it.
pub open spec fn level_text(level: u8) -> Seq<char> {
    fixed_point(level_units(level), 10_000, 4)
}

pub fn push_padded(out: &mut String, n: u64, width: usize)
    ensures
        final(out)@ == old(out)@ + padded(n as nat, width as nat),
    decreases width,
{
    if width > 0 {
        push_padded(out, n / 10, width - 1);
        text::push_digit(out, n % 10);
    }
    assert(out@ =~= old(out)@ + padded(n as nat, width as nat));
}

fn push_trimmed(out: &mut String, n: u64, width: usize)
    ensures
        final(out)@ == old(out)@ + trimmed(n as nat, width as nat),
    decreases width,
{
    if width == 0 || n % 10 != 0 {
        push_padded(out, n, width);
    } else {
        push_trimmed(out, n / 10, width - 1);
    }
}

fn push_fixed_point(out: &mut String, units: u128, scale: u64, width: usize)
    requires
        scale > 0,
    ensures
        final(out)@ == old(out)@ + fixed_point(units as nat, scale as nat, width as nat),
{
    text::push_wide_decimal(out, units / (scale as u128));
    let part: u64 = (units % (scale as u128)) as u64;
    if part != 0 {
        text::push_str(out, ".");
        push_trimmed(out, part, width);
    }
    assert(out@ =~= old(out)@ + fixed_point(units as nat, scale as nat, width as nat));
}

/// The nearest number of units.
fn round_units(millionths: u128) -> (units: u128)
    ensures
        units == nearest_unit(millionths as nat),
{
    let whole: u128 = millionths / 1_000_000;
    let rest: u128 = millionths % 1_000_000;
    if rest < 500_000 || (rest == 500_000 && whole % 2 == 0) {
        whole
    } else {
        whole + 1
    }
}

/// Appends a MIDI key for AMY's compact wire grammar.
fn push_key(out: &mut String, billionths: i128)
    requires
        billionths > i128::MIN,
    ensures
        final(out)@ == old(out)@ + key_text(billionths as int),
{
    if billionths <= -100_000 {
        text::push_str(out, "-");
        push_fixed_point(out, round_units((-billionths) as u128), 1000, 3);
        assert(out@ =~= old(out)@ + key_text(billionths as int));
    } else if billionths < 0 {
        push_fixed_point(out, 0, 1000, 3);
    } else {
        push_fixed_point(out, round_units(billionths as u128), 1000, 3);
    }
}

fn push_level(out: &mut String, level: u8)
    ensures
        final(out)@ == old(out)@ + level_text(level),
{
    let bounded: u64 = if level > MAX_ENV_LEVEL {
        MAX_ENV_LEVEL as u64
    } else {
        level as u64
    };
    let units: u64 = (20_000 * bounded + MAX_ENV_LEVEL as u64) / (2 * MAX_ENV_LEVEL as u64);
    push_fixed_point(out, units as u128, 10_000, 4);
}

/// How long a step takes to jump.
pub const STEP_JUMP_MS: u16 = 1;

/// Each segment held at its old level until just before it ends.
pub open spec fn staircase(points: Seq<(u16, u8)>) -> Seq<(u16, u8)>
    decreases points.len(),
{
    if points.len() <= 1 {
        points
    } else {
        let (ms, level) = points.last();
        let held = if ms >= STEP_JUMP_MS {
            (ms - STEP_JUMP_MS) as u16
        } else {
            0u16
        };
        staircase(points.drop_last()).push((held, points[points.len() - 2].1)).push(
            (STEP_JUMP_MS, level),
        )
    }
}

fn make_staircase(points: &Vec<(u16, u8)>) -> (expanded: Vec<(u16, u8)>)
    ensures
        expanded@ == staircase(points@),
{
    let mut expanded: Vec<(u16, u8)> = Vec::new();
    if points.len() == 0 {
        assert(expanded@ =~= staircase(points@));
        return expanded;
    }
    expanded.push(points[0]);
    let mut i: usize = 1;
    assert(expanded@ =~= staircase(points@.subrange(0, 1)));
    while i < points.len()
        invariant
            1 <= i <= points@.len(),
            expanded@ == staircase(points@.subrange(0, i as int)),
        decreases points@.len() - i,
    {
        let previous_level: u8 = points[i - 1].1;
        let (ms, level): (u16, u8) = points[i];
        proof {
            let next = points@.subrange(0, i + 1);
            assert(next.drop_last() =~= points@.subrange(0, i as int));
        }
        let held: u16 = if ms >= STEP_JUMP_MS {
            ms - STEP_JUMP_MS
        } else {
            0
        };
        expanded.push((held, previous_level));
        expanded.push((STEP_JUMP_MS, level));
        i = i + 1;
    }
    assert(points@.subrange(0, i as int) =~= points@);
    expanded
}

/// Breakpoints as AMY reads them.
pub open spec fn points_text(points: Seq<(u16, u8)>) -> Seq<char>
    decreases points.len(),
{
    if points.len() == 0 {
        Seq::empty()
    } else {
        let (ms, level) = points.last();
        points_text(points.drop_last()) + (if points.len() > 1 {
            ","@
        } else {
            Seq::empty()
        }) + text::decimal(ms as nat) + ","@ + level_text(level)
    }
}

/// The breakpoints that AMY is given for an envelope.
pub open spec fn wire_points(envelope: EnvelopeView) -> Seq<(u16, u8)> {
    match envelope.interp {
        Interp::Step => staircase(envelope.points),
        _ => envelope.points,
    }
}

/// An envelope as AMY reads it: the breakpoints, then the kind of curve.
pub open spec fn envelope_text(envelope: EnvelopeView) -> Seq<char> {
    "A"@ + points_text(wire_points(envelope)) + "T"@ + match envelope.interp {
        Interp::Exp => "3"@,
        _ => "1"@,
    }
}

fn push_points(out: &mut String, points: &Vec<(u16, u8)>)
    ensures
        final(out)@ == old(out)@ + points_text(points@),
{
    let mut i: usize = 0;
    assert(points@.subrange(0, 0).len() == 0);
    assert(out@ =~= old(out)@ + points_text(points@.subrange(0, 0)));
    while i < points.len()
        invariant
            i <= points@.len(),
            out@ == old(out)@ + points_text(points@.subrange(0, i as int)),
        decreases points@.len() - i,
    {
        proof {
            assert(points@.subrange(0, i + 1).drop_last() =~= points@.subrange(0, i as int));
        }
        if i > 0 {
            text::push_str(out, ",");
        }
        let (ms, level): (u16, u8) = points[i];
        text::push_decimal(out, ms as u64);
        text::push_str(out, ",");
        push_level(out, level);
        assert(out@ =~= old(out)@ + points_text(points@.subrange(0, i + 1)));
        i = i + 1;
    }
    assert(points@.subrange(0, i as int) =~= points@);
}

fn push_envelope(out: &mut String, envelope: &Envelope)
    ensures
        final(out)@ == old(out)@ + envelope_text(envelope@),
{
    text::push_str(out, "A");
    match envelope.interp {
        Interp::Step => {
            let points: Vec<(u16, u8)> = make_staircase(&envelope.points);
            push_points(out, &points);
        },
        _ => {
            push_points(out, &envelope.points);
        },
    }
    text::push_str(out, "T");
    match envelope.interp {
        Interp::Exp => {
            text::push_str(out, "3");
        },
        _ => {
            text::push_str(out, "1");
        },
    }
    assert(out@ =~= old(out)@ + envelope_text(envelope@));
}

/// Project a converged envelope facet into AMY's amplitude-EG wire fragment.
pub fn envelope_to_amy(envelope: &Envelope) -> (wire: String)
    ensures
        wire@ == envelope_text(envelope@),
        wire@.last() == if envelope.interp is Exp {
            '3'
        } else {
            '1'
        },
{
    let mut wire: String = String::new();
    push_envelope(&mut wire, envelope);
    assert(wire@ =~= envelope_text(envelope@));
    proof {
        law_curves_have_their_codes(envelope@);
    }
    wire
}

/// What the instrument is told.
pub enum VoiceEvent {
    /// The oscillator falls silent.
    Off(u16),
    /// The oscillator sounds a pitch.
    On(u16, TunedPeriodicPitch),
}

/// The pitch that an oscillator sounds.
pub open spec fn sounding(
    pitches: Seq<TunedPeriodicPitch>,
    assigned: Seq<u16>,
    oscillator: u16,
) -> Option<TunedPeriodicPitch> {
    if assigned.contains(oscillator) {
        Some(pitches[assigned.index_of(oscillator)])
    } else {
        None
    }
}

/// What each oscillator sounds when a set of pitches is live.
pub open spec fn voices(pitches: Seq<TunedPeriodicPitch>, pool: int) -> spec_fn(u16) -> Option<
    TunedPeriodicPitch,
> {
    |oscillator: u16| sounding(pitches, oscillators(pitches, pool), oscillator)
}

/// The oscillators below `bound` that sounded something else before, in order.
pub open spec fn offs(
    before: spec_fn(u16) -> Option<TunedPeriodicPitch>,
    after: spec_fn(u16) -> Option<TunedPeriodicPitch>,
    bound: nat,
) -> Seq<VoiceEvent>
    decreases bound,
{
    if bound == 0 {
        Seq::empty()
    } else {
        let rest = offs(before, after, (bound - 1) as nat);
        let oscillator = (bound - 1) as u16;
        if before(oscillator) is Some && before(oscillator) != after(oscillator) {
            rest.push(VoiceEvent::Off(oscillator))
        } else {
            rest
        }
    }
}

/// The oscillators below `bound` that sound something new, in order.
pub open spec fn ons(
    before: spec_fn(u16) -> Option<TunedPeriodicPitch>,
    after: spec_fn(u16) -> Option<TunedPeriodicPitch>,
    bound: nat,
) -> Seq<VoiceEvent>
    decreases bound,
{
    if bound == 0 {
        Seq::empty()
    } else {
        let rest = ons(before, after, (bound - 1) as nat);
        let oscillator = (bound - 1) as u16;
        if after(oscillator) is Some && before(oscillator) != after(oscillator) {
            rest.push(VoiceEvent::On(oscillator, after(oscillator)->0))
        } else {
            rest
        }
    }
}

/// The transition from one set of live pitches to another: whatever falls
/// silent, then whatever sounds.
pub open spec fn transition(
    before: Seq<TunedPeriodicPitch>,
    after: Seq<TunedPeriodicPitch>,
    pool: u16,
) -> Seq<VoiceEvent> {
    offs(voices(before, pool as int), voices(after, pool as int), pool as nat) + ons(
        voices(before, pool as int),
        voices(after, pool as int),
        pool as nat,
    )
}

/// An event as AMY reads it.
pub open spec fn event_text(
    event: VoiceEvent,
    envelopes: Map<TunedDegree, Envelope>,
    tuning: TuningView,
) -> Seq<char> {
    match event {
        VoiceEvent::Off(oscillator) => "v"@ + text::decimal(oscillator as nat) + "l0"@,
        VoiceEvent::On(oscillator, pitch) => "v"@ + text::decimal(oscillator as nat) + "n"@
            + key_text(tuning.key_billionths(pitch.pitch)) + (if envelopes.dom().contains(
            pitch.class(),
        ) {
            envelope_text(envelopes[pitch.class()]@)
        } else {
            Seq::empty()
        }) + "l1"@,
    }
}

/// Whether the messages are the events, in order.
pub open spec fn spells(
    messages: Seq<String>,
    events: Seq<VoiceEvent>,
    envelopes: Map<TunedDegree, Envelope>,
    tuning: TuningView,
) -> bool {
    &&& messages.len() == events.len()
    &&& forall|i: int|
        0 <= i < events.len() ==> (#[trigger] messages[i])@ == event_text(
            events[i],
            envelopes,
            tuning,
        )
}

fn render_off(oscillator: u16) -> (message: String)
    ensures
        message@ == "v"@ + text::decimal(oscillator as nat) + "l0"@,
{
    let mut message: String = text::string_of("v");
    text::push_decimal(&mut message, oscillator as u64);
    text::push_str(&mut message, "l0");
    message
}

fn render_on(
    oscillator: u16,
    pitch: TunedPeriodicPitch,
    envelopes: &SortedMap<TunedDegree, Envelope>,
    tuning: &Tuning,
) -> (message: String)
    ensures
        message@ == event_text(VoiceEvent::On(oscillator, pitch), envelopes@, tuning@),
{
    let mut message: String = text::string_of("v");
    text::push_decimal(&mut message, oscillator as u64);
    text::push_str(&mut message, "n");
    push_key(&mut message, tuning.key_billionths(pitch.pitch));
    match envelopes.get(&pitch.degree()) {
        Some(envelope) => {
            push_envelope(&mut message, envelope);
        },
        None => {},
    }
    text::push_str(&mut message, "l1");
    assert(message@ =~= event_text(VoiceEvent::On(oscillator, pitch), envelopes@, tuning@));
    message
}

/// The pitch of each oscillator of the pool.
fn voice_table(pitches: &[TunedPeriodicPitch], assigned: &Vec<u16>, pool: u16) -> (table: Vec<
    Option<TunedPeriodicPitch>,
>)
    requires
        pitches@.len() == assigned@.len(),
        assigned@.no_duplicates(),
        forall|i: int| 0 <= i < assigned@.len() ==> (#[trigger] assigned@[i]) < pool,
    ensures
        table@.len() == pool,
        forall|o: int|
            0 <= o < pool ==> #[trigger] table@[o] == sounding(pitches@, assigned@, o as u16),
{
    let mut table: Vec<Option<TunedPeriodicPitch>> = Vec::new();
    let mut k: usize = 0;
    while k < pool as usize
        invariant
            k <= pool,
            table@.len() == k,
            forall|o: int| 0 <= o < k ==> #[trigger] table@[o] is None,
        decreases pool - k,
    {
        table.push(None);
        k = k + 1;
    }
    let mut i: usize = 0;
    while i < pitches.len()
        invariant
            i <= pitches@.len() == assigned@.len(),
            assigned@.no_duplicates(),
            forall|j: int| 0 <= j < assigned@.len() ==> (#[trigger] assigned@[j]) < pool,
            table@.len() == pool,
            forall|j: int|
                0 <= j < i ==> table@[(#[trigger] assigned@[j]) as int] == Some(pitches@[j]),
            forall|o: int|
                0 <= o < pool && !assigned@.subrange(0, i as int).contains(o as u16)
                    ==> #[trigger] table@[o] is None,
        decreases pitches@.len() - i,
    {
        let oscillator: u16 = assigned[i];
        let ghost before = table@;
        table.set(oscillator as usize, Some(pitches[i]));
        proof {
            let (short, long) = (
                assigned@.subrange(0, i as int),
                assigned@.subrange(0, i + 1),
            );
            assert forall|o: int| 0 <= o < pool && !long.contains(o as u16) implies (
            #[trigger] table@[o]) is None by {
                assert(long[i as int] == oscillator);
                if short.contains(o as u16) {
                    let j = short.index_of(o as u16);
                    assert(long[j] == o as u16);
                }
                assert(o != oscillator as int) by {
                    if o == oscillator as int {
                        assert(long.contains(long[i as int]));
                    }
                }
                assert(before[o] is None);
            }
        }
        i = i + 1;
    }
    proof {
        assert(assigned@.subrange(0, i as int) =~= assigned@);
        assert forall|o: int| 0 <= o < pool implies #[trigger] table@[o] == sounding(
            pitches@,
            assigned@,
            o as u16,
        ) by {
            if assigned@.contains(o as u16) {
                let j = assigned@.index_of(o as u16);
                assert(assigned@[j] as int == o);
            }
        }
    }
    table
}

fn same_voice(a: &Option<TunedPeriodicPitch>, b: &Option<TunedPeriodicPitch>) -> (r: bool)
    ensures
        r == (*a == *b),
{
    match (a, b) {
        (Some(x), Some(y)) => x.same(y),
        (None, None) => true,
        _ => false,
    }
}

/// Compile absolute periodic pitches into AMY messages. Unlike the degree-only
/// entry point, this preserves octave and period information from MIDI and other
/// live controllers.
///
/// Every live pitch receives a distinct oscillator. If collision resolution
/// changes a held pitch's oscillator, its old voice is stopped before the new
/// voice starts. Oversubscription is refused without a partial transition.
pub fn pitches_to_amy_events(
    before: &SortedSet<TunedPeriodicPitch>,
    after: &SortedSet<TunedPeriodicPitch>,
    envelopes: &SortedMap<TunedDegree, Envelope>,
    tuning: &Tuning,
    max_oscs: u16,
) -> (result: Result<Vec<String>, AmyVoiceCapacityError>)
    ensures
        match result {
            Ok(messages) => {
                &&& before@.len() <= max_oscs
                &&& after@.len() <= max_oscs
                &&& spells(
                    messages@,
                    transition(
                        collections::ascending_of(before@),
                        collections::ascending_of(after@),
                        max_oscs,
                    ),
                    envelopes@,
                    tuning@,
                )
            },
            Err(error) => if before@.len() > max_oscs {
                error == (AmyVoiceCapacityError {
                    required: before@.len() as usize,
                    available: max_oscs,
                })
            } else {
                after@.len() > max_oscs && error == (AmyVoiceCapacityError {
                    required: after@.len() as usize,
                    available: max_oscs,
                })
            },
        },
{
    before.expose();
    after.expose();
    let old_pitches: &[TunedPeriodicPitch] = before.as_slice();
    let new_pitches: &[TunedPeriodicPitch] = after.as_slice();
    let old_assigned: Vec<u16> = match assignments(old_pitches, max_oscs) {
        Ok(assigned) => assigned,
        Err(error) => {
            return Err(error);
        },
    };
    let new_assigned: Vec<u16> = match assignments(new_pitches, max_oscs) {
        Ok(assigned) => assigned,
        Err(error) => {
            return Err(error);
        },
    };
    proof {
        law_oscillators_are_distinct(old_pitches@, max_oscs as int);
        law_oscillators_are_distinct(new_pitches@, max_oscs as int);
    }
    let old_table: Vec<Option<TunedPeriodicPitch>> = voice_table(
        old_pitches,
        &old_assigned,
        max_oscs,
    );
    let new_table: Vec<Option<TunedPeriodicPitch>> = voice_table(
        new_pitches,
        &new_assigned,
        max_oscs,
    );
    let ghost (b, a) = (
        voices(old_pitches@, max_oscs as int),
        voices(new_pitches@, max_oscs as int),
    );
    let mut messages: Vec<String> = Vec::new();
    let mut o: u16 = 0;
    while o < max_oscs
        invariant
            o <= max_oscs,
            old_table@.len() == max_oscs,
            new_table@.len() == max_oscs,
            forall|k: int| 0 <= k < max_oscs ==> #[trigger] old_table@[k] == b(k as u16),
            forall|k: int| 0 <= k < max_oscs ==> #[trigger] new_table@[k] == a(k as u16),
            spells(messages@, offs(b, a, o as nat), envelopes@, tuning@),
        decreases max_oscs - o,
    {
        assert(old_table@[o as int] == b(o));
        assert(new_table@[o as int] == a(o));
        if old_table[o as usize].is_some() && !same_voice(
            &old_table[o as usize],
            &new_table[o as usize],
        ) {
            messages.push(render_off(o));
        }
        o = o + 1;
    }
    let ghost silenced = offs(b, a, max_oscs as nat);
    let mut o: u16 = 0;
    assert(silenced + ons(b, a, 0) =~= silenced);
    while o < max_oscs
        invariant
            o <= max_oscs,
            old_table@.len() == max_oscs,
            new_table@.len() == max_oscs,
            forall|k: int| 0 <= k < max_oscs ==> #[trigger] old_table@[k] == b(k as u16),
            forall|k: int| 0 <= k < max_oscs ==> #[trigger] new_table@[k] == a(k as u16),
            spells(messages@, silenced + ons(b, a, o as nat), envelopes@, tuning@),
        decreases max_oscs - o,
    {
        assert(old_table@[o as int] == b(o));
        assert(new_table@[o as int] == a(o));
        let ghost events = silenced + ons(b, a, o as nat);
        if let Some(pitch) = new_table[o as usize] {
            if !same_voice(&old_table[o as usize], &new_table[o as usize]) {
                messages.push(render_on(o, pitch, envelopes, tuning));
                assert(silenced + ons(b, a, (o + 1) as nat) =~= events.push(
                    VoiceEvent::On(o, pitch),
                ));
            } else {
                assert(silenced + ons(b, a, (o + 1) as nat) =~= events);
            }
        } else {
            assert(silenced + ons(b, a, (o + 1) as nat) =~= events);
        }
        o = o + 1;
    }
    Ok(messages)
}

/// The pitches of a set of degrees, in period zero.
pub open spec fn degree_pitches(degrees: Set<TunedDegree>) -> Set<TunedPeriodicPitch> {
    Set::new(
        |pitch: TunedPeriodicPitch| pitch.pitch.period == 0 && degrees.contains(pitch.class()),
    )
}

fn pitches_of(degrees: &SortedSet<TunedDegree>) -> (pitches: SortedSet<TunedPeriodicPitch>)
    ensures
        pitches@ == degree_pitches(degrees@),
{
    let items: &[TunedDegree] = degrees.as_slice();
    let mut pitches: SortedSet<TunedPeriodicPitch> = SortedSet::new();
    let mut i: usize = 0;
    assert(items@.subrange(0, 0).to_set() =~= Set::<TunedDegree>::empty());
    assert(pitches@ =~= degree_pitches(items@.subrange(0, 0).to_set()));
    while i < items.len()
        invariant
            i <= items@.len(),
            pitches@ == degree_pitches(items@.subrange(0, i as int).to_set()),
        decreases items@.len() - i,
    {
        let degree: TunedDegree = items[i];
        let pitch = TunedPeriodicPitch {
            tuning_id: degree.tuning_id,
            pitch: crate::music::tuning::PeriodicPitch::from_degree(degree.degree, 0),
        };
        proof {
            collections::lemma_prefix_set(items@, i as int);
            assert(degree_pitches(items@.subrange(0, i + 1).to_set()) =~= degree_pitches(
                items@.subrange(0, i as int).to_set(),
            ).insert(pitch));
        }
        pitches.insert(pitch);
        i = i + 1;
    }
    assert(items@.subrange(0, i as int) =~= items@);
    pitches
}

/// Compile one exact transition between sets of degrees into AMY messages: each
/// degree sounds in period zero.
pub fn degrees_to_amy_events(
    before: &SortedSet<TunedDegree>,
    after: &SortedSet<TunedDegree>,
    envelopes: &SortedMap<TunedDegree, Envelope>,
    tuning: &Tuning,
    max_oscs: u16,
) -> (result: Result<Vec<String>, AmyVoiceCapacityError>)
    ensures
        ({
            let (b, a) = (degree_pitches(before@), degree_pitches(after@));
            match result {
                Ok(messages) => {
                    &&& b.len() <= max_oscs
                    &&& a.len() <= max_oscs
                    &&& spells(
                        messages@,
                        transition(
                            collections::ascending_of(b),
                            collections::ascending_of(a),
                            max_oscs,
                        ),
                        envelopes@,
                        tuning@,
                    )
                },
                Err(error) => if b.len() > max_oscs {
                    error == (AmyVoiceCapacityError {
                        required: b.len() as usize,
                        available: max_oscs,
                    })
                } else {
                    a.len() > max_oscs && error == (AmyVoiceCapacityError {
                        required: a.len() as usize,
                        available: max_oscs,
                    })
                },
            }
        }),
{
    let before: SortedSet<TunedPeriodicPitch> = pitches_of(before);
    let after: SortedSet<TunedPeriodicPitch> = pitches_of(after);
    pitches_to_amy_events(&before, &after, envelopes, tuning, max_oscs)
}

/// What the oscillators sound after an event.
pub open spec fn played(
    state: spec_fn(u16) -> Option<TunedPeriodicPitch>,
    event: VoiceEvent,
) -> spec_fn(u16) -> Option<TunedPeriodicPitch> {
    match event {
        VoiceEvent::Off(oscillator) => |o: u16|
            if o == oscillator {
                None
            } else {
                state(o)
            },
        VoiceEvent::On(oscillator, pitch) => |o: u16|
            if o == oscillator {
                Some(pitch)
            } else {
                state(o)
            },
    }
}

/// What the oscillators sound after a sequence of events.
pub open spec fn performed(
    state: spec_fn(u16) -> Option<TunedPeriodicPitch>,
    events: Seq<VoiceEvent>,
) -> spec_fn(u16) -> Option<TunedPeriodicPitch>
    decreases events.len(),
{
    if events.len() == 0 {
        state
    } else {
        played(performed(state, events.drop_last()), events.last())
    }
}

pub proof fn lemma_performed_join(
    state: spec_fn(u16) -> Option<TunedPeriodicPitch>,
    first: Seq<VoiceEvent>,
    second: Seq<VoiceEvent>,
)
    ensures
        performed(state, first + second) == performed(performed(state, first), second),
    decreases second.len(),
{
    if second.len() == 0 {
        assert(first + second =~= first);
    } else {
        lemma_performed_join(state, first, second.drop_last());
        assert((first + second).drop_last() =~= first + second.drop_last());
    }
}

proof fn lemma_after_offs(
    before: spec_fn(u16) -> Option<TunedPeriodicPitch>,
    after: spec_fn(u16) -> Option<TunedPeriodicPitch>,
    bound: nat,
    o: u16,
)
    requires
        bound <= 65536,
    ensures
        performed(before, offs(before, after, bound))(o) == if o < bound && before(o)
            != after(o) {
            None
        } else {
            before(o)
        },
    decreases bound,
{
    if bound > 0 {
        lemma_after_offs(before, after, (bound - 1) as nat, o);
        let rest = offs(before, after, (bound - 1) as nat);
        let x = (bound - 1) as u16;
        if before(x) is Some && before(x) != after(x) {
            assert(rest.push(VoiceEvent::Off(x)).drop_last() =~= rest);
        }
    }
}

proof fn lemma_after_ons(
    before: spec_fn(u16) -> Option<TunedPeriodicPitch>,
    after: spec_fn(u16) -> Option<TunedPeriodicPitch>,
    state: spec_fn(u16) -> Option<TunedPeriodicPitch>,
    bound: nat,
    o: u16,
)
    requires
        bound <= 65536,
    ensures
        performed(state, ons(before, after, bound))(o) == if o < bound && after(o) is Some
            && before(o) != after(o) {
            after(o)
        } else {
            state(o)
        },
    decreases bound,
{
    if bound > 0 {
        lemma_after_ons(before, after, state, (bound - 1) as nat, o);
        let rest = ons(before, after, (bound - 1) as nat);
        let x = (bound - 1) as u16;
        if after(x) is Some && before(x) != after(x) {
            assert(rest.push(VoiceEvent::On(x, after(x)->0)).drop_last() =~= rest);
        }
    }
}

/// No stuck notes: an instrument that sounds the earlier set and plays the
/// transition sounds exactly the later set.
pub proof fn law_transition_reaches_the_later_set(
    before: Seq<TunedPeriodicPitch>,
    after: Seq<TunedPeriodicPitch>,
    pool: u16,
    oscillator: u16,
)
    requires
        before.len() <= pool,
        after.len() <= pool,
    ensures
        performed(voices(before, pool as int), transition(before, after, pool))(oscillator)
            == voices(after, pool as int)(oscillator),
{
    let (b, a) = (voices(before, pool as int), voices(after, pool as int));
    law_oscillators_are_distinct(before, pool as int);
    law_oscillators_are_distinct(after, pool as int);
    let silenced = offs(b, a, pool as nat);
    lemma_performed_join(b, silenced, ons(b, a, pool as nat));
    lemma_after_offs(b, a, pool as nat, oscillator);
    lemma_after_ons(b, a, performed(b, silenced), pool as nat, oscillator);
    if b(oscillator) is Some {
        let i = oscillators(before, pool as int).index_of(oscillator);
        assert(oscillators(before, pool as int)[i] < pool);
    }
    if a(oscillator) is Some {
        let i = oscillators(after, pool as int).index_of(oscillator);
        assert(oscillators(after, pool as int)[i] < pool);
    }
}

/// A note starts only on an oscillator that is silent: every voice that changes
/// was stopped by the offs, which all come first.
pub proof fn law_notes_start_on_silent_oscillators(
    before: Seq<TunedPeriodicPitch>,
    after: Seq<TunedPeriodicPitch>,
    pool: u16,
    oscillator: u16,
)
    requires
        before.len() <= pool,
        after.len() <= pool,
        voices(after, pool as int)(oscillator) is Some,
        voices(before, pool as int)(oscillator) != voices(after, pool as int)(oscillator),
    ensures
        performed(
            voices(before, pool as int),
            offs(voices(before, pool as int), voices(after, pool as int), pool as nat),
        )(oscillator) is None,
{
    let (b, a) = (voices(before, pool as int), voices(after, pool as int));
    law_oscillators_are_distinct(after, pool as int);
    let i = oscillators(after, pool as int).index_of(oscillator);
    assert(oscillators(after, pool as int)[i] < pool);
    lemma_after_offs(b, a, pool as nat, oscillator);
}

/// Whether every note starts on a silent oscillator and every end hits one that
/// sounds.
pub open spec fn orderly(
    state: spec_fn(u16) -> Option<TunedPeriodicPitch>,
    events: Seq<VoiceEvent>,
) -> bool
    decreases events.len(),
{
    events.len() == 0 || {
        &&& orderly(state, events.drop_last())
        &&& match events.last() {
            VoiceEvent::Off(o) => performed(state, events.drop_last())(o) is Some,
            VoiceEvent::On(o, _) => performed(state, events.drop_last())(o) is None,
        }
    }
}

pub proof fn lemma_orderly_join(
    state: spec_fn(u16) -> Option<TunedPeriodicPitch>,
    first: Seq<VoiceEvent>,
    second: Seq<VoiceEvent>,
)
    requires
        orderly(state, first),
        orderly(performed(state, first), second),
    ensures
        orderly(state, first + second),
    decreases second.len(),
{
    if second.len() == 0 {
        assert(first + second =~= first);
    } else {
        lemma_orderly_join(state, first, second.drop_last());
        lemma_performed_join(state, first, second.drop_last());
        assert((first + second).drop_last() =~= first + second.drop_last());
    }
}

proof fn lemma_offs_are_orderly(
    before: spec_fn(u16) -> Option<TunedPeriodicPitch>,
    after: spec_fn(u16) -> Option<TunedPeriodicPitch>,
    bound: nat,
)
    requires
        bound <= 65536,
    ensures
        orderly(before, offs(before, after, bound)),
    decreases bound,
{
    if bound > 0 {
        lemma_offs_are_orderly(before, after, (bound - 1) as nat);
        let rest = offs(before, after, (bound - 1) as nat);
        let x = (bound - 1) as u16;
        lemma_after_offs(before, after, (bound - 1) as nat, x);
        if before(x) is Some && before(x) != after(x) {
            assert(rest.push(VoiceEvent::Off(x)).drop_last() =~= rest);
        }
    }
}

proof fn lemma_ons_are_orderly(
    before: spec_fn(u16) -> Option<TunedPeriodicPitch>,
    after: spec_fn(u16) -> Option<TunedPeriodicPitch>,
    state: spec_fn(u16) -> Option<TunedPeriodicPitch>,
    bound: nat,
)
    requires
        bound <= 65536,
        forall|o: u16|
            o < bound && #[trigger] after(o) is Some && before(o) != after(o) ==> state(
                o,
            ) is None,
    ensures
        orderly(state, ons(before, after, bound)),
    decreases bound,
{
    if bound > 0 {
        lemma_ons_are_orderly(before, after, state, (bound - 1) as nat);
        let rest = ons(before, after, (bound - 1) as nat);
        let x = (bound - 1) as u16;
        lemma_after_ons(before, after, state, (bound - 1) as nat, x);
        if after(x) is Some && before(x) != after(x) {
            assert(rest.push(VoiceEvent::On(x, after(x)->0)).drop_last() =~= rest);
        }
    }
}

/// A transition starts notes on silent oscillators only and ends only notes that
/// sound.
pub proof fn law_transitions_are_orderly(
    before: Seq<TunedPeriodicPitch>,
    after: Seq<TunedPeriodicPitch>,
    pool: u16,
)
    requires
        before.len() <= pool,
        after.len() <= pool,
    ensures
        orderly(voices(before, pool as int), transition(before, after, pool)),
{
    let (b, a) = (voices(before, pool as int), voices(after, pool as int));
    let silenced = offs(b, a, pool as nat);
    lemma_offs_are_orderly(b, a, pool as nat);
    assert forall|o: u16|
        o < pool && #[trigger] a(o) is Some && b(o) != a(o) implies performed(b, silenced)(
        o,
    ) is None by {
        lemma_after_offs(b, a, pool as nat, o);
    }
    lemma_ons_are_orderly(b, a, performed(b, silenced), pool as nat);
    lemma_orderly_join(b, silenced, ons(b, a, pool as nat));
}

/// Every live pitch sounds on an oscillator of its own.
pub proof fn law_every_pitch_sounds(pitches: Seq<TunedPeriodicPitch>, pool: u16, i: int)
    requires
        pitches.len() <= pool,
        0 <= i < pitches.len(),
    ensures
        voices(pitches, pool as int)(oscillators(pitches, pool as int)[i]) == Some(pitches[i]),
{
    law_oscillators_are_distinct(pitches, pool as int);
    let all = oscillators(pitches, pool as int);
    assert(all.contains(all[i]));
    assert(all.index_of(all[i]) == i);
}

/// An envelope's text begins with its sign and ends with the code of its curve:
/// straight lines for linear and stepped envelopes, exponentials for the others.
pub proof fn law_curves_have_their_codes(envelope: EnvelopeView)
    ensures
        envelope_text(envelope).len() >= 3,
        envelope_text(envelope)[0] == 'A',
        envelope_text(envelope)[envelope_text(envelope).len() - 2] == 'T',
        envelope.interp is Linear ==> envelope_text(envelope).last() == '1',
        envelope.interp is Step ==> envelope_text(envelope).last() == '1',
        envelope.interp is Exp ==> envelope_text(envelope).last() == '3',
{
    reveal_strlit("A");
    reveal_strlit("T");
    reveal_strlit("1");
    reveal_strlit("3");
}

/// An exponential envelope never reads like a linear or a stepped one.
pub proof fn law_curves_are_told_apart(a: EnvelopeView, b: EnvelopeView)
    requires
        a.interp is Exp,
        b.interp !is Exp,
    ensures
        envelope_text(a) != envelope_text(b),
{
    law_curves_have_their_codes(a);
    law_curves_have_their_codes(b);
}

/// Between its sign and its curve an envelope's text lists breakpoints: those of the
/// envelope itself, unless it is stepped.
pub proof fn law_envelopes_list_their_breakpoints(envelope: EnvelopeView)
    ensures
        envelope.interp !is Step ==> envelope_text(envelope).subrange(
            1,
            envelope_text(envelope).len() - 2,
        ) == points_text(envelope.points),
        envelope.interp is Step ==> envelope_text(envelope).subrange(
            1,
            envelope_text(envelope).len() - 2,
        ) == points_text(staircase(envelope.points)),
{
    reveal_strlit("A");
    reveal_strlit("T");
    reveal_strlit("1");
    reveal_strlit("3");
    assert(envelope_text(envelope).subrange(1, envelope_text(envelope).len() - 2) =~= points_text(
        wire_points(envelope),
    ));
}

/// A stepped envelope keeps its first breakpoint. Every later one becomes two: the
/// level before it is held until a millisecond before the end, and then the new
/// level is reached in a millisecond.
pub proof fn law_steps_hold_and_jump(points: Seq<(u16, u8)>, i: int)
    requires
        0 <= i < points.len(),
    ensures
        staircase(points).len() == 2 * points.len() - 1,
        staircase(points)[0] == points[0],
        i > 0 ==> {
            &&& staircase(points)[2 * i - 1].1 == points[i - 1].1
            &&& points[i].0 >= 1 ==> staircase(points)[2 * i - 1].0 == points[i].0 - 1
            &&& points[i].0 == 0 ==> staircase(points)[2 * i - 1].0 == 0
            &&& staircase(points)[2 * i].0 == 1
            &&& staircase(points)[2 * i].1 == points[i].1
        },
    decreases points.len(),
{
    if points.len() > 1 {
        let earlier = points.drop_last();
        let k = if i < earlier.len() {
            i
        } else {
            0
        };
        law_steps_hold_and_jump(earlier, k);
        let (s, t) = (staircase(earlier), staircase(points));
        assert(t.len() == s.len() + 2);
        assert(t[0] == s[0]);
        if 0 < i < earlier.len() {
            assert(t[2 * i] == s[2 * i]);
            assert(t[2 * i - 1] == s[2 * i - 1]);
        }
    }
}

/// One breakpoint is its length in milliseconds and its level, with a comma between
/// them, and so are two lists of breakpoints.
pub proof fn law_breakpoints_are_listed(
    first: Seq<(u16, u8)>,
    second: Seq<(u16, u8)>,
    point: (u16, u8),
)
    requires
        first.len() > 0,
        second.len() > 0,
    ensures
        points_text(seq![point]) == text::decimal(point.0 as nat) + seq![','] + level_text(point.1),
        points_text(first + second) == points_text(first) + seq![','] + points_text(second),
    decreases second.len(),
{
    reveal_strlit(",");
    assert(","@ =~= seq![',']);
    let single = seq![point];
    assert(single.drop_last() =~= Seq::<(u16, u8)>::empty());
    assert(points_text(single.drop_last()) =~= Seq::<char>::empty());
    assert(points_text(single) =~= text::decimal(point.0 as nat) + seq![','] + level_text(
        point.1,
    ));
    let both = first + second;
    assert(both.drop_last() =~= first + second.drop_last());
    assert(both.last() == second.last());
    if second.len() > 1 {
        law_breakpoints_are_listed(first, second.drop_last(), point);
    } else {
        assert(both.drop_last() =~= first);
        assert(second.drop_last() =~= Seq::<(u16, u8)>::empty());
        assert(points_text(second.drop_last()) =~= Seq::<char>::empty());
    }
    assert(points_text(both) =~= points_text(first) + seq![','] + points_text(second));
}

/// A level is given to the nearest ten-thousandth of full amplitude, and one above
/// the top is the top.
pub proof fn law_levels_are_nearest(level: u8)
    ensures
        level <= 127 ==> -127 <= 2 * (127 * level_units(level) - 10_000 * level) <= 127,
        level >= 127 ==> level_units(level) == 10_000,
        level_text(level) == fixed_point(level_units(level), 10_000, 4),
{
    let q = (20_000 * level + 127) / 254;
    assert(254 * q <= 20_000 * level + 127 < 254 * q + 254);
    if level <= 127 {
        assert(level_units(level) == q);
    }
    if level >= 127 {
        let top = 2_540_127int / 254;
        assert(254 * top <= 2_540_127 < 254 * top + 254);
        assert(20_000 * 127int + 127 == 2_540_127);
        assert(level_units(level) == top);
    }
}

proof fn lemma_padded_reads_back(n: nat, width: nat)
    ensures
        padded(n, width).len() == width,
        n < vstd::arithmetic::power::pow(10, width) ==> text::number_of(padded(n, width)) == n,
        forall|i: int| 0 <= i < width ==> text::is_digit(#[trigger] padded(n, width)[i]),
        width > 0 ==> padded(n, width).last() == text::digit(n % 10),
    decreases width,
{
    reveal(vstd::arithmetic::power::pow);
    if width > 0 {
        lemma_padded_reads_back(n / 10, (width - 1) as nat);
        let s = padded(n, width);
        assert(s.drop_last() =~= padded(n / 10, (width - 1) as nat));
        assert forall|i: int| 0 <= i < width implies text::is_digit(#[trigger] s[i]) by {
            if i < width - 1 {
                assert(s[i] == padded(n / 10, (width - 1) as nat)[i]);
            }
        }
    }
}

proof fn lemma_trimmed_reads_back(n: nat, width: nat)
    requires
        0 < n < vstd::arithmetic::power::pow(10, width),
    ensures
        0 < trimmed(n, width).len() <= width,
        trimmed(n, width).last() != '0',
        forall|i: int|
            0 <= i < trimmed(n, width).len() ==> text::is_digit(#[trigger] trimmed(n, width)[i]),
        text::number_of(trimmed(n, width)) * vstd::arithmetic::power::pow(
            10,
            (width - trimmed(n, width).len()) as nat,
        ) == n,
    decreases width,
{
    reveal(vstd::arithmetic::power::pow);
    lemma_padded_reads_back(n, width);
    if width > 0 && n % 10 == 0 {
        lemma_trimmed_reads_back(n / 10, (width - 1) as nat);
        let f = trimmed(n, width);
        let (m, p) = (
            text::number_of(f) as int,
            vstd::arithmetic::power::pow(10, (width - 1 - f.len()) as nat),
        );
        assert(vstd::arithmetic::power::pow(10, (width - f.len()) as nat) == 10 * p);
        assert(m * (10 * p) == 10 * (m * p)) by (nonlinear_arith);
    } else {
        assert(vstd::arithmetic::power::pow(10, 0) == 1);
    }
}

/// A decimal number reads back as the units it was written for: its whole part, and
/// where there is a rest, a point and the digits of the rest, the last of which is
/// not zero.
pub proof fn law_decimals_read_back(units: nat, scale: nat, width: nat) -> (parts: (
    Seq<char>,
    Seq<char>,
))
    requires
        scale == vstd::arithmetic::power::pow(10, width),
    ensures
        ({
            let (whole, rest) = parts;
            &&& forall|i: int| 0 <= i < whole.len() ==> text::is_digit(#[trigger] whole[i])
            &&& forall|i: int| 0 <= i < rest.len() ==> text::is_digit(#[trigger] rest[i])
            &&& rest.len() == 0 ==> fixed_point(units, scale, width) == whole
            &&& rest.len() > 0 ==> fixed_point(units, scale, width) == whole + seq!['.'] + rest
                && rest.last() != '0'
            &&& rest.len() <= width
            &&& units == text::number_of(whole) * scale + text::number_of(rest)
                * vstd::arithmetic::power::pow(10, (width - rest.len()) as nat)
        }),
{
    reveal_strlit(".");
    assert("."@ =~= seq!['.']);
    vstd::arithmetic::power::lemma_pow_positive(10, width);
    vstd::arithmetic::div_mod::lemma_fundamental_div_mod(units as int, scale as int);
    vstd::arithmetic::mul::lemma_mul_is_commutative(scale as int, units as int / scale as int);
    let whole = text::decimal(units / scale);
    text::lemma_decimal_reads_back(units / scale);
    vstd::arithmetic::div_mod::lemma_mod_bound(units as int, scale as int);
    if units % scale == 0 {
        assert(fixed_point(units, scale, width) =~= whole);
        assert(text::number_of(Seq::<char>::empty()) == 0);
        assert(0 * vstd::arithmetic::power::pow(10, width) == 0);
        (whole, Seq::empty())
    } else {
        lemma_trimmed_reads_back(units % scale, width);
        assert(fixed_point(units, scale, width) =~= whole + seq!['.'] + trimmed(
            units % scale,
            width,
        ));
        (whole, trimmed(units % scale, width))
    }
}

/// A MIDI key is given to the nearest thousandth, the even one where two are equally
/// near. It has a sign where it lies at least a ten-thousandth below zero.
pub proof fn law_keys_are_nearest_thousandths(billionths: int) -> (thousandths: nat)
    ensures
        billionths >= 0 ==> key_text(billionths) == fixed_point(thousandths, 1000, 3),
        -100_000 < billionths < 0 ==> key_text(billionths) == fixed_point(thousandths, 1000, 3),
        billionths <= -100_000 ==> key_text(billionths) == seq!['-'] + fixed_point(
            thousandths,
            1000,
            3,
        ),
        ({
            let size = if billionths < 0 {
                -billionths
            } else {
                billionths
            };
            &&& -500_000 <= thousandths * 1_000_000 - size <= 500_000
            &&& (thousandths * 1_000_000 - size == 500_000 || thousandths * 1_000_000 - size
                == -500_000) ==> thousandths % 2 == 0
        }),
{
    reveal_strlit("-");
    assert("-"@ =~= seq!['-']);
    if billionths <= -100_000 {
        nearest_unit((-billionths) as nat)
    } else if billionths < 0 {
        0
    } else {
        nearest_unit(billionths as nat)
    }
}

/// The oscillator that a pitch would like is in the pool. In period zero it is the
/// degree, where the pool has it, and from period to period it moves on by 257.
pub proof fn law_pitches_prefer_their_degree(pitch: TunedPeriodicPitch, pool: int)
    requires
        0 < pool,
    ensures
        0 <= preferred(pitch, pool) < pool,
        pitch.pitch.period == 0 && pitch.pitch.degree < pool ==> preferred(pitch, pool)
            == pitch.pitch.degree,
        (257 * pitch.pitch.period + pitch.pitch.degree - preferred(pitch, pool)) % pool == 0,
{
    let spread = pitch.pitch.period * 257 + pitch.pitch.degree;
    vstd::arithmetic::div_mod::lemma_mod_bound(spread, pool);
    vstd::arithmetic::div_mod::lemma_fundamental_div_mod(spread, pool);
    vstd::arithmetic::mul::lemma_mul_is_commutative(pool, spread / pool);
    vstd::arithmetic::div_mod::lemma_mod_multiples_basic(spread / pool, pool);
    if 0 <= spread < pool {
        vstd::arithmetic::div_mod::lemma_small_mod(spread as nat, pool as nat);
    }
}

proof fn lemma_probe_steps(used: Seq<u16>, start: int, pool: int, tries: nat) -> (steps: int)
    requires
        0 <= start < pool <= 65535,
    ensures
        0 <= steps <= tries,
        probe(used, start, pool, tries) == (start + steps) % pool,
        forall|j: int| 0 <= j < steps ==> used.contains(#[trigger] ((start + j) % pool) as u16),
    decreases tries,
{
    if tries == 0 || !used.contains(start as u16) {
        vstd::arithmetic::div_mod::lemma_small_mod(start as nat, pool as nat);
        0
    } else {
        let next = (start + 1) % pool;
        vstd::arithmetic::div_mod::lemma_mod_bound(start + 1, pool);
        let steps = lemma_probe_steps(used, next, pool, (tries - 1) as nat);
        vstd::arithmetic::div_mod::lemma_add_mod_noop_right(steps, start + 1, pool);
        assert forall|j: int| 0 <= j < steps + 1 implies used.contains(
            #[trigger] ((start + j) % pool) as u16,
        ) by {
            if j == 0 {
                vstd::arithmetic::div_mod::lemma_small_mod(start as nat, pool as nat);
            } else {
                vstd::arithmetic::div_mod::lemma_add_mod_noop_right(j - 1, start + 1, pool);
                assert(used.contains(((next + (j - 1)) % pool) as u16));
            }
        }
        steps + 1
    }
}

/// A pitch whose preferred oscillator is taken gets the next free one, going up and
/// round the pool: every oscillator on the way is one that an earlier pitch has.
pub proof fn law_collisions_take_the_next_free(
    pitches: Seq<TunedPeriodicPitch>,
    pool: int,
) -> (steps: int)
    requires
        0 < pitches.len() <= pool <= 65535,
    ensures
        0 <= steps,
        oscillators(pitches, pool).drop_last() == oscillators(pitches.drop_last(), pool),
        oscillators(pitches, pool).last() == (preferred(pitches.last(), pool) + steps) % pool,
        !oscillators(pitches.drop_last(), pool).contains(oscillators(pitches, pool).last()),
        forall|j: int|
            0 <= j < steps ==> oscillators(pitches.drop_last(), pool).contains(
                #[trigger] ((preferred(pitches.last(), pool) + j) % pool) as u16,
            ),
{
    let used = oscillators(pitches.drop_last(), pool);
    let all = oscillators(pitches, pool);
    let start = preferred(pitches.last(), pool);
    law_pitches_prefer_their_degree(pitches.last(), pool);
    law_oscillators_are_distinct(pitches, pool);
    law_oscillators_are_distinct(pitches.drop_last(), pool);
    assert(all.drop_last() =~= used);
    let steps = lemma_probe_steps(used, start, pool, pool as nat);
    vstd::arithmetic::div_mod::lemma_mod_bound(start + steps, pool);
    if used.contains(all.last()) {
        let i = used.index_of(all.last());
        assert(all[i] == all[all.len() - 1]);
    }
    steps
}

/// An oscillator sounds only a pitch that was given it.
pub proof fn law_only_given_pitches_sound(
    pitches: Seq<TunedPeriodicPitch>,
    pool: u16,
    oscillator: u16,
)
    requires
        pitches.len() <= pool,
        voices(pitches, pool as int)(oscillator) is Some,
    ensures
        exists|i: int|
            0 <= i < pitches.len() && #[trigger] oscillators(pitches, pool as int)[i] == oscillator
                && voices(pitches, pool as int)(oscillator) == Some(pitches[i]),
{
    law_oscillators_are_distinct(pitches, pool as int);
    let all = oscillators(pitches, pool as int);
    assert(all[all.index_of(oscillator)] == oscillator);
}

proof fn lemma_offs_list_changes(
    before: spec_fn(u16) -> Option<TunedPeriodicPitch>,
    after: spec_fn(u16) -> Option<TunedPeriodicPitch>,
    bound: nat,
)
    requires
        bound <= 65536,
    ensures
        forall|i: int|
            0 <= i < offs(before, after, bound).len() ==> (#[trigger] offs(
                before,
                after,
                bound,
            )[i] matches VoiceEvent::Off(o) && o < bound && before(o) is Some && before(o) != after(
                o,
            )),
        forall|i: int, j: int|
            0 <= i < j < offs(before, after, bound).len() ==> (#[trigger] offs(
                before,
                after,
                bound,
            )[i])->Off_0 < (#[trigger] offs(before, after, bound)[j])->Off_0,
    decreases bound,
{
    if bound > 0 {
        lemma_offs_list_changes(before, after, (bound - 1) as nat);
        let (rest, all) = (offs(before, after, (bound - 1) as nat), offs(before, after, bound));
        assert forall|i: int| 0 <= i < all.len() implies (
        #[trigger] all[i] matches VoiceEvent::Off(o) && o < bound && before(o) is Some && before(o)
            != after(o)) by {
            if i < rest.len() {
                assert(all[i] == rest[i]);
            }
        }
        assert forall|i: int, j: int| 0 <= i < j < all.len() implies (#[trigger] all[i])->Off_0 < (
        #[trigger] all[j])->Off_0 by {
            assert(all[i] == rest[i]);
            if j < rest.len() {
                assert(all[j] == rest[j]);
            }
        }
    }
}

proof fn lemma_ons_list_changes(
    before: spec_fn(u16) -> Option<TunedPeriodicPitch>,
    after: spec_fn(u16) -> Option<TunedPeriodicPitch>,
    bound: nat,
)
    requires
        bound <= 65536,
    ensures
        forall|i: int|
            0 <= i < ons(before, after, bound).len() ==> (#[trigger] ons(
                before,
                after,
                bound,
            )[i] matches VoiceEvent::On(o, pitch) && o < bound && after(o) == Some(pitch) && before(
                o,
            ) != after(o)),
        forall|i: int, j: int|
            0 <= i < j < ons(before, after, bound).len() ==> (#[trigger] ons(
                before,
                after,
                bound,
            )[i])->On_0 < (#[trigger] ons(before, after, bound)[j])->On_0,
    decreases bound,
{
    if bound > 0 {
        lemma_ons_list_changes(before, after, (bound - 1) as nat);
        let (rest, all) = (ons(before, after, (bound - 1) as nat), ons(before, after, bound));
        assert forall|i: int| 0 <= i < all.len() implies (
        #[trigger] all[i] matches VoiceEvent::On(o, pitch) && o < bound && after(o) == Some(pitch)
            && before(o) != after(o)) by {
            if i < rest.len() {
                assert(all[i] == rest[i]);
            }
        }
        assert forall|i: int, j: int| 0 <= i < j < all.len() implies (#[trigger] all[i])->On_0 < (
        #[trigger] all[j])->On_0 by {
            assert(all[i] == rest[i]);
            if j < rest.len() {
                assert(all[j] == rest[j]);
            }
        }
    }
}

/// A transition touches only oscillators that change: a voice that sounds the same
/// pitch before and after is left alone, all ends come before all starts, and each
/// kind goes up the pool without repeating an oscillator.
pub proof fn law_transitions_touch_only_changes(
    before: Seq<TunedPeriodicPitch>,
    after: Seq<TunedPeriodicPitch>,
    pool: u16,
)
    ensures
        ({
            let events = transition(before, after, pool);
            let (was, is) = (voices(before, pool as int), voices(after, pool as int));
            &&& forall|i: int|
                0 <= i < events.len() ==> match #[trigger] events[i] {
                    VoiceEvent::Off(o) => o < pool && was(o) is Some && was(o) != is(o),
                    VoiceEvent::On(o, pitch) => o < pool && is(o) == Some(pitch) && was(o) != is(o),
                }
            &&& forall|i: int, j: int|
                0 <= i < j < events.len() ==> match (#[trigger] events[i], #[trigger] events[j]) {
                    (VoiceEvent::Off(o), VoiceEvent::Off(p)) => o < p,
                    (VoiceEvent::Off(_), VoiceEvent::On(_, _)) => true,
                    (VoiceEvent::On(o, _), VoiceEvent::On(p, _)) => o < p,
                    (VoiceEvent::On(_, _), VoiceEvent::Off(_)) => false,
                }
        }),
{
    let (was, is) = (voices(before, pool as int), voices(after, pool as int));
    let (ends, starts) = (offs(was, is, pool as nat), ons(was, is, pool as nat));
    let events = transition(before, after, pool);
    lemma_offs_list_changes(was, is, pool as nat);
    lemma_ons_list_changes(was, is, pool as nat);
    assert(events =~= ends + starts);
    assert forall|i: int| 0 <= i < events.len() implies match #[trigger] events[i] {
        VoiceEvent::Off(o) => o < pool && was(o) is Some && was(o) != is(o),
        VoiceEvent::On(o, pitch) => o < pool && is(o) == Some(pitch) && was(o) != is(o),
    } by {
        if i < ends.len() {
            assert(events[i] == ends[i]);
        } else {
            assert(events[i] == starts[i - ends.len()]);
        }
    }
    assert forall|i: int, j: int| 0 <= i < j < events.len() implies match (
        #[trigger] events[i],
        #[trigger] events[j],
    ) {
        (VoiceEvent::Off(o), VoiceEvent::Off(p)) => o < p,
        (VoiceEvent::Off(_), VoiceEvent::On(_, _)) => true,
        (VoiceEvent::On(o, _), VoiceEvent::On(p, _)) => o < p,
        (VoiceEvent::On(_, _), VoiceEvent::Off(_)) => false,
    } by {
        if i < ends.len() {
            assert(events[i] == ends[i]);
        } else {
            assert(events[i] == starts[i - ends.len()]);
        }
        if j < ends.len() {
            assert(events[j] == ends[j]);
        } else {
            assert(events[j] == starts[j - ends.len()]);
        }
    }
}

/// The end of a note names its oscillator and level zero. A start names the
/// oscillator, the key, the envelope of the degree where it has one, and level one.
pub proof fn law_messages_spell_their_events(
    oscillator: u16,
    pitch: TunedPeriodicPitch,
    envelopes: Map<TunedDegree, Envelope>,
    tuning: TuningView,
)
    ensures
        event_text(VoiceEvent::Off(oscillator), envelopes, tuning) == seq!['v'] + text::decimal(
            oscillator as nat,
        ) + seq!['l', '0'],
        ({
            let degree = TunedDegree { tuning_id: pitch.tuning_id, degree: pitch.pitch.degree };
            let start = seq!['v'] + text::decimal(oscillator as nat) + seq!['n'] + key_text(
                tuning.key_billionths(pitch.pitch),
            );
            let message = event_text(VoiceEvent::On(oscillator, pitch), envelopes, tuning);
            if envelopes.dom().contains(degree) {
                message == start + envelope_text(envelopes[degree]@) + seq!['l', '1']
            } else {
                message == start + seq!['l', '1']
            }
        }),
{
    reveal_strlit("v");
    reveal_strlit("n");
    reveal_strlit("l0");
    reveal_strlit("l1");
    assert("v"@ =~= seq!['v']);
    assert("n"@ =~= seq!['n']);
    assert("l0"@ =~= seq!['l', '0']);
    assert("l1"@ =~= seq!['l', '1']);
    let start = seq!['v'] + text::decimal(oscillator as nat) + seq!['n'] + key_text(
        tuning.key_billionths(pitch.pitch),
    );
    assert(start + Seq::<char>::empty() =~= start);
}

/// A set of degrees sounds as the pitches of those degrees in period zero, one for
/// each.
pub proof fn law_degrees_sound_in_period_zero(
    degrees: Set<TunedDegree>,
    pitch: TunedPeriodicPitch,
)
    ensures
        degree_pitches(degrees).contains(pitch) <==> pitch.pitch.period == 0 && degrees.contains(
            TunedDegree { tuning_id: pitch.tuning_id, degree: pitch.pitch.degree },
        ),
{
}

/// Messages that spell events are as many as the events and say them one by one.
pub proof fn law_each_message_spells_one_event(
    messages: Seq<String>,
    events: Seq<VoiceEvent>,
    envelopes: Map<TunedDegree, Envelope>,
    tuning: TuningView,
    i: int,
)
    requires
        spells(messages, events, envelopes, tuning),
    ensures
        messages.len() == events.len(),
        0 <= i < events.len() ==> messages[i]@ == event_text(events[i], envelopes, tuning),
{
}

} // verus!

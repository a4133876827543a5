//! Equal temperament in whole numbers.
//!
//! A key is a whole number of semitones from A4, which sounds at 440 Hz; twelve
//! semitones double the frequency. Which key is nearest to a frequency, and
//! which whole number of millihertz is nearest to a key, is stated by comparing
//! powers of whole numbers, so that no rounding enters.

use crate::music::roundtable::{
    MAX_CENTER_MILLIHZ, MAX_PLAYABLE_MILLIHZ, MIN_CENTER_MILLIHZ, MIN_PLAYABLE_MILLIHZ,
};
use vstd::arithmetic::power2;
use vstd::prelude::*;

verus! {

pub open spec fn twelfth_power(x: int) -> int {
    let cube = x * x * x;
    let sixth = cube * cube;
    sixth * sixth
}

pub open spec fn twenty_fourth_power(x: int) -> int {
    twelfth_power(x) * twelfth_power(x)
}

/// Whether `key` is the key nearest to a frequency below A4: the frequency lies
/// within half a semitone of the key, `440 Hz * 2^((key - 69 -/+ 1/2) / 12)`.
pub open spec fn nearest_key(millihz: int, key: int) -> bool {
    &&& 0 <= key <= 68
    &&& twenty_fourth_power(millihz) * power2::pow2((139 - 2 * key) as nat)
        >= twenty_fourth_power(440_000)
    &&& twenty_fourth_power(millihz) * power2::pow2((137 - 2 * key) as nat)
        < twenty_fourth_power(440_000)
}

/// Whether `millihz` is the whole number nearest to the frequency of a key below
/// A4, `440 Hz * 2^((key - 69) / 12)`.
pub open spec fn nearest_millihz(key: int, millihz: int) -> bool {
    &&& 0 <= key <= 68
    &&& millihz > 0
    &&& twelfth_power(2 * millihz - 1) * power2::pow2((69 - key) as nat) <= twelfth_power(880_000)
    &&& twelfth_power(880_000) < twelfth_power(2 * millihz + 1) * power2::pow2((69 - key) as nat)
}

proof fn lemma_product_monotone(a: int, b: int, c: int, d: int)
    by (nonlinear_arith)
    requires
        0 <= a <= b,
        0 <= c <= d,
    ensures
        0 <= a * c <= b * d,
{
}

proof fn lemma_twelfth_monotone(a: int, b: int)
    requires
        0 <= a <= b,
    ensures
        0 <= twelfth_power(a) <= twelfth_power(b),
{
    lemma_product_monotone(a, b, a, b);
    lemma_product_monotone(a * a, b * b, a, b);
    let (x, y) = (a * a * a, b * b * b);
    lemma_product_monotone(x, y, x, y);
    lemma_product_monotone(x * x, y * y, x * x, y * y);
}

proof fn lemma_twenty_fourth_monotone(a: int, b: int)
    requires
        0 <= a <= b,
    ensures
        0 <= twenty_fourth_power(a) <= twenty_fourth_power(b),
{
    lemma_twelfth_monotone(a, b);
    lemma_product_monotone(twelfth_power(a), twelfth_power(b), twelfth_power(a), twelfth_power(b));
}

/// Every frequency between two that are nearest to a key is nearest to it.
proof fn lemma_key_range(low: int, millihz: int, high: int, key: int)
    requires
        0 < low <= millihz <= high,
        0 <= key <= 68,
        twenty_fourth_power(low) * power2::pow2((139 - 2 * key) as nat) >= twenty_fourth_power(
            440_000,
        ),
        twenty_fourth_power(high) * power2::pow2((137 - 2 * key) as nat) < twenty_fourth_power(
            440_000,
        ),
    ensures
        nearest_key(millihz, key),
{
    lemma_twenty_fourth_monotone(low, millihz);
    lemma_twenty_fourth_monotone(millihz, high);
    let (p, q) = (
        power2::pow2((139 - 2 * key) as nat) as int,
        power2::pow2((137 - 2 * key) as nat) as int,
    );
    lemma_product_monotone(twenty_fourth_power(low), twenty_fourth_power(millihz), p, p);
    lemma_product_monotone(twenty_fourth_power(millihz), twenty_fourth_power(high), q, q);
}

/// A frequency has one nearest key.
pub proof fn law_nearest_key_is_unique(millihz: int, a: int, b: int)
    requires
        millihz > 0,
        nearest_key(millihz, a),
        nearest_key(millihz, b),
    ensures
        a == b,
{
    lemma_twenty_fourth_monotone(0, millihz);
    if a != b {
        let (low, high) = if a < b {
            (a, b)
        } else {
            (b, a)
        };
        let (p, q) = (
            power2::pow2((137 - 2 * low) as nat) as int,
            power2::pow2((139 - 2 * high) as nat) as int,
        );
        if 139 - 2 * high < 137 - 2 * low {
            power2::lemma_pow2_strictly_increases(
                (139 - 2 * high) as nat,
                (137 - 2 * low) as nat,
            );
        }
        lemma_product_monotone(
            twenty_fourth_power(millihz),
            twenty_fourth_power(millihz),
            q,
            p,
        );
    }
}

/// A key has one nearest whole number of millihertz.
pub proof fn law_nearest_millihz_is_unique(key: int, a: int, b: int)
    requires
        nearest_millihz(key, a),
        nearest_millihz(key, b),
    ensures
        a == b,
{
    if a != b {
        let (low, high) = if a < b {
            (a, b)
        } else {
            (b, a)
        };
        let p = power2::pow2((69 - key) as nat) as int;
        lemma_twelfth_monotone(2 * low + 1, 2 * high - 1);
        lemma_product_monotone(twelfth_power(2 * low + 1), twelfth_power(2 * high - 1), p, p);
    }
}

/// The key nearest to a frequency.
pub open spec fn key_near(millihz: int) -> int {
    choose|key: int| nearest_key(millihz, key)
}

/// The frequency of a key, to the nearest millihertz.
pub open spec fn millihz_near(key: int) -> int {
    choose|millihz: int| nearest_millihz(key, millihz)
}

proof fn lemma_powers()
    ensures
        power2::pow2(10) == 0x400,
        power2::pow2(11) == 0x800,
        power2::pow2(12) == 0x1000,
        power2::pow2(13) == 0x2000,
        power2::pow2(14) == 0x4000,
        power2::pow2(15) == 0x8000,
        power2::pow2(16) == 0x10000,
        power2::pow2(17) == 0x20000,
        power2::pow2(18) == 0x40000,
        power2::pow2(19) == 0x80000,
        power2::pow2(20) == 0x100000,
        power2::pow2(21) == 0x200000,
        power2::pow2(22) == 0x400000,
        power2::pow2(23) == 0x800000,
        power2::pow2(24) == 0x1000000,
        power2::pow2(25) == 0x2000000,
        power2::pow2(26) == 0x4000000,
        power2::pow2(27) == 0x8000000,
        power2::pow2(28) == 0x10000000,
        power2::pow2(29) == 0x20000000,
        power2::pow2(30) == 0x40000000,
        power2::pow2(31) == 0x80000000,
        power2::pow2(32) == 0x100000000,
        power2::pow2(33) == 0x200000000,
        power2::pow2(34) == 0x400000000,
        power2::pow2(35) == 0x800000000,
        power2::pow2(36) == 0x1000000000,
        power2::pow2(37) == 0x2000000000,
        power2::pow2(38) == 0x4000000000,
        power2::pow2(39) == 0x8000000000,
        power2::pow2(40) == 0x10000000000,
        power2::pow2(41) == 0x20000000000,
        power2::pow2(42) == 0x40000000000,
        power2::pow2(43) == 0x80000000000,
        power2::pow2(44) == 0x100000000000,
        power2::pow2(45) == 0x200000000000,
        power2::pow2(46) == 0x400000000000,
        power2::pow2(47) == 0x800000000000,
        power2::pow2(48) == 0x1000000000000,
        power2::pow2(49) == 0x2000000000000,
        power2::pow2(50) == 0x4000000000000,
        power2::pow2(51) == 0x8000000000000,
        power2::pow2(52) == 0x10000000000000,
        power2::pow2(53) == 0x20000000000000,
        power2::pow2(54) == 0x40000000000000,
        power2::pow2(55) == 0x80000000000000,
        power2::pow2(56) == 0x100000000000000,
        power2::pow2(57) == 0x200000000000000,
        power2::pow2(58) == 0x400000000000000,
        power2::pow2(59) == 0x800000000000000,
        power2::pow2(60) == 0x1000000000000000,
        power2::pow2(61) == 0x2000000000000000,
        power2::pow2(62) == 0x4000000000000000,
        power2::pow2(63) == 0x8000000000000000,
        power2::pow2(64) == 0x10000000000000000,
        power2::pow2(65) == 0x20000000000000000,
        power2::pow2(66) == 0x40000000000000000,
        power2::pow2(67) == 0x80000000000000000,
        power2::pow2(68) == 0x100000000000000000,
        power2::pow2(69) == 0x200000000000000000,
        power2::pow2(70) == 0x400000000000000000,
        power2::pow2(71) == 0x800000000000000000,
        power2::pow2(72) == 0x1000000000000000000,
        power2::pow2(73) == 0x2000000000000000000,
        power2::pow2(74) == 0x4000000000000000000,
        power2::pow2(75) == 0x8000000000000000000,
        power2::pow2(76) == 0x10000000000000000000,
        power2::pow2(77) == 0x20000000000000000000,
        power2::pow2(78) == 0x40000000000000000000,
        power2::pow2(79) == 0x80000000000000000000,
        power2::pow2(80) == 0x100000000000000000000,
        power2::pow2(81) == 0x200000000000000000000,
        power2::pow2(82) == 0x400000000000000000000,
        power2::pow2(83) == 0x800000000000000000000,
        power2::pow2(84) == 0x1000000000000000000000,
        power2::pow2(85) == 0x2000000000000000000000,
        power2::pow2(86) == 0x4000000000000000000000,
        power2::pow2(87) == 0x8000000000000000000000,
        power2::pow2(88) == 0x10000000000000000000000,
        power2::pow2(89) == 0x20000000000000000000000,
        power2::pow2(90) == 0x40000000000000000000000,
        power2::pow2(91) == 0x80000000000000000000000,
        power2::pow2(92) == 0x100000000000000000000000,
        power2::pow2(93) == 0x200000000000000000000000,
{
    power2::lemma2_to64();
    power2::lemma2_to64_rest();
    power2::lemma_pow2_unfold(65);
    power2::lemma_pow2_unfold(66);
    power2::lemma_pow2_unfold(67);
    power2::lemma_pow2_unfold(68);
    power2::lemma_pow2_unfold(69);
    power2::lemma_pow2_unfold(70);
    power2::lemma_pow2_unfold(71);
    power2::lemma_pow2_unfold(72);
    power2::lemma_pow2_unfold(73);
    power2::lemma_pow2_unfold(74);
    power2::lemma_pow2_unfold(75);
    power2::lemma_pow2_unfold(76);
    power2::lemma_pow2_unfold(77);
    power2::lemma_pow2_unfold(78);
    power2::lemma_pow2_unfold(79);
    power2::lemma_pow2_unfold(80);
    power2::lemma_pow2_unfold(81);
    power2::lemma_pow2_unfold(82);
    power2::lemma_pow2_unfold(83);
    power2::lemma_pow2_unfold(84);
    power2::lemma_pow2_unfold(85);
    power2::lemma_pow2_unfold(86);
    power2::lemma_pow2_unfold(87);
    power2::lemma_pow2_unfold(88);
    power2::lemma_pow2_unfold(89);
    power2::lemma_pow2_unfold(90);
    power2::lemma_pow2_unfold(91);
    power2::lemma_pow2_unfold(92);
    power2::lemma_pow2_unfold(93);
}

/// The key nearest to a center frequency.
pub fn center_key(millihz: u32) -> (key: u8)
    requires
        MIN_CENTER_MILLIHZ <= millihz <= MAX_CENTER_MILLIHZ,
    ensures
        nearest_key(millihz as int, key as int),
        key == key_near(millihz as int),
        35 <= key <= 47,
{
    let key: u8 = if millihz < 63545 {
        35
    } else if millihz < 67323 {
        36
    } else if millihz < 71327 {
        37
    } else if millihz < 75568 {
        38
    } else if millihz < 80061 {
        39
    } else if millihz < 84822 {
        40
    } else if millihz < 89866 {
        41
    } else if millihz < 95210 {
        42
    } else if millihz < 100871 {
        43
    } else if millihz < 106869 {
        44
    } else if millihz < 113224 {
        45
    } else if millihz < 119956 {
        46
    } else {
        47
    };
    proof {
        lemma_center_key(millihz as int, key as int);
        law_nearest_key_is_unique(millihz as int, key as int, key_near(millihz as int));
    }
    key
}

proof fn lemma_center_key(millihz: int, key: int)
    requires
        MIN_CENTER_MILLIHZ <= millihz <= MAX_CENTER_MILLIHZ,
        (60000 <= millihz <= 63544 && key == 35) || (63545 <= millihz <= 67322 && key == 36) || (67323 <= millihz <= 71326 && key == 37) || (71327 <= millihz <= 75567 && key == 38) || (75568 <= millihz <= 80060 && key == 39) || (80061 <= millihz <= 84821 && key == 40) || (84822 <= millihz <= 89865 && key == 41) || (89866 <= millihz <= 95209 && key == 42) || (95210 <= millihz <= 100870 && key == 43) || (100871 <= millihz <= 106868 && key == 44) || (106869 <= millihz <= 113223 && key == 45) || (113224 <= millihz <= 119955 && key == 46) || (119956 <= millihz <= 120000 && key == 47),
    ensures
        nearest_key(millihz, key),
{
    lemma_powers();
    if key == 35 {
        assert(twenty_fourth_power(60000) * 0x200000000000000000 >= twenty_fourth_power(440_000)) by (nonlinear_arith);
        assert(twenty_fourth_power(63544) * 0x80000000000000000 < twenty_fourth_power(440_000)) by (nonlinear_arith);
        lemma_key_range(60000, millihz, 63544, 35);
    } else if key == 36 {
        assert(twenty_fourth_power(63545) * 0x80000000000000000 >= twenty_fourth_power(440_000)) by (nonlinear_arith);
        assert(twenty_fourth_power(67322) * 0x20000000000000000 < twenty_fourth_power(440_000)) by (nonlinear_arith);
        lemma_key_range(63545, millihz, 67322, 36);
    } else if key == 37 {
        assert(twenty_fourth_power(67323) * 0x20000000000000000 >= twenty_fourth_power(440_000)) by (nonlinear_arith);
        assert(twenty_fourth_power(71326) * 0x8000000000000000 < twenty_fourth_power(440_000)) by (nonlinear_arith);
        lemma_key_range(67323, millihz, 71326, 37);
    } else if key == 38 {
        assert(twenty_fourth_power(71327) * 0x8000000000000000 >= twenty_fourth_power(440_000)) by (nonlinear_arith);
        assert(twenty_fourth_power(75567) * 0x2000000000000000 < twenty_fourth_power(440_000)) by (nonlinear_arith);
        lemma_key_range(71327, millihz, 75567, 38);
    } else if key == 39 {
        assert(twenty_fourth_power(75568) * 0x2000000000000000 >= twenty_fourth_power(440_000)) by (nonlinear_arith);
        assert(twenty_fourth_power(80060) * 0x800000000000000 < twenty_fourth_power(440_000)) by (nonlinear_arith);
        lemma_key_range(75568, millihz, 80060, 39);
    } else if key == 40 {
        assert(twenty_fourth_power(80061) * 0x800000000000000 >= twenty_fourth_power(440_000)) by (nonlinear_arith);
        assert(twenty_fourth_power(84821) * 0x200000000000000 < twenty_fourth_power(440_000)) by (nonlinear_arith);
        lemma_key_range(80061, millihz, 84821, 40);
    } else if key == 41 {
        assert(twenty_fourth_power(84822) * 0x200000000000000 >= twenty_fourth_power(440_000)) by (nonlinear_arith);
        assert(twenty_fourth_power(89865) * 0x80000000000000 < twenty_fourth_power(440_000)) by (nonlinear_arith);
        lemma_key_range(84822, millihz, 89865, 41);
    } else if key == 42 {
        assert(twenty_fourth_power(89866) * 0x80000000000000 >= twenty_fourth_power(440_000)) by (nonlinear_arith);
        assert(twenty_fourth_power(95209) * 0x20000000000000 < twenty_fourth_power(440_000)) by (nonlinear_arith);
        lemma_key_range(89866, millihz, 95209, 42);
    } else if key == 43 {
        assert(twenty_fourth_power(95210) * 0x20000000000000 >= twenty_fourth_power(440_000)) by (nonlinear_arith);
        assert(twenty_fourth_power(100870) * 0x8000000000000 < twenty_fourth_power(440_000)) by (nonlinear_arith);
        lemma_key_range(95210, millihz, 100870, 43);
    } else if key == 44 {
        assert(twenty_fourth_power(100871) * 0x8000000000000 >= twenty_fourth_power(440_000)) by (nonlinear_arith);
        assert(twenty_fourth_power(106868) * 0x2000000000000 < twenty_fourth_power(440_000)) by (nonlinear_arith);
        lemma_key_range(100871, millihz, 106868, 44);
    } else if key == 45 {
        assert(twenty_fourth_power(106869) * 0x2000000000000 >= twenty_fourth_power(440_000)) by (nonlinear_arith);
        assert(twenty_fourth_power(113223) * 0x800000000000 < twenty_fourth_power(440_000)) by (nonlinear_arith);
        lemma_key_range(106869, millihz, 113223, 45);
    } else if key == 46 {
        assert(twenty_fourth_power(113224) * 0x800000000000 >= twenty_fourth_power(440_000)) by (nonlinear_arith);
        assert(twenty_fourth_power(119955) * 0x200000000000 < twenty_fourth_power(440_000)) by (nonlinear_arith);
        lemma_key_range(113224, millihz, 119955, 46);
    } else if key == 47 {
        assert(twenty_fourth_power(119956) * 0x200000000000 >= twenty_fourth_power(440_000)) by (nonlinear_arith);
        assert(twenty_fourth_power(120000) * 0x80000000000 < twenty_fourth_power(440_000)) by (nonlinear_arith);
        lemma_key_range(119956, millihz, 120000, 47);
    }
}

/// The whole number of millihertz nearest to a key.
pub fn key_millihz(key: u8) -> (millihz: u32)
    requires
        23 <= key <= 59,
    ensures
        nearest_millihz(key as int, millihz as int),
        millihz == millihz_near(key as int),
{
    let millihz: u32 = match key {
        23 => 30868,
        24 => 32703,
        25 => 34648,
        26 => 36708,
        27 => 38891,
        28 => 41203,
        29 => 43654,
        30 => 46249,
        31 => 48999,
        32 => 51913,
        33 => 55000,
        34 => 58270,
        35 => 61735,
        36 => 65406,
        37 => 69296,
        38 => 73416,
        39 => 77782,
        40 => 82407,
        41 => 87307,
        42 => 92499,
        43 => 97999,
        44 => 103826,
        45 => 110000,
        46 => 116541,
        47 => 123471,
        48 => 130813,
        49 => 138591,
        50 => 146832,
        51 => 155563,
        52 => 164814,
        53 => 174614,
        54 => 184997,
        55 => 195998,
        56 => 207652,
        57 => 220000,
        58 => 233082,
        _ => 246942,
    };
    proof {
        lemma_key_millihz(key as int, millihz as int);
        law_nearest_millihz_is_unique(key as int, millihz as int, millihz_near(key as int));
    }
    millihz
}

proof fn lemma_key_millihz(key: int, millihz: int)
    requires
        (key == 23 && millihz == 30868) || (key == 24 && millihz == 32703) || (key == 25 && millihz == 34648) || (key == 26 && millihz == 36708) || (key == 27 && millihz == 38891) || (key == 28 && millihz == 41203) || (key == 29 && millihz == 43654) || (key == 30 && millihz == 46249) || (key == 31 && millihz == 48999) || (key == 32 && millihz == 51913) || (key == 33 && millihz == 55000) || (key == 34 && millihz == 58270) || (key == 35 && millihz == 61735) || (key == 36 && millihz == 65406) || (key == 37 && millihz == 69296) || (key == 38 && millihz == 73416) || (key == 39 && millihz == 77782) || (key == 40 && millihz == 82407) || (key == 41 && millihz == 87307) || (key == 42 && millihz == 92499) || (key == 43 && millihz == 97999) || (key == 44 && millihz == 103826) || (key == 45 && millihz == 110000) || (key == 46 && millihz == 116541) || (key == 47 && millihz == 123471) || (key == 48 && millihz == 130813) || (key == 49 && millihz == 138591) || (key == 50 && millihz == 146832) || (key == 51 && millihz == 155563) || (key == 52 && millihz == 164814) || (key == 53 && millihz == 174614) || (key == 54 && millihz == 184997) || (key == 55 && millihz == 195998) || (key == 56 && millihz == 207652) || (key == 57 && millihz == 220000) || (key == 58 && millihz == 233082) || (key == 59 && millihz == 246942),
    ensures
        nearest_millihz(key, millihz),
{
    lemma_powers();
    if key == 23 {
        assert(twelfth_power(61735) * 0x400000000000 <= twelfth_power(880_000)) by (nonlinear_arith);
        assert(twelfth_power(880_000) < twelfth_power(61737) * 0x400000000000) by (nonlinear_arith);
    } else if key == 24 {
        assert(twelfth_power(65405) * 0x200000000000 <= twelfth_power(880_000)) by (nonlinear_arith);
        assert(twelfth_power(880_000) < twelfth_power(65407) * 0x200000000000) by (nonlinear_arith);
    } else if key == 25 {
        assert(twelfth_power(69295) * 0x100000000000 <= twelfth_power(880_000)) by (nonlinear_arith);
        assert(twelfth_power(880_000) < twelfth_power(69297) * 0x100000000000) by (nonlinear_arith);
    } else if key == 26 {
        assert(twelfth_power(73415) * 0x80000000000 <= twelfth_power(880_000)) by (nonlinear_arith);
        assert(twelfth_power(880_000) < twelfth_power(73417) * 0x80000000000) by (nonlinear_arith);
    } else if key == 27 {
        assert(twelfth_power(77781) * 0x40000000000 <= twelfth_power(880_000)) by (nonlinear_arith);
        assert(twelfth_power(880_000) < twelfth_power(77783) * 0x40000000000) by (nonlinear_arith);
    } else if key == 28 {
        assert(twelfth_power(82405) * 0x20000000000 <= twelfth_power(880_000)) by (nonlinear_arith);
        assert(twelfth_power(880_000) < twelfth_power(82407) * 0x20000000000) by (nonlinear_arith);
    } else if key == 29 {
        assert(twelfth_power(87307) * 0x10000000000 <= twelfth_power(880_000)) by (nonlinear_arith);
        assert(twelfth_power(880_000) < twelfth_power(87309) * 0x10000000000) by (nonlinear_arith);
    } else if key == 30 {
        assert(twelfth_power(92497) * 0x8000000000 <= twelfth_power(880_000)) by (nonlinear_arith);
        assert(twelfth_power(880_000) < twelfth_power(92499) * 0x8000000000) by (nonlinear_arith);
    } else if key == 31 {
        assert(twelfth_power(97997) * 0x4000000000 <= twelfth_power(880_000)) by (nonlinear_arith);
        assert(twelfth_power(880_000) < twelfth_power(97999) * 0x4000000000) by (nonlinear_arith);
    } else if key == 32 {
        assert(twelfth_power(103825) * 0x2000000000 <= twelfth_power(880_000)) by (nonlinear_arith);
        assert(twelfth_power(880_000) < twelfth_power(103827) * 0x2000000000) by (nonlinear_arith);
    } else if key == 33 {
        assert(twelfth_power(109999) * 0x1000000000 <= twelfth_power(880_000)) by (nonlinear_arith);
        assert(twelfth_power(880_000) < twelfth_power(110001) * 0x1000000000) by (nonlinear_arith);
    } else if key == 34 {
        assert(twelfth_power(116539) * 0x800000000 <= twelfth_power(880_000)) by (nonlinear_arith);
        assert(twelfth_power(880_000) < twelfth_power(116541) * 0x800000000) by (nonlinear_arith);
    } else if key == 35 {
        assert(twelfth_power(123469) * 0x400000000 <= twelfth_power(880_000)) by (nonlinear_arith);
        assert(twelfth_power(880_000) < twelfth_power(123471) * 0x400000000) by (nonlinear_arith);
    } else if key == 36 {
        assert(twelfth_power(130811) * 0x200000000 <= twelfth_power(880_000)) by (nonlinear_arith);
        assert(twelfth_power(880_000) < twelfth_power(130813) * 0x200000000) by (nonlinear_arith);
    } else if key == 37 {
        assert(twelfth_power(138591) * 0x100000000 <= twelfth_power(880_000)) by (nonlinear_arith);
        assert(twelfth_power(880_000) < twelfth_power(138593) * 0x100000000) by (nonlinear_arith);
    } else if key == 38 {
        assert(twelfth_power(146831) * 0x80000000 <= twelfth_power(880_000)) by (nonlinear_arith);
        assert(twelfth_power(880_000) < twelfth_power(146833) * 0x80000000) by (nonlinear_arith);
    } else if key == 39 {
        assert(twelfth_power(155563) * 0x40000000 <= twelfth_power(880_000)) by (nonlinear_arith);
        assert(twelfth_power(880_000) < twelfth_power(155565) * 0x40000000) by (nonlinear_arith);
    } else if key == 40 {
        assert(twelfth_power(164813) * 0x20000000 <= twelfth_power(880_000)) by (nonlinear_arith);
        assert(twelfth_power(880_000) < twelfth_power(164815) * 0x20000000) by (nonlinear_arith);
    } else if key == 41 {
        assert(twelfth_power(174613) * 0x10000000 <= twelfth_power(880_000)) by (nonlinear_arith);
        assert(twelfth_power(880_000) < twelfth_power(174615) * 0x10000000) by (nonlinear_arith);
    } else if key == 42 {
        assert(twelfth_power(184997) * 0x8000000 <= twelfth_power(880_000)) by (nonlinear_arith);
        assert(twelfth_power(880_000) < twelfth_power(184999) * 0x8000000) by (nonlinear_arith);
    } else if key == 43 {
        assert(twelfth_power(195997) * 0x4000000 <= twelfth_power(880_000)) by (nonlinear_arith);
        assert(twelfth_power(880_000) < twelfth_power(195999) * 0x4000000) by (nonlinear_arith);
    } else if key == 44 {
        assert(twelfth_power(207651) * 0x2000000 <= twelfth_power(880_000)) by (nonlinear_arith);
        assert(twelfth_power(880_000) < twelfth_power(207653) * 0x2000000) by (nonlinear_arith);
    } else if key == 45 {
        assert(twelfth_power(219999) * 0x1000000 <= twelfth_power(880_000)) by (nonlinear_arith);
        assert(twelfth_power(880_000) < twelfth_power(220001) * 0x1000000) by (nonlinear_arith);
    } else if key == 46 {
        assert(twelfth_power(233081) * 0x800000 <= twelfth_power(880_000)) by (nonlinear_arith);
        assert(twelfth_power(880_000) < twelfth_power(233083) * 0x800000) by (nonlinear_arith);
    } else if key == 47 {
        assert(twelfth_power(246941) * 0x400000 <= twelfth_power(880_000)) by (nonlinear_arith);
        assert(twelfth_power(880_000) < twelfth_power(246943) * 0x400000) by (nonlinear_arith);
    } else if key == 48 {
        assert(twelfth_power(261625) * 0x200000 <= twelfth_power(880_000)) by (nonlinear_arith);
        assert(twelfth_power(880_000) < twelfth_power(261627) * 0x200000) by (nonlinear_arith);
    } else if key == 49 {
        assert(twelfth_power(277181) * 0x100000 <= twelfth_power(880_000)) by (nonlinear_arith);
        assert(twelfth_power(880_000) < twelfth_power(277183) * 0x100000) by (nonlinear_arith);
    } else if key == 50 {
        assert(twelfth_power(293663) * 0x80000 <= twelfth_power(880_000)) by (nonlinear_arith);
        assert(twelfth_power(880_000) < twelfth_power(293665) * 0x80000) by (nonlinear_arith);
    } else if key == 51 {
        assert(twelfth_power(311125) * 0x40000 <= twelfth_power(880_000)) by (nonlinear_arith);
        assert(twelfth_power(880_000) < twelfth_power(311127) * 0x40000) by (nonlinear_arith);
    } else if key == 52 {
        assert(twelfth_power(329627) * 0x20000 <= twelfth_power(880_000)) by (nonlinear_arith);
        assert(twelfth_power(880_000) < twelfth_power(329629) * 0x20000) by (nonlinear_arith);
    } else if key == 53 {
        assert(twelfth_power(349227) * 0x10000 <= twelfth_power(880_000)) by (nonlinear_arith);
        assert(twelfth_power(880_000) < twelfth_power(349229) * 0x10000) by (nonlinear_arith);
    } else if key == 54 {
        assert(twelfth_power(369993) * 0x8000 <= twelfth_power(880_000)) by (nonlinear_arith);
        assert(twelfth_power(880_000) < twelfth_power(369995) * 0x8000) by (nonlinear_arith);
    } else if key == 55 {
        assert(twelfth_power(391995) * 0x4000 <= twelfth_power(880_000)) by (nonlinear_arith);
        assert(twelfth_power(880_000) < twelfth_power(391997) * 0x4000) by (nonlinear_arith);
    } else if key == 56 {
        assert(twelfth_power(415303) * 0x2000 <= twelfth_power(880_000)) by (nonlinear_arith);
        assert(twelfth_power(880_000) < twelfth_power(415305) * 0x2000) by (nonlinear_arith);
    } else if key == 57 {
        assert(twelfth_power(439999) * 0x1000 <= twelfth_power(880_000)) by (nonlinear_arith);
        assert(twelfth_power(880_000) < twelfth_power(440001) * 0x1000) by (nonlinear_arith);
    } else if key == 58 {
        assert(twelfth_power(466163) * 0x800 <= twelfth_power(880_000)) by (nonlinear_arith);
        assert(twelfth_power(880_000) < twelfth_power(466165) * 0x800) by (nonlinear_arith);
    } else if key == 59 {
        assert(twelfth_power(493883) * 0x400 <= twelfth_power(880_000)) by (nonlinear_arith);
        assert(twelfth_power(880_000) < twelfth_power(493885) * 0x400) by (nonlinear_arith);
    }
}

/// The center frequencies lie near the keys from 35 to 47.
pub proof fn lemma_center_near(millihz: int)
    requires
        MIN_CENTER_MILLIHZ <= millihz <= MAX_CENTER_MILLIHZ,
    ensures
        35 <= key_near(millihz) <= 47,
        nearest_key(millihz, key_near(millihz)),
{
    let key: int = if millihz < 63545 {
        35
    } else if millihz < 67323 {
        36
    } else if millihz < 71327 {
        37
    } else if millihz < 75568 {
        38
    } else if millihz < 80061 {
        39
    } else if millihz < 84822 {
        40
    } else if millihz < 89866 {
        41
    } else if millihz < 95210 {
        42
    } else if millihz < 100871 {
        43
    } else if millihz < 106869 {
        44
    } else if millihz < 113224 {
        45
    } else if millihz < 119956 {
        46
    } else {
        47
    };
    lemma_center_key(millihz, key);
    law_nearest_key_is_unique(millihz, key, key_near(millihz));
}

/// The frequency of a key, where it is too high to be played the highest that can
/// be, is nearest to that key.
pub proof fn lemma_key_is_heard(key: int)
    requires
        23 <= key <= 59,
    ensures
        MIN_PLAYABLE_MILLIHZ <= millihz_near(key),
        millihz_near(key) <= MAX_PLAYABLE_MILLIHZ ==> nearest_key(millihz_near(key), key),
        millihz_near(key) > MAX_PLAYABLE_MILLIHZ ==> nearest_key(MAX_PLAYABLE_MILLIHZ as int, key),
{
    lemma_powers();
    let millihz: int = if key == 23 {
        assert(twenty_fourth_power(30868) * 0x200000000000000000000000 >= twenty_fourth_power(440_000)) by (nonlinear_arith);
        assert(twenty_fourth_power(30868) * 0x80000000000000000000000 < twenty_fourth_power(440_000)) by (nonlinear_arith);
        30868
    } else if key == 24 {
        assert(twenty_fourth_power(32703) * 0x80000000000000000000000 >= twenty_fourth_power(440_000)) by (nonlinear_arith);
        assert(twenty_fourth_power(32703) * 0x20000000000000000000000 < twenty_fourth_power(440_000)) by (nonlinear_arith);
        32703
    } else if key == 25 {
        assert(twenty_fourth_power(34648) * 0x20000000000000000000000 >= twenty_fourth_power(440_000)) by (nonlinear_arith);
        assert(twenty_fourth_power(34648) * 0x8000000000000000000000 < twenty_fourth_power(440_000)) by (nonlinear_arith);
        34648
    } else if key == 26 {
        assert(twenty_fourth_power(36708) * 0x8000000000000000000000 >= twenty_fourth_power(440_000)) by (nonlinear_arith);
        assert(twenty_fourth_power(36708) * 0x2000000000000000000000 < twenty_fourth_power(440_000)) by (nonlinear_arith);
        36708
    } else if key == 27 {
        assert(twenty_fourth_power(38891) * 0x2000000000000000000000 >= twenty_fourth_power(440_000)) by (nonlinear_arith);
        assert(twenty_fourth_power(38891) * 0x800000000000000000000 < twenty_fourth_power(440_000)) by (nonlinear_arith);
        38891
    } else if key == 28 {
        assert(twenty_fourth_power(41203) * 0x800000000000000000000 >= twenty_fourth_power(440_000)) by (nonlinear_arith);
        assert(twenty_fourth_power(41203) * 0x200000000000000000000 < twenty_fourth_power(440_000)) by (nonlinear_arith);
        41203
    } else if key == 29 {
        assert(twenty_fourth_power(43654) * 0x200000000000000000000 >= twenty_fourth_power(440_000)) by (nonlinear_arith);
        assert(twenty_fourth_power(43654) * 0x80000000000000000000 < twenty_fourth_power(440_000)) by (nonlinear_arith);
        43654
    } else if key == 30 {
        assert(twenty_fourth_power(46249) * 0x80000000000000000000 >= twenty_fourth_power(440_000)) by (nonlinear_arith);
        assert(twenty_fourth_power(46249) * 0x20000000000000000000 < twenty_fourth_power(440_000)) by (nonlinear_arith);
        46249
    } else if key == 31 {
        assert(twenty_fourth_power(48999) * 0x20000000000000000000 >= twenty_fourth_power(440_000)) by (nonlinear_arith);
        assert(twenty_fourth_power(48999) * 0x8000000000000000000 < twenty_fourth_power(440_000)) by (nonlinear_arith);
        48999
    } else if key == 32 {
        assert(twenty_fourth_power(51913) * 0x8000000000000000000 >= twenty_fourth_power(440_000)) by (nonlinear_arith);
        assert(twenty_fourth_power(51913) * 0x2000000000000000000 < twenty_fourth_power(440_000)) by (nonlinear_arith);
        51913
    } else if key == 33 {
        assert(twenty_fourth_power(55000) * 0x2000000000000000000 >= twenty_fourth_power(440_000)) by (nonlinear_arith);
        assert(twenty_fourth_power(55000) * 0x800000000000000000 < twenty_fourth_power(440_000)) by (nonlinear_arith);
        55000
    } else if key == 34 {
        assert(twenty_fourth_power(58270) * 0x800000000000000000 >= twenty_fourth_power(440_000)) by (nonlinear_arith);
        assert(twenty_fourth_power(58270) * 0x200000000000000000 < twenty_fourth_power(440_000)) by (nonlinear_arith);
        58270
    } else if key == 35 {
        assert(twenty_fourth_power(61735) * 0x200000000000000000 >= twenty_fourth_power(440_000)) by (nonlinear_arith);
        assert(twenty_fourth_power(61735) * 0x80000000000000000 < twenty_fourth_power(440_000)) by (nonlinear_arith);
        61735
    } else if key == 36 {
        assert(twenty_fourth_power(65406) * 0x80000000000000000 >= twenty_fourth_power(440_000)) by (nonlinear_arith);
        assert(twenty_fourth_power(65406) * 0x20000000000000000 < twenty_fourth_power(440_000)) by (nonlinear_arith);
        65406
    } else if key == 37 {
        assert(twenty_fourth_power(69296) * 0x20000000000000000 >= twenty_fourth_power(440_000)) by (nonlinear_arith);
        assert(twenty_fourth_power(69296) * 0x8000000000000000 < twenty_fourth_power(440_000)) by (nonlinear_arith);
        69296
    } else if key == 38 {
        assert(twenty_fourth_power(73416) * 0x8000000000000000 >= twenty_fourth_power(440_000)) by (nonlinear_arith);
        assert(twenty_fourth_power(73416) * 0x2000000000000000 < twenty_fourth_power(440_000)) by (nonlinear_arith);
        73416
    } else if key == 39 {
        assert(twenty_fourth_power(77782) * 0x2000000000000000 >= twenty_fourth_power(440_000)) by (nonlinear_arith);
        assert(twenty_fourth_power(77782) * 0x800000000000000 < twenty_fourth_power(440_000)) by (nonlinear_arith);
        77782
    } else if key == 40 {
        assert(twenty_fourth_power(82407) * 0x800000000000000 >= twenty_fourth_power(440_000)) by (nonlinear_arith);
        assert(twenty_fourth_power(82407) * 0x200000000000000 < twenty_fourth_power(440_000)) by (nonlinear_arith);
        82407
    } else if key == 41 {
        assert(twenty_fourth_power(87307) * 0x200000000000000 >= twenty_fourth_power(440_000)) by (nonlinear_arith);
        assert(twenty_fourth_power(87307) * 0x80000000000000 < twenty_fourth_power(440_000)) by (nonlinear_arith);
        87307
    } else if key == 42 {
        assert(twenty_fourth_power(92499) * 0x80000000000000 >= twenty_fourth_power(440_000)) by (nonlinear_arith);
        assert(twenty_fourth_power(92499) * 0x20000000000000 < twenty_fourth_power(440_000)) by (nonlinear_arith);
        92499
    } else if key == 43 {
        assert(twenty_fourth_power(97999) * 0x20000000000000 >= twenty_fourth_power(440_000)) by (nonlinear_arith);
        assert(twenty_fourth_power(97999) * 0x8000000000000 < twenty_fourth_power(440_000)) by (nonlinear_arith);
        97999
    } else if key == 44 {
        assert(twenty_fourth_power(103826) * 0x8000000000000 >= twenty_fourth_power(440_000)) by (nonlinear_arith);
        assert(twenty_fourth_power(103826) * 0x2000000000000 < twenty_fourth_power(440_000)) by (nonlinear_arith);
        103826
    } else if key == 45 {
        assert(twenty_fourth_power(110000) * 0x2000000000000 >= twenty_fourth_power(440_000)) by (nonlinear_arith);
        assert(twenty_fourth_power(110000) * 0x800000000000 < twenty_fourth_power(440_000)) by (nonlinear_arith);
        110000
    } else if key == 46 {
        assert(twenty_fourth_power(116541) * 0x800000000000 >= twenty_fourth_power(440_000)) by (nonlinear_arith);
        assert(twenty_fourth_power(116541) * 0x200000000000 < twenty_fourth_power(440_000)) by (nonlinear_arith);
        116541
    } else if key == 47 {
        assert(twenty_fourth_power(123471) * 0x200000000000 >= twenty_fourth_power(440_000)) by (nonlinear_arith);
        assert(twenty_fourth_power(123471) * 0x80000000000 < twenty_fourth_power(440_000)) by (nonlinear_arith);
        123471
    } else if key == 48 {
        assert(twenty_fourth_power(130813) * 0x80000000000 >= twenty_fourth_power(440_000)) by (nonlinear_arith);
        assert(twenty_fourth_power(130813) * 0x20000000000 < twenty_fourth_power(440_000)) by (nonlinear_arith);
        130813
    } else if key == 49 {
        assert(twenty_fourth_power(138591) * 0x20000000000 >= twenty_fourth_power(440_000)) by (nonlinear_arith);
        assert(twenty_fourth_power(138591) * 0x8000000000 < twenty_fourth_power(440_000)) by (nonlinear_arith);
        138591
    } else if key == 50 {
        assert(twenty_fourth_power(146832) * 0x8000000000 >= twenty_fourth_power(440_000)) by (nonlinear_arith);
        assert(twenty_fourth_power(146832) * 0x2000000000 < twenty_fourth_power(440_000)) by (nonlinear_arith);
        146832
    } else if key == 51 {
        assert(twenty_fourth_power(155563) * 0x2000000000 >= twenty_fourth_power(440_000)) by (nonlinear_arith);
        assert(twenty_fourth_power(155563) * 0x800000000 < twenty_fourth_power(440_000)) by (nonlinear_arith);
        155563
    } else if key == 52 {
        assert(twenty_fourth_power(164814) * 0x800000000 >= twenty_fourth_power(440_000)) by (nonlinear_arith);
        assert(twenty_fourth_power(164814) * 0x200000000 < twenty_fourth_power(440_000)) by (nonlinear_arith);
        164814
    } else if key == 53 {
        assert(twenty_fourth_power(174614) * 0x200000000 >= twenty_fourth_power(440_000)) by (nonlinear_arith);
        assert(twenty_fourth_power(174614) * 0x80000000 < twenty_fourth_power(440_000)) by (nonlinear_arith);
        174614
    } else if key == 54 {
        assert(twenty_fourth_power(184997) * 0x80000000 >= twenty_fourth_power(440_000)) by (nonlinear_arith);
        assert(twenty_fourth_power(184997) * 0x20000000 < twenty_fourth_power(440_000)) by (nonlinear_arith);
        184997
    } else if key == 55 {
        assert(twenty_fourth_power(195998) * 0x20000000 >= twenty_fourth_power(440_000)) by (nonlinear_arith);
        assert(twenty_fourth_power(195998) * 0x8000000 < twenty_fourth_power(440_000)) by (nonlinear_arith);
        195998
    } else if key == 56 {
        assert(twenty_fourth_power(207652) * 0x8000000 >= twenty_fourth_power(440_000)) by (nonlinear_arith);
        assert(twenty_fourth_power(207652) * 0x2000000 < twenty_fourth_power(440_000)) by (nonlinear_arith);
        207652
    } else if key == 57 {
        assert(twenty_fourth_power(220000) * 0x2000000 >= twenty_fourth_power(440_000)) by (nonlinear_arith);
        assert(twenty_fourth_power(220000) * 0x800000 < twenty_fourth_power(440_000)) by (nonlinear_arith);
        220000
    } else if key == 58 {
        assert(twenty_fourth_power(233082) * 0x800000 >= twenty_fourth_power(440_000)) by (nonlinear_arith);
        assert(twenty_fourth_power(233082) * 0x200000 < twenty_fourth_power(440_000)) by (nonlinear_arith);
        233082
    } else if key == 59 {
        assert(twenty_fourth_power(240000) * 0x200000 >= twenty_fourth_power(440_000)) by (nonlinear_arith);
        assert(twenty_fourth_power(240000) * 0x80000 < twenty_fourth_power(440_000)) by (nonlinear_arith);
        246942
    } else {
        0
    };
    lemma_key_millihz(key, millihz);
    law_nearest_millihz_is_unique(key, millihz, millihz_near(key));
}

} // verus!

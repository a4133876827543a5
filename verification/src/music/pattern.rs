//! Sets of MIDI keys in two machine words.

use crate::bits;
use crate::music::roundtable::RoundTableConfigError;
use vstd::prelude::*;

verus! {

pub const MAX_PATTERN_NOTES: usize = 24;

/// How many MIDI keys there are.
pub const MIDI_KEYS: u8 = 128;

/// The members of `keys` below `bound`, in ascending order.
pub open spec fn ascending_below(keys: Set<u8>, bound: nat) -> Seq<u8>
    decreases bound,
{
    if bound == 0 {
        Seq::empty()
    } else {
        let rest = ascending_below(keys, (bound - 1) as nat);
        if keys.contains((bound - 1) as u8) {
            rest.push((bound - 1) as u8)
        } else {
            rest
        }
    }
}

/// The members of `keys`, in ascending order.
pub open spec fn ascending(keys: Set<u8>) -> Seq<u8> {
    ascending_below(keys, MIDI_KEYS as nat)
}

/// Whether `keys` holds some octave of `note`.
pub open spec fn has_class(keys: Set<u8>, note: int) -> bool {
    exists|key: u8| #[trigger] keys.contains(key) && key % 12 == note % 12
}

/// One key for each pitch class in `keys`, in the octave above `base`.
pub open spec fn one_octave(keys: Set<u8>, base: u8) -> Set<u8> {
    Set::new(|key: u8| base <= key < base + 12 && has_class(keys, key - base))
}

/// Whether every pitch class in `keys` has a key in the octave above `base`.
pub open spec fn octave_fits(keys: Set<u8>, base: u8) -> bool {
    forall|class: int|
        0 <= class < 12 && #[trigger] has_class(keys, class) ==> base + class < MIDI_KEYS
}

pub proof fn lemma_ascending_below_len(keys: Set<u8>, bound: nat)
    ensures
        ascending_below(keys, bound).len() <= bound,
    decreases bound,
{
    if bound > 0 {
        lemma_ascending_below_len(keys, (bound - 1) as nat);
    }
}

/// The sequence of members has no others, and misses none.
pub proof fn lemma_ascending_below_members(keys: Set<u8>, bound: nat, key: u8)
    requires
        bound <= 256,
    ensures
        ascending_below(keys, bound).contains(key) <==> keys.contains(key) && key < bound,
    decreases bound,
{
    if bound > 0 {
        let rest = ascending_below(keys, (bound - 1) as nat);
        lemma_ascending_below_members(keys, (bound - 1) as nat, key);
        let all = ascending_below(keys, bound);
        if keys.contains((bound - 1) as u8) {
            assert(all[all.len() - 1] == (bound - 1) as u8);
            if rest.contains(key) {
                let i = rest.index_of(key);
                assert(all[i] == key);
            }
            if all.contains(key) && key != (bound - 1) as u8 {
                let i = all.index_of(key);
                assert(rest[i] == key);
            }
        }
    }
}

/// The sequence of members ascends.
pub proof fn lemma_ascending_below_sorted(keys: Set<u8>, bound: nat, i: int, j: int)
    requires
        bound <= 256,
        0 <= i < j < ascending_below(keys, bound).len(),
    ensures
        ascending_below(keys, bound)[i] < ascending_below(keys, bound)[j],
    decreases bound,
{
    let rest = ascending_below(keys, (bound - 1) as nat);
    if j < rest.len() {
        lemma_ascending_below_sorted(keys, (bound - 1) as nat, i, j);
    } else {
        assert(rest.contains(rest[i]));
        lemma_ascending_below_members(keys, (bound - 1) as nat, rest[i]);
    }
}

/// Adding a key adds one to the population.
pub proof fn lemma_population_insert(keys: Set<u8>, key: u8, bound: nat)
    requires
        bound <= 256,
        !keys.contains(key),
    ensures
        ascending_below(keys.insert(key), bound).len() == ascending_below(keys, bound).len() + (
        if key < bound {
            1int
        } else {
            0
        }),
    decreases bound,
{
    if bound > 0 {
        lemma_population_insert(keys, key, (bound - 1) as nat);
    }
}

/// Sets that agree below a bound have the same members there.
pub proof fn lemma_ascending_agree(a: Set<u8>, b: Set<u8>, bound: nat)
    requires
        bound <= 256,
        forall|key: u8| key < bound ==> a.contains(key) == b.contains(key),
    ensures
        ascending_below(a, bound) == ascending_below(b, bound),
    decreases bound,
{
    if bound > 0 {
        lemma_ascending_agree(a, b, (bound - 1) as nat);
    }
}

/// A bounded, canonical set of MIDI keys used as an ascending arpeggio.
///
/// Two words cover the complete MIDI key domain without heap allocation. The
/// population limit keeps UI edits, canonical records, and session work
/// bounded even though any MIDI key may be represented.
#[derive(Debug, Clone, Copy, PartialEq, Eq, PartialOrd, Ord, Structural)]
pub struct RoundTablePattern {
    low: u64,
    high: u64,
}

/// Whether the bit of `key` is set in a pair of words.
pub open spec fn key_bit(low: u64, high: u64, key: u8) -> bool {
    if key < 64 {
        bits::bit(low, key as u64)
    } else {
        key < MIDI_KEYS && bits::bit(high, (key - 64) as u64)
    }
}

/// The keys whose bits are set in a pair of words.
pub open spec fn word_keys(low: u64, high: u64) -> Set<u8> {
    Set::new(|key: u8| key_bit(low, high, key))
}

fn test_key(low: u64, high: u64, key: u8) -> (r: bool)
    ensures
        r == word_keys(low, high).contains(key),
{
    if key < 64 {
        proof {
            bits::lemma_bit_test(low, key as u64);
        }
        low & (1u64 << (key as u64)) != 0
    } else if key < MIDI_KEYS {
        proof {
            bits::lemma_bit_test(high, (key - 64) as u64);
        }
        high & (1u64 << ((key - 64) as u64)) != 0
    } else {
        false
    }
}

fn set_key(low: u64, high: u64, key: u8) -> (words: (u64, u64))
    requires
        key < MIDI_KEYS,
    ensures
        word_keys(words.0, words.1) == word_keys(low, high).insert(key),
{
    let words: (u64, u64) = if key < 64 {
        (low | (1u64 << (key as u64)), high)
    } else {
        (low, high | (1u64 << ((key - 64) as u64)))
    };
    proof {
        assert forall|other: u8|
            word_keys(words.0, words.1).contains(other) == word_keys(low, high).insert(
                key,
            ).contains(other) by {
            if key < 64 && other < 64 {
                bits::lemma_bit_set(low, key as u64, other as u64);
            } else if key >= 64 && 64 <= other < MIDI_KEYS {
                bits::lemma_bit_set(high, (key - 64) as u64, (other - 64) as u64);
            }
        }
        assert(word_keys(words.0, words.1) =~= word_keys(low, high).insert(key));
    }
    words
}

fn clear_key(low: u64, high: u64, key: u8) -> (words: (u64, u64))
    requires
        key < MIDI_KEYS,
    ensures
        word_keys(words.0, words.1) == word_keys(low, high).remove(key),
{
    let words: (u64, u64) = if key < 64 {
        (low & !(1u64 << (key as u64)), high)
    } else {
        (low, high & !(1u64 << ((key - 64) as u64)))
    };
    proof {
        assert forall|other: u8|
            word_keys(words.0, words.1).contains(other) == word_keys(low, high).remove(
                key,
            ).contains(other) by {
            if key < 64 && other < 64 {
                bits::lemma_bit_cleared(low, key as u64, other as u64);
            } else if key >= 64 && 64 <= other < MIDI_KEYS {
                bits::lemma_bit_cleared(high, (key - 64) as u64, (other - 64) as u64);
            }
        }
        assert(word_keys(words.0, words.1) =~= word_keys(low, high).remove(key));
    }
    words
}

proof fn lemma_zero_words()
    ensures
        word_keys(0, 0) == Set::<u8>::empty(),
{
    assert forall|key: u8| !word_keys(0, 0).contains(key) by {
        bits::lemma_no_bits(key as u64);
        bits::lemma_no_bits((key - 64) as u64);
    }
    assert(word_keys(0, 0) =~= Set::<u8>::empty());
}

impl View for RoundTablePattern {
    type V = Set<u8>;

    open spec fn view(&self) -> Set<u8> {
        word_keys(self.word(0), self.word(1))
    }
}

/// What comes of toggling a key.
pub open spec fn toggle(keys: Set<u8>, key: u8) -> Result<Set<u8>, RoundTableConfigError> {
    if key >= MIDI_KEYS {
        Err(RoundTableConfigError::Pattern)
    } else if keys.contains(key) {
        Ok(keys.remove(key))
    } else if ascending(keys).len() >= MAX_PATTERN_NOTES {
        Err(RoundTableConfigError::Pattern)
    } else {
        Ok(keys.insert(key))
    }
}

/// What comes of toggling the pitch class of a key.
pub open spec fn toggle_class(keys: Set<u8>, note: u8, base: u8) -> Result<
    Set<u8>,
    RoundTableConfigError,
> {
    if !octave_fits(keys, base) || base + note % 12 >= MIDI_KEYS {
        Err(RoundTableConfigError::Pattern)
    } else if has_class(keys, note as int) {
        Ok(one_octave(keys, base).remove((base + note % 12) as u8))
    } else {
        Ok(one_octave(keys, base).insert((base + note % 12) as u8))
    }
}

/// Whether an edit came out as specified.
pub open spec fn edited(
    result: Result<RoundTablePattern, RoundTableConfigError>,
    expected: Result<Set<u8>, RoundTableConfigError>,
) -> bool {
    match result {
        Ok(pattern) => expected == Ok::<Set<u8>, RoundTableConfigError>(pattern@),
        Err(error) => expected == Err::<Set<u8>, RoundTableConfigError>(error),
    }
}

impl RoundTablePattern {
    /// The words as they are carried.
    pub closed spec fn word(self, i: int) -> u64 {
        if i == 0 {
            self.low
        } else {
            self.high
        }
    }

    pub fn from_words(words: [u64; 2]) -> (pattern: Self)
        ensures
            pattern.word(0) == words@[0],
            pattern.word(1) == words@[1],
            pattern@ == word_keys(words@[0], words@[1]),
    {
        RoundTablePattern { low: words[0], high: words[1] }
    }

    pub fn words(self) -> (words: [u64; 2])
        ensures
            words@ == seq![self.word(0), self.word(1)],
    {
        let words: [u64; 2] = [self.low, self.high];
        assert(words@ =~= seq![self.word(0), self.word(1)]);
        words
    }

    /// The pattern is its two words.
    pub proof fn lemma_extensional(a: Self, b: Self)
        requires
            a.word(0) == b.word(0),
            a.word(1) == b.word(1),
        ensures
            a == b,
    {
    }

    /// How many keys the set holds.
    pub fn len(self) -> (population: usize)
        ensures
            population == ascending(self@).len(),
    {
        self.iter().len()
    }

    pub fn is_empty(self) -> (empty: bool)
        ensures
            empty == (self@ == Set::<u8>::empty()),
    {
        proof {
            if self.low == 0 && self.high == 0 {
                lemma_zero_words();
            } else if self@ == Set::<u8>::empty() {
                assert forall|d: u64| d < 64 implies !#[trigger] bits::bit(self.low, d) by {
                    assert(!self@.contains(d as u8));
                }
                assert forall|d: u64| d < 64 implies !#[trigger] bits::bit(self.high, d) by {
                    assert(!self@.contains((d + 64) as u8));
                }
                bits::lemma_zero_word(self.low);
                bits::lemma_zero_word(self.high);
            }
        }
        self.low == 0 && self.high == 0
    }

    pub fn contains(self, note: u8) -> (r: bool)
        ensures
            r == self@.contains(note),
    {
        test_key(self.low, self.high, note)
    }

    /// The keys of the set, in ascending order.
    pub fn iter(self) -> (notes: Vec<u8>)
        ensures
            notes@ == ascending(self@),
    {
        let mut notes: Vec<u8> = Vec::new();
        let mut key: u8 = 0;
        while key < MIDI_KEYS
            invariant
                key <= MIDI_KEYS,
                notes@ == ascending_below(self@, key as nat),
            decreases MIDI_KEYS - key,
        {
            if self.contains(key) {
                notes.push(key);
            }
            key = key + 1;
        }
        notes
    }

    /// The pitch classes represented by this set, independent of register: bit
    /// `c` is set where the set holds a key of class `c`.
    pub fn pitch_class_mask(self) -> (mask: u16)
        ensures
            forall|class: u16|
                class < 16 ==> #[trigger] bits::bit16(mask, class) == (class < 12 && has_class(
                    self@,
                    class as int,
                )),
    {
        let mut mask: u16 = 0;
        let mut key: u8 = 0;
        proof {
            assert forall|class: u16| !#[trigger] bits::bit16(0, class) by {
                bits::lemma_no_bits16(class);
            }
        }
        while key < MIDI_KEYS
            invariant
                key <= MIDI_KEYS,
                forall|class: u16|
                    class < 16 ==> #[trigger] bits::bit16(mask, class) == exists|k: u8|
                        k < key && #[trigger] self@.contains(k) && k % 12 == class,
            decreases MIDI_KEYS - key,
        {
            if self.contains(key) {
                let class: u16 = (key % 12) as u16;
                let ghost before = mask;
                mask = mask | (1u16 << class);
                proof {
                    assert forall|other: u16| other < 16 implies #[trigger] bits::bit16(mask, other)
                        == exists|k: u8|
                        k < key + 1 && #[trigger] self@.contains(k) && k % 12 == other by {
                        bits::lemma_bit16_set(before, class, other);
                        if other == class {
                            assert(self@.contains(key) && key % 12 == other);
                        }
                    }
                }
            }
            key = key + 1;
        }
        proof {
            assert forall|class: u16| class < 16 implies #[trigger] bits::bit16(mask, class) == (
            class < 12 && has_class(self@, class as int)) by {
                if class < 12 && has_class(self@, class as int) {
                    let k = choose|k: u8| #[trigger] self@.contains(k) && k % 12 == class as int
                        % 12;
                    assert(k < MIDI_KEYS && self@.contains(k) && k % 12 == class);
                }
            }
        }
        mask
    }

    /// Whether the set holds some octave of `note`.
    pub fn contains_pitch_class(self, note: u8) -> (r: bool)
        ensures
            r == has_class(self@, note as int),
    {
        let class: u16 = (note % 12) as u16;
        let mask: u16 = self.pitch_class_mask();
        proof {
            bits::lemma_bit16_test(mask, class);
            assert(has_class(self@, class as int) == has_class(self@, note as int)) by {
                if has_class(self@, note as int) {
                    let k = choose|k: u8| #[trigger] self@.contains(k) && k % 12 == note as int
                        % 12;
                    assert(self@.contains(k) && k % 12 == class as int % 12);
                }
                if has_class(self@, class as int) {
                    let k = choose|k: u8| #[trigger] self@.contains(k) && k % 12 == class as int
                        % 12;
                    assert(self@.contains(k) && k % 12 == note as int % 12);
                }
            }
        }
        mask & (1u16 << class) != 0
    }

    /// Canonicalize this carrier representation to one key per pitch class.
    ///
    /// The shared musical meaning is a pitch-class set. The 128-bit carrier
    /// remains useful for MIDI/GATT compatibility, but octave aliases must not
    /// become distinct members. `base` chooses the displayed octave.
    pub fn canonical_pitch_classes(self, base: u8) -> (result: Result<Self, RoundTableConfigError>)
        ensures
            edited(
                result,
                if octave_fits(self@, base) {
                    Ok(one_octave(self@, base))
                } else {
                    Err(RoundTableConfigError::Pattern)
                },
            ),
    {
        let mut canonical: RoundTablePattern = RoundTablePattern { low: 0, high: 0 };
        let mask: u16 = self.pitch_class_mask();
        let mut class: u8 = 0;
        let ghost below = |bound: int|
            Set::new(|key: u8| base <= key < base + bound && has_class(self@, key - base));
        proof {
            lemma_zero_words();
            assert(canonical@ =~= below(0));
            lemma_ascending_agree(canonical@, Set::empty(), 128);
            lemma_empty_population(128);
        }
        while class < 12
            invariant
                class <= 12,
                below == |bound: int|
                    Set::new(|key: u8| base <= key < base + bound && has_class(self@, key - base)),
                canonical@ == below(class as int),
                ascending(canonical@).len() <= class,
                forall|c: u16|
                    c < 16 ==> #[trigger] bits::bit16(mask, c) == (c < 12 && has_class(
                        self@,
                        c as int,
                    )),
                forall|c: int|
                    0 <= c < class && #[trigger] has_class(self@, c) ==> base + c < MIDI_KEYS,
            decreases 12 - class,
        {
            proof {
                bits::lemma_bit16_test(mask, class as u16);
            }
            if mask & (1u16 << (class as u16)) != 0 {
                assert(has_class(self@, class as int));
                let note: u8 = match base.checked_add(class) {
                    Some(note) => note,
                    None => {
                        return Err(RoundTableConfigError::Pattern);
                    },
                };
                let ghost before = canonical@;
                canonical =
                match canonical.toggled(note) {
                    Ok(next) => next,
                    Err(error) => {
                        return Err(error);
                    },
                };
                proof {
                    lemma_population_insert(before, note, 128);
                    assert(canonical@ =~= below(class + 1));
                }
            } else {
                assert(canonical@ =~= below(class + 1));
            }
            class = class + 1;
        }
        proof {
            assert(canonical@ =~= one_octave(self@, base));
        }
        Ok(canonical)
    }

    /// Toggle the one shared member addressed by any octave of `note`.
    pub fn toggled_pitch_class(self, note: u8, base: u8) -> (result: Result<
        Self,
        RoundTableConfigError,
    >)
        ensures
            edited(result, toggle_class(self@, note, base)),
    {
        let canonical: RoundTablePattern = match self.canonical_pitch_classes(base) {
            Ok(canonical) => canonical,
            Err(error) => {
                return Err(error);
            },
        };
        let canonical_note: u8 = match base.checked_add(note % 12) {
            Some(canonical_note) => canonical_note,
            None => {
                return Err(RoundTableConfigError::Pattern);
            },
        };
        proof {
            assert(has_class(self@, canonical_note - base) == has_class(self@, note as int)) by {
                lemma_class_of_remainder(self@, note);
            }
            lemma_octave_population(self@, base, 128);
        }
        canonical.toggled(canonical_note)
    }

    /// Adds the key if it is absent and there is room, removes it if present.
    pub fn toggled(self, note: u8) -> (result: Result<Self, RoundTableConfigError>)
        ensures
            edited(result, toggle(self@, note)),
    {
        if note >= MIDI_KEYS {
            return Err(RoundTableConfigError::Pattern);
        }
        if self.contains(note) {
            let (low, high): (u64, u64) = clear_key(self.low, self.high, note);
            return Ok(RoundTablePattern { low, high });
        }
        if self.len() >= MAX_PATTERN_NOTES {
            return Err(RoundTableConfigError::Pattern);
        }
        let (low, high): (u64, u64) = set_key(self.low, self.high, note);
        Ok(RoundTablePattern { low, high })
    }

    /// The pattern of no key.
    pub closed spec fn none() -> RoundTablePattern {
        RoundTablePattern { low: 0, high: 0 }
    }

    pub proof fn lemma_none_is_empty()
        ensures
            Self::none()@ == Set::<u8>::empty(),
    {
        lemma_zero_words();
    }

    pub fn cleared(self) -> (pattern: Self)
        ensures
            pattern == Self::none(),
            pattern@ == Set::<u8>::empty(),
            pattern.word(0) == 0,
            pattern.word(1) == 0,
    {
        proof {
            lemma_zero_words();
        }
        RoundTablePattern { low: 0, high: 0 }
    }

    /// All keys of both sets. The population limit is not applied.
    pub fn union(self, other: Self) -> (pattern: Self)
        ensures
            pattern@ == self@.union(other@),
    {
        let pattern = RoundTablePattern {
            low: self.low | other.low,
            high: self.high | other.high,
        };
        proof {
            assert forall|key: u8| pattern@.contains(key) == self@.union(other@).contains(key) by {
                if key < 64 {
                    bits::lemma_bit_union(self.low, other.low, key as u64);
                } else if key < MIDI_KEYS {
                    bits::lemma_bit_union(self.high, other.high, (key - 64) as u64);
                }
            }
            assert(pattern@ =~= self@.union(other@));
        }
        pattern
    }
}

pub proof fn lemma_empty_population(bound: nat)
    ensures
        ascending_below(Set::empty(), bound).len() == 0,
    decreases bound,
{
    if bound > 0 {
        lemma_empty_population((bound - 1) as nat);
    }
}

/// A key and its remainder belong to the same pitch class.
proof fn lemma_class_of_remainder(keys: Set<u8>, note: u8)
    ensures
        has_class(keys, (note % 12) as int) == has_class(keys, note as int),
{
    if has_class(keys, note as int) {
        let k = choose|k: u8| #[trigger] keys.contains(k) && k % 12 == note as int % 12;
        assert(keys.contains(k) && k % 12 == (note % 12) as int % 12);
    }
    if has_class(keys, (note % 12) as int) {
        let k = choose|k: u8| #[trigger] keys.contains(k) && k % 12 == (note % 12) as int % 12;
        assert(keys.contains(k) && k % 12 == note as int % 12);
    }
}

/// An octave holds at most twelve keys.
proof fn lemma_octave_population(keys: Set<u8>, base: u8, bound: nat)
    requires
        bound <= 256,
    ensures
        ascending_below(one_octave(keys, base), bound).len() <= if bound <= base {
            0
        } else if bound <= base + 12 {
            bound - base
        } else {
            12
        },
    decreases bound,
{
    if bound > 0 {
        lemma_octave_population(keys, base, (bound - 1) as nat);
    }
}

impl Default for RoundTablePattern {
    /// C3, E-flat3, G3, B-flat3: immediately musical, fully visible on the
    /// default browser keyboard, and still low enough for the small amp.
    fn default() -> (pattern: Self)
        ensures
            pattern@ == set![48u8, 51u8, 55u8, 58u8],
            pattern.word(0) == 0x0489_0000_0000_0000,
            pattern.word(1) == 0,
    {
        let pattern = RoundTablePattern { low: 0x0489_0000_0000_0000, high: 0 };
        proof {
            assert forall|key: u8|
                pattern@.contains(key) == set![48u8, 51u8, 55u8, 58u8].contains(key) by {
                let d = key as u64;
                if key < 64 {
                    assert((0x0489_0000_0000_0000u64 >> d) & 1 == 1 <==> d == 48 || d == 51 || d
                        == 55 || d == 58) by (bit_vector)
                        requires
                            d < 64,
                    ;
                } else if key < MIDI_KEYS {
                    bits::lemma_no_bits((key - 64) as u64);
                }
            }
            assert(pattern@ =~= set![48u8, 51u8, 55u8, 58u8]);
        }
        pattern
    }
}

/// One-press/one-toggle gate for MIDI-style arpeggiator editors.
///
/// Controllers may repeat note-on while a key is held. A latch editor must
/// toggle only on the first note-on and use note-off solely to re-arm that
/// physical key. This bounded state machine makes that input contract shared
/// and testable without putting event-gating state into durable music history.
#[derive(Debug, Clone, Copy, PartialEq, Eq, Structural)]
pub struct RoundTableInputGate {
    low: u64,
    high: u64,
}

impl View for RoundTableInputGate {
    type V = Set<u8>;

    /// The keys that are held.
    closed spec fn view(&self) -> Set<u8> {
        word_keys(self.low, self.high)
    }
}

impl RoundTableInputGate {
    /// Returns `true` exactly once between a key's press and release.
    pub fn press(&mut self, note: u8) -> (first: bool)
        ensures
            first == (note < MIDI_KEYS && !old(self)@.contains(note)),
            final(self)@ == if note < MIDI_KEYS {
                old(self)@.insert(note)
            } else {
                old(self)@
            },
    {
        if note >= MIDI_KEYS || test_key(self.low, self.high, note) {
            proof {
                if note < MIDI_KEYS {
                    assert(self@.insert(note) =~= self@);
                }
            }
            return false;
        }
        let (low, high): (u64, u64) = set_key(self.low, self.high, note);
        self.low = low;
        self.high = high;
        true
    }

    /// Re-arms the key. Returns whether it was held.
    pub fn release(&mut self, note: u8) -> (was_held: bool)
        ensures
            was_held == old(self)@.contains(note),
            final(self)@ == old(self)@.remove(note),
    {
        if note >= MIDI_KEYS {
            assert(self@.remove(note) =~= self@);
            return false;
        }
        let was_held: bool = test_key(self.low, self.high, note);
        let (low, high): (u64, u64) = clear_key(self.low, self.high, note);
        self.low = low;
        self.high = high;
        was_held
    }

    pub fn clear(&mut self)
        ensures
            final(self)@ == Set::<u8>::empty(),
    {
        proof {
            lemma_zero_words();
        }
        self.low = 0;
        self.high = 0;
    }
}

impl Default for RoundTableInputGate {
    fn default() -> (gate: Self)
        ensures
            gate@ == Set::<u8>::empty(),
    {
        proof {
            lemma_zero_words();
        }
        RoundTableInputGate { low: 0, high: 0 }
    }
}

/// Toggling a key twice gives the set back, wherever both are admitted.
pub proof fn law_toggle_is_reversible(keys: Set<u8>, key: u8)
    requires
        toggle(keys, key) is Ok,
        toggle(toggle(keys, key)->Ok_0, key) is Ok,
    ensures
        toggle(toggle(keys, key)->Ok_0, key) == Ok::<Set<u8>, RoundTableConfigError>(keys),
{
    if keys.contains(key) {
        assert(keys.remove(key).insert(key) =~= keys);
    } else {
        assert(keys.insert(key).remove(key) =~= keys);
    }
}

/// A toggle is always admitted back: a set within the population limit can undo
/// every toggle, and no toggle takes it over the limit.
pub proof fn law_toggle_keeps_the_limit(keys: Set<u8>, key: u8)
    requires
        ascending(keys).len() <= MAX_PATTERN_NOTES,
        toggle(keys, key) is Ok,
    ensures
        ascending(toggle(keys, key)->Ok_0).len() <= MAX_PATTERN_NOTES,
        toggle(toggle(keys, key)->Ok_0, key) is Ok,
{
    if keys.contains(key) {
        lemma_population_insert(keys.remove(key), key, 128);
        assert(keys.remove(key).insert(key) =~= keys);
    } else {
        lemma_population_insert(keys, key, 128);
    }
}

/// Octave aliases address the same shared member.
pub proof fn law_octaves_toggle_alike(keys: Set<u8>, a: u8, b: u8, base: u8)
    requires
        a % 12 == b % 12,
    ensures
        toggle_class(keys, a, base) == toggle_class(keys, b, base),
        has_class(keys, a as int) == has_class(keys, b as int),
{
    lemma_class_of_remainder(keys, a);
    lemma_class_of_remainder(keys, b);
}

/// The pitch classes of a set survive being brought into one octave.
pub proof fn law_one_octave_keeps_the_classes(keys: Set<u8>, base: u8, note: u8)
    requires
        octave_fits(keys, base),
        forall|key: u8| keys.contains(key) ==> key < MIDI_KEYS,
        base % 12 == 0,
    ensures
        has_class(one_octave(keys, base), note as int) == has_class(keys, note as int),
{
    let octave = one_octave(keys, base);
    if has_class(octave, note as int) {
        let k = choose|k: u8| #[trigger] octave.contains(k) && k % 12 == note as int % 12;
        let c = choose|c: u8| #[trigger] keys.contains(c) && c % 12 == (k - base) % 12;
        assert(keys.contains(c) && c % 12 == note as int % 12);
    }
    if has_class(keys, note as int) {
        lemma_class_of_remainder(keys, note);
        let class = (note % 12) as int;
        assert(has_class(keys, class));
        let k = (base + class) as u8;
        assert(k - base == class);
        assert(octave.contains(k));
        assert(k % 12 == note as int % 12);
    }
}

/// Between two releases a key counts as pressed at most once, however often it
/// repeats.
pub proof fn law_repeats_do_not_press_again(held: Set<u8>, note: u8)
    requires
        note < MIDI_KEYS,
    ensures
        held.insert(note).contains(note),
        !held.insert(note).remove(note).contains(note),
{
}

/// A toggle is admitted exactly where the key is a MIDI key and is already there or
/// finds fewer than 24 others. It turns that key over and leaves every other as it
/// was.
pub proof fn law_a_toggle_turns_one_key_over(keys: Set<u8>, key: u8, other: u8)
    ensures
        toggle(keys, key) is Ok <==> key <= 127 && (keys.contains(key) || ascending(keys).len()
            < 24),
        toggle(keys, key) is Err ==> toggle(keys, key)->Err_0 == RoundTableConfigError::Pattern,
        toggle(keys, key) is Ok ==> (toggle(keys, key)->Ok_0.contains(other) <==> if other == key {
            !keys.contains(key)
        } else {
            keys.contains(other)
        }),
{
}

/// The list of a set holds its MIDI keys, each once, from the lowest to the highest.
pub proof fn law_keys_are_listed_upwards(keys: Set<u8>)
    ensures
        forall|key: u8| #[trigger]
            ascending(keys).contains(key) <==> keys.contains(key) && key <= 127,
        forall|i: int, j: int|
            0 <= i < j < ascending(keys).len() ==> (#[trigger] ascending(keys)[i]) < (
            #[trigger] ascending(keys)[j]),
{
    assert forall|key: u8| #[trigger]
        ascending(keys).contains(key) <==> keys.contains(key) && key <= 127 by {
        lemma_ascending_below_members(keys, 128, key);
    }
    assert forall|i: int, j: int| 0 <= i < j < ascending(keys).len() implies (
    #[trigger] ascending(keys)[i]) < (#[trigger] ascending(keys)[j]) by {
        lemma_ascending_below_sorted(keys, 128, i, j);
    }
}

/// Bringing a set into one octave keeps one key for each of its pitch classes, the
/// one that lies that many semitones above the base.
pub proof fn law_one_octave_holds_each_class_once(keys: Set<u8>, base: u8, key: u8)
    ensures
        one_octave(keys, base).contains(key) <==> base <= key <= base + 11 && exists|member: u8|
            #[trigger] keys.contains(member) && member % 12 == (key - base) % 12,
        octave_fits(keys, base) <==> (forall|member: u8| #[trigger]
            keys.contains(member) ==> base + member % 12 <= 127),
{
    if octave_fits(keys, base) {
        assert forall|member: u8| #[trigger] keys.contains(member) implies base + member % 12
            <= 127 by {
            assert(has_class(keys, (member % 12) as int));
        }
    }
    if forall|member: u8| #[trigger] keys.contains(member) ==> base + member % 12 <= 127 {
        assert forall|class: int|
            0 <= class < 12 && #[trigger] has_class(keys, class) implies base + class
            < MIDI_KEYS by {
            let member = choose|member: u8| #[trigger]
                keys.contains(member) && member % 12 == class % 12;
            assert(base + member % 12 <= 127);
        }
    }
}

/// Toggling a pitch class leaves one key for every other class of the set and turns
/// that class over. It is admitted where all those keys are MIDI keys.
pub proof fn law_a_toggle_turns_one_class_over(keys: Set<u8>, note: u8, base: u8, class: u8)
    requires
        class < 12,
    ensures
        toggle_class(keys, note, base) is Ok <==> base + note % 12 <= 127 && (forall|member: u8| #[trigger]
            keys.contains(member) ==> base + member % 12 <= 127),
        toggle_class(keys, note, base) is Err ==> toggle_class(keys, note, base)->Err_0
            == RoundTableConfigError::Pattern,
        toggle_class(keys, note, base) is Ok ==> {
            let toggled = toggle_class(keys, note, base)->Ok_0;
            &&& base + class <= 127 ==> (toggled.contains((base + class) as u8) <==> if class == note
                % 12 {
                !has_class(keys, class as int)
            } else {
                has_class(keys, class as int)
            })
            &&& forall|key: u8| #[trigger] toggled.contains(key) ==> base <= key <= base + 11
        },
{
    law_one_octave_holds_each_class_once(keys, base, 0);
    lemma_class_of_remainder(keys, note);
    if toggle_class(keys, note, base) is Ok && base + class <= 127 {
        let key = (base + class) as u8;
        assert(key - base == class);
    }
}

/// The first word of a pattern carries the keys below 64 and the second the others,
/// each from its lowest bit up.
pub proof fn law_words_carry_the_keys(pattern: RoundTablePattern, key: u8)
    ensures
        key < 64 ==> (pattern@.contains(key) <==> (pattern.word(0) >> (key as u64)) & 1 == 1),
        64 <= key <= 127 ==> (pattern@.contains(key) <==> (pattern.word(1) >> ((key - 64) as u64))
            & 1 == 1),
        key > 127 ==> !pattern@.contains(key),
{
}

/// A set holds the pitch class of a note exactly where it holds a key that lies whole
/// octaves away from it.
pub proof fn law_classes_are_whole_octaves_apart(keys: Set<u8>, note: int)
    ensures
        has_class(keys, note) <==> exists|key: u8| #[trigger] keys.contains(key) && (key - note) % 12
            == 0,
{
    if has_class(keys, note) {
        let key = choose|key: u8| #[trigger] keys.contains(key) && key % 12 == note % 12;
        assert((key - note) % 12 == 0);
    }
    if exists|key: u8| #[trigger] keys.contains(key) && (key - note) % 12 == 0 {
        let key = choose|key: u8| #[trigger] keys.contains(key) && (key - note) % 12 == 0;
        assert(key % 12 == note % 12);
    }
}

/// An edit comes out as expected where both succeed with the same keys or both fail
/// with the same error.
pub proof fn law_edits_come_out_as_expected(
    result: Result<RoundTablePattern, RoundTableConfigError>,
    expected: Result<Set<u8>, RoundTableConfigError>,
)
    requires
        edited(result, expected),
    ensures
        result is Ok <==> expected is Ok,
        result is Ok ==> result->Ok_0@ == expected->Ok_0,
        result is Err ==> result->Err_0 == expected->Err_0,
{
}

} // verus!

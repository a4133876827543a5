//! Bounded presence in fixed storage, without allocation.
//!
//! A controller's held degrees are replaceable lease state. Multiple sources
//! converge by set union; releasing or expiring one source cannot silence a
//! degree still held by another.

use crate::bits;
use crate::music::source::SourceKey;
use vstd::prelude::*;

verus! {

#[derive(Clone, Copy, Debug, PartialEq, Eq, Structural)]
pub enum PresenceError {
    SourceLimit(usize),
    HeldLimit(usize),
    IndexLimit(usize),
}

/// The members of `indices` below `bound`, in ascending order.
pub open spec fn ascending_below(indices: Set<int>, bound: nat) -> Seq<int>
    decreases bound,
{
    if bound == 0 {
        Seq::empty()
    } else {
        let rest = ascending_below(indices, (bound - 1) as nat);
        if indices.contains(bound - 1) {
            rest.push(bound - 1)
        } else {
            rest
        }
    }
}

/// A fixed-capacity set of small non-negative indices.
///
/// This is the allocator-free representation used by embedded presence
/// backends. The protocol meaning of an index belongs to the caller (for
/// Tutti it is normally a degree in one explicitly agreed tuning). Operations
/// outside `WORDS * 64` fail instead of allocating, evicting, or truncating.
#[derive(Clone, Copy, Debug, PartialEq, Eq)]
pub struct FixedBitSet<const WORDS: usize> {
    words: [u64; WORDS],
}

/// Whether the bit of `index` is set in an array of words.
pub open spec fn index_bit(words: Seq<u64>, index: int) -> bool {
    0 <= index < 64 * words.len() && bits::bit(words[index / 64], (index % 64) as u64)
}

impl<const WORDS: usize> View for FixedBitSet<WORDS> {
    type V = Set<int>;

    closed spec fn view(&self) -> Set<int> {
        Set::new(|index: int| index_bit(self.words@, index))
    }
}

impl<const WORDS: usize> FixedBitSet<WORDS> {
    /// The words as they are carried.
    pub closed spec fn carried(self) -> Seq<u64> {
        self.words@
    }

    pub fn from_words(words: [u64; WORDS]) -> (set: Self)
        ensures
            set.carried() == words@,
            set@ == Set::new(|index: int| index_bit(words@, index)),
    {
        let set = FixedBitSet { words };
        assert(set@ =~= Set::new(|index: int| index_bit(words@, index)));
        set
    }

    pub fn words(&self) -> (words: &[u64; WORDS])
        ensures
            words@ == self.carried(),
            self@ == Set::new(|index: int| index_bit(words@, index)),
    {
        assert(self@ =~= Set::new(|index: int| index_bit(self.words@, index)));
        &self.words
    }

    /// How many indices there are.
    pub fn capacity() -> (capacity: usize)
        requires
            WORDS * 64 <= usize::MAX,
        ensures
            capacity == WORDS * 64,
    {
        WORDS * 64
    }

    /// How many members the set has.
    pub fn len(&self) -> (len: usize)
        requires
            WORDS * 64 <= usize::MAX,
        ensures
            len == self@.len(),
            self@.finite(),
    {
        let mut len: usize = 0;
        let mut index: usize = 0;
        let ghost below = |bound: int| Set::new(|i: int| i < bound && self@.contains(i));
        assert(below(0) =~= Set::<int>::empty());
        while index < WORDS * 64
            invariant
                WORDS * 64 <= usize::MAX,
                index <= WORDS * 64,
                len <= index,
                below == |bound: int| Set::new(|i: int| i < bound && self@.contains(i)),
                below(index as int).finite(),
                len == below(index as int).len(),
            decreases WORDS * 64 - index,
        {
            if self.contains(index) {
                len = len + 1;
                assert(below(index + 1) =~= below(index as int).insert(index as int));
            } else {
                assert(below(index + 1) =~= below(index as int));
            }
            index = index + 1;
        }
        assert(below(index as int) =~= self@);
        len
    }

    pub fn is_empty(&self) -> (empty: bool)
        ensures
            empty == (self@ == Set::<int>::empty()),
    {
        let mut i: usize = 0;
        while i < WORDS
            invariant
                i <= WORDS,
                forall|j: int| 0 <= j < i ==> self.words@[j] == 0,
            decreases WORDS - i,
        {
            if self.words[i] != 0 {
                proof {
                    bits::lemma_zero_word(self.words@[i as int]);
                    let d = choose|d: u64| d < 64 && bits::bit(self.words@[i as int], d);
                    let index = 64 * i + d as int;
                    assert(index / 64 == i && index % 64 == d);
                    assert(self@.contains(index));
                }
                return false;
            }
            i = i + 1;
        }
        proof {
            assert forall|index: int| !self@.contains(index) by {
                if 0 <= index < 64 * WORDS {
                    assert(self.words@[index / 64] == 0);
                    bits::lemma_no_bits((index % 64) as u64);
                }
            }
            assert(self@ =~= Set::<int>::empty());
        }
        true
    }

    pub fn contains(&self, index: usize) -> (r: bool)
        ensures
            r == self@.contains(index as int),
    {
        let word: usize = index / 64;
        if word >= WORDS {
            return false;
        }
        let d: u64 = (index % 64) as u64;
        proof {
            bits::lemma_bit_test(self.words@[word as int], d);
        }
        self.words[word] & (1u64 << d) != 0
    }

    /// Adds an index, if it is within the capacity. Returns whether it was new.
    pub fn insert(&mut self, index: usize) -> (result: Result<bool, PresenceError>)
        requires
            WORDS * 64 <= usize::MAX,
        ensures
            if index < WORDS * 64 {
                &&& result == Ok::<bool, PresenceError>(!old(self)@.contains(index as int))
                &&& final(self)@ == old(self)@.insert(index as int)
            } else {
                &&& result == Err::<bool, PresenceError>(
                    PresenceError::IndexLimit((WORDS * 64) as usize),
                )
                &&& final(self)@ == old(self)@
            },
    {
        let word: usize = index / 64;
        if word >= WORDS {
            return Err(PresenceError::IndexLimit(WORDS * 64));
        }
        let d: u64 = (index % 64) as u64;
        let changed: bool = !self.contains(index);
        let before: u64 = self.words[word];
        self.words[word] = before | (1u64 << d);
        proof {
            assert forall|other: int|
                self@.contains(other) == old(self)@.insert(index as int).contains(other) by {
                if 0 <= other < 64 * WORDS && other / 64 == word {
                    bits::lemma_bit_set(before, d, (other % 64) as u64);
                }
            }
            assert(self@ =~= old(self)@.insert(index as int));
        }
        Ok(changed)
    }

    /// Removes an index. Returns whether it was there.
    pub fn remove(&mut self, index: usize) -> (removed: bool)
        ensures
            removed == old(self)@.contains(index as int),
            final(self)@ == old(self)@.remove(index as int),
    {
        let word: usize = index / 64;
        if word >= WORDS {
            assert(self@.remove(index as int) =~= self@);
            return false;
        }
        let d: u64 = (index % 64) as u64;
        let removed: bool = self.contains(index);
        let before: u64 = self.words[word];
        self.words[word] = before & !(1u64 << d);
        proof {
            assert forall|other: int|
                self@.contains(other) == old(self)@.remove(index as int).contains(other) by {
                if 0 <= other < 64 * WORDS && other / 64 == word {
                    bits::lemma_bit_cleared(before, d, (other % 64) as u64);
                }
            }
            assert(self@ =~= old(self)@.remove(index as int));
        }
        removed
    }

    pub fn union_with(&mut self, other: &Self)
        ensures
            final(self)@ == old(self)@.union(other@),
    {
        let mut i: usize = 0;
        while i < WORDS
            invariant
                i <= WORDS,
                forall|j: int|
                    0 <= j < i ==> #[trigger] self.words@[j] == old(self).words@[j]
                        | other.words@[j],
                forall|j: int| i <= j < WORDS ==> self.words@[j] == old(self).words@[j],
            decreases WORDS - i,
        {
            self.words[i] = self.words[i] | other.words[i];
            i = i + 1;
        }
        proof {
            assert forall|index: int|
                self@.contains(index) == old(self)@.union(other@).contains(index) by {
                if 0 <= index < 64 * WORDS {
                    bits::lemma_bit_union(
                        old(self).words@[index / 64],
                        other.words@[index / 64],
                        (index % 64) as u64,
                    );
                    assert(self.words@[index / 64] == old(self).words@[index / 64]
                        | other.words@[index / 64]);
                }
            }
            assert(self@ =~= old(self)@.union(other@));
        }
    }

    pub fn difference(&self, other: &Self) -> (result: Self)
        ensures
            result@ == self@.difference(other@),
    {
        let mut result: FixedBitSet<WORDS> = FixedBitSet { words: [0u64; WORDS] };
        let mut i: usize = 0;
        while i < WORDS
            invariant
                i <= WORDS,
                forall|j: int|
                    0 <= j < i ==> #[trigger] result.words@[j] == self.words@[j]
                        & !other.words@[j],
            decreases WORDS - i,
        {
            result.words[i] = self.words[i] & !other.words[i];
            i = i + 1;
        }
        proof {
            assert forall|index: int|
                result@.contains(index) == self@.difference(other@).contains(index) by {
                if 0 <= index < 64 * WORDS {
                    bits::lemma_bit_difference(
                        self.words@[index / 64],
                        other.words@[index / 64],
                        (index % 64) as u64,
                    );
                    assert(result.words@[index / 64] == self.words@[index / 64]
                        & !other.words@[index / 64]);
                }
            }
            assert(result@ =~= self@.difference(other@));
        }
        result
    }

    /// A cursor over the members, in ascending order.
    pub fn iter(&self) -> (iter: FixedBitSetIter<'_, WORDS>)
        requires
            WORDS * 64 <= usize::MAX,
        ensures
            iter.remaining() == ascending_below(self@, (WORDS * 64) as nat),
    {
        let iter = FixedBitSetIter { set: self, next_index: 0 };
        proof {
            iter.lemma_start();
        }
        iter
    }

    /// The members, in ascending order.
    pub fn to_vec(&self) -> (indices: Vec<usize>)
        requires
            WORDS * 64 <= usize::MAX,
        ensures
            indices@.map_values(|i: usize| i as int) == ascending_below(
                self@,
                (WORDS * 64) as nat,
            ),
    {
        let mut indices: Vec<usize> = Vec::new();
        let mut index: usize = 0;
        assert(indices@.map_values(|i: usize| i as int) =~= ascending_below(self@, 0));
        while index < WORDS * 64
            invariant
                WORDS * 64 <= usize::MAX,
                index <= WORDS * 64,
                indices@.map_values(|i: usize| i as int) == ascending_below(self@, index as nat),
            decreases WORDS * 64 - index,
        {
            if self.contains(index) {
                let ghost before = indices@;
                indices.push(index);
                assert(indices@.map_values(|i: usize| i as int) =~= before.map_values(
                    |i: usize| i as int,
                ).push(index as int));
            }
            index = index + 1;
        }
        indices
    }
}

impl<const WORDS: usize> Default for FixedBitSet<WORDS> {
    fn default() -> (set: Self)
        ensures
            set@ == Set::<int>::empty(),
    {
        let set = FixedBitSet { words: [0u64; WORDS] };
        proof {
            assert forall|index: int| !set@.contains(index) by {
                if 0 <= index < 64 * WORDS {
                    bits::lemma_no_bits((index % 64) as u64);
                }
            }
            assert(set@ =~= Set::<int>::empty());
        }
        set
    }
}

/// A cursor over the members of a set, in ascending order.
pub struct FixedBitSetIter<'a, const WORDS: usize> {
    set: &'a FixedBitSet<WORDS>,
    next_index: usize,
}

/// The members of `indices` from `from` up to `bound`, in ascending order.
pub open spec fn ascending_from(indices: Set<int>, from: int, bound: int) -> Seq<int>
    decreases bound - from,
{
    if from >= bound {
        Seq::empty()
    } else if indices.contains(from) {
        seq![from] + ascending_from(indices, from + 1, bound)
    } else {
        ascending_from(indices, from + 1, bound)
    }
}

proof fn lemma_ascending_join(indices: Set<int>, from: int, bound: int)
    requires
        0 <= from <= bound,
    ensures
        ascending_below(indices, from as nat) + ascending_from(indices, from, bound)
            == ascending_below(indices, bound as nat),
    decreases bound - from,
{
    if from < bound {
        lemma_ascending_join(indices, from + 1, bound);
        let (a, b) = (
            ascending_below(indices, from as nat),
            ascending_from(indices, from + 1, bound),
        );
        if indices.contains(from) {
            assert(a + (seq![from] + b) =~= a.push(from) + b);
        }
    } else {
        assert(ascending_below(indices, from as nat) + Seq::<int>::empty() =~= ascending_below(
            indices,
            from as nat,
        ));
    }
}

impl<'a, const WORDS: usize> FixedBitSetIter<'a, WORDS> {
    /// The members still to come.
    pub closed spec fn remaining(self) -> Seq<int> {
        ascending_from(self.set@, self.next_index as int, WORDS * 64)
    }

    proof fn lemma_start(self)
        requires
            self.next_index == 0,
        ensures
            self.remaining() == ascending_below(self.set@, (WORDS * 64) as nat),
    {
        lemma_ascending_join(self.set@, 0, WORDS * 64);
        assert(ascending_below(self.set@, 0) + self.remaining() =~= self.remaining());
    }

    /// The next member, while there is one.
    pub fn next(&mut self) -> (index: Option<usize>)
        requires
            WORDS * 64 <= usize::MAX,
        ensures
            match index {
                Some(index) => {
                    &&& old(self).remaining().len() > 0
                    &&& index == old(self).remaining()[0]
                    &&& final(self).remaining() == old(self).remaining().drop_first()
                },
                None => old(self).remaining().len() == 0 && final(self).remaining() == old(
                    self,
                ).remaining(),
            },
    {
        while self.next_index < WORDS * 64
            invariant
                WORDS * 64 <= usize::MAX,
                self.set == old(self).set,
                self.remaining() == old(self).remaining(),
            decreases WORDS * 64 - self.next_index,
        {
            let index: usize = self.next_index;
            self.next_index = index + 1;
            if self.set.contains(index) {
                assert(old(self).remaining().drop_first() =~= self.remaining());
                return Some(index);
            }
        }
        None
    }
}

/// The change from one set of indices to another.
#[derive(Clone, Copy, Debug, PartialEq, Eq)]
pub struct FixedPresenceDiff<const WORDS: usize> {
    pub retracted: FixedBitSet<WORDS>,
    pub added: FixedBitSet<WORDS>,
}

impl<const WORDS: usize> FixedPresenceDiff<WORDS> {
    /// Whether this is the change from `before` to `after`.
    pub open spec fn leads(self, before: Set<int>, after: Set<int>) -> bool {
        &&& self.retracted@ == before.difference(after)
        &&& self.added@ == after.difference(before)
    }

    pub fn is_empty(&self) -> (empty: bool)
        ensures
            empty == (self.retracted@ == Set::<int>::empty() && self.added@
                == Set::<int>::empty()),
    {
        self.retracted.is_empty() && self.added.is_empty()
    }

    fn between(before: &FixedBitSet<WORDS>, after: &FixedBitSet<WORDS>) -> (diff: Self)
        ensures
            diff.leads(before@, after@),
    {
        FixedPresenceDiff {
            retracted: before.difference(after),
            added: after.difference(before),
        }
    }
}

#[derive(Debug)]
struct Slot<S, R, const WORDS: usize> {
    source: S,
    revision: R,
    held: FixedBitSet<WORDS>,
}

/// What is known of one source: what it holds, and the revision at which it said
/// so, if revisions are kept.
pub struct Holding<R> {
    pub revision: R,
    pub held: Set<int>,
}

/// Calls `std::array::from_fn` with a function that yields `None` everywhere, so
/// that every element of the array is `None`.
#[verifier::external_body]
fn no_slots<T, const N: usize>() -> (slots: [Option<T>; N])
    ensures
        forall|i: int| 0 <= i < N ==> slots@[i] is None,
{
    std::array::from_fn(|_| None)
}

/// What the sources in the first `n` slots hold.
spec fn holdings_below<S: SourceKey, R, const WORDS: usize>(
    slots: Seq<Option<Slot<S, R, WORDS>>>,
    n: nat,
) -> Map<S::Id, Holding<R>>
    decreases n,
{
    if n == 0 {
        Map::empty()
    } else {
        let rest = holdings_below(slots, (n - 1) as nat);
        match slots[n - 1] {
            Some(slot) => rest.insert(
                slot.source.id(),
                Holding { revision: slot.revision, held: slot.held@ },
            ),
            None => rest,
        }
    }
}

/// Whether no two slots belong to the same source.
spec fn distinct<S: SourceKey, R, const WORDS: usize>(slots: Seq<Option<Slot<S, R, WORDS>>>) -> bool {
    forall|i: int, j: int|
        0 <= i < slots.len() && 0 <= j < slots.len() && i != j && (#[trigger] slots[i]) is Some && (
        #[trigger] slots[j]) is Some ==> slots[i]->0.source.id() != slots[j]->0.source.id()
}

proof fn lemma_holdings<S: SourceKey, R, const WORDS: usize>(
    slots: Seq<Option<Slot<S, R, WORDS>>>,
    n: nat,
)
    requires
        n <= slots.len(),
        distinct(slots),
    ensures
        holdings_below(slots, n).dom().finite(),
        forall|i: int|
            #![trigger slots[i]]
            0 <= i < n && slots[i] is Some ==> {
                let slot = slots[i]->0;
                &&& holdings_below(slots, n).dom().contains(slot.source.id())
                &&& holdings_below(slots, n)[slot.source.id()] == (Holding {
                    revision: slot.revision,
                    held: slot.held@,
                })
            },
        forall|id: S::Id| #[trigger]
            holdings_below(slots, n).dom().contains(id) ==> exists|i: int|
                0 <= i < n && (#[trigger] slots[i]) is Some && slots[i]->0.source.id() == id,
    decreases n,
{
    if n > 0 {
        let m = (n - 1) as nat;
        lemma_holdings(slots, m);
        let (rest, all) = (holdings_below(slots, m), holdings_below(slots, n));
        assert forall|id: S::Id| #[trigger] all.dom().contains(id) implies exists|i: int|
            0 <= i < n && (#[trigger] slots[i]) is Some && slots[i]->0.source.id() == id by {
            if slots[n - 1] is Some && slots[n - 1]->0.source.id() == id {
            } else {
                assert(rest.dom().contains(id));
                let i = choose|i: int|
                    0 <= i < m && (#[trigger] slots[i]) is Some && slots[i]->0.source.id() == id;
                assert(slots[i] is Some);
            }
        }
    }
}

/// How many of the first `n` slots are taken.
spec fn taken_below<S, R, const WORDS: usize>(slots: Seq<Option<Slot<S, R, WORDS>>>, n: nat) -> nat
    decreases n,
{
    if n == 0 {
        0
    } else {
        taken_below(slots, (n - 1) as nat) + if slots[n - 1] is Some {
            1nat
        } else {
            0nat
        }
    }
}

proof fn lemma_taken<S: SourceKey, R, const WORDS: usize>(
    slots: Seq<Option<Slot<S, R, WORDS>>>,
    n: nat,
)
    requires
        n <= slots.len(),
        distinct(slots),
    ensures
        holdings_below(slots, n).dom().len() == taken_below(slots, n),
        taken_below(slots, n) <= n,
        taken_below(slots, n) == n <==> forall|i: int|
            0 <= i < n ==> (#[trigger] slots[i]) is Some,
    decreases n,
{
    if n > 0 {
        let m = (n - 1) as nat;
        lemma_taken(slots, m);
        lemma_holdings(slots, m);
        if slots[n - 1] is Some {
            let id = slots[n - 1]->0.source.id();
            if holdings_below(slots, m).dom().contains(id) {
                let i = choose|i: int|
                    0 <= i < m && (#[trigger] slots[i]) is Some && slots[i]->0.source.id() == id;
                assert(slots[i] is Some && slots[n - 1] is Some);
            }
            assert(holdings_below(slots, n).dom() =~= holdings_below(slots, m).dom().insert(id));
        }
    } else {
        assert(holdings_below(slots, 0).dom() =~= Set::empty());
    }
}

/// Changing one slot changes what its source holds, and nothing else.
proof fn lemma_slot_update<S: SourceKey, R, const WORDS: usize>(
    slots: Seq<Option<Slot<S, R, WORDS>>>,
    after: Seq<Option<Slot<S, R, WORDS>>>,
    at: int,
)
    requires
        0 <= at < slots.len(),
        after == slots.update(at, after[at]),
        distinct(slots),
        match (slots[at], after[at]) {
            (Some(a), Some(b)) => a.source.id() == b.source.id(),
            (None, Some(b)) => !holdings_below(slots, slots.len()).dom().contains(b.source.id()),
            _ => true,
        },
    ensures
        distinct(after),
        holdings_below(after, after.len()) == match (slots[at], after[at]) {
            (_, Some(slot)) => holdings_below(slots, slots.len()).insert(
                slot.source.id(),
                Holding { revision: slot.revision, held: slot.held@ },
            ),
            (Some(slot), None) => holdings_below(slots, slots.len()).remove(slot.source.id()),
            (None, None) => holdings_below(slots, slots.len()),
        },
{
    let n = slots.len();
    lemma_holdings(slots, n);
    assert(distinct(after)) by {
        assert forall|i: int, j: int|
            0 <= i < n && 0 <= j < n && i != j && (#[trigger] after[i]) is Some && (
            #[trigger] after[j]) is Some implies after[i]->0.source.id()
            != after[j]->0.source.id() by {
            if i != at {
                assert(after[i] == slots[i]);
            }
            if j != at {
                assert(after[j] == slots[j]);
            }
        }
    }
    lemma_holdings(after, n);
    let (b, a) = (holdings_below(slots, n), holdings_below(after, n));
    let expected = match (slots[at], after[at]) {
        (_, Some(slot)) => b.insert(
            slot.source.id(),
            Holding { revision: slot.revision, held: slot.held@ },
        ),
        (Some(slot), None) => b.remove(slot.source.id()),
        (None, None) => b,
    };
    assert forall|id: S::Id| a.dom().contains(id) == expected.dom().contains(id) by {
        if a.dom().contains(id) {
            let i = choose|i: int|
                0 <= i < n && (#[trigger] after[i]) is Some && after[i]->0.source.id() == id;
            if i != at {
                assert(slots[i] == after[i]);
                if slots[at] is Some && after[at] is None {
                    assert(slots[i]->0.source.id() != slots[at]->0.source.id());
                }
            }
        }
        if expected.dom().contains(id) {
            if after[at] is Some && after[at]->0.source.id() == id {
                assert(after[at] is Some);
            } else {
                assert(b.dom().contains(id));
                let i = choose|i: int|
                    0 <= i < n && (#[trigger] slots[i]) is Some && slots[i]->0.source.id() == id;
                assert(i != at);
                assert(after[i] == slots[i]);
                assert(after[i] is Some);
            }
        }
    }
    assert forall|id: S::Id| a.dom().contains(id) implies a[id] == expected[id] by {
        let i = choose|i: int|
            0 <= i < n && (#[trigger] after[i]) is Some && after[i]->0.source.id() == id;
        if i != at {
            assert(slots[i] == after[i]);
            if after[at] is Some {
                assert(after[i]->0.source.id() != after[at]->0.source.id());
            }
        }
    }
    assert(a =~= expected);
}

/// What is live: everything that some source holds.
pub open spec fn live_of<I, R>(holdings: Map<I, Holding<R>>) -> Set<int> {
    Set::new(
        |index: int|
            exists|id: I| #[trigger]
                holdings.dom().contains(id) && holdings[id].held.contains(index),
    )
}

spec fn held_below<S, R, const WORDS: usize>(slots: Seq<Option<Slot<S, R, WORDS>>>, n: int, index: int) -> bool {
    exists|i: int|
        0 <= i < n && (#[trigger] slots[i]) is Some && slots[i]->0.held@.contains(index)
}

/// The slots of a bounded number of sources.
#[derive(Debug)]
struct SlotTable<S, R, const SOURCES: usize, const WORDS: usize> {
    slots: [Option<Slot<S, R, WORDS>>; SOURCES],
}

impl<S: SourceKey, R: Copy, const SOURCES: usize, const WORDS: usize> SlotTable<S, R, SOURCES, WORDS> {
    spec fn holdings(self) -> Map<S::Id, Holding<R>> {
        holdings_below(self.slots@, SOURCES as nat)
    }

    spec fn sound(self) -> bool {
        distinct(self.slots@)
    }

    fn new() -> (table: Self)
        ensures
            table.sound(),
            table.holdings() == Map::<S::Id, Holding<R>>::empty(),
    {
        let table = SlotTable { slots: no_slots() };
        proof {
            lemma_holdings(table.slots@, SOURCES as nat);
            assert(table.holdings() =~= Map::<S::Id, Holding<R>>::empty());
        }
        table
    }

    fn len(&self) -> (len: usize)
        requires
            self.sound(),
        ensures
            len == self.holdings().dom().len(),
            self.holdings().dom().finite(),
    {
        let mut len: usize = 0;
        let mut i: usize = 0;
        while i < SOURCES
            invariant
                i <= SOURCES,
                len <= i,
                len == taken_below(self.slots@, i as nat),
            decreases SOURCES - i,
        {
            if self.slots[i].is_some() {
                len = len + 1;
            }
            i = i + 1;
        }
        proof {
            lemma_taken(self.slots@, SOURCES as nat);
            lemma_holdings(self.slots@, SOURCES as nat);
        }
        len
    }

    /// The slot of a source.
    fn find(&self, source: &S) -> (found: Option<usize>)
        requires
            self.sound(),
        ensures
            match found {
                Some(i) => {
                    &&& i < SOURCES
                    &&& self.slots@[i as int] is Some
                    &&& self.slots@[i as int]->0.source.id() == source.id()
                    &&& self.holdings().dom().contains(source.id())
                    &&& self.holdings()[source.id()] == (Holding {
                        revision: self.slots@[i as int]->0.revision,
                        held: self.slots@[i as int]->0.held@,
                    })
                },
                None => !self.holdings().dom().contains(source.id()),
            },
    {
        proof {
            lemma_holdings(self.slots@, SOURCES as nat);
        }
        let mut i: usize = 0;
        while i < SOURCES
            invariant
                i <= SOURCES,
                self.sound(),
                forall|j: int|
                    0 <= j < i && (#[trigger] self.slots@[j]) is Some
                        ==> self.slots@[j]->0.source.id() != source.id(),
            decreases SOURCES - i,
        {
            if let Some(slot) = &self.slots[i] {
                if slot.source.same(source) {
                    proof {
                        lemma_holdings(self.slots@, SOURCES as nat);
                        assert(self.slots@[i as int] is Some);
                    }
                    return Some(i);
                }
            }
            i = i + 1;
        }
        proof {
            lemma_holdings(self.slots@, SOURCES as nat);
        }
        None
    }

    /// A slot that is not taken.
    fn find_free(&self) -> (found: Option<usize>)
        requires
            self.sound(),
        ensures
            match found {
                Some(i) => i < SOURCES && self.slots@[i as int] is None
                    && self.holdings().dom().len() < SOURCES,
                None => self.holdings().dom().len() == SOURCES,
            },
    {
        let mut i: usize = 0;
        while i < SOURCES
            invariant
                i <= SOURCES,
                self.sound(),
                forall|j: int| 0 <= j < i ==> (#[trigger] self.slots@[j]) is Some,
            decreases SOURCES - i,
        {
            if self.slots[i].is_none() {
                proof {
                    lemma_taken(self.slots@, SOURCES as nat);
                }
                return Some(i);
            }
            i = i + 1;
        }
        proof {
            lemma_taken(self.slots@, SOURCES as nat);
        }
        None
    }

    fn put(&mut self, at: usize, source: S, revision: R, held: FixedBitSet<WORDS>)
        requires
            old(self).sound(),
            at < SOURCES,
            match old(self).slots@[at as int] {
                Some(slot) => slot.source.id() == source.id(),
                None => !old(self).holdings().dom().contains(source.id()),
            },
        ensures
            final(self).sound(),
            final(self).holdings() == old(self).holdings().insert(
                source.id(),
                Holding { revision, held: held@ },
            ),
    {
        self.slots[at] = Some(Slot { source, revision, held });
        proof {
            lemma_slot_update(old(self).slots@, self.slots@, at as int);
        }
    }

    fn set_held(&mut self, at: usize, held: FixedBitSet<WORDS>)
        requires
            old(self).sound(),
            at < SOURCES,
            old(self).slots@[at as int] is Some,
        ensures
            final(self).sound(),
            ({
                let slot = old(self).slots@[at as int]->0;
                final(self).holdings() == old(self).holdings().insert(
                    slot.source.id(),
                    Holding { revision: slot.revision, held: held@ },
                )
            }),
    {
        match &mut self.slots[at] {
            Some(slot) => {
                slot.held = held;
            },
            None => {},
        }
        proof {
            assert(self.slots@ =~= old(self).slots@.update(at as int, self.slots@[at as int]));
            lemma_slot_update(old(self).slots@, self.slots@, at as int);
        }
    }

    fn clear_slot(&mut self, at: usize)
        requires
            old(self).sound(),
            at < SOURCES,
            old(self).slots@[at as int] is Some,
        ensures
            final(self).sound(),
            final(self).holdings() == old(self).holdings().remove(
                old(self).slots@[at as int]->0.source.id(),
            ),
    {
        self.slots[at] = None;
        proof {
            lemma_slot_update(old(self).slots@, self.slots@, at as int);
        }
    }

    /// Everything that some source holds.
    fn live(&self) -> (live: FixedBitSet<WORDS>)
        requires
            self.sound(),
        ensures
            live@ == live_of(self.holdings()),
    {
        let mut live: FixedBitSet<WORDS> = FixedBitSet::default();
        let mut i: usize = 0;
        while i < SOURCES
            invariant
                i <= SOURCES,
                forall|index: int|
                    #[trigger] live@.contains(index) <==> held_below(
                        self.slots@,
                        i as int,
                        index,
                    ),
            decreases SOURCES - i,
        {
            let ghost before = live@;
            if let Some(slot) = &self.slots[i] {
                live.union_with(&slot.held);
            }
            proof {
                assert forall|index: int| #[trigger] live@.contains(index) <==> held_below(
                    self.slots@,
                    i + 1,
                    index,
                ) by {
                    if held_below(self.slots@, i as int, index) {
                        let j = choose|j: int|
                            0 <= j < i && (#[trigger] self.slots@[j]) is Some
                                && self.slots@[j]->0.held@.contains(index);
                        assert(self.slots@[j] is Some);
                    }
                    assert(before.contains(index) <==> held_below(self.slots@, i as int, index));
                    if live@.contains(index) && !before.contains(index) {
                        assert(self.slots@[i as int] is Some);
                    }
                    if held_below(self.slots@, i + 1, index) && !before.contains(index) {
                        let j = choose|j: int|
                            0 <= j < i + 1 && (#[trigger] self.slots@[j]) is Some
                                && self.slots@[j]->0.held@.contains(index);
                        assert(j == i);
                    }
                }
            }
            i = i + 1;
        }
        proof {
            lemma_holdings(self.slots@, SOURCES as nat);
            let all = self.holdings();
            assert forall|index: int| live@.contains(index) == live_of(all).contains(index) by {
                if live@.contains(index) {
                    let j = choose|j: int|
                        0 <= j < SOURCES && (#[trigger] self.slots@[j]) is Some
                            && self.slots@[j]->0.held@.contains(index);
                    let id = self.slots@[j]->0.source.id();
                    assert(all.dom().contains(id) && all[id].held.contains(index));
                }
                if live_of(all).contains(index) {
                    let id = choose|id: S::Id| #[trigger]
                        all.dom().contains(id) && all[id].held.contains(index);
                    let j = choose|j: int|
                        0 <= j < SOURCES && (#[trigger] self.slots@[j]) is Some
                            && self.slots@[j]->0.source.id() == id;
                    assert(self.slots@[j] is Some && self.slots@[j]->0.held@.contains(index));
                    assert(held_below(self.slots@, SOURCES as int, index));
                }
            }
            assert(live@ =~= live_of(all));
        }
        live
    }
}

/// Fixed-source, fixed-degree presence with no allocation after construction.
///
/// RAM usage is determined entirely by `SOURCES`, `WORDS`, and `S`. The union
/// is recomputed from the small source array on replacement; that bounded work
/// avoids a heap map and per-degree reference-count nodes.
#[derive(Debug)]
pub struct FixedPresenceSet<S: SourceKey, const SOURCES: usize, const WORDS: usize> {
    max_held_per_source: usize,
    table: SlotTable<S, (), SOURCES, WORDS>,
    live: FixedBitSet<WORDS>,
}

/// What a set of sources holds, and how much one of them may.
#[verifier::reject_recursive_types(I)]
pub struct PresenceView<I, R> {
    pub max_held_per_source: usize,
    pub holdings: Map<I, Holding<R>>,
}

impl<I, R> PresenceView<I, R> {
    /// What is live.
    pub open spec fn live(self) -> Set<int> {
        live_of(self.holdings)
    }

    /// The verdict on a source that is to hold `held`, with room for `sources`
    /// sources.
    pub open spec fn verdict(self, id: I, held: Set<int>, sources: usize, needs_slot: bool) -> Result<
        (),
        PresenceError,
    > {
        if held.len() > self.max_held_per_source {
            Err(PresenceError::HeldLimit(self.max_held_per_source))
        } else if needs_slot && !self.holdings.dom().contains(id) && self.holdings.dom().len()
            == sources {
            Err(PresenceError::SourceLimit(sources))
        } else {
            Ok(())
        }
    }
}

impl<S: SourceKey, const SOURCES: usize, const WORDS: usize> View for FixedPresenceSet<
    S,
    SOURCES,
    WORDS,
> {
    type V = PresenceView<S::Id, ()>;

    closed spec fn view(&self) -> PresenceView<S::Id, ()> {
        PresenceView {
            max_held_per_source: self.max_held_per_source,
            holdings: self.table.holdings(),
        }
    }
}

/// What the sources hold once one of them holds `held`. A source that holds
/// nothing is forgotten.
pub open spec fn replaced<I>(holdings: Map<I, Holding<()>>, id: I, held: Set<int>) -> Map<
    I,
    Holding<()>,
> {
    if held == Set::<int>::empty() {
        holdings.remove(id)
    } else {
        holdings.insert(id, Holding { revision: (), held })
    }
}

impl<S: SourceKey, const SOURCES: usize, const WORDS: usize> FixedPresenceSet<S, SOURCES, WORDS> {
    #[verifier::type_invariant]
    spec fn sound(self) -> bool {
        &&& self.table.sound()
        &&& self.live@ == live_of(self.table.holdings())
    }

    pub fn new(max_held_per_source: usize) -> (result: Result<Self, PresenceError>)
        requires
            WORDS * 64 <= usize::MAX,
        ensures
            match result {
                Ok(presence) => max_held_per_source <= WORDS * 64 && presence@ == (PresenceView::<
                    S::Id,
                    (),
                > { max_held_per_source, holdings: Map::empty() }),
                Err(error) => max_held_per_source > WORDS * 64 && error == PresenceError::HeldLimit(
                    (WORDS * 64) as usize,
                ),
            },
    {
        let capacity: usize = FixedBitSet::<WORDS>::capacity();
        if max_held_per_source > capacity {
            return Err(PresenceError::HeldLimit(capacity));
        }
        let table: SlotTable<S, (), SOURCES, WORDS> = SlotTable::new();
        let live: FixedBitSet<WORDS> = FixedBitSet::default();
        assert(live@ =~= live_of(table.holdings()));
        Ok(FixedPresenceSet { max_held_per_source, table, live })
    }

    pub fn source_count(&self) -> (count: usize)
        ensures
            count == self@.holdings.dom().len(),
            self@.holdings.dom().finite(),
    {
        proof {
            use_type_invariant(self);
        }
        self.table.len()
    }

    /// Everything that some source holds.
    pub fn live(&self) -> (live: &FixedBitSet<WORDS>)
        ensures
            live@ == self@.live(),
    {
        proof {
            use_type_invariant(self);
        }
        &self.live
    }

    /// What one source holds.
    pub fn source(&self, source: &S) -> (held: Option<&FixedBitSet<WORDS>>)
        ensures
            match held {
                Some(held) => self@.holdings.dom().contains(source.id()) && held@
                    == self@.holdings[source.id()].held,
                None => !self@.holdings.dom().contains(source.id()),
            },
    {
        proof {
            use_type_invariant(self);
        }
        match self.table.find(source) {
            Some(at) => match &self.table.slots[at] {
                Some(slot) => Some(&slot.held),
                None => None,
            },
            None => None,
        }
    }

    /// Replaces what one source holds. The returned change is the one in the
    /// union over all sources. A refusal changes nothing.
    pub fn replace(&mut self, source: S, held: FixedBitSet<WORDS>) -> (result: Result<
        FixedPresenceDiff<WORDS>,
        PresenceError,
    >)
        requires
            WORDS * 64 <= usize::MAX,
        ensures
            final(self)@.max_held_per_source == old(self)@.max_held_per_source,
            ({
                let verdict = old(self)@.verdict(
                    source.id(),
                    held@,
                    SOURCES,
                    held@ != Set::<int>::empty(),
                );
                match result {
                    Ok(diff) => {
                        &&& verdict is Ok
                        &&& final(self)@.holdings == replaced(
                            old(self)@.holdings,
                            source.id(),
                            held@,
                        )
                        &&& diff.leads(old(self)@.live(), final(self)@.live())
                    },
                    Err(error) => verdict == Err::<(), PresenceError>(error) && final(self)@
                        == old(self)@,
                }
            }),
    {
        proof {
            use_type_invariant(&*self);
        }
        if held.len() > self.max_held_per_source {
            return Err(PresenceError::HeldLimit(self.max_held_per_source));
        }
        let before: FixedBitSet<WORDS> = self.live;
        let existing: Option<usize> = self.table.find(&source);
        let free: Option<usize> = self.table.find_free();
        let empty: bool = held.is_empty();
        if empty && existing.is_none() {
            proof {
                assert(self@.holdings.remove(source.id()) =~= self@.holdings);
            }
            return Ok(FixedPresenceDiff::between(&before, &before));
        }
        if existing.is_none() && free.is_none() {
            return Err(PresenceError::SourceLimit(SOURCES));
        }
        let mut table: SlotTable<S, (), SOURCES, WORDS> = self.take_table();
        match (existing, free) {
            (Some(at), _) => {
                if empty {
                    table.clear_slot(at);
                } else {
                    table.put(at, source, (), held);
                }
            },
            (None, Some(at)) => {
                table.put(at, source, (), held);
            },
            (None, None) => {},
        }
        let live: FixedBitSet<WORDS> = table.live();
        *self = FixedPresenceSet { max_held_per_source: self.max_held_per_source, table, live };
        Ok(FixedPresenceDiff::between(&before, &live))
    }

    /// Takes the table and leaves an empty one in its place.
    fn take_table(&mut self) -> (table: SlotTable<S, (), SOURCES, WORDS>)
        ensures
            table == old(self).table,
            final(self)@.max_held_per_source == old(self)@.max_held_per_source,
            final(self).max_held_per_source == old(self).max_held_per_source,
    {
        let empty: SlotTable<S, (), SOURCES, WORDS> = SlotTable::new();
        let live: FixedBitSet<WORDS> = FixedBitSet::default();
        assert(live@ =~= live_of(empty.holdings()));
        let mut whole = FixedPresenceSet {
            max_held_per_source: self.max_held_per_source,
            table: empty,
            live,
        };
        std::mem::swap(self, &mut whole);
        whole.table
    }

    /// Releases whatever one source holds.
    pub fn release(&mut self, source: &S) -> (result: Result<
        FixedPresenceDiff<WORDS>,
        PresenceError,
    >)
        ensures
            result is Ok,
            final(self)@ == (PresenceView {
                holdings: old(self)@.holdings.remove(source.id()),
                ..old(self)@
            }),
            result->Ok_0.leads(old(self)@.live(), final(self)@.live()),
    {
        proof {
            use_type_invariant(&*self);
        }
        let before: FixedBitSet<WORDS> = self.live;
        let at: usize = match self.table.find(source) {
            Some(at) => at,
            None => {
                assert(self@.holdings.remove(source.id()) =~= self@.holdings);
                return Ok(FixedPresenceDiff::between(&before, &before));
            },
        };
        let mut table: SlotTable<S, (), SOURCES, WORDS> = self.take_table();
        table.clear_slot(at);
        let live: FixedBitSet<WORDS> = table.live();
        *self = FixedPresenceSet { max_held_per_source: self.max_held_per_source, table, live };
        Ok(FixedPresenceDiff::between(&before, &live))
    }

    /// Releases everything.
    pub fn clear(&mut self) -> (diff: FixedPresenceDiff<WORDS>)
        ensures
            final(self)@ == (PresenceView { holdings: Map::empty(), ..old(self)@ }),
            diff.leads(old(self)@.live(), final(self)@.live()),
            final(self)@.live() == Set::<int>::empty(),
    {
        proof {
            use_type_invariant(&*self);
        }
        let before: FixedBitSet<WORDS> = self.live;
        let table: SlotTable<S, (), SOURCES, WORDS> = SlotTable::new();
        let live: FixedBitSet<WORDS> = FixedBitSet::default();
        assert(live@ =~= live_of(table.holdings()));
        *self = FixedPresenceSet { max_held_per_source: self.max_held_per_source, table, live };
        FixedPresenceDiff::between(&before, &live)
    }
}

/// What came of a snapshot.
#[derive(Clone, Copy, Debug, PartialEq, Eq)]
pub enum FixedPresenceApply<const WORDS: usize> {
    Stale,
    Applied(FixedPresenceDiff<WORDS>),
}

/// Fixed-capacity monotonic exact-state registers for authenticated peers.
///
/// Expiry clears a peer's held bits but retains its revision fence. A new
/// authenticated session must call [`Self::reset_source`] before restarting a
/// peer's revision at zero.
#[derive(Debug)]
pub struct FixedPresenceRegisters<S: SourceKey, const SOURCES: usize, const WORDS: usize> {
    max_held_per_source: usize,
    table: SlotTable<S, u64, SOURCES, WORDS>,
    live: FixedBitSet<WORDS>,
}

impl<S: SourceKey, const SOURCES: usize, const WORDS: usize> View for FixedPresenceRegisters<
    S,
    SOURCES,
    WORDS,
> {
    type V = PresenceView<S::Id, u64>;

    closed spec fn view(&self) -> PresenceView<S::Id, u64> {
        PresenceView {
            max_held_per_source: self.max_held_per_source,
            holdings: self.table.holdings(),
        }
    }
}

/// Whether a snapshot is not newer than what is known of its source.
pub open spec fn stale<I>(holdings: Map<I, Holding<u64>>, id: I, revision: u64) -> bool {
    holdings.dom().contains(id) && revision <= holdings[id].revision
}

/// What is known after a source has expired: it holds nothing, and its revision
/// stays.
pub open spec fn expired<I>(holdings: Map<I, Holding<u64>>, id: I) -> Map<I, Holding<u64>> {
    if holdings.dom().contains(id) {
        holdings.insert(id, Holding { revision: holdings[id].revision, held: Set::empty() })
    } else {
        holdings
    }
}

/// What a source holds and no other does.
pub open spec fn held_alone<I, R>(holdings: Map<I, Holding<R>>, id: I) -> Set<int> {
    Set::new(
        |index: int|
            holdings.dom().contains(id) && holdings[id].held.contains(index) && forall|other: I|
                #[trigger] holdings.dom().contains(other) && other != id
                    ==> !holdings[other].held.contains(index),
    )
}

impl<S: SourceKey, const SOURCES: usize, const WORDS: usize> FixedPresenceRegisters<
    S,
    SOURCES,
    WORDS,
> {
    #[verifier::type_invariant]
    spec fn sound(self) -> bool {
        &&& self.table.sound()
        &&& self.live@ == live_of(self.table.holdings())
    }

    pub fn new(max_held_per_source: usize) -> (result: Result<Self, PresenceError>)
        requires
            WORDS * 64 <= usize::MAX,
        ensures
            match result {
                Ok(registers) => max_held_per_source <= WORDS * 64 && registers@ == (PresenceView::<
                    S::Id,
                    u64,
                > { max_held_per_source, holdings: Map::empty() }),
                Err(error) => max_held_per_source > WORDS * 64 && error == PresenceError::HeldLimit(
                    (WORDS * 64) as usize,
                ),
            },
    {
        let capacity: usize = FixedBitSet::<WORDS>::capacity();
        if max_held_per_source > capacity {
            return Err(PresenceError::HeldLimit(capacity));
        }
        let table: SlotTable<S, u64, SOURCES, WORDS> = SlotTable::new();
        let live: FixedBitSet<WORDS> = FixedBitSet::default();
        assert(live@ =~= live_of(table.holdings()));
        Ok(FixedPresenceRegisters { max_held_per_source, table, live })
    }

    /// Everything that some source holds.
    pub fn live(&self) -> (live: &FixedBitSet<WORDS>)
        ensures
            live@ == self@.live(),
    {
        proof {
            use_type_invariant(self);
        }
        &self.live
    }

    fn take_table(&mut self) -> (table: SlotTable<S, u64, SOURCES, WORDS>)
        ensures
            table == old(self).table,
            final(self)@.max_held_per_source == old(self)@.max_held_per_source,
            final(self).max_held_per_source == old(self).max_held_per_source,
    {
        let empty: SlotTable<S, u64, SOURCES, WORDS> = SlotTable::new();
        let live: FixedBitSet<WORDS> = FixedBitSet::default();
        assert(live@ =~= live_of(empty.holdings()));
        let mut whole = FixedPresenceRegisters {
            max_held_per_source: self.max_held_per_source,
            table: empty,
            live,
        };
        std::mem::swap(self, &mut whole);
        whole.table
    }

    /// Applies a snapshot of one source, unless it is stale or exceeds a limit,
    /// in which case nothing changes.
    pub fn apply(&mut self, source: S, revision: u64, held: FixedBitSet<WORDS>) -> (result: Result<
        FixedPresenceApply<WORDS>,
        PresenceError,
    >)
        requires
            WORDS * 64 <= usize::MAX,
        ensures
            final(self)@.max_held_per_source == old(self)@.max_held_per_source,
            ({
                let verdict = old(self)@.verdict(source.id(), held@, SOURCES, true);
                match result {
                    Ok(FixedPresenceApply::Stale) => {
                        &&& verdict is Ok
                        &&& stale(old(self)@.holdings, source.id(), revision)
                        &&& final(self)@ == old(self)@
                    },
                    Ok(FixedPresenceApply::Applied(diff)) => {
                        &&& verdict is Ok
                        &&& !stale(old(self)@.holdings, source.id(), revision)
                        &&& final(self)@.holdings == old(self)@.holdings.insert(
                            source.id(),
                            Holding { revision, held: held@ },
                        )
                        &&& diff.leads(old(self)@.live(), final(self)@.live())
                    },
                    Err(error) => verdict == Err::<(), PresenceError>(error) && final(self)@
                        == old(self)@,
                }
            }),
    {
        proof {
            use_type_invariant(&*self);
        }
        if held.len() > self.max_held_per_source {
            return Err(PresenceError::HeldLimit(self.max_held_per_source));
        }
        let before: FixedBitSet<WORDS> = self.live;
        let at: usize = match self.table.find(&source) {
            Some(at) => {
                let known: u64 = match &self.table.slots[at] {
                    Some(slot) => slot.revision,
                    None => 0,
                };
                if revision <= known {
                    return Ok(FixedPresenceApply::Stale);
                }
                at
            },
            None => match self.table.find_free() {
                Some(at) => at,
                None => {
                    return Err(PresenceError::SourceLimit(SOURCES));
                },
            },
        };
        let mut table: SlotTable<S, u64, SOURCES, WORDS> = self.take_table();
        table.put(at, source, revision, held);
        let live: FixedBitSet<WORDS> = table.live();
        *self =
        FixedPresenceRegisters { max_held_per_source: self.max_held_per_source, table, live };
        Ok(FixedPresenceApply::Applied(FixedPresenceDiff::between(&before, &live)))
    }

    /// Releases what a source holds and keeps its revision.
    pub fn expire(&mut self, source: &S) -> (diff: FixedPresenceDiff<WORDS>)
        ensures
            final(self)@ == (PresenceView {
                holdings: expired(old(self)@.holdings, source.id()),
                ..old(self)@
            }),
            diff.leads(old(self)@.live(), final(self)@.live()),
    {
        proof {
            use_type_invariant(&*self);
        }
        let before: FixedBitSet<WORDS> = self.live;
        let at: usize = match self.table.find(source) {
            Some(at) => at,
            None => {
                return FixedPresenceDiff::between(&before, &before);
            },
        };
        let mut table: SlotTable<S, u64, SOURCES, WORDS> = self.take_table();
        table.set_held(at, FixedBitSet::default());
        let live: FixedBitSet<WORDS> = table.live();
        *self =
        FixedPresenceRegisters { max_held_per_source: self.max_held_per_source, table, live };
        FixedPresenceDiff::between(&before, &live)
    }

    /// Forgets a source, with its revision.
    pub fn reset_source(&mut self, source: &S) -> (diff: FixedPresenceDiff<WORDS>)
        ensures
            final(self)@ == (PresenceView {
                holdings: old(self)@.holdings.remove(source.id()),
                ..old(self)@
            }),
            diff.leads(old(self)@.live(), final(self)@.live()),
    {
        proof {
            use_type_invariant(&*self);
        }
        let before: FixedBitSet<WORDS> = self.live;
        let at: usize = match self.table.find(source) {
            Some(at) => at,
            None => {
                assert(self@.holdings.remove(source.id()) =~= self@.holdings);
                return FixedPresenceDiff::between(&before, &before);
            },
        };
        let mut table: SlotTable<S, u64, SOURCES, WORDS> = self.take_table();
        table.clear_slot(at);
        let live: FixedBitSet<WORDS> = table.live();
        *self =
        FixedPresenceRegisters { max_held_per_source: self.max_held_per_source, table, live };
        FixedPresenceDiff::between(&before, &live)
    }
}

/// A degree that another source still holds survives the release of one.
pub proof fn law_shared_index_survives_release<I, R>(
    holdings: Map<I, Holding<R>>,
    released: I,
    other: I,
    index: int,
)
    requires
        holdings.dom().contains(other),
        other != released,
        holdings[other].held.contains(index),
    ensures
        live_of(holdings.remove(released)).contains(index),
{
    assert(holdings.remove(released).dom().contains(other));
}

/// A degree is silenced when its last holder lets go of it.
pub proof fn law_last_release_silences<I, R>(holdings: Map<I, Holding<R>>, released: I, index: int)
    requires
        forall|id: I| #[trigger]
            holdings.dom().contains(id) && id != released ==> !holdings[id].held.contains(index),
    ensures
        !live_of(holdings.remove(released)).contains(index),
{
}

/// Expiry silences what the source held alone and starts nothing. The revision
/// fence stands: a snapshot that is no newer than the last one applied, and within
/// the limit, is stale, so that a delayed old snapshot cannot bring a note back.
/// Once the source was forgotten, its next snapshot is never stale.
pub proof fn law_expiry_keeps_the_fence<I>(
    registers: PresenceView<I, u64>,
    id: I,
    revision: u64,
    held: Set<int>,
    sources: usize,
)
    ensures
        ({
            let after = PresenceView {
                holdings: expired(registers.holdings, id),
                ..registers
            };
            let silenced = held_alone(registers.holdings, id);
            &&& after.live().difference(registers.live()) == Set::<int>::empty()
            &&& registers.live().difference(after.live()) == silenced
            &&& after.live() == registers.live().difference(silenced)
            &&& registers.holdings.dom().contains(id) && revision
                <= registers.holdings[id].revision && held.len() <= registers.max_held_per_source
                ==> after.verdict(id, held, sources, true) is Ok && stale(
                after.holdings,
                id,
                revision,
            )
            &&& !stale(registers.holdings.remove(id), id, revision)
            &&& !stale(after.holdings.remove(id), id, revision)
        }),
{
    let after = PresenceView { holdings: expired(registers.holdings, id), ..registers };
    let (x, y) = (registers.holdings, after.holdings);
    let silenced = held_alone(x, id);
    assert forall|index: int|
        registers.live().contains(index) == (after.live().contains(index) || silenced.contains(
            index,
        )) && !(after.live().contains(index) && silenced.contains(index)) by {
        if after.live().contains(index) {
            let other = choose|other: I| #[trigger]
                y.dom().contains(other) && y[other].held.contains(index);
            assert(x.dom().contains(other));
        }
        if registers.live().contains(index) && !silenced.contains(index) {
            if x.dom().contains(id) && x[id].held.contains(index) {
                let other = choose|other: I| #[trigger]
                    x.dom().contains(other) && other != id && x[other].held.contains(index);
                assert(y.dom().contains(other) && y[other].held.contains(index));
            } else {
                let other = choose|other: I| #[trigger]
                    x.dom().contains(other) && x[other].held.contains(index);
                assert(y.dom().contains(other) && y[other].held.contains(index));
            }
        }
        if silenced.contains(index) {
            assert(x.dom().contains(id) && x[id].held.contains(index));
        }
    }
    assert(after.live().difference(registers.live()) =~= Set::<int>::empty());
    assert(registers.live().difference(after.live()) =~= silenced);
    assert(after.live() =~= registers.live().difference(silenced));
}

/// The list of a set below a bound holds exactly its members below the bound, each
/// once, from the lowest to the highest.
pub proof fn law_indices_are_listed_upwards(indices: Set<int>, bound: nat)
    ensures
        forall|index: int| #[trigger]
            ascending_below(indices, bound).contains(index) <==> indices.contains(index) && 0
                <= index < bound,
        forall|i: int, j: int|
            0 <= i < j < ascending_below(indices, bound).len() ==> (#[trigger] ascending_below(
                indices,
                bound,
            )[i]) < (#[trigger] ascending_below(indices, bound)[j]),
    decreases bound,
{
    let all = ascending_below(indices, bound);
    if bound > 0 {
        law_indices_are_listed_upwards(indices, (bound - 1) as nat);
        let rest = ascending_below(indices, (bound - 1) as nat);
        assert forall|index: int| #[trigger] all.contains(index) <==> indices.contains(index) && 0
            <= index < bound by {
            if rest.contains(index) {
                assert(all[rest.index_of(index)] == index);
            }
            if all.contains(index) {
                let k = all.index_of(index);
                if k < rest.len() {
                    assert(rest[k] == index);
                    assert(rest.contains(index));
                }
            }
            if index == bound - 1 && indices.contains(index) {
                assert(all[rest.len() as int] == index);
            }
        }
        assert forall|i: int, j: int| 0 <= i < j < all.len() implies (#[trigger] all[i]) < (
        #[trigger] all[j]) by {
            assert(all[i] == rest[i]);
            assert(rest.contains(rest[i]));
            if j < rest.len() {
                assert(all[j] == rest[j]);
            }
        }
    }
}

/// A set of words carries each index in the word of its sixty-four, from the lowest
/// bit up.
pub proof fn law_words_carry_the_indices(words: Seq<u64>, word: int, place: int)
    requires
        0 <= word < words.len(),
        0 <= place < 64,
    ensures
        index_bit(words, 64 * word + place) <==> (words[word] >> (place as u64)) & 1 == 1,
{
    vstd::arithmetic::div_mod::lemma_fundamental_div_mod_converse(
        64 * word + place,
        64,
        word,
        place,
    );
}

/// What sounds is what some source holds.
pub proof fn law_live_is_what_a_source_holds<I, R>(presence: PresenceView<I, R>, index: int)
    ensures
        presence.live().contains(index) <==> exists|id: I| #[trigger]
            presence.holdings.dom().contains(id) && presence.holdings[id].held.contains(index),
{
}

/// A change retracts what sounded and no longer does, and adds what did not sound and
/// now does.
pub proof fn law_changes_name_what_changed<const WORDS: usize>(
    diff: FixedPresenceDiff<WORDS>,
    before: Set<int>,
    after: Set<int>,
    index: int,
)
    requires
        diff.leads(before, after),
    ensures
        diff.retracted@.contains(index) <==> before.contains(index) && !after.contains(index),
        diff.added@.contains(index) <==> after.contains(index) && !before.contains(index),
{
}

/// A snapshot is refused where it holds more than a source may, and else where it
/// needs a place and all are taken by others. The refusal names the limit.
pub proof fn law_presence_limits_are_kept<I, R>(
    presence: PresenceView<I, R>,
    id: I,
    held: Set<int>,
    sources: usize,
    needs_slot: bool,
)
    ensures
        presence.verdict(id, held, sources, needs_slot) is Ok <==> held.len()
            <= presence.max_held_per_source && (!needs_slot || presence.holdings.dom().contains(id)
            || presence.holdings.dom().len() != sources),
        presence.verdict(id, held, sources, needs_slot) is Err ==> presence.verdict(
            id,
            held,
            sources,
            needs_slot,
        )->Err_0 == if held.len() > presence.max_held_per_source {
            PresenceError::HeldLimit(presence.max_held_per_source)
        } else {
            PresenceError::SourceLimit(sources)
        },
{
}

/// A snapshot takes the place of what its source held before and of nothing else. A
/// source that holds nothing is forgotten.
pub proof fn law_a_snapshot_replaces_its_source<I>(
    holdings: Map<I, Holding<()>>,
    id: I,
    held: Set<int>,
    other: I,
)
    ensures
        replaced(holdings, id, held).dom().contains(id) <==> exists|index: int|
            held.contains(index),
        replaced(holdings, id, held).dom().contains(id) ==> replaced(holdings, id, held)[id].held
            == held,
        other != id ==> {
            &&& replaced(holdings, id, held).dom().contains(other) == holdings.dom().contains(other)
            &&& holdings.dom().contains(other) ==> replaced(holdings, id, held)[other]
                == holdings[other]
        },
{
    if held != Set::<int>::empty() {
        if forall|index: int| !held.contains(index) {
            assert(held =~= Set::<int>::empty());
        }
    }
}

/// A snapshot is stale exactly where its source is known by a revision that is as
/// new. Expiry empties a known source, keeps its revision, and touches no other.
pub proof fn law_only_newer_revisions_apply<I>(
    holdings: Map<I, Holding<u64>>,
    id: I,
    revision: u64,
    other: I,
)
    ensures
        !holdings.dom().contains(id) ==> !stale(holdings, id, revision),
        holdings.dom().contains(id) ==> (stale(holdings, id, revision) <==> revision
            <= holdings[id].revision),
        expired(holdings, id).dom() == holdings.dom(),
        holdings.dom().contains(id) ==> expired(holdings, id)[id].revision == holdings[id].revision
            && expired(holdings, id)[id].held == Set::<int>::empty(),
        other != id && holdings.dom().contains(other) ==> expired(holdings, id)[other]
            == holdings[other],
{
    assert(expired(holdings, id).dom() =~= holdings.dom());
}

} // verus!

//! The queue of records that a repair still has to apply.

use crate::collections::SortedSet;
use crate::replica::ids::EntryHash;
use vstd::prelude::*;

verus! {

/// The records of a repair that were not admitted yet, each once.
#[derive(Debug)]
pub struct RepairQueue {
    remaining: Vec<EntryHash>,
}

impl View for RepairQueue {
    type V = Seq<EntryHash>;

    closed spec fn view(&self) -> Seq<EntryHash> {
        self.remaining@
    }
}

/// Each hash of a list where it first occurs.
pub open spec fn first_occurrences(hashes: Seq<EntryHash>) -> Seq<EntryHash>
    decreases hashes.len(),
{
    if hashes.len() == 0 {
        Seq::empty()
    } else {
        let rest = first_occurrences(hashes.drop_last());
        if hashes.drop_last().contains(hashes.last()) {
            rest
        } else {
            rest.push(hashes.last())
        }
    }
}

/// Those of a list that are not in a set.
pub open spec fn without(hashes: Seq<EntryHash>, gone: Set<EntryHash>) -> Seq<EntryHash>
    decreases hashes.len(),
{
    if hashes.len() == 0 {
        Seq::empty()
    } else {
        let rest = without(hashes.drop_last(), gone);
        if gone.contains(hashes.last()) {
            rest
        } else {
            rest.push(hashes.last())
        }
    }
}

/// The members of a list.
pub fn set_of(hashes: &[EntryHash]) -> (set: SortedSet<EntryHash>)
    ensures
        set@ == hashes@.to_set(),
{
    let mut set: SortedSet<EntryHash> = SortedSet::new();
    let mut i: usize = 0;
    assert(hashes@.subrange(0, 0).to_set() =~= Set::<EntryHash>::empty());
    while i < hashes.len()
        invariant
            i <= hashes@.len(),
            set@ == hashes@.subrange(0, i as int).to_set(),
        decreases hashes@.len() - i,
    {
        proof {
            crate::collections::lemma_prefix_set(hashes@, i as int);
        }
        set.insert(hashes[i]);
        i = i + 1;
    }
    assert(hashes@.subrange(0, i as int) =~= hashes@);
    set
}

impl RepairQueue {
    /// Queues records, each where it first occurs.
    pub fn new(records: &[EntryHash]) -> (queue: Self)
        ensures
            queue@ == first_occurrences(records@),
    {
        let mut seen: SortedSet<EntryHash> = SortedSet::new();
        let mut remaining: Vec<EntryHash> = Vec::new();
        let mut i: usize = 0;
        assert(records@.subrange(0, 0).to_set() =~= Set::<EntryHash>::empty());
        while i < records.len()
            invariant
                i <= records@.len(),
                seen@ == records@.subrange(0, i as int).to_set(),
                remaining@ == first_occurrences(records@.subrange(0, i as int)),
            decreases records@.len() - i,
        {
            proof {
                crate::collections::lemma_prefix_set(records@, i as int);
                assert(records@.subrange(0, i + 1).drop_last() =~= records@.subrange(
                    0,
                    i as int,
                ));
            }
            if seen.insert(records[i]) {
                remaining.push(records[i]);
            }
            i = i + 1;
        }
        assert(records@.subrange(0, i as int) =~= records@);
        RepairQueue { remaining }
    }

    pub fn remaining(&self) -> (remaining: &[EntryHash])
        ensures
            remaining@ == self@,
    {
        self.remaining.as_slice()
    }

    /// Takes away the records that a pass admitted, and says whether another pass
    /// is due: something was admitted, and something remains.
    pub fn absorb(&mut self, admitted: &[EntryHash]) -> (again: bool)
        ensures
            final(self)@ == without(old(self)@, admitted@.to_set()),
            again == (0 < final(self)@.len() < old(self)@.len()),
    {
        let gone: SortedSet<EntryHash> = set_of(admitted);
        let mut kept: Vec<EntryHash> = Vec::new();
        let mut i: usize = 0;
        assert(self.remaining@.subrange(0, 0).len() == 0);
        while i < self.remaining.len()
            invariant
                i <= self.remaining@.len(),
                self@ == old(self)@,
                self@ == self.remaining@,
                gone@ == admitted@.to_set(),
                kept@ == without(self.remaining@.subrange(0, i as int), gone@),
                kept@.len() <= i,
            decreases self.remaining@.len() - i,
        {
            proof {
                assert(self.remaining@.subrange(0, i + 1).drop_last()
                    =~= self.remaining@.subrange(0, i as int));
            }
            if !gone.contains(&self.remaining[i]) {
                kept.push(self.remaining[i]);
            }
            i = i + 1;
        }
        assert(self.remaining@.subrange(0, i as int) =~= self.remaining@);
        let again: bool = kept.len() > 0 && kept.len() < self.remaining.len();
        self.remaining = kept;
        again
    }
}

/// Whether a hash is among those that remain.
pub proof fn law_only_the_admitted_leave(
    hashes: Seq<EntryHash>,
    gone: Set<EntryHash>,
    hash: EntryHash,
)
    ensures
        without(hashes, gone).contains(hash) == (hashes.contains(hash) && !gone.contains(hash)),
    decreases hashes.len(),
{
    if hashes.len() > 0 {
        let (front, last) = (hashes.drop_last(), hashes.last());
        let rest = without(front, gone);
        law_only_the_admitted_leave(front, gone, hash);
        assert(hashes.contains(hash) == (front.contains(hash) || hash == last)) by {
            if front.contains(hash) {
                assert(hashes[front.index_of(hash)] == hash);
            }
            assert(hashes[hashes.len() - 1] == last);
            if hashes.contains(hash) && hash != last {
                assert(front[hashes.index_of(hash)] == hash);
            }
        }
        let all = rest.push(last);
        assert(all.contains(hash) == (rest.contains(hash) || hash == last)) by {
            if rest.contains(hash) {
                assert(all[rest.index_of(hash)] == hash);
            }
            assert(all[rest.len() as int] == last);
            if all.contains(hash) && hash != last {
                assert(rest[all.index_of(hash)] == hash);
            }
        }
    }
}

/// Every record is queued, and none twice.
pub proof fn law_records_are_queued_once(records: Seq<EntryHash>, hash: EntryHash)
    ensures
        first_occurrences(records).contains(hash) == records.contains(hash),
        first_occurrences(records).no_duplicates(),
    decreases records.len(),
{
    if records.len() > 0 {
        let (front, last) = (records.drop_last(), records.last());
        let rest = first_occurrences(front);
        law_records_are_queued_once(front, hash);
        law_records_are_queued_once(front, last);
        assert(records.contains(hash) == (front.contains(hash) || hash == last)) by {
            if front.contains(hash) {
                assert(records[front.index_of(hash)] == hash);
            }
            assert(records[records.len() - 1] == last);
            if records.contains(hash) && hash != last {
                assert(front[records.index_of(hash)] == hash);
            }
        }
        let all = rest.push(last);
        assert(all.contains(hash) == (rest.contains(hash) || hash == last)) by {
            if rest.contains(hash) {
                assert(all[rest.index_of(hash)] == hash);
            }
            assert(all[rest.len() as int] == last);
            if all.contains(hash) && hash != last {
                assert(rest[all.index_of(hash)] == hash);
            }
        }
        if !front.contains(last) {
            assert forall|m: int, n: int|
                0 <= m < all.len() && 0 <= n < all.len() && m != n implies all[m] != all[n] by {
                if m < rest.len() && n == rest.len() {
                    assert(rest.contains(rest[m]));
                }
                if n < rest.len() && m == rest.len() {
                    assert(rest.contains(rest[n]));
                }
            }
        }
    }
}

/// What is left of a queue is the queue without those that were admitted, in its
/// order.
pub proof fn law_queues_keep_their_order(hashes: Seq<EntryHash>, gone: Set<EntryHash>)
    ensures
        without(hashes, gone) == hashes.filter(|hash: EntryHash| !gone.contains(hash)),
    decreases hashes.len(),
{
    reveal(Seq::filter);
    if hashes.len() > 0 {
        law_queues_keep_their_order(hashes.drop_last(), gone);
    }
}

/// Records are queued in the order in which each first came.
pub proof fn law_records_are_queued_as_they_came(records: Seq<EntryHash>, last: EntryHash)
    ensures
        first_occurrences(Seq::<EntryHash>::empty()) == Seq::<EntryHash>::empty(),
        records.contains(last) ==> first_occurrences(records.push(last)) == first_occurrences(
            records,
        ),
        !records.contains(last) ==> first_occurrences(records.push(last)) == first_occurrences(
            records,
        ).push(last),
{
    assert(records.push(last).drop_last() =~= records);
}

} // verus!

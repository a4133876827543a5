//! What each step of a windowed store does to it, field by field.

use crate::collections;
use crate::replica::ids::{Digest, EntryHash};
use crate::windowed::store;
use crate::windowed::store::{AuthorId, CourierContext, LogHead, OpId, OpRecord, StoreView};
use vstd::prelude::*;

verus! {

/// An operation can be lifted once the operation before it and every operation that
/// it observed have entries. Those entries, and no others, are its past.
pub proof fn law_operations_rest_on_their_past(
    source: Map<OpId, EntryHash>,
    op: OpRecord,
    entry: EntryHash,
)
    ensures
        store::resolved(source, op) <==> {
            &&& op.backlink is Some ==> source.dom().contains(op.backlink->0)
            &&& forall|id: OpId| #[trigger] op.observed.contains(id) ==> source.dom().contains(id)
        },
        store::prevs_of(source, op).contains(entry) <==> {
            ||| op.backlink is Some && source[op.backlink->0] == entry
            ||| exists|id: OpId| #[trigger] op.observed.contains(id) && source[id] == entry
        },
{
    if store::resolved(source, op) {
        assert forall|id: OpId| #[trigger] op.observed.contains(id) implies source.dom().contains(
            id,
        ) by {
            assert(op.observed[op.observed.index_of(id)] == id);
        }
    }
    if forall|id: OpId| #[trigger] op.observed.contains(id) ==> source.dom().contains(id) {
        assert forall|k: int| 0 <= k < op.observed.len() implies source.dom().contains(
            #[trigger] op.observed[k],
        ) by {
            assert(op.observed.contains(op.observed[k]));
        }
    }
    if exists|k: int| 0 <= k < op.observed.len() && source[#[trigger] op.observed[k]] == entry {
        let k = choose|k: int|
            0 <= k < op.observed.len() && source[#[trigger] op.observed[k]] == entry;
        assert(op.observed.contains(op.observed[k]));
    }
    if exists|id: OpId| #[trigger] op.observed.contains(id) && source[id] == entry {
        let id = choose|id: OpId| #[trigger] op.observed.contains(id) && source[id] == entry;
        assert(source[op.observed[op.observed.index_of(id)]] == entry);
    }
}

/// An operation moves the head of its own author, and only forward; the head then
/// carries the backlink that the operation carries.
pub proof fn law_operations_advance_their_author(
    heads: Map<AuthorId, LogHead>,
    op: OpRecord,
    author: AuthorId,
)
    ensures
        author != op.author ==> {
            &&& store::advanced(heads, op).dom().contains(author) == heads.dom().contains(author)
            &&& heads.dom().contains(author) ==> store::advanced(heads, op)[author]
                == heads[author]
        },
        heads.dom().contains(op.author) ==> store::advanced(heads, op)[op.author]
            == if op.advanced_head.next_seq > heads[op.author].next_seq {
            op.advanced_head
        } else {
            heads[op.author]
        },
        !heads.dom().contains(op.author) && op.advanced_head.next_seq > 0 ==> store::advanced(
            heads,
            op,
        ).dom().contains(op.author) && store::advanced(heads, op)[op.author] == op.advanced_head,
        !heads.dom().contains(op.author) && op.advanced_head.next_seq == 0 ==> !store::advanced(
            heads,
            op,
        ).dom().contains(op.author),
{
}

/// An operation is known by its retained entry or while it waits. One whose entry was
/// discarded is not known, but it has been seen.
pub proof fn law_operations_are_known_while_held(s: StoreView, id: OpId)
    ensures
        s.waiting() == s.parked + s.pending,
        s.waits(id) <==> {
            ||| exists|i: int| 0 <= i < s.parked.len() && (#[trigger] s.parked[i]).id == id
            ||| exists|i: int| 0 <= i < s.pending.len() && (#[trigger] s.pending[i]).id == id
        },
        s.seen(id) <==> s.source.dom().contains(id) || s.waits(id),
        s.knows(id) <==> s.waits(id) || s.source.dom().contains(id) && s.retained.dom().contains(
            s.source[id],
        ),
        s.entry_of(id) is Some <==> s.source.dom().contains(id) && s.retained.dom().contains(
            s.source[id],
        ),
        s.entry_of(id) is Some ==> s.entry_of(id)->0 == s.source[id],
{
    let all = s.waiting();
    if s.waits(id) {
        let i = choose|i: int| 0 <= i < all.len() && (#[trigger] all[i]).id == id;
        if i < s.parked.len() {
            assert(s.parked[i].id == id);
        } else {
            assert(s.pending[i - s.parked.len()].id == id);
        }
    }
    if exists|i: int| 0 <= i < s.parked.len() && (#[trigger] s.parked[i]).id == id {
        let i = choose|i: int| 0 <= i < s.parked.len() && (#[trigger] s.parked[i]).id == id;
        assert(all[i].id == id);
    }
    if exists|i: int| 0 <= i < s.pending.len() && (#[trigger] s.pending[i]).id == id {
        let i = choose|i: int| 0 <= i < s.pending.len() && (#[trigger] s.pending[i]).id == id;
        assert(all[s.parked.len() + i].id == id);
    }
}

/// A fresh start puts everything that waits back in line, the parked first, with
/// nothing deferred, lifted or asked for yet. Nothing else changes.
pub proof fn law_a_start_lines_everything_up(s: StoreView)
    ensures
        ({
            let t = s.started();
            &&& t.parked == s.parked + s.pending
            &&& t.pending.len() == 0
            &&& !t.progressed
            &&& t.deferred == Set::<OpId>::empty()
            &&& t.lifted.len() == 0
            &&& t.courier.dom() == Set::<EntryHash>::empty()
            &&& t.source == s.source
            &&& t.retained == s.retained
            &&& t.heads == s.heads
            &&& t.compacting == s.compacting
            &&& t.cap == s.cap
            &&& t.truncated == s.truncated
            &&& t.total_discarded == s.total_discarded
            &&& t.compactions == s.compactions
            &&& t.journal == s.journal
        }),
{
}

/// A new operation joins the line behind all that wait, moves its author's head, and
/// changes nothing that is materialized.
pub proof fn law_a_new_operation_joins_the_line(s: StoreView, op: OpRecord)
    ensures
        ({
            let t = s.taken(op);
            &&& t.parked == (s.parked + s.pending).push(op)
            &&& t.pending.len() == 0
            &&& !t.progressed
            &&& t.deferred == Set::<OpId>::empty()
            &&& t.lifted.len() == 0
            &&& t.courier.dom() == Set::<EntryHash>::empty()
            &&& t.heads == store::advanced(s.heads, op)
            &&& t.source == s.source
            &&& t.retained == s.retained
            &&& t.compacting == s.compacting
            &&& t.cap == s.cap
            &&& t.truncated == s.truncated
            &&& t.total_discarded == s.total_discarded
            &&& t.compactions == s.compactions
            &&& t.journal == s.journal
        }),
{
    assert(s.taken(op).parked =~= (s.parked + s.pending).push(op));
}

/// A search stops at the first operation in line whose past is there. Those before it
/// are set aside in their order.
pub proof fn law_a_search_stops_at_the_first_ready(s: StoreView, at: int)
    requires
        0 <= at < s.parked.len(),
        store::resolved(s.source, s.parked[at]),
        forall|i: int| 0 <= i < at ==> !store::resolved(s.source, #[trigger] s.parked[i]),
    ensures
        s.sought() == (StoreView {
            parked: s.parked.subrange(at, s.parked.len() as int),
            pending: s.pending + s.parked.subrange(0, at),
            ..s
        }),
    decreases at,
{
    if at == 0 {
        assert(s.parked.subrange(0, s.parked.len() as int) =~= s.parked);
        assert(s.pending + s.parked.subrange(0, 0) =~= s.pending);
    } else {
        assert(!store::resolved(s.source, s.parked[0]));
        let next = StoreView {
            parked: s.parked.drop_first(),
            pending: s.pending.push(s.parked[0]),
            ..s
        };
        assert forall|i: int| 0 <= i < at - 1 implies !store::resolved(
            next.source,
            #[trigger] next.parked[i],
        ) by {
            assert(next.parked[i] == s.parked[i + 1]);
        }
        law_a_search_stops_at_the_first_ready(next, at - 1);
        assert(next.parked.subrange(at - 1, next.parked.len() as int) =~= s.parked.subrange(
            at,
            s.parked.len() as int,
        ));
        assert(next.pending + next.parked.subrange(0, at - 1) =~= s.pending + s.parked.subrange(
            0,
            at,
        ));
    }
}

/// Where no operation in line has its past, all are set aside. If something was
/// lifted meanwhile, they line up again in that order and the search begins anew with
/// nothing deferred; if nothing was, the search is over.
pub proof fn law_a_search_starts_over_after_progress(s: StoreView)
    requires
        forall|i: int| 0 <= i < s.parked.len() ==> !store::resolved(s.source, #[trigger] s.parked[i]),
    ensures
        !s.progressed ==> s.sought() == (StoreView {
            parked: Seq::empty(),
            pending: s.pending + s.parked,
            ..s
        }),
        s.progressed ==> s.sought() == (StoreView {
            parked: s.pending + s.parked,
            pending: Seq::empty(),
            progressed: false,
            deferred: Set::empty(),
            ..s
        }).sought(),
    decreases s.parked.len(),
{
    if s.parked.len() == 0 {
        assert(s.pending + s.parked =~= s.pending);
        assert(s.parked =~= Seq::<OpRecord>::empty());
    } else {
        assert(!store::resolved(s.source, s.parked[0]));
        let next = StoreView {
            parked: s.parked.drop_first(),
            pending: s.pending.push(s.parked[0]),
            ..s
        };
        assert forall|i: int| 0 <= i < next.parked.len() implies !store::resolved(
            next.source,
            #[trigger] next.parked[i],
        ) by {
            assert(next.parked[i] == s.parked[i + 1]);
        }
        law_a_search_starts_over_after_progress(next);
        assert(next.pending + next.parked =~= s.pending + s.parked);
    }
}

/// An eviction takes the named entries away, and with each the operation that it
/// stood for. Every other entry and every other operation stays as it was.
pub proof fn law_evictions_take_what_they_name(
    source: Map<OpId, EntryHash>,
    retained: Map<EntryHash, OpId>,
    evicted: Seq<EntryHash>,
    entry: EntryHash,
    id: OpId,
)
    ensures
        ({
            let (s, r) = store::evicted_from(source, retained, evicted);
            &&& r.dom().contains(entry) <==> retained.dom().contains(entry) && !evicted.contains(
                entry,
            )
            &&& r.dom().contains(entry) ==> r[entry] == retained[entry]
            &&& s.dom().contains(id) <==> source.dom().contains(id) && !(exists|gone: EntryHash| #[trigger]
                evicted.contains(gone) && retained.dom().contains(gone) && retained[gone] == id)
            &&& s.dom().contains(id) ==> s[id] == source[id]
        }),
    decreases evicted.len(),
{
    if evicted.len() > 0 {
        let (earlier, last) = (evicted.drop_last(), evicted.last());
        law_evictions_take_what_they_name(source, retained, earlier, entry, id);
        law_evictions_take_what_they_name(source, retained, earlier, last, id);
        assert forall|gone: EntryHash| #[trigger] evicted.contains(gone) == (earlier.contains(gone)
            || gone == last) by {
            if earlier.contains(gone) {
                assert(evicted[earlier.index_of(gone)] == gone);
            }
            assert(evicted[evicted.len() - 1] == last);
            if evicted.contains(gone) && gone != last {
                assert(earlier[evicted.index_of(gone)] == gone);
            }
        }
        if exists|gone: EntryHash| #[trigger]
            earlier.contains(gone) && retained.dom().contains(gone) && retained[gone] == id {
            let gone = choose|gone: EntryHash| #[trigger]
                earlier.contains(gone) && retained.dom().contains(gone) && retained[gone] == id;
            assert(evicted.contains(gone));
        }
        if exists|gone: EntryHash| #[trigger]
            evicted.contains(gone) && retained.dom().contains(gone) && retained[gone] == id {
            let gone = choose|gone: EntryHash| #[trigger]
                evicted.contains(gone) && retained.dom().contains(gone) && retained[gone] == id;
            assert(earlier.contains(gone) || gone == last);
        }
        assert(evicted.contains(last));
    } else {
        assert(!evicted.contains(entry));
    }
}

/// A lift takes the first operation out of the line, binds it and its entry to each
/// other, and lists the entry last among those lifted. Evictions, where the window
/// made any, truncate it. Nothing else changes.
pub proof fn law_a_lift_binds_the_operation(
    s: StoreView,
    entry: EntryHash,
    evicted: Seq<EntryHash>,
    other: OpId,
    elsewhere: EntryHash,
)
    requires
        s.parked.len() > 0,
    ensures
        ({
            let t = s.lifted_as(entry, evicted);
            let id = s.parked[0].id;
            &&& t.parked == s.parked.drop_first()
            &&& t.pending == s.pending
            &&& t.progressed
            &&& t.deferred == s.deferred
            &&& t.lifted == s.lifted.push(entry)
            &&& t.courier == s.courier
            &&& t.heads == s.heads
            &&& t.compacting == s.compacting
            &&& t.cap == s.cap
            &&& t.truncated <==> s.truncated || evicted.len() > 0
            &&& t.total_discarded == s.total_discarded
            &&& t.compactions == s.compactions
            &&& t.journal == s.journal
            &&& !evicted.contains(entry) ==> t.retained.dom().contains(entry) && t.retained[entry]
                == id
            &&& elsewhere != entry ==> (t.retained.dom().contains(elsewhere)
                <==> s.retained.dom().contains(elsewhere) && !evicted.contains(elsewhere))
            &&& elsewhere != entry && t.retained.dom().contains(elsewhere)
                ==> t.retained[elsewhere] == s.retained[elsewhere]
            &&& evicted.len() == 0 ==> {
                &&& t.source.dom().contains(id)
                &&& t.source[id] == entry
                &&& other != id ==> t.source.dom().contains(other) == s.source.dom().contains(other)
                &&& other != id && s.source.dom().contains(other) ==> t.source[other]
                    == s.source[other]
            }
        }),
{
    let id = s.parked[0].id;
    let (source, retained) = (s.source.insert(id, entry), s.retained.insert(entry, id));
    law_evictions_take_what_they_name(source, retained, evicted, entry, id);
    law_evictions_take_what_they_name(source, retained, evicted, elsewhere, other);
}

/// A deferral sets the first operation in line aside as one that was tried, and asks
/// the courier for what its entry misses. Nothing else changes.
pub proof fn law_a_deferral_asks_for_what_is_missing(
    s: StoreView,
    entry: EntryHash,
    missing: Set<EntryHash>,
    other: EntryHash,
    id: OpId,
)
    requires
        s.parked.len() > 0,
    ensures
        ({
            let t = s.deferred_as(entry, missing);
            &&& t.parked == s.parked.drop_first()
            &&& t.pending == s.pending.push(s.parked[0])
            &&& t.deferred.contains(id) <==> s.deferred.contains(id) || id == s.parked[0].id
            &&& t.courier.dom().contains(entry)
            &&& t.courier[entry] == missing
            &&& other != entry ==> t.courier.dom().contains(other) == s.courier.dom().contains(other)
            &&& other != entry && s.courier.dom().contains(other) ==> t.courier[other]
                == s.courier[other]
            &&& t.progressed == s.progressed
            &&& t.source == s.source
            &&& t.retained == s.retained
            &&& t.heads == s.heads
            &&& t.lifted == s.lifted
            &&& t.compacting == s.compacting
            &&& t.cap == s.cap
            &&& t.truncated == s.truncated
            &&& t.total_discarded == s.total_discarded
            &&& t.compactions == s.compactions
            &&& t.journal == s.journal
        }),
{
}

/// A compaction keeps the retained entries that are to be kept and discards the
/// others in ascending order, which the journal records if there are any. It counts
/// them and itself, and changes nothing else. Only a compacting store compacts.
pub proof fn law_a_compaction_keeps_the_residue(
    s: StoreView,
    keep: Set<EntryHash>,
    root: Digest,
    pinned_after: Digest,
    entry: EntryHash,
)
    ensures
        ({
            let t = s.compacted(keep, root, pinned_after);
            let gone = collections::ascending_of(s.retained.dom().difference(keep));
            &&& !s.compacting ==> t == s
            &&& s.compacting ==> {
                &&& t.retained.dom().contains(entry) <==> s.retained.dom().contains(entry)
                    && keep.contains(entry)
                &&& t.retained.dom().contains(entry) ==> t.retained[entry] == s.retained[entry]
                &&& t.total_discarded == s.total_discarded + gone.len()
                &&& t.compactions == s.compactions + 1
                &&& gone.len() == 0 ==> t.journal == s.journal
                &&& gone.len() > 0 ==> t.journal == s.journal.recorded(gone, root, pinned_after)
                &&& t.source == s.source
                &&& t.heads == s.heads
                &&& t.parked == s.parked
                &&& t.pending == s.pending
                &&& t.progressed == s.progressed
                &&& t.deferred == s.deferred
                &&& t.lifted == s.lifted
                &&& t.courier == s.courier
                &&& t.compacting == s.compacting
                &&& t.cap == s.cap
                &&& t.truncated == s.truncated
            }
        }),
        s.discards(keep) == collections::ascending_of(s.retained.dom().difference(keep)),
{
}

/// A store can answer unless its window was truncated without a compaction, and it is
/// complete while nothing has ever left it.
pub proof fn law_what_left_decides_completeness(s: StoreView)
    ensures
        s.answerable() <==> s.compacting || !s.truncated,
        s.compacting ==> (s.complete() <==> s.total_discarded == 0),
        !s.compacting ==> (s.complete() <==> !s.truncated),
{
}

/// The operation that a courier's case is for is the first of those set aside whose
/// past is there and whose entry would be the candidate.
pub proof fn law_the_first_fitting_operation_is_meant(
    s: StoreView,
    hashes: Seq<EntryHash>,
    candidate: EntryHash,
    from: int,
)
    requires
        0 <= from <= s.pending.len(),
    ensures
        from <= store::candidate_at(s, hashes, candidate, from) <= s.pending.len(),
        forall|i: int|
            from <= i < store::candidate_at(s, hashes, candidate, from) ==> !(store::resolved(
                s.source,
                #[trigger] s.pending[i],
            ) && hashes[i] == candidate),
        store::candidate_at(s, hashes, candidate, from) < s.pending.len() ==> {
            let at = store::candidate_at(s, hashes, candidate, from);
            store::resolved(s.source, s.pending[at]) && hashes[at] == candidate
        },
    decreases s.pending.len() - from,
{
    if from < s.pending.len() && !(store::resolved(s.source, s.pending[from]) && hashes[from]
        == candidate) {
        law_the_first_fitting_operation_is_meant(s, hashes, candidate, from + 1);
    }
}

/// A courier's context fits a compacting store with this root and exactly these
/// retained entries, in ascending order.
pub proof fn law_contexts_fit_one_residue(
    s: StoreView,
    root: Digest,
    context: CourierContext,
)
    ensures
        store::same_context(s, root, context) <==> s.compacting && context.discard_root == root
            && context.retained@ == collections::ascending_of(s.retained.dom()),
{
}

/// A courier's lift binds the operation and the candidate to each other, takes the
/// operation out of those set aside, and lines the others up again in their order.
/// Nothing else changes.
pub proof fn law_a_couriers_lift_binds_the_operation(
    s: StoreView,
    place: int,
    candidate: EntryHash,
    other: OpId,
    elsewhere: EntryHash,
)
    requires
        0 <= place < s.pending.len(),
    ensures
        ({
            let t = store::admitted(s, place, candidate);
            let id = s.pending[place].id;
            &&& t.source.dom().contains(id)
            &&& t.source[id] == candidate
            &&& other != id ==> t.source.dom().contains(other) == s.source.dom().contains(other)
            &&& other != id && s.source.dom().contains(other) ==> t.source[other] == s.source[other]
            &&& t.retained.dom().contains(candidate)
            &&& t.retained[candidate] == id
            &&& elsewhere != candidate ==> t.retained.dom().contains(elsewhere)
                == s.retained.dom().contains(elsewhere)
            &&& elsewhere != candidate && s.retained.dom().contains(elsewhere)
                ==> t.retained[elsewhere] == s.retained[elsewhere]
            &&& t.parked == s.pending.subrange(0, place) + s.pending.subrange(
                place + 1,
                s.pending.len() as int,
            )
            &&& t.pending.len() == 0
            &&& !t.progressed
            &&& t.deferred == Set::<OpId>::empty()
            &&& t.lifted == seq![candidate]
            &&& t.courier.dom() == Set::<EntryHash>::empty()
            &&& t.heads == s.heads
            &&& t.compacting == s.compacting
            &&& t.cap == s.cap
            &&& t.truncated == s.truncated
            &&& t.total_discarded == s.total_discarded
            &&& t.compactions == s.compactions
            &&& t.journal == s.journal
        }),
{
    assert(s.pending.remove(place) =~= s.pending.subrange(0, place) + s.pending.subrange(
        place + 1,
        s.pending.len() as int,
    ));
}

} // verus!

//! The bounded discard journal: the most recent discard batches, verbatim, so
//! that membership of a discarded entry can be proved against the chained root.

use crate::collections;
use crate::collections::Ordered;
use crate::order;
use crate::replica::ids::{Digest, EntryHash};
use vstd::prelude::*;

verus! {

/// Monotone sequence number of one discard batch: the `n`-th non-empty batch ever
/// folded into the pinned discard root, counted from zero.
#[derive(Clone, Copy, Debug, PartialEq, Eq, PartialOrd, Ord, Structural)]
pub struct DiscardBatchSeq(pub u64);

/// One retained discard batch.
#[derive(Debug)]
struct StoredDiscardBatch {
    seq: DiscardBatchSeq,
    /// In ascending order; semantically a set.
    entries: Vec<EntryHash>,
    /// The Merkle root of the batch.
    root: Digest,
    /// The pinned discard root once this batch was folded in.
    pinned_after: Digest,
}

/// What a retained batch says.
pub struct BatchView {
    pub seq: u64,
    pub entries: Seq<EntryHash>,
    pub root: Digest,
    pub pinned_after: Digest,
}

impl View for StoredDiscardBatch {
    type V = BatchView;

    closed spec fn view(&self) -> BatchView {
        BatchView {
            seq: self.seq.0,
            entries: self.entries@,
            root: self.root,
            pinned_after: self.pinned_after,
        }
    }
}

/// A borrowed view of one retained discard batch: what a fuller peer copies to
/// track this store's discard chain and answer its couriers.
#[derive(Clone, Copy, Debug)]
pub struct DiscardBatchRef<'a> {
    pub seq: DiscardBatchSeq,
    /// In ascending order; semantically a set.
    pub entries: &'a [EntryHash],
}

/// What a membership proof is made from: the batch that holds the member, the
/// pinned root before it, and the roots of the batches after it.
#[derive(Debug)]
pub struct DiscardPath {
    pub batch: Vec<EntryHash>,
    pub pinned_before: Digest,
    pub later: Vec<Digest>,
}

/// The bounded discard journal.
///
/// The cap is on entries. Eviction is by whole batch, oldest first: retaining
/// only part of a batch cannot reconstruct its Merkle path. The anchor follows
/// the batches that age out, so that what is retained stays provable against the
/// current root.
#[derive(Debug)]
pub struct DiscardHistory {
    pinned_before_front: Digest,
    /// Retained batches, oldest first.
    batches: Vec<StoredDiscardBatch>,
    /// Total entries across `batches`.
    stored_entries: usize,
    entry_cap: usize,
    next_seq: u64,
}

/// What a journal holds.
#[verifier::ext_equal]
pub struct JournalView {
    /// The pinned discard root immediately before the oldest retained batch was
    /// folded in.
    pub anchor: Digest,
    pub batches: Seq<BatchView>,
    pub cap: nat,
    pub next_seq: nat,
}

/// How many entries batches hold.
pub open spec fn total(batches: Seq<BatchView>) -> nat
    decreases batches.len(),
{
    if batches.len() == 0 {
        0
    } else {
        total(batches.drop_first()) + batches[0].entries.len()
    }
}

/// A journal after the oldest batches were dropped until the rest fits the cap.
pub open spec fn trimmed(journal: JournalView) -> JournalView
    decreases journal.batches.len(),
{
    if total(journal.batches) <= journal.cap || journal.batches.len() == 0 {
        journal
    } else {
        trimmed(
            JournalView {
                anchor: journal.batches[0].pinned_after,
                batches: journal.batches.drop_first(),
                ..journal
            },
        )
    }
}

impl JournalView {
    /// The journal after one batch more. A batch that is larger than the cap is
    /// itself unprovable, and it forces every older batch out too: a proof for an
    /// older batch must name this batch's root.
    pub open spec fn recorded(
        self,
        entries: Seq<EntryHash>,
        root: Digest,
        pinned_after: Digest,
    ) -> JournalView {
        let batch = BatchView { seq: self.next_seq as u64, entries, root, pinned_after };
        if entries.len() > self.cap {
            JournalView {
                anchor: pinned_after,
                batches: Seq::empty(),
                cap: self.cap,
                next_seq: self.next_seq + 1,
            }
        } else {
            trimmed(
                JournalView {
                    batches: self.batches.push(batch),
                    next_seq: self.next_seq + 1,
                    ..self
                },
            )
        }
    }

    /// The first retained batch from `from` on that holds an entry.
    pub open spec fn batch_with(self, member: EntryHash, from: int) -> int
        decreases self.batches.len() - from,
    {
        if from >= self.batches.len() || self.batches[from].entries.contains(member) {
            from
        } else {
            self.batch_with(member, from + 1)
        }
    }

    /// Whether a retained batch holds an entry.
    pub open spec fn holds(self, member: EntryHash) -> bool {
        exists|i: int|
            0 <= i < self.batches.len() && (#[trigger] self.batches[i]).entries.contains(member)
    }

    /// The pinned root before the batch at `i`.
    pub open spec fn pinned_before(self, i: int) -> Digest {
        if i == 0 {
            self.anchor
        } else {
            self.batches[i - 1].pinned_after
        }
    }

    /// The pinned root after every batch.
    pub open spec fn pinned(self) -> Digest {
        self.pinned_before(self.batches.len() as int)
    }

    pub open spec fn sound(self) -> bool {
        &&& total(self.batches) <= self.cap
        &&& forall|i: int|
            0 <= i < self.batches.len() ==> collections::strictly_ascending(
                (#[trigger] self.batches[i]).entries,
            )
        &&& forall|i: int|
            0 <= i < self.batches.len() ==> (#[trigger] self.batches[i]).seq + (
            self.batches.len() - i) == self.next_seq
    }
}

impl View for DiscardHistory {
    type V = JournalView;

    closed spec fn view(&self) -> JournalView {
        JournalView {
            anchor: self.pinned_before_front,
            batches: self.batches@.map_values(|batch: StoredDiscardBatch| batch@),
            cap: self.entry_cap as nat,
            next_seq: self.next_seq as nat,
        }
    }
}

proof fn lemma_total_push(batches: Seq<BatchView>, batch: BatchView)
    ensures
        total(batches.push(batch)) == total(batches) + batch.entries.len(),
    decreases batches.len(),
{
    let all = batches.push(batch);
    if batches.len() > 0 {
        assert(all.drop_first() =~= batches.drop_first().push(batch));
        lemma_total_push(batches.drop_first(), batch);
    } else {
        assert(all.drop_first() =~= batches);
        assert(all[0] == batch);
    }
}

/// What trimming leaves.
proof fn lemma_trimmed(journal: JournalView)
    ensures
        ({
            let left = trimmed(journal);
            &&& left.cap == journal.cap
            &&& left.next_seq == journal.next_seq
            &&& total(left.batches) <= left.cap || left.batches.len() == 0
            &&& left.pinned() == journal.pinned()
            &&& left.batches.len() <= journal.batches.len()
            &&& left.batches =~= journal.batches.subrange(
                journal.batches.len() - left.batches.len(),
                journal.batches.len() as int,
            )
        }),
    decreases journal.batches.len(),
{
    if total(journal.batches) > journal.cap && journal.batches.len() > 0 {
        let next = JournalView {
            anchor: journal.batches[0].pinned_after,
            batches: journal.batches.drop_first(),
            ..journal
        };
        lemma_trimmed(next);
        let left = trimmed(journal);
        assert(next.batches =~= journal.batches.subrange(1, journal.batches.len() as int));
        assert(next.pinned() == journal.pinned());
    }
}

/// The journal stays within its cap, and the chain of pinned roots stays whole:
/// after recording, the root after every retained batch is the one that was
/// recorded.
pub proof fn law_journal_is_bounded_and_anchored(
    journal: JournalView,
    entries: Seq<EntryHash>,
    root: Digest,
    pinned_after: Digest,
)
    requires
        journal.sound(),
        collections::strictly_ascending(entries),
        journal.next_seq < u64::MAX,
    ensures
        journal.recorded(entries, root, pinned_after).sound(),
        total(journal.recorded(entries, root, pinned_after).batches) <= journal.cap,
        journal.recorded(entries, root, pinned_after).pinned() == pinned_after,
        entries.len() <= journal.cap ==> forall|member: EntryHash| #[trigger]
            entries.contains(member) ==> journal.recorded(entries, root, pinned_after).holds(
                member,
            ),
{
    if entries.len() <= journal.cap {
        let batch = BatchView { seq: journal.next_seq as u64, entries, root, pinned_after };
        let grown = JournalView {
            batches: journal.batches.push(batch),
            next_seq: journal.next_seq + 1,
            ..journal
        };
        lemma_trimmed(grown);
        lemma_trimmed_keeps_last(grown);
        let left = trimmed(grown);
        let gone = grown.batches.len() - left.batches.len();
        assert forall|i: int| 0 <= i < left.batches.len() implies collections::strictly_ascending(
            (#[trigger] left.batches[i]).entries,
        ) && left.batches[i].seq + (left.batches.len() - i) == left.next_seq by {
            assert(left.batches[i] == grown.batches[gone + i]);
            if gone + i < journal.batches.len() {
                assert(grown.batches[gone + i] == journal.batches[gone + i]);
            }
        }
        let last = left.batches.len() - 1;
        assert(left.batches[last] == batch);
        assert forall|member: EntryHash| #[trigger] entries.contains(member) implies left.holds(
            member,
        ) by {
            assert(left.batches[last].entries.contains(member));
        }
    }
}

/// A batch that fits is never dropped for its own sake.
proof fn lemma_trimmed_keeps_last(journal: JournalView)
    requires
        journal.batches.len() > 0,
        journal.batches.last().entries.len() <= journal.cap,
    ensures
        trimmed(journal).batches.len() > 0,
        trimmed(journal).batches.last() == journal.batches.last(),
        total(trimmed(journal).batches) <= journal.cap,
    decreases journal.batches.len(),
{
    if total(journal.batches) > journal.cap {
        if journal.batches.len() == 1 {
            assert(journal.batches.drop_first() =~= Seq::empty());
            assert(total(journal.batches.drop_first()) == 0);
        } else {
            let next = JournalView {
                anchor: journal.batches[0].pinned_after,
                batches: journal.batches.drop_first(),
                ..journal
            };
            assert(next.batches.last() == journal.batches.last());
            lemma_trimmed_keeps_last(next);
        }
    }
}

proof fn lemma_batch_with(journal: JournalView, member: EntryHash, from: int)
    requires
        0 <= from <= journal.batches.len(),
    ensures
        from <= journal.batch_with(member, from) <= journal.batches.len(),
        journal.batch_with(member, from) < journal.batches.len() ==> journal.batches[journal.batch_with(
            member,
            from,
        )].entries.contains(member),
        forall|i: int|
            from <= i < journal.batch_with(member, from) ==> !(
            #[trigger] journal.batches[i]).entries.contains(member),
    decreases journal.batches.len() - from,
{
    if from < journal.batches.len() && !journal.batches[from].entries.contains(member) {
        lemma_batch_with(journal, member, from + 1);
    }
}

/// Whether an ascending list holds a hash.
fn contains_ascending(entries: &Vec<EntryHash>, member: &EntryHash) -> (r: bool)
    requires
        collections::strictly_ascending(entries@),
    ensures
        r == entries@.contains(*member),
{
    let mut low: usize = 0;
    let mut high: usize = entries.len();
    while low < high
        invariant
            low <= high <= entries@.len(),
            collections::strictly_ascending(entries@),
            forall|i: int| 0 <= i < low ==> entries@[i] != *member,
            forall|i: int| high <= i < entries@.len() ==> entries@[i] != *member,
        decreases high - low,
    {
        let middle: usize = low + (high - low) / 2;
        let ghost at = entries@[middle as int];
        if entries[middle].precedes(member) {
            proof {
                assert forall|i: int| low <= i <= middle implies entries@[i] != *member by {
                    if i < middle {
                        order::lemma_asymmetric(entries@[i].key(), at.key());
                    } else {
                        order::lemma_irreflexive(member.key());
                    }
                }
            }
            low = middle + 1;
        } else if member.precedes(&entries[middle]) {
            proof {
                assert forall|i: int| middle <= i < high implies entries@[i] != *member by {
                    if i > middle {
                        order::lemma_asymmetric(at.key(), entries@[i].key());
                    } else {
                        order::lemma_irreflexive(member.key());
                    }
                }
            }
            high = middle;
        } else {
            proof {
                order::lemma_total(at.key(), member.key());
                EntryHash::lemma_key_injective(at, *member);
            }
            assert(entries@[middle as int] == *member);
            return true;
        }
    }
    false
}

fn copy_entries(entries: &Vec<EntryHash>) -> (copy: Vec<EntryHash>)
    ensures
        copy@ == entries@,
{
    let mut copy: Vec<EntryHash> = Vec::new();
    let mut i: usize = 0;
    while i < entries.len()
        invariant
            i <= entries@.len(),
            copy@ == entries@.subrange(0, i as int),
        decreases entries@.len() - i,
    {
        copy.push(entries[i]);
        i = i + 1;
        assert(copy@ =~= entries@.subrange(0, i as int));
    }
    assert(copy@ =~= entries@);
    copy
}

impl DiscardHistory {
    pub closed spec fn wf(&self) -> bool {
        &&& self@.sound()
        &&& self.stored_entries == total(self@.batches)
    }

    /// A well-formed journal is sound.
    pub proof fn lemma_wf(&self)
        requires
            self.wf(),
        ensures
            self@.sound(),
    {
    }

    pub fn new(entry_cap: usize) -> (journal: Self)
        ensures
            journal.wf(),
            journal@.anchor@ == Seq::new(32, |i: int| 0u8),
            journal@.batches == Seq::<BatchView>::empty(),
            journal@.cap == entry_cap,
            journal@.next_seq == 0,
    {
        let journal = DiscardHistory {
            pinned_before_front: Digest::from_bytes([0u8;32]),
            batches: Vec::new(),
            stored_entries: 0,
            entry_cap,
            next_seq: 0,
        };
        assert(journal@.batches =~= Seq::<BatchView>::empty());
        assert(journal@.anchor@ =~= Seq::new(32, |i: int| 0u8));
        journal
    }

    /// Records one non-empty discard batch, in ascending order, with its Merkle
    /// root and the pinned discard root that folding it in left.
    pub fn record(&mut self, entries: Vec<EntryHash>, root: Digest, pinned_after: Digest)
        requires
            old(self).wf(),
            entries@.len() > 0,
            collections::strictly_ascending(entries@),
            old(self)@.next_seq < u64::MAX,
        ensures
            final(self).wf(),
            final(self)@ == old(self)@.recorded(entries@, root, pinned_after),
    {
        proof {
            law_journal_is_bounded_and_anchored(self@, entries@, root, pinned_after);
        }
        let seq = DiscardBatchSeq(self.next_seq);
        self.next_seq = self.next_seq + 1;
        if entries.len() > self.entry_cap {
            self.batches = Vec::new();
            self.stored_entries = 0;
            self.pinned_before_front = pinned_after;
            assert(self@ =~= old(self)@.recorded(entries@, root, pinned_after));
            return ;
        }
        let added: usize = entries.len();
        let ghost said = BatchView {
            seq: seq.0,
            entries: entries@,
            root,
            pinned_after,
        };
        let ghost grown = JournalView {
            batches: old(self)@.batches.push(said),
            next_seq: old(self)@.next_seq + 1,
            ..old(self)@
        };
        proof {
            lemma_total_push(old(self)@.batches, said);
        }
        // Oldest batches go until what is left and the new one fit together.
        while self.stored_entries > self.entry_cap - added
            invariant
                added <= self.entry_cap,
                added == said.entries.len(),
                self.stored_entries == total(self@.batches),
                trimmed(grown) == trimmed(
                    JournalView {
                        anchor: self@.anchor,
                        batches: self@.batches.push(said),
                        cap: self@.cap,
                        next_seq: self@.next_seq,
                    },
                ),
                self.entry_cap == self@.cap,
            decreases self.batches@.len(),
        {
            proof {
                let views = self@.batches;
                if views.len() == 0 {
                    assert(total(views) == 0);
                }
                lemma_total_push(views, said);
                assert(views.push(said).drop_first() =~= views.drop_first().push(said));
                assert(views[0] == self.batches@[0]@);
            }
            let ghost before = self@.batches;
            let oldest: StoredDiscardBatch = self.batches.remove(0);
            assert(self.batches@.map_values(|batch: StoredDiscardBatch| batch@)
                =~= before.drop_first());
            self.stored_entries = self.stored_entries - oldest.entries.len();
            self.pinned_before_front = oldest.pinned_after;
        }
        proof {
            lemma_total_push(self@.batches, said);
        }
        let ghost kept = self@.batches;
        self.batches.push(StoredDiscardBatch { seq, entries, root, pinned_after });
        self.stored_entries = self.stored_entries + added;
        assert(self@.batches =~= kept.push(said));
    }

    /// How many batches are retained.
    pub fn batch_count(&self) -> (count: usize)
        ensures
            count == self@.batches.len(),
    {
        self.batches.len()
    }

    /// One retained batch, the oldest being the first.
    pub fn batch(&self, i: usize) -> (batch: DiscardBatchRef<'_>)
        requires
            i < self@.batches.len(),
        ensures
            batch.seq.0 == self@.batches[i as int].seq,
            batch.entries@ == self@.batches[i as int].entries,
    {
        let batch: &StoredDiscardBatch = &self.batches[i];
        DiscardBatchRef { seq: batch.seq, entries: batch.entries.as_slice() }
    }

    /// The sequence number of the oldest retained batch.
    pub fn oldest(&self) -> (seq: Option<DiscardBatchSeq>)
        ensures
            seq == if self@.batches.len() == 0 {
                None
            } else {
                Some(DiscardBatchSeq(self@.batches[0].seq))
            },
    {
        if self.batches.len() == 0 {
            None
        } else {
            assert(self@.batches[0] == self.batches@[0]@);
            Some(self.batches[0].seq)
        }
    }

    /// The sequence number that the next batch gets.
    pub fn next_seq(&self) -> (seq: DiscardBatchSeq)
        ensures
            seq.0 == self@.next_seq,
    {
        DiscardBatchSeq(self.next_seq)
    }

    /// What proves that `member` was discarded: nothing where its batch has been
    /// evicted, or it was never discarded.
    pub fn prove(&self, member: &EntryHash) -> (path: Option<DiscardPath>)
        requires
            self.wf(),
        ensures
            match path {
                Some(path) => {
                    let at = self@.batch_with(*member, 0);
                    &&& self@.holds(*member)
                    &&& 0 <= at < self@.batches.len()
                    &&& path.batch@ == self@.batches[at].entries
                    &&& path.pinned_before == self@.pinned_before(at)
                    &&& path.later@.len() == self@.batches.len() - at - 1
                    &&& forall|k: int|
                        0 <= k < path.later@.len() ==> #[trigger] path.later@[k]
                            == self@.batches[at + 1 + k].root
                },
                None => !self@.holds(*member),
            },
    {
        let ghost views = self@.batches;
        proof {
            lemma_batch_with(self@, *member, 0);
        }
        let mut at: usize = 0;
        while at < self.batches.len()
            invariant
                at <= self.batches@.len(),
                self.wf(),
                views == self@.batches,
                self@.batch_with(*member, 0) == self@.batch_with(*member, at as int),
                forall|i: int| 0 <= i < at ==> !(#[trigger] views[i]).entries.contains(*member),
            decreases self.batches@.len() - at,
        {
            assert(views[at as int] == self.batches@[at as int]@);
            if contains_ascending(&self.batches[at].entries, member) {
                let pinned_before: Digest = if at == 0 {
                    self.pinned_before_front
                } else {
                    assert(views[at - 1] == self.batches@[at - 1]@);
                    self.batches[at - 1].pinned_after
                };
                let mut later: Vec<Digest> = Vec::new();
                let mut k: usize = at + 1;
                while k < self.batches.len()
                    invariant
                        at < k <= self.batches@.len(),
                        views == self@.batches,
                        later@.len() == k - at - 1,
                        forall|m: int|
                            0 <= m < later@.len() ==> #[trigger] later@[m] == views[at + 1 + m].root,
                    decreases self.batches@.len() - k,
                {
                    assert(views[k as int] == self.batches@[k as int]@);
                    later.push(self.batches[k].root);
                    k = k + 1;
                }
                return Some(
                    DiscardPath {
                        batch: copy_entries(&self.batches[at].entries),
                        pinned_before,
                        later,
                    },
                );
            }
            at = at + 1;
        }
        None
    }
}

/// The entries of a journal are those of its batches together.
pub proof fn law_batches_add_up(first: Seq<BatchView>, batch: BatchView)
    ensures
        total(Seq::<BatchView>::empty()) == 0,
        total(first.push(batch)) == total(first) + batch.entries.len(),
    decreases first.len(),
{
    if first.len() == 0 {
        assert(first.push(batch).drop_first() =~= Seq::<BatchView>::empty());
    } else {
        law_batches_add_up(first.drop_first(), batch);
        assert(first.push(batch).drop_first() =~= first.drop_first().push(batch));
    }
}

proof fn lemma_trimmed_is_a_suffix(journal: JournalView) -> (dropped: int)
    ensures
        0 <= dropped <= journal.batches.len(),
        trimmed(journal).batches == journal.batches.subrange(
            dropped,
            journal.batches.len() as int,
        ),
        trimmed(journal).cap == journal.cap,
        trimmed(journal).next_seq == journal.next_seq,
        trimmed(journal).anchor == if dropped == 0 {
            journal.anchor
        } else {
            journal.batches[dropped - 1].pinned_after
        },
        total(trimmed(journal).batches) <= journal.cap,
        dropped > 0 ==> total(
            journal.batches.subrange(dropped - 1, journal.batches.len() as int),
        ) > journal.cap,
    decreases journal.batches.len(),
{
    let all = journal.batches;
    if total(all) <= journal.cap || all.len() == 0 {
        assert(all.subrange(0, all.len() as int) =~= all);
        0
    } else {
        let next = JournalView {
            anchor: all[0].pinned_after,
            batches: all.drop_first(),
            ..journal
        };
        let dropped = lemma_trimmed_is_a_suffix(next);
        let rest = next.batches;
        assert(rest.subrange(dropped, rest.len() as int) =~= all.subrange(
            dropped + 1,
            all.len() as int,
        ));
        if dropped > 0 {
            assert(rest[dropped - 1] == all[dropped]);
            assert(rest.subrange(dropped - 1, rest.len() as int) =~= all.subrange(
                dropped,
                all.len() as int,
            ));
        } else {
            assert(all.subrange(0, all.len() as int) =~= all);
        }
        dropped + 1
    }
}

/// What is recorded joins the journal as its newest batch, under the next number.
/// From the oldest on, no more batches leave than have to for the journal to keep its
/// limit, and the anchor is what was pinned after the last that left. A batch that is
/// by itself over the limit empties the journal.
pub proof fn law_records_push_out_the_oldest(
    journal: JournalView,
    entries: Seq<EntryHash>,
    root: Digest,
    pinned_after: Digest,
) -> (dropped: int)
    requires
        journal.next_seq < u64::MAX,
    ensures
        ({
            let after = journal.recorded(entries, root, pinned_after);
            &&& after.cap == journal.cap
            &&& after.next_seq == journal.next_seq + 1
            &&& entries.len() > journal.cap ==> after.batches.len() == 0 && after.anchor
                == pinned_after
            &&& entries.len() <= journal.cap ==> {
                let count = journal.batches.len();
                &&& 0 <= dropped <= count
                &&& after.batches.len() == count - dropped + 1
                &&& forall|i: int|
                    0 <= i < count - dropped ==> #[trigger] after.batches[i]
                        == journal.batches[dropped + i]
                &&& after.batches.last().seq == journal.next_seq
                &&& after.batches.last().entries == entries
                &&& after.batches.last().root == root
                &&& after.batches.last().pinned_after == pinned_after
                &&& dropped == 0 ==> after.anchor == journal.anchor
                &&& dropped > 0 ==> after.anchor == journal.batches[dropped - 1].pinned_after
                &&& total(after.batches) <= journal.cap
                &&& dropped > 0 ==> total(after.batches) + journal.batches[dropped
                    - 1].entries.len() > journal.cap
            }
        }),
{
    let batch = BatchView { seq: journal.next_seq as u64, entries, root, pinned_after };
    let grown = JournalView {
        batches: journal.batches.push(batch),
        next_seq: journal.next_seq + 1,
        ..journal
    };
    let count = journal.batches.len() as int;
    let dropped = lemma_trimmed_is_a_suffix(grown);
    if entries.len() <= journal.cap {
        let kept = trimmed(grown).batches;
        if dropped == count + 1 {
            assert(grown.batches.subrange(count, count + 1) =~= seq![batch]);
            law_batches_add_up(Seq::empty(), batch);
            assert(Seq::<BatchView>::empty().push(batch) =~= seq![batch]);
        }
        assert(dropped <= count);
        if dropped > 0 {
            let longer = grown.batches.subrange(dropped - 1, count + 1);
            assert(longer.drop_first() =~= kept);
            assert(longer[0] == journal.batches[dropped - 1]);
        }
    }
    dropped
}

/// The batch that is shown for an entry is the oldest that holds it, and what was
/// pinned before a batch is what was pinned after the one before it.
pub proof fn law_the_oldest_batch_is_shown(journal: JournalView, member: EntryHash, from: int)
    requires
        0 <= from <= journal.batches.len(),
    ensures
        from <= journal.batch_with(member, from) <= journal.batches.len(),
        forall|i: int|
            from <= i < journal.batch_with(member, from)
                ==> !(#[trigger] journal.batches[i]).entries.contains(member),
        journal.batch_with(member, from) < journal.batches.len()
            ==> journal.batches[journal.batch_with(member, from)].entries.contains(member),
        journal.pinned_before(0) == journal.anchor,
        forall|i: int|
            0 < i <= journal.batches.len() ==> #[trigger] journal.pinned_before(i)
                == journal.batches[i - 1].pinned_after,
    decreases journal.batches.len() - from,
{
    if from < journal.batches.len() && !journal.batches[from].entries.contains(member) {
        law_the_oldest_batch_is_shown(journal, member, from + 1);
    }
}

} // verus!

//! The store: which operations are lifted, which are parked, and what a
//! compaction takes away.

use crate::bytes;
use crate::collections;
use crate::collections::{Ordered, SortedMap, SortedSet};
use crate::order;
use crate::replica::ids;
use crate::replica::ids::{Digest, EntryHash};
use crate::replica::repair;
use crate::text;
use crate::windowed::journal::{
    DiscardBatchRef, DiscardBatchSeq, DiscardHistory, DiscardPath, JournalView,
};
use vstd::prelude::*;

verus! {

/// The identity of a signed operation.
#[derive(Clone, Copy, PartialEq, Eq, PartialOrd, Ord, Hash, Debug)]
pub struct OpId([u8; 32]);

impl View for OpId {
    type V = Seq<u8>;

    closed spec fn view(&self) -> Seq<u8> {
        self.0@
    }
}

impl OpId {
    pub fn from_bytes(bytes: [u8; 32]) -> (id: Self)
        ensures
            id@ == bytes@,
    {
        OpId(bytes)
    }

    pub fn as_bytes(&self) -> (bytes: &[u8; 32])
        ensures
            bytes@ == self@,
    {
        &self.0
    }

    pub fn same(&self, other: &Self) -> (r: bool)
        ensures
            r == (*self == *other),
    {
        let r: bool = bytes::same_bytes(&self.0, &other.0);
        proof {
            if self.0@ == other.0@ {
                bytes::lemma_array_ext(self.0, other.0);
            }
        }
        r
    }
}

impl Ordered for OpId {
    open spec fn key(self) -> Seq<int> {
        order::byte_key(self@)
    }

    proof fn lemma_key_injective(a: Self, b: Self) {
        order::lemma_byte_key_injective(a@, b@);
        bytes::lemma_array_ext(a.0, b.0);
    }

    fn precedes(&self, other: &Self) -> (r: bool) {
        order::bytes_before(&self.0, &other.0)
    }
}

/// The author of operations.
#[derive(Clone, Copy, PartialEq, Eq, PartialOrd, Ord, Hash, Debug)]
pub struct AuthorId([u8; 32]);

impl View for AuthorId {
    type V = Seq<u8>;

    closed spec fn view(&self) -> Seq<u8> {
        self.0@
    }
}

impl AuthorId {
    pub fn from_bytes(bytes: [u8; 32]) -> (id: Self)
        ensures
            id@ == bytes@,
    {
        AuthorId(bytes)
    }

    pub fn as_bytes(&self) -> (bytes: &[u8; 32])
        ensures
            bytes@ == self@,
    {
        &self.0
    }

    pub fn same(&self, other: &Self) -> (r: bool)
        ensures
            r == (*self == *other),
    {
        let r: bool = bytes::same_bytes(&self.0, &other.0);
        proof {
            if self.0@ == other.0@ {
                bytes::lemma_array_ext(self.0, other.0);
            }
        }
        r
    }
}

impl Ordered for AuthorId {
    open spec fn key(self) -> Seq<int> {
        order::byte_key(self@)
    }

    proof fn lemma_key_injective(a: Self, b: Self) {
        order::lemma_byte_key_injective(a@, b@);
        bytes::lemma_array_ext(a.0, b.0);
    }

    fn precedes(&self, other: &Self) -> (r: bool) {
        order::bytes_before(&self.0, &other.0)
    }
}

/// Where an author's log stands.
#[derive(Clone, Copy, Debug, PartialEq, Eq)]
pub struct LogHead {
    pub next_seq: u64,
    /// The author's latest operation.
    pub backlink: Option<OpId>,
}

impl LogHead {
    /// The head of a log that holds nothing.
    pub fn genesis() -> (head: Self)
        ensures
            head == (LogHead { next_seq: 0, backlink: None }),
    {
        LogHead { next_seq: 0, backlink: None }
    }
}

/// What the store reads of a verified operation.
#[derive(Debug)]
pub struct WindowOp {
    pub id: OpId,
    pub author: AuthorId,
    /// Where the author's log stands after it.
    pub advanced_head: LogHead,
    /// The author's operation before it.
    pub backlink: Option<OpId>,
    /// The operations that its author had observed.
    pub observed: Vec<OpId>,
}

/// What a window operation says.
pub struct OpRecord {
    pub id: OpId,
    pub author: AuthorId,
    pub advanced_head: LogHead,
    pub backlink: Option<OpId>,
    pub observed: Seq<OpId>,
}

impl View for WindowOp {
    type V = OpRecord;

    open spec fn view(&self) -> OpRecord {
        OpRecord {
            id: self.id,
            author: self.author,
            advanced_head: self.advanced_head,
            backlink: self.backlink,
            observed: self.observed@,
        }
    }
}

pub open spec fn records(ops: Seq<WindowOp>) -> Seq<OpRecord> {
    ops.map_values(|op: WindowOp| op@)
}

/// Whether every operation that `op` refers to is bound to an entry.
pub open spec fn resolved(source: Map<OpId, EntryHash>, op: OpRecord) -> bool {
    &&& match op.backlink {
        Some(backlink) => source.dom().contains(backlink),
        None => true,
    }
    &&& forall|k: int|
        0 <= k < op.observed.len() ==> source.dom().contains(#[trigger] op.observed[k])
}

/// The entries that `op` is written on top of.
pub open spec fn prevs_of(source: Map<OpId, EntryHash>, op: OpRecord) -> Set<EntryHash> {
    Set::new(
        |entry: EntryHash|
            {
                ||| op.backlink is Some && source[op.backlink->0] == entry
                ||| exists|k: int|
                    0 <= k < op.observed.len() && source[#[trigger] op.observed[k]] == entry
            },
    )
}

/// What the graph and its ancestry summary answered to a lift.
#[derive(Debug)]
pub enum FloorAnswer {
    /// The entry was taken in; these entries fell out of a full window.
    Lifted { evicted: Vec<EntryHash> },
    /// The ancestry of these discarded predecessors is gone: a courier is needed.
    Deferred { missing: SortedSet<EntryHash> },
}

/// One verified operation that could not be admitted locally: a predecessor was
/// discarded and its cached reach row has been evicted, so an exact ancestor row
/// cannot be built without courier help. The operation stays parked: deferred,
/// never wrong.
#[derive(Debug, PartialEq, Eq)]
pub struct DeferredLift {
    /// The entry hash that the operation would lift under.
    pub candidate: EntryHash,
    /// The evicted predecessor rows that a courier must answer for.
    pub missing: SortedSet<EntryHash>,
}

/// What one drain did.
#[derive(Debug, PartialEq, Eq)]
pub struct WindowIngest {
    /// Entries newly lifted, in lift order.
    pub lifted: Vec<EntryHash>,
    /// Operations deferred pending a courier round trip, by candidate.
    pub courier: Vec<DeferredLift>,
}

/// The outcome of one lift attempt.
#[derive(Debug, Clone, Copy, PartialEq, Eq)]
pub enum TryLift {
    /// Appended under this entry hash.
    Lifted(EntryHash),
    /// Every source resolves but a discarded predecessor's reach is gone.
    Courier(EntryHash),
}

/// The outcome of one compaction: how many shadowed operations were discarded,
/// and how many are retained after.
#[derive(Debug, Clone, Copy, PartialEq, Eq, Structural)]
pub struct Compaction {
    pub discarded: usize,
    pub retained: usize,
}

/// The horizon that a courier request is answered against: the requester's pinned
/// discard root and its retained identity set.
#[derive(Debug, PartialEq, Eq)]
pub struct CourierContext {
    pub discard_root: Digest,
    /// In ascending order; a response's mask indexes this exact array.
    pub retained: Vec<EntryHash>,
}

/// What a new local operation is signed over.
#[derive(Debug, PartialEq, Eq)]
pub struct PreparedCommit {
    /// Where the author's log stands.
    pub head: LogHead,
    /// The operations that the author has observed.
    pub observed: Vec<OpId>,
}

/// Why a courier-deferred operation was not admitted. The store is unchanged in
/// every case: the operation stays parked.
#[derive(Debug, PartialEq, Eq)]
pub enum DeferredLiftError {
    /// The store's context no longer equals the one that the answer was produced
    /// against, or the store does not compact.
    StaleContext,
    /// No parked operation derives this candidate with resolved sources.
    UnknownCandidate(EntryHash),
    /// The courier's answer was rejected, for this reason.
    Courier(String),
}

impl DeferredLiftError {
    pub open spec fn text(self) -> Seq<char> {
        match self {
            DeferredLiftError::StaleContext => "courier context is stale; re-request"@,
            DeferredLiftError::UnknownCandidate(hash) => "no parked op derives candidate "@
                + ids::hex(hash@),
            DeferredLiftError::Courier(fault) => "courier admission failed: "@ + fault@,
        }
    }

    pub fn message(&self) -> (message: String)
        ensures
            message@ == self.text(),
    {
        match self {
            DeferredLiftError::StaleContext => text::string_of(
                "courier context is stale; re-request",
            ),
            DeferredLiftError::UnknownCandidate(hash) => {
                let mut message: String = text::string_of("no parked op derives candidate ");
                let spelled: String = ids::hex_of(hash.as_bytes());
                text::push_str(&mut message, spelled.as_str());
                message
            },
            DeferredLiftError::Courier(fault) => {
                let mut message: String = text::string_of("courier admission failed: ");
                text::push_str(&mut message, fault.as_str());
                message
            },
        }
    }
}

/// A store over a bounded window.
///
/// A store with a cap keeps every operation that it lifts until the window is
/// full; from the first eviction on it answers no view. A store with a window
/// compacts: it discards what no later fold needs and stays answerable.
#[derive(Debug)]
pub struct WindowedStore {
    /// The entry of every lifted operation. A compacting store keeps the bindings
    /// of discarded ones, so that a later operation that refers to one resolves to
    /// the entry that a full peer computes.
    source_to_entry: SortedMap<OpId, EntryHash>,
    /// The operation of every retained entry.
    entry_to_source: SortedMap<EntryHash, OpId>,
    heads: SortedMap<AuthorId, LogHead>,
    /// Operations that the current pass has yet to try.
    parked: Vec<WindowOp>,
    /// Operations that wait for their past.
    pending: Vec<WindowOp>,
    /// Whether the current pass has lifted something.
    progressed: bool,
    /// Operations of the current pass that wait for a courier.
    deferred: SortedSet<OpId>,
    lifted: Vec<EntryHash>,
    courier: SortedMap<EntryHash, SortedSet<EntryHash>>,
    compacting: bool,
    window_cap: usize,
    truncated: bool,
    total_discarded: usize,
    compactions: usize,
    journal: DiscardHistory,
}

/// What a store holds.
#[verifier::ext_equal]
pub struct StoreView {
    pub source: Map<OpId, EntryHash>,
    pub retained: Map<EntryHash, OpId>,
    pub heads: Map<AuthorId, LogHead>,
    pub parked: Seq<OpRecord>,
    pub pending: Seq<OpRecord>,
    pub progressed: bool,
    pub deferred: Set<OpId>,
    pub lifted: Seq<EntryHash>,
    pub courier: Map<EntryHash, Set<EntryHash>>,
    pub compacting: bool,
    pub cap: nat,
    pub truncated: bool,
    pub total_discarded: nat,
    pub compactions: nat,
    pub journal: JournalView,
}

impl View for WindowedStore {
    type V = StoreView;

    closed spec fn view(&self) -> StoreView {
        StoreView {
            source: self.source_to_entry@,
            retained: self.entry_to_source@,
            heads: self.heads@,
            parked: records(self.parked@),
            pending: records(self.pending@),
            progressed: self.progressed,
            deferred: self.deferred@,
            lifted: self.lifted@,
            courier: self.courier@.map_values(|missing: SortedSet<EntryHash>| missing@),
            compacting: self.compacting,
            cap: self.window_cap as nat,
            truncated: self.truncated,
            total_discarded: self.total_discarded as nat,
            compactions: self.compactions as nat,
            journal: self.journal@,
        }
    }
}

/// The bindings after entries fell out of the window: neither direction is left.
pub open spec fn evicted_from(
    source: Map<OpId, EntryHash>,
    retained: Map<EntryHash, OpId>,
    evicted: Seq<EntryHash>,
) -> (Map<OpId, EntryHash>, Map<EntryHash, OpId>)
    decreases evicted.len(),
{
    if evicted.len() == 0 {
        (source, retained)
    } else {
        let (s, r) = evicted_from(source, retained, evicted.drop_last());
        let gone = evicted.last();
        if r.dom().contains(gone) {
            (s.remove(r[gone]), r.remove(gone))
        } else {
            (s, r)
        }
    }
}

/// An author's head after an operation: it advances, and never regresses.
pub open spec fn advanced(heads: Map<AuthorId, LogHead>, op: OpRecord) -> Map<AuthorId, LogHead> {
    let current = if heads.dom().contains(op.author) {
        heads[op.author]
    } else {
        LogHead { next_seq: 0, backlink: None }
    };
    if op.advanced_head.next_seq > current.next_seq {
        heads.insert(op.author, op.advanced_head)
    } else {
        heads
    }
}

impl StoreView {
    /// Every operation that is not lifted yet.
    pub open spec fn waiting(self) -> Seq<OpRecord> {
        self.parked + self.pending
    }

    /// Whether an operation waits to be lifted.
    pub open spec fn waits(self, id: OpId) -> bool {
        exists|i: int| 0 <= i < self.waiting().len() && (#[trigger] self.waiting()[i]).id == id
    }

    /// Whether an operation was ever taken in: it is bound to an entry, be that
    /// entry retained or discarded since, or it waits.
    pub open spec fn seen(self, id: OpId) -> bool {
        self.source.dom().contains(id) || self.waits(id)
    }

    /// The retained entry that lifts an operation.
    pub open spec fn entry_of(self, id: OpId) -> Option<EntryHash> {
        if self.source.dom().contains(id) && self.retained.dom().contains(self.source[id]) {
            Some(self.source[id])
        } else {
            None
        }
    }

    /// Whether an operation is lifted under a retained entry, or waits.
    pub open spec fn knows(self, id: OpId) -> bool {
        self.entry_of(id) is Some || self.waits(id)
    }

    pub open spec fn sound(self) -> bool {
        &&& forall|entry: EntryHash| #[trigger]
            self.retained.dom().contains(entry) ==> self.source.dom().contains(
                self.retained[entry],
            ) && self.source[self.retained[entry]] == entry
        &&& forall|i: int|
            0 <= i < self.waiting().len() ==> !self.source.dom().contains(
                (#[trigger] self.waiting()[i]).id,
            )
        &&& forall|i: int, j: int|
            #![trigger self.waiting()[i], self.waiting()[j]]
            0 <= i < j < self.waiting().len() ==> self.waiting()[i].id != self.waiting()[j].id
        &&& !self.progressed ==> forall|i: int|
            0 <= i < self.pending.len() ==> !resolved(self.source, #[trigger] self.pending[i])
                || self.deferred.contains(self.pending[i].id)
        &&& self.compacting ==> !self.truncated
    }

    /// Whether a view can be folded correctly: nothing is missing, or what is
    /// missing was taken away by a compaction.
    pub open spec fn answerable(self) -> bool {
        self.compacting || !self.truncated
    }

    /// Whether the store still holds its entire lifted history.
    pub open spec fn complete(self) -> bool {
        if self.compacting {
            self.total_discarded == 0
        } else {
            !self.truncated
        }
    }

    /// A pass over everything that waits begins.
    pub open spec fn started(self) -> StoreView {
        StoreView {
            parked: self.waiting(),
            pending: Seq::empty(),
            progressed: false,
            deferred: Set::empty(),
            lifted: Seq::empty(),
            courier: Map::empty(),
            ..self
        }
    }

    /// The store with one operation more to lift.
    pub open spec fn taken(self, op: OpRecord) -> StoreView {
        StoreView {
            heads: advanced(self.heads, op),
            pending: self.pending.push(op),
            ..self
        }.started()
    }

    /// The store when the next operation whose sources resolve has come up, or
    /// when a whole pass has lifted nothing.
    pub open spec fn sought(self) -> StoreView
        decreases
                (if self.progressed {
                    1int
                } else {
                    0int
                }),
                self.parked.len(),
    {
        if self.parked.len() == 0 {
            if self.progressed {
                StoreView {
                    parked: self.pending,
                    pending: Seq::empty(),
                    progressed: false,
                    deferred: Set::empty(),
                    ..self
                }.sought()
            } else {
                self
            }
        } else if resolved(self.source, self.parked[0]) {
            self
        } else {
            StoreView {
                parked: self.parked.drop_first(),
                pending: self.pending.push(self.parked[0]),
                ..self
            }.sought()
        }
    }

    /// Whether an operation whose sources resolve has come up.
    pub open spec fn ready(self) -> bool {
        self.parked.len() > 0 && resolved(self.source, self.parked[0])
    }

    /// The store after the operation that came up was taken in under `entry`.
    pub open spec fn lifted_as(self, entry: EntryHash, evicted: Seq<EntryHash>) -> StoreView {
        let id = self.parked[0].id;
        let (source, retained) = evicted_from(
            self.source.insert(id, entry),
            self.retained.insert(entry, id),
            evicted,
        );
        StoreView {
            source,
            retained,
            parked: self.parked.drop_first(),
            progressed: true,
            lifted: self.lifted.push(entry),
            truncated: self.truncated || evicted.len() > 0,
            ..self
        }
    }

    /// The store after the operation that came up was deferred.
    pub open spec fn deferred_as(self, entry: EntryHash, missing: Set<EntryHash>) -> StoreView {
        StoreView {
            parked: self.parked.drop_first(),
            pending: self.pending.push(self.parked[0]),
            deferred: self.deferred.insert(self.parked[0].id),
            courier: self.courier.insert(entry, missing),
            ..self
        }
    }

    /// What a compaction that keeps `keep` discards, in order.
    pub open spec fn discards(self, keep: Set<EntryHash>) -> Seq<EntryHash> {
        collections::ascending_of(self.retained.dom().difference(keep))
    }

    /// The store after a compaction that keeps `keep`.
    pub open spec fn compacted(
        self,
        keep: Set<EntryHash>,
        root: Digest,
        pinned_after: Digest,
    ) -> StoreView {
        if !self.compacting {
            self
        } else {
            let gone = self.discards(keep);
            StoreView {
                retained: self.retained.remove_keys(self.retained.dom().difference(keep)),
                journal: if gone.len() > 0 {
                    self.journal.recorded(gone, root, pinned_after)
                } else {
                    self.journal
                },
                total_discarded: self.total_discarded + gone.len(),
                compactions: self.compactions + 1,
                ..self
            }
        }
    }
}

/// What is left when the first of those that wait goes to the end keeps the
/// identities apart.
proof fn lemma_rotation(s: StoreView, next: StoreView)
    requires
        s.sound(),
        s.parked.len() > 0,
        next.parked == s.parked.drop_first(),
        next.pending == s.pending.push(s.parked[0]),
        next.source == s.source,
    ensures
        forall|i: int|
            0 <= i < next.waiting().len() ==> !next.source.dom().contains(
                (#[trigger] next.waiting()[i]).id,
            ),
        forall|i: int, j: int|
            #![trigger next.waiting()[i], next.waiting()[j]]
            0 <= i < j < next.waiting().len() ==> next.waiting()[i].id != next.waiting()[j].id,
{
    let (old_, new_) = (s.waiting(), next.waiting());
    let n = old_.len() as int;
    assert(new_.len() == n);
    assert forall|i: int| 0 <= i < n - 1 implies #[trigger] new_[i] == old_[i + 1] by {}
    assert(new_[n - 1] == old_[0]);
    assert forall|i: int| 0 <= i < n implies !next.source.dom().contains(
        (#[trigger] new_[i]).id,
    ) by {
        if i < n - 1 {
            assert(!s.source.dom().contains(old_[i + 1].id));
        } else {
            assert(!s.source.dom().contains(old_[0].id));
        }
    }
    assert forall|i: int, j: int|
        #![trigger new_[i], new_[j]]
        0 <= i < j < n implies new_[i].id != new_[j].id by {
        if j < n - 1 {
            assert(old_[i + 1].id != old_[j + 1].id);
        } else {
            assert(old_[0].id != old_[i + 1].id);
        }
    }
}

proof fn lemma_started_is_sound(s: StoreView)
    requires
        s.sound(),
    ensures
        s.started().sound(),
{
    assert(s.started().waiting() =~= s.waiting());
}

proof fn lemma_taken_is_sound(s: StoreView, op: OpRecord)
    requires
        s.sound(),
        !s.seen(op.id),
    ensures
        s.taken(op).sound(),
{
    let next = s.taken(op);
    assert(next.waiting() =~= s.waiting().push(op));
    assert forall|i: int| 0 <= i < next.waiting().len() implies !next.source.dom().contains(
        (#[trigger] next.waiting()[i]).id,
    ) by {
        if i < s.waiting().len() {
            assert(next.waiting()[i] == s.waiting()[i]);
        }
    }
    assert forall|i: int, j: int|
        #![trigger next.waiting()[i], next.waiting()[j]]
        0 <= i < j < next.waiting().len() implies next.waiting()[i].id != next.waiting()[j].id by {
        assert(next.waiting()[i] == s.waiting()[i]);
        if j < s.waiting().len() {
            assert(next.waiting()[j] == s.waiting()[j]);
        }
    }
}

/// One step of seeking keeps the store sound.
proof fn lemma_step_is_sound(s: StoreView, next: StoreView)
    requires
        s.sound(),
        ({
            ||| s.parked.len() == 0 && s.progressed && next == (StoreView {
                parked: s.pending,
                pending: Seq::empty(),
                progressed: false,
                deferred: Set::empty(),
                ..s
            })
            ||| s.parked.len() > 0 && !resolved(s.source, s.parked[0]) && next == (StoreView {
                parked: s.parked.drop_first(),
                pending: s.pending.push(s.parked[0]),
                ..s
            })
        }),
    ensures
        next.sound(),
{
    if s.parked.len() == 0 {
        assert(next.waiting() =~= s.waiting());
    } else {
        lemma_rotation(s, next);
        if !next.progressed {
            assert forall|i: int| 0 <= i < next.pending.len() implies !resolved(
                next.source,
                #[trigger] next.pending[i],
            ) || next.deferred.contains(next.pending[i].id) by {
                if i < s.pending.len() {
                    assert(next.pending[i] == s.pending[i]);
                }
            }
        }
    }
}

proof fn lemma_sought(s: StoreView)
    requires
        s.sound(),
    ensures
        s.sought().sound(),
        s.sought().parked.len() > 0 ==> s.sought().ready(),
        s.sought().parked.len() == 0 ==> !s.sought().progressed,
    decreases
            (if s.progressed {
                1int
            } else {
                0int
            }),
            s.parked.len(),
{
    if s.parked.len() == 0 {
        if s.progressed {
            let next = StoreView {
                parked: s.pending,
                pending: Seq::empty(),
                progressed: false,
                deferred: Set::empty(),
                ..s
            };
            lemma_step_is_sound(s, next);
            lemma_sought(next);
        }
    } else if !resolved(s.source, s.parked[0]) {
        let next = StoreView {
            parked: s.parked.drop_first(),
            pending: s.pending.push(s.parked[0]),
            ..s
        };
        lemma_step_is_sound(s, next);
        lemma_sought(next);
    }
}

/// Whether the bindings of retained entries go both ways.
spec fn inverse(source: Map<OpId, EntryHash>, retained: Map<EntryHash, OpId>) -> bool {
    forall|entry: EntryHash| #[trigger]
        retained.dom().contains(entry) ==> source.dom().contains(retained[entry])
            && source[retained[entry]] == entry
}

proof fn lemma_eviction_keeps_inverse(
    source: Map<OpId, EntryHash>,
    retained: Map<EntryHash, OpId>,
    evicted: Seq<EntryHash>,
)
    requires
        inverse(source, retained),
    ensures
        ({
            let (s, r) = evicted_from(source, retained, evicted);
            &&& inverse(s, r)
            &&& s.dom().subset_of(source.dom())
            &&& r.dom().subset_of(retained.dom())
        }),
    decreases evicted.len(),
{
    if evicted.len() > 0 {
        lemma_eviction_keeps_inverse(source, retained, evicted.drop_last());
        let (s, r) = evicted_from(source, retained, evicted.drop_last());
        let gone = evicted.last();
        if r.dom().contains(gone) {
            assert forall|entry: EntryHash| #[trigger]
                r.remove(gone).dom().contains(entry) implies s.remove(r[gone]).dom().contains(
                r.remove(gone)[entry],
            ) && s.remove(r[gone])[r.remove(gone)[entry]] == entry by {
                assert(r.dom().contains(entry));
            }
        }
    }
}

proof fn lemma_lifting_is_sound(s: StoreView, entry: EntryHash, evicted: Seq<EntryHash>)
    requires
        s.sound(),
        s.ready(),
        s.compacting ==> evicted.len() == 0,
    ensures
        s.lifted_as(entry, evicted).sound(),
{
    let id = s.parked[0].id;
    let next = s.lifted_as(entry, evicted);
    let (source, retained) = (s.source.insert(id, entry), s.retained.insert(entry, id));
    assert(s.waiting()[0].id == id);
    assert(inverse(source, retained)) by {
        assert forall|e: EntryHash| #[trigger] retained.dom().contains(e) implies source.dom().contains(
            retained[e],
        ) && source[retained[e]] == e by {
            if e != entry {
                assert(s.retained.dom().contains(e));
                assert(s.source.dom().contains(s.retained[e]));
            }
        }
    }
    lemma_eviction_keeps_inverse(source, retained, evicted);
    assert forall|i: int| 0 <= i < next.waiting().len() implies #[trigger] next.waiting()[i]
        == s.waiting()[i + 1] by {}
    assert forall|i: int| 0 <= i < next.waiting().len() implies !next.source.dom().contains(
        (#[trigger] next.waiting()[i]).id,
    ) by {
        assert(!s.source.dom().contains(s.waiting()[i + 1].id));
        assert(s.waiting()[0].id != s.waiting()[i + 1].id);
    }
    assert forall|i: int, j: int|
        #![trigger next.waiting()[i], next.waiting()[j]]
        0 <= i < j < next.waiting().len() implies next.waiting()[i].id != next.waiting()[j].id by {
        assert(s.waiting()[i + 1].id != s.waiting()[j + 1].id);
    }
}

proof fn lemma_deferral_is_sound(s: StoreView, entry: EntryHash, missing: Set<EntryHash>)
    requires
        s.sound(),
        s.ready(),
    ensures
        s.deferred_as(entry, missing).sound(),
{
    let next = s.deferred_as(entry, missing);
    lemma_rotation(s, next);
    if !next.progressed {
        assert forall|i: int| 0 <= i < next.pending.len() implies !resolved(
            next.source,
            #[trigger] next.pending[i],
        ) || next.deferred.contains(next.pending[i].id) by {
            if i < s.pending.len() {
                assert(next.pending[i] == s.pending[i]);
            }
        }
    }
}

proof fn lemma_records_push(ops: Seq<WindowOp>, op: WindowOp)
    ensures
        records(ops.push(op)) == records(ops).push(op@),
{
    assert(records(ops.push(op)) =~= records(ops).push(op@));
}

proof fn lemma_records_remove(ops: Seq<WindowOp>, i: int)
    requires
        0 <= i < ops.len(),
    ensures
        records(ops.remove(i)) == records(ops).remove(i),
{
    assert(records(ops.remove(i)) =~= records(ops).remove(i));
}

impl WindowedStore {
    pub closed spec fn wf(&self) -> bool {
        &&& self@.sound()
        &&& self.journal.wf()
    }

    /// What holds of every well-formed store.
    pub proof fn lemma_wf(&self)
        requires
            self.wf(),
        ensures
            self@.sound(),
            self@.journal.sound(),
    {
        self.journal.lemma_wf();
    }

    fn empty(window_cap: usize, compacting: bool, history_cap: usize) -> (store: Self)
        ensures
            store.wf(),
            store@.source == Map::<OpId, EntryHash>::empty(),
            store@.retained == Map::<EntryHash, OpId>::empty(),
            store@.heads == Map::<AuthorId, LogHead>::empty(),
            store@.waiting() == Seq::<OpRecord>::empty(),
            store@.compacting == compacting,
            store@.cap == window_cap,
            !store@.truncated,
            store@.total_discarded == 0,
            store@.compactions == 0,
            store@.journal.cap == history_cap,
            store@.journal.batches.len() == 0,
            store@.journal.next_seq == 0,
    {
        let store = WindowedStore {
            source_to_entry: SortedMap::new(),
            entry_to_source: SortedMap::new(),
            heads: SortedMap::new(),
            parked: Vec::new(),
            pending: Vec::new(),
            progressed: false,
            deferred: SortedSet::new(),
            lifted: Vec::new(),
            courier: SortedMap::new(),
            compacting,
            window_cap,
            truncated: false,
            total_discarded: 0,
            compactions: 0,
            journal: DiscardHistory::new(history_cap),
        };
        assert(store@.waiting() =~= Seq::<OpRecord>::empty());
        store
    }

    /// A bounded window of `cap` operations: no compaction, and no view once one
    /// has fallen out.
    pub fn with_cap(cap: usize) -> (store: Self)
        ensures
            store.wf(),
            store@.waiting().len() == 0,
            store@.retained.dom() == Set::<EntryHash>::empty(),
            store@.source.dom() == Set::<OpId>::empty(),
            !store@.compacting,
            store@.cap == cap,
            store@.answerable(),
            store@.complete(),
    {
        Self::empty(cap, false, 0)
    }

    /// A compacting store with a window budget. Past `discard_history_entry_cap`
    /// journaled entries a member's proof is gone and its laggard stays deferred.
    pub fn with_window_limits(window_cap: usize, discard_history_entry_cap: usize) -> (store: Self)
        requires
            window_cap >= 1,
        ensures
            store.wf(),
            store@.waiting().len() == 0,
            store@.retained.dom() == Set::<EntryHash>::empty(),
            store@.source.dom() == Set::<OpId>::empty(),
            store@.compacting,
            store@.cap == window_cap,
            store@.journal.cap == discard_history_entry_cap,
            store@.journal.batches.len() == 0,
            store@.journal.next_seq == 0,
            store@.answerable(),
            store@.complete(),
    {
        Self::empty(window_cap, true, discard_history_entry_cap)
    }

    /// A compacting store whose journal outlives a cache of `discard_reach_cap`
    /// reach rows: it keeps twice as many entries, so that an operation whose
    /// cached row was just evicted is still provable for a while.
    pub fn with_window(window_cap: usize, discard_reach_cap: usize) -> (store: Self)
        requires
            window_cap >= 1,
            discard_reach_cap * 2 <= usize::MAX,
        ensures
            store.wf(),
            store@.waiting().len() == 0,
            store@.retained.dom() == Set::<EntryHash>::empty(),
            store@.source.dom() == Set::<OpId>::empty(),
            store@.compacting,
            store@.cap == window_cap,
            store@.journal.cap == discard_reach_cap * 2,
            store@.journal.batches.len() == 0,
            store@.answerable(),
            store@.complete(),
    {
        Self::with_window_limits(window_cap, discard_reach_cap * 2)
    }

    pub fn is_compacting(&self) -> (r: bool)
        ensures
            r == self@.compacting,
    {
        self.compacting
    }

    /// The window cap.
    pub fn cap(&self) -> (cap: usize)
        ensures
            cap == self@.cap,
    {
        self.window_cap
    }

    /// Whether the store still holds its entire lifted causal history: nothing
    /// has been dropped, by eviction or by compaction.
    pub fn is_complete(&self) -> (r: bool)
        ensures
            r == self@.complete(),
    {
        if self.compacting {
            self.total_discarded == 0
        } else {
            !self.truncated
        }
    }

    /// Whether a view can be folded correctly. `false` only for a window that
    /// truncated with no compaction to account for what fell out: a fold over it
    /// would be a wrong view, not an error.
    pub fn is_answerable(&self) -> (r: bool)
        ensures
            r == self@.answerable(),
    {
        self.compacting || !self.truncated
    }

    /// How many operations are retained.
    pub fn len(&self) -> (len: usize)
        ensures
            len == self@.retained.dom().len(),
            self@.retained.dom().finite(),
    {
        self.entry_to_source.expose();
        self.entry_to_source.len()
    }

    pub fn is_empty(&self) -> (empty: bool)
        ensures
            empty == (self@.retained.dom() == Set::<EntryHash>::empty()),
    {
        self.entry_to_source.expose();
        let empty: bool = self.entry_to_source.len() == 0;
        proof {
            if empty {
                assert(self@.retained.dom() =~= Set::<EntryHash>::empty());
            }
        }
        empty
    }

    /// The retained identity set.
    pub fn entry_hashes(&self) -> (hashes: SortedSet<EntryHash>)
        ensures
            hashes@ == self@.retained.dom(),
    {
        self.entry_to_source.expose();
        let mut hashes: SortedSet<EntryHash> = SortedSet::new();
        let mut i: usize = 0;
        assert(self.entry_to_source.keys().subrange(0, 0).to_set() =~= Set::<EntryHash>::empty());
        while i < self.entry_to_source.len()
            invariant
                i <= self.entry_to_source.keys().len(),
                self.entry_to_source.keys().to_set() == self@.retained.dom(),
                self.entry_to_source.keys().len() == self.entry_to_source@.dom().len(),
                hashes@ == self.entry_to_source.keys().subrange(0, i as int).to_set(),
            decreases self.entry_to_source.keys().len() - i,
        {
            proof {
                collections::lemma_prefix_set(self.entry_to_source.keys(), i as int);
            }
            hashes.insert(self.entry_to_source.key_at(i));
            i = i + 1;
        }
        assert(self.entry_to_source.keys().subrange(0, i as int) =~= self.entry_to_source.keys());
        hashes
    }

    /// How many operations wait for their causal past.
    pub fn pending_len(&self) -> (len: usize)
        requires
            self@.waiting().len() <= usize::MAX,
        ensures
            len == self@.waiting().len(),
    {
        self.parked.len() + self.pending.len()
    }

    fn waits(ops: &Vec<WindowOp>, id: &OpId) -> (r: bool)
        ensures
            r == exists|i: int| 0 <= i < ops@.len() && (#[trigger] ops@[i]).id == *id,
    {
        let mut i: usize = 0;
        while i < ops.len()
            invariant
                i <= ops@.len(),
                forall|k: int| 0 <= k < i ==> (#[trigger] ops@[k]).id != *id,
            decreases ops@.len() - i,
        {
            if ops[i].id.same(id) {
                return true;
            }
            i = i + 1;
        }
        false
    }

    fn is_waiting(&self, id: OpId) -> (r: bool)
        ensures
            r == self@.waits(id),
    {
        let waits: bool = Self::waits(&self.parked, &id) || Self::waits(&self.pending, &id);
        proof {
            let all = self@.waiting();
            if exists|i: int| 0 <= i < self.parked@.len() && (#[trigger] self.parked@[i]).id == id {
                let i = choose|i: int|
                    0 <= i < self.parked@.len() && (#[trigger] self.parked@[i]).id == id;
                assert(all[i].id == id);
            }
            if exists|i: int| 0 <= i < self.pending@.len() && (#[trigger] self.pending@[i]).id == id {
                let i = choose|i: int|
                    0 <= i < self.pending@.len() && (#[trigger] self.pending@[i]).id == id;
                assert(all[self.parked@.len() + i].id == id);
            }
            if self@.waits(id) {
                let i = choose|i: int| 0 <= i < all.len() && (#[trigger] all[i]).id == id;
                if i < self.parked@.len() {
                    assert(self.parked@[i].id == id);
                } else {
                    assert(self.pending@[i - self.parked@.len()].id == id);
                }
            }
        }
        waits
    }

    /// Whether an operation is already lifted (retained) or parked.
    pub fn knows_op(&self, id: OpId) -> (r: bool)
        ensures
            r == self@.knows(id),
    {
        self.lifted_entry(id).is_some() || self.is_waiting(id)
    }

    /// The retained entry lifting an operation, if it is materialized and was not
    /// evicted or discarded since.
    pub fn lifted_entry(&self, id: OpId) -> (entry: Option<EntryHash>)
        ensures
            entry == if self@.source.dom().contains(id) && self@.retained.dom().contains(
                self@.source[id],
            ) {
                Some(self@.source[id])
            } else {
                None
            },
            entry == self@.entry_of(id),
    {
        match self.source_to_entry.get(&id) {
            Some(entry) => if self.entry_to_source.contains_key(entry) {
                Some(*entry)
            } else {
                None
            },
            None => None,
        }
    }

    /// Where an author's log stands.
    pub fn head_of(&self, author: AuthorId) -> (head: LogHead)
        ensures
            head == if self@.heads.dom().contains(author) {
                self@.heads[author]
            } else {
                LogHead { next_seq: 0, backlink: None }
            },
    {
        match self.heads.get(&author) {
            Some(head) => *head,
            None => LogHead::genesis(),
        }
    }

    /// Advances, and never regresses, the author's head.
    fn advance_head(&mut self, op: &WindowOp)
        ensures
            final(self)@ == (StoreView { heads: advanced(old(self)@.heads, op@), ..old(self)@ }),
            final(self).journal == old(self).journal,
            final(self).parked == old(self).parked,
            final(self).pending == old(self).pending,
    {
        let current: LogHead = self.head_of(op.author);
        if op.advanced_head.next_seq > current.next_seq {
            self.heads.insert(op.author, op.advanced_head);
        }
    }

    /// A pass over everything that waits begins.
    fn start(&mut self)
        ensures
            final(self)@ == old(self)@.started(),
            final(self).journal == old(self).journal,
    {
        let mut tail: Vec<WindowOp> = Vec::new();
        std::mem::swap(&mut tail, &mut self.pending);
        let ghost (front, back) = (self.parked@, tail@);
        self.parked.append(&mut tail);
        self.progressed = false;
        self.deferred = SortedSet::new();
        self.lifted = Vec::new();
        self.courier = SortedMap::new();
        proof {
            assert(records(front + back) =~= records(front) + records(back));
            assert(self@.courier =~= Map::<EntryHash, Set<EntryHash>>::empty());
            assert(records(self.pending@) =~= Seq::empty());
            assert(self@ =~= old(self)@.started());
        }
    }

    /// Takes in a verified operation, and begins a pass over everything that
    /// waits. An operation that was taken in before changes nothing, though its
    /// entry may have been discarded since.
    pub fn ingest_verified(&mut self, op: WindowOp) -> (taken: bool)
        requires
            old(self).wf(),
        ensures
            final(self).wf(),
            taken == !old(self)@.seen(op.id),
            final(self)@ == if taken {
                old(self)@.taken(op@)
            } else {
                old(self)@
            },
    {
        if self.source_to_entry.contains_key(&op.id) || self.is_waiting(op.id) {
            return false;
        }
        proof {
            lemma_taken_is_sound(self@, op@);
        }
        self.advance_head(&op);
        let ghost before = self.pending@;
        let ghost said = op@;
        proof {
            lemma_records_push(before, op);
        }
        self.pending.push(op);
        self.start();
        true
    }

    /// Begins a pass over everything that waits: what was unblocked since the
    /// last attempt lifts, and what still needs a courier is reported.
    pub fn retry_pending(&mut self)
        requires
            old(self).wf(),
        ensures
            final(self).wf(),
            final(self)@ == old(self)@.started(),
    {
        proof {
            lemma_started_is_sound(self@);
        }
        self.start();
    }

    /// The entries that an operation is written on top of: `None` where it refers
    /// to an operation that is not bound to an entry.
    pub fn resolve_prevs(&self, op: &WindowOp) -> (prevs: Option<SortedSet<EntryHash>>)
        ensures
            match prevs {
                Some(prevs) => resolved(self@.source, op@) && prevs@ == prevs_of(
                    self@.source,
                    op@,
                ),
                None => !resolved(self@.source, op@),
            },
    {
        let mut prevs: SortedSet<EntryHash> = SortedSet::new();
        match op.backlink {
            Some(backlink) => match self.source_to_entry.get(&backlink) {
                Some(entry) => {
                    prevs.insert(*entry);
                },
                None => {
                    return None;
                },
            },
            None => {},
        }
        let ghost source = self@.source;
        let mut k: usize = 0;
        while k < op.observed.len()
            invariant
                k <= op.observed@.len(),
                source == self@.source,
                source == self.source_to_entry@,
                match op.backlink {
                    Some(backlink) => source.dom().contains(backlink),
                    None => true,
                },
                forall|m: int| 0 <= m < k ==> source.dom().contains(#[trigger] op.observed@[m]),
                forall|entry: EntryHash| #[trigger]
                    prevs@.contains(entry) <==> {
                        ||| op.backlink is Some && source[op.backlink->0] == entry
                        ||| exists|m: int|
                            0 <= m < k && source[#[trigger] op.observed@[m]] == entry
                    },
            decreases op.observed@.len() - k,
        {
            match self.source_to_entry.get(&op.observed[k]) {
                Some(entry) => {
                    let ghost before = prevs@;
                    prevs.insert(*entry);
                    proof {
                        assert(source[op.observed@[k as int]] == *entry);
                        assert forall|e: EntryHash| #[trigger] prevs@.contains(e) <==> {
                            ||| op.backlink is Some && source[op.backlink->0] == e
                            ||| exists|m: int|
                                0 <= m < k + 1 && source[#[trigger] op.observed@[m]] == e
                        } by {
                            if before.contains(e) && !(op.backlink is Some
                                && source[op.backlink->0] == e) {
                                let m = choose|m: int|
                                    0 <= m < k && source[#[trigger] op.observed@[m]] == e;
                                assert(0 <= m < k + 1 && source[op.observed@[m]] == e);
                            }
                            if exists|m: int|
                                0 <= m < k + 1 && source[#[trigger] op.observed@[m]] == e {
                                let m = choose|m: int|
                                    0 <= m < k + 1 && source[#[trigger] op.observed@[m]] == e;
                                if m < k {
                                    assert(0 <= m < k && source[op.observed@[m]] == e);
                                    assert(before.contains(e));
                                }
                            }
                        }
                    }
                },
                None => {
                    assert(!source.dom().contains(op.observed@[k as int]));
                    assert(op@.observed[k as int] == op.observed@[k as int]);
                    return None;
                },
            }
            k = k + 1;
        }
        assert(prevs@ =~= prevs_of(source, op@));
        Some(prevs)
    }

    /// Brings up the next operation whose sources resolve, and the entries that it
    /// is written on top of. `None` once a whole pass has lifted nothing.
    pub fn next_attempt(&mut self) -> (prevs: Option<SortedSet<EntryHash>>)
        requires
            old(self).wf(),
        ensures
            final(self).wf(),
            final(self)@ == old(self)@.sought(),
            match prevs {
                Some(prevs) => final(self)@.ready() && prevs@ == prevs_of(
                    final(self)@.source,
                    final(self)@.parked[0],
                ),
                None => final(self)@.parked.len() == 0 && !final(self)@.progressed,
            },
    {
        proof {
            lemma_sought(self@);
        }
        loop
            invariant
                self.wf(),
                self@.sought() == old(self)@.sought(),
            decreases
                    (if self@.progressed {
                        1int
                    } else {
                        0int
                    }),
                    self@.parked.len(),
        {
            let ghost here = self@;
            if self.parked.len() == 0 {
                if !self.progressed {
                    return None;
                }
                std::mem::swap(&mut self.parked, &mut self.pending);
                self.progressed = false;
                self.deferred = SortedSet::new();
                proof {
                    let next = StoreView {
                        parked: here.pending,
                        pending: Seq::empty(),
                        progressed: false,
                        deferred: Set::empty(),
                        ..here
                    };
                    assert(records(self.pending@) =~= Seq::empty());
                    assert(self@ =~= next);
                    lemma_step_is_sound(here, next);
                }
            } else {
                assert(here.parked[0] == self.parked@[0]@);
                match self.resolve_prevs(&self.parked[0]) {
                    Some(prevs) => {
                        return Some(prevs);
                    },
                    None => {
                        let ghost (front, back) = (self.parked@, self.pending@);
                        let op: WindowOp = self.parked.remove(0);
                        self.pending.push(op);
                        proof {
                            let next = StoreView {
                                parked: here.parked.drop_first(),
                                pending: here.pending.push(here.parked[0]),
                                ..here
                            };
                            lemma_records_remove(front, 0);
                            assert(records(front).remove(0) =~= here.parked.drop_first());
                            lemma_records_push(back, op);
                            assert(self@ =~= next);
                            lemma_step_is_sound(here, next);
                        }
                    },
                }
            }
        }
    }

    /// The operation that came up.
    pub fn current(&self) -> (op: &WindowOp)
        requires
            self@.parked.len() > 0,
        ensures
            op@ == self@.parked[0],
    {
        &self.parked[0]
    }

    /// Settles the operation that came up: its entry hash, and what the graph and
    /// its ancestry summary answered. Only a lift materializes anything.
    pub fn try_lift(&mut self, entry: EntryHash, answer: FloorAnswer) -> (outcome: TryLift)
        requires
            old(self).wf(),
            old(self)@.ready(),
            old(self)@.compacting && answer is Lifted ==> answer->evicted@.len() == 0,
        ensures
            final(self).wf(),
            match answer {
                FloorAnswer::Lifted { evicted } => {
                    &&& outcome == TryLift::Lifted(entry)
                    &&& final(self)@ == old(self)@.lifted_as(entry, evicted@)
                },
                FloorAnswer::Deferred { missing } => {
                    &&& outcome == TryLift::Courier(entry)
                    &&& final(self)@ == old(self)@.deferred_as(entry, missing@)
                },
            },
    {
        let ghost here = self@;
        let ghost (front, back) = (self.parked@, self.pending@);
        let op: WindowOp = self.parked.remove(0);
        proof {
            assert(here.parked[0] == op@);
            lemma_records_remove(front, 0);
            assert(records(front).remove(0) =~= here.parked.drop_first());
        }
        match answer {
            FloorAnswer::Lifted { evicted } => {
                proof {
                    lemma_lifting_is_sound(here, entry, evicted@);
                }
                self.source_to_entry.insert(op.id, entry);
                self.entry_to_source.insert(entry, op.id);
                self.lifted.push(entry);
                self.progressed = true;
                let ghost (source, retained) = (self@.source, self@.retained);
                let ghost set = self@;
                if evicted.len() > 0 {
                    self.truncated = true;
                }
                let mut i: usize = 0;
                assert(evicted@.subrange(0, 0).len() == 0);
                while i < evicted.len()
                    invariant
                        i <= evicted@.len(),
                        (self@.source, self@.retained) == evicted_from(
                            source,
                            retained,
                            evicted@.subrange(0, i as int),
                        ),
                        self@ == (StoreView {
                            source: self@.source,
                            retained: self@.retained,
                            truncated: set.truncated || evicted@.len() > 0,
                            ..set
                        }),
                        self.journal == old(self).journal,
                    decreases evicted@.len() - i,
                {
                    proof {
                        assert(evicted@.subrange(0, i + 1).drop_last() =~= evicted@.subrange(
                            0,
                            i as int,
                        ));
                    }
                    let gone: EntryHash = evicted[i];
                    match self.entry_to_source.remove(&gone) {
                        Some(gone_id) => {
                            self.source_to_entry.remove(&gone_id);
                        },
                        None => {
                            assert(self.entry_to_source@.remove(gone) =~= self.entry_to_source@);
                        },
                    }
                    i = i + 1;
                }
                proof {
                    assert(evicted@.subrange(0, i as int) =~= evicted@);
                    assert(self@ =~= here.lifted_as(entry, evicted@));
                }
                TryLift::Lifted(entry)
            },
            FloorAnswer::Deferred { missing } => {
                proof {
                    lemma_deferral_is_sound(here, entry, missing@);
                    lemma_records_push(back, op);
                }
                self.deferred.insert(op.id);
                self.pending.push(op);
                self.courier.insert(entry, missing);
                assert(self@.courier =~= here.courier.insert(entry, missing@));
                assert(self@ =~= here.deferred_as(entry, missing@));
                TryLift::Courier(entry)
            },
        }
    }

    /// Ends a drain: what it lifted, and what waits for a courier. A candidate that
    /// was lifted in the end is no courier case.
    pub fn finish(&mut self) -> (ingest: WindowIngest)
        requires
            old(self).wf(),
        ensures
            final(self).wf(),
            final(self)@ == (StoreView {
                lifted: Seq::empty(),
                courier: Map::empty(),
                ..old(self)@
            }),
            ingest.lifted@ == old(self)@.lifted,
            candidates(ingest.courier@) == repair::without(
                collections::ascending_of(old(self)@.courier.dom()),
                old(self)@.lifted.to_set(),
            ),
            forall|k: int|
                0 <= k < ingest.courier@.len() ==> (#[trigger] ingest.courier@[k]).missing@
                    == old(self)@.courier[ingest.courier@[k].candidate],
    {
        let ghost here = self@;
        let mut lifted: Vec<EntryHash> = Vec::new();
        std::mem::swap(&mut lifted, &mut self.lifted);
        let mut waiting: SortedMap<EntryHash, SortedSet<EntryHash>> = SortedMap::new();
        std::mem::swap(&mut waiting, &mut self.courier);
        proof {
            assert(self@.courier =~= Map::<EntryHash, Set<EntryHash>>::empty());
            assert(self@.waiting() =~= here.waiting());
            assert(here.courier.dom() =~= waiting@.dom());
            assert(self@ =~= (StoreView { lifted: Seq::empty(), courier: Map::empty(), ..here }));
        }
        let courier: Vec<DeferredLift> = courier_cases(&waiting, &lifted);
        WindowIngest { lifted, courier }
    }
}

/// The candidates of a list of deferred lifts.
pub open spec fn candidates(courier: Seq<DeferredLift>) -> Seq<EntryHash> {
    courier.map_values(|case: DeferredLift| case.candidate)
}

/// The deferred lifts whose candidate was not lifted in the end.
fn courier_cases(
    waiting: &SortedMap<EntryHash, SortedSet<EntryHash>>,
    lifted: &Vec<EntryHash>,
) -> (courier: Vec<DeferredLift>)
    ensures
        candidates(courier@) == repair::without(
            collections::ascending_of(waiting@.dom()),
            lifted@.to_set(),
        ),
        forall|k: int|
            0 <= k < courier@.len() ==> waiting@.dom().contains(
                (#[trigger] courier@[k]).candidate,
            ) && courier@[k].missing@ == waiting@[courier@[k].candidate]@,
{
    let gone: SortedSet<EntryHash> = repair::set_of(lifted.as_slice());
    waiting.expose();
    let ghost keys = waiting.keys();
    proof {
        collections::lemma_ascending_of(keys);
    }
    let mut courier: Vec<DeferredLift> = Vec::new();
    let mut i: usize = 0;
    assert(keys.subrange(0, 0).len() == 0);
    assert(candidates(courier@) =~= Seq::empty());
    while i < waiting.len()
        invariant
            i <= keys.len(),
            keys == waiting.keys(),
            keys.len() == waiting@.dom().len(),
            gone@ == lifted@.to_set(),
            candidates(courier@) == repair::without(keys.subrange(0, i as int), gone@),
            forall|k: int|
                0 <= k < courier@.len() ==> waiting@.dom().contains(
                    (#[trigger] courier@[k]).candidate,
                ) && courier@[k].missing@ == waiting@[courier@[k].candidate]@,
        decreases keys.len() - i,
    {
        proof {
            assert(keys.subrange(0, i + 1).drop_last() =~= keys.subrange(0, i as int));
        }
        let candidate: EntryHash = waiting.key_at(i);
        if !gone.contains(&candidate) {
            let ghost before = courier@;
            let missing: SortedSet<EntryHash> = waiting.value_at(i).clone();
            courier.push(DeferredLift { candidate, missing });
            assert(candidates(courier@) =~= candidates(before).push(candidate));
        }
        i = i + 1;
    }
    assert(keys.subrange(0, i as int) =~= keys);
    courier
}

/// Whether a courier context is the store's own under this discard root.
pub open spec fn same_context(s: StoreView, root: Digest, context: CourierContext) -> bool {
    &&& s.compacting
    &&& context.discard_root == root
    &&& context.retained@ == collections::ascending_of(s.retained.dom())
}

/// The first parked operation from `from` on whose sources resolve and whose
/// entry hash is the candidate.
pub open spec fn candidate_at(
    s: StoreView,
    hashes: Seq<EntryHash>,
    candidate: EntryHash,
    from: int,
) -> int
    decreases s.pending.len() - from,
{
    if from >= s.pending.len() || (resolved(s.source, s.pending[from]) && hashes[from]
        == candidate) {
        from
    } else {
        candidate_at(s, hashes, candidate, from + 1)
    }
}

/// The operations of those entries that are retained, in order.
pub open spec fn observed_in(
    retained: Map<EntryHash, OpId>,
    frontier: Seq<EntryHash>,
) -> Seq<OpId>
    decreases frontier.len(),
{
    if frontier.len() == 0 {
        Seq::empty()
    } else {
        let rest = observed_in(retained, frontier.drop_last());
        if retained.dom().contains(frontier.last()) {
            rest.push(retained[frontier.last()])
        } else {
            rest
        }
    }
}

/// The operations observed at a frontier are those of its retained entries and no
/// others, once for each entry and in the order of the frontier.
pub proof fn law_frontier_is_observed(retained: Map<EntryHash, OpId>, frontier: Seq<EntryHash>)
    ensures
        forall|i: int|
            0 <= i < frontier.len() && retained.dom().contains(#[trigger] frontier[i])
                ==> observed_in(retained, frontier).contains(retained[frontier[i]]),
        forall|op: OpId| #[trigger]
            observed_in(retained, frontier).contains(op) ==> exists|i: int|
                0 <= i < frontier.len() && retained.dom().contains(#[trigger] frontier[i])
                    && retained[frontier[i]] == op,
        observed_in(retained, frontier) == frontier.filter(
            |hash: EntryHash| retained.dom().contains(hash),
        ).map_values(|hash: EntryHash| retained[hash]),
    decreases frontier.len(),
{
    let kept = |hash: EntryHash| retained.dom().contains(hash);
    let op = |hash: EntryHash| retained[hash];
    let observed = observed_in(retained, frontier);
    reveal(Seq::filter);
    assert(observed =~= frontier.filter(kept).map_values(op)) by {
        if frontier.len() > 0 {
            law_frontier_is_observed(retained, frontier.drop_last());
        }
    }
    if frontier.len() > 0 {
        let (earlier, last) = (frontier.drop_last(), frontier.last());
        let rest = observed_in(retained, earlier);
        law_frontier_is_observed(retained, earlier);
        if retained.dom().contains(last) {
            assert(observed[rest.len() as int] == retained[last]);
            assert(frontier[frontier.len() - 1] == last);
        }
        assert forall|i: int|
            0 <= i < frontier.len() && retained.dom().contains(
                #[trigger] frontier[i],
            ) implies observed.contains(retained[frontier[i]]) by {
            if i < earlier.len() {
                assert(earlier[i] == frontier[i]);
                let k = rest.index_of(retained[frontier[i]]);
                assert(observed[k] == rest[k]);
            }
        }
        assert forall|op: OpId| #[trigger] observed.contains(op) implies exists|i: int|
            0 <= i < frontier.len() && retained.dom().contains(#[trigger] frontier[i])
                && retained[frontier[i]] == op by {
            let k = observed.index_of(op);
            if k < rest.len() {
                assert(rest.contains(rest[k]));
                let i = choose|i: int|
                    0 <= i < earlier.len() && retained.dom().contains(#[trigger] earlier[i])
                        && retained[earlier[i]] == op;
                assert(frontier[i] == earlier[i]);
            }
        }
    }
}

fn copied(items: &[EntryHash]) -> (copy: Vec<EntryHash>)
    ensures
        copy@ == items@,
{
    let mut copy: Vec<EntryHash> = Vec::new();
    let mut i: usize = 0;
    while i < items.len()
        invariant
            i <= items@.len(),
            copy@ == items@.subrange(0, i as int),
        decreases items@.len() - i,
    {
        copy.push(items[i]);
        i = i + 1;
        assert(copy@ =~= items@.subrange(0, i as int));
    }
    assert(copy@ =~= items@);
    copy
}

fn same_hashes(a: &Vec<EntryHash>, b: &Vec<EntryHash>) -> (r: bool)
    ensures
        r == (a@ == b@),
{
    if a.len() != b.len() {
        return false;
    }
    let mut i: usize = 0;
    while i < a.len()
        invariant
            i <= a@.len(),
            a@.len() == b@.len(),
            forall|k: int| 0 <= k < i ==> a@[k] == b@[k],
        decreases a@.len() - i,
    {
        if !a[i].same(&b[i]) {
            assert(a@[i as int] != b@[i as int]);
            return false;
        }
        i = i + 1;
    }
    assert(a@ =~= b@);
    true
}

impl WindowedStore {
    /// The operations of a graph's frontier: the causal horizon that a new local
    /// operation records as observed.
    pub fn observed_frontier(&self, frontier: &[EntryHash]) -> (observed: Vec<OpId>)
        ensures
            observed@ == observed_in(self@.retained, frontier@),
            observed@ == frontier@.filter(
                |hash: EntryHash| self@.retained.dom().contains(hash),
            ).map_values(|hash: EntryHash| self@.retained[hash]),
    {
        let mut observed: Vec<OpId> = Vec::new();
        let mut i: usize = 0;
        assert(frontier@.subrange(0, 0).len() == 0);
        while i < frontier.len()
            invariant
                i <= frontier@.len(),
                observed@ == observed_in(self@.retained, frontier@.subrange(0, i as int)),
            decreases frontier@.len() - i,
        {
            proof {
                assert(frontier@.subrange(0, i + 1).drop_last() =~= frontier@.subrange(
                    0,
                    i as int,
                ));
            }
            match self.entry_to_source.get(&frontier[i]) {
                Some(id) => {
                    observed.push(*id);
                },
                None => {},
            }
            i = i + 1;
        }
        assert(frontier@.subrange(0, i as int) =~= frontier@);
        proof {
            law_frontier_is_observed(self@.retained, frontier@);
        }
        observed
    }

    /// What a new local operation of `author` is signed over, nothing being changed
    /// by it: the author's head, and the operations of the graph's frontier.
    pub fn prepare_commit(&self, author: AuthorId, frontier: &[EntryHash]) -> (commit:
        PreparedCommit)
        ensures
            commit.head == if self@.heads.dom().contains(author) {
                self@.heads[author]
            } else {
                LogHead { next_seq: 0, backlink: None }
            },
            commit.observed@ == observed_in(self@.retained, frontier@),
            commit.observed@ == frontier@.filter(
                |hash: EntryHash| self@.retained.dom().contains(hash),
            ).map_values(|hash: EntryHash| self@.retained[hash]),
    {
        PreparedCommit { head: self.head_of(author), observed: self.observed_frontier(frontier) }
    }

    /// Whether the retained set has outgrown the window budget.
    pub fn needs_compaction(&self) -> (r: bool)
        ensures
            r == (self@.compacting && self@.retained.dom().len() > self@.cap),
    {
        self.compacting && self.len() > self.window_cap
    }

    /// What a compaction that keeps `keep` discards, in ascending order.
    pub fn discards(&self, keep: &SortedSet<EntryHash>) -> (gone: Vec<EntryHash>)
        ensures
            gone@ == self@.discards(keep@),
            collections::strictly_ascending(gone@),
            gone@.to_set() == self@.retained.dom().difference(keep@),
            gone@.no_duplicates(),
            gone@.len() <= self@.retained.dom().len(),
    {
        let cut: SortedSet<EntryHash> = self.entry_hashes();
        let gone: SortedSet<EntryHash> = cut.difference(keep);
        gone.expose();
        cut.expose();
        proof {
            vstd::set_lib::lemma_len_subset(gone@, cut@);
        }
        copied(gone.as_slice())
    }

    /// Compacts at the current frontier. `keep` names the entries whose
    /// contribution to a later fold is not yet shadowed; everything else is
    /// discarded, and journaled with its Merkle root and the pinned discard root
    /// that folding it in left. A store that does not compact discards nothing.
    ///
    /// The bindings of discarded operations are kept.
    pub fn compact(
        &mut self,
        keep: &SortedSet<EntryHash>,
        root: Digest,
        pinned_after: Digest,
    ) -> (compaction: Compaction)
        requires
            old(self).wf(),
            old(self)@.journal.next_seq < u64::MAX,
            old(self)@.total_discarded + old(self)@.retained.dom().len() <= usize::MAX,
            old(self)@.compactions < usize::MAX,
        ensures
            final(self).wf(),
            final(self)@ == old(self)@.compacted(keep@, root, pinned_after),
            compaction.retained == final(self)@.retained.dom().len(),
            compaction.discarded == if old(self)@.compacting {
                old(self)@.discards(keep@).len()
            } else {
                0
            },
    {
        if !self.compacting {
            return Compaction { discarded: 0, retained: self.len() };
        }
        let ghost here = self@;
        let gone: Vec<EntryHash> = self.discards(keep);
        let discarded: usize = gone.len();
        let mut i: usize = 0;
        proof {
            assert(gone@.subrange(0, 0).to_set() =~= Set::<EntryHash>::empty());
            assert(self@.retained =~= here.retained.remove_keys(Set::empty()));
        }
        while i < gone.len()
            invariant
                i <= gone@.len(),
                self@ == (StoreView {
                    retained: here.retained.remove_keys(gone@.subrange(0, i as int).to_set()),
                    ..here
                }),
                self.journal == old(self).journal,
            decreases gone@.len() - i,
        {
            proof {
                collections::lemma_prefix_set(gone@, i as int);
                assert(here.retained.remove_keys(gone@.subrange(0, i + 1).to_set())
                    =~= here.retained.remove_keys(gone@.subrange(0, i as int).to_set()).remove(
                    gone@[i as int],
                ));
            }
            self.entry_to_source.remove(&gone[i]);
            i = i + 1;
        }
        assert(gone@.subrange(0, i as int) =~= gone@);
        self.total_discarded = self.total_discarded + discarded;
        self.compactions = self.compactions + 1;
        if discarded > 0 {
            self.journal.record(gone, root, pinned_after);
        }
        proof {
            let next = here.compacted(keep@, root, pinned_after);
            assert(self@ =~= next);
            assert(next.waiting() =~= here.waiting());
            assert forall|entry: EntryHash| #[trigger]
                next.retained.dom().contains(entry) implies next.source.dom().contains(
                next.retained[entry],
            ) && next.source[next.retained[entry]] == entry by {
                assert(here.retained.dom().contains(entry));
            }
        }
        Compaction { discarded, retained: self.len() }
    }

    /// How many operations were discarded over every compaction.
    pub fn total_discarded(&self) -> (count: usize)
        ensures
            count == self@.total_discarded,
    {
        self.total_discarded
    }

    /// How many compactions were made.
    pub fn compaction_count(&self) -> (count: usize)
        ensures
            count == self@.compactions,
    {
        self.compactions
    }

    /// The bounded journal of discard batches.
    pub fn discard_history(&self) -> (journal: &DiscardHistory)
        requires
            self.wf(),
        ensures
            journal@ == self@.journal,
            journal.wf(),
    {
        &self.journal
    }

    /// The retained discard batches, the oldest being the first: what a fuller peer
    /// copies to track the store's discard chain.
    pub fn discard_batches(&self) -> (batches: Vec<DiscardBatchRef<'_>>)
        ensures
            batches@.len() == self@.journal.batches.len(),
            forall|i: int|
                0 <= i < batches@.len() ==> (#[trigger] batches@[i]).seq.0
                    == self@.journal.batches[i].seq && batches@[i].entries@
                    == self@.journal.batches[i].entries,
    {
        let mut batches: Vec<DiscardBatchRef<'_>> = Vec::new();
        let mut i: usize = 0;
        while i < self.journal.batch_count()
            invariant
                i <= self@.journal.batches.len(),
                batches@.len() == i,
                forall|k: int|
                    0 <= k < batches@.len() ==> (#[trigger] batches@[k]).seq.0
                        == self@.journal.batches[k].seq && batches@[k].entries@
                        == self@.journal.batches[k].entries,
            decreases self@.journal.batches.len() - i,
        {
            batches.push(self.journal.batch(i));
            i = i + 1;
        }
        batches
    }

    /// The sequence number of the oldest retained batch, if there is one.
    pub fn oldest_discard_batch(&self) -> (seq: Option<DiscardBatchSeq>)
        ensures
            seq == if self@.journal.batches.len() == 0 {
                None
            } else {
                Some(DiscardBatchSeq(self@.journal.batches[0].seq))
            },
    {
        self.journal.oldest()
    }

    /// The sequence number that the next discarding compaction's batch gets.
    pub fn next_discard_batch(&self) -> (seq: DiscardBatchSeq)
        ensures
            seq.0 == self@.journal.next_seq,
    {
        self.journal.next_seq()
    }

    /// What proves that `member` was discarded, against the expected root: nothing
    /// where that is not the current root, where the member's batch has aged out,
    /// or where the member was never discarded.
    pub fn prove_discarded_at(
        &self,
        member: &EntryHash,
        expected_root: Digest,
        current_root: Digest,
    ) -> (path: Option<DiscardPath>)
        requires
            self.wf(),
        ensures
            path is Some <==> self@.compacting && expected_root == current_root
                && self@.journal.holds(*member),
            match path {
                Some(path) => {
                    let at = self@.journal.batch_with(*member, 0);
                    &&& 0 <= at < self@.journal.batches.len()
                    &&& path.batch@ == self@.journal.batches[at].entries
                    &&& path.pinned_before == self@.journal.pinned_before(at)
                    &&& path.later@.len() == self@.journal.batches.len() - at - 1
                    &&& forall|k: int|
                        0 <= k < path.later@.len() ==> #[trigger] path.later@[k]
                            == self@.journal.batches[at + 1 + k].root
                },
                None => true,
            },
    {
        if !self.compacting || !expected_root.same(&current_root) {
            return None;
        }
        self.journal.prove(member)
    }

    /// The horizon that a courier request must be answered against. A store that
    /// does not compact never defers to a courier and has none.
    pub fn courier_context(&self, discard_root: Digest) -> (context: Option<CourierContext>)
        ensures
            match context {
                Some(context) => same_context(self@, discard_root, context),
                None => !self@.compacting,
            },
    {
        if !self.compacting {
            return None;
        }
        let hashes: SortedSet<EntryHash> = self.entry_hashes();
        Some(CourierContext { discard_root, retained: copied(hashes.as_slice()) })
    }

    /// The place of the parked operation that a courier's answer is for, if the
    /// answer was produced against the store's current context. `hashes` are the
    /// entry hashes of the parked operations; where one's sources do not resolve
    /// its hash is not read.
    pub fn courier_candidate(
        &self,
        candidate: EntryHash,
        expected: &CourierContext,
        discard_root: Digest,
        hashes: &Vec<EntryHash>,
    ) -> (result: Result<usize, DeferredLiftError>)
        requires
            hashes@.len() == self@.pending.len(),
        ensures
            match result {
                Ok(place) => {
                    &&& same_context(self@, discard_root, *expected)
                    &&& place == candidate_at(self@, hashes@, candidate, 0)
                    &&& place < self@.pending.len()
                    &&& resolved(self@.source, self@.pending[place as int])
                    &&& hashes@[place as int] == candidate
                },
                Err(DeferredLiftError::StaleContext) => !same_context(
                    self@,
                    discard_root,
                    *expected,
                ),
                Err(DeferredLiftError::UnknownCandidate(unknown)) => {
                    &&& unknown == candidate
                    &&& same_context(self@, discard_root, *expected)
                    &&& candidate_at(self@, hashes@, candidate, 0) == self@.pending.len()
                },
                Err(DeferredLiftError::Courier(_)) => false,
            },
    {
        let current: CourierContext = match self.courier_context(discard_root) {
            Some(current) => current,
            None => {
                return Err(DeferredLiftError::StaleContext);
            },
        };
        if !current.discard_root.same(&expected.discard_root) || !same_hashes(
            &current.retained,
            &expected.retained,
        ) {
            return Err(DeferredLiftError::StaleContext);
        }
        let mut i: usize = 0;
        while i < self.pending.len()
            invariant
                i <= self.pending@.len(),
                hashes@.len() == self.pending@.len(),
                self@.pending == records(self.pending@),
                same_context(self@, discard_root, *expected),
                candidate_at(self@, hashes@, candidate, 0) == candidate_at(
                    self@,
                    hashes@,
                    candidate,
                    i as int,
                ),
            decreases self.pending@.len() - i,
        {
            assert(self@.pending[i as int] == self.pending@[i as int]@);
            if self.resolve_prevs(&self.pending[i]).is_some() && hashes[i].same(&candidate) {
                return Ok(i);
            }
            i = i + 1;
        }
        Err(DeferredLiftError::UnknownCandidate(candidate))
    }

    /// The parked operation at a place.
    pub fn pending_op(&self, place: usize) -> (op: &WindowOp)
        requires
            place < self@.pending.len(),
        ensures
            op@ == self@.pending[place as int],
    {
        &self.pending[place]
    }

    /// Takes in the parked operation that a courier's answer admitted, exactly as a
    /// local lift would have, and begins a pass over what it may have unblocked.
    pub fn lift_pending_via_courier(&mut self, place: usize, candidate: EntryHash)
        requires
            old(self).wf(),
            old(self)@.compacting,
            old(self)@.parked.len() == 0,
            place < old(self)@.pending.len(),
            resolved(old(self)@.source, old(self)@.pending[place as int]),
        ensures
            final(self).wf(),
            final(self)@ == admitted(old(self)@, place as int, candidate),
    {
        let ghost here = self@;
        let ghost ops = self.pending@;
        proof {
            lemma_admission_is_sound(here, place as int, candidate);
        }
        let op: WindowOp = self.pending.remove(place);
        proof {
            lemma_records_remove(ops, place as int);
            assert(op@ == here.pending[place as int]);
        }
        self.source_to_entry.insert(op.id, candidate);
        self.entry_to_source.insert(candidate, op.id);
        self.start();
        self.lifted.push(candidate);
        proof {
            let next = admitted(here, place as int, candidate);
            assert(self@.lifted =~= seq![candidate]);
            assert(self@.parked =~= next.parked);
            assert(self@ =~= next);
        }
    }
}

/// The store after a courier's answer admitted the parked operation at a place.
pub open spec fn admitted(s: StoreView, place: int, candidate: EntryHash) -> StoreView {
    let id = s.pending[place].id;
    StoreView {
        source: s.source.insert(id, candidate),
        retained: s.retained.insert(candidate, id),
        parked: s.pending.remove(place),
        pending: Seq::empty(),
        progressed: false,
        deferred: Set::empty(),
        lifted: seq![candidate],
        courier: Map::empty(),
        ..s
    }
}

proof fn lemma_admission_is_sound(s: StoreView, place: int, candidate: EntryHash)
    requires
        s.sound(),
        s.parked.len() == 0,
        0 <= place < s.pending.len(),
    ensures
        admitted(s, place, candidate).sound(),
{
    let next = admitted(s, place, candidate);
    let id = s.pending[place].id;
    assert(s.waiting() =~= s.pending);
    assert(next.waiting() =~= s.pending.remove(place));
    assert forall|i: int| 0 <= i < next.waiting().len() implies {
        let k = if i < place {
            i
        } else {
            i + 1
        };
        #[trigger] next.waiting()[i] == s.waiting()[k]
    } by {}
    assert forall|i: int| 0 <= i < next.waiting().len() implies !next.source.dom().contains(
        (#[trigger] next.waiting()[i]).id,
    ) by {
        let k = if i < place {
            i
        } else {
            i + 1
        };
        assert(!s.source.dom().contains(s.waiting()[k].id));
        if k < place {
            assert(s.waiting()[k].id != s.waiting()[place].id);
        } else {
            assert(s.waiting()[place].id != s.waiting()[k].id);
        }
    }
    assert forall|i: int, j: int|
        #![trigger next.waiting()[i], next.waiting()[j]]
        0 <= i < j < next.waiting().len() implies next.waiting()[i].id != next.waiting()[j].id by {
        let k = if i < place {
            i
        } else {
            i + 1
        };
        let m = if j < place {
            j
        } else {
            j + 1
        };
        assert(s.waiting()[k].id != s.waiting()[m].id);
    }
    assert forall|entry: EntryHash| #[trigger]
        next.retained.dom().contains(entry) implies next.source.dom().contains(
        next.retained[entry],
    ) && next.source[next.retained[entry]] == entry by {
        if entry != candidate {
            assert(s.retained.dom().contains(entry));
            assert(s.source.dom().contains(s.retained[entry]));
            assert(!s.source.dom().contains(s.waiting()[place].id));
        }
    }
}

/// Strict deferral is live: once a drain has ended, whatever still waits refers to
/// an operation that is not bound, or waits for a courier.
pub proof fn law_drained_stores_have_tried_everything(s: StoreView, i: int)
    requires
        s.sound(),
        s.sought().parked.len() == 0,
        0 <= i < s.sought().pending.len(),
    ensures
        !resolved(s.sought().source, s.sought().pending[i]) || s.sought().deferred.contains(
            s.sought().pending[i].id,
        ),
{
    lemma_sought(s);
    assert(s.sought().pending[i] == s.sought().pending[i]);
}

/// A compaction leaves every binding: whatever an operation referred to before, it
/// resolves to the same entries after.
pub proof fn law_compaction_keeps_references(
    s: StoreView,
    keep: Set<EntryHash>,
    root: Digest,
    pinned_after: Digest,
    op: OpRecord,
)
    ensures
        resolved(s.compacted(keep, root, pinned_after).source, op) == resolved(s.source, op),
        prevs_of(s.compacted(keep, root, pinned_after).source, op) == prevs_of(s.source, op),
{
}

/// The entry that lifts an operation is one that the store retains. A compaction
/// takes the entry of a discarded operation away and leaves every other, and the
/// operation itself is never taken in again.
pub proof fn law_lifted_entries_are_retained(
    s: StoreView,
    keep: Set<EntryHash>,
    root: Digest,
    pinned_after: Digest,
    id: OpId,
)
    ensures
        s.entry_of(id) matches Some(entry) ==> s.retained.dom().contains(entry),
        s.compacting ==> s.compacted(keep, root, pinned_after).entry_of(id) == (match s.entry_of(
            id,
        ) {
            Some(entry) if keep.contains(entry) => Some(entry),
            _ => None,
        }),
        s.seen(id) ==> s.compacted(keep, root, pinned_after).seen(id),
{
    let next = s.compacted(keep, root, pinned_after);
    assert(next.waiting() == s.waiting());
    if s.waits(id) {
        assert(next.waits(id));
    }
}

/// Compacting again to the same residue discards nothing more.
pub proof fn law_compaction_is_idempotent(
    s: StoreView,
    keep: Set<EntryHash>,
    root: Digest,
    pinned_after: Digest,
)
    requires
        s.compacting,
        s.retained.dom().finite(),
    ensures
        s.compacted(keep, root, pinned_after).discards(keep).len() == 0,
        s.compacted(keep, root, pinned_after).retained.dom() == s.retained.dom().intersect(keep),
{
    let next = s.compacted(keep, root, pinned_after);
    assert(next.retained.dom() =~= s.retained.dom().intersect(keep));
    let none = Seq::<EntryHash>::empty();
    assert(next.retained.dom().difference(keep) =~= none.to_set());
    collections::lemma_ascending_of(none);
}

/// In a compacting store a lift unbinds nothing: references that resolve stay
/// resolved.
pub proof fn law_lifting_keeps_references(s: StoreView, entry: EntryHash, op: OpRecord)
    requires
        s.sound(),
        s.ready(),
        resolved(s.source, op),
    ensures
        resolved(s.lifted_as(entry, Seq::empty()).source, op),
        prevs_of(s.lifted_as(entry, Seq::empty()).source, op) == prevs_of(s.source, op),
{
    let next = s.lifted_as(entry, Seq::empty());
    let id = s.parked[0].id;
    assert(s.waiting()[0].id == id);
    assert(next.source == s.source.insert(id, entry));
    assert forall|e: EntryHash|
        prevs_of(next.source, op).contains(e) == prevs_of(s.source, op).contains(e) by {
        if exists|k: int| 0 <= k < op.observed.len() && next.source[#[trigger] op.observed[k]] == e {
            let k = choose|k: int|
                0 <= k < op.observed.len() && next.source[#[trigger] op.observed[k]] == e;
            assert(s.source[op.observed[k]] == e);
        }
        if exists|k: int| 0 <= k < op.observed.len() && s.source[#[trigger] op.observed[k]] == e {
            let k = choose|k: int|
                0 <= k < op.observed.len() && s.source[#[trigger] op.observed[k]] == e;
            assert(next.source[op.observed[k]] == e);
        }
    }
    assert(prevs_of(next.source, op) =~= prevs_of(s.source, op));
}

/// A deferral leaves everything that is materialized as it was.
pub proof fn law_deferral_materializes_nothing(
    s: StoreView,
    entry: EntryHash,
    missing: Set<EntryHash>,
)
    ensures
        s.deferred_as(entry, missing).source == s.source,
        s.deferred_as(entry, missing).retained == s.retained,
        s.deferred_as(entry, missing).lifted == s.lifted,
        s.deferred_as(entry, missing).heads == s.heads,
{
}

/// The fence: a window that truncated without compaction answers no view, and a
/// compacting store answers however much it has discarded.
pub proof fn law_only_truncated_windows_refuse(s: StoreView)
    requires
        s.sound(),
    ensures
        s.answerable() <==> !s.truncated,
        s.complete() ==> s.answerable(),
        s.compacting ==> s.answerable(),
{
}

/// A head never regresses.
pub proof fn law_heads_never_regress(
    heads: Map<AuthorId, LogHead>,
    op: OpRecord,
    author: AuthorId,
)
    requires
        heads.dom().contains(author),
    ensures
        advanced(heads, op).dom().contains(author),
        advanced(heads, op)[author].next_seq >= heads[author].next_seq,
{
}

/// Every refusal of a courier's case says in words what was wrong.
pub proof fn law_courier_refusals_are_worded(hash: EntryHash, fault: String)
    ensures
        DeferredLiftError::StaleContext.text() == "courier context is stale; re-request"@,
        DeferredLiftError::UnknownCandidate(hash).text() == "no parked op derives candidate "@
            + ids::hex(hash@),
        DeferredLiftError::Courier(fault).text() == "courier admission failed: "@ + fault@,
{
}

} // verus!

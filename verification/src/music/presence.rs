//! Bounded realtime presence, deliberately separate from durable music history.
//!
//! A controller's held degrees are replaceable lease state. Multiple sources
//! converge by set union; releasing or expiring one source cannot silence a
//! degree still held by another. This module owns no clock, authentication,
//! transport, actor identity, or retry policy. Callers apply exact snapshots
//! and explicitly release a source when its lease expires.

use crate::collections;
use crate::collections::{Ordered, SortedSet};
use crate::music::fixed::PresenceError;
use crate::music::source::SourceKey;
use crate::music::tuning::TunedDegree;
use crate::text;
use vstd::prelude::*;

verus! {

#[derive(Clone, Copy, Debug, PartialEq, Eq, Structural)]
pub struct PresenceLimits {
    pub max_sources: usize,
    pub max_held_per_source: usize,
}

impl PresenceLimits {
    pub fn new(max_sources: usize, max_held_per_source: usize) -> (limits: Self)
        ensures
            limits.max_sources == max_sources,
            limits.max_held_per_source == max_held_per_source,
    {
        PresenceLimits { max_sources, max_held_per_source }
    }
}

impl PresenceError {
    /// The error in words.
    pub open spec fn text(self) -> Seq<char> {
        match self {
            PresenceError::SourceLimit(limit) => "presence source limit reached ("@
                + text::decimal(limit as nat) + ")"@,
            PresenceError::HeldLimit(limit) =>
                "one presence source exceeds its held-degree limit ("@ + text::decimal(
                limit as nat,
            ) + ")"@,
            PresenceError::IndexLimit(limit) => "presence index is outside the fixed domain ("@
                + text::decimal(limit as nat) + ")"@,
        }
    }

    pub fn message(&self) -> (message: String)
        ensures
            message@ == self.text(),
    {
        let (words, limit): (&str, usize) = match self {
            PresenceError::SourceLimit(limit) => ("presence source limit reached (", *limit),
            PresenceError::HeldLimit(limit) => (
                "one presence source exceeds its held-degree limit (",
                *limit,
            ),
            PresenceError::IndexLimit(limit) => (
                "presence index is outside the fixed domain (",
                *limit,
            ),
        };
        let mut out: String = text::string_of(words);
        text::push_decimal(&mut out, limit as u64);
        text::push_str(&mut out, ")");
        out
    }
}

/// The change from one set to another. What is retracted is to be silenced
/// before what is added sounds.
#[derive(Debug, PartialEq, Eq)]
pub struct PitchSetDiff<T: Ordered> {
    pub retracted: SortedSet<T>,
    pub added: SortedSet<T>,
}

impl<T: Ordered> PitchSetDiff<T> {
    /// Whether this is the change from `before` to `after`.
    pub open spec fn leads(self, before: Set<T>, after: Set<T>) -> bool {
        &&& self.retracted@ == before.difference(after)
        &&& self.added@ == after.difference(before)
    }

    pub fn between(before: &SortedSet<T>, after: &SortedSet<T>) -> (diff: Self)
        ensures
            diff.leads(before@, after@),
    {
        PitchSetDiff { retracted: before.difference(after), added: after.difference(before) }
    }

    pub fn is_empty(&self) -> (empty: bool)
        ensures
            empty == (self.retracted@ == Set::<T>::empty() && self.added@ == Set::<T>::empty()),
    {
        self.retracted.is_empty() && self.added.is_empty()
    }
}

/// The change from a set to another undoes itself: what was retracted and what
/// was added leads back.
pub proof fn law_diff_leads_from_before_to_after<T: Ordered>(
    diff: PitchSetDiff<T>,
    before: Set<T>,
    after: Set<T>,
)
    requires
        diff.leads(before, after),
    ensures
        before.difference(diff.retracted@).union(diff.added@) == after,
        after.difference(diff.added@).union(diff.retracted@) == before,
{
    assert(before.difference(diff.retracted@).union(diff.added@) =~= after);
    assert(after.difference(diff.added@).union(diff.retracted@) =~= before);
}

spec fn ids<S: SourceKey>(sources: Seq<S>) -> Seq<S::Id> {
    sources.map_values(|source: S| source.id())
}

spec fn sets(held: Seq<SortedSet<TunedDegree>>) -> Seq<Set<TunedDegree>> {
    held.map_values(|set: SortedSet<TunedDegree>| set@)
}

fn find<S: SourceKey>(sources: &Vec<S>, source: &S) -> (found: Option<usize>)
    requires
        ids(sources@).no_duplicates(),
    ensures
        match found {
            Some(i) => i < sources@.len() && ids(sources@)[i as int] == source.id(),
            None => !ids(sources@).contains(source.id()),
        },
{
    let mut i: usize = 0;
    while i < sources.len()
        invariant
            i <= sources@.len(),
            forall|j: int| 0 <= j < i ==> #[trigger] ids(sources@)[j] != source.id(),
        decreases sources@.len() - i,
    {
        assert(ids(sources@)[i as int] == sources@[i as int].id());
        if sources[i].same(source) {
            return Some(i);
        }
        i = i + 1;
    }
    None
}

/// Who holds what, within which limits.
#[verifier::reject_recursive_types(I)]
pub struct PresenceSetView<I> {
    pub limits: PresenceLimits,
    pub sources: Map<I, Set<TunedDegree>>,
}

/// Everything that some source holds.
pub open spec fn held_by_any<I>(sources: Map<I, Set<TunedDegree>>) -> Set<TunedDegree> {
    Set::new(
        |degree: TunedDegree|
            exists|id: I| #[trigger] sources.dom().contains(id) && sources[id].contains(degree),
    )
}

impl<I> PresenceSetView<I> {
    pub open spec fn live(self) -> Set<TunedDegree> {
        held_by_any(self.sources)
    }

    /// The verdict on a source that is to hold `held`.
    pub open spec fn verdict(self, id: I, held: Set<TunedDegree>) -> Result<(), PresenceError> {
        if held.len() > self.limits.max_held_per_source {
            Err(PresenceError::HeldLimit(self.limits.max_held_per_source))
        } else if held != Set::<TunedDegree>::empty() && !self.sources.dom().contains(id)
            && self.sources.dom().len() >= self.limits.max_sources {
            Err(PresenceError::SourceLimit(self.limits.max_sources))
        } else {
            Ok(())
        }
    }

    /// Who holds what once a source holds `held`. A source that holds nothing is
    /// forgotten.
    pub open spec fn replaced(self, id: I, held: Set<TunedDegree>) -> PresenceSetView<I> {
        PresenceSetView {
            limits: self.limits,
            sources: if held == Set::<TunedDegree>::empty() {
                self.sources.remove(id)
            } else {
                self.sources.insert(id, held)
            },
        }
    }
}

/// Exact, bounded held-degree state for several independently leased sources.
///
/// `S` is deliberately caller-owned: a firmware may use local adapter IDs and
/// authenticated peer identities, while a browser host may use connection IDs.
#[derive(Debug)]
pub struct PresenceSet<S: SourceKey> {
    limits: PresenceLimits,
    sources: Vec<S>,
    held: Vec<SortedSet<TunedDegree>>,
    live: SortedSet<TunedDegree>,
}

impl<S: SourceKey> View for PresenceSet<S> {
    type V = PresenceSetView<S::Id>;

    closed spec fn view(&self) -> PresenceSetView<S::Id> {
        PresenceSetView {
            limits: self.limits,
            sources: collections::paired(ids(self.sources@), sets(self.held@)),
        }
    }
}

impl<S: SourceKey> PresenceSet<S> {
    #[verifier::type_invariant]
    spec fn sound(self) -> bool {
        &&& ids(self.sources@).no_duplicates()
        &&& self.sources@.len() == self.held@.len()
        &&& self.live@ == self@.live()
    }

    pub fn new(limits: PresenceLimits) -> (presence: Self)
        ensures
            presence@ == (PresenceSetView::<S::Id> { limits, sources: Map::empty() }),
    {
        let (sources, held): (Vec<S>, Vec<SortedSet<TunedDegree>>) = (Vec::new(), Vec::new());
        let live: SortedSet<TunedDegree> = SortedSet::new();
        let ghost map = collections::paired(ids(sources@), sets(held@));
        assert(map =~= Map::<S::Id, Set<TunedDegree>>::empty());
        assert(live@ =~= held_by_any(map));
        PresenceSet { limits, sources, held, live }
    }

    pub fn limits(&self) -> (limits: PresenceLimits)
        ensures
            limits == self@.limits,
    {
        self.limits
    }

    pub fn source_count(&self) -> (count: usize)
        ensures
            count == self@.sources.dom().len(),
            self@.sources.dom().finite(),
    {
        proof {
            use_type_invariant(self);
            lemma_count(ids(self.sources@), sets(self.held@));
        }
        self.sources.len()
    }

    /// Everything that some source holds.
    pub fn live(&self) -> (live: &SortedSet<TunedDegree>)
        ensures
            live@ == self@.live(),
    {
        proof {
            use_type_invariant(self);
        }
        &self.live
    }

    fn take(&mut self) -> (whole: Self)
        ensures
            whole == *old(self),
            final(self).limits == old(self).limits,
    {
        let mut whole: PresenceSet<S> = PresenceSet::new(self.limits);
        std::mem::swap(self, &mut whole);
        whole
    }

    /// Replace one source from an exact heartbeat or snapshot.
    ///
    /// The returned diff is the change in the union across every source, not
    /// merely the source-local delta. It is therefore safe to render directly. A
    /// refusal changes nothing.
    pub fn replace(&mut self, source: S, held: SortedSet<TunedDegree>) -> (result: Result<
        PitchSetDiff<TunedDegree>,
        PresenceError,
    >)
        ensures
            match result {
                Ok(diff) => {
                    &&& old(self)@.verdict(source.id(), held@) is Ok
                    &&& final(self)@ == old(self)@.replaced(source.id(), held@)
                    &&& diff.leads(old(self)@.live(), final(self)@.live())
                },
                Err(error) => old(self)@.verdict(source.id(), held@) == Err::<(), PresenceError>(
                    error,
                ) && final(self)@ == old(self)@,
            },
    {
        proof {
            use_type_invariant(&*self);
            lemma_count(ids(self.sources@), sets(self.held@));
        }
        if held.len() > self.limits.max_held_per_source {
            return Err(PresenceError::HeldLimit(self.limits.max_held_per_source));
        }
        let found: Option<usize> = find(&self.sources, &source);
        let empty: bool = held.is_empty();
        if found.is_none() && !empty && self.sources.len() >= self.limits.max_sources {
            return Err(PresenceError::SourceLimit(self.limits.max_sources));
        }
        let ghost before = self@;
        let limits: PresenceLimits = self.limits;
        let whole: PresenceSet<S> = self.take();
        let (mut sources, mut sets_held, live_before): (
            Vec<S>,
            Vec<SortedSet<TunedDegree>>,
            SortedSet<TunedDegree>,
        ) = (whole.sources, whole.held, whole.live);
        let ghost (k, v) = (ids(sources@), sets(sets_held@));
        match found {
            Some(at) => {
                proof {
                    collections::lemma_paired_at(k, v, at as int);
                }
                if empty {
                    let _ = sources.remove(at);
                    let _ = sets_held.remove(at);
                    proof {
                        assert(ids(sources@) =~= k.remove(at as int));
                        assert(sets(sets_held@) =~= v.remove(at as int));
                        collections::lemma_paired_remove(k, v, at as int);
                        lemma_remove_unique(k, at as int);
                    }
                } else {
                    proof {
                        collections::lemma_paired_update(k, v, at as int, held@);
                    }
                    sets_held.set(at, held);
                    assert(sets(sets_held@) =~= v.update(at as int, held@));
                }
            },
            None => {
                if empty {
                    assert(before.sources.remove(source.id()) =~= before.sources);
                } else {
                    let ghost n = sources@.len() as int;
                    sources.push(source);
                    sets_held.push(held);
                    proof {
                        assert(ids(sources@) =~= k.insert(n, source.id()));
                        assert(sets(sets_held@) =~= v.insert(n, held@));
                        collections::lemma_paired_insert(k, v, n, source.id(), held@);
                    }
                }
            },
        }
        let live: SortedSet<TunedDegree> = union_of(&sets_held);
        let ghost after = PresenceSetView::<S::Id> {
            limits,
            sources: collections::paired(ids(sources@), sets(sets_held@)),
        };
        proof {
            lemma_union(ids(sources@), sets(sets_held@));
            assert(live@ =~= after.live());
        }
        let diff: PitchSetDiff<TunedDegree> = PitchSetDiff::between(&live_before, &live);
        *self = PresenceSet { limits, sources, held: sets_held, live };
        Ok(diff)
    }

    /// Releases whatever one source holds.
    pub fn release(&mut self, source: S) -> (result: Result<
        PitchSetDiff<TunedDegree>,
        PresenceError,
    >)
        ensures
            result is Ok,
            final(self)@ == old(self)@.replaced(source.id(), Set::empty()),
            result->Ok_0.leads(old(self)@.live(), final(self)@.live()),
    {
        self.replace(source, SortedSet::new())
    }

    /// Releases everything.
    pub fn clear(&mut self) -> (diff: PitchSetDiff<TunedDegree>)
        ensures
            final(self)@ == (PresenceSetView { sources: Map::empty(), ..old(self)@ }),
            diff.leads(old(self)@.live(), final(self)@.live()),
            final(self)@.live() == Set::<TunedDegree>::empty(),
    {
        proof {
            use_type_invariant(&*self);
        }
        let whole: PresenceSet<S> = self.take();
        *self = PresenceSet::new(whole.limits);
        assert(self@.live() =~= Set::<TunedDegree>::empty());
        let diff = PitchSetDiff { retracted: whole.live, added: SortedSet::new() };
        assert(diff.retracted@ =~= whole@.live().difference(self@.live()));
        assert(diff.added@ =~= self@.live().difference(whole@.live()));
        diff
    }
}

proof fn lemma_count<K>(keys: Seq<K>, values: Seq<Set<TunedDegree>>)
    requires
        keys.no_duplicates(),
    ensures
        collections::paired(keys, values).dom().finite(),
        collections::paired(keys, values).dom().len() == keys.len(),
{
    keys.unique_seq_to_set();
    assert(collections::paired(keys, values).dom() =~= keys.to_set());
}

proof fn lemma_remove_unique<K>(keys: Seq<K>, at: int)
    requires
        keys.no_duplicates(),
        0 <= at < keys.len(),
    ensures
        keys.remove(at).no_duplicates(),
{
    let after = keys.remove(at);
    assert forall|i: int, j: int| 0 <= i < after.len() && 0 <= j < after.len() && i
        != j implies after[i] != after[j] by {
        let a = if i < at {
            i
        } else {
            i + 1
        };
        let b = if j < at {
            j
        } else {
            j + 1
        };
        assert(after[i] == keys[a]);
        assert(after[j] == keys[b]);
    }
}

/// Everything in the first `n` of these sets.
spec fn union_below(held: Seq<Set<TunedDegree>>, n: nat) -> Set<TunedDegree>
    decreases n,
{
    if n == 0 {
        Set::empty()
    } else {
        union_below(held, (n - 1) as nat).union(held[n - 1])
    }
}

proof fn lemma_union_below(held: Seq<Set<TunedDegree>>, n: nat, degree: TunedDegree)
    requires
        n <= held.len(),
    ensures
        union_below(held, n).contains(degree) <==> exists|i: int|
            0 <= i < n && (#[trigger] held[i]).contains(degree),
    decreases n,
{
    if n > 0 {
        lemma_union_below(held, (n - 1) as nat, degree);
        if union_below(held, (n - 1) as nat).contains(degree) {
            let i = choose|i: int| 0 <= i < n - 1 && (#[trigger] held[i]).contains(degree);
            assert(held[i].contains(degree));
        }
        if held[n - 1].contains(degree) {
            assert(0 <= n - 1 < n);
        }
    }
}

proof fn lemma_union<K>(keys: Seq<K>, held: Seq<Set<TunedDegree>>)
    requires
        keys.no_duplicates(),
        keys.len() == held.len(),
    ensures
        union_below(held, held.len()) == held_by_any(collections::paired(keys, held)),
{
    let map = collections::paired(keys, held);
    let all = union_below(held, held.len());
    assert forall|degree: TunedDegree|
        all.contains(degree) == held_by_any(map).contains(degree) by {
        lemma_union_below(held, held.len(), degree);
        if all.contains(degree) {
            let i = choose|i: int| 0 <= i < held.len() && (#[trigger] held[i]).contains(degree);
            collections::lemma_paired_at(keys, held, i);
            assert(map.dom().contains(keys[i]) && map[keys[i]].contains(degree));
        }
        if held_by_any(map).contains(degree) {
            let id = choose|id: K| #[trigger] map.dom().contains(id) && map[id].contains(degree);
            let i = keys.index_of(id);
            assert(held[i].contains(degree));
        }
    }
    assert(all =~= held_by_any(map));
}

fn union_of(held: &Vec<SortedSet<TunedDegree>>) -> (union: SortedSet<TunedDegree>)
    ensures
        union@ == union_below(sets(held@), held@.len()),
{
    let mut union: SortedSet<TunedDegree> = SortedSet::new();
    let mut i: usize = 0;
    while i < held.len()
        invariant
            i <= held@.len(),
            union@ == union_below(sets(held@), i as nat),
        decreases held@.len() - i,
    {
        assert(sets(held@)[i as int] == held@[i as int]@);
        union.extend(&held[i]);
        i = i + 1;
    }
    union
}

/// What came of a snapshot.
#[derive(Debug, PartialEq, Eq)]
pub enum PresenceApply {
    Stale,
    Applied(PitchSetDiff<TunedDegree>),
}

/// Who holds what, and the last revision of each source.
#[verifier::reject_recursive_types(I)]
pub struct RegistersView<I> {
    pub revisions: Map<I, u64>,
    pub presence: PresenceSetView<I>,
}

impl<I> RegistersView<I> {
    /// Whether a snapshot is not newer than what is known of its source.
    pub open spec fn stale(self, id: I, revision: u64) -> bool {
        self.revisions.dom().contains(id) && revision <= self.revisions[id]
    }
}

/// Monotonic exact-state register per authenticated source.
///
/// Revisions are meaningful only inside the caller's source epoch (normally an
/// authenticated transport session). [`Self::reset_source`] starts a new epoch.
/// Expiry releases sound but deliberately retains the revision fence, so a
/// delayed old snapshot cannot resurrect a note after fail-safe cleanup.
#[derive(Debug)]
pub struct PresenceRegisters<S: SourceKey> {
    sources: Vec<S>,
    revisions: Vec<u64>,
    presence: PresenceSet<S>,
}

impl<S: SourceKey> View for PresenceRegisters<S> {
    type V = RegistersView<S::Id>;

    closed spec fn view(&self) -> RegistersView<S::Id> {
        RegistersView {
            revisions: collections::paired(ids(self.sources@), self.revisions@),
            presence: self.presence@,
        }
    }
}

impl<S: SourceKey> PresenceRegisters<S> {
    #[verifier::type_invariant]
    spec fn sound(self) -> bool {
        &&& ids(self.sources@).no_duplicates()
        &&& self.sources@.len() == self.revisions@.len()
    }

    pub fn new(limits: PresenceLimits) -> (registers: Self)
        ensures
            registers@.revisions == Map::<S::Id, u64>::empty(),
            registers@.presence == (PresenceSetView::<S::Id> { limits, sources: Map::empty() }),
    {
        let registers = PresenceRegisters {
            sources: Vec::new(),
            revisions: Vec::new(),
            presence: PresenceSet::new(limits),
        };
        assert(registers@.revisions =~= Map::<S::Id, u64>::empty());
        registers
    }

    /// Everything that some source holds.
    pub fn live(&self) -> (live: &SortedSet<TunedDegree>)
        ensures
            live@ == self@.presence.live(),
    {
        self.presence.live()
    }

    fn take(&mut self) -> (whole: Self)
        ensures
            whole == *old(self),
    {
        let mut whole: PresenceRegisters<S> = PresenceRegisters::new(self.presence.limits());
        std::mem::swap(self, &mut whole);
        whole
    }

    /// Applies a snapshot of one source, unless it is stale or exceeds a limit,
    /// in which case nothing changes.
    pub fn apply(&mut self, source: S, revision: u64, held: SortedSet<TunedDegree>) -> (result:
        Result<PresenceApply, PresenceError>)
        ensures
            ({
                let stale = old(self)@.stale(source.id(), revision);
                let verdict = old(self)@.presence.verdict(source.id(), held@);
                match result {
                    Ok(PresenceApply::Stale) => stale && final(self)@ == old(self)@,
                    Ok(PresenceApply::Applied(diff)) => {
                        &&& !stale
                        &&& verdict is Ok
                        &&& final(self)@.presence == old(self)@.presence.replaced(
                            source.id(),
                            held@,
                        )
                        &&& final(self)@.revisions == old(self)@.revisions.insert(
                            source.id(),
                            revision,
                        )
                        &&& diff.leads(old(self)@.presence.live(), final(self)@.presence.live())
                    },
                    Err(error) => {
                        &&& !stale
                        &&& verdict == Err::<(), PresenceError>(error)
                        &&& final(self)@ == old(self)@
                    },
                }
            }),
    {
        proof {
            use_type_invariant(&*self);
        }
        let found: Option<usize> = find(&self.sources, &source);
        if let Some(at) = found {
            proof {
                collections::lemma_paired_at(ids(self.sources@), self.revisions@, at as int);
            }
            if revision <= self.revisions[at] {
                return Ok(PresenceApply::Stale);
            }
        }
        let whole: PresenceRegisters<S> = self.take();
        let (mut sources, mut revisions, mut presence): (Vec<S>, Vec<u64>, PresenceSet<S>) = (
            whole.sources,
            whole.revisions,
            whole.presence,
        );
        let ghost (k, v) = (ids(sources@), revisions@);
        match presence.replace(source.copied(), held) {
            Ok(diff) => {
                match found {
                    Some(at) => {
                        proof {
                            collections::lemma_paired_update(k, v, at as int, revision);
                        }
                        revisions.set(at, revision);
                    },
                    None => {
                        let ghost n = sources@.len() as int;
                        sources.push(source);
                        revisions.push(revision);
                        proof {
                            assert(ids(sources@) =~= k.insert(n, source.id()));
                            assert(revisions@ =~= v.insert(n, revision));
                            collections::lemma_paired_insert(k, v, n, source.id(), revision);
                        }
                    },
                }
                *self = PresenceRegisters { sources, revisions, presence };
                Ok(PresenceApply::Applied(diff))
            },
            Err(error) => {
                *self = PresenceRegisters { sources, revisions, presence };
                Err(error)
            },
        }
    }

    /// Releases what a source holds and keeps its revision.
    pub fn expire(&mut self, source: S) -> (result: Result<
        PitchSetDiff<TunedDegree>,
        PresenceError,
    >)
        ensures
            result is Ok,
            final(self)@ == (RegistersView {
                presence: old(self)@.presence.replaced(source.id(), Set::empty()),
                ..old(self)@
            }),
            result->Ok_0.leads(old(self)@.presence.live(), final(self)@.presence.live()),
    {
        proof {
            use_type_invariant(&*self);
        }
        let whole: PresenceRegisters<S> = self.take();
        let mut presence: PresenceSet<S> = whole.presence;
        let result = presence.release(source);
        *self =
        PresenceRegisters { sources: whole.sources, revisions: whole.revisions, presence };
        result
    }

    /// Forgets a source, with its revision.
    pub fn reset_source(&mut self, source: S) -> (result: Result<
        PitchSetDiff<TunedDegree>,
        PresenceError,
    >)
        ensures
            result is Ok,
            final(self)@ == (RegistersView {
                revisions: old(self)@.revisions.remove(source.id()),
                presence: old(self)@.presence.replaced(source.id(), Set::empty()),
            }),
            result->Ok_0.leads(old(self)@.presence.live(), final(self)@.presence.live()),
    {
        proof {
            use_type_invariant(&*self);
        }
        let found: Option<usize> = find(&self.sources, &source);
        let whole: PresenceRegisters<S> = self.take();
        let (mut sources, mut revisions, mut presence): (Vec<S>, Vec<u64>, PresenceSet<S>) = (
            whole.sources,
            whole.revisions,
            whole.presence,
        );
        let ghost (k, v) = (ids(sources@), revisions@);
        match found {
            Some(at) => {
                let _ = sources.remove(at);
                let _ = revisions.remove(at);
                proof {
                    assert(ids(sources@) =~= k.remove(at as int));
                    collections::lemma_paired_remove(k, v, at as int);
                    lemma_remove_unique(k, at as int);
                }
            },
            None => {
                let ghost map = collections::paired(k, v);
                assert(map.remove(source.id()) =~= map);
            },
        }
        let result = presence.release(source);
        *self = PresenceRegisters { sources, revisions, presence };
        result
    }
}

/// A degree that another source still holds survives the release of one.
pub proof fn law_shared_degree_survives_release<I>(
    presence: PresenceSetView<I>,
    released: I,
    other: I,
    degree: TunedDegree,
)
    requires
        presence.sources.dom().contains(other),
        other != released,
        presence.sources[other].contains(degree),
    ensures
        presence.replaced(released, Set::empty()).live().contains(degree),
{
    assert(presence.replaced(released, Set::empty()).sources.dom().contains(other));
}

/// A degree is silenced when its last holder lets go of it.
pub proof fn law_last_release_silences<I>(
    presence: PresenceSetView<I>,
    released: I,
    degree: TunedDegree,
)
    requires
        forall|id: I| #[trigger]
            presence.sources.dom().contains(id) && id != released
                ==> !presence.sources[id].contains(degree),
    ensures
        !presence.replaced(released, Set::empty()).live().contains(degree),
{
}

/// After expiry the revision fence stands, until the source is reset: a delayed
/// old snapshot cannot bring a note back.
pub proof fn law_expiry_keeps_the_fence<I>(registers: RegistersView<I>, id: I, revision: u64)
    requires
        registers.stale(id, revision),
    ensures
        (RegistersView {
            presence: registers.presence.replaced(id, Set::empty()),
            ..registers
        }).stale(id, revision),
        !(RegistersView {
            revisions: registers.revisions.remove(id),
            presence: registers.presence.replaced(id, Set::empty()),
        }).stale(id, revision),
{
}

/// What sounds is what some source holds.
pub proof fn law_live_is_what_a_source_holds<I>(presence: PresenceSetView<I>, degree: TunedDegree)
    ensures
        presence.live().contains(degree) <==> exists|id: I| #[trigger]
            presence.sources.dom().contains(id) && presence.sources[id].contains(degree),
{
}

/// A change retracts what sounded and no longer does, and adds what did not sound and
/// now does.
pub proof fn law_changes_name_what_changed<T: Ordered>(
    diff: PitchSetDiff<T>,
    before: Set<T>,
    after: Set<T>,
    item: T,
)
    requires
        diff.leads(before, after),
    ensures
        diff.retracted@.contains(item) <==> before.contains(item) && !after.contains(item),
        diff.added@.contains(item) <==> after.contains(item) && !before.contains(item),
{
}

/// A snapshot is refused where it holds more degrees than a source may, and else
/// where it holds some, its source is new and there are as many sources as there may
/// be. The refusal names the limit.
pub proof fn law_presence_limits_are_kept<I>(
    presence: PresenceSetView<I>,
    id: I,
    held: Set<TunedDegree>,
)
    ensures
        presence.verdict(id, held) is Ok <==> held.len() <= presence.limits.max_held_per_source && (
        held == Set::<TunedDegree>::empty() || presence.sources.dom().contains(id)
            || presence.sources.dom().len() < presence.limits.max_sources),
        presence.verdict(id, held) is Err ==> presence.verdict(id, held)->Err_0 == if held.len()
            > presence.limits.max_held_per_source {
            PresenceError::HeldLimit(presence.limits.max_held_per_source)
        } else {
            PresenceError::SourceLimit(presence.limits.max_sources)
        },
{
}

/// A snapshot takes the place of what its source held before and of nothing else. A
/// source that holds nothing is forgotten.
pub proof fn law_a_snapshot_replaces_its_source<I>(
    presence: PresenceSetView<I>,
    id: I,
    held: Set<TunedDegree>,
    other: I,
)
    ensures
        presence.replaced(id, held).limits == presence.limits,
        presence.replaced(id, held).sources.dom().contains(id) <==> exists|degree: TunedDegree|
            held.contains(degree),
        presence.replaced(id, held).sources.dom().contains(id) ==> presence.replaced(
            id,
            held,
        ).sources[id] == held,
        other != id ==> {
            &&& presence.replaced(id, held).sources.dom().contains(other)
                == presence.sources.dom().contains(other)
            &&& presence.sources.dom().contains(other) ==> presence.replaced(
                id,
                held,
            ).sources[other] == presence.sources[other]
        },
{
    if held != Set::<TunedDegree>::empty() {
        if forall|degree: TunedDegree| !held.contains(degree) {
            assert(held =~= Set::<TunedDegree>::empty());
        }
    }
}

/// A snapshot is stale exactly where its source is known by a revision that is as
/// new.
pub proof fn law_only_newer_revisions_apply<I>(registers: RegistersView<I>, id: I, revision: u64)
    ensures
        !registers.revisions.dom().contains(id) ==> !registers.stale(id, revision),
        registers.revisions.dom().contains(id) ==> (registers.stale(id, revision) <==> revision
            <= registers.revisions[id]),
{
}

/// A refusal says which limit was reached, and the limit.
pub proof fn law_presence_errors_name_the_limit(limit: usize)
    ensures
        PresenceError::SourceLimit(limit).text() == "presence source limit reached ("@
            + text::decimal(limit as nat) + ")"@,
        PresenceError::HeldLimit(limit).text()
            == "one presence source exceeds its held-degree limit ("@ + text::decimal(limit as nat)
            + ")"@,
        PresenceError::IndexLimit(limit).text() == "presence index is outside the fixed domain ("@
            + text::decimal(limit as nat) + ")"@,
{
}

} // verus!

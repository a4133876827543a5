//! The causal history: entries, each with the entries it was written on top of.

use crate::replica::ids::EntryHash;
use vstd::prelude::*;

verus! {

/// Why an entry cannot follow a history.
#[derive(Debug, Clone, Copy, PartialEq, Eq)]
pub enum HistoryError {
    /// The history holds the entry already.
    Duplicate,
    /// A parent of the entry is not in the history.
    MissingParent(EntryHash),
}

/// Entries in an order in which every entry stands after its parents.
#[derive(Debug)]
pub struct History {
    hashes: Vec<EntryHash>,
    parents: Vec<Vec<usize>>,
}

/// The entries of a history in order, and for each the places of its parents.
#[verifier::ext_equal]
pub struct HistoryView {
    pub hashes: Seq<EntryHash>,
    pub parents: Seq<Seq<int>>,
}

/// Whether the entry at `a` is in the past of the entry at `b`: a parent of it,
/// or in the past of one.
pub open spec fn reaches(parents: Seq<Seq<int>>, a: int, b: int) -> bool
    decreases b,
{
    &&& 0 <= b < parents.len()
    &&& exists|k: int|
        {
            &&& 0 <= k < parents[b].len()
            &&& 0 <= #[trigger] parents[b][k] < b
            &&& (parents[b][k] == a || reaches(parents, a, parents[b][k]))
        }
}

/// Every parent stands before its child.
pub open spec fn topological(parents: Seq<Seq<int>>) -> bool {
    forall|b: int, k: int|
        0 <= b < parents.len() && 0 <= k < parents[b].len() ==> 0 <= #[trigger] parents[b][k] < b
}

impl HistoryView {
    pub open spec fn sound(self) -> bool {
        &&& self.hashes.len() == self.parents.len()
        &&& self.hashes.no_duplicates()
        &&& topological(self.parents)
    }

    pub open spec fn contains(self, hash: EntryHash) -> bool {
        self.hashes.contains(hash)
    }

    /// Whether entry `a` is in the past of entry `b`.
    pub open spec fn past(self, a: EntryHash, b: EntryHash) -> bool {
        &&& self.hashes.contains(a)
        &&& self.hashes.contains(b)
        &&& reaches(self.parents, self.hashes.index_of(a), self.hashes.index_of(b))
    }

    /// [`Self::past`] as a relation.
    pub open spec fn past_of(self) -> spec_fn(EntryHash, EntryHash) -> bool {
        |a: EntryHash, b: EntryHash| self.past(a, b)
    }

    /// The history with one entry more, written on top of `parents`.
    pub open spec fn followed_by(self, hash: EntryHash, parents: Seq<EntryHash>) -> HistoryView {
        HistoryView {
            hashes: self.hashes.push(hash),
            parents: self.parents.push(
                Seq::new(parents.len(), |k: int| self.hashes.index_of(parents[k])),
            ),
        }
    }
}

impl View for History {
    type V = HistoryView;

    closed spec fn view(&self) -> HistoryView {
        HistoryView {
            hashes: self.hashes@,
            parents: self.parents@.map_values(
                |places: Vec<usize>| places@.map_values(|place: usize| place as int),
            ),
        }
    }
}

/// The past goes back in time.
proof fn lemma_reaches_back(parents: Seq<Seq<int>>, a: int, b: int)
    requires
        reaches(parents, a, b),
    ensures
        0 <= a < b < parents.len(),
    decreases b,
{
    let k = choose|k: int|
        {
            &&& 0 <= k < parents[b].len()
            &&& 0 <= #[trigger] parents[b][k] < b
            &&& (parents[b][k] == a || reaches(parents, a, parents[b][k]))
        };
    if parents[b][k] != a {
        lemma_reaches_back(parents, a, parents[b][k]);
    }
}

proof fn lemma_reaches_transitive(parents: Seq<Seq<int>>, a: int, b: int, c: int)
    requires
        reaches(parents, a, b),
        reaches(parents, b, c),
    ensures
        reaches(parents, a, c),
    decreases c,
{
    let k = choose|k: int|
        {
            &&& 0 <= k < parents[c].len()
            &&& 0 <= #[trigger] parents[c][k] < c
            &&& (parents[c][k] == b || reaches(parents, b, parents[c][k]))
        };
    if parents[c][k] != b {
        lemma_reaches_transitive(parents, a, b, parents[c][k]);
    }
    assert(0 <= parents[c][k] < c);
}

/// What follows does not change the past of what was there.
proof fn lemma_reaches_in_prefix(parents: Seq<Seq<int>>, more: Seq<Seq<int>>, a: int, b: int)
    requires
        parents.len() <= more.len(),
        forall|i: int| 0 <= i < parents.len() ==> #[trigger] parents[i] == more[i],
        0 <= b < parents.len(),
    ensures
        reaches(parents, a, b) == reaches(more, a, b),
    decreases b,
{
    assert(parents[b] == more[b]);
    assert forall|k: int| 0 <= k < parents[b].len() && 0 <= #[trigger] parents[b][k] < b implies (
    reaches(parents, a, parents[b][k]) == reaches(more, a, parents[b][k])) by {
        lemma_reaches_in_prefix(parents, more, a, parents[b][k]);
    }
    if reaches(parents, a, b) {
        let k = choose|k: int|
            {
                &&& 0 <= k < parents[b].len()
                &&& 0 <= #[trigger] parents[b][k] < b
                &&& (parents[b][k] == a || reaches(parents, a, parents[b][k]))
            };
        assert(0 <= more[b][k] < b);
    }
    if reaches(more, a, b) {
        let k = choose|k: int|
            {
                &&& 0 <= k < more[b].len()
                &&& 0 <= #[trigger] more[b][k] < b
                &&& (more[b][k] == a || reaches(more, a, more[b][k]))
            };
        assert(0 <= parents[b][k] < b);
    }
}

/// No entry is in its own past.
pub proof fn law_nothing_precedes_itself(history: HistoryView, a: EntryHash)
    ensures
        !history.past(a, a),
{
    if history.past(a, a) {
        let i = history.hashes.index_of(a);
        lemma_reaches_back(history.parents, i, i);
    }
}

/// The past of the past is past.
pub proof fn law_the_past_is_transitive(
    history: HistoryView,
    a: EntryHash,
    b: EntryHash,
    c: EntryHash,
)
    requires
        history.past(a, b),
        history.past(b, c),
    ensures
        history.past(a, c),
{
    lemma_reaches_transitive(
        history.parents,
        history.hashes.index_of(a),
        history.hashes.index_of(b),
        history.hashes.index_of(c),
    );
}

/// In the order of a history no entry stands before one of its past.
pub proof fn law_history_is_ordered(history: HistoryView, i: int, j: int)
    requires
        history.sound(),
        0 <= i <= j < history.hashes.len(),
    ensures
        !history.past(history.hashes[j], history.hashes[i]),
{
    let (a, b) = (history.hashes[j], history.hashes[i]);
    if history.past(a, b) {
        assert(history.hashes.index_of(a) == j);
        assert(history.hashes.index_of(b) == i);
        lemma_reaches_back(history.parents, j, i);
    }
}

/// An entry that follows a history leaves the past of every earlier entry as it
/// was, and is itself in the past of none of them.
pub proof fn law_following_keeps_the_past(
    history: HistoryView,
    hash: EntryHash,
    parents: Seq<EntryHash>,
    a: EntryHash,
    b: EntryHash,
)
    requires
        history.sound(),
        !history.contains(hash),
        history.contains(b),
    ensures
        history.followed_by(hash, parents).past(a, b) == history.past(a, b),
        !history.followed_by(hash, parents).past(hash, b),
{
    let next = history.followed_by(hash, parents);
    let j = history.hashes.index_of(b);
    assert(next.hashes[j] == b);
    assert(next.hashes.no_duplicates()) by {
        assert forall|m: int, n: int|
            0 <= m < next.hashes.len() && 0 <= n < next.hashes.len() && m != n implies next.hashes[m]
            != next.hashes[n] by {
            if m < history.hashes.len() && n == history.hashes.len() {
                assert(history.hashes.contains(history.hashes[m]));
            }
            if n < history.hashes.len() && m == history.hashes.len() {
                assert(history.hashes.contains(history.hashes[n]));
            }
        }
    }
    assert(next.hashes.index_of(b) == j);
    let last = history.hashes.len() as int;
    assert(next.hashes[last] == hash);
    assert(next.hashes.index_of(hash) == last);
    if next.past(hash, b) {
        lemma_reaches_back(next.parents, last, j);
    }
    if history.contains(a) {
        let i = history.hashes.index_of(a);
        assert(next.hashes[i] == a);
        assert(next.hashes.index_of(a) == i);
        lemma_reaches_in_prefix(history.parents, next.parents, i, j);
    } else if next.contains(a) {
        let i = next.hashes.index_of(a);
        if i < last {
            assert(history.hashes[i] == a);
        }
        assert(a == hash);
    }
}

/// Whether a history is what another begins with.
pub open spec fn extends(before: HistoryView, after: HistoryView) -> bool {
    &&& before.sound()
    &&& after.sound()
    &&& before.hashes.is_prefix_of(after.hashes)
    &&& before.parents.is_prefix_of(after.parents)
}

/// However far a history grows, the past of its earlier entries stays.
pub proof fn law_growing_keeps_the_past(
    before: HistoryView,
    after: HistoryView,
    a: EntryHash,
    b: EntryHash,
)
    requires
        extends(before, after),
        before.contains(a),
        before.contains(b),
    ensures
        before.past(a, b) == after.past(a, b),
{
    let (i, j) = (before.hashes.index_of(a), before.hashes.index_of(b));
    assert(after.hashes[i] == a);
    assert(after.hashes[j] == b);
    assert(after.hashes.index_of(a) == i);
    assert(after.hashes.index_of(b) == j);
    assert forall|k: int| 0 <= k < before.parents.len() implies #[trigger] before.parents[k]
        == after.parents[k] by {}
    lemma_reaches_in_prefix(before.parents, after.parents, i, j);
}

/// Whether two histories hold the same entries, each on top of the same ones.
pub open spec fn same_entries(a: HistoryView, b: HistoryView) -> bool {
    &&& a.sound()
    &&& b.sound()
    &&& forall|hash: EntryHash| #[trigger] a.contains(hash) == b.contains(hash)
    &&& forall|hash: EntryHash, parent: EntryHash|
        a.contains(hash) ==> (#[trigger] is_parent(a, parent, hash) == is_parent(b, parent, hash))
}

/// Whether an entry is written on top of another.
pub open spec fn is_parent(history: HistoryView, parent: EntryHash, hash: EntryHash) -> bool {
    let places = history.parents[history.hashes.index_of(hash)];
    exists|k: int|
        0 <= k < places.len() && history.hashes[#[trigger] places[k]] == parent
}

proof fn lemma_past_carries_over(a: HistoryView, b: HistoryView, i: int, j: int)
    requires
        same_entries(a, b),
        0 <= i < a.hashes.len(),
        0 <= j < a.hashes.len(),
        reaches(a.parents, i, j),
    ensures
        b.past(a.hashes[i], a.hashes[j]),
    decreases j,
{
    let (x, y) = (a.hashes[i], a.hashes[j]);
    let k = choose|k: int|
        {
            &&& 0 <= k < a.parents[j].len()
            &&& 0 <= #[trigger] a.parents[j][k] < j
            &&& (a.parents[j][k] == i || reaches(a.parents, i, a.parents[j][k]))
        };
    let m = a.parents[j][k];
    let parent = a.hashes[m];
    assert(a.contains(x) && a.contains(y) && a.contains(parent));
    assert(b.contains(x) && b.contains(y) && b.contains(parent));
    assert(a.hashes.index_of(y) == j);
    assert(is_parent(a, parent, y));
    assert(is_parent(b, parent, y));
    let n = b.hashes.index_of(y);
    let places = b.parents[n];
    let q = choose|q: int| 0 <= q < places.len() && b.hashes[#[trigger] places[q]] == parent;
    assert(0 <= b.parents[n][q] < n);
    assert(b.hashes.index_of(parent) == places[q]);
    if m == i {
        assert(reaches(b.parents, places[q], n));
    } else {
        lemma_past_carries_over(a, b, i, m);
        assert(reaches(b.parents, b.hashes.index_of(x), places[q]));
        assert(reaches(b.parents, b.hashes.index_of(x), n));
    }
}

/// The past of an entry depends on what it was written on top of, and not on the
/// order in which a replica came to hold it.
pub proof fn law_the_past_is_shared(
    a: HistoryView,
    b: HistoryView,
    x: EntryHash,
    y: EntryHash,
)
    requires
        same_entries(a, b),
    ensures
        a.past(x, y) == b.past(x, y),
{
    assert(same_entries(b, a)) by {
        assert forall|hash: EntryHash, parent: EntryHash|
            b.contains(hash) implies #[trigger] is_parent(b, parent, hash) == is_parent(
            a,
            parent,
            hash,
        ) by {
            assert(a.contains(hash));
            assert(is_parent(a, parent, hash) == is_parent(b, parent, hash));
        }
        assert forall|hash: EntryHash| #[trigger] b.contains(hash) == a.contains(hash) by {
            assert(a.contains(hash) == b.contains(hash));
        }
    }
    if a.past(x, y) {
        lemma_past_carries_over(a, b, a.hashes.index_of(x), a.hashes.index_of(y));
    }
    if b.past(x, y) {
        lemma_past_carries_over(b, a, b.hashes.index_of(x), b.hashes.index_of(y));
    }
}

/// A parent is in the past of the entry that was written on top of it.
pub proof fn law_parents_are_past(
    history: HistoryView,
    hash: EntryHash,
    parents: Seq<EntryHash>,
    k: int,
)
    requires
        history.sound(),
        !history.contains(hash),
        0 <= k < parents.len(),
        history.contains(parents[k]),
    ensures
        history.followed_by(hash, parents).past(parents[k], hash),
{
    let next = history.followed_by(hash, parents);
    let last = history.hashes.len() as int;
    let i = history.hashes.index_of(parents[k]);
    assert(next.hashes[last] == hash);
    assert(next.hashes[i] == parents[k]);
    assert(next.hashes.index_of(hash) == last) by {
        let m = next.hashes.index_of(hash);
        if m < last {
            assert(history.hashes[m] == hash);
        }
    }
    assert(next.hashes.index_of(parents[k]) == i) by {
        let m = next.hashes.index_of(parents[k]);
        if m < last {
            assert(history.hashes[m] == parents[k]);
        }
    }
    assert(next.parents[last][k] == i);
    assert(reaches(next.parents, i, last));
}

impl History {
    #[verifier::type_invariant]
    spec fn kept(self) -> bool {
        self@.sound()
    }

    pub fn new() -> (history: Self)
        ensures
            history@.hashes == Seq::<EntryHash>::empty(),
            history@.parents == Seq::<Seq<int>>::empty(),
    {
        let history = History { hashes: Vec::new(), parents: Vec::new() };
        history
    }

    /// What holds of every history.
    pub fn expose(&self)
        ensures
            self@.sound(),
    {
        proof {
            use_type_invariant(self);
        }
    }

    pub fn len(&self) -> (len: usize)
        ensures
            len == self@.hashes.len(),
    {
        self.hashes.len()
    }

    pub fn is_empty(&self) -> (empty: bool)
        ensures
            empty == (self@.hashes.len() == 0),
    {
        self.hashes.len() == 0
    }

    pub fn hash_at(&self, i: usize) -> (hash: EntryHash)
        requires
            i < self@.hashes.len(),
        ensures
            hash == self@.hashes[i as int],
    {
        self.hashes[i]
    }

    fn place(&self, hash: &EntryHash) -> (place: Option<usize>)
        ensures
            match place {
                Some(i) => {
                    &&& self@.contains(*hash)
                    &&& i == self@.hashes.index_of(*hash)
                    &&& i < self@.hashes.len()
                },
                None => !self@.contains(*hash),
            },
    {
        proof {
            use_type_invariant(self);
        }
        let mut i: usize = 0;
        while i < self.hashes.len()
            invariant
                i <= self.hashes@.len(),
                self@.hashes == self.hashes@,
                self@.sound(),
                forall|k: int| 0 <= k < i ==> self.hashes@[k] != *hash,
            decreases self.hashes@.len() - i,
        {
            if self.hashes[i].same(hash) {
                assert(self@.hashes[i as int] == *hash);
                return Some(i);
            }
            i = i + 1;
        }
        None
    }

    pub fn contains(&self, hash: &EntryHash) -> (r: bool)
        ensures
            r == self@.contains(*hash),
    {
        self.place(hash).is_some()
    }

    /// Appends an entry that was written on top of entries of this history.
    pub fn append(&mut self, hash: EntryHash, parents: &[EntryHash]) -> (result: Result<
        (),
        HistoryError,
    >)
        ensures
            match result {
                Ok(_) => {
                    &&& !old(self)@.contains(hash)
                    &&& forall|k: int|
                        0 <= k < parents@.len() ==> old(self)@.contains(#[trigger] parents@[k])
                    &&& final(self)@ == old(self)@.followed_by(hash, parents@)
                },
                Err(HistoryError::Duplicate) => {
                    &&& old(self)@.contains(hash)
                    &&& final(self)@ == old(self)@
                },
                Err(HistoryError::MissingParent(missing)) => {
                    &&& !old(self)@.contains(hash)
                    &&& exists|k: int|
                        {
                            &&& 0 <= k < parents@.len()
                            &&& #[trigger] parents@[k] == missing
                            &&& !old(self)@.contains(missing)
                            &&& forall|m: int|
                                0 <= m < k ==> old(self)@.contains(#[trigger] parents@[m])
                        }
                    &&& final(self)@ == old(self)@
                },
            },
    {
        if self.contains(&hash) {
            return Err(HistoryError::Duplicate);
        }
        let mut places: Vec<usize> = Vec::new();
        let mut k: usize = 0;
        while k < parents.len()
            invariant
                k <= parents@.len(),
                self@ == old(self)@,
                !old(self)@.contains(hash),
                places@.len() == k,
                forall|m: int|
                    0 <= m < k ==> {
                        &&& self@.contains(#[trigger] parents@[m])
                        &&& places@[m] == self@.hashes.index_of(parents@[m])
                        &&& places@[m] < self@.hashes.len()
                    },
            decreases parents@.len() - k,
        {
            match self.place(&parents[k]) {
                Some(place) => {
                    let ghost earlier = places@;
                    places.push(place);
                    assert forall|m: int| 0 <= m < k + 1 implies {
                        &&& self@.contains(#[trigger] parents@[m])
                        &&& places@[m] == self@.hashes.index_of(parents@[m])
                        &&& places@[m] < self@.hashes.len()
                    } by {
                        if m < k {
                            assert(places@[m] == earlier[m]);
                        }
                    }
                },
                None => {
                    assert(parents@[k as int] == parents[k as int]);
                    return Err(HistoryError::MissingParent(parents[k]));
                },
            }
            k = k + 1;
        }
        proof {
            use_type_invariant(&*self);
        }
        let mut held = History { hashes: Vec::new(), parents: Vec::new() };
        std::mem::swap(self, &mut held);
        proof {
            use_type_invariant(&held);
        }
        let ghost before = held@;
        let mut hashes: Vec<EntryHash> = held.hashes;
        let mut all: Vec<Vec<usize>> = held.parents;
        hashes.push(hash);
        all.push(places);
        proof {
            let next = HistoryView {
                hashes: hashes@,
                parents: all@.map_values(
                    |places: Vec<usize>| places@.map_values(|place: usize| place as int),
                ),
            };
            let expected = before.followed_by(hash, parents@);
            assert(next.parents.last() =~= expected.parents.last());
            assert(next.parents =~= expected.parents);
            assert(next =~= expected);
            assert(next.hashes.no_duplicates()) by {
                assert forall|m: int, n: int|
                    0 <= m < next.hashes.len() && 0 <= n < next.hashes.len() && m
                        != n implies next.hashes[m] != next.hashes[n] by {
                    if m < before.hashes.len() && n == before.hashes.len() {
                        assert(before.hashes.contains(before.hashes[m]));
                    }
                    if n < before.hashes.len() && m == before.hashes.len() {
                        assert(before.hashes.contains(before.hashes[n]));
                    }
                }
            }
            assert forall|b: int, k: int|
                0 <= b < next.parents.len() && 0 <= k < next.parents[b].len() implies 0
                <= #[trigger] next.parents[b][k] < b by {
                if b < before.parents.len() {
                    assert(next.parents[b] == before.parents[b]);
                    assert(0 <= before.parents[b][k] < b);
                } else {
                    assert(next.parents[b][k] == places@[k] as int);
                    assert(parents@[k] == parents@[k]);
                }
            }
        }
        *self = History { hashes, parents: all };
        Ok(())
    }

    /// Whether entry `a` is in the past of entry `b`. An entry is not in its own
    /// past, and an entry that the history does not hold is in no past.
    pub fn is_ancestor(&self, a: &EntryHash, b: &EntryHash) -> (r: bool)
        ensures
            r == self@.past(*a, *b),
    {
        proof {
            use_type_invariant(self);
        }
        let from: usize = match self.place(a) {
            Some(place) => place,
            None => {
                return false;
            },
        };
        let to: usize = match self.place(b) {
            Some(place) => place,
            None => {
                return false;
            },
        };
        if from >= to {
            proof {
                if self@.past(*a, *b) {
                    lemma_reaches_back(self@.parents, from as int, to as int);
                }
            }
            return false;
        }
        let ghost parents = self@.parents;
        let mut marks: Vec<bool> = Vec::new();
        let mut n: usize = 0;
        while n < to
            invariant
                n <= to,
                marks@.len() == n,
                forall|x: int| 0 <= x < n ==> !#[trigger] marks@[x],
            decreases to - n,
        {
            marks.push(false);
            n = n + 1;
        }
        marks.push(true);
        // Places above `left` are done: where one is marked, so are its parents.
        let count: usize = self.hashes.len();
        assert(to < count);
        let mut left: usize = to + 1;
        while left > 0
            invariant
                left <= to + 1,
                to < self.hashes@.len(),
                from < to,
                self@.sound(),
                parents == self@.parents,
                marks@.len() == to + 1,
                marks@[to as int],
                forall|x: int|
                    0 <= x <= to && #[trigger] marks@[x] ==> x == to || reaches(
                        parents,
                        x,
                        to as int,
                    ),
                forall|y: int, k: int|
                    left <= y <= to && marks@[y] && 0 <= k < parents[y].len()
                        ==> marks@[#[trigger] parents[y][k]],
            decreases left,
        {
            left = left - 1;
            if marks[left] {
                let places: &Vec<usize> = &self.parents[left];
                let ghost mine = parents[left as int];
                assert(mine =~= places@.map_values(|place: usize| place as int));
                let mut k: usize = 0;
                while k < places.len()
                    invariant
                        k <= places@.len(),
                        left <= to,
                        to < self.hashes@.len(),
                        self@.sound(),
                        parents == self@.parents,
                        mine == parents[left as int],
                        mine == places@.map_values(|place: usize| place as int),
                        marks@.len() == to + 1,
                        marks@[to as int],
                        marks@[left as int],
                        forall|x: int|
                            0 <= x <= to && #[trigger] marks@[x] ==> x == to || reaches(
                                parents,
                                x,
                                to as int,
                            ),
                        forall|y: int, k: int|
                            left < y <= to && marks@[y] && 0 <= k < parents[y].len()
                                ==> marks@[#[trigger] parents[y][k]],
                        forall|m: int| 0 <= m < k ==> marks@[#[trigger] mine[m]],
                    decreases places@.len() - k,
                {
                    let place: usize = places[k];
                    proof {
                        assert(mine[k as int] == place as int);
                        assert(0 <= parents[left as int][k as int] < left);
                        assert(reaches(parents, place as int, left as int));
                        if left != to {
                            lemma_reaches_transitive(
                                parents,
                                place as int,
                                left as int,
                                to as int,
                            );
                        }
                    }
                    let ghost before = marks@;
                    marks.set(place, true);
                    proof {
                        assert forall|y: int, k: int|
                            left < y <= to && marks@[y] && 0 <= k < parents[y].len() implies marks@[
                        #[trigger] parents[y][k]] by {
                            assert(0 <= parents[y][k] < y);
                            assert(before[y]);
                            assert(before[parents[y][k]]);
                        }
                        assert forall|m: int| 0 <= m < k + 1 implies marks@[#[trigger] mine[m]] by {
                            assert(0 <= parents[left as int][m] < left);
                            if m < k {
                                assert(before[mine[m]]);
                            }
                        }
                    }
                    k = k + 1;
                }
            }
        }
        proof {
            if reaches(parents, from as int, to as int) {
                lemma_marks_are_complete(parents, marks@, from as int, to as int);
            }
        }
        marks[from]
    }
}

/// Marks that lead from children to parents mark the whole past.
proof fn lemma_marks_are_complete(parents: Seq<Seq<int>>, marks: Seq<bool>, a: int, b: int)
    requires
        marks.len() <= parents.len(),
        0 <= b < marks.len(),
        marks[b],
        forall|y: int, k: int|
            0 <= y < marks.len() && marks[y] && 0 <= k < parents[y].len()
                ==> marks[#[trigger] parents[y][k]],
        reaches(parents, a, b),
    ensures
        marks[a],
    decreases b,
{
    let k = choose|k: int|
        {
            &&& 0 <= k < parents[b].len()
            &&& 0 <= #[trigger] parents[b][k] < b
            &&& (parents[b][k] == a || reaches(parents, a, parents[b][k]))
        };
    if parents[b][k] != a {
        lemma_marks_are_complete(parents, marks, a, parents[b][k]);
    }
}

/// An entry is in the past of another exactly where it is a parent of it, or in the
/// past of a parent of it.
pub proof fn law_the_past_goes_through_parents(history: HistoryView, a: EntryHash, b: EntryHash)
    requires
        history.sound(),
        history.contains(a),
        history.contains(b),
    ensures
        history.past(a, b) <==> exists|parent: EntryHash| #[trigger]
            is_parent(history, parent, b) && (parent == a || history.past(a, parent)),
{
    let (i, j) = (history.hashes.index_of(a), history.hashes.index_of(b));
    let places = history.parents[j];
    if history.past(a, b) {
        let k = choose|k: int|
            {
                &&& 0 <= k < history.parents[j].len()
                &&& 0 <= #[trigger] history.parents[j][k] < j
                &&& (history.parents[j][k] == i || reaches(
                    history.parents,
                    i,
                    history.parents[j][k],
                ))
            };
        let parent = history.hashes[places[k]];
        assert(is_parent(history, parent, b));
        assert(history.hashes.contains(parent));
        assert(history.hashes.index_of(parent) == places[k]);
        if places[k] == i {
            assert(parent == a);
        } else {
            assert(history.past(a, parent));
        }
    }
    if exists|parent: EntryHash| #[trigger]
        is_parent(history, parent, b) && (parent == a || history.past(a, parent)) {
        let parent = choose|parent: EntryHash| #[trigger]
            is_parent(history, parent, b) && (parent == a || history.past(a, parent));
        let k = choose|k: int| 0 <= k < places.len() && history.hashes[#[trigger] places[k]] == parent;
        assert(0 <= history.parents[j][k] < j);
        assert(history.hashes.index_of(parent) == places[k]);
        assert(reaches(history.parents, i, j));
    }
}

/// An entry that joins a history has the parents that it named, and the parents of
/// every other entry stay.
pub proof fn law_entries_have_the_parents_they_named(
    history: HistoryView,
    hash: EntryHash,
    parents: Seq<EntryHash>,
    other: EntryHash,
    parent: EntryHash,
)
    requires
        history.sound(),
        !history.contains(hash),
        forall|k: int| 0 <= k < parents.len() ==> history.contains(#[trigger] parents[k]),
    ensures
        ({
            let next = history.followed_by(hash, parents);
            &&& next.hashes == history.hashes.push(hash)
            &&& is_parent(next, parent, hash) <==> parents.contains(parent)
            &&& history.contains(other) ==> is_parent(next, parent, other) == is_parent(
                history,
                parent,
                other,
            )
        }),
{
    let next = history.followed_by(hash, parents);
    let last = history.hashes.len() as int;
    assert(next.hashes[last] == hash);
    assert(next.hashes.index_of(hash) == last) by {
        let m = next.hashes.index_of(hash);
        if m < last {
            assert(history.hashes[m] == hash);
        }
    }
    assert forall|k: int| 0 <= k < parents.len() implies next.hashes[#[trigger] next.parents[last][k]]
        == parents[k] by {
        assert(history.contains(parents[k]));
    }
    if is_parent(next, parent, hash) {
        let places = next.parents[last];
        let k = choose|k: int| 0 <= k < places.len() && next.hashes[#[trigger] places[k]] == parent;
        assert(parents[k] == parent);
    }
    if parents.contains(parent) {
        let k = parents.index_of(parent);
        assert(next.hashes[next.parents[last][k]] == parent);
    }
    if history.contains(other) {
        let at = history.hashes.index_of(other);
        assert(next.hashes[at] == other);
        assert(next.hashes.index_of(other) == at) by {
            let m = next.hashes.index_of(other);
            if m < last {
                assert(history.hashes[m] == other);
            }
        }
        let places = history.parents[at];
        assert(next.parents[at] == places);
        assert forall|k: int| 0 <= k < places.len() implies next.hashes[#[trigger] places[k]]
            == history.hashes[places[k]] by {
            assert(0 <= history.parents[at][k] < at);
        }
    }
}

} // verus!

//! Sets and maps that are kept in ascending order.

use crate::order;
use vstd::prelude::*;

verus! {

/// Values with a total order, given by sequences of numbers.
pub trait Ordered: Sized + Copy {
    spec fn key(self) -> Seq<int>;

    proof fn lemma_key_injective(a: Self, b: Self)
        requires
            a.key() == b.key(),
        ensures
            a == b,
    ;

    fn precedes(&self, other: &Self) -> (r: bool)
        ensures
            r == order::before(self.key(), other.key()),
    ;
}

impl Ordered for u16 {
    open spec fn key(self) -> Seq<int> {
        seq![self as int]
    }

    proof fn lemma_key_injective(a: Self, b: Self) {
        assert(a.key()[0] == a as int);
        assert(b.key()[0] == b as int);
    }

    fn precedes(&self, other: &Self) -> (r: bool) {
        proof {
            lemma_single_key(*self as int, *other as int);
        }
        *self < *other
    }
}

/// Single numbers are ordered as themselves.
pub proof fn lemma_single_key(a: int, b: int)
    ensures
        order::before(seq![a], seq![b]) == (a < b),
{
    reveal_with_fuel(order::before, 2);
}

/// Whether the items stand in strictly ascending order.
pub open spec fn strictly_ascending<T: Ordered>(items: Seq<T>) -> bool {
    forall|i: int, j: int|
        0 <= i < j < items.len() ==> order::before(
            (#[trigger] items[i]).key(),
            (#[trigger] items[j]).key(),
        )
}

/// In strictly ascending order nothing stands twice.
pub proof fn lemma_ascending_is_unique<T: Ordered>(items: Seq<T>)
    requires
        strictly_ascending(items),
    ensures
        items.no_duplicates(),
{
    assert forall|i: int, j: int| 0 <= i < items.len() && 0 <= j < items.len() && i
        != j implies items[i] != items[j] by {
        if i < j {
            order::lemma_irreflexive(items[i].key());
        } else {
            order::lemma_irreflexive(items[j].key());
        }
    }
}

/// The items before `at` that come before `item`, and the rest after it.
pub open spec fn splits<T: Ordered>(items: Seq<T>, at: int, item: T) -> bool {
    &&& 0 <= at <= items.len()
    &&& forall|i: int| 0 <= i < at ==> order::before((#[trigger] items[i]).key(), item.key())
    &&& forall|i: int|
        at <= i < items.len() ==> order::before(item.key(), (#[trigger] items[i]).key())
}

proof fn lemma_split_excludes<T: Ordered>(items: Seq<T>, at: int, item: T)
    requires
        splits(items, at, item),
    ensures
        !items.contains(item),
{
    order::lemma_irreflexive(item.key());
}

proof fn lemma_insert_keeps_order<T: Ordered>(items: Seq<T>, at: int, item: T)
    requires
        strictly_ascending(items),
        splits(items, at, item),
    ensures
        strictly_ascending(items.insert(at, item)),
{
    let after = items.insert(at, item);
    assert forall|i: int, j: int| 0 <= i < j < after.len() implies order::before(
        (#[trigger] after[i]).key(),
        (#[trigger] after[j]).key(),
    ) by {
        if i < at {
            assert(after[i] == items[i]);
        } else if i > at {
            assert(after[i] == items[i - 1]);
        }
        if j < at {
            assert(after[j] == items[j]);
        } else if j > at {
            assert(after[j] == items[j - 1]);
        }
    }
}

proof fn lemma_remove_keeps_order<T: Ordered>(items: Seq<T>, at: int)
    requires
        strictly_ascending(items),
        0 <= at < items.len(),
    ensures
        strictly_ascending(items.remove(at)),
{
    let after = items.remove(at);
    assert forall|i: int, j: int| 0 <= i < j < after.len() implies order::before(
        (#[trigger] after[i]).key(),
        (#[trigger] after[j]).key(),
    ) by {
        let k = if i < at {
            i
        } else {
            i + 1
        };
        let l = if j < at {
            j
        } else {
            j + 1
        };
        assert(after[i] == items[k]);
        assert(after[j] == items[l]);
    }
}

pub proof fn lemma_insert_set<T>(items: Seq<T>, at: int, item: T)
    requires
        0 <= at <= items.len(),
    ensures
        items.insert(at, item).to_set() == items.to_set().insert(item),
{
    let after = items.insert(at, item);
    assert forall|x: T| after.to_set().contains(x) == items.to_set().insert(item).contains(x) by {
        if items.contains(x) {
            let i = items.index_of(x);
            if i < at {
                assert(after[i] == x);
            } else {
                assert(after[i + 1] == x);
            }
        }
        assert(after[at] == item);
        if after.contains(x) && x != item {
            let i = after.index_of(x);
            if i < at {
                assert(items[i] == x);
            } else {
                assert(items[i - 1] == x);
            }
        }
    }
    assert(after.to_set() =~= items.to_set().insert(item));
}

pub proof fn lemma_remove_set<T>(items: Seq<T>, at: int)
    requires
        0 <= at < items.len(),
        items.no_duplicates(),
    ensures
        items.remove(at).to_set() == items.to_set().remove(items[at]),
{
    let after = items.remove(at);
    assert forall|x: T|
        after.to_set().contains(x) == items.to_set().remove(items[at]).contains(x) by {
        if items.contains(x) && x != items[at] {
            let i = items.index_of(x);
            if i < at {
                assert(after[i] == x);
            } else {
                assert(after[i - 1] == x);
            }
        }
        if after.contains(x) {
            let i = after.index_of(x);
            if i < at {
                assert(items[i] == x);
            } else {
                assert(items[i + 1] == x);
            }
        }
    }
    assert(after.to_set() =~= items.to_set().remove(items[at]));
}

/// Ascending sequences with the same members are the same sequence.
pub proof fn lemma_ascending_is_determined<T: Ordered>(a: Seq<T>, b: Seq<T>)
    requires
        strictly_ascending(a),
        strictly_ascending(b),
        a.to_set() == b.to_set(),
    ensures
        a == b,
    decreases a.len(),
{
    if a.len() == 0 {
        if b.len() > 0 {
            assert(b.to_set().contains(b[0]));
            assert(a.to_set().contains(b[0]));
        }
        assert(a =~= b);
    } else {
        assert(a.to_set().contains(a[0]));
        assert(b.contains(a[0]));
        let i = b.index_of(a[0]);
        assert(b.to_set().contains(b[0]));
        assert(a.contains(b[0]));
        let j = a.index_of(b[0]);
        if i > 0 {
            assert(order::before(b[0].key(), b[i].key()));
            if j > 0 {
                assert(order::before(a[0].key(), a[j].key()));
                order::lemma_asymmetric(a[0].key(), a[j].key());
            } else {
                order::lemma_irreflexive(b[0].key());
            }
        }
        assert(a[0] == b[0]);
        lemma_ascending_is_unique(a);
        lemma_ascending_is_unique(b);
        lemma_remove_set(a, 0);
        lemma_remove_set(b, 0);
        lemma_remove_keeps_order(a, 0);
        lemma_remove_keeps_order(b, 0);
        lemma_ascending_is_determined(a.remove(0), b.remove(0));
        assert(a =~= seq![a[0]] + a.remove(0));
        assert(b =~= seq![b[0]] + b.remove(0));
    }
}

/// The members of a finite set, in ascending order.
pub open spec fn ascending_of<T: Ordered>(members: Set<T>) -> Seq<T> {
    choose|items: Seq<T>| #[trigger] strictly_ascending(items) && items.to_set() == members
}

/// An ascending sequence is the one of its members.
pub proof fn lemma_ascending_of<T: Ordered>(items: Seq<T>)
    requires
        strictly_ascending(items),
    ensures
        ascending_of(items.to_set()) == items,
{
    lemma_ascending_is_determined(ascending_of(items.to_set()), items);
}

/// The place where an item belongs.
proof fn lemma_place<T: Ordered>(items: Seq<T>, item: T) -> (at: int)
    requires
        strictly_ascending(items),
        !items.contains(item),
    ensures
        splits(items, at, item),
    decreases items.len(),
{
    if items.len() == 0 {
        0
    } else {
        let last = items.last();
        assert(items.contains(last));
        if last.key() == item.key() {
            T::lemma_key_injective(last, item);
        }
        order::lemma_total(last.key(), item.key());
        if order::before(last.key(), item.key()) {
            assert forall|i: int| 0 <= i < items.len() implies order::before(
                (#[trigger] items[i]).key(),
                item.key(),
            ) by {
                if i < items.len() - 1 {
                    order::lemma_transitive(items[i].key(), last.key(), item.key());
                }
            }
            items.len() as int
        } else {
            let front = items.drop_last();
            assert forall|i: int, j: int| 0 <= i < j < front.len() implies order::before(
                (#[trigger] front[i]).key(),
                (#[trigger] front[j]).key(),
            ) by {
                assert(front[i] == items[i] && front[j] == items[j]);
            }
            assert(!front.contains(item)) by {
                if front.contains(item) {
                    assert(items[front.index_of(item)] == item);
                }
            }
            let at = lemma_place(front, item);
            assert forall|i: int| 0 <= i < at implies order::before(
                (#[trigger] items[i]).key(),
                item.key(),
            ) by {
                assert(front[i] == items[i]);
            }
            assert forall|i: int| at <= i < items.len() implies order::before(
                item.key(),
                (#[trigger] items[i]).key(),
            ) by {
                if i < front.len() {
                    assert(front[i] == items[i]);
                }
            }
            at
        }
    }
}

/// The members of a finite set can be put in ascending order.
pub proof fn lemma_finite_set_ascends<T: Ordered>(members: Set<T>)
    requires
        members.finite(),
    ensures
        strictly_ascending(ascending_of(members)),
        ascending_of(members).to_set() == members,
        ascending_of(members).len() == members.len(),
    decreases members.len(),
{
    let items = if members.len() == 0 {
        assert(Seq::<T>::empty().to_set() =~= members);
        Seq::empty()
    } else {
        let item = members.choose();
        let rest = members.remove(item);
        lemma_finite_set_ascends(rest);
        let others = ascending_of(rest);
        assert(!others.contains(item)) by {
            if others.contains(item) {
                assert(others.to_set().contains(item));
            }
        }
        let at = lemma_place(others, item);
        lemma_insert_keeps_order(others, at, item);
        lemma_insert_set(others, at, item);
        assert(rest.insert(item) =~= members);
        others.insert(at, item)
    };
    assert(strictly_ascending(items) && items.to_set() == members);
    lemma_ascending_is_determined(ascending_of(members), items);
    lemma_ascending_is_unique(items);
    items.unique_seq_to_set();
}

/// Finds an item, or the place where it belongs.
fn locate<T: Ordered>(items: &Vec<T>, item: &T) -> (found: Result<usize, usize>)
    requires
        strictly_ascending(items@),
    ensures
        match found {
            Ok(at) => at < items@.len() && items@[at as int] == *item,
            Err(at) => splits(items@, at as int, *item) && !items@.contains(*item),
        },
{
    let mut left: usize = 0;
    let mut right: usize = items.len();
    while left < right
        invariant
            left <= right <= items@.len(),
            strictly_ascending(items@),
            forall|i: int|
                0 <= i < left ==> order::before((#[trigger] items@[i]).key(), item.key()),
            forall|i: int|
                right <= i < items@.len() ==> order::before(
                    item.key(),
                    (#[trigger] items@[i]).key(),
                ),
        decreases right - left,
    {
        let middle: usize = left + (right - left) / 2;
        let found: T = items[middle];
        if found.precedes(item) {
            proof {
                assert forall|i: int| 0 <= i < middle + 1 implies order::before(
                    (#[trigger] items@[i]).key(),
                    item.key(),
                ) by {
                    if i < middle {
                        order::lemma_transitive(items@[i].key(), found.key(), item.key());
                    }
                }
            }
            left = middle + 1;
        } else if item.precedes(&found) {
            proof {
                assert forall|i: int| middle <= i < items@.len() implies order::before(
                    item.key(),
                    (#[trigger] items@[i]).key(),
                ) by {
                    if i > middle {
                        order::lemma_transitive(item.key(), found.key(), items@[i].key());
                    }
                }
            }
            right = middle;
        } else {
            proof {
                order::lemma_total(found.key(), item.key());
                T::lemma_key_injective(found, *item);
            }
            return Ok(middle);
        }
    }
    proof {
        lemma_split_excludes(items@, left as int, *item);
    }
    Err(left)
}

/// A finite set, kept in ascending order.
#[derive(PartialEq, Eq, Debug)]
pub struct SortedSet<T: Ordered> {
    items: Vec<T>,
}

impl<T: Ordered> View for SortedSet<T> {
    type V = Set<T>;

    closed spec fn view(&self) -> Set<T> {
        self.items@.to_set()
    }
}

impl<T: Ordered> SortedSet<T> {
    /// The members in the order in which they are kept.
    pub closed spec fn items(self) -> Seq<T> {
        self.items@
    }
}

impl<T: Ordered> SortedSet<T> {
    #[verifier::type_invariant]
    spec fn sound(self) -> bool {
        strictly_ascending(self.items@)
    }

    pub fn new() -> (set: Self)
        ensures
            set@ == Set::<T>::empty(),
            set.items() == Seq::<T>::empty(),
    {
        let set = SortedSet { items: Vec::new() };
        assert(set.items@.to_set() =~= Set::<T>::empty());
        set
    }

    /// What holds of the members in their order.
    pub(crate) fn expose(&self)
        ensures
            strictly_ascending(self.items()),
            self.items().no_duplicates(),
            self.items().to_set() == self@,
            self.items() == ascending_of(self@),
            self@.finite(),
            self@.len() == self.items().len(),
    {
        proof {
            use_type_invariant(self);
            lemma_ascending_of(self.items@);
            lemma_ascending_is_unique(self.items@);
            self.items@.unique_seq_to_set();
        }
    }

    pub fn len(&self) -> (len: usize)
        ensures
            len == self@.len(),
            len == self.items().len(),
            self@.finite(),
    {
        self.expose();
        self.items.len()
    }

    pub fn is_empty(&self) -> (empty: bool)
        ensures
            empty == (self@ == Set::<T>::empty()),
    {
        self.expose();
        proof {
            if self.items@.len() > 0 {
                assert(self@.contains(self.items@[0]));
            } else {
                assert(self@ =~= Set::<T>::empty());
            }
        }
        self.items.len() == 0
    }

    /// The members in ascending order.
    pub fn as_slice(&self) -> (items: &[T])
        ensures
            items@ == self.items(),
            items@ == ascending_of(self@),
            strictly_ascending(items@),
            items@.no_duplicates(),
            items@.to_set() == self@,
    {
        self.expose();
        self.items.as_slice()
    }

    pub fn contains(&self, item: &T) -> (r: bool)
        ensures
            r == self@.contains(*item),
    {
        proof {
            use_type_invariant(self);
        }
        match locate(&self.items, item) {
            Ok(at) => {
                assert(self@.contains(self.items@[at as int]));
                true
            },
            Err(_) => false,
        }
    }

    /// Adds an item. Returns whether it was new.
    pub fn insert(&mut self, item: T) -> (added: bool)
        ensures
            added == !old(self)@.contains(item),
            final(self)@ == old(self)@.insert(item),
    {
        proof {
            use_type_invariant(&*self);
        }
        match locate(&self.items, &item) {
            Ok(at) => {
                assert(self@.contains(self.items@[at as int]));
                assert(self@.insert(item) =~= self@);
                false
            },
            Err(at) => {
                let mut items: Vec<T> = self.take();
                proof {
                    lemma_insert_keeps_order(items@, at as int, item);
                    lemma_insert_set(items@, at as int, item);
                }
                items.insert(at, item);
                self.items = items;
                true
            },
        }
    }

    /// Removes an item. Returns whether it was there.
    pub fn remove(&mut self, item: &T) -> (removed: bool)
        ensures
            removed == old(self)@.contains(*item),
            final(self)@ == old(self)@.remove(*item),
    {
        proof {
            use_type_invariant(&*self);
        }
        match locate(&self.items, item) {
            Ok(at) => {
                assert(self@.contains(self.items@[at as int]));
                let mut items: Vec<T> = self.take();
                proof {
                    lemma_remove_keeps_order(items@, at as int);
                    lemma_ascending_is_unique(items@);
                    lemma_remove_set(items@, at as int);
                }
                let _ = items.remove(at);
                self.items = items;
                true
            },
            Err(_) => {
                assert(self@.remove(*item) =~= self@);
                false
            },
        }
    }

    fn take(&mut self) -> (items: Vec<T>)
        ensures
            items@ == old(self).items(),
            final(self)@ == Set::<T>::empty(),
    {
        let mut empty: SortedSet<T> = SortedSet::new();
        std::mem::swap(self, &mut empty);
        empty.items
    }

    /// The members of `self` that are not in `other`.
    pub fn difference(&self, other: &Self) -> (result: Self)
        ensures
            result@ == self@.difference(other@),
    {
        let mut result: SortedSet<T> = SortedSet::new();
        let items: &[T] = self.as_slice();
        let mut i: usize = 0;
        assert(items@.subrange(0, 0).to_set() =~= Set::<T>::empty());
        assert(result@ =~= items@.subrange(0, 0).to_set().difference(other@));
        while i < items.len()
            invariant
                i <= items@.len(),
                result@ == items@.subrange(0, i as int).to_set().difference(other@),
            decreases items@.len() - i,
        {
            proof {
                lemma_prefix_set(items@, i as int);
            }
            if !other.contains(&items[i]) {
                result.insert(items[i]);
            }
            assert(result@ =~= items@.subrange(0, i + 1).to_set().difference(other@));
            i = i + 1;
        }
        assert(items@.subrange(0, i as int) =~= items@);
        result
    }

    /// Adds every member of `other`.
    pub fn extend(&mut self, other: &Self)
        ensures
            final(self)@ == old(self)@.union(other@),
    {
        let items: &[T] = other.as_slice();
        let mut i: usize = 0;
        assert(items@.subrange(0, 0).to_set() =~= Set::<T>::empty());
        assert(self@ =~= old(self)@.union(items@.subrange(0, 0).to_set()));
        while i < items.len()
            invariant
                i <= items@.len(),
                self@ == old(self)@.union(items@.subrange(0, i as int).to_set()),
            decreases items@.len() - i,
        {
            proof {
                lemma_prefix_set(items@, i as int);
            }
            self.insert(items[i]);
            assert(self@ =~= old(self)@.union(items@.subrange(0, i + 1).to_set()));
            i = i + 1;
        }
        assert(items@.subrange(0, i as int) =~= items@);
    }

    /// Whether the two sets have the same members.
    pub fn same(&self, other: &Self) -> (r: bool)
        ensures
            r == (self@ == other@),
    {
        let (a, b): (&[T], &[T]) = (self.as_slice(), other.as_slice());
        if a.len() != b.len() {
            proof {
                if self@ == other@ {
                    lemma_ascending_is_determined(a@, b@);
                }
            }
            return false;
        }
        let mut i: usize = 0;
        while i < a.len()
            invariant
                i <= a@.len() == b@.len(),
                forall|j: int| 0 <= j < i ==> a@[j] == b@[j],
                a@.to_set() == self@,
                b@.to_set() == other@,
                strictly_ascending(a@),
                strictly_ascending(b@),
            decreases a@.len() - i,
        {
            if a[i].precedes(&b[i]) || b[i].precedes(&a[i]) {
                proof {
                    order::lemma_irreflexive(a@[i as int].key());
                    if self@ == other@ {
                        lemma_ascending_is_determined(a@, b@);
                    }
                }
                return false;
            }
            proof {
                order::lemma_total(a@[i as int].key(), b@[i as int].key());
                T::lemma_key_injective(a@[i as int], b@[i as int]);
            }
            i = i + 1;
        }
        assert(a@ =~= b@);
        true
    }
}

/// The set of a prefix grows by its next item.
pub proof fn lemma_prefix_set<T>(items: Seq<T>, i: int)
    requires
        0 <= i < items.len(),
    ensures
        items.subrange(0, i + 1).to_set() == items.subrange(0, i).to_set().insert(items[i]),
{
    let (a, b) = (items.subrange(0, i), items.subrange(0, i + 1));
    assert(b =~= a.insert(i, items[i]));
    lemma_insert_set(a, i, items[i]);
}

impl<T: Ordered> Clone for SortedSet<T> {
    fn clone(&self) -> (set: Self)
        ensures
            set@ == self@,
    {
        let mut set: SortedSet<T> = SortedSet::new();
        set.extend(self);
        assert(set@ =~= self@);
        set
    }
}

impl<T: Ordered> Default for SortedSet<T> {
    fn default() -> (set: Self)
        ensures
            set@ == Set::<T>::empty(),
    {
        SortedSet::new()
    }
}

/// The map that pairs each key with the value at the same place.
pub open spec fn paired<K, V>(keys: Seq<K>, values: Seq<V>) -> Map<K, V> {
    Map::new(|key: K| keys.contains(key), |key: K| values[keys.index_of(key)])
}

/// What a map of pairs holds at a place.
pub proof fn lemma_paired_at<K, V>(keys: Seq<K>, values: Seq<V>, i: int)
    requires
        0 <= i < keys.len(),
        keys.len() == values.len(),
        keys.no_duplicates(),
    ensures
        paired(keys, values).dom().contains(keys[i]),
        paired(keys, values)[keys[i]] == values[i],
{
    assert(keys.contains(keys[i]));
    assert(keys.index_of(keys[i]) == i);
}

pub proof fn lemma_paired_insert<K, V>(keys: Seq<K>, values: Seq<V>, at: int, key: K, value: V)
    requires
        0 <= at <= keys.len(),
        keys.len() == values.len(),
        keys.insert(at, key).no_duplicates(),
        keys.no_duplicates(),
    ensures
        paired(keys.insert(at, key), values.insert(at, value)) == paired(keys, values).insert(
            key,
            value,
        ),
{
    let (k, v) = (keys.insert(at, key), values.insert(at, value));
    let (after, expected) = (paired(k, v), paired(keys, values).insert(key, value));
    lemma_insert_set(keys, at, key);
    assert forall|x: K| after.dom().contains(x) == expected.dom().contains(x) by {
        assert(k.to_set().contains(x) == keys.to_set().insert(key).contains(x));
    }
    assert forall|x: K| after.dom().contains(x) implies after[x] == expected[x] by {
        if x == key {
            assert(k[at] == key);
            lemma_paired_at(k, v, at);
        } else {
            assert(keys.to_set().contains(x));
            let i = keys.index_of(x);
            lemma_paired_at(keys, values, i);
            let j = if i < at {
                i
            } else {
                i + 1
            };
            assert(k[j] == x);
            lemma_paired_at(k, v, j);
        }
    }
    assert(after =~= expected);
}

pub proof fn lemma_paired_remove<K, V>(keys: Seq<K>, values: Seq<V>, at: int)
    requires
        0 <= at < keys.len(),
        keys.len() == values.len(),
        keys.no_duplicates(),
    ensures
        paired(keys.remove(at), values.remove(at)) == paired(keys, values).remove(keys[at]),
{
    let (k, v) = (keys.remove(at), values.remove(at));
    let (after, expected) = (paired(k, v), paired(keys, values).remove(keys[at]));
    lemma_remove_set(keys, at);
    assert forall|x: K| after.dom().contains(x) == expected.dom().contains(x) by {
        assert(k.to_set().contains(x) == keys.to_set().remove(keys[at]).contains(x));
    }
    assert(k.no_duplicates()) by {
        assert forall|i: int, j: int| 0 <= i < k.len() && 0 <= j < k.len() && i != j implies k[i]
            != k[j] by {
            let a = if i < at {
                i
            } else {
                i + 1
            };
            let b = if j < at {
                j
            } else {
                j + 1
            };
            assert(k[i] == keys[a]);
            assert(k[j] == keys[b]);
        }
    }
    assert forall|x: K| after.dom().contains(x) implies after[x] == expected[x] by {
        assert(k.contains(x));
        let i = k.index_of(x);
        lemma_paired_at(k, v, i);
        let j = if i < at {
            i
        } else {
            i + 1
        };
        assert(keys[j] == x);
        lemma_paired_at(keys, values, j);
    }
    assert(after =~= expected);
}

pub proof fn lemma_paired_update<K, V>(keys: Seq<K>, values: Seq<V>, at: int, value: V)
    requires
        0 <= at < keys.len(),
        keys.len() == values.len(),
        keys.no_duplicates(),
    ensures
        paired(keys, values.update(at, value)) == paired(keys, values).insert(keys[at], value),
{
    let v = values.update(at, value);
    let (after, expected) = (paired(keys, v), paired(keys, values).insert(keys[at], value));
    assert(keys.contains(keys[at]));
    assert forall|x: K| after.dom().contains(x) implies after[x] == expected[x] by {
        let i = keys.index_of(x);
        lemma_paired_at(keys, v, i);
        lemma_paired_at(keys, values, i);
    }
    assert(after =~= expected);
}

/// A finite map, kept in ascending order of its keys.
#[derive(PartialEq, Eq, Debug)]
pub struct SortedMap<K: Ordered, V> {
    keys: Vec<K>,
    values: Vec<V>,
}

impl<K: Ordered, V> View for SortedMap<K, V> {
    type V = Map<K, V>;

    closed spec fn view(&self) -> Map<K, V> {
        paired(self.keys@, self.values@)
    }
}

impl<K: Ordered, V> SortedMap<K, V> {
    #[verifier::type_invariant]
    spec fn sound(self) -> bool {
        &&& strictly_ascending(self.keys@)
        &&& self.keys@.len() == self.values@.len()
    }

    /// The keys in the order in which they are kept.
    pub closed spec fn keys(self) -> Seq<K> {
        self.keys@
    }

    pub fn new() -> (map: Self)
        ensures
            map@ == Map::<K, V>::empty(),
            map.keys() == Seq::<K>::empty(),
    {
        let map = SortedMap { keys: Vec::new(), values: Vec::new() };
        assert(map@ =~= Map::<K, V>::empty());
        map
    }

    /// What holds of the keys in their order.
    pub(crate) fn expose(&self)
        ensures
            strictly_ascending(self.keys()),
            self.keys().no_duplicates(),
            self.keys().to_set() == self@.dom(),
            self@.dom().finite(),
            self@.dom().len() == self.keys().len(),
    {
        proof {
            use_type_invariant(self);
            lemma_ascending_is_unique(self.keys@);
            self.keys@.unique_seq_to_set();
            assert(self.keys@.to_set() =~= self@.dom());
        }
    }

    pub fn len(&self) -> (len: usize)
        ensures
            len == self@.dom().len(),
            len == self.keys().len(),
    {
        self.expose();
        self.keys.len()
    }

    pub fn is_empty(&self) -> (empty: bool)
        ensures
            empty == (self@ == Map::<K, V>::empty()),
    {
        self.expose();
        proof {
            if self.keys@.len() > 0 {
                assert(self@.dom().contains(self.keys@[0]));
            } else {
                assert(self@ =~= Map::<K, V>::empty());
            }
        }
        self.keys.len() == 0
    }

    /// The key at a place.
    pub fn key_at(&self, i: usize) -> (key: K)
        requires
            i < self.keys().len(),
        ensures
            key == self.keys()[i as int],
            self@.dom().contains(key),
    {
        assert(self.keys@.contains(self.keys@[i as int]));
        self.keys[i]
    }

    /// The value at a place.
    pub fn value_at(&self, i: usize) -> (value: &V)
        requires
            i < self.keys().len(),
        ensures
            self@.dom().contains(self.keys()[i as int]),
            *value == self@[self.keys()[i as int]],
    {
        proof {
            use_type_invariant(self);
            lemma_ascending_is_unique(self.keys@);
            lemma_paired_at(self.keys@, self.values@, i as int);
        }
        &self.values[i]
    }

    pub fn contains_key(&self, key: &K) -> (r: bool)
        ensures
            r == self@.dom().contains(*key),
    {
        proof {
            use_type_invariant(self);
        }
        match locate(&self.keys, key) {
            Ok(at) => {
                assert(self.keys@.contains(self.keys@[at as int]));
                true
            },
            Err(_) => false,
        }
    }

    pub fn get(&self, key: &K) -> (value: Option<&V>)
        ensures
            match value {
                Some(value) => self@.dom().contains(*key) && *value == self@[*key],
                None => !self@.dom().contains(*key),
            },
    {
        proof {
            use_type_invariant(self);
            lemma_ascending_is_unique(self.keys@);
        }
        match locate(&self.keys, key) {
            Ok(at) => {
                proof {
                    lemma_paired_at(self.keys@, self.values@, at as int);
                }
                Some(&self.values[at])
            },
            Err(_) => None,
        }
    }

    fn take(&mut self) -> (parts: (Vec<K>, Vec<V>))
        ensures
            strictly_ascending(parts.0@),
            parts.0@ == old(self).keys(),
            parts.0@.len() == parts.1@.len(),
            paired(parts.0@, parts.1@) == old(self)@,
    {
        proof {
            use_type_invariant(&*self);
        }
        let mut empty: SortedMap<K, V> = SortedMap::new();
        std::mem::swap(self, &mut empty);
        (empty.keys, empty.values)
    }

    /// Sets the value of a key.
    pub fn insert(&mut self, key: K, value: V)
        ensures
            final(self)@ == old(self)@.insert(key, value),
    {
        proof {
            use_type_invariant(&*self);
        }
        let found: Result<usize, usize> = locate(&self.keys, &key);
        let (mut keys, mut values): (Vec<K>, Vec<V>) = self.take();
        proof {
            lemma_ascending_is_unique(keys@);
        }
        match found {
            Ok(at) => {
                proof {
                    lemma_paired_update(keys@, values@, at as int, value);
                }
                values.set(at, value);
            },
            Err(at) => {
                proof {
                    lemma_insert_keeps_order(keys@, at as int, key);
                    lemma_ascending_is_unique(keys@.insert(at as int, key));
                    lemma_paired_insert(keys@, values@, at as int, key, value);
                }
                keys.insert(at, key);
                values.insert(at, value);
            },
        }
        *self = SortedMap { keys, values };
    }

    /// Removes a key. Returns its value, if it had one.
    pub fn remove(&mut self, key: &K) -> (value: Option<V>)
        ensures
            final(self)@ == old(self)@.remove(*key),
            match value {
                Some(value) => old(self)@.dom().contains(*key) && value == old(self)@[*key],
                None => !old(self)@.dom().contains(*key),
            },
    {
        proof {
            use_type_invariant(&*self);
            lemma_ascending_is_unique(self.keys@);
        }
        match locate(&self.keys, key) {
            Ok(at) => {
                let (mut keys, mut values): (Vec<K>, Vec<V>) = self.take();
                proof {
                    lemma_remove_keeps_order(keys@, at as int);
                    lemma_paired_remove(keys@, values@, at as int);
                    lemma_paired_at(keys@, values@, at as int);
                }
                let _ = keys.remove(at);
                let value: V = values.remove(at);
                *self = SortedMap { keys, values };
                Some(value)
            },
            Err(_) => {
                assert(self@.remove(*key) =~= self@);
                None
            },
        }
    }
}

impl<K: Ordered, V> Default for SortedMap<K, V> {
    fn default() -> (map: Self)
        ensures
            map@ == Map::<K, V>::empty(),
    {
        SortedMap::new()
    }
}

/// The list of a finite set holds its members, each once, in ascending order of their
/// keys.
pub proof fn law_sets_are_listed_upwards<T: Ordered>(members: Set<T>)
    requires
        members.finite(),
    ensures
        ascending_of(members).len() == members.len(),
        forall|item: T| #[trigger] ascending_of(members).contains(item) <==> members.contains(item),
        forall|i: int, j: int|
            0 <= i < j < ascending_of(members).len() ==> order::before(
                (#[trigger] ascending_of(members)[i]).key(),
                (#[trigger] ascending_of(members)[j]).key(),
            ),
{
    lemma_finite_set_ascends(members);
    let items = ascending_of(members);
    assert forall|item: T| #[trigger] items.contains(item) <==> members.contains(item) by {
        assert(items.to_set().contains(item) == items.contains(item));
    }
}

} // verus!

//! Who is at the table, in a stable order.

use crate::order;
use crate::roundtable::participant::ParticipantId;
use vstd::prelude::*;

verus! {

/// Whether the members stand in strictly ascending order.
pub open spec fn ascending(members: Seq<ParticipantId>) -> bool {
    forall|i: int, j: int|
        0 <= i < j < members.len() ==> order::before(
            (#[trigger] members[i]).key(),
            (#[trigger] members[j]).key(),
        )
}

/// Sorted fixed-capacity membership. Transport code may rebuild it from
/// authenticated live peers without allocating or leaking carrier addresses
/// into the session model.
#[derive(Debug)]
pub struct Roster<const N: usize> {
    members: [Option<ParticipantId>; N],
    len: usize,
}

impl<const N: usize> View for Roster<N> {
    type V = Seq<ParticipantId>;

    closed spec fn view(&self) -> Seq<ParticipantId> {
        Seq::new(self.len as nat, |i: int| self.members@[i]->0)
    }
}

impl<const N: usize> Clone for Roster<N> {
    fn clone(&self) -> (roster: Self)
        ensures
            roster == *self,
    {
        proof {
            use_type_invariant(self);
        }
        Roster { members: self.members, len: self.len }
    }
}

impl<const N: usize> Default for Roster<N> {
    fn default() -> (roster: Self)
        ensures
            roster@ == Seq::<ParticipantId>::empty(),
    {
        let roster = Roster { members: [None; N], len: 0 };
        assert(roster@ =~= Seq::<ParticipantId>::empty());
        roster
    }
}

impl<const N: usize> Roster<N> {
    #[verifier::type_invariant]
    spec fn sound(self) -> bool {
        &&& self.len <= N
        &&& ascending(self@)
        &&& forall|i: int| 0 <= i < N ==> ((#[trigger] self.members@[i]) is Some <==> i < self.len)
    }

    /// Adds a participant, if it is new and there is room. The members stay in
    /// ascending order.
    pub fn insert(&mut self, participant: ParticipantId) -> (added: bool)
        ensures
            added == (!old(self)@.contains(participant) && old(self)@.len() < N),
            ascending(final(self)@),
            if added {
                &&& final(self)@.len() == old(self)@.len() + 1
                &&& forall|other: ParticipantId| #[trigger]
                    final(self)@.contains(other) <==> other == participant || old(self)@.contains(
                        other,
                    )
            } else {
                final(self)@ == old(self)@
            },
    {
        proof {
            use_type_invariant(&*self);
        }
        let ghost before = self@;
        let index: usize = match self.search(&participant) {
            Ok(_) => {
                return false;
            },
            Err(index) => index,
        };
        if self.len == N {
            return false;
        }
        let mut members: [Option<ParticipantId>; N] = self.members;
        let len: usize = self.len;
        let mut slot: usize = len;
        while slot > index
            invariant
                index <= slot <= len < N,
                members@.len() == N,
                forall|i: int| 0 <= i < slot ==> members@[i] == self.members@[i],
                forall|i: int|
                    slot < i <= len ==> #[trigger] members@[i] == self.members@[i - 1],
                forall|i: int| len < i < N ==> members@[i] == self.members@[i],
            decreases slot - index,
        {
            members[slot] = members[slot - 1];
            slot = slot - 1;
        }
        members[index] = Some(participant);
        proof {
            let after = Seq::new((len + 1) as nat, |i: int| members@[i]->0);
            assert(after =~= before.insert(index as int, participant));
            lemma_insert_members(before, index as int, participant);
            lemma_insert_ascending(before, index as int, participant);
        }
        let next = Roster { members, len: len + 1 };
        assert(next@ =~= before.insert(index as int, participant));
        *self = next;
        true
    }

    /// Removes a participant, if it is there.
    pub fn remove(&mut self, participant: &ParticipantId) -> (removed: bool)
        ensures
            removed == old(self)@.contains(*participant),
            ascending(final(self)@),
            if removed {
                &&& final(self)@.len() == old(self)@.len() - 1
                &&& forall|other: ParticipantId| #[trigger]
                    final(self)@.contains(other) <==> other != *participant && old(
                        self,
                    )@.contains(other)
            } else {
                final(self)@ == old(self)@
            },
    {
        proof {
            use_type_invariant(&*self);
        }
        let ghost before = self@;
        let index: usize = match self.search(participant) {
            Ok(index) => index,
            Err(_) => {
                return false;
            },
        };
        let mut members: [Option<ParticipantId>; N] = self.members;
        let len: usize = self.len;
        let mut slot: usize = index;
        while slot < len - 1
            invariant
                index <= slot <= len - 1,
                len <= N,
                members@.len() == N,
                forall|i: int| 0 <= i < index ==> members@[i] == self.members@[i],
                forall|i: int|
                    index <= i < slot ==> #[trigger] members@[i] == self.members@[i + 1],
                forall|i: int| slot <= i < N ==> members@[i] == self.members@[i],
            decreases len - slot,
        {
            members[slot] = members[slot + 1];
            slot = slot + 1;
        }
        members[len - 1] = None;
        proof {
            let after = Seq::new((len - 1) as nat, |i: int| members@[i]->0);
            assert(after =~= before.remove(index as int));
            lemma_remove_members(before, index as int);
            lemma_remove_ascending(before, index as int);
        }
        let next = Roster { members, len: len - 1 };
        assert(next@ =~= before.remove(index as int));
        *self = next;
        true
    }

    /// Finds a participant, or the place where it belongs.
    fn search(&self, participant: &ParticipantId) -> (found: Result<usize, usize>)
        ensures
            match found {
                Ok(index) => index < self@.len() && self@[index as int] == participant
                    && self@.contains(*participant),
                Err(index) => {
                    &&& index <= self@.len()
                    &&& !self@.contains(*participant)
                    &&& forall|i: int|
                        0 <= i < index ==> order::before(
                            (#[trigger] self@[i]).key(),
                            participant.key(),
                        )
                    &&& forall|i: int|
                        index <= i < self@.len() ==> order::before(
                            participant.key(),
                            (#[trigger] self@[i]).key(),
                        )
                },
            },
    {
        proof {
            use_type_invariant(self);
        }
        let mut left: usize = 0;
        let mut right: usize = self.len;
        while left < right
            invariant
                left <= right <= self.len,
                self.sound(),
                forall|i: int|
                    0 <= i < left ==> order::before((#[trigger] self@[i]).key(), participant.key()),
                forall|i: int|
                    right <= i < self.len ==> order::before(
                        participant.key(),
                        (#[trigger] self@[i]).key(),
                    ),
            decreases right - left,
        {
            let middle: usize = left + (right - left) / 2;
            let member: ParticipantId = match self.members[middle] {
                Some(member) => member,
                None => {
                    assert(self.members@[middle as int] is Some);
                    return Err(0);
                },
            };
            assert(self@[middle as int] == member);
            if member == *participant {
                return Ok(middle);
            }
            if member.precedes(participant) {
                proof {
                    assert forall|i: int| 0 <= i < middle + 1 implies order::before(
                        (#[trigger] self@[i]).key(),
                        participant.key(),
                    ) by {
                        if i < middle {
                            order::lemma_transitive(
                                self@[i].key(),
                                member.key(),
                                participant.key(),
                            );
                        }
                    }
                }
                left = middle + 1;
            } else {
                proof {
                    order::lemma_total(member.key(), participant.key());
                    if member.key() == participant.key() {
                        ParticipantId::lemma_key_injective(member, *participant);
                    }
                    assert forall|i: int| middle <= i < self.len implies order::before(
                        participant.key(),
                        (#[trigger] self@[i]).key(),
                    ) by {
                        if i > middle {
                            order::lemma_transitive(
                                participant.key(),
                                member.key(),
                                self@[i].key(),
                            );
                        }
                    }
                }
                right = middle;
            }
        }
        proof {
            order::lemma_irreflexive(participant.key());
            assert(!self@.contains(*participant));
        }
        Err(left)
    }

    pub fn len(&self) -> (len: usize)
        ensures
            len == self@.len(),
    {
        self.len
    }

    pub fn is_empty(&self) -> (empty: bool)
        ensures
            empty == (self@.len() == 0),
    {
        self.len == 0
    }

    pub fn member(&self, index: usize) -> (member: Option<ParticipantId>)
        ensures
            member == if index < self@.len() {
                Some(self@[index as int])
            } else {
                None
            },
    {
        proof {
            use_type_invariant(self);
        }
        if index < N {
            self.members[index]
        } else {
            None
        }
    }

    /// The members, in ascending order.
    pub fn iter(&self) -> (members: Vec<ParticipantId>)
        ensures
            members@ == self@,
            ascending(members@),
    {
        proof {
            use_type_invariant(self);
        }
        let mut members: Vec<ParticipantId> = Vec::new();
        let mut i: usize = 0;
        while i < self.len
            invariant
                i <= self.len,
                self.sound(),
                members@ == self@.subrange(0, i as int),
            decreases self.len - i,
        {
            if let Some(member) = self.members[i] {
                members.push(member);
            }
            assert(self.members@[i as int] is Some);
            assert(members@ =~= self@.subrange(0, i + 1));
            i = i + 1;
        }
        assert(self@.subrange(0, i as int) =~= self@);
        members
    }

    /// The member that comes first.
    pub fn leader(&self) -> (leader: Option<ParticipantId>)
        ensures
            leader == if self@.len() > 0 {
                Some(self@[0])
            } else {
                None
            },
    {
        self.member(0)
    }

    /// Whose turn it is: turns go round the table, in order.
    pub fn target(&self, sequence: u32) -> (target: Option<ParticipantId>)
        ensures
            target == if self@.len() > 0 {
                Some(self@[sequence as int % self@.len() as int])
            } else {
                None
            },
    {
        if self.len == 0 {
            return None;
        }
        self.member(sequence as usize % self.len)
    }
}

proof fn lemma_insert_members(members: Seq<ParticipantId>, at: int, participant: ParticipantId)
    requires
        0 <= at <= members.len(),
    ensures
        forall|other: ParticipantId| #[trigger]
            members.insert(at, participant).contains(other) <==> other == participant
                || members.contains(other),
{
    let after = members.insert(at, participant);
    assert forall|other: ParticipantId| #[trigger] after.contains(other) <==> other == participant
        || members.contains(other) by {
        assert(after[at] == participant);
        if members.contains(other) {
            let i = members.index_of(other);
            if i < at {
                assert(after[i] == other);
            } else {
                assert(after[i + 1] == other);
            }
        }
        if after.contains(other) && other != participant {
            let i = after.index_of(other);
            if i < at {
                assert(members[i] == other);
            } else {
                assert(members[i - 1] == other);
            }
        }
    }
}

proof fn lemma_insert_ascending(members: Seq<ParticipantId>, at: int, participant: ParticipantId)
    requires
        0 <= at <= members.len(),
        ascending(members),
        forall|i: int|
            0 <= i < at ==> order::before((#[trigger] members[i]).key(), participant.key()),
        forall|i: int|
            at <= i < members.len() ==> order::before(
                participant.key(),
                (#[trigger] members[i]).key(),
            ),
    ensures
        ascending(members.insert(at, participant)),
{
    let after = members.insert(at, participant);
    assert forall|i: int, j: int| 0 <= i < j < after.len() implies order::before(
        (#[trigger] after[i]).key(),
        (#[trigger] after[j]).key(),
    ) by {
        if i < at {
            assert(after[i] == members[i]);
        } else if i > at {
            assert(after[i] == members[i - 1]);
        }
        if j < at {
            assert(after[j] == members[j]);
        } else if j > at {
            assert(after[j] == members[j - 1]);
        }
    }
}

proof fn lemma_remove_members(members: Seq<ParticipantId>, at: int)
    requires
        0 <= at < members.len(),
        ascending(members),
    ensures
        forall|other: ParticipantId| #[trigger]
            members.remove(at).contains(other) <==> other != members[at] && members.contains(
                other,
            ),
{
    let after = members.remove(at);
    assert forall|other: ParticipantId| #[trigger] after.contains(other) <==> other != members[at]
        && members.contains(other) by {
        if members.contains(other) && other != members[at] {
            let i = members.index_of(other);
            if i < at {
                assert(after[i] == other);
            } else {
                assert(after[i - 1] == other);
            }
        }
        if after.contains(other) {
            let i = after.index_of(other);
            order::lemma_irreflexive(other.key());
            if i < at {
                assert(members[i] == other);
                assert(order::before(members[i].key(), members[at].key()));
            } else {
                assert(members[i + 1] == other);
                assert(order::before(members[at].key(), members[i + 1].key()));
            }
        }
    }
}

proof fn lemma_remove_ascending(members: Seq<ParticipantId>, at: int)
    requires
        0 <= at < members.len(),
        ascending(members),
    ensures
        ascending(members.remove(at)),
{
    let after = members.remove(at);
    assert forall|i: int, j: int| 0 <= i < j < after.len() implies order::before(
        (#[trigger] after[i]).key(),
        (#[trigger] after[j]).key(),
    ) by {
        let k = if i < at {
            i
        } else {
            i + 1
        };
        let l = if j < at {
            j
        } else {
            j + 1
        };
        assert(after[i] == members[k]);
        assert(after[j] == members[l]);
    }
}

/// Peers that know the same participants hold the same roster, in whatever order
/// they met them; hence they agree on the leader and on every turn.
pub proof fn law_same_participants_give_the_same_roster(
    a: Seq<ParticipantId>,
    b: Seq<ParticipantId>,
)
    requires
        ascending(a),
        ascending(b),
        forall|participant: ParticipantId| a.contains(participant) <==> b.contains(participant),
    ensures
        a == b,
    decreases a.len(),
{
    if a.len() == 0 {
        if b.len() > 0 {
            assert(b.contains(b[0]));
        }
        assert(a =~= b);
    } else {
        assert(a.contains(a[0]));
        let i = b.index_of(a[0]);
        assert(b.contains(b[0]));
        let j = a.index_of(b[0]);
        if i > 0 {
            assert(order::before(b[0].key(), b[i].key()));
            if j > 0 {
                assert(order::before(a[0].key(), a[j].key()));
                order::lemma_asymmetric(a[0].key(), a[j].key());
            } else {
                order::lemma_irreflexive(b[0].key());
            }
        }
        assert(a[0] == b[0]);
        let (x, y) = (a.drop_first(), b.drop_first());
        assert(x =~= a.remove(0));
        assert(y =~= b.remove(0));
        lemma_remove_members(a, 0);
        lemma_remove_members(b, 0);
        lemma_remove_ascending(a, 0);
        lemma_remove_ascending(b, 0);
        law_same_participants_give_the_same_roster(x, y);
        assert(a =~= seq![a[0]] + x);
        assert(b =~= seq![b[0]] + y);
    }
}

} // verus!

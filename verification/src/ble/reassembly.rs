//! Bounded reassembly of interleaved wire messages.

use crate::ble::error::BleWireError;
use crate::ble::fragment;
use crate::ble::fragment::{decode_fragment, Fragment, FragmentView};
use crate::ble::limits::HARD_MAX_WIRE_BYTES;
use crate::bytes;
use vstd::prelude::*;

verus! {

pub const MAX_INTERLEAVED_REASSEMBLIES: u8 = 8;

/// Allocation and concurrency limits for one BLE receive direction.
#[derive(Clone, Copy, PartialEq, Eq, Debug, Structural)]
pub struct ReassemblyBudget {
    max_wire_bytes: usize,
    max_partial_messages: u8,
    max_total_partial_bytes: usize,
}

/// The limits of a budget.
pub struct BudgetView {
    pub max_wire_bytes: usize,
    pub max_partial_messages: u8,
    pub max_total_partial_bytes: usize,
}

impl BudgetView {
    pub open spec fn valid(self) -> bool {
        &&& 0 < self.max_wire_bytes <= HARD_MAX_WIRE_BYTES
        &&& 0 < self.max_partial_messages <= MAX_INTERLEAVED_REASSEMBLIES
        &&& 0 < self.max_total_partial_bytes
    }

    /// Whether no limit of `self` exceeds the same limit of `other`.
    pub open spec fn within(self, other: BudgetView) -> bool {
        &&& self.max_wire_bytes <= other.max_wire_bytes
        &&& self.max_partial_messages <= other.max_partial_messages
        &&& self.max_total_partial_bytes <= other.max_total_partial_bytes
    }
}

impl View for ReassemblyBudget {
    type V = BudgetView;

    closed spec fn view(&self) -> BudgetView {
        BudgetView {
            max_wire_bytes: self.max_wire_bytes,
            max_partial_messages: self.max_partial_messages,
            max_total_partial_bytes: self.max_total_partial_bytes,
        }
    }
}

impl ReassemblyBudget {
    #[verifier::type_invariant]
    spec fn sound(self) -> bool {
        self@.valid()
    }

    pub fn new(
        max_wire_bytes: usize,
        max_partial_messages: u8,
        max_total_partial_bytes: usize,
    ) -> (result: Result<Self, BleWireError>)
        ensures
            ({
                let limits = BudgetView {
                    max_wire_bytes,
                    max_partial_messages,
                    max_total_partial_bytes,
                };
                match result {
                    Ok(budget) => limits.valid() && budget@ == limits,
                    Err(error) => !limits.valid() && error
                        == BleWireError::InvalidReassemblyBudget,
                }
            }),
    {
        if max_wire_bytes == 0 || max_wire_bytes > HARD_MAX_WIRE_BYTES || max_partial_messages == 0
            || max_partial_messages > MAX_INTERLEAVED_REASSEMBLIES || max_total_partial_bytes
            == 0 {
            return Err(BleWireError::InvalidReassemblyBudget);
        }
        Ok(ReassemblyBudget { max_wire_bytes, max_partial_messages, max_total_partial_bytes })
    }

    /// The budget for one message at a time.
    pub fn single(max_wire_bytes: usize) -> (result: Result<Self, BleWireError>)
        ensures
            match result {
                Ok(budget) => 0 < max_wire_bytes <= HARD_MAX_WIRE_BYTES && budget@ == (BudgetView {
                    max_wire_bytes,
                    max_partial_messages: 1,
                    max_total_partial_bytes: max_wire_bytes,
                }),
                Err(error) => !(0 < max_wire_bytes <= HARD_MAX_WIRE_BYTES) && error
                    == BleWireError::InvalidReassemblyBudget,
            },
    {
        ReassemblyBudget::new(max_wire_bytes, 1, max_wire_bytes)
    }

    pub fn max_wire_bytes(self) -> (limit: usize)
        ensures
            limit == self@.max_wire_bytes,
    {
        self.max_wire_bytes
    }

    pub fn max_partial_messages(self) -> (limit: u8)
        ensures
            limit == self@.max_partial_messages,
    {
        self.max_partial_messages
    }

    pub fn max_total_partial_bytes(self) -> (limit: usize)
        ensures
            limit == self@.max_total_partial_bytes,
    {
        self.max_total_partial_bytes
    }
}

struct PartialMessage {
    message_id: u16,
    total_bytes: u16,
    bytes: Vec<u8>,
}

/// A message of which a beginning has arrived.
#[verifier::ext_equal]
pub struct PartialView {
    pub message_id: u16,
    pub total_bytes: u16,
    pub bytes: Seq<u8>,
}

impl View for PartialMessage {
    type V = PartialView;

    closed spec fn view(&self) -> PartialView {
        PartialView {
            message_id: self.message_id,
            total_bytes: self.total_bytes,
            bytes: self.bytes@,
        }
    }
}

/// How many bytes the messages will have when they are complete.
pub open spec fn declared(partials: Seq<PartialView>) -> nat
    decreases partials.len(),
{
    if partials.len() == 0 {
        0
    } else {
        declared(partials.drop_last()) + partials.last().total_bytes as nat
    }
}

/// Whether a beginning of message `id` has arrived.
pub open spec fn begun(partials: Seq<PartialView>, id: u16) -> bool {
    exists|i: int| 0 <= i < partials.len() && #[trigger] partials[i].message_id == id
}

/// Where the beginning of message `id` stands.
pub open spec fn place(partials: Seq<PartialView>, id: u16) -> int {
    choose|i: int| 0 <= i < partials.len() && #[trigger] partials[i].message_id == id
}

/// What has arrived of message `id`, if anything.
pub open spec fn progress(partials: Seq<PartialView>, id: u16) -> Option<PartialView> {
    if begun(partials, id) {
        Some(partials[place(partials, id)])
    } else {
        None
    }
}

/// The beginnings that are retained, in the order in which they began, and the
/// limits on them.
pub struct ReassemblyView {
    pub budget: BudgetView,
    pub partials: Seq<PartialView>,
}

impl ReassemblyView {
    /// What holds of a reassembler at all times: no message has two beginnings,
    /// every beginning is incomplete and its message within the limit, and their
    /// number and declared size are within theirs.
    pub open spec fn bounded(self) -> bool {
        &&& self.budget.valid()
        &&& self.partials.len() <= self.budget.max_partial_messages
        &&& declared(self.partials) <= self.budget.max_total_partial_bytes
        &&& forall|i: int|
            0 <= i < self.partials.len() ==> {
                &&& (#[trigger] self.partials[i]).bytes.len() < self.partials[i].total_bytes
                &&& self.partials[i].total_bytes <= self.budget.max_wire_bytes
            }
        &&& forall|i: int, j: int|
            0 <= i < j < self.partials.len() ==> (#[trigger] self.partials[i]).message_id != (
            #[trigger] self.partials[j]).message_id
    }

    /// The beginnings once a fragment that starts a message has been given
    /// `reserved` memory for it, or one that continues a message has found it;
    /// or why the fragment is refused.
    pub open spec fn opened(self, f: FragmentView, reserved: bool) -> Result<
        Seq<PartialView>,
        BleWireError,
    > {
        let requested = declared(self.partials) + f.total_bytes;
        if f.total_bytes > self.budget.max_wire_bytes {
            Err(
                BleWireError::WireMessageTooLarge {
                    actual: f.total_bytes as usize,
                    maximum: self.budget.max_wire_bytes,
                },
            )
        } else if f.start {
            if begun(self.partials, f.message_id) || self.partials.len()
                == self.budget.max_partial_messages {
                Err(BleWireError::InterleavedMessages)
            } else if requested > self.budget.max_total_partial_bytes {
                Err(
                    BleWireError::PartialAssemblyBudgetExceeded {
                        requested: if requested > usize::MAX {
                            usize::MAX
                        } else {
                            requested as usize
                        },
                        maximum: self.budget.max_total_partial_bytes,
                    },
                )
            } else if !reserved {
                Err(BleWireError::AllocationFailed(f.total_bytes as usize))
            } else {
                Ok(
                    self.partials.push(
                        PartialView {
                            message_id: f.message_id,
                            total_bytes: f.total_bytes,
                            bytes: Seq::empty(),
                        },
                    ),
                )
            }
        } else if !begun(self.partials, f.message_id) {
            Err(BleWireError::MissingFragmentStart)
        } else {
            Ok(self.partials)
        }
    }

    /// The beginnings after a fragment, and the message that it completes; or
    /// why the fragment is refused.
    pub open spec fn joined(self, f: FragmentView, reserved: bool) -> Result<
        (Seq<PartialView>, Option<Seq<u8>>),
        BleWireError,
    > {
        match self.opened(f, reserved) {
            Err(error) => Err(error),
            Ok(opened) => {
                let at = place(opened, f.message_id);
                let partial = opened[at];
                if partial.total_bytes != f.total_bytes || partial.bytes.len() != f.offset {
                    Err(BleWireError::FragmentDiscontinuity)
                } else if f.end {
                    Ok((opened.remove(at), Some(partial.bytes + f.payload)))
                } else {
                    Ok(
                        (
                            opened.update(
                                at,
                                PartialView { bytes: partial.bytes + f.payload, ..partial },
                            ),
                            None,
                        ),
                    )
                }
            },
        }
    }

    /// Whether a fragment begins a message for which memory is to be reserved.
    pub open spec fn begins(self, f: FragmentView) -> bool {
        f.start && self.opened(f, true) is Ok
    }

    /// Offering a fragment to a reassembler. A refusal discards every beginning.
    pub open spec fn step(
        self,
        f: FragmentView,
        reserved: bool,
        after: ReassemblyView,
        result: Result<Option<Seq<u8>>, BleWireError>,
    ) -> bool {
        &&& after.budget == self.budget
        &&& match self.joined(f, reserved) {
            Ok((partials, message)) => after.partials == partials && result == Ok::<
                Option<Seq<u8>>,
                BleWireError,
            >(message),
            Err(error) => after.partials == Seq::<PartialView>::empty() && result == Err::<
                Option<Seq<u8>>,
                BleWireError,
            >(error),
        }
    }

    /// Offering a packet to a reassembler.
    pub open spec fn packet_step(
        self,
        packet: Seq<u8>,
        reserved: bool,
        after: ReassemblyView,
        result: Result<Option<Seq<u8>>, BleWireError>,
    ) -> bool {
        ||| exists|f: FragmentView|
            f.fits() && packet == #[trigger] f.encoded() && self.step(f, reserved, after, result)
        ||| {
            &&& forall|f: FragmentView| f.fits() ==> packet != #[trigger] f.encoded()
            &&& after.budget == self.budget
            &&& after.partials == Seq::<PartialView>::empty()
            &&& result == Err::<Option<Seq<u8>>, BleWireError>(BleWireError::MalformedFragment)
        }
    }
}

proof fn lemma_declared_push(partials: Seq<PartialView>, p: PartialView)
    ensures
        declared(partials.push(p)) == declared(partials) + p.total_bytes,
{
    assert(partials.push(p).drop_last() =~= partials);
}

proof fn lemma_declared_remove(partials: Seq<PartialView>, i: int)
    requires
        0 <= i < partials.len(),
    ensures
        declared(partials.remove(i)) + partials[i].total_bytes == declared(partials),
    decreases partials.len(),
{
    if i == partials.len() - 1 {
        assert(partials.remove(i) =~= partials.drop_last());
    } else {
        lemma_declared_remove(partials.drop_last(), i);
        assert(partials.remove(i).drop_last() =~= partials.drop_last().remove(i));
        assert(partials.remove(i).last() == partials.last());
    }
}

proof fn lemma_declared_update(partials: Seq<PartialView>, i: int, p: PartialView)
    requires
        0 <= i < partials.len(),
        p.total_bytes == partials[i].total_bytes,
    ensures
        declared(partials.update(i, p)) == declared(partials),
    decreases partials.len(),
{
    if i == partials.len() - 1 {
        assert(partials.update(i, p).drop_last() =~= partials.drop_last());
    } else {
        lemma_declared_update(partials.drop_last(), i, p);
        assert(partials.update(i, p).drop_last() =~= partials.drop_last().update(i, p));
    }
}

/// Where all identifiers differ, the place of a message is the one index at
/// which it stands.
proof fn lemma_place(partials: Seq<PartialView>, id: u16, i: int)
    requires
        0 <= i < partials.len(),
        partials[i].message_id == id,
        forall|a: int, b: int|
            0 <= a < b < partials.len() ==> (#[trigger] partials[a]).message_id != (
            #[trigger] partials[b]).message_id,
    ensures
        begun(partials, id),
        place(partials, id) == i,
{
    let at = place(partials, id);
    assert(0 <= at < partials.len() && partials[at].message_id == id);
    if at < i {
        assert(partials[at].message_id != partials[i].message_id);
    } else if i < at {
        assert(partials[i].message_id != partials[at].message_id);
    }
}

/// Opening a message keeps all bounds, except that its beginning may be empty.
proof fn lemma_opened(state: ReassemblyView, f: FragmentView, reserved: bool)
    requires
        state.bounded(),
        f.fits(),
        state.opened(f, reserved) is Ok,
    ensures
        ({
            let opened = state.opened(f, reserved)->Ok_0;
            &&& opened.len() <= state.budget.max_partial_messages
            &&& declared(opened) <= state.budget.max_total_partial_bytes
            &&& begun(opened, f.message_id)
            &&& 0 <= place(opened, f.message_id) < opened.len()
            &&& opened[place(opened, f.message_id)].message_id == f.message_id
            &&& forall|i: int|
                0 <= i < opened.len() ==> {
                    &&& (#[trigger] opened[i]).total_bytes <= state.budget.max_wire_bytes
                    &&& opened[i].message_id != f.message_id ==> opened[i].bytes.len()
                        < opened[i].total_bytes
                }
            &&& forall|i: int, j: int|
                0 <= i < j < opened.len() ==> (#[trigger] opened[i]).message_id != (
                #[trigger] opened[j]).message_id
        }),
{
    let opened = state.opened(f, reserved)->Ok_0;
    if f.start {
        let p = PartialView {
            message_id: f.message_id,
            total_bytes: f.total_bytes,
            bytes: Seq::empty(),
        };
        lemma_declared_push(state.partials, p);
        let n = state.partials.len() as int;
        assert(opened[n].message_id == f.message_id);
        assert forall|i: int, j: int| 0 <= i < j < opened.len() implies (
        #[trigger] opened[i]).message_id != (#[trigger] opened[j]).message_id by {
            assert(state.partials[i].message_id == opened[i].message_id);
            if j < n {
                assert(state.partials[j].message_id == opened[j].message_id);
            }
        }
        lemma_place(opened, f.message_id, n);
    }
}

/// Joining a fragment keeps every bound.
proof fn lemma_joined_bounded(state: ReassemblyView, f: FragmentView, reserved: bool)
    requires
        state.bounded(),
        f.fits(),
        state.joined(f, reserved) is Ok,
    ensures
        (ReassemblyView {
            budget: state.budget,
            partials: state.joined(f, reserved)->Ok_0.0,
        }).bounded(),
        state.joined(f, reserved)->Ok_0.1 matches Some(message) ==> message.len()
            == f.total_bytes,
{
    lemma_opened(state, f, reserved);
    let opened = state.opened(f, reserved)->Ok_0;
    let at = place(opened, f.message_id);
    let partial = opened[at];
    let after = state.joined(f, reserved)->Ok_0.0;
    if f.end {
        lemma_declared_remove(opened, at);
        assert forall|i: int| 0 <= i < after.len() implies {
            &&& (#[trigger] after[i]).bytes.len() < after[i].total_bytes
            &&& after[i].total_bytes <= state.budget.max_wire_bytes
        } by {
            let k = if i < at {
                i
            } else {
                i + 1
            };
            assert(after[i] == opened[k]);
            if k < at {
                assert(opened[k].message_id != opened[at].message_id);
            } else {
                assert(opened[at].message_id != opened[k].message_id);
            }
        }
        assert forall|i: int, j: int| 0 <= i < j < after.len() implies (
        #[trigger] after[i]).message_id != (#[trigger] after[j]).message_id by {
            let k = if i < at {
                i
            } else {
                i + 1
            };
            let l = if j < at {
                j
            } else {
                j + 1
            };
            assert(after[i] == opened[k]);
            assert(after[j] == opened[l]);
        }
    } else {
        let p = PartialView { bytes: partial.bytes + f.payload, ..partial };
        lemma_declared_update(opened, at, p);
        assert forall|i: int| 0 <= i < after.len() implies {
            &&& (#[trigger] after[i]).bytes.len() < after[i].total_bytes
            &&& after[i].total_bytes <= state.budget.max_wire_bytes
        } by {
            if i < at {
                assert(after[i] == opened[i]);
                assert(opened[i].message_id != opened[at].message_id);
            } else if i > at {
                assert(after[i] == opened[i]);
                assert(opened[at].message_id != opened[i].message_id);
            }
        }
        assert forall|i: int, j: int| 0 <= i < j < after.len() implies (
        #[trigger] after[i]).message_id != (#[trigger] after[j]).message_id by {
            assert(after[i].message_id == opened[i].message_id);
            assert(after[j].message_id == opened[j].message_id);
        }
    }
}

/// Calls `Vec::try_reserve_exact`. Whether there is memory depends on the
/// machine, so nothing is said of the result; the contents do not change.
#[verifier::external_body]
fn try_reserve(memory: &mut Vec<u8>, additional: usize) -> (reserved: bool)
    ensures
        final(memory)@ == old(memory)@,
{
    memory.try_reserve_exact(additional).is_ok()
}

/// Bounded reassembler for a small number of interleaved logical messages.
///
/// Both the message count and total declared assembly bytes are capped before
/// allocation. A host should use one instance per direction and reset it when
/// the authenticated connection closes.
pub struct Reassembler {
    budget: ReassemblyBudget,
    retained_partial_bytes: usize,
    partials: Vec<PartialMessage>,
}

impl View for Reassembler {
    type V = ReassemblyView;

    closed spec fn view(&self) -> ReassemblyView {
        ReassemblyView { budget: self.budget@, partials: views(self.partials@) }
    }
}

spec fn views(partials: Seq<PartialMessage>) -> Seq<PartialView> {
    partials.map_values(|p: PartialMessage| p@)
}

fn find(partials: &Vec<PartialMessage>, id: u16) -> (found: Option<usize>)
    requires
        forall|a: int, b: int|
            0 <= a < b < partials@.len() ==> (#[trigger] views(partials@)[a]).message_id != (
            #[trigger] views(partials@)[b]).message_id,
    ensures
        match found {
            Some(i) => i < partials@.len() && begun(views(partials@), id) && place(
                views(partials@),
                id,
            ) == i,
            None => !begun(views(partials@), id),
        },
{
    let mut i: usize = 0;
    while i < partials.len()
        invariant
            i <= partials@.len(),
            forall|a: int, b: int|
                0 <= a < b < partials@.len() ==> (#[trigger] views(partials@)[a]).message_id != (
                #[trigger] views(partials@)[b]).message_id,
            forall|a: int|
                0 <= a < i ==> (#[trigger] views(partials@)[a]).message_id != id,
        decreases partials@.len() - i,
    {
        assert(views(partials@)[i as int] == partials@[i as int]@);
        if partials[i].message_id == id {
            proof {
                lemma_place(views(partials@), id, i as int);
            }
            return Some(i);
        }
        i = i + 1;
    }
    None
}

impl Reassembler {
    #[verifier::type_invariant]
    spec fn sound(self) -> bool {
        &&& self@.bounded()
        &&& self.retained_partial_bytes == declared(self@.partials)
    }

    pub fn new(max_wire_bytes: usize) -> (result: Result<Self, BleWireError>)
        ensures
            match result {
                Ok(reassembler) => 0 < max_wire_bytes <= HARD_MAX_WIRE_BYTES && reassembler@ == (
                ReassemblyView {
                    budget: BudgetView {
                        max_wire_bytes,
                        max_partial_messages: 1,
                        max_total_partial_bytes: max_wire_bytes,
                    },
                    partials: Seq::empty(),
                }),
                Err(error) => !(0 < max_wire_bytes <= HARD_MAX_WIRE_BYTES) && error
                    == BleWireError::InvalidReassemblyBudget,
            },
    {
        match ReassemblyBudget::single(max_wire_bytes) {
            Ok(budget) => Reassembler::with_budget(budget),
            Err(error) => Err(error),
        }
    }

    /// Create a reassembler that permits a bounded number of fragmented
    /// logical messages to make progress concurrently. A lane-aware sender can
    /// therefore yield between repair fragments for control or realtime while
    /// total retained assembly memory remains explicit.
    pub fn with_budget(budget: ReassemblyBudget) -> (result: Result<Self, BleWireError>)
        ensures
            result is Ok,
            result->Ok_0@ == (ReassemblyView { budget: budget@, partials: Seq::empty() }),
    {
        Ok(Reassembler::empty(budget))
    }

    fn empty(budget: ReassemblyBudget) -> (reassembler: Self)
        ensures
            reassembler@ == (ReassemblyView { budget: budget@, partials: Seq::empty() }),
    {
        proof {
            use_type_invariant(&budget);
        }
        let partials: Vec<PartialMessage> = Vec::new();
        assert(views(partials@) =~= Seq::empty());
        Reassembler { budget, retained_partial_bytes: 0, partials }
    }

    /// Forgets every beginning.
    pub fn reset(&mut self)
        ensures
            final(self)@ == (ReassemblyView { budget: old(self)@.budget, partials: Seq::empty() }),
    {
        let next = Reassembler::empty(self.budget);
        *self = next;
    }

    /// How many bytes the retained beginnings will have when complete. This is
    /// never more than the budget allows.
    pub fn retained_partial_bytes(&self) -> (retained: usize)
        ensures
            retained == declared(self@.partials),
            self@.bounded(),
    {
        proof {
            use_type_invariant(self);
        }
        self.retained_partial_bytes
    }

    pub fn budget(&self) -> (budget: ReassemblyBudget)
        ensures
            budget@ == self@.budget,
    {
        self.budget
    }

    /// Lowers the limits. Refused where a limit would grow, or where what is
    /// retained already exceeds the new ones.
    pub fn restrict_budget(&mut self, budget: ReassemblyBudget) -> (result: Result<
        (),
        BleWireError,
    >)
        ensures
            ({
                let before = old(self)@;
                let fits = budget@.within(before.budget) && before.partials.len()
                    <= budget@.max_partial_messages && declared(before.partials)
                    <= budget@.max_total_partial_bytes && forall|i: int|
                    0 <= i < before.partials.len() ==> (#[trigger] before.partials[i]).total_bytes
                        <= budget@.max_wire_bytes;
                if fits {
                    result is Ok && final(self)@ == (ReassemblyView { budget: budget@, ..before })
                } else {
                    result == Err::<(), BleWireError>(BleWireError::InvalidReassemblyBudget)
                        && final(self)@ == before
                }
            }),
    {
        proof {
            use_type_invariant(&*self);
            use_type_invariant(&budget);
        }
        if budget.max_wire_bytes > self.budget.max_wire_bytes || budget.max_partial_messages
            > self.budget.max_partial_messages || budget.max_total_partial_bytes
            > self.budget.max_total_partial_bytes || self.partials.len()
            > budget.max_partial_messages as usize || self.retained_partial_bytes
            > budget.max_total_partial_bytes {
            return Err(BleWireError::InvalidReassemblyBudget);
        }
        let mut i: usize = 0;
        while i < self.partials.len()
            invariant
                i <= self.partials@.len(),
                forall|a: int|
                    0 <= a < i ==> (#[trigger] self@.partials[a]).total_bytes
                        <= budget.max_wire_bytes,
                *self == *old(self),
            decreases self.partials@.len() - i,
        {
            assert(self@.partials[i as int] == self.partials@[i as int]@);
            if self.partials[i].total_bytes as usize > budget.max_wire_bytes {
                return Err(BleWireError::InvalidReassemblyBudget);
            }
            i = i + 1;
        }
        self.budget = budget;
        Ok(())
    }

    /// Offers a packet for which memory is at hand or not. A packet that begins
    /// a message takes the memory; any other leaves it unused.
    pub fn push_reserved(&mut self, bytes: &[u8], memory: Option<Vec<u8>>) -> (result: Result<
        Option<Vec<u8>>,
        BleWireError,
    >)
        requires
            memory matches Some(memory) ==> memory@.len() == 0,
        ensures
            old(self)@.packet_step(bytes@, memory is Some, final(self)@, message_view(result)),
    {
        match decode_fragment(bytes) {
            Ok(fragment) => self.join_or_reset(&fragment, memory),
            Err(error) => {
                self.reset();
                Err(error)
            },
        }
    }

    /// Offers a packet. Memory is reserved only for a packet that begins a
    /// message within the budget; where there is none, the packet is refused.
    pub fn push(&mut self, bytes: &[u8]) -> (result: Result<Option<Vec<u8>>, BleWireError>)
        ensures
            old(self)@.packet_step(
                bytes@,
                !(result matches Err(BleWireError::AllocationFailed(_))),
                final(self)@,
                message_view(result),
            ),
    {
        let fragment: Fragment = match decode_fragment(bytes) {
            Ok(fragment) => fragment,
            Err(error) => {
                self.reset();
                return Err(error);
            },
        };
        let mut memory: Option<Vec<u8>> = None;
        if self.wants_memory(&fragment) {
            let mut room: Vec<u8> = Vec::new();
            if try_reserve(&mut room, fragment.total_bytes as usize) {
                memory = Some(room);
            }
        }
        self.join_or_reset(&fragment, memory)
    }

    /// Whether the fragment begins a message that the budget admits.
    fn wants_memory(&self, fragment: &Fragment) -> (wants: bool)
        ensures
            wants == self@.begins(fragment@),
    {
        proof {
            use_type_invariant(self);
        }
        let total: usize = fragment.total_bytes as usize;
        fragment.start && total <= self.budget.max_wire_bytes && find(
            &self.partials,
            fragment.message_id,
        ).is_none() && self.partials.len() != self.budget.max_partial_messages as usize && total
            <= self.budget.max_total_partial_bytes && self.retained_partial_bytes
            <= self.budget.max_total_partial_bytes - total
    }

    fn join_or_reset(&mut self, fragment: &Fragment, memory: Option<Vec<u8>>) -> (result: Result<
        Option<Vec<u8>>,
        BleWireError,
    >)
        requires
            fragment@.fits(),
            memory matches Some(memory) ==> memory@.len() == 0,
        ensures
            old(self)@.step(fragment@, memory is Some, final(self)@, message_view(result)),
            memory is Some || !old(self)@.begins(fragment@) ==> old(self)@.step(
                fragment@,
                true,
                final(self)@,
                message_view(result),
            ) && !(result matches Err(BleWireError::AllocationFailed(_))),
            memory is None && old(self)@.begins(fragment@) ==> (result matches Err(
                BleWireError::AllocationFailed(_),
            )),
    {
        let result = self.join(fragment, memory);
        if result.is_err() {
            self.reset();
        }
        result
    }

    /// Joins a fragment to what has arrived. On a refusal the beginnings may be
    /// anything within bounds.
    fn join(&mut self, fragment: &Fragment, memory: Option<Vec<u8>>) -> (result: Result<
        Option<Vec<u8>>,
        BleWireError,
    >)
        requires
            fragment@.fits(),
            memory matches Some(memory) ==> memory@.len() == 0,
        ensures
            final(self)@.budget == old(self)@.budget,
            match result {
                Ok(message) => old(self)@.joined(fragment@, memory is Some) == Ok::<
                    (Seq<PartialView>, Option<Seq<u8>>),
                    BleWireError,
                >(
                    (
                        final(self)@.partials,
                        match message {
                            Some(message) => Some(message@),
                            None => None,
                        },
                    ),
                ),
                Err(error) => old(self)@.joined(fragment@, memory is Some) == Err::<
                    (Seq<PartialView>, Option<Seq<u8>>),
                    BleWireError,
                >(error),
            },
    {
        proof {
            use_type_invariant(&*self);
        }
        let ghost before = self@;
        let ghost reserved = memory is Some;
        let budget: ReassemblyBudget = self.budget;
        let total: usize = fragment.total_bytes as usize;
        if total > budget.max_wire_bytes {
            return Err(
                BleWireError::WireMessageTooLarge {
                    actual: total,
                    maximum: budget.max_wire_bytes,
                },
            );
        }
        let mut whole: Reassembler = Reassembler::empty(budget);
        std::mem::swap(self, &mut whole);
        let retained_before: usize = whole.retained_partial_bytes;
        let mut partials: Vec<PartialMessage> = whole.partials;
        let found: Option<usize> = find(&partials, fragment.message_id);
        let mut retained: usize = retained_before;
        let at: usize = if fragment.start {
            if found.is_some() || partials.len() == budget.max_partial_messages as usize {
                return Err(BleWireError::InterleavedMessages);
            }
            let requested: usize = match retained_before.checked_add(total) {
                Some(requested) => requested,
                None => {
                    return Err(
                        BleWireError::PartialAssemblyBudgetExceeded {
                            requested: usize::MAX,
                            maximum: budget.max_total_partial_bytes,
                        },
                    );
                },
            };
            if requested > budget.max_total_partial_bytes {
                return Err(
                    BleWireError::PartialAssemblyBudgetExceeded {
                        requested,
                        maximum: budget.max_total_partial_bytes,
                    },
                );
            }
            let memory: Vec<u8> = match memory {
                Some(memory) => memory,
                None => {
                    return Err(BleWireError::AllocationFailed(total));
                },
            };
            let opened = PartialMessage {
                message_id: fragment.message_id,
                total_bytes: fragment.total_bytes,
                bytes: memory,
            };
            proof {
                assert(opened@.bytes =~= Seq::empty());
                assert(views(partials@.push(opened)) =~= views(partials@).push(opened@));
                lemma_declared_push(views(partials@), opened@);
            }
            partials.push(opened);
            retained = requested;
            partials.len() - 1
        } else {
            match found {
                Some(at) => at,
                None => {
                    return Err(BleWireError::MissingFragmentStart);
                },
            }
        };
        let ghost opened = views(partials@);
        proof {
            assert(before.opened(fragment@, reserved) == Ok::<Seq<PartialView>, BleWireError>(
                opened,
            ));
            lemma_opened(before, fragment@, reserved);
            lemma_place(opened, fragment.message_id, at as int);
            assert(opened[at as int] == partials@[at as int]@);
        }
        let mut partial: PartialMessage = partials.remove(at);
        if partial.total_bytes != fragment.total_bytes || partial.bytes.len()
            != fragment.offset as usize {
            return Err(BleWireError::FragmentDiscontinuity);
        }
        proof {
            lemma_joined_bounded(before, fragment@, reserved);
            lemma_declared_remove(opened, at as int);
            assert(views(partials@) =~= opened.remove(at as int));
        }
        let ghost prefix = partial@;
        bytes::push_bytes(&mut partial.bytes, fragment.payload);
        let ghost grown = PartialView { bytes: prefix.bytes + fragment.payload@, ..prefix };
        assert(partial@ =~= grown);
        if fragment.end {
            let next = Reassembler {
                budget,
                retained_partial_bytes: retained - partial.total_bytes as usize,
                partials,
            };
            *self = next;
            return Ok(Some(partial.bytes));
        }
        partials.insert(at, partial);
        proof {
            assert(views(partials@) =~= opened.update(at as int, grown));
            lemma_declared_update(opened, at as int, grown);
        }
        let next = Reassembler { budget, retained_partial_bytes: retained, partials };
        *self = next;
        Ok(None)
    }
}

/// A result with its message, if any, taken by its bytes.
pub open spec fn message_view(result: Result<Option<Vec<u8>>, BleWireError>) -> Result<
    Option<Seq<u8>>,
    BleWireError,
> {
    match result {
        Ok(Some(message)) => Ok(Some(message@)),
        Ok(None) => Ok(None),
        Err(error) => Err(error),
    }
}

/// Whatever packet a reassembler is offered, it stays within its bounds.
pub proof fn law_reassembly_stays_bounded(
    before: ReassemblyView,
    packet: Seq<u8>,
    reserved: bool,
    after: ReassemblyView,
    result: Result<Option<Seq<u8>>, BleWireError>,
)
    requires
        before.bounded(),
        before.packet_step(packet, reserved, after, result),
    ensures
        after.bounded(),
        after.budget == before.budget,
{
    if exists|f: FragmentView|
        f.fits() && packet == #[trigger] f.encoded() && before.step(f, reserved, after, result) {
        let f = choose|f: FragmentView|
            f.fits() && packet == #[trigger] f.encoded() && before.step(
                f,
                reserved,
                after,
                result,
            );
        if before.joined(f, reserved) is Ok {
            lemma_joined_bounded(before, f, reserved);
        }
    }
}

/// What is known of a message does not change with fragments of others.
pub proof fn law_other_messages_are_undisturbed(
    state: ReassemblyView,
    f: FragmentView,
    reserved: bool,
    id: u16,
)
    requires
        state.bounded(),
        f.fits(),
        state.joined(f, reserved) is Ok,
        id != f.message_id,
    ensures
        progress(state.joined(f, reserved)->Ok_0.0, id) == progress(state.partials, id),
{
    lemma_opened(state, f, reserved);
    lemma_joined_bounded(state, f, reserved);
    let opened = state.opened(f, reserved)->Ok_0;
    let after = state.joined(f, reserved)->Ok_0.0;
    let at = place(opened, f.message_id);
    if begun(state.partials, id) {
        let i = place(state.partials, id);
        assert(opened[i] == state.partials[i]);
        let k = if f.end && i > at {
            i - 1
        } else {
            i
        };
        assert(after[k] == state.partials[i]);
        lemma_place(after, id, k);
    } else if begun(after, id) {
        let k = place(after, id);
        let i = if f.end && k >= at {
            k + 1
        } else {
            k
        };
        assert(opened[i].message_id == id);
        assert(state.partials[i].message_id == id);
    }
}

/// The piece of a message that a fragment carries is the one it claims.
pub open spec fn piece_of(f: FragmentView, message: Seq<u8>) -> bool {
    &&& f.fits()
    &&& f.total_bytes == message.len()
    &&& f.payload == message.subrange(f.offset as int, f.offset + f.payload.len())
}

/// A fragment that continues a message where its beginning ended extends the
/// beginning, and the last one completes the message.
pub proof fn law_fragment_advances_its_message(
    state: ReassemblyView,
    f: FragmentView,
    message: Seq<u8>,
)
    requires
        state.bounded(),
        piece_of(f, message),
        if f.start {
            state.begins(f)
        } else {
            progress(state.partials, f.message_id) == Some(
                PartialView {
                    message_id: f.message_id,
                    total_bytes: f.total_bytes,
                    bytes: message.subrange(0, f.offset as int),
                },
            )
        },
    ensures
        state.joined(f, true) is Ok,
        ({
            let (after, result) = state.joined(f, true)->Ok_0;
            if f.end {
                result == Some(message) && progress(after, f.message_id) is None
            } else {
                result is None && progress(after, f.message_id) == Some(
                    PartialView {
                        message_id: f.message_id,
                        total_bytes: f.total_bytes,
                        bytes: message.subrange(0, f.offset + f.payload.len()),
                    },
                )
            }
        }),
{
    let id = f.message_id;
    let grown = message.subrange(0, f.offset + f.payload.len());
    assert(message.subrange(0, f.offset as int) + f.payload =~= grown);
    if !f.start {
        let i = place(state.partials, id);
        assert(0 <= i < state.partials.len());
        assert(state.partials[i].total_bytes <= state.budget.max_wire_bytes);
    }
    lemma_opened(state, f, true);
    let opened = state.opened(f, true)->Ok_0;
    let at = place(opened, id);
    if f.start {
        lemma_place(opened, id, state.partials.len() as int);
        assert(opened[at].bytes =~= message.subrange(0, 0));
    }
    lemma_joined_bounded(state, f, true);
    let after = state.joined(f, true)->Ok_0.0;
    if f.end {
        assert(grown =~= message);
        if begun(after, id) {
            let k = place(after, id);
            let i = if k >= at {
                k + 1
            } else {
                k
            };
            assert(opened[i] == after[k]);
            if i < at {
                assert(opened[i].message_id != opened[at].message_id);
            } else {
                assert(opened[at].message_id != opened[i].message_id);
            }
        }
    } else {
        lemma_place(after, id, at);
    }
}

/// Consecutive fragments of a message carry consecutive pieces of it.
proof fn lemma_pieces_from(id: u16, message: Seq<u8>, chunk: nat, offset: nat, i: int)
    requires
        chunk > 0,
        message.len() <= HARD_MAX_WIRE_BYTES,
        offset < message.len(),
        0 <= i < fragment::fragments_from(id, message, chunk, offset).len(),
    ensures
        ({
            let all = fragment::fragments_from(id, message, chunk, offset);
            let f = all[i];
            &&& f.message_id == id
            &&& piece_of(f, message)
            &&& f.end == (i == all.len() - 1)
            &&& i == 0 ==> f.offset == offset
            &&& i > 0 ==> f.offset == all[i - 1].offset + all[i - 1].payload.len()
            &&& i > 0 ==> f.offset > 0
        }),
    decreases message.len() - offset,
{
    let all = fragment::fragments_from(id, message, chunk, offset);
    let end = fragment::fragment_end(message, chunk, offset);
    let rest = fragment::fragments_from(id, message, chunk, end);
    assert(all =~= seq![fragment::fragment_at(id, message, chunk, offset)] + rest);
    if i > 0 {
        lemma_pieces_from(id, message, chunk, end, i - 1);
        assert(all[i] == rest[i - 1]);
        if i > 1 {
            assert(all[i - 1] == rest[i - 2]);
        }
    } else if end < message.len() {
        assert(rest.len() > 0);
    }
}

proof fn lemma_pieces(id: u16, message: Seq<u8>, chunk: nat, i: int)
    requires
        chunk > 0,
        message.len() <= HARD_MAX_WIRE_BYTES,
        0 <= i < fragment::fragments(id, message, chunk).len(),
    ensures
        ({
            let all = fragment::fragments(id, message, chunk);
            let f = all[i];
            &&& f.message_id == id
            &&& piece_of(f, message)
            &&& f.end == (i == all.len() - 1)
            &&& f.start == (i == 0)
            &&& i > 0 ==> f.offset == all[i - 1].offset + all[i - 1].payload.len()
        }),
{
    if message.len() > 0 {
        lemma_pieces_from(id, message, chunk, 0, i);
    } else {
        let f = fragment::fragments(id, message, chunk)[i];
        assert(f.payload =~= message.subrange(0, 0));
    }
}

/// A reassembler that accepts fragments one after the other.
pub struct Run {
    pub states: Seq<ReassemblyView>,
    pub fragments: Seq<FragmentView>,
    pub results: Seq<Option<Seq<u8>>>,
}

impl Run {
    pub open spec fn valid(self) -> bool {
        &&& self.states.len() == self.fragments.len() + 1
        &&& self.results.len() == self.fragments.len()
        &&& forall|i: int| 0 <= i < self.states.len() ==> (#[trigger] self.states[i]).bounded()
        &&& forall|i: int|
            0 <= i < self.fragments.len() ==> {
                &&& (#[trigger] self.fragments[i]).fits()
                &&& self.states[i].joined(self.fragments[i], true) == Ok::<
                    (Seq<PartialView>, Option<Seq<u8>>),
                    BleWireError,
                >((self.states[i + 1].partials, self.results[i]))
            }
    }

    /// Whether the fragments of `message` stand at the positions `at`, in their
    /// order, with only fragments of other messages between them.
    pub open spec fn interleaves(self, id: u16, message: Seq<u8>, chunk: nat, at: Seq<int>) -> bool {
        let all = fragment::fragments(id, message, chunk);
        &&& at.len() == all.len()
        &&& forall|k: int|
            0 <= k < at.len() ==> 0 <= #[trigger] at[k] < self.fragments.len()
                && self.fragments[at[k]] == all[k]
        &&& forall|k: int, l: int| 0 <= k < l < at.len() ==> #[trigger] at[k] < #[trigger] at[l]
        &&& forall|p: int|
            at[0] <= p <= at.last() && !at.contains(p) ==> (
            #[trigger] self.fragments[p]).message_id != id
    }
}

/// What has arrived of the message just before its next fragment.
proof fn lemma_interleaved_progress(
    run: Run,
    id: u16,
    message: Seq<u8>,
    chunk: nat,
    at: Seq<int>,
    k: int,
    p: int,
)
    requires
        run.valid(),
        run.interleaves(id, message, chunk, at),
        chunk > 0,
        message.len() <= HARD_MAX_WIRE_BYTES,
        0 < k < at.len(),
        at[k - 1] < p <= at[k],
    ensures
        progress(run.states[p].partials, id) == Some(
            PartialView {
                message_id: id,
                total_bytes: message.len() as u16,
                bytes: message.subrange(
                    0,
                    fragment::fragments(id, message, chunk)[k].offset as int,
                ),
            },
        ),
    decreases p,
{
    let all = fragment::fragments(id, message, chunk);
    let q = p - 1;
    let state = run.states[q];
    let f = run.fragments[q];
    lemma_pieces(id, message, chunk, k);
    assert(at[k] < run.fragments.len());
    assert(0 <= at[k - 1]);
    if q == at[k - 1] {
        lemma_pieces(id, message, chunk, k - 1);
        assert(f == all[k - 1]);
        if k - 1 > 0 {
            lemma_interleaved_progress(run, id, message, chunk, at, k - 1, q);
        } else {
            assert(state.joined(f, true) is Ok);
        }
        law_fragment_advances_its_message(state, f, message);
    } else {
        lemma_interleaved_progress(run, id, message, chunk, at, k, q);
        assert(!at.contains(q)) by {
            if at.contains(q) {
                let l = choose|l: int| 0 <= l < at.len() && at[l] == q;
                if l < k - 1 {
                    assert(at[l] < at[k - 1]);
                } else if l > k {
                    assert(at[k] < at[l]);
                }
            }
        }
        assert(at[0] <= at[k - 1]) by {
            if k - 1 > 0 {
                assert(at[0] < at[k - 1]);
            }
        }
        assert(at[k] <= at.last()) by {
            if k < at.len() - 1 {
                assert(at[k] < at[at.len() - 1]);
            }
        }
        assert(f.message_id != id);
        law_other_messages_are_undisturbed(state, f, true, id);
    }
}

/// Interleaving is harmless: however the fragments of a message are mixed with
/// those of other messages, the last of them completes the message and no
/// earlier one completes anything.
pub proof fn law_interleaved_message_completes(
    run: Run,
    id: u16,
    message: Seq<u8>,
    chunk: nat,
    at: Seq<int>,
    k: int,
)
    requires
        run.valid(),
        run.interleaves(id, message, chunk, at),
        chunk > 0,
        message.len() <= HARD_MAX_WIRE_BYTES,
        0 <= k < at.len(),
    ensures
        run.results[at[k]] == if k == at.len() - 1 {
            Some(message)
        } else {
            None
        },
{
    let state = run.states[at[k]];
    let f = run.fragments[at[k]];
    lemma_pieces(id, message, chunk, k);
    if k > 0 {
        assert(at[k - 1] < at[k]);
        lemma_interleaved_progress(run, id, message, chunk, at, k, at[k]);
    } else {
        assert(state.joined(f, true) is Ok);
    }
    law_fragment_advances_its_message(state, f, message);
}

/// The state after the first `n` of these fragments.
pub open spec fn after_fragments(
    start: ReassemblyView,
    fragments: Seq<FragmentView>,
    n: nat,
) -> ReassemblyView
    decreases n,
{
    if n == 0 {
        start
    } else {
        let before = after_fragments(start, fragments, (n - 1) as nat);
        ReassemblyView {
            budget: before.budget,
            partials: before.joined(fragments[n - 1], true)->Ok_0.0,
        }
    }
}

/// A message sent alone arrives: a reassembler that has room for it takes all of
/// its fragments, one after the other. The last one gives the message back and
/// leaves the reassembler as it was; the ones before it give nothing.
pub proof fn law_fragmented_message_arrives(
    start: ReassemblyView,
    id: u16,
    message: Seq<u8>,
    chunk: nat,
    n: nat,
)
    requires
        start.bounded(),
        chunk > 0,
        message.len() <= HARD_MAX_WIRE_BYTES,
        start.begins(fragment::fragments(id, message, chunk)[0]),
        n < fragment::fragments(id, message, chunk).len(),
    ensures
        ({
            let all = fragment::fragments(id, message, chunk);
            let reached = after_fragments(start, all, n);
            let joined = reached.joined(all[n as int], true);
            &&& reached.bounded()
            &&& joined is Ok
            &&& if n == all.len() - 1 {
                joined->Ok_0.1 == Some(message) && after_fragments(start, all, n + 1) == start
            } else {
                joined->Ok_0.1 is None && after_fragments(start, all, n + 1).partials
                    == start.partials.push(
                    PartialView {
                        message_id: id,
                        total_bytes: message.len() as u16,
                        bytes: message.subrange(0, all[n as int].offset + all[n as int].payload.len()),
                    },
                )
            }
        }),
    decreases n,
{
    let all = fragment::fragments(id, message, chunk);
    let reached = after_fragments(start, all, n);
    let f = all[n as int];
    let last = start.partials.len() as int;
    lemma_pieces(id, message, chunk, n as int);
    if n > 0 {
        law_fragmented_message_arrives(start, id, message, chunk, (n - 1) as nat);
        let before = after_fragments(start, all, (n - 1) as nat);
        lemma_pieces(id, message, chunk, n - 1);
        lemma_joined_bounded(before, all[n - 1], true);
        assert(reached.partials[last].message_id == id);
        lemma_place(reached.partials, id, last);
    }
    law_fragment_advances_its_message(reached, f, message);
    lemma_opened(reached, f, true);
    let opened = reached.opened(f, true)->Ok_0;
    assert(opened[last].message_id == id);
    lemma_place(opened, id, last);
    let after = after_fragments(start, all, n + 1);
    assert(after.partials == reached.joined(f, true)->Ok_0.0);
    assert(after.budget == start.budget) by {
        lemma_budget_is_kept(start, all, n + 1);
    }
    if n == all.len() - 1 {
        assert(after.partials =~= start.partials);
    } else {
        let grown = message.subrange(0, f.offset + f.payload.len());
        assert(opened[last].bytes + f.payload =~= grown) by {
            if n == 0 {
                assert(opened[last].bytes =~= Seq::empty());
            }
        }
        assert(after.partials =~= start.partials.push(
            PartialView { message_id: id, total_bytes: message.len() as u16, bytes: grown },
        ));
    }
}

proof fn lemma_budget_is_kept(start: ReassemblyView, fragments: Seq<FragmentView>, n: nat)
    ensures
        after_fragments(start, fragments, n).budget == start.budget,
    decreases n,
{
    if n > 0 {
        lemma_budget_is_kept(start, fragments, (n - 1) as nat);
    }
}

/// A message that is sent in fragments.
pub struct Sent {
    pub id: u16,
    pub message: Seq<u8>,
    pub chunk: nat,
}

impl Sent {
    pub open spec fn fragments(self) -> Seq<FragmentView> {
        fragment::fragments(self.id, self.message, self.chunk)
    }

    /// What is retained of the message once `n` of its fragments have arrived:
    /// nothing before the first and nothing after the last.
    pub open spec fn arrived(self, n: nat) -> Option<PartialView> {
        if 0 < n < self.fragments().len() {
            Some(
                PartialView {
                    message_id: self.id,
                    total_bytes: self.message.len() as u16,
                    bytes: self.message.subrange(0, self.fragments()[n as int].offset as int),
                },
            )
        } else {
            None
        }
    }
}

/// How many bytes messages have together.
pub open spec fn total_len(sent: Seq<Sent>) -> nat
    decreases sent.len(),
{
    if sent.len() == 0 {
        0
    } else {
        total_len(sent.drop_last()) + sent.last().message.len()
    }
}

/// Whether messages may be under way at the same time: their identifiers differ,
/// and their number, their sizes and the sum of these are within the budget.
pub open spec fn fit_together(sent: Seq<Sent>, budget: BudgetView) -> bool {
    &&& sent.len() <= budget.max_partial_messages
    &&& total_len(sent) <= budget.max_total_partial_bytes
    &&& forall|i: int|
        0 <= i < sent.len() ==> (#[trigger] sent[i]).chunk > 0 && sent[i].message.len()
            <= budget.max_wire_bytes
    &&& forall|i: int, j: int|
        0 <= i < j < sent.len() ==> (#[trigger] sent[i]).id != (#[trigger] sent[j]).id
}

/// How often message `i` had its turn among the first `p` turns.
pub open spec fn turns_of(turns: Seq<int>, p: int, i: int) -> nat
    decreases p,
{
    if p <= 0 {
        0
    } else {
        turns_of(turns, p - 1, i) + if turns[p - 1] == i {
            1nat
        } else {
            0nat
        }
    }
}

/// Whether turns interleave the fragments of messages: at each turn one message
/// sends its next fragment, and at the end every message is sent.
pub open spec fn interleaved(sent: Seq<Sent>, turns: Seq<int>) -> bool {
    &&& forall|p: int| 0 <= p < turns.len() ==> 0 <= #[trigger] turns[p] < sent.len()
    &&& forall|i: int|
        0 <= i < sent.len() ==> turns_of(turns, turns.len() as int, i) == (
        #[trigger] sent[i]).fragments().len()
}

/// The fragments in the order of the turns.
pub open spec fn stream(sent: Seq<Sent>, turns: Seq<int>) -> Seq<FragmentView> {
    Seq::new(
        turns.len(),
        |p: int| sent[turns[p]].fragments()[turns_of(turns, p, turns[p]) as int],
    )
}

/// Whether a reassembler retains exactly what has arrived after `p` turns.
spec fn tracks(state: ReassemblyView, sent: Seq<Sent>, turns: Seq<int>, p: int) -> bool {
    &&& state.bounded()
    &&& forall|i: int|
        0 <= i < sent.len() ==> progress(state.partials, (#[trigger] sent[i]).id)
            == sent[i].arrived(turns_of(turns, p, i))
    &&& forall|k: int|
        0 <= k < state.partials.len() ==> is_sent(
            sent,
            (#[trigger] state.partials[k]).message_id,
        )
}

spec fn is_sent(sent: Seq<Sent>, id: u16) -> bool {
    exists|i: int| 0 <= i < sent.len() && (#[trigger] sent[i]).id == id
}

proof fn lemma_turns_grow(turns: Seq<int>, p: int, q: int, i: int)
    requires
        p <= q,
    ensures
        turns_of(turns, p, i) <= turns_of(turns, q, i),
    decreases q - p,
{
    if p < q {
        lemma_turns_grow(turns, p, q - 1, i);
    }
}

proof fn lemma_total_remove(sent: Seq<Sent>, i: int)
    requires
        0 <= i < sent.len(),
    ensures
        total_len(sent.remove(i)) + sent[i].message.len() == total_len(sent),
    decreases sent.len(),
{
    if i == sent.len() - 1 {
        assert(sent.remove(i) =~= sent.drop_last());
    } else {
        lemma_total_remove(sent.drop_last(), i);
        assert(sent.remove(i).drop_last() =~= sent.drop_last().remove(i));
        assert(sent.remove(i).last() == sent.last());
    }
}

/// Whether a beginning is of one of these messages.
spec fn belongs(partial: PartialView, sent: Seq<Sent>) -> bool {
    exists|i: int|
        0 <= i < sent.len() && (#[trigger] sent[i]).id == partial.message_id
            && sent[i].message.len() == partial.total_bytes
}

/// Beginnings of different messages are no more than the messages, and declare no
/// more bytes.
proof fn lemma_beginnings_fit(partials: Seq<PartialView>, sent: Seq<Sent>)
    requires
        forall|a: int, b: int|
            0 <= a < b < partials.len() ==> (#[trigger] partials[a]).message_id != (
            #[trigger] partials[b]).message_id,
        forall|k: int| 0 <= k < partials.len() ==> belongs(#[trigger] partials[k], sent),
    ensures
        partials.len() <= sent.len(),
        declared(partials) <= total_len(sent),
    decreases partials.len(),
{
    if partials.len() > 0 {
        let last = partials.last();
        let front = partials.drop_last();
        assert(partials[partials.len() - 1] == last);
        let i = choose|i: int|
            0 <= i < sent.len() && (#[trigger] sent[i]).id == last.message_id
                && sent[i].message.len() == last.total_bytes;
        let rest = sent.remove(i);
        assert forall|k: int| 0 <= k < front.len() implies belongs(#[trigger] front[k], rest) by {
            assert(front[k] == partials[k]);
            assert(belongs(partials[k], sent));
            let j = choose|j: int|
                0 <= j < sent.len() && (#[trigger] sent[j]).id == partials[k].message_id
                    && sent[j].message.len() == partials[k].total_bytes;
            assert(partials[k].message_id != partials[partials.len() - 1].message_id);
            assert(j != i);
            let at = if j < i {
                j
            } else {
                j - 1
            };
            assert(rest[at] == sent[j]);
        }
        lemma_beginnings_fit(front, rest);
        lemma_total_remove(sent, i);
    }
}

/// The message whose turn it is has a fragment left, and the next state retains
/// what has arrived.
proof fn lemma_turn(state: ReassemblyView, sent: Seq<Sent>, turns: Seq<int>, p: int)
    requires
        tracks(state, sent, turns, p),
        fit_together(sent, state.budget),
        interleaved(sent, turns),
        0 <= p < turns.len(),
    ensures
        ({
            let j = turns[p];
            let n = turns_of(turns, p, j);
            let f = stream(sent, turns)[p];
            let joined = state.joined(f, true);
            &&& n < sent[j].fragments().len()
            &&& f.fits()
            &&& joined is Ok
            &&& joined->Ok_0.1 == if n + 1 == sent[j].fragments().len() {
                Some(sent[j].message)
            } else {
                None
            }
            &&& tracks(
                ReassemblyView { partials: joined->Ok_0.0, ..state },
                sent,
                turns,
                p + 1,
            )
        }),
{
    let j = turns[p];
    let one = sent[j];
    let n = turns_of(turns, p, j);
    let f = stream(sent, turns)[p];
    lemma_turns_grow(turns, p + 1, turns.len() as int, j);
    assert(turns_of(turns, p + 1, j) == n + 1);
    assert(n < one.fragments().len());
    lemma_pieces(one.id, one.message, one.chunk, n as int);
    assert(progress(state.partials, one.id) == one.arrived(n));
    if n == 0 {
        assert(!begun(state.partials, one.id));
        let others = sent.remove(j);
        assert forall|k: int| 0 <= k < state.partials.len() implies belongs(
            #[trigger] state.partials[k],
            others,
        ) by {
            let partial = state.partials[k];
            assert(is_sent(sent, partial.message_id));
            let i = choose|i: int| 0 <= i < sent.len() && (#[trigger] sent[i]).id
                == partial.message_id;
            lemma_place(state.partials, partial.message_id, k);
            assert(progress(state.partials, sent[i].id) == Some(partial));
            assert(i != j);
            let at = if i < j {
                i
            } else {
                i - 1
            };
            assert(others[at] == sent[i]);
        }
        lemma_beginnings_fit(state.partials, others);
        lemma_total_remove(sent, j);
        assert(state.begins(f));
    }
    law_fragment_advances_its_message(state, f, one.message);
    lemma_joined_bounded(state, f, true);
    let next = ReassemblyView { partials: state.joined(f, true)->Ok_0.0, ..state };
    assert forall|i: int| 0 <= i < sent.len() implies progress(
        next.partials,
        (#[trigger] sent[i]).id,
    ) == sent[i].arrived(turns_of(turns, p + 1, i)) by {
        if i == j {
            if n + 1 < one.fragments().len() {
                lemma_pieces(one.id, one.message, one.chunk, (n + 1) as int);
            }
        } else {
            assert(sent[i].id != one.id) by {
                if i < j {
                    assert(sent[i].id != sent[j].id);
                } else {
                    assert(sent[j].id != sent[i].id);
                }
            }
            law_other_messages_are_undisturbed(state, f, true, sent[i].id);
        }
    }
    assert forall|k: int| 0 <= k < next.partials.len() implies is_sent(
        sent,
        (#[trigger] next.partials[k]).message_id,
    ) by {
        let id = next.partials[k].message_id;
        lemma_place(next.partials, id, k);
        if id != f.message_id {
            law_other_messages_are_undisturbed(state, f, true, id);
            assert(begun(state.partials, id));
            let at = place(state.partials, id);
            assert(is_sent(sent, state.partials[at].message_id));
        } else {
            assert(sent[j].id == id);
        }
    }
}

proof fn lemma_turns_are_tracked(
    start: ReassemblyView,
    sent: Seq<Sent>,
    turns: Seq<int>,
    p: nat,
)
    requires
        start.bounded(),
        start.partials.len() == 0,
        fit_together(sent, start.budget),
        interleaved(sent, turns),
        p <= turns.len(),
    ensures
        tracks(after_fragments(start, stream(sent, turns), p), sent, turns, p as int),
    decreases p,
{
    if p > 0 {
        let q = (p - 1) as nat;
        lemma_turns_are_tracked(start, sent, turns, q);
        lemma_budget_is_kept(start, stream(sent, turns), q);
        lemma_turn(after_fragments(start, stream(sent, turns), q), sent, turns, q as int);
    }
}

/// Messages that are under way together arrive: a reassembler that retains nothing
/// takes every fragment of messages that fit its budget together, whatever the turns
/// in which they are sent, as long as each message keeps its own order and there is
/// memory. The last fragment of a message gives the message back, every other
/// fragment gives nothing, and at the end nothing is retained.
pub proof fn law_interleaved_messages_arrive(
    start: ReassemblyView,
    sent: Seq<Sent>,
    turns: Seq<int>,
    p: nat,
    after: ReassemblyView,
    result: Result<Option<Seq<u8>>, BleWireError>,
)
    requires
        start.bounded(),
        start.partials.len() == 0,
        fit_together(sent, start.budget),
        interleaved(sent, turns),
        p < turns.len(),
        after_fragments(start, stream(sent, turns), p).packet_step(
            stream(sent, turns)[p as int].encoded(),
            true,
            after,
            result,
        ),
    ensures
        ({
            let one = sent[turns[p as int]];
            let n = turns_of(turns, p as int, turns[p as int]);
            &&& result == Ok::<Option<Seq<u8>>, BleWireError>(
                if n + 1 == one.fragments().len() {
                    Some(one.message)
                } else {
                    None
                },
            )
            &&& after == after_fragments(start, stream(sent, turns), p + 1)
            &&& after.bounded()
            &&& p + 1 == turns.len() ==> after.partials == Seq::<PartialView>::empty()
                && declared(after.partials) == 0
        }),
{
    let all = stream(sent, turns);
    let state = after_fragments(start, all, p);
    let f = all[p as int];
    lemma_turns_are_tracked(start, sent, turns, p);
    lemma_turns_are_tracked(start, sent, turns, p + 1);
    lemma_budget_is_kept(start, all, p);
    lemma_turn(state, sent, turns, p as int);
    assert(f.fits());
    let g = choose|g: FragmentView|
        g.fits() && f.encoded() == #[trigger] g.encoded() && state.step(g, true, after, result);
    fragment::law_fragment_encoding_is_injective(g, f);
    let next = after_fragments(start, all, p + 1);
    assert(after == next);
    if p + 1 == turns.len() && next.partials.len() > 0 {
        let id = next.partials[0].message_id;
        assert(is_sent(sent, id));
        let i = choose|i: int| 0 <= i < sent.len() && (#[trigger] sent[i]).id == id;
        lemma_place(next.partials, id, 0);
        assert(progress(next.partials, sent[i].id) is Some);
        assert(sent[i].arrived(turns_of(turns, (p + 1) as int, i)) is None);
    }
    if p + 1 == turns.len() {
        assert(next.partials =~= Seq::<PartialView>::empty());
    }
}

/// A budget is one where every limit is above zero, a message is no longer than its
/// length can state, and no more than eight are under way. Another budget lies within
/// it where no limit is higher.
pub proof fn law_budgets_are_bounded(budget: BudgetView, other: BudgetView)
    ensures
        budget.valid() <==> {
            &&& 1 <= budget.max_wire_bytes <= 65_535
            &&& 1 <= budget.max_partial_messages <= 8
            &&& 1 <= budget.max_total_partial_bytes
        },
        other.within(budget) <==> {
            &&& other.max_wire_bytes <= budget.max_wire_bytes
            &&& other.max_partial_messages <= budget.max_partial_messages
            &&& other.max_total_partial_bytes <= budget.max_total_partial_bytes
        },
{
}

/// What is declared is the sum of the lengths of the messages under way.
pub proof fn law_declared_lengths_add_up(partials: Seq<PartialView>, partial: PartialView)
    ensures
        declared(Seq::<PartialView>::empty()) == 0,
        declared(partials.push(partial)) == declared(partials) + partial.total_bytes,
{
    assert(partials.push(partial).drop_last() =~= partials);
}

/// A fragment is refused, for the first of these reasons that holds, where its message
/// is too long; where it starts a message that is under way, or one too many, or one
/// for which the budget or the memory does not suffice; where its message was never
/// started; and where it does not continue what has arrived. After a refusal nothing
/// is under way.
pub proof fn law_fragments_are_refused_in_order(
    state: ReassemblyView,
    f: FragmentView,
    reserved: bool,
    after: ReassemblyView,
    result: Result<Option<Seq<u8>>, BleWireError>,
)
    requires
        state.bounded(),
        f.fits(),
        state.step(f, reserved, after, result),
    ensures
        after.budget == state.budget,
        result is Err ==> after.partials.len() == 0,
        ({
            let known = exists|i: int|
                0 <= i < state.partials.len() && (#[trigger] state.partials[i]).message_id
                    == f.message_id;
            let requested = declared(state.partials) + f.total_bytes;
            if f.total_bytes > state.budget.max_wire_bytes {
                result == Err::<Option<Seq<u8>>, BleWireError>(
                    BleWireError::WireMessageTooLarge {
                        actual: f.total_bytes as usize,
                        maximum: state.budget.max_wire_bytes,
                    },
                )
            } else if f.offset == 0 && (known || state.partials.len()
                == state.budget.max_partial_messages) {
                result == Err::<Option<Seq<u8>>, BleWireError>(BleWireError::InterleavedMessages)
            } else if f.offset == 0 && requested > state.budget.max_total_partial_bytes {
                result matches Err(BleWireError::PartialAssemblyBudgetExceeded { .. })
            } else if f.offset == 0 && !reserved {
                result == Err::<Option<Seq<u8>>, BleWireError>(
                    BleWireError::AllocationFailed(f.total_bytes as usize),
                )
            } else if f.offset > 0 && !known {
                result == Err::<Option<Seq<u8>>, BleWireError>(BleWireError::MissingFragmentStart)
            } else if f.offset > 0 && !(exists|i: int|
                0 <= i < state.partials.len() && (#[trigger] state.partials[i]).message_id
                    == f.message_id && state.partials[i].total_bytes == f.total_bytes
                    && state.partials[i].bytes.len() == f.offset) {
                result == Err::<Option<Seq<u8>>, BleWireError>(BleWireError::FragmentDiscontinuity)
            } else {
                result is Ok
            }
        }),
{
    let (partials, id) = (state.partials, f.message_id);
    if f.offset > 0 && begun(partials, id) {
        let at = place(partials, id);
        assert(partials[at].message_id == id);
        assert forall|i: int| 0 <= i < partials.len() && (#[trigger] partials[i]).message_id
            == id implies i == at by {
            lemma_place(partials, id, i);
        }
    }
    if f.offset == 0 && state.opened(f, reserved) is Ok {
        let opened = state.opened(f, reserved)->Ok_0;
        assert(opened[partials.len() as int].message_id == id);
        let at = place(opened, id);
        assert(opened[at].message_id == id);
        if at < partials.len() {
            assert(partials[at].message_id == id);
        }
    }
}

/// A fragment that is accepted adds its bytes to those of its message, at their end.
/// The last one hands the whole message out, which is then no longer under way.
pub proof fn law_accepted_fragments_extend_their_message(
    state: ReassemblyView,
    f: FragmentView,
    reserved: bool,
)
    requires
        state.bounded(),
        f.fits(),
        state.joined(f, reserved) is Ok,
    ensures
        ({
            let (after, message) = state.joined(f, reserved)->Ok_0;
            let before = if f.offset == 0 {
                Seq::<u8>::empty()
            } else {
                progress(state.partials, f.message_id)->0.bytes
            };
            &&& message is Some <==> f.offset + f.payload.len() == f.total_bytes
            &&& message is Some ==> message->0 == before + f.payload && progress(
                after,
                f.message_id,
            ) is None
            &&& message is None ==> progress(after, f.message_id) == Some(
                PartialView {
                    message_id: f.message_id,
                    total_bytes: f.total_bytes,
                    bytes: before + f.payload,
                },
            )
        }),
{
    let (partials, id) = (state.partials, f.message_id);
    lemma_opened(state, f, reserved);
    lemma_joined_bounded(state, f, reserved);
    let opened = state.opened(f, reserved)->Ok_0;
    let at = place(opened, id);
    let (after, message) = state.joined(f, reserved)->Ok_0;
    if f.start {
        assert(opened[partials.len() as int].message_id == id);
        lemma_place(opened, id, partials.len() as int);
    }
    if message is Some {
        if begun(after, id) {
            let k = place(after, id);
            let i = if k >= at {
                k + 1
            } else {
                k
            };
            assert(after[k] == opened[i]);
            assert(opened[i].message_id == id && opened[at].message_id == id);
        }
    } else {
        assert(after[at].message_id == id);
        lemma_place(after, id, at);
    }
}

/// A packet is taken as the fragment that it encodes. One that encodes none is refused,
/// and then nothing is under way.
pub proof fn law_packets_are_taken_as_fragments(
    state: ReassemblyView,
    packet: Seq<u8>,
    reserved: bool,
    after: ReassemblyView,
    result: Result<Option<Seq<u8>>, BleWireError>,
    f: FragmentView,
)
    requires
        state.packet_step(packet, reserved, after, result),
    ensures
        after.budget == state.budget,
        f.fits() && packet == f.encoded() ==> match state.joined(f, reserved) {
            Ok(joined) => result is Ok && joined == (after.partials, result->Ok_0),
            Err(error) => result == Err::<Option<Seq<u8>>, BleWireError>(error)
                && after.partials.len() == 0,
        },
        (forall|g: FragmentView| g.fits() ==> packet != #[trigger] g.encoded()) ==> result == Err::<
            Option<Seq<u8>>,
            BleWireError,
        >(BleWireError::MalformedFragment) && after.partials.len() == 0,
{
    if exists|g: FragmentView|
        g.fits() && packet == #[trigger] g.encoded() && state.step(g, reserved, after, result) {
        let g = choose|g: FragmentView|
            g.fits() && packet == #[trigger] g.encoded() && state.step(g, reserved, after, result);
        if packet == f.encoded() {
            fragment::law_fragment_encoding_is_injective(f, g);
        }
    }
}

/// A message that is handed out is handed out as it is.
pub proof fn law_messages_are_handed_out(message: Vec<u8>, error: BleWireError)
    ensures
        message_view(Ok(Some(message))) == Ok::<Option<Seq<u8>>, BleWireError>(Some(message@)),
        message_view(Ok(None)) == Ok::<Option<Seq<u8>>, BleWireError>(None),
        message_view(Err(error)) == Err::<Option<Seq<u8>>, BleWireError>(error),
{
}

} // verus!

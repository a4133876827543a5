//! Fragments of wire messages, each below the GATT value limit.

use crate::ble::error::BleWireError;
use crate::ble::limits::{FRAGMENT_HEADER_BYTES, HARD_MAX_WIRE_BYTES, MIN_FRAGMENT_VALUE_BYTES};
use crate::bytes;
use vstd::prelude::*;

verus! {

/// The bytes of `TB`.
pub const FRAGMENT_MAGIC: [u8; 2] = [0x54, 0x42];

pub const FRAGMENT_VERSION: u8 = 1;

/// Set in the flags of the first fragment of a message.
pub const FLAG_START: u8 = 1;

/// Set in the flags of the last fragment of a message.
pub const FLAG_END: u8 = 2;

/// A piece of a wire message, with its place in the message.
#[derive(Clone, Copy, Debug)]
pub struct Fragment<'a> {
    pub message_id: u16,
    pub total_bytes: u16,
    pub offset: u16,
    pub start: bool,
    pub end: bool,
    pub payload: &'a [u8],
}

/// What a fragment says.
#[verifier::ext_equal]
pub struct FragmentView {
    pub message_id: u16,
    pub total_bytes: u16,
    pub offset: u16,
    pub start: bool,
    pub end: bool,
    pub payload: Seq<u8>,
}

impl<'a> View for Fragment<'a> {
    type V = FragmentView;

    open spec fn view(&self) -> FragmentView {
        FragmentView {
            message_id: self.message_id,
            total_bytes: self.total_bytes,
            offset: self.offset,
            start: self.start,
            end: self.end,
            payload: self.payload@,
        }
    }
}

impl FragmentView {
    pub open spec fn flags(self) -> u8 {
        ((if self.start {
            FLAG_START as int
        } else {
            0
        }) + (if self.end {
            FLAG_END as int
        } else {
            0
        })) as u8
    }

    pub open spec fn header(self) -> Seq<u8> {
        FRAGMENT_MAGIC@ + seq![FRAGMENT_VERSION, self.flags()] + bytes::be(
            self.message_id as nat,
            2,
        ) + bytes::be(self.total_bytes as nat, 2) + bytes::be(self.offset as nat, 2)
    }

    /// The fragment on the wire.
    pub open spec fn encoded(self) -> Seq<u8> {
        self.header() + self.payload
    }

    /// Whether the fragment fits its message: it lies within it, it is first and
    /// last exactly where its flags say so, and it is empty only where the
    /// message is.
    pub open spec fn fits(self) -> bool {
        &&& self.payload.len() > 0 || self.total_bytes == 0
        &&& self.offset + self.payload.len() <= self.total_bytes
        &&& self.start == (self.offset == 0)
        &&& self.end == (self.offset + self.payload.len() == self.total_bytes)
    }
}

pub proof fn lemma_fragment_fields(f: FragmentView)
    ensures
        f.encoded().len() == FRAGMENT_HEADER_BYTES + f.payload.len(),
        f.header().len() == FRAGMENT_HEADER_BYTES,
        FRAGMENT_MAGIC@.is_prefix_of(f.encoded()),
        f.encoded()[2] == FRAGMENT_VERSION,
        f.encoded()[3] == f.flags(),
        f.flags() <= FLAG_START + FLAG_END,
        f.start == (f.flags() % 2 == FLAG_START),
        f.end == (f.flags() / 2 * 2 == FLAG_END),
        bytes::be_at(f.encoded(), 4, 6) == f.message_id,
        bytes::be_at(f.encoded(), 6, 8) == f.total_bytes,
        bytes::be_at(f.encoded(), 8, 10) == f.offset,
        f.encoded().subrange(10, f.encoded().len() as int) == f.payload,
{
    let s = f.encoded();
    bytes::lemma_be_ranges();
    bytes::lemma_be_len(f.message_id as nat, 2);
    bytes::lemma_be_len(f.total_bytes as nat, 2);
    bytes::lemma_be_len(f.offset as nat, 2);
    bytes::lemma_be_round_trip(f.message_id as nat, 2);
    bytes::lemma_be_round_trip(f.total_bytes as nat, 2);
    bytes::lemma_be_round_trip(f.offset as nat, 2);
    assert(s.subrange(0, 2) =~= FRAGMENT_MAGIC@);
    assert(s.subrange(4, 6) =~= bytes::be(f.message_id as nat, 2));
    assert(s.subrange(6, 8) =~= bytes::be(f.total_bytes as nat, 2));
    assert(s.subrange(8, 10) =~= bytes::be(f.offset as nat, 2));
    assert(s.subrange(10, s.len() as int) =~= f.payload);
}

/// Different fragments have different encodings, so that what decodes is what
/// was encoded.
pub proof fn law_fragment_encoding_is_injective(a: FragmentView, b: FragmentView)
    requires
        a.encoded() == b.encoded(),
    ensures
        a == b,
{
    lemma_fragment_fields(a);
    lemma_fragment_fields(b);
}

impl<'a> Fragment<'a> {
    /// Writes the fragment to the front of `output` and returns its size. An
    /// output that is too small is left alone.
    pub fn encode_into(&self, output: &mut [u8]) -> (result: Result<usize, BleWireError>)
        requires
            self.payload@.len() + FRAGMENT_HEADER_BYTES <= usize::MAX,
        ensures
            ({
                let encoded = self@.encoded();
                let room = old(output)@.len();
                match result {
                    Ok(used) => {
                        &&& encoded.len() <= room
                        &&& used == encoded.len()
                        &&& final(output)@ == encoded + old(output)@.subrange(
                            used as int,
                            room as int,
                        )
                    },
                    Err(error) => {
                        &&& encoded.len() > room
                        &&& error == (BleWireError::FragmentOutputTooSmall {
                            required: encoded.len() as usize,
                            actual: room as usize,
                        })
                        &&& final(output)@ == old(output)@
                    },
                }
            }),
    {
        proof {
            lemma_fragment_fields(self@);
        }
        let required: usize = FRAGMENT_HEADER_BYTES + self.payload.len();
        if output.len() < required {
            return Err(
                BleWireError::FragmentOutputTooSmall { required, actual: output.len() },
            );
        }
        let mut header: Vec<u8> = bytes::to_vec(&FRAGMENT_MAGIC);
        header.push(FRAGMENT_VERSION);
        let start_flag: u8 = if self.start {
            FLAG_START
        } else {
            0
        };
        let end_flag: u8 = if self.end {
            FLAG_END
        } else {
            0
        };
        header.push(start_flag + end_flag);
        bytes::push_be(&mut header, self.message_id as u64, 2);
        bytes::push_be(&mut header, self.total_bytes as u64, 2);
        bytes::push_be(&mut header, self.offset as u64, 2);
        assert(header@ =~= self@.header());
        bytes::write_at(output, 0, header.as_slice());
        bytes::write_at(output, FRAGMENT_HEADER_BYTES, self.payload);
        proof {
            let room = old(output)@.len() as int;
            assert(output@ =~= self@.encoded() + old(output)@.subrange(required as int, room));
        }
        Ok(required)
    }
}

/// Accepts exactly the encodings of fragments that fit their message.
pub fn decode_fragment<'a>(bytes: &'a [u8]) -> (result: Result<Fragment<'a>, BleWireError>)
    ensures
        match result {
            Ok(fragment) => fragment@.fits() && bytes@ == fragment@.encoded(),
            Err(error) => error == BleWireError::MalformedFragment && forall|f: FragmentView|
                f.fits() ==> #[trigger] f.encoded() != bytes@,
        },
{
    if bytes.len() < FRAGMENT_HEADER_BYTES || !bytes::begins_with(bytes, &FRAGMENT_MAGIC)
        || bytes[2] != FRAGMENT_VERSION || bytes[3] > FLAG_START + FLAG_END {
        proof {
            assert forall|f: FragmentView| f.fits() implies #[trigger] f.encoded() != bytes@ by {
                lemma_fragment_fields(f);
            }
        }
        return Err(BleWireError::MalformedFragment);
    }
    let flags: u8 = bytes[3];
    let fragment = Fragment {
        message_id: bytes::read_u16(bytes, 4),
        total_bytes: bytes::read_u16(bytes, 6),
        offset: bytes::read_u16(bytes, 8),
        start: flags % 2 == FLAG_START,
        end: flags / 2 * 2 == FLAG_END,
        payload: &bytes[FRAGMENT_HEADER_BYTES..bytes.len()],
    };
    proof {
        let s = bytes@;
        bytes::lemma_be_canonical(s.subrange(4, 6));
        bytes::lemma_be_canonical(s.subrange(6, 8));
        bytes::lemma_be_canonical(s.subrange(8, 10));
        assert(fragment@.flags() == flags);
        assert(s =~= fragment@.encoded());
    }
    let total: usize = fragment.total_bytes as usize;
    let offset: usize = fragment.offset as usize;
    let end_offset: usize = match offset.checked_add(fragment.payload.len()) {
        Some(end_offset) => end_offset,
        None => {
            proof {
                lemma_only_this_fragment(bytes@, fragment@);
            }
            return Err(BleWireError::MalformedFragment);
        },
    };
    let empty_message: bool = total == 0 && offset == 0 && fragment.payload.len() == 0
        && fragment.start && fragment.end;
    if (!empty_message && fragment.payload.len() == 0) || end_offset > total || fragment.start != (
    offset == 0) || fragment.end != (end_offset == total) {
        proof {
            lemma_only_this_fragment(bytes@, fragment@);
        }
        return Err(BleWireError::MalformedFragment);
    }
    Ok(fragment)
}

proof fn lemma_only_this_fragment(s: Seq<u8>, fragment: FragmentView)
    requires
        s == fragment.encoded(),
        !fragment.fits(),
    ensures
        forall|f: FragmentView| f.fits() ==> #[trigger] f.encoded() != s,
{
    assert forall|f: FragmentView| f.fits() implies #[trigger] f.encoded() != s by {
        if f.encoded() == s {
            law_fragment_encoding_is_injective(f, fragment);
        }
    }
}

/// Where the fragment that starts at `offset` ends.
pub open spec fn fragment_end(message: Seq<u8>, chunk: nat, offset: nat) -> nat {
    if offset + chunk < message.len() {
        offset + chunk
    } else {
        message.len()
    }
}

/// The fragment of `message` that starts at `offset` and carries at most `chunk`
/// bytes.
pub open spec fn fragment_at(id: u16, message: Seq<u8>, chunk: nat, offset: nat) -> FragmentView {
    let end = fragment_end(message, chunk, offset);
    FragmentView {
        message_id: id,
        total_bytes: message.len() as u16,
        offset: offset as u16,
        start: offset == 0,
        end: end == message.len(),
        payload: message.subrange(offset as int, end as int),
    }
}

/// The fragments of `message` from `offset` on, in order.
pub open spec fn fragments_from(id: u16, message: Seq<u8>, chunk: nat, offset: nat) -> Seq<
    FragmentView,
>
    decreases message.len() - offset,
{
    if offset >= message.len() || chunk == 0 {
        Seq::empty()
    } else {
        seq![fragment_at(id, message, chunk, offset)] + fragments_from(
            id,
            message,
            chunk,
            fragment_end(message, chunk, offset),
        )
    }
}

/// All fragments of `message`: one for an empty message, else as many as it
/// takes.
pub open spec fn fragments(id: u16, message: Seq<u8>, chunk: nat) -> Seq<FragmentView> {
    if message.len() == 0 {
        seq![fragment_at(id, message, chunk, 0)]
    } else {
        fragments_from(id, message, chunk, 0)
    }
}

/// What is left to send of a message.
pub open spec fn pending_fragments(
    id: u16,
    message: Seq<u8>,
    chunk: nat,
    offset: nat,
    emitted_empty: bool,
) -> Seq<FragmentView> {
    if message.len() == 0 && !emitted_empty {
        seq![fragment_at(id, message, chunk, 0)]
    } else {
        fragments_from(id, message, chunk, offset)
    }
}

/// Allocation-free cursor over borrowed logical-message fragments.
pub struct Fragmenter<'a> {
    message_id: u16,
    bytes: &'a [u8],
    value_bytes: usize,
    offset: usize,
    emitted_empty: bool,
}

/// The verdict on a message that is to be cut into values of this size.
pub open spec fn fragmentation_verdict(message_len: nat, value_bytes: usize) -> Result<
    (),
    BleWireError,
> {
    if value_bytes < MIN_FRAGMENT_VALUE_BYTES {
        Err(
            BleWireError::FragmentValueTooSmall {
                actual: value_bytes,
                minimum: MIN_FRAGMENT_VALUE_BYTES,
            },
        )
    } else if message_len > HARD_MAX_WIRE_BYTES {
        Err(
            BleWireError::WireMessageTooLarge {
                actual: message_len as usize,
                maximum: HARD_MAX_WIRE_BYTES,
            },
        )
    } else {
        Ok(())
    }
}

impl<'a> Fragmenter<'a> {
    #[verifier::type_invariant]
    spec fn in_message(self) -> bool {
        &&& self.value_bytes >= MIN_FRAGMENT_VALUE_BYTES
        &&& self.offset <= self.bytes@.len() <= HARD_MAX_WIRE_BYTES
    }

    /// The fragments still to come.
    pub closed spec fn remaining(self) -> Seq<FragmentView> {
        pending_fragments(
            self.message_id,
            self.bytes@,
            (self.value_bytes - FRAGMENT_HEADER_BYTES) as nat,
            self.offset as nat,
            self.emitted_empty,
        )
    }

    pub fn new(message_id: u16, bytes: &'a [u8], value_bytes: usize) -> (result: Result<
        Self,
        BleWireError,
    >)
        ensures
            match result {
                Ok(fragmenter) => fragmentation_verdict(bytes@.len(), value_bytes) is Ok
                    && fragmenter.remaining() == fragments(
                    message_id,
                    bytes@,
                    (value_bytes - FRAGMENT_HEADER_BYTES) as nat,
                ),
                Err(error) => fragmentation_verdict(bytes@.len(), value_bytes) == Err::<
                    (),
                    BleWireError,
                >(error),
            },
    {
        if value_bytes < MIN_FRAGMENT_VALUE_BYTES {
            return Err(
                BleWireError::FragmentValueTooSmall {
                    actual: value_bytes,
                    minimum: MIN_FRAGMENT_VALUE_BYTES,
                },
            );
        }
        if bytes.len() > HARD_MAX_WIRE_BYTES {
            return Err(
                BleWireError::WireMessageTooLarge {
                    actual: bytes.len(),
                    maximum: HARD_MAX_WIRE_BYTES,
                },
            );
        }
        Ok(Fragmenter { message_id, bytes, value_bytes, offset: 0, emitted_empty: false })
    }

    /// The next fragment, while there is one.
    pub fn next(&mut self) -> (fragment: Option<Fragment<'a>>)
        ensures
            match fragment {
                Some(fragment) => {
                    &&& old(self).remaining().len() > 0
                    &&& fragment@ == old(self).remaining()[0]
                    &&& final(self).remaining() == old(self).remaining().drop_first()
                },
                None => old(self).remaining().len() == 0 && final(self).remaining() == old(
                    self,
                ).remaining(),
            },
    {
        proof {
            use_type_invariant(&*self);
        }
        let message: &'a [u8] = self.bytes;
        let chunk: usize = self.value_bytes - FRAGMENT_HEADER_BYTES;
        if message.len() == 0 {
            if self.emitted_empty {
                return None;
            }
            self.emitted_empty = true;
            let fragment = Fragment {
                message_id: self.message_id,
                total_bytes: 0,
                offset: 0,
                start: true,
                end: true,
                payload: message,
            };
            assert(fragment@ =~= fragment_at(self.message_id, message@, chunk as nat, 0));
            assert(self.remaining() =~= old(self).remaining().drop_first());
            return Some(fragment);
        }
        if self.offset == message.len() {
            return None;
        }
        let start: usize = self.offset;
        let end: usize = next_end(message.len(), chunk, start);
        self.offset = end;
        let fragment = Fragment {
            message_id: self.message_id,
            total_bytes: message.len() as u16,
            offset: start as u16,
            start: start == 0,
            end: end == message.len(),
            payload: &message[start..end],
        };
        assert(self.remaining() =~= old(self).remaining().drop_first());
        Some(fragment)
    }
}

/// Where the fragment that starts at `start` ends.
fn next_end(len: usize, chunk: usize, start: usize) -> (end: usize)
    requires
        start <= len,
    ensures
        end == if start + chunk < len {
            start + chunk
        } else {
            len as int
        },
{
    if chunk < len - start {
        start + chunk
    } else {
        len
    }
}

/// Owned, incremental fragmentation cursor.
///
/// Queue owners retain one bounded authenticated wire message and materialize
/// at most one GATT value at a time. This avoids duplicating a 1.5 KiB repair
/// frame into a hundred tiny queue allocations and permits a scheduler to
/// interleave higher-priority message fragments explicitly.
pub struct FragmentCursor {
    message_id: u16,
    bytes: Vec<u8>,
    value_bytes: usize,
    offset: usize,
    emitted_empty: bool,
}

impl FragmentCursor {
    #[verifier::type_invariant]
    spec fn in_message(self) -> bool {
        &&& self.value_bytes >= MIN_FRAGMENT_VALUE_BYTES
        &&& self.offset <= self.bytes@.len() <= HARD_MAX_WIRE_BYTES
    }

    /// The fragments still to come.
    pub closed spec fn remaining(self) -> Seq<FragmentView> {
        pending_fragments(
            self.message_id,
            self.bytes@,
            (self.value_bytes - FRAGMENT_HEADER_BYTES) as nat,
            self.offset as nat,
            self.emitted_empty,
        )
    }

    /// The message that is being cut.
    pub closed spec fn message(self) -> Seq<u8> {
        self.bytes@
    }

    /// The largest value that is cut from it.
    pub closed spec fn value_limit(self) -> usize {
        self.value_bytes
    }

    pub fn new(message_id: u16, bytes: Vec<u8>, value_bytes: usize) -> (result: Result<
        Self,
        BleWireError,
    >)
        ensures
            match result {
                Ok(cursor) => {
                    &&& fragmentation_verdict(bytes@.len(), value_bytes) is Ok
                    &&& cursor.message() == bytes@
                    &&& cursor.value_limit() == value_bytes
                    &&& cursor.remaining() == fragments(
                        message_id,
                        bytes@,
                        (value_bytes - FRAGMENT_HEADER_BYTES) as nat,
                    )
                },
                Err(error) => fragmentation_verdict(bytes@.len(), value_bytes) == Err::<
                    (),
                    BleWireError,
                >(error),
            },
    {
        match Fragmenter::new(message_id, bytes.as_slice(), value_bytes) {
            Ok(_) => {},
            Err(error) => {
                return Err(error);
            },
        }
        Ok(FragmentCursor { message_id, bytes, value_bytes, offset: 0, emitted_empty: false })
    }

    pub fn retained_wire_bytes(&self) -> (len: usize)
        ensures
            len == self.message().len(),
    {
        self.bytes.len()
    }

    pub fn fragment_value_bytes(&self) -> (value_bytes: usize)
        ensures
            value_bytes == self.value_limit(),
    {
        self.value_bytes
    }

    /// Whether every fragment was handed out.
    pub fn is_complete(&self) -> (complete: bool)
        ensures
            complete == (self.remaining().len() == 0),
    {
        proof {
            use_type_invariant(self);
        }
        (self.bytes.len() == 0 && self.emitted_empty) || (self.bytes.len() != 0 && self.offset
            == self.bytes.len())
    }

    /// Writes the next fragment, while there is one, to the front of `output`.
    /// Where it does not fit, the cursor stays where it is.
    pub fn encode_next(&mut self, output: &mut [u8]) -> (result: Result<
        Option<usize>,
        BleWireError,
    >)
        ensures
            final(self).message() == old(self).message(),
            final(self).value_limit() == old(self).value_limit(),
            ({
                let pending = old(self).remaining();
                let encoded = pending[0].encoded();
                let room = old(output)@.len();
                if pending.len() == 0 {
                    &&& result == Ok::<Option<usize>, BleWireError>(None)
                    &&& final(output)@ == old(output)@
                    &&& final(self).remaining() == pending
                } else if encoded.len() > room {
                    &&& result == Err::<Option<usize>, BleWireError>(
                        BleWireError::FragmentOutputTooSmall {
                            required: encoded.len() as usize,
                            actual: room as usize,
                        },
                    )
                    &&& final(output)@ == old(output)@
                    &&& final(self).remaining() == pending
                } else {
                    &&& result == Ok::<Option<usize>, BleWireError>(Some(encoded.len() as usize))
                    &&& final(output)@ == encoded + old(output)@.subrange(
                        encoded.len() as int,
                        room as int,
                    )
                    &&& final(self).remaining() == pending.drop_first()
                }
            }),
    {
        proof {
            use_type_invariant(&*self);
        }
        let len: usize = self.bytes.len();
        let chunk: usize = self.value_bytes - FRAGMENT_HEADER_BYTES;
        let start: usize = self.offset;
        if (len == 0 && self.emitted_empty) || (len != 0 && start == len) {
            return Ok(None);
        }
        let end: usize = next_end(len, chunk, start);
        let fragment = Fragment {
            message_id: self.message_id,
            total_bytes: len as u16,
            offset: start as u16,
            start: start == 0,
            end: end == len,
            payload: &self.bytes.as_slice()[start..end],
        };
        assert(fragment@ =~= fragment_at(
            self.message_id,
            self.bytes@,
            chunk as nat,
            start as nat,
        ));
        proof {
            lemma_fragment_fields(fragment@);
        }
        let used: usize = match fragment.encode_into(output) {
            Ok(used) => used,
            Err(error) => {
                return Err(error);
            },
        };
        if len == 0 {
            self.emitted_empty = true;
        } else {
            self.offset = end;
        }
        assert(self.remaining() =~= old(self).remaining().drop_first());
        Ok(Some(used))
    }
}

/// The bytes that the fragments carry, one after the other.
pub open spec fn carried(fragments: Seq<FragmentView>) -> Seq<u8>
    decreases fragments.len(),
{
    if fragments.len() == 0 {
        Seq::empty()
    } else {
        fragments[0].payload + carried(fragments.drop_first())
    }
}

proof fn lemma_carried_from(id: u16, message: Seq<u8>, chunk: nat, offset: nat)
    requires
        chunk > 0,
        offset <= message.len(),
    ensures
        carried(fragments_from(id, message, chunk, offset)) == message.subrange(
            offset as int,
            message.len() as int,
        ),
    decreases message.len() - offset,
{
    let all = fragments_from(id, message, chunk, offset);
    if offset < message.len() {
        let end = fragment_end(message, chunk, offset);
        lemma_carried_from(id, message, chunk, end);
        assert(all.drop_first() =~= fragments_from(id, message, chunk, end));
        assert(message.subrange(offset as int, message.len() as int) =~= message.subrange(
            offset as int,
            end as int,
        ) + message.subrange(end as int, message.len() as int));
    } else {
        assert(message.subrange(offset as int, message.len() as int) =~= Seq::empty());
    }
}

/// The fragments of a message carry the message, all of it and nothing twice.
pub proof fn law_fragments_carry_the_message(id: u16, message: Seq<u8>, chunk: nat)
    requires
        chunk > 0,
    ensures
        carried(fragments(id, message, chunk)) == message,
{
    if message.len() == 0 {
        let all = fragments(id, message, chunk);
        assert(all.drop_first() =~= Seq::empty());
        assert(carried(all.drop_first()) =~= Seq::empty());
        assert(carried(all) =~= message);
    } else {
        lemma_carried_from(id, message, chunk, 0);
        assert(message.subrange(0, message.len() as int) =~= message);
    }
}

proof fn lemma_fragments_from_fit(id: u16, message: Seq<u8>, chunk: nat, offset: nat, i: int)
    requires
        chunk > 0,
        message.len() <= HARD_MAX_WIRE_BYTES,
        0 <= i < fragments_from(id, message, chunk, offset).len(),
    ensures
        ({
            let f = fragments_from(id, message, chunk, offset)[i];
            &&& f.fits()
            &&& f.payload.len() <= chunk
            &&& f.message_id == id
            &&& f.total_bytes == message.len()
        }),
    decreases message.len() - offset,
{
    if i > 0 {
        lemma_fragments_from_fit(
            id,
            message,
            chunk,
            fragment_end(message, chunk, offset),
            i - 1,
        );
    }
}

/// Every fragment of a message fits it, so that it decodes, and is no larger
/// than the values it is cut for.
pub proof fn law_fragments_fit(id: u16, message: Seq<u8>, chunk: nat, i: int)
    requires
        chunk > 0,
        message.len() <= HARD_MAX_WIRE_BYTES,
        0 <= i < fragments(id, message, chunk).len(),
    ensures
        ({
            let f = fragments(id, message, chunk)[i];
            &&& f.fits()
            &&& f.encoded().len() <= FRAGMENT_HEADER_BYTES + chunk
            &&& f.message_id == id
            &&& f.total_bytes == message.len()
        }),
{
    if message.len() > 0 {
        lemma_fragments_from_fit(id, message, chunk, 0, i);
    }
    lemma_fragment_fields(fragments(id, message, chunk)[i]);
}

/// Where every field of a fragment stands. The flags say whether it is the first and
/// whether it is the last of its message.
pub proof fn law_fragments_have_their_layout(fragment: FragmentView)
    ensures
        ({
            let s = fragment.encoded();
            &&& s.len() == 10 + fragment.payload.len()
            &&& s.subrange(0, 3) == seq![0x54u8, 0x42, 1]
            &&& !fragment.start && !fragment.end ==> s[3] == 0
            &&& fragment.start && !fragment.end ==> s[3] == 1
            &&& !fragment.start && fragment.end ==> s[3] == 2
            &&& fragment.start && fragment.end ==> s[3] == 3
            &&& bytes::be_at(s, 4, 6) == fragment.message_id
            &&& bytes::be_at(s, 6, 8) == fragment.total_bytes
            &&& bytes::be_at(s, 8, 10) == fragment.offset
            &&& s.subrange(10, s.len() as int) == fragment.payload
        }),
        fragment.fits() <==> {
            &&& fragment.payload.len() > 0 || fragment.total_bytes == 0
            &&& fragment.offset + fragment.payload.len() <= fragment.total_bytes
            &&& fragment.start <==> fragment.offset == 0
            &&& fragment.end <==> fragment.offset + fragment.payload.len() == fragment.total_bytes
        },
{
    let s = fragment.encoded();
    lemma_fragment_fields(fragment);
    bytes::lemma_be_len(fragment.message_id as nat, 2);
    bytes::lemma_be_len(fragment.total_bytes as nat, 2);
    bytes::lemma_be_len(fragment.offset as nat, 2);
    bytes::lemma_be_ranges();
    bytes::lemma_be_round_trip(fragment.message_id as nat, 2);
    bytes::lemma_be_round_trip(fragment.total_bytes as nat, 2);
    bytes::lemma_be_round_trip(fragment.offset as nat, 2);
    assert(s.subrange(0, 3) =~= seq![0x54u8, 0x42, 1]);
    assert(s.subrange(4, 6) =~= bytes::be(fragment.message_id as nat, 2));
    assert(s.subrange(6, 8) =~= bytes::be(fragment.total_bytes as nat, 2));
    assert(s.subrange(8, 10) =~= bytes::be(fragment.offset as nat, 2));
    assert(s.subrange(10, s.len() as int) =~= fragment.payload);
}

proof fn lemma_fragments_from_step(id: u16, message: Seq<u8>, chunk: nat, offset: nat, i: int)
    requires
        chunk > 0,
        offset <= message.len() <= 65_535,
        0 <= i,
    ensures
        i < fragments_from(id, message, chunk, offset).len() <==> offset + i * chunk
            < message.len(),
        i < fragments_from(id, message, chunk, offset).len() ==> {
            let f = fragments_from(id, message, chunk, offset)[i];
            let from = offset + i * chunk;
            let to = if from + chunk < message.len() {
                from + chunk
            } else {
                message.len() as int
            };
            &&& f.message_id == id
            &&& f.total_bytes == message.len()
            &&& f.offset == from
            &&& f.start == (from == 0)
            &&& f.end == (to == message.len())
            &&& f.payload == message.subrange(from, to)
        },
    decreases message.len() - offset,
{
    if offset < message.len() {
        let end = fragment_end(message, chunk, offset);
        let rest = fragments_from(id, message, chunk, end);
        let all = fragments_from(id, message, chunk, offset);
        assert(all =~= seq![fragment_at(id, message, chunk, offset)] + rest);
        if i == 0 {
            assert(i * chunk == 0);
        } else {
            assert(i * chunk == (i - 1) * chunk + chunk) by (nonlinear_arith);
            assert((i - 1) * chunk >= 0) by (nonlinear_arith)
                requires
                    i >= 1,
                    chunk >= 0,
            ;
            lemma_fragments_from_step(id, message, chunk, end, i - 1);
            if i < all.len() {
                assert(all[i] == rest[i - 1]);
            }
        }
    } else {
        assert(i * chunk >= 0) by (nonlinear_arith)
            requires
                i >= 0,
                chunk >= 0,
        ;
    }
}

/// A message is cut from its beginning into pieces of one size, of which only the last
/// may be shorter. Each piece says where it lies. An empty message is one empty piece.
pub proof fn law_messages_are_cut_evenly(id: u16, message: Seq<u8>, chunk: nat, i: int)
    requires
        chunk > 0,
        message.len() <= 65_535,
        0 <= i,
    ensures
        message.len() > 0 ==> (i < fragments(id, message, chunk).len() <==> i * chunk
            < message.len()),
        message.len() == 0 ==> fragments(id, message, chunk).len() == 1,
        i < fragments(id, message, chunk).len() ==> {
            let f = fragments(id, message, chunk)[i];
            let from = i * chunk;
            let to = if from + chunk < message.len() {
                from + chunk
            } else {
                message.len() as int
            };
            &&& f.message_id == id
            &&& f.total_bytes == message.len()
            &&& f.offset == from
            &&& f.start <==> i == 0
            &&& f.end <==> to == message.len()
            &&& f.payload == message.subrange(from, to)
        },
{
    if message.len() > 0 {
        lemma_fragments_from_step(id, message, chunk, 0, i);
        if i > 0 {
            assert(i * chunk > 0) by (nonlinear_arith)
                requires
                    i > 0,
                    chunk > 0,
            ;
        } else {
            assert(i * chunk == 0);
        }
    } else {
        assert(0 * chunk == 0);
    }
}

/// A message can be cut exactly where a piece has room for its header and a byte and
/// the message is no longer than its length can state.
pub proof fn law_fragments_need_room(message_len: nat, value_bytes: usize)
    requires
        message_len <= usize::MAX,
    ensures
        fragmentation_verdict(message_len, value_bytes) is Ok <==> value_bytes >= 11 && message_len
            <= 65_535,
        value_bytes < 11 ==> fragmentation_verdict(message_len, value_bytes) == Err::<
            (),
            BleWireError,
        >(BleWireError::FragmentValueTooSmall { actual: value_bytes, minimum: 11 }),
        value_bytes >= 11 && message_len > 65_535 ==> fragmentation_verdict(
            message_len,
            value_bytes,
        ) == Err::<(), BleWireError>(
            BleWireError::WireMessageTooLarge { actual: message_len as usize, maximum: 65_535 },
        ),
{
}

} // verus!

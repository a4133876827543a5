//! The authenticated lane profile: compatibility and allocation limits.

use crate::ble::error::BleWireError;
use crate::ble::limits::{HARD_MAX_PAYLOAD_BYTES, HARD_MAX_WIRE_BYTES};
use crate::bytes;
use vstd::prelude::*;

verus! {

// Capabilities of an authenticated lane profile are distinct from the boot and
// GATT capabilities of a hello. Their names are kept separate so that a
// transport feature is never taken for an application lane.
pub const PROFILE_CAP_MUSIC: u32 = 1;

pub const PROFILE_CAP_HHHS_REPAIR: u32 = 2;

pub const PROFILE_CAP_REALTIME: u32 = 4;

pub const PROFILE_CAP_WALKIE_EXTENSION: u32 = 8;

/// How many capability words share one realtime generation: the generation is
/// the high byte of the word, the capabilities are the three bytes below it.
pub const REALTIME_GENERATION_UNIT: u32 = 0x100_0000;

/// The capability word with its high byte replaced by `generation`.
pub fn with_realtime_generation(capabilities: u32, generation: u8) -> (word: u32)
    ensures
        word == generation * REALTIME_GENERATION_UNIT + capabilities % REALTIME_GENERATION_UNIT,
        word / 0x100_0000 == generation,
        word % 0x100_0000 == capabilities % 0x100_0000,
{
    (generation as u32) * REALTIME_GENERATION_UNIT + capabilities % REALTIME_GENERATION_UNIT
}

/// The high byte of the capability word.
pub fn realtime_generation(capabilities: u32) -> (generation: u8)
    ensures
        generation == capabilities / REALTIME_GENERATION_UNIT,
        generation == capabilities / 0x100_0000,
{
    (capabilities / REALTIME_GENERATION_UNIT) as u8
}

/// The generation that was put into a word is read back from it, and the
/// capabilities below it are untouched.
pub proof fn law_realtime_generation_survives(capabilities: u32, generation: u8)
    ensures
        ({
            let word = generation * REALTIME_GENERATION_UNIT + capabilities
                % REALTIME_GENERATION_UNIT;
            &&& word / REALTIME_GENERATION_UNIT as int == generation
            &&& word % REALTIME_GENERATION_UNIT as int == capabilities % REALTIME_GENERATION_UNIT
        }),
{
}

pub const PROFILE_BYTES: usize = 4 + 4 * 9;

/// The bytes of `TBP3`. This generation of the profile binds the canonical
/// music vocabulary and the complete record ceiling, which are policy of the
/// room and never a minimum negotiated per link.
pub const PROFILE_MAGIC: [u8; 4] = [0x54, 0x42, 0x50, 0x33];

/// Authenticated control-lane compatibility and allocation profile.
///
/// The GATT value size stays in the peer hello; these limits apply after
/// complete message reassembly. A peer may reduce them after negotiation, never
/// expand its local allocation budget to satisfy the remote endpoint.
#[derive(Clone, Copy, PartialEq, Eq, Debug, Structural)]
pub struct LaneProfile {
    pub music_generation: u32,
    pub music_vocabulary_generation: u32,
    pub max_replica_record_bytes: u32,
    pub hhhs_strategy_version: u32,
    pub hhhs_repair_generation: u32,
    pub application_generation: u32,
    pub capabilities: u32,
    pub max_authenticated_payload_bytes: u32,
    pub max_repair_frame_bytes: u32,
}

impl LaneProfile {
    /// The numbers of the profile, in the order in which they are sent.
    pub open spec fn words(self) -> Seq<u32> {
        seq![
            self.music_generation,
            self.music_vocabulary_generation,
            self.max_replica_record_bytes,
            self.hhhs_strategy_version,
            self.hhhs_repair_generation,
            self.application_generation,
            self.capabilities,
            self.max_authenticated_payload_bytes,
            self.max_repair_frame_bytes,
        ]
    }

    /// The profile on the wire: the magic, then each number in four bytes.
    pub open spec fn encoded(self) -> Seq<u8> {
        PROFILE_MAGIC@ + encoded_words(self.words())
    }

    /// Whether the limits are ones that a peer may ask for.
    pub open spec fn valid(self) -> bool {
        &&& self.music_vocabulary_generation != 0
        &&& self.max_replica_record_bytes != 0
        &&& 0 < self.max_authenticated_payload_bytes <= HARD_MAX_PAYLOAD_BYTES
        &&& 0 < self.max_repair_frame_bytes <= HARD_MAX_WIRE_BYTES
    }

    pub fn encode(self) -> (out: [u8; PROFILE_BYTES])
        ensures
            out@ == self.encoded(),
    {
        let words: [u32; 9] = [
            self.music_generation,
            self.music_vocabulary_generation,
            self.max_replica_record_bytes,
            self.hhhs_strategy_version,
            self.hhhs_repair_generation,
            self.application_generation,
            self.capabilities,
            self.max_authenticated_payload_bytes,
            self.max_repair_frame_bytes,
        ];
        assert(words@ =~= self.words());
        let mut out: Vec<u8> = bytes::to_vec(&PROFILE_MAGIC);
        let mut i: usize = 0;
        assert(words@.subrange(0, 0) =~= Seq::empty());
        while i < 9
            invariant
                i <= 9,
                words@.len() == 9,
                out@ == PROFILE_MAGIC@ + encoded_words(words@.subrange(0, i as int)),
            decreases 9 - i,
        {
            bytes::push_be(&mut out, words[i] as u64, 4);
            proof {
                let next = words@.subrange(0, i + 1);
                assert(next.drop_last() =~= words@.subrange(0, i as int));
                assert(out@ =~= PROFILE_MAGIC@ + encoded_words(next));
            }
            i = i + 1;
        }
        proof {
            assert(words@.subrange(0, 9) =~= words@);
            lemma_encoded_words_len(words@);
        }
        bytes::to_array::<PROFILE_BYTES>(out.as_slice())
    }

    /// Accepts exactly the encodings of valid profiles.
    pub fn decode(bytes: &[u8]) -> (result: Result<Self, BleWireError>)
        ensures
            match result {
                Ok(profile) => profile.valid() && bytes@ == profile.encoded(),
                Err(error) => error == BleWireError::MalformedProfile && forall|
                    profile: LaneProfile,
                |
                    profile.valid() ==> #[trigger] profile.encoded() != bytes@,
            },
    {
        if bytes.len() != PROFILE_BYTES || !bytes::begins_with(bytes, &PROFILE_MAGIC) {
            proof {
                assert forall|profile: LaneProfile| #[trigger]
                    profile.encoded() != bytes@ by {
                    lemma_encoded_words_len(profile.words());
                    assert(PROFILE_MAGIC@.is_prefix_of(profile.encoded()));
                }
            }
            return Err(BleWireError::MalformedProfile);
        }
        let profile = LaneProfile {
            music_generation: bytes::read_u32(bytes, 4),
            music_vocabulary_generation: bytes::read_u32(bytes, 8),
            max_replica_record_bytes: bytes::read_u32(bytes, 12),
            hhhs_strategy_version: bytes::read_u32(bytes, 16),
            hhhs_repair_generation: bytes::read_u32(bytes, 20),
            application_generation: bytes::read_u32(bytes, 24),
            capabilities: bytes::read_u32(bytes, 28),
            max_authenticated_payload_bytes: bytes::read_u32(bytes, 32),
            max_repair_frame_bytes: bytes::read_u32(bytes, 36),
        };
        proof {
            lemma_decoded_profile(bytes@, profile);
        }
        if profile.music_vocabulary_generation == 0 || profile.max_replica_record_bytes == 0
            || profile.max_authenticated_payload_bytes == 0
            || profile.max_authenticated_payload_bytes as usize > HARD_MAX_PAYLOAD_BYTES
            || profile.max_repair_frame_bytes == 0 || profile.max_repair_frame_bytes as usize
            > HARD_MAX_WIRE_BYTES {
            proof {
                assert forall|other: LaneProfile| other.valid() implies #[trigger]
                    other.encoded() != bytes@ by {
                    if other.encoded() == bytes@ {
                        law_profile_encoding_is_injective(other, profile);
                    }
                }
            }
            return Err(BleWireError::MalformedProfile);
        }
        Ok(profile)
    }
}

/// Each number in four bytes, one after the other.
pub open spec fn encoded_words(words: Seq<u32>) -> Seq<u8>
    decreases words.len(),
{
    if words.len() == 0 {
        Seq::empty()
    } else {
        encoded_words(words.drop_last()) + bytes::be(words.last() as nat, 4)
    }
}

proof fn lemma_encoded_words_len(words: Seq<u32>)
    ensures
        encoded_words(words).len() == 4 * words.len(),
    decreases words.len(),
{
    if words.len() > 0 {
        lemma_encoded_words_len(words.drop_last());
        bytes::lemma_be_len(words.last() as nat, 4);
    }
}

/// Numbers that were written one after the other can be told apart.
proof fn lemma_encoded_words_injective(a: Seq<u32>, b: Seq<u32>)
    requires
        a.len() == b.len(),
        encoded_words(a) == encoded_words(b),
    ensures
        a == b,
    decreases a.len(),
{
    if a.len() > 0 {
        let (x, y) = (encoded_words(a.drop_last()), encoded_words(b.drop_last()));
        let (u, v) = (bytes::be(a.last() as nat, 4), bytes::be(b.last() as nat, 4));
        lemma_encoded_words_len(a.drop_last());
        lemma_encoded_words_len(b.drop_last());
        assert(x =~= (x + u).subrange(0, x.len() as int));
        assert(y =~= (y + v).subrange(0, x.len() as int));
        bytes::lemma_be_len(a.last() as nat, 4);
        bytes::lemma_be_len(b.last() as nat, 4);
        assert(u =~= (x + u).subrange(x.len() as int, x.len() as int + 4));
        assert(v =~= (y + v).subrange(x.len() as int, x.len() as int + 4));
        lemma_encoded_words_injective(a.drop_last(), b.drop_last());
        bytes::lemma_be_ranges();
        bytes::lemma_be_injective(a.last() as nat, b.last() as nat, 4);
        assert(a =~= a.drop_last().push(a.last()));
        assert(b =~= b.drop_last().push(b.last()));
    } else {
        assert(a =~= b);
    }
}

/// Bytes whose words are `words` are their encoding.
proof fn lemma_words_at(s: Seq<u8>, words: Seq<u32>)
    requires
        s.len() == 4 * words.len(),
        forall|i: int|
            0 <= i < words.len() ==> #[trigger] words[i] == bytes::be_at(s, 4 * i, 4 * i + 4),
    ensures
        s == encoded_words(words),
    decreases words.len(),
{
    let n = words.len() as int;
    if n > 0 {
        let front = s.subrange(0, 4 * (n - 1));
        let back = s.subrange(4 * (n - 1), 4 * n);
        assert forall|i: int| 0 <= i < n - 1 implies #[trigger] words.drop_last()[i]
            == bytes::be_at(front, 4 * i, 4 * i + 4) by {
            assert(words[i] == bytes::be_at(s, 4 * i, 4 * i + 4));
            assert(front.subrange(4 * i, 4 * i + 4) =~= s.subrange(4 * i, 4 * i + 4));
        }
        lemma_words_at(front, words.drop_last());
        assert(words[n - 1] == bytes::be_at(s, 4 * (n - 1), 4 * (n - 1) + 4));
        bytes::lemma_be_canonical(back);
        assert(s =~= front + back);
    } else {
        assert(s =~= encoded_words(words));
    }
}

proof fn lemma_decoded_profile(s: Seq<u8>, profile: LaneProfile)
    requires
        s.len() == PROFILE_BYTES,
        PROFILE_MAGIC@.is_prefix_of(s),
        forall|i: int|
            0 <= i < 9 ==> #[trigger] profile.words()[i] == bytes::be_at(
                s,
                4 + 4 * i,
                4 + 4 * i + 4,
            ),
    ensures
        s == profile.encoded(),
{
    let body = s.subrange(4, 40);
    assert forall|i: int| 0 <= i < 9 implies #[trigger] profile.words()[i] == bytes::be_at(
        body,
        4 * i,
        4 * i + 4,
    ) by {
        assert(profile.words()[i] == bytes::be_at(s, 4 + 4 * i, 4 + 4 * i + 4));
        assert(body.subrange(4 * i, 4 * i + 4) =~= s.subrange(4 + 4 * i, 4 + 4 * i + 4));
    }
    lemma_words_at(body, profile.words());
    assert(s =~= PROFILE_MAGIC@ + body);
}

/// Different profiles have different encodings, so that what decodes is what
/// was encoded.
pub proof fn law_profile_encoding_is_injective(a: LaneProfile, b: LaneProfile)
    requires
        a.encoded() == b.encoded(),
    ensures
        a == b,
{
    lemma_encoded_words_len(a.words());
    lemma_encoded_words_len(b.words());
    let (x, y) = (encoded_words(a.words()), encoded_words(b.words()));
    assert(x =~= a.encoded().subrange(4, 40));
    assert(y =~= b.encoded().subrange(4, 40));
    lemma_encoded_words_injective(a.words(), b.words());
    let (u, v) = (a.words(), b.words());
    assert(u[0] == v[0] && u[1] == v[1] && u[2] == v[2] && u[3] == v[3] && u[4] == v[4] && u[5]
        == v[5] && u[6] == v[6] && u[7] == v[7] && u[8] == v[8]);
}

proof fn lemma_encoded_word_at(words: Seq<u32>, i: int)
    requires
        0 <= i < words.len(),
    ensures
        bytes::be_at(encoded_words(words), 4 * i, 4 * i + 4) == words[i],
    decreases words.len(),
{
    let front = words.drop_last();
    lemma_encoded_words_len(words);
    lemma_encoded_words_len(front);
    bytes::lemma_be_len(words.last() as nat, 4);
    bytes::lemma_be_ranges();
    bytes::lemma_be_round_trip(words.last() as nat, 4);
    if i < front.len() {
        lemma_encoded_word_at(front, i);
        assert(encoded_words(words).subrange(4 * i, 4 * i + 4) =~= encoded_words(front).subrange(
            4 * i,
            4 * i + 4,
        ));
    } else {
        assert(encoded_words(words).subrange(4 * i, 4 * i + 4) =~= bytes::be(
            words.last() as nat,
            4,
        ));
    }
}

/// Where every field of a profile stands. It is valid where the vocabulary and the
/// record size are not zero and both sizes are neither zero nor above their ceilings.
pub proof fn law_profiles_have_their_layout(profile: LaneProfile)
    ensures
        ({
            let s = profile.encoded();
            &&& s.len() == 40
            &&& s.subrange(0, 4) == seq![0x54u8, 0x42, 0x50, 0x33]
            &&& bytes::be_at(s, 4, 8) == profile.music_generation
            &&& bytes::be_at(s, 8, 12) == profile.music_vocabulary_generation
            &&& bytes::be_at(s, 12, 16) == profile.max_replica_record_bytes
            &&& bytes::be_at(s, 16, 20) == profile.hhhs_strategy_version
            &&& bytes::be_at(s, 20, 24) == profile.hhhs_repair_generation
            &&& bytes::be_at(s, 24, 28) == profile.application_generation
            &&& bytes::be_at(s, 28, 32) == profile.capabilities
            &&& bytes::be_at(s, 32, 36) == profile.max_authenticated_payload_bytes
            &&& bytes::be_at(s, 36, 40) == profile.max_repair_frame_bytes
        }),
        profile.valid() <==> {
            &&& profile.music_vocabulary_generation != 0
            &&& profile.max_replica_record_bytes != 0
            &&& 1 <= profile.max_authenticated_payload_bytes <= 65_495
            &&& 1 <= profile.max_repair_frame_bytes <= 65_535
        },
{
    let s = profile.encoded();
    let words = profile.words();
    let body = encoded_words(words);
    lemma_encoded_words_len(words);
    assert(s.subrange(0, 4) =~= seq![0x54u8, 0x42, 0x50, 0x33]);
    assert forall|i: int| 0 <= i < 9 implies bytes::be_at(s, 4 + 4 * i, 8 + 4 * i)
        == #[trigger] words[i] by {
        lemma_encoded_word_at(words, i);
        assert(s.subrange(4 + 4 * i, 8 + 4 * i) =~= body.subrange(4 * i, 4 * i + 4));
    }
    assert(words[0] == profile.music_generation && words[1] == profile.music_vocabulary_generation
        && words[2] == profile.max_replica_record_bytes && words[3]
        == profile.hhhs_strategy_version && words[4] == profile.hhhs_repair_generation);
    assert(words[5] == profile.application_generation && words[6] == profile.capabilities
        && words[7] == profile.max_authenticated_payload_bytes && words[8]
        == profile.max_repair_frame_bytes);
}

} // verus!

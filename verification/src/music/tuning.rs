//! Tunings, and the degrees and pitches that belong to one.

use crate::bytes;
use crate::collections::Ordered;
use crate::order;
use vstd::prelude::*;

verus! {

/// The content hash by which a tuning is known.
#[derive(Clone, Copy, PartialEq, Eq, PartialOrd, Ord, Hash, Debug)]
pub struct TuningId([u8; 32]);

impl View for TuningId {
    type V = Seq<u8>;

    closed spec fn view(&self) -> Seq<u8> {
        self.0@
    }
}

impl TuningId {
    pub fn from_bytes(bytes: [u8; 32]) -> (id: Self)
        ensures
            id@ == bytes@,
    {
        TuningId(bytes)
    }

    pub fn as_bytes(&self) -> (bytes: &[u8; 32])
        ensures
            bytes@ == self@,
    {
        &self.0
    }

    pub fn same(&self, other: &Self) -> (r: bool)
        ensures
            r == (*self == *other),
    {
        let r: bool = bytes::same_bytes(&self.0, &other.0);
        proof {
            if self.0@ == other.0@ {
                bytes::lemma_array_ext(self.0, other.0);
            }
        }
        r
    }

    pub proof fn lemma_len(self)
        ensures
            self@.len() == 32,
    {
    }

    /// Identifiers with the same bytes are the same identifier.
    pub proof fn lemma_extensional(a: Self, b: Self)
        requires
            a@ == b@,
        ensures
            a == b,
    {
        bytes::lemma_array_ext(a.0, b.0);
    }
}

/// What a projection reads of a tuning: where its degrees lie, in billionths of a
/// semitone.
#[derive(PartialEq, Eq, Debug)]
pub struct Tuning {
    id: TuningId,
    /// The MIDI key, in billionths, of degree zero in period zero.
    reference: i64,
    /// How far apart two periods lie.
    period: i64,
    /// How far above degree zero each degree lies.
    degrees: Vec<i64>,
}

/// What a tuning says.
pub struct TuningView {
    pub id: TuningId,
    pub reference: int,
    pub period: int,
    pub degrees: Seq<i64>,
}

impl View for Tuning {
    type V = TuningView;

    closed spec fn view(&self) -> TuningView {
        TuningView {
            id: self.id,
            reference: self.reference as int,
            period: self.period as int,
            degrees: self.degrees@,
        }
    }
}

impl TuningView {
    /// The MIDI key of a pitch, in billionths. A degree that the tuning does not
    /// have lies where degree zero does.
    pub open spec fn key_billionths(self, pitch: PeriodicPitch) -> int {
        self.reference + self.period * pitch.period + if pitch.degree < self.degrees.len() {
            self.degrees[pitch.degree as int] as int
        } else {
            0
        }
    }
}

impl Tuning {
    pub fn new(id: TuningId, reference: i64, period: i64, degrees: Vec<i64>) -> (tuning: Self)
        ensures
            tuning@ == (TuningView {
                id,
                reference: reference as int,
                period: period as int,
                degrees: degrees@,
            }),
    {
        Tuning { id, reference, period, degrees }
    }

    pub fn id(&self) -> (id: TuningId)
        ensures
            id == self@.id,
    {
        self.id
    }

    pub fn degree_count(&self) -> (count: usize)
        ensures
            count == self@.degrees.len(),
    {
        self.degrees.len()
    }

    /// The MIDI key of a pitch, in billionths.
    pub fn key_billionths(&self, pitch: PeriodicPitch) -> (key: i128)
        ensures
            key == self@.key_billionths(pitch),
            -0x1_0000_0000_0000_0000_0000_0000 < key < 0x1_0000_0000_0000_0000_0000_0000,
    {
        let offset: i64 = if (pitch.degree as usize) < self.degrees.len() {
            self.degrees[pitch.degree as usize]
        } else {
            0
        };
        proof {
            let (p, k) = (self.period as int, pitch.period as int);
            assert(-0x4000_0000_0000_0000_0000_0000 <= p * k <= 0x4000_0000_0000_0000_0000_0000)
                by (nonlinear_arith)
                requires
                    -0x8000_0000_0000_0000 <= p <= 0x7fff_ffff_ffff_ffff,
                    -0x8000_0000 <= k <= 0x7fff_ffff,
            ;
        }
        let periods: i128 = (self.period as i128) * (pitch.period as i128);
        self.reference as i128 + periods + offset as i128
    }
}

/// One degree of one tuning.
#[derive(Clone, Copy, PartialEq, Eq, PartialOrd, Ord, Hash, Debug)]
pub struct TunedDegree {
    pub tuning_id: TuningId,
    pub degree: u16,
}

impl TunedDegree {
    pub fn same(&self, other: &Self) -> (r: bool)
        ensures
            r == (*self == *other),
    {
        self.tuning_id.same(&other.tuning_id) && self.degree == other.degree
    }

    /// The degree of `tuning` with this index, if the tuning has it.
    pub fn new(tuning: &Tuning, index: u16) -> (degree: Option<Self>)
        ensures
            degree == if index < tuning@.degrees.len() {
                Some(TunedDegree { tuning_id: tuning@.id, degree: index })
            } else {
                None
            },
    {
        if (index as usize) < tuning.degree_count() {
            Some(TunedDegree { tuning_id: tuning.id(), degree: index })
        } else {
            None
        }
    }
}

impl TuningView {
    /// Whether a degree is one of this tuning's.
    pub open spec fn has(self, degree: TunedDegree) -> bool {
        degree.tuning_id == self.id && degree.degree < self.degrees.len()
    }
}

impl Tuning {
    /// Whether a degree is one of this tuning's.
    pub fn has(&self, degree: TunedDegree) -> (r: bool)
        ensures
            r == self@.has(degree),
    {
        degree.tuning_id.same(&self.id()) && (degree.degree as usize) < self.degree_count()
    }
}

impl Ordered for TunedDegree {
    open spec fn key(self) -> Seq<int> {
        order::byte_key(self.tuning_id@) + seq![self.degree as int]
    }

    proof fn lemma_key_injective(a: Self, b: Self) {
        a.tuning_id.lemma_len();
        b.tuning_id.lemma_len();
        let (s, t) = (a.key(), b.key());
        assert(s.subrange(0, 32) =~= order::byte_key(a.tuning_id@));
        assert(t.subrange(0, 32) =~= order::byte_key(b.tuning_id@));
        assert(s[32] == a.degree as int);
        assert(t[32] == b.degree as int);
        order::lemma_byte_key_injective(a.tuning_id@, b.tuning_id@);
        TuningId::lemma_extensional(a.tuning_id, b.tuning_id);
    }

    fn precedes(&self, other: &Self) -> (r: bool) {
        proof {
            self.tuning_id.lemma_len();
            other.tuning_id.lemma_len();
            if self.tuning_id == other.tuning_id {
                order::lemma_common_prefix(
                    order::byte_key(self.tuning_id@),
                    seq![self.degree as int],
                    seq![other.degree as int],
                );
                crate::collections::lemma_single_key(self.degree as int, other.degree as int);
            } else {
                if order::byte_key(self.tuning_id@) == order::byte_key(other.tuning_id@) {
                    order::lemma_byte_key_injective(self.tuning_id@, other.tuning_id@);
                    TuningId::lemma_extensional(self.tuning_id, other.tuning_id);
                }
                order::lemma_different_prefix(
                    order::byte_key(self.tuning_id@),
                    order::byte_key(other.tuning_id@),
                    seq![self.degree as int],
                    seq![other.degree as int],
                );
            }
        }
        if self.tuning_id.same(&other.tuning_id) {
            self.degree < other.degree
        } else {
            order::bytes_before(self.tuning_id.as_bytes(), other.tuning_id.as_bytes())
        }
    }
}

/// A degree in one period of the scale.
#[derive(Clone, Copy, PartialEq, Eq, PartialOrd, Ord, Hash, Debug, Structural)]
pub struct PeriodicPitch {
    pub degree: u16,
    pub period: i32,
}

impl PeriodicPitch {
    pub fn from_degree(degree: u16, period: i32) -> (pitch: Self)
        ensures
            pitch == (PeriodicPitch { degree, period }),
    {
        PeriodicPitch { degree, period }
    }
}

/// One absolute pitch of one tuning.
#[derive(Clone, Copy, PartialEq, Eq, PartialOrd, Ord, Hash, Debug)]
pub struct TunedPeriodicPitch {
    pub tuning_id: TuningId,
    pub pitch: PeriodicPitch,
}

impl TunedPeriodicPitch {
    pub fn same(&self, other: &Self) -> (r: bool)
        ensures
            r == (*self == *other),
    {
        self.tuning_id.same(&other.tuning_id) && self.pitch.degree == other.pitch.degree
            && self.pitch.period == other.pitch.period
    }

    /// The pitch of `tuning` with this degree and period, if the tuning has the
    /// degree.
    pub fn new(tuning: &Tuning, degree: u16, period: i32) -> (pitch: Option<Self>)
        ensures
            pitch == if degree < tuning@.degrees.len() {
                Some(
                    TunedPeriodicPitch {
                        tuning_id: tuning@.id,
                        pitch: PeriodicPitch { degree, period },
                    },
                )
            } else {
                None
            },
    {
        if (degree as usize) < tuning.degree_count() {
            Some(
                TunedPeriodicPitch {
                    tuning_id: tuning.id(),
                    pitch: PeriodicPitch { degree, period },
                },
            )
        } else {
            None
        }
    }

    /// The degree of the pitch, whatever its period.
    pub open spec fn class(self) -> TunedDegree {
        TunedDegree { tuning_id: self.tuning_id, degree: self.pitch.degree }
    }

    pub fn degree(&self) -> (degree: TunedDegree)
        ensures
            degree == self.class(),
    {
        TunedDegree { tuning_id: self.tuning_id, degree: self.pitch.degree }
    }

    /// The pitch of a degree in period zero.
    pub open spec fn of_degree(degree: TunedDegree) -> TunedPeriodicPitch {
        TunedPeriodicPitch {
            tuning_id: degree.tuning_id,
            pitch: PeriodicPitch { degree: degree.degree, period: 0 },
        }
    }
}

impl Ordered for TunedPeriodicPitch {
    open spec fn key(self) -> Seq<int> {
        self.class().key() + seq![self.pitch.period as int]
    }

    proof fn lemma_key_injective(a: Self, b: Self) {
        a.tuning_id.lemma_len();
        b.tuning_id.lemma_len();
        let (s, t) = (a.key(), b.key());
        assert(s.subrange(0, 33) =~= a.class().key());
        assert(t.subrange(0, 33) =~= b.class().key());
        assert(s[33] == a.pitch.period as int);
        assert(t[33] == b.pitch.period as int);
        TunedDegree::lemma_key_injective(a.class(), b.class());
    }

    fn precedes(&self, other: &Self) -> (r: bool) {
        let (a, b): (TunedDegree, TunedDegree) = (self.degree(), other.degree());
        proof {
            self.tuning_id.lemma_len();
            other.tuning_id.lemma_len();
            if a == b {
                order::lemma_common_prefix(
                    a.key(),
                    seq![self.pitch.period as int],
                    seq![other.pitch.period as int],
                );
                crate::collections::lemma_single_key(
                    self.pitch.period as int,
                    other.pitch.period as int,
                );
            } else {
                if a.key() == b.key() {
                    TunedDegree::lemma_key_injective(a, b);
                }
                order::lemma_different_prefix(
                    a.key(),
                    b.key(),
                    seq![self.pitch.period as int],
                    seq![other.pitch.period as int],
                );
            }
        }
        if a.same(&b) {
            self.pitch.period < other.pitch.period
        } else {
            a.precedes(&b)
        }
    }
}

/// A tuning as it is exchanged: a scale file and, where there is one, a keyboard
/// mapping.
#[derive(PartialEq, Eq, PartialOrd, Ord, Debug)]
pub struct TuningDefinition {
    pub scl: String,
    pub kbm: Option<String>,
}

/// What a tuning definition says.
pub struct DefinitionView {
    pub scl: Seq<char>,
    pub kbm: Option<Seq<char>>,
}

impl View for TuningDefinition {
    type V = DefinitionView;

    open spec fn view(&self) -> DefinitionView {
        DefinitionView {
            scl: self.scl@,
            kbm: match self.kbm {
                Some(kbm) => Some(kbm@),
                None => None,
            },
        }
    }
}

impl Clone for TuningDefinition {
    fn clone(&self) -> (definition: Self)
        ensures
            definition@ == self@,
    {
        let kbm: Option<String> = match &self.kbm {
            Some(kbm) => Some(kbm.clone()),
            None => None,
        };
        TuningDefinition { scl: self.scl.clone(), kbm }
    }
}

/// A pitch lies its degree's distance above the reference, a degree that the tuning
/// does not have lies on it, and every period moves a pitch on by the same distance.
pub proof fn law_pitches_repeat_every_period(tuning: TuningView, degree: u16, period: i32)
    ensures
        degree < tuning.degrees.len() ==> tuning.key_billionths(
            PeriodicPitch { degree, period: 0 },
        ) - tuning.reference == tuning.degrees[degree as int],
        degree >= tuning.degrees.len() ==> tuning.key_billionths(
            PeriodicPitch { degree, period: 0 },
        ) == tuning.reference,
        period < i32::MAX ==> tuning.key_billionths(
            PeriodicPitch { degree, period: (period + 1) as i32 },
        ) - tuning.key_billionths(PeriodicPitch { degree, period }) == tuning.period,
{
    let (p, k) = (tuning.period, period as int);
    assert(p * 0 == 0);
    assert(p * (k + 1) == p * k + p) by (nonlinear_arith);
}

/// Within a tuning degrees are ordered by their number and pitches by degree and
/// then by period. Tunings are ordered by their bytes.
pub proof fn law_pitches_are_ordered_by_degree_and_period(
    a: TunedPeriodicPitch,
    b: TunedPeriodicPitch,
)
    ensures
        a.tuning_id == b.tuning_id ==> (order::before(a.class().key(), b.class().key())
            <==> a.pitch.degree < b.pitch.degree),
        a.tuning_id == b.tuning_id ==> (order::before(a.key(), b.key()) <==> a.pitch.degree
            < b.pitch.degree || a.pitch.degree == b.pitch.degree && a.pitch.period
            < b.pitch.period),
        a.tuning_id != b.tuning_id ==> (order::before(a.key(), b.key()) <==> order::before(
            order::byte_key(a.tuning_id@),
            order::byte_key(b.tuning_id@),
        )),
{
    a.tuning_id.lemma_len();
    b.tuning_id.lemma_len();
    let (s, t) = (order::byte_key(a.tuning_id@), order::byte_key(b.tuning_id@));
    let (u, v) = (seq![a.pitch.degree as int], seq![b.pitch.degree as int]);
    let (w, x) = (seq![a.pitch.period as int], seq![b.pitch.period as int]);
    crate::collections::lemma_single_key(a.pitch.degree as int, b.pitch.degree as int);
    crate::collections::lemma_single_key(a.pitch.period as int, b.pitch.period as int);
    if a.tuning_id == b.tuning_id {
        order::lemma_common_prefix(s, u, v);
        if a.pitch.degree == b.pitch.degree {
            order::lemma_irreflexive(a.class().key());
            order::lemma_common_prefix(a.class().key(), w, x);
        } else {
            assert(a.class().key()[32] == a.pitch.degree);
            assert(b.class().key()[32] == b.pitch.degree);
            order::lemma_different_prefix(a.class().key(), b.class().key(), w, x);
        }
    } else {
        if s == t {
            order::lemma_byte_key_injective(a.tuning_id@, b.tuning_id@);
            TuningId::lemma_extensional(a.tuning_id, b.tuning_id);
        }
        assert(a.key() =~= s + (u + w));
        assert(b.key() =~= t + (v + x));
        order::lemma_different_prefix(s, t, u + w, v + x);
    }
}

} // verus!

//! The music op alphabet: the vocabulary every Tutti music peer speaks.
//!
//! Existing variants are stable within a protocol generation; a shape change
//! requires a new generation. Deliberately absent are note events as durable
//! ops: the pitch set is the shared object, and held notes are a local
//! projection of it.

use crate::music::facets::{Envelope, EnvelopeView, MAX_ENV_LEVEL};
use crate::music::roundtable::{RoundTableConfig, RoundTableConfigError};
use crate::music::tuning::{DefinitionView, TunedDegree, TunedPeriodicPitch, TuningDefinition};
use crate::text;
use vstd::prelude::*;

verus! {

/// The music operation. Degrees are a tuning-scoped add-wins set; envelopes are
/// per-degree causal-maxima registers; the tuning is a room-wide register. All
/// of them commute: the fold resolves them causally, never by wall clock.
#[derive(Debug, PartialEq, Eq)]
pub enum MusicOp {
    /// Assert one tuning-scoped degree into the shared pitch set.
    AddDegree { degree: TunedDegree },
    /// Retract one degree. Cancels only the adds it causally observed; a
    /// concurrent add survives (add-wins).
    RemoveDegree { degree: TunedDegree },
    /// Write the amplitude-envelope facet for one degree (a causal register,
    /// independent of the degree's liveness).
    SetEnvelope { degree: TunedDegree, env: Envelope },
    /// Canonical room-wide tuning definition (register; causal-maxima resolved).
    SetTuning { definition: TuningDefinition },
    /// Room-wide musical parameters for the round-table bass performance.
    /// Running state and turns remain ephemeral session messages.
    SetRoundTable { config: RoundTableConfig },
    /// Assert one absolute tuning-scoped pitch into the shared pitch set.
    AddPitch { pitch: TunedPeriodicPitch },
    /// Retract every causally observed add of this absolute pitch. Any room
    /// member may do this; a concurrent add survives (observed-remove set).
    RemovePitch { pitch: TunedPeriodicPitch },
}

/// What an op says.
pub enum OpView {
    AddDegree(TunedDegree),
    RemoveDegree(TunedDegree),
    SetEnvelope(TunedDegree, EnvelopeView),
    SetTuning(DefinitionView),
    SetRoundTable(RoundTableConfig),
    AddPitch(TunedPeriodicPitch),
    RemovePitch(TunedPeriodicPitch),
}

impl View for MusicOp {
    type V = OpView;

    open spec fn view(&self) -> OpView {
        match *self {
            MusicOp::AddDegree { degree } => OpView::AddDegree(degree),
            MusicOp::RemoveDegree { degree } => OpView::RemoveDegree(degree),
            MusicOp::SetEnvelope { degree, env } => OpView::SetEnvelope(degree, env@),
            MusicOp::SetTuning { definition } => OpView::SetTuning(definition@),
            MusicOp::SetRoundTable { config } => OpView::SetRoundTable(config),
            MusicOp::AddPitch { pitch } => OpView::AddPitch(pitch),
            MusicOp::RemovePitch { pitch } => OpView::RemovePitch(pitch),
        }
    }
}

impl Clone for MusicOp {
    fn clone(&self) -> (op: Self)
        ensures
            op@ == self@,
    {
        match self {
            MusicOp::AddDegree { degree } => MusicOp::AddDegree { degree: *degree },
            MusicOp::RemoveDegree { degree } => MusicOp::RemoveDegree { degree: *degree },
            MusicOp::SetEnvelope { degree, env } => MusicOp::SetEnvelope {
                degree: *degree,
                env: env.clone(),
            },
            MusicOp::SetTuning { definition } => MusicOp::SetTuning {
                definition: definition.clone(),
            },
            MusicOp::SetRoundTable { config } => MusicOp::SetRoundTable { config: *config },
            MusicOp::AddPitch { pitch } => MusicOp::AddPitch { pitch: *pitch },
            MusicOp::RemovePitch { pitch } => MusicOp::RemovePitch { pitch: *pitch },
        }
    }
}

/// The bounds on what an op may carry.
#[derive(Debug, Clone, Copy, PartialEq, Eq, Structural)]
pub struct OpLimits {
    /// How many degrees a scale may have.
    pub max_scale_degrees: usize,
    /// How many breakpoints an envelope may have.
    pub max_env_points: usize,
}

/// What is wrong with a degree, if anything.
pub open spec fn degree_fault(degree: TunedDegree, limits: OpLimits) -> Option<Seq<char>> {
    if degree.degree >= limits.max_scale_degrees {
        Some(
            "degree "@ + text::decimal(degree.degree as nat) + " exceeds the supported bound"@,
        )
    } else {
        None
    }
}

/// The first breakpoint above full amplitude, from `from` on.
pub open spec fn first_loud(points: Seq<(u16, u8)>, from: int) -> Option<u8>
    decreases points.len() - from,
{
    if from >= points.len() {
        None
    } else if points[from].1 > MAX_ENV_LEVEL {
        Some(points[from].1)
    } else {
        first_loud(points, from + 1)
    }
}

/// What is wrong with an envelope, if anything.
pub open spec fn envelope_fault(points: Seq<(u16, u8)>, limits: OpLimits) -> Option<Seq<char>> {
    if points.len() == 0 || points.len() > limits.max_env_points {
        Some(
            "envelope must carry 1..="@ + text::decimal(limits.max_env_points as nat)
                + " breakpoints (got "@ + text::decimal(points.len()) + ")"@,
        )
    } else {
        match first_loud(points, 0) {
            Some(level) => Some(
                "envelope level "@ + text::decimal(level as nat)
                    + " exceeds MAX_ENV_LEVEL=127"@,
            ),
            None => None,
        }
    }
}

impl OpView {
    /// What is wrong with the op, if anything. What is wrong with a tuning
    /// definition is for the tuning parser to say.
    pub open spec fn fault(
        self,
        limits: OpLimits,
        definition_fault: Option<Seq<char>>,
    ) -> Option<Seq<char>> {
        match self {
            OpView::AddDegree(degree) => degree_fault(degree, limits),
            OpView::RemoveDegree(degree) => degree_fault(degree, limits),
            OpView::SetEnvelope(degree, env) => match degree_fault(degree, limits) {
                Some(fault) => Some(fault),
                None => envelope_fault(env.points, limits),
            },
            OpView::SetTuning(_) => definition_fault,
            OpView::SetRoundTable(config) => match config.verdict() {
                Ok(_) => None,
                Err(error) => Some(error.text()),
            },
            OpView::AddPitch(pitch) => degree_fault(pitch.class(), limits),
            OpView::RemovePitch(pitch) => degree_fault(pitch.class(), limits),
        }
    }
}

fn validate_degree(degree: TunedDegree, limits: OpLimits) -> (result: Result<(), String>)
    ensures
        match result {
            Ok(_) => degree_fault(degree, limits) is None,
            Err(message) => degree_fault(degree, limits) == Some(message@),
        },
{
    if degree.degree as usize >= limits.max_scale_degrees {
        let mut message: String = text::string_of("degree ");
        text::push_decimal(&mut message, degree.degree as u64);
        text::push_str(&mut message, " exceeds the supported bound");
        return Err(message);
    }
    Ok(())
}

fn validate_envelope(env: &Envelope, limits: OpLimits) -> (result: Result<(), String>)
    ensures
        match result {
            Ok(_) => envelope_fault(env.points@, limits) is None,
            Err(message) => envelope_fault(env.points@, limits) == Some(message@),
        },
{
    if env.points.len() == 0 || env.points.len() > limits.max_env_points {
        let mut message: String = text::string_of("envelope must carry 1..=");
        text::push_decimal(&mut message, limits.max_env_points as u64);
        text::push_str(&mut message, " breakpoints (got ");
        text::push_decimal(&mut message, env.points.len() as u64);
        text::push_str(&mut message, ")");
        return Err(message);
    }
    let mut i: usize = 0;
    while i < env.points.len()
        invariant
            i <= env.points@.len(),
            env.points@.len() != 0,
            env.points@.len() <= limits.max_env_points,
            first_loud(env.points@, i as int) == first_loud(env.points@, 0),
        decreases env.points@.len() - i,
    {
        let level: u8 = env.points[i].1;
        if level > MAX_ENV_LEVEL {
            let mut message: String = text::string_of("envelope level ");
            text::push_decimal(&mut message, level as u64);
            text::push_str(&mut message, " exceeds MAX_ENV_LEVEL=127");
            return Err(message);
        }
        i = i + 1;
    }
    Ok(())
}

/// Validate the bounded protocol shape of one op, once, at ingress.
///
/// `definition_fault` is what the tuning parser says against the definition of a
/// [`MusicOp::SetTuning`]; of any other op it is not read.
pub fn validate(op: &MusicOp, limits: OpLimits, definition_fault: Option<String>) -> (result: Result<
    (),
    String,
>)
    ensures
        ({
            let against = match definition_fault {
                Some(fault) => Some(fault@),
                None => None,
            };
            match result {
                Ok(_) => op@.fault(limits, against) is None,
                Err(message) => op@.fault(limits, against) == Some(message@),
            }
        }),
{
    match op {
        MusicOp::AddDegree { degree } => validate_degree(*degree, limits),
        MusicOp::RemoveDegree { degree } => validate_degree(*degree, limits),
        MusicOp::SetEnvelope { degree, env } => match validate_degree(*degree, limits) {
            Ok(_) => validate_envelope(env, limits),
            Err(message) => Err(message),
        },
        MusicOp::SetTuning { .. } => match definition_fault {
            Some(fault) => Err(fault),
            None => Ok(()),
        },
        MusicOp::SetRoundTable { config } => match config.validate() {
            Ok(_) => Ok(()),
            Err(error) => Err(text::string_of(error.message())),
        },
        MusicOp::AddPitch { pitch } => validate_degree(pitch.degree(), limits),
        MusicOp::RemovePitch { pitch } => validate_degree(pitch.degree(), limits),
    }
}

/// An add and the remove of the same thing are valid alike, so that whatever
/// entered the shared set can leave it.
pub proof fn law_what_can_be_added_can_be_removed(
    degree: TunedDegree,
    pitch: TunedPeriodicPitch,
    limits: OpLimits,
)
    ensures
        OpView::AddDegree(degree).fault(limits, None) == OpView::RemoveDegree(degree).fault(
            limits,
            None,
        ),
        OpView::AddPitch(pitch).fault(limits, None) == OpView::RemovePitch(pitch).fault(
            limits,
            None,
        ),
{
}

proof fn lemma_first_loud(points: Seq<(u16, u8)>, from: int)
    requires
        0 <= from <= points.len(),
    ensures
        match first_loud(points, from) {
            Some(level) => exists|i: int|
                from <= i < points.len() && #[trigger] points[i].1 == level && level > 127 && (
                forall|j: int| from <= j < i ==> (#[trigger] points[j]).1 <= 127),
            None => forall|i: int| from <= i < points.len() ==> (#[trigger] points[i]).1 <= 127,
        },
    decreases points.len() - from,
{
    if from < points.len() {
        if points[from].1 <= MAX_ENV_LEVEL {
            lemma_first_loud(points, from + 1);
            if let Some(level) = first_loud(points, from) {
                let i = choose|i: int|
                    from + 1 <= i < points.len() && #[trigger] points[i].1 == level && level > 127
                        && (forall|j: int| from + 1 <= j < i ==> (#[trigger] points[j]).1 <= 127);
                assert forall|j: int| from <= j < i implies (#[trigger] points[j]).1 <= 127 by {}
                assert(points[i].1 == level);
            }
        } else {
            assert(points[from].1 == first_loud(points, from)->0);
        }
    }
}

/// An op that names a degree is refused where the degree is not below the bound, and
/// the refusal names the degree.
pub proof fn law_degrees_stay_below_the_bound(
    degree: TunedDegree,
    pitch: TunedPeriodicPitch,
    limits: OpLimits,
    definition_fault: Option<Seq<char>>,
)
    ensures
        OpView::AddDegree(degree).fault(limits, definition_fault) is None <==> degree.degree
            < limits.max_scale_degrees,
        OpView::RemoveDegree(degree).fault(limits, definition_fault) is None <==> degree.degree
            < limits.max_scale_degrees,
        OpView::AddPitch(pitch).fault(limits, definition_fault) is None <==> pitch.pitch.degree
            < limits.max_scale_degrees,
        OpView::RemovePitch(pitch).fault(limits, definition_fault) is None <==> pitch.pitch.degree
            < limits.max_scale_degrees,
        degree.degree >= limits.max_scale_degrees ==> OpView::AddDegree(degree).fault(
            limits,
            definition_fault,
        ) == Some(
            "degree "@ + text::decimal(degree.degree as nat) + " exceeds the supported bound"@,
        ),
        pitch.pitch.degree >= limits.max_scale_degrees ==> OpView::AddPitch(pitch).fault(
            limits,
            definition_fault,
        ) == Some(
            "degree "@ + text::decimal(pitch.pitch.degree as nat)
                + " exceeds the supported bound"@,
        ),
{
}

/// An envelope is accepted exactly where its degree is below the bound, it has a
/// breakpoint and not too many, and no level is above full amplitude. A refusal names
/// the degree, then the number of breakpoints, then the first level that is too high.
pub proof fn law_envelopes_stay_within_bounds(
    degree: TunedDegree,
    env: EnvelopeView,
    limits: OpLimits,
    definition_fault: Option<Seq<char>>,
)
    ensures
        ({
            let fault = OpView::SetEnvelope(degree, env).fault(limits, definition_fault);
            &&& fault is None <==> {
                &&& degree.degree < limits.max_scale_degrees
                &&& 1 <= env.points.len() <= limits.max_env_points
                &&& forall|i: int| 0 <= i < env.points.len() ==> (#[trigger] env.points[i]).1 <= 127
            }
            &&& degree.degree >= limits.max_scale_degrees ==> fault == OpView::AddDegree(
                degree,
            ).fault(limits, definition_fault)
            &&& degree.degree < limits.max_scale_degrees && !(1 <= env.points.len()
                <= limits.max_env_points) ==> fault == Some(
                "envelope must carry 1..="@ + text::decimal(limits.max_env_points as nat)
                    + " breakpoints (got "@ + text::decimal(env.points.len()) + ")"@,
            )
            &&& fault is Some && degree.degree < limits.max_scale_degrees && 1 <= env.points.len()
                <= limits.max_env_points ==> exists|i: int|
                0 <= i < env.points.len() && (#[trigger] env.points[i]).1 > 127 && (forall|j: int|
                    0 <= j < i ==> (#[trigger] env.points[j]).1 <= 127) && fault == Some(
                    "envelope level "@ + text::decimal(env.points[i].1 as nat)
                        + " exceeds MAX_ENV_LEVEL=127"@,
                )
        }),
{
    lemma_first_loud(env.points, 0);
    if let Some(level) = first_loud(env.points, 0) {
        let i = choose|i: int|
            0 <= i < env.points.len() && #[trigger] env.points[i].1 == level && level > 127 && (
            forall|j: int| 0 <= j < i ==> (#[trigger] env.points[j]).1 <= 127);
        assert(env.points[i].1 > 127);
    }
}

/// Of a tuning the parser's word stands. Settings are refused with the words of the
/// rule that they break.
pub proof fn law_settings_are_refused_in_words(
    definition: DefinitionView,
    config: RoundTableConfig,
    limits: OpLimits,
    definition_fault: Option<Seq<char>>,
)
    ensures
        OpView::SetTuning(definition).fault(limits, definition_fault) == definition_fault,
        ({
            let fault = OpView::SetRoundTable(config).fault(limits, definition_fault);
            let verdict = config.verdict();
            &&& fault is None <==> config.valid()
            &&& verdict == Err::<(), RoundTableConfigError>(RoundTableConfigError::Center)
                ==> fault == Some("bass center must be 60000..=120000 millihertz"@)
            &&& verdict == Err::<(), RoundTableConfigError>(RoundTableConfigError::Spread)
                ==> fault == Some("pitch spread must be at most 12 semitones"@)
            &&& verdict == Err::<(), RoundTableConfigError>(RoundTableConfigError::Level) ==> fault
                == Some("voice level must be 1..=450 per mille"@)
            &&& verdict == Err::<(), RoundTableConfigError>(RoundTableConfigError::Pulse) ==> fault
                == Some("pulse duration must be 80..=2000 milliseconds"@)
            &&& verdict == Err::<(), RoundTableConfigError>(RoundTableConfigError::Gap) ==> fault
                == Some("gap duration must be at most 2000 milliseconds"@)
            &&& verdict == Err::<(), RoundTableConfigError>(RoundTableConfigError::Pattern)
                ==> fault == Some("arpeggiator pattern must contain at most 24 notes"@)
        }),
{
}

} // verus!

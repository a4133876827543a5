//! Per-degree configuration: the amplitude envelope.

use vstd::prelude::*;

verus! {

/// The level of a breakpoint at full amplitude.
pub const MAX_ENV_LEVEL: u8 = 127;

/// How a segment between two breakpoints is drawn.
#[derive(Clone, Copy, PartialEq, Eq, PartialOrd, Ord, Debug, Structural)]
pub enum Interp {
    Linear,
    Step,
    Exp,
}

/// Sparse breakpoints, each a segment's length in milliseconds and the level it
/// ends at, and an interpolation rule.
#[derive(PartialEq, Eq, PartialOrd, Ord, Debug)]
pub struct Envelope {
    pub points: Vec<(u16, u8)>,
    pub interp: Interp,
}

/// What an envelope says.
#[verifier::ext_equal]
pub struct EnvelopeView {
    pub points: Seq<(u16, u8)>,
    pub interp: Interp,
}

impl View for Envelope {
    type V = EnvelopeView;

    open spec fn view(&self) -> EnvelopeView {
        EnvelopeView { points: self.points@, interp: self.interp }
    }
}

impl Clone for Envelope {
    fn clone(&self) -> (envelope: Self)
        ensures
            envelope@ == self@,
    {
        let mut points: Vec<(u16, u8)> = Vec::new();
        let mut i: usize = 0;
        while i < self.points.len()
            invariant
                i <= self.points@.len(),
                points@ == self.points@.subrange(0, i as int),
            decreases self.points@.len() - i,
        {
            points.push(self.points[i]);
            i = i + 1;
            assert(points@ =~= self.points@.subrange(0, i as int));
        }
        assert(points@ =~= self.points@);
        Envelope { points, interp: self.interp }
    }
}

} // verus!

//! Sliding replay window over message sequence numbers.

use crate::bits;
use crate::session::error::ReplayError;
use vstd::prelude::*;

verus! {

/// Sliding 64-message replay window. Newer messages advance the window while
/// unique out-of-order messages within it are accepted exactly once.
///
/// Bit `d` of `seen` stands for the sequence number `highest - d`.
#[derive(Clone, Copy, Debug)]
pub struct ReplayWindow {
    highest: Option<u64>,
    seen: u64,
}

impl ReplayWindow {
    pub closed spec fn highest(self) -> Option<u64> {
        self.highest
    }

    /// Whether `sequence` lies behind the window.
    pub open spec fn forgot(self, sequence: u64) -> bool {
        self.highest() is Some && self.highest()->0 - sequence >= 64
    }

    /// Whether `sequence` lies in the window and was accepted.
    pub closed spec fn remembers(self, sequence: u64) -> bool {
        self.highest is Some && 0 <= self.highest->0 - sequence < 64 && bits::bit(
            self.seen,
            (self.highest->0 - sequence) as u64,
        )
    }

    /// The verdict on `sequence`.
    pub open spec fn verdict(self, sequence: u64) -> Result<(), ReplayError> {
        if self.forgot(sequence) {
            Err(ReplayError::TooOld)
        } else if self.remembers(sequence) {
            Err(ReplayError::Duplicate)
        } else {
            Ok(())
        }
    }

    /// Whether `next` is `self` after it accepted `sequence`: the window ends at
    /// the highest number seen and remembers, of what it remembered and
    /// `sequence`, all that still lies within it.
    pub open spec fn advances_to(self, sequence: u64, next: ReplayWindow) -> bool {
        &&& next.highest() == Some(
            if self.highest() is Some && self.highest()->0 > sequence {
                self.highest()->0
            } else {
                sequence
            },
        )
        &&& forall|other: u64| #[trigger]
            next.remembers(other) <==> (other == sequence || self.remembers(other))
                && next.highest()->0 - other < 64
    }

    /// One call of [`ReplayWindow::check_and_mark`]: from `self` to `next`.
    pub open spec fn step(self, sequence: u64, next: ReplayWindow) -> bool {
        if self.verdict(sequence) is Ok {
            self.advances_to(sequence, next)
        } else {
            next == self
        }
    }

    pub fn check_and_mark(&mut self, sequence: u64) -> (verdict: Result<(), ReplayError>)
        ensures
            verdict == old(self).verdict(sequence),
            old(self).step(sequence, *final(self)),
    {
        let highest: u64 = match self.highest {
            Some(highest) => highest,
            None => {
                self.highest = Some(sequence);
                self.seen = 1;
                proof {
                    assert forall|other: u64| #[trigger] self.remembers(other) <==> other
                        == sequence by {
                        bits::lemma_only_bit((sequence - other) as u64);
                    }
                }
                return Ok(());
            },
        };
        if sequence > highest {
            let shift: u64 = sequence - highest;
            let seen: u64 = self.seen;
            self.seen = if shift >= 64 {
                1
            } else {
                (seen << shift) | 1
            };
            self.highest = Some(sequence);
            proof {
                assert forall|other: u64| #[trigger]
                    self.remembers(other) <==> (other == sequence || old(self).remembers(other))
                        && sequence - other < 64 by {
                    if other <= sequence && sequence - other < 64 {
                        let d = (sequence - other) as u64;
                        if shift >= 64 {
                            bits::lemma_only_bit(d);
                        } else {
                            bits::lemma_shifted_bit(seen, shift, d);
                        }
                    }
                }
            }
            return Ok(());
        }
        let distance: u64 = highest - sequence;
        if distance >= 64 {
            return Err(ReplayError::TooOld);
        }
        let mark: u64 = 1u64 << distance;
        proof {
            bits::lemma_bit_test(self.seen, distance);
        }
        if self.seen & mark != 0 {
            return Err(ReplayError::Duplicate);
        }
        let seen: u64 = self.seen;
        self.seen = seen | mark;
        proof {
            assert forall|other: u64| #[trigger]
                self.remembers(other) <==> (other == sequence || old(self).remembers(other))
                    && highest - other < 64 by {
                if other <= highest && highest - other < 64 {
                    bits::lemma_bit_set(seen, distance, (highest - other) as u64);
                }
            }
        }
        Ok(())
    }
}

impl Default for ReplayWindow {
    fn default() -> (window: Self)
        ensures
            window.highest() is None,
            forall|sequence: u64| !#[trigger] window.remembers(sequence),
    {
        ReplayWindow { highest: None, seen: 0 }
    }
}

/// Whether `windows` are the states of one window while it is offered
/// `sequences`, one after the other.
pub open spec fn window_run(windows: Seq<ReplayWindow>, sequences: Seq<u64>) -> bool {
    &&& windows.len() == sequences.len() + 1
    &&& forall|i: int|
        0 <= i < sequences.len() ==> (#[trigger] windows[i]).step(sequences[i], windows[i + 1])
}

/// What was accepted once stays refused: the window remembers it or has moved
/// past it.
pub proof fn lemma_accepted_stays_refused(
    windows: Seq<ReplayWindow>,
    sequences: Seq<u64>,
    i: int,
    j: int,
)
    requires
        window_run(windows, sequences),
        0 <= i < j <= sequences.len(),
        windows[i].verdict(sequences[i]) is Ok,
    ensures
        windows[j].remembers(sequences[i]) || windows[j].forgot(sequences[i]),
    decreases j,
{
    let first = sequences[i];
    if j == i + 1 {
        assert(windows[i].step(first, windows[i + 1]));
        assert(windows[j].remembers(first) <==> windows[j].highest()->0 - first < 64);
    } else {
        lemma_accepted_stays_refused(windows, sequences, i, j - 1);
        let before = windows[j - 1];
        assert(before.step(sequences[j - 1], windows[j - 1 + 1]));
        if before.verdict(sequences[j - 1]) is Ok {
            assert(windows[j].remembers(first) <==> (first == sequences[j - 1]
                || before.remembers(first)) && windows[j].highest()->0 - first < 64);
            lemma_remembered_is_behind(before, first);
        }
    }
}

/// What a window remembers is not above its highest number.
proof fn lemma_remembered_is_behind(window: ReplayWindow, sequence: u64)
    ensures
        window.remembers(sequence) ==> window.highest() is Some && sequence
            <= window.highest()->0,
{
}

/// No sequence number is accepted twice, in whatever order numbers arrive.
pub proof fn law_each_sequence_is_accepted_at_most_once(
    windows: Seq<ReplayWindow>,
    sequences: Seq<u64>,
    i: int,
    j: int,
)
    requires
        window_run(windows, sequences),
        0 <= i < j < sequences.len(),
        sequences[i] == sequences[j],
        windows[i].verdict(sequences[i]) is Ok,
    ensures
        windows[j].verdict(sequences[j]) is Err,
{
    lemma_accepted_stays_refused(windows, sequences, i, j);
}

/// A number that lies within 64 of every number offered before it, and that was
/// not offered before, is accepted however late it comes.
pub proof fn law_reordering_within_the_window_is_accepted(
    windows: Seq<ReplayWindow>,
    sequences: Seq<u64>,
    late: u64,
)
    requires
        window_run(windows, sequences),
        windows[0].highest() is None,
        forall|i: int|
            0 <= i < sequences.len() ==> (#[trigger] sequences[i]) != late && sequences[i] - late
                < 64,
    ensures
        windows.last().verdict(late) is Ok,
    decreases sequences.len(),
{
    let n = sequences.len() as int;
    if n == 0 {
        lemma_remembered_is_behind(windows[0], late);
    } else {
        let earlier = windows.drop_last();
        assert forall|i: int| 0 <= i < n - 1 implies (#[trigger] earlier[i]).step(
            sequences.drop_last()[i],
            earlier[i + 1],
        ) by {
            assert(windows[i].step(sequences[i], windows[i + 1]));
        }
        law_reordering_within_the_window_is_accepted(earlier, sequences.drop_last(), late);
        let before = windows[n - 1];
        assert(earlier.last() == before);
        assert(before.step(sequences[n - 1], windows[n - 1 + 1]));
        if before.verdict(sequences[n - 1]) is Ok {
            assert(windows[n].remembers(late) ==> before.remembers(late));
        }
    }
}

/// A number is refused as too old where it lies 64 or more behind the highest, else as
/// a duplicate where the window remembers it, and is accepted in every other case.
/// Accepting it raises the highest to it and leaves no number that was remembered and
/// is not too old forgotten.
pub proof fn law_the_window_spans_sixty_four(
    window: ReplayWindow,
    sequence: u64,
    next: ReplayWindow,
    other: u64,
)
    requires
        window.step(sequence, next),
    ensures
        window.verdict(sequence) == Err::<(), ReplayError>(ReplayError::TooOld) <==> (
        window.highest() matches Some(highest) && highest >= sequence + 64),
        window.verdict(sequence) == Err::<(), ReplayError>(ReplayError::Duplicate) <==> !(
        window.highest() matches Some(highest) && highest >= sequence + 64) && window.remembers(
            sequence,
        ),
        window.verdict(sequence) is Err ==> next == window,
        window.verdict(sequence) is Ok ==> {
            &&& next.highest() is Some
            &&& next.highest()->0 >= sequence
            &&& window.highest() matches Some(highest) ==> next.highest()->0 >= highest
            &&& next.highest()->0 == sequence || Some(next.highest()->0) == window.highest()
            &&& next.remembers(sequence)
            &&& window.remembers(other) && next.highest()->0 < other + 64 ==> next.remembers(other)
            &&& next.remembers(other) && other != sequence ==> window.remembers(other)
        },
{
    if window.verdict(sequence) is Ok {
        assert(next.remembers(sequence) <==> next.highest()->0 - sequence < 64);
        assert(next.remembers(other) <==> (other == sequence || window.remembers(other))
            && next.highest()->0 - other < 64);
    }
}

} // verus!

//! The control policy of the iterative solver.
//!
//! Vincenty's inverse formula refines the longitude difference on the
//! auxiliary sphere until two successive values agree. The arithmetic of one
//! pass belongs to the caller. What the pass found, and how many passes have
//! run, decide what happens next; that decision is made here.
use vstd::prelude::*;

verus! {

/// The largest number of passes a solve may run.
pub const MAX_ITERATIONS: u32 = 200;

/// What one pass of the iteration found.
#[derive(Clone, Copy, Debug, PartialEq, Eq, Structural)]
pub enum Observation {
    /// The sine of the angular separation is exactly zero: the two points
    /// coincide, or lie opposite each other on one meridian.
    Coincident,
    /// The new longitude difference is within the threshold of the last one.
    Converged,
    /// The longitude difference still moved by the threshold or more.
    Moved,
}

/// How a solve ends.
#[derive(Clone, Copy, Debug, PartialEq, Eq, Structural)]
pub enum Outcome {
    /// The distance is zero, with no further evaluation.
    Zero,
    /// The distance is the closed-form correction applied to the values of
    /// the pass that converged.
    Evaluate,
    /// The passes ran out before two successive values agreed.
    NoConvergence,
}

/// What the caller does after a pass.
#[derive(Clone, Copy, Debug, PartialEq, Eq, Structural)]
pub enum Step {
    /// Run another pass; the payload is its index.
    Continue(u32),
    /// Stop with this outcome.
    Finish(Outcome),
}

/// The decision after the pass with index `pass` (counted from zero) has
/// reported `seen`.
pub open spec fn decide(pass: nat, seen: Observation) -> Step {
    match seen {
        Observation::Coincident => Step::Finish(Outcome::Zero),
        Observation::Converged => Step::Finish(Outcome::Evaluate),
        Observation::Moved => if pass + 1 < MAX_ITERATIONS {
            Step::Continue((pass + 1) as u32)
        } else {
            Step::Finish(Outcome::NoConvergence)
        },
    }
}

/// The outcome of a solve whose passes, from index `pass` on, report `trace`
/// in order. `None` while the trace is too short to settle the matter.
pub open spec fn outcome_from(pass: nat, trace: Seq<Observation>) -> Option<Outcome>
    decreases trace.len(),
{
    if pass >= MAX_ITERATIONS {
        Some(Outcome::NoConvergence)
    } else if trace.len() == 0 {
        None
    } else {
        match decide(pass, trace[0]) {
            Step::Finish(outcome) => Some(outcome),
            Step::Continue(next) => outcome_from(next as nat, trace.skip(1)),
        }
    }
}

/// The outcome of a whole solve over `trace`.
pub open spec fn outcome_of(trace: Seq<Observation>) -> Option<Outcome> {
    outcome_from(0, trace)
}

/// The index of the first observation in `trace` that is not `Moved`, or the
/// length of `trace` when there is none.
pub open spec fn first_settled(trace: Seq<Observation>) -> nat
    decreases trace.len(),
{
    if trace.len() == 0 || trace[0] != Observation::Moved {
        0
    } else {
        1 + first_settled(trace.skip(1))
    }
}

/// Decides what follows the pass with index `pass`, given what it found.
///
/// A pass index at or beyond the cap is treated as the last pass.
pub fn next_step(pass: u32, seen: Observation) -> (step: Step)
    ensures
        step == decide(pass as nat, seen),
        step matches Step::Continue(next) ==> next == pass + 1 && next < MAX_ITERATIONS,
{
    match seen {
        Observation::Coincident => Step::Finish(Outcome::Zero),
        Observation::Converged => Step::Finish(Outcome::Evaluate),
        Observation::Moved => {
            if pass < MAX_ITERATIONS - 1 {
                Step::Continue(pass + 1)
            } else {
                Step::Finish(Outcome::NoConvergence)
            }
        },
    }
}

/// Replays a recorded trace of observations and reports how the solve ended,
/// or `None` if the trace stops before the solve does.
pub fn replay(trace: &[Observation]) -> (outcome: Option<Outcome>)
    ensures
        outcome == outcome_of(trace@),
{
    let mut pass: u32 = 0;
    let mut at: usize = 0;
    assert(trace@.skip(0) == trace@);
    while at < trace.len()
        invariant
            at <= trace.len(),
            pass < MAX_ITERATIONS,
            outcome_of(trace@) == outcome_from(pass as nat, trace@.skip(at as int)),
        decreases trace.len() - at,
    {
        assert(trace@.skip(at as int)[0] == trace@[at as int]);
        assert(trace@.skip(at as int).skip(1) == trace@.skip(at as int + 1));
        match next_step(pass, trace[at]) {
            Step::Finish(outcome) => {
                return Some(outcome);
            },
            Step::Continue(next) => {
                pass = next;
            },
        }
        at = at + 1;
    }
    None
}

/// A solve is settled by the first pass that did not report `Moved`, if that
/// pass comes before the cap; it fails to converge exactly when the first
/// `MAX_ITERATIONS` passes all moved; and it is undecided only while fewer
/// passes than that have been reported, all of them `Moved`.
pub proof fn lemma_outcome_of(trace: Seq<Observation>)
    ensures
        ({
            let k = first_settled(trace);
            if k < trace.len() && k < MAX_ITERATIONS {
                outcome_of(trace) == Some(
                    if trace[k as int] == Observation::Coincident {
                        Outcome::Zero
                    } else {
                        Outcome::Evaluate
                    },
                )
            } else if trace.len() >= MAX_ITERATIONS {
                outcome_of(trace) == Some(Outcome::NoConvergence)
            } else {
                outcome_of(trace) == None::<Outcome>
            }
        }),
{
    lemma_outcome_from(0, trace);
}

/// The same statement for a solve that is already at pass `pass`.
proof fn lemma_outcome_from(pass: nat, trace: Seq<Observation>)
    requires
        pass <= MAX_ITERATIONS,
    ensures
        first_settled(trace) <= trace.len(),
        ({
            let k = first_settled(trace);
            if k < trace.len() && pass + k < MAX_ITERATIONS {
                &&& trace[k as int] != Observation::Moved
                &&& outcome_from(pass, trace) == Some(
                    if trace[k as int] == Observation::Coincident {
                        Outcome::Zero
                    } else {
                        Outcome::Evaluate
                    },
                )
            } else if pass + trace.len() >= MAX_ITERATIONS {
                outcome_from(pass, trace) == Some(Outcome::NoConvergence)
            } else {
                outcome_from(pass, trace) == None::<Outcome>
            }
        }),
    decreases trace.len(),
{
    if pass < MAX_ITERATIONS && trace.len() > 0 && trace[0] == Observation::Moved {
        lemma_outcome_from(pass + 1, trace.skip(1));
        let k = first_settled(trace.skip(1));
        if k < trace.skip(1).len() {
            assert(trace.skip(1)[k as int] == trace[k as int + 1]);
        }
    } else if trace.len() > 0 && trace[0] == Observation::Moved {
        lemma_outcome_from(pass, trace.skip(1));
    }
}

/// No solve runs more than `MAX_ITERATIONS` passes: once that many
/// observations are in, the outcome is settled, and further observations do
/// not change a settled outcome.
pub proof fn lemma_bounded(trace: Seq<Observation>, more: Seq<Observation>)
    ensures
        trace.len() >= MAX_ITERATIONS ==> outcome_of(trace) is Some,
        outcome_of(trace) is Some ==> outcome_of(trace + more) == outcome_of(trace),
{
    lemma_outcome_of(trace);
    lemma_extend(0, trace, more);
}

proof fn lemma_extend(pass: nat, trace: Seq<Observation>, more: Seq<Observation>)
    ensures
        outcome_from(pass, trace) is Some ==> outcome_from(pass, trace + more) == outcome_from(
            pass,
            trace,
        ),
    decreases trace.len(),
{
    if pass < MAX_ITERATIONS && trace.len() > 0 {
        assert((trace + more)[0] == trace[0]);
        assert((trace + more).skip(1) == trace.skip(1) + more);
        lemma_extend(pass + 1, trace.skip(1), more);
    }
}

} // verus!

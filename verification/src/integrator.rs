//! The bounce budget of a light path.
//!
//! A radiance estimate follows one ray from surface to surface. Whether it
//! goes on after each step depends on two things only: how many bounces are
//! left, and what the ray met. Those decisions are made here; the colours
//! they weigh stay with the caller.

use vstd::prelude::*;

verus! {

/// What a ray met in the scene.
#[derive(Clone, Copy, Debug, PartialEq, Eq)]
pub enum Encounter {
    /// Nothing was hit.
    Miss,
    /// A surface was hit and its material scattered no ray.
    Absorbed,
    /// A surface was hit and its material scattered a ray.
    Scattered,
}

/// How a path ended, which decides what the last step contributes.
#[derive(Clone, Copy, Debug, PartialEq, Eq)]
pub enum Ending {
    /// No bounce was left: the step contributes black.
    Exhausted,
    /// The ray left the scene: the step contributes the background.
    Escaped,
    /// The ray was absorbed: the step contributes what the surface emits.
    Absorbed,
}

/// What to do next on a path.
#[derive(Clone, Copy, Debug, PartialEq, Eq)]
pub enum Step {
    /// Ask the scene what the current ray meets; this many bounces are left, at least one.
    Query(i32),
    /// Stop with this ending.
    Done(Ending),
}

/// The step that a path with `depth` bounces left starts with.
pub open spec fn spec_begin(depth: i32) -> Step {
    if depth <= 0 {
        Step::Done(Ending::Exhausted)
    } else {
        Step::Query(depth)
    }
}

/// The step that follows an encounter made with `depth` bounces left. A
/// path without a bounce left has made no encounter and stays over.
pub open spec fn spec_advance(depth: i32, met: Encounter) -> Step {
    if depth <= 0 {
        Step::Done(Ending::Exhausted)
    } else {
        match met {
            Encounter::Miss => Step::Done(Ending::Escaped),
            Encounter::Absorbed => Step::Done(Ending::Absorbed),
            Encounter::Scattered => spec_begin((depth - 1) as i32),
        }
    }
}

/// Number of scene queries that a path with `depth` bounces left makes when
/// its rays meet `met` in turn; the path stops early when `met` runs out.
pub open spec fn queries(depth: i32, met: Seq<Encounter>) -> nat
    decreases met.len(),
{
    if depth <= 0 || met.len() == 0 {
        0
    } else {
        match spec_advance(depth, met[0]) {
            Step::Query(rest) => 1 + queries(rest, met.drop_first()),
            Step::Done(_) => 1,
        }
    }
}

/// How a path with `depth` bounces left ends when its rays meet `met` in
/// turn, or nothing if `met` runs out before the path ends.
pub open spec fn ending(depth: i32, met: Seq<Encounter>) -> Option<Ending>
    decreases met.len(),
{
    if depth <= 0 {
        Some(Ending::Exhausted)
    } else if met.len() == 0 {
        None
    } else {
        match spec_advance(depth, met[0]) {
            Step::Query(rest) => ending(rest, met.drop_first()),
            Step::Done(e) => Some(e),
        }
    }
}

/// Decides whether a path may query the scene at all: with no bounce left
/// it is over before it starts.
pub fn begin(depth: i32) -> (step: Step)
    ensures
        step == spec_begin(depth),
        step matches Step::Query(d) ==> d == depth && d >= 1,
{
    if depth <= 0 {
        Step::Done(Ending::Exhausted)
    } else {
        Step::Query(depth)
    }
}

/// Decides how a path goes on after a query made with `depth` bounces
/// left: a miss and an absorption end it, a scattered ray uses up one
/// bounce and is followed while any is left.
pub fn advance(depth: i32, met: Encounter) -> (step: Step)
    ensures
        step == spec_advance(depth, met),
        step matches Step::Query(d) ==> d == depth - 1 && d >= 1,
{
    if depth <= 0 {
        return Step::Done(Ending::Exhausted);
    }
    match met {
        Encounter::Miss => Step::Done(Ending::Escaped),
        Encounter::Absorbed => Step::Done(Ending::Absorbed),
        Encounter::Scattered => begin(depth - 1),
    }
}

/// Follows a path over a recorded run of encounters and reports how many
/// scene queries it made and how it ended, if it did.
pub fn trace(depth: i32, met: &Vec<Encounter>) -> (res: (usize, Option<Ending>))
    ensures
        res.0 == queries(depth, met@),
        res.1 == ending(depth, met@),
{
    let mut step = begin(depth);
    let mut used: usize = 0;
    assert(met@.skip(0) =~= met@);
    loop
        invariant
            used <= met@.len(),
            match step {
                Step::Query(d) => d >= 1 && queries(depth, met@) == used + queries(
                    d,
                    met@.skip(used as int),
                ) && ending(depth, met@) == ending(d, met@.skip(used as int)),
                Step::Done(e) => queries(depth, met@) == used && ending(depth, met@) == Some(e),
            },
        decreases met@.len() - used,
    {
        match step {
            Step::Done(e) => {
                return (used, Some(e));
            },
            Step::Query(d) => {
                if used >= met.len() {
                    assert(met@.skip(used as int).len() == 0);
                    return (used, None);
                }
                let ghost rest = met@.skip(used as int);
                assert(rest[0] == met@[used as int]);
                assert(rest.drop_first() =~= met@.skip(used + 1));
                step = advance(d, met[used]);
                used += 1;
            },
        }
    }
}

/// A path never makes more scene queries than it has bounces.
pub proof fn lemma_queries_bounded(depth: i32, met: Seq<Encounter>)
    ensures
        queries(depth, met) <= (if depth > 0 { depth as nat } else { 0 }),
        queries(depth, met) <= met.len(),
    decreases met.len(),
{
    if depth > 0 && met.len() > 0 {
        match spec_advance(depth, met[0]) {
            Step::Query(rest) => {
                lemma_queries_bounded(rest, met.drop_first());
            },
            Step::Done(_) => {},
        }
    }
}

/// A path whose rays are scattered every time ends after exactly `depth`
/// queries, with nothing left to contribute.
pub proof fn lemma_scattering_exhausts(depth: i32, met: Seq<Encounter>)
    requires
        depth >= 0,
        met.len() >= depth,
        forall|i: int| 0 <= i < depth ==> met[i] == Encounter::Scattered,
    ensures
        queries(depth, met) == depth,
        ending(depth, met) == Some(Ending::Exhausted),
    decreases met.len(),
{
    if depth > 0 {
        let rest = met.drop_first();
        assert forall|i: int| 0 <= i < depth - 1 implies rest[i] == Encounter::Scattered by {
            assert(rest[i] == met[i + 1]);
        }
        lemma_scattering_exhausts((depth - 1) as i32, rest);
    }
}

} // verus!

use vstd::prelude::*;

use crate::rng::gen_range_u32;

verus! {

/// The two escape-time fractal families the dive can explore.
#[derive(Debug, Copy, Clone, PartialEq, Eq, Structural)]
pub enum FractalType {
    Mandelbrot,
    Julia,
}

/// Why a dive came to its end.
#[derive(Debug, Copy, Clone, PartialEq, Eq, Structural)]
pub enum StopReason {
    /// Every budgeted zoom was performed.
    BudgetExhausted,
    /// The selector found no pixel worth zooming toward.
    NoTarget,
}

/// The dive loop's state: still diving with some zooms left, or done.
#[derive(Debug, Copy, Clone, PartialEq, Eq, Structural)]
pub enum DiveState {
    Active { budget: u32 },
    Terminated { reason: StopReason },
}

/// What the renderer must do after a dive step.
#[derive(Debug, Copy, Clone, PartialEq, Eq)]
pub enum DiveAction {
    /// Re-center the camera on the target and halve the view width.
    ZoomToward { target: (u32, u32) },
    /// Stop diving and render the final image.
    Halt,
}

impl DiveState {
    pub open spec fn is_terminated(self) -> bool {
        self matches DiveState::Terminated { .. }
    }

    /// The zooms the dive may still perform.
    pub open spec fn spec_budget(self) -> nat {
        match self {
            DiveState::Active { budget } => budget as nat,
            DiveState::Terminated { .. } => 0,
        }
    }
}

/// One transition of the dive state machine, given what the selector
/// found on the current view.
pub open spec fn spec_dive_step(s: DiveState, target: Option<(u32, u32)>) -> (DiveState,
    DiveAction) {
    match s {
        DiveState::Terminated { .. } => (s, DiveAction::Halt),
        DiveState::Active { budget } => {
            if budget == 0 {
                (DiveState::Terminated { reason: StopReason::BudgetExhausted }, DiveAction::Halt)
            } else {
                match target {
                    None => (
                        DiveState::Terminated { reason: StopReason::NoTarget },
                        DiveAction::Halt,
                    ),
                    Some(t) => (
                        if budget == 1 {
                            DiveState::Terminated { reason: StopReason::BudgetExhausted }
                        } else {
                            DiveState::Active { budget: (budget - 1) as u32 }
                        },
                        DiveAction::ZoomToward { target: t },
                    ),
                }
            }
        },
    }
}

/// Advance the dive by one step: a found target is zoomed toward and
/// costs one unit of budget; a missing target, or an exhausted budget,
/// halts the dive with the matching reason.
pub fn dive_step(state: DiveState, target: Option<(u32, u32)>) -> (r: (DiveState, DiveAction))
    ensures
        r == spec_dive_step(state, target),
{
    match state {
        DiveState::Terminated { .. } => (state, DiveAction::Halt),
        DiveState::Active { budget } => {
            if budget == 0 {
                (
                    DiveState::Terminated { reason: StopReason::BudgetExhausted },
                    DiveAction::Halt,
                )
            } else {
                match target {
                    None => (
                        DiveState::Terminated { reason: StopReason::NoTarget },
                        DiveAction::Halt,
                    ),
                    Some(t) => (
                        if budget == 1 {
                            DiveState::Terminated { reason: StopReason::BudgetExhausted }
                        } else {
                            DiveState::Active { budget: budget - 1 }
                        },
                        DiveAction::ZoomToward { target: t },
                    ),
                }
            }
        },
    }
}

/// The state after feeding a whole sequence of selector results through
/// the machine.
pub open spec fn run_dive(s: DiveState, targets: Seq<Option<(u32, u32)>>) -> DiveState
    decreases targets.len(),
{
    if targets.len() == 0 {
        s
    } else {
        run_dive(spec_dive_step(s, targets[0]).0, targets.skip(1))
    }
}

/// How many zoom actions the machine emits over a sequence of selector
/// results.
pub open spec fn zooms_taken(s: DiveState, targets: Seq<Option<(u32, u32)>>) -> nat
    decreases targets.len(),
{
    if targets.len() == 0 {
        0
    } else {
        let step = spec_dive_step(s, targets[0]);
        (if step.1 matches DiveAction::ZoomToward { .. } {
            1nat
        } else {
            0nat
        }) + zooms_taken(step.0, targets.skip(1))
    }
}

/// A finished dive stays finished, whatever the selector keeps saying.
pub proof fn lemma_run_terminated(s: DiveState, targets: Seq<Option<(u32, u32)>>)
    requires
        s.is_terminated(),
    ensures
        run_dive(s, targets) == s,
    decreases targets.len(),
{
    if targets.len() > 0 {
        lemma_run_terminated(s, targets.skip(1));
    }
}

/// The dive can never zoom more often than its budget allows, and once
/// more selector results than the budget have been consumed, the dive
/// has terminated.
pub proof fn lemma_dive_bounded(s: DiveState, targets: Seq<Option<(u32, u32)>>)
    ensures
        zooms_taken(s, targets) <= s.spec_budget(),
        targets.len() >= s.spec_budget() + 1 ==> run_dive(s, targets).is_terminated(),
    decreases targets.len(),
{
    if targets.len() > 0 {
        let step = spec_dive_step(s, targets[0]);
        lemma_dive_bounded(step.0, targets.skip(1));
        if step.0.is_terminated() {
            lemma_run_terminated(step.0, targets.skip(1));
        }
    }
}

/// A finished dive zooms no more.
pub proof fn lemma_no_zooms_after_termination(s: DiveState, targets: Seq<Option<(u32, u32)>>)
    requires
        s.is_terminated(),
    ensures
        zooms_taken(s, targets) == 0,
    decreases targets.len(),
{
    if targets.len() > 0 {
        lemma_no_zooms_after_termination(s, targets.skip(1));
    }
}

/// When the selector always finds a target, the dive performs exactly
/// its budgeted number of zooms before it stops.
pub proof fn lemma_dive_spends_whole_budget(s: DiveState, targets: Seq<Option<(u32, u32)>>)
    requires
        s matches DiveState::Active { .. },
        targets.len() >= s.spec_budget(),
        forall|i: int| 0 <= i < targets.len() ==> (#[trigger] targets[i]) is Some,
    ensures
        zooms_taken(s, targets) == s.spec_budget(),
    decreases targets.len(),
{
    let b = s.spec_budget();
    if b == 0 {
        if targets.len() > 0 {
            let step = spec_dive_step(s, targets[0]);
            lemma_no_zooms_after_termination(step.0, targets.skip(1));
        }
    } else {
        let step = spec_dive_step(s, targets[0]);
        assert(targets[0] is Some);
        assert forall|i: int| 0 <= i < targets.skip(1).len() implies (#[trigger] targets.skip(
            1,
        )[i]) is Some by {
            assert(targets.skip(1)[i] == targets[i + 1]);
        }
        if step.0.is_terminated() {
            assert(b == 1);
            lemma_no_zooms_after_termination(step.0, targets.skip(1));
        } else {
            lemma_dive_spends_whole_budget(step.0, targets.skip(1));
        }
    }
}

/// Draw the dive budget for the chosen fractal family; a Mandelbrot
/// dive gets at least three zooms, a Julia dive may get none, and both
/// stay under forty.
pub fn initial_budget(rng: &mut rand::rngs::StdRng, fractal: FractalType) -> (r: u32)
    ensures
        fractal == FractalType::Mandelbrot ==> 3 <= r < 40,
        fractal == FractalType::Julia ==> r < 40,
{
    match fractal {
        FractalType::Mandelbrot => gen_range_u32(rng, 3, 40),
        FractalType::Julia => gen_range_u32(rng, 0, 40),
    }
}

/// Flip the seeded coin that picks the fractal family for a run.
pub fn random_fractal_type(rng: &mut rand::rngs::StdRng) -> (r: FractalType) {
    if gen_range_u32(rng, 0, 2) == 0 {
        FractalType::Mandelbrot
    } else {
        FractalType::Julia
    }
}

} // verus!

use fractalz::dive::{
    dive_step, initial_budget, random_fractal_type, DiveAction, DiveState, FractalType,
    StopReason,
};
use fractalz::rng::random_point;
use fractalz::time::{floor_to_hour, Timestamp};
use rand::SeedableRng;

#[test]
fn step_zooms_and_spends_budget() {
    let (next, action) = dive_step(DiveState::Active { budget: 3 }, Some((5, 6)));
    assert_eq!(next, DiveState::Active { budget: 2 });
    assert_eq!(action, DiveAction::ZoomToward { target: (5, 6) });
}

#[test]
fn step_halts_without_target() {
    let (next, action) = dive_step(DiveState::Active { budget: 3 }, None);
    assert_eq!(
        next,
        DiveState::Terminated {
            reason: StopReason::NoTarget
        }
    );
    assert_eq!(action, DiveAction::Halt);
}

#[test]
fn step_exhausts_last_budget_unit() {
    let (next, action) = dive_step(DiveState::Active { budget: 1 }, Some((2, 2)));
    assert_eq!(
        next,
        DiveState::Terminated {
            reason: StopReason::BudgetExhausted
        }
    );
    assert_eq!(action, DiveAction::ZoomToward { target: (2, 2) });
}

#[test]
fn step_halts_on_zero_budget() {
    let (next, action) = dive_step(DiveState::Active { budget: 0 }, Some((2, 2)));
    assert_eq!(
        next,
        DiveState::Terminated {
            reason: StopReason::BudgetExhausted
        }
    );
    assert_eq!(action, DiveAction::Halt);
}

#[test]
fn step_leaves_terminated_state_alone() {
    let done = DiveState::Terminated {
        reason: StopReason::NoTarget,
    };
    let (next, action) = dive_step(done, Some((1, 1)));
    assert_eq!(next, done);
    assert_eq!(action, DiveAction::Halt);
}

#[test]
fn dive_with_budget_five_zooms_five_times() {
    // the selector always finds a target: the dive must stop after
    // exactly its five budgeted zooms.
    let mut state = DiveState::Active { budget: 5 };
    let mut zooms = 0;
    for _ in 0..100 {
        let (next, action) = dive_step(state, Some((1, 1)));
        state = next;
        match action {
            DiveAction::ZoomToward { .. } => zooms += 1,
            DiveAction::Halt => break,
        }
    }
    assert_eq!(zooms, 5);
    assert_eq!(
        state,
        DiveState::Terminated {
            reason: StopReason::BudgetExhausted
        }
    );
}

#[test]
fn dive_stops_early_without_target() {
    let mut state = DiveState::Active { budget: 5 };
    let targets = [Some((1, 1)), Some((2, 2)), None, Some((3, 3))];
    let mut zooms = 0;
    for t in targets {
        let (next, action) = dive_step(state, t);
        state = next;
        if let DiveAction::ZoomToward { .. } = action {
            zooms += 1;
        }
        if let DiveState::Terminated { .. } = state {
            break;
        }
    }
    assert_eq!(zooms, 2);
    assert_eq!(
        state,
        DiveState::Terminated {
            reason: StopReason::NoTarget
        }
    );
}

#[test]
fn budgets_stay_in_their_ranges() {
    let mut rng = rand::rngs::StdRng::seed_from_u64(1234);
    for _ in 0..200 {
        let m = initial_budget(&mut rng, FractalType::Mandelbrot);
        assert!((3..40).contains(&m));
        let j = initial_budget(&mut rng, FractalType::Julia);
        assert!(j < 40);
    }
}

#[test]
fn budgets_are_seed_deterministic() {
    let mut a = rand::rngs::StdRng::seed_from_u64(77);
    let mut b = rand::rngs::StdRng::seed_from_u64(77);
    assert_eq!(
        random_fractal_type(&mut a),
        random_fractal_type(&mut b)
    );
    assert_eq!(
        initial_budget(&mut a, FractalType::Mandelbrot),
        initial_budget(&mut b, FractalType::Mandelbrot)
    );
}

#[test]
fn random_point_stays_in_bounds() {
    let mut rng = rand::rngs::StdRng::seed_from_u64(5);
    for _ in 0..100 {
        let (x, y) = random_point(&mut rng, 17, 9);
        assert!(x < 17 && y < 9);
    }
    // a one-pixel screen leaves no choice at all
    assert_eq!(random_point(&mut rng, 1, 1), (0, 0));
}

#[test]
fn floor_to_hour_zeroes_sub_hour_fields() {
    let t = Timestamp {
        year: 2018,
        month: 7,
        day: 14,
        hour: 22,
        minute: 41,
        second: 59,
        nanosecond: 123_456_789,
    };
    let f = floor_to_hour(t);
    assert_eq!(
        f,
        Timestamp {
            year: 2018,
            month: 7,
            day: 14,
            hour: 22,
            minute: 0,
            second: 0,
            nanosecond: 0,
        }
    );
}

use local_search::search::spaces::BarrierSpace;
use local_search::search::spaces::LinearSpace;
use local_search::search::spaces::QuadraticSpace;
use local_search::tabu_search;

#[test]
fn test_tabu_search_linear() {
    let state: u32 = 20;
    let max_iterations = 100;
    let stopping_cost = None;

    let best = tabu_search(state, &LinearSpace, max_iterations, stopping_cost);

    assert_eq!(best, 0);
}

#[test]
fn test_tabu_search_cross_barier() {
    let state: u8 = 0;
    let max_iterations = 100;
    let stopping_cost = None;

    let best = tabu_search(state, &BarrierSpace, max_iterations, stopping_cost);

    assert_eq!(best, 10);
}

#[test]
fn test_tabu_search_quadratic() {
    for initial_state in vec![(10i16, 10i16), (0, 0), (7, 0), (6, 5)] {
        let max_iterations = 100;
        let stopping_cost = 0;

        let best = tabu_search(
            initial_state,
            &QuadraticSpace,
            max_iterations,
            Some(stopping_cost),
        );

        assert_eq!(best, (5, 5));
    }
}

#[test]
fn test_zero_iterations_returns_initial_state() {
    let best = tabu_search(7u32, &LinearSpace, 0, None);

    assert_eq!(best, 7);
}

#[test]
fn test_iteration_budget_bounds_the_walk() {
    // Five iterations walk the linear space down by one each step, so the
    // best state found costs no more than the initial state.
    let best = tabu_search(20u32, &LinearSpace, 5, None);

    assert_eq!(best, 15);
}

#[test]
fn test_stopping_cost_returns_first_match() {
    // From state 5 the neighbors are 4, 5, 6 with costs -1, -2, -3; state 5
    // itself is tabu, and 6 is the first neighbor strictly below -2.
    let best = tabu_search(5u8, &BarrierSpace, 100, Some(-2));

    assert_eq!(best, 6);
}

#[test]
fn test_stalled_walk_returns_initial_state() {
    // State 12 lies outside the barrier space's range, so it has no
    // neighbors at all and the walk stalls on the initial state.
    let best = tabu_search(12u8, &BarrierSpace, 100, None);

    assert_eq!(best, 12);
}

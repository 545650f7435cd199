use std::collections::HashSet;

use cellular_automata::simulation::{cell_set, next_generation, on_world, stamp_cells, WORLD_MAX, WORLD_MIN};
use cellular_automata::rules::RuleSet;

fn life() -> RuleSet {
    RuleSet::from_counts(&[3], &[2, 3])
}

fn as_set(v: &[(i64, i64)]) -> HashSet<(i64, i64)> {
    v.iter().copied().collect()
}

#[test]
fn blinker_turns_each_generation() {
    let live = cell_set(vec![(0, 0), (1, 0), (2, 0)]);
    let next = next_generation(&live, &life());
    assert_eq!(next, vec![(1, -1), (1, 0), (1, 1)]);
    assert_eq!(next_generation(&next, &life()), live);
}

#[test]
fn births_stop_at_the_world_edge() {
    let live = cell_set(vec![(WORLD_MAX, 0), (WORLD_MAX, 1), (WORLD_MAX, 2)]);
    let next = next_generation(&live, &life());
    assert_eq!(as_set(&next), as_set(&[(WORLD_MAX - 1, 1), (WORLD_MAX, 1)]));
    let low = cell_set(vec![(0, WORLD_MIN), (1, WORLD_MIN), (2, WORLD_MIN)]);
    assert_eq!(as_set(&next_generation(&low, &life())), as_set(&[(1, WORLD_MIN), (1, WORLD_MIN + 1)]));
}

#[test]
fn a_lone_cell_survives_only_when_zero_is_a_survival_count() {
    let lone = cell_set(vec![(5, 5)]);
    assert!(next_generation(&lone, &life()).is_empty());
    let flakes = RuleSet::from_counts(&[3], &[0, 1, 2, 3, 4, 5, 6, 7, 8]);
    assert_eq!(next_generation(&lone, &flakes), vec![(5, 5)]);
}

#[test]
fn cell_set_sorts_and_merges() {
    assert_eq!(cell_set(vec![(2, 1), (0, 5), (2, 1), (0, -3)]), vec![(0, -3), (0, 5), (2, 1)]);
}

#[test]
fn stamps_stop_at_the_world_edge() {
    let glider = [(1, 0), (2, 1), (0, 2), (1, 2), (2, 2)];
    assert_eq!(stamp_cells(&glider, (2, 2)), vec![(3, 2), (4, 3), (2, 4), (3, 4), (4, 4)]);
    assert_eq!(stamp_cells(&glider, (WORLD_MAX - 1, WORLD_MIN)), vec![(WORLD_MAX, WORLD_MIN), (WORLD_MAX - 1, WORLD_MIN + 2), (WORLD_MAX, WORLD_MIN + 2)]);
    assert!(stamp_cells(&glider, (i64::MAX, i64::MIN)).is_empty());
    assert!(on_world((WORLD_MIN, WORLD_MAX)));
    assert!(!on_world((WORLD_MAX + 1, 0)));
}

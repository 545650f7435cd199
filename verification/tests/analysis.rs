use cellular_automata::analysis::{classify, Behavior};
use cellular_automata::rle;
use cellular_automata::rules::RuleSet;

fn life() -> RuleSet {
    RuleSet::from_counts(&[3], &[2, 3])
}

fn classify_rle(text: &str) -> Behavior {
    classify(&rle::cells(text), &life(), 100)
}

#[test]
fn conway_basics() {
    assert_eq!(classify_rle("2o$2o!"), Behavior::StillLife);
    assert_eq!(classify_rle("3o!"), Behavior::Oscillator { period: 2 });
    assert_eq!(classify_rle("bo$2bo$3o!"), Behavior::Spaceship { period: 4, dx: 1, dy: 1 });
    assert_eq!(classify_rle("o!"), Behavior::Dies);
    assert_eq!(classify_rle("b2o$2o$bo!"), Behavior::Unsettled); // R-pentomino runs > 100 gens
}

#[test]
fn an_empty_start_dies_at_once_and_a_zero_bound_sees_one_generation() {
    assert_eq!(classify(&[], &life(), 0), Behavior::Dies);
    assert_eq!(classify(&rle::cells("2o$2o!"), &life(), 0), Behavior::Unsettled);
    assert_eq!(classify(&rle::cells("2o$2o!"), &life(), 1), Behavior::StillLife);
}

#[test]
fn repeated_start_cells_count_once() {
    assert_eq!(classify(&[(0, 0), (0, 0), (1, 0), (0, 1), (1, 1)], &life(), 10), Behavior::StillLife);
}

#[test]
fn lightweight_spaceship_moves_two_cells_every_four_generations() {
    let b = classify(&rle::cells("bo2bo$o4b$o3bo$4o!"), &life(), 20);
    assert!(matches!(b, Behavior::Spaceship { period: 4, dx, dy: 0 } if dx.abs() == 2), "{b:?}");
}

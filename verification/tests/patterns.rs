use std::collections::HashSet;

use cellular_automata::analysis::{classify, Behavior};
use cellular_automata::patterns::{
    collection_name, collections, library_for, transform_cells, Category,
};
use cellular_automata::rle;
use cellular_automata::rules::RuleSet;
use cellular_automata::simulation::{cell_set, next_generation};

type CellSet = HashSet<(i64, i64)>;

#[test]
fn selected_pattern_transform_flips_and_rotates_cells_consistently() {
    let cells = [(0, 0), (1, 0), (0, 1)];
    let transformed = transform_cells(&cells, 1, true);
    assert_eq!(transformed, vec![(0, 0), (0, -1), (-1, 0)]);
}

#[test]
fn rotating_four_quarter_turns_changes_nothing() {
    let cells = [(3, -1), (0, 7), (-2, 2)];
    assert_eq!(transform_cells(&cells, 4, false), cells.to_vec());
    assert_eq!(transform_cells(&cells, 2, false), vec![(-3, 1), (0, -7), (2, -2)]);
    assert_eq!(transform_cells(&cells, 3, false), vec![(1, 3), (-7, 0), (-2, -2)]);
    assert_eq!(transform_cells(&cells, 0, true), vec![(-3, -1), (0, 7), (2, 2)]);
    let mut turned = cells.to_vec();
    for _ in 0..4 {
        turned = transform_cells(&turned, 1, false);
    }
    assert_eq!(turned, cells.to_vec());
    assert_eq!(transform_cells(&transform_cells(&cells, 0, true), 0, true), cells.to_vec());
    assert_eq!(transform_cells(&cells, 7, true), transform_cells(&cells, 3, true));
}

/// Every pattern's cell count checked against its well-known population.
#[test]
fn known_population_counts() {
    let expected: &[(&str, usize)] = &[
        ("Block", 4),
        ("Beehive", 6),
        ("Loaf", 7),
        ("Boat", 5),
        ("Tub", 4),
        ("Ship", 6),
        ("Pond", 8),
        ("Barge", 6),
        ("Long Boat", 7),
        ("Blinker", 3),
        ("Toad", 6),
        ("Beacon", 8),
        ("Clock", 6),
        ("Pulsar", 48),
        ("Pentadecathlon", 12),
        ("Queen Bee Shuttle", 20),
        ("Figure Eight", 12),
        ("Kok's Galaxy", 28),
        ("Glider", 5),
        ("Lightweight Spaceship", 9),
        ("Middleweight Spaceship", 11),
        ("Heavyweight Spaceship", 13),
        ("Loafer", 20),
        ("Copperhead", 28),
        ("Gosper Glider Gun", 36),
        ("Simkin Glider Gun", 36),
        ("R-pentomino", 5),
        ("Diehard", 7),
        ("Acorn", 7),
        ("B-heptomino", 7),
        ("Pi-heptomino", 7),
        ("Rabbits", 9),
    ];

    let lib = library_for(&RuleSet::from_bs_string("B3/S23").unwrap());
    assert_eq!(
        lib.len(),
        expected.len(),
        "DEFS and the expected-population table drifted apart"
    );
    for &(name, count) in expected {
        let pattern = lib
            .iter()
            .find(|p| p.name == name)
            .unwrap_or_else(|| panic!("missing pattern {name}"));
        assert_eq!(pattern.cells.len(), count, "{name} population mismatch");
    }
}

/// Each entry is simulated under its own collection's rule and must really
/// be what its category claims.
#[test]
fn every_collection_pattern_behaves_as_its_category_claims() {
    for collection in collections() {
        let rule = RuleSet::from_bs_string(collection.rule).unwrap();
        for pattern in library_for(&rule) {
            let (bound, ok): (u32, fn(&Behavior) -> bool) = match pattern.category {
                Category::StillLife => (200, |b| *b == Behavior::StillLife),
                Category::Oscillator => (200, |b| matches!(b, Behavior::Oscillator { .. })),
                Category::Spaceship => (200, |b| matches!(b, Behavior::Spaceship { .. })),
                // Long-running: must still be changing after 100 generations.
                Category::Gun | Category::Methuselah | Category::Replicator => {
                    (100, |b| *b == Behavior::Unsettled)
                }
                Category::Imported => panic!("built-in collections have no imported patterns"),
            };
            let behavior = classify(&pattern.cells, &rule, bound);
            assert!(
                ok(&behavior),
                "{} / {}: {behavior:?} is not {:?}",
                collection.name,
                pattern.name,
                pattern.category
            );
        }
    }
}

fn to_live(cells: &[(i32, i32)]) -> Vec<(i64, i64)> {
    cell_set(cells.iter().map(|&(x, y)| (x as i64, y as i64)).collect())
}

#[test]
fn guns_keep_growing() {
    for collection in collections() {
        let rule = RuleSet::from_bs_string(collection.rule).unwrap();
        for pattern in library_for(&rule).iter().filter(|p| p.category == Category::Gun) {
            let mut live = to_live(&pattern.cells);
            let mut populations = Vec::new();
            for generation in 1..=240 {
                live = next_generation(&live, &rule);
                if generation == 120 || generation == 240 {
                    populations.push(live.len());
                }
            }
            let (early, late) = (populations[0], populations[1]);
            assert!(late > early, "{} / {} stopped emitting", collection.name, pattern.name);
        }
    }
}

#[test]
fn collections_are_keyed_by_a_valid_unique_rule_and_a_rule_without_one_is_empty() {
    let mut seen = HashSet::new();
    for c in collections() {
        let rule = RuleSet::from_bs_string(c.rule).unwrap_or_else(|e| panic!("{}: {e}", c.name));
        assert!(seen.insert(rule.to_bs_string()), "duplicate rule {}", c.rule);
        assert!(!c.defs.is_empty(), "{} has no patterns", c.name);
        assert_eq!(collection_name(&rule), Some(c.name));
    }
    assert!(library_for(&RuleSet::from_bs_string("B345/S5").unwrap()).is_empty());
}

/// The one HighLife pattern with no Conway analogue: after 12 generations it
/// is two whole copies of itself (each a rotation/reflection of the
/// original), while the same cells under Conway never do that.
#[test]
fn highlife_replicator_becomes_two_copies_after_12_generations() {
    type Shape = Vec<(i64, i64)>;
    fn shape_up_to_symmetry(cells: &[(i64, i64)]) -> Shape {
        (0..8)
            .map(|t| {
                let mut v: Shape = cells
                    .iter()
                    .map(|&(x, y)| {
                        let (x, y) = if t & 4 != 0 { (y, x) } else { (x, y) };
                        (if t & 1 != 0 { -x } else { x }, if t & 2 != 0 { -y } else { y })
                    })
                    .collect();
                let (mx, my) = (
                    v.iter().map(|c| c.0).min().unwrap(),
                    v.iter().map(|c| c.1).min().unwrap(),
                );
                v.iter_mut().for_each(|c| *c = (c.0 - mx, c.1 - my));
                v.sort();
                v
            })
            .min()
            .unwrap()
    }
    /// 8-connected components of `live`.
    fn components(live: &CellSet) -> Vec<Shape> {
        let mut left = live.clone();
        let mut out = Vec::new();
        while let Some(&start) = left.iter().next() {
            let (mut stack, mut part) = (vec![start], Vec::new());
            left.remove(&start);
            while let Some((x, y)) = stack.pop() {
                part.push((x, y));
                for (dx, dy) in [(-1, -1), (0, -1), (1, -1), (-1, 0), (1, 0), (-1, 1), (0, 1), (1, 1)] {
                    if left.remove(&(x + dx, y + dy)) {
                        stack.push((x + dx, y + dy));
                    }
                }
            }
            out.push(part);
        }
        out
    }
    let original: Shape = rle::cells("2b3o$bo2bo$o3bo$o2bo$3o!")
        .iter()
        .map(|&(x, y)| (x as i64, y as i64))
        .collect();
    let step = |rule: &str, generations: u32| {
        let rule = RuleSet::from_bs_string(rule).unwrap();
        let mut live = cell_set(original.clone());
        for _ in 0..generations {
            live = next_generation(&live, &rule);
        }
        live.into_iter().collect::<CellSet>()
    };

    let copies = components(&step("B36/S23", 12));
    assert_eq!(copies.len(), 2);
    assert!(copies.iter().all(|c| shape_up_to_symmetry(c) == shape_up_to_symmetry(&original)));
    let conway = components(&step("B3/S23", 12));
    assert!(
        conway.len() != 2
            || conway.iter().any(|c| shape_up_to_symmetry(c) != shape_up_to_symmetry(&original))
    );
}

#[test]
fn library_follows_the_rule_and_category_labels() {
    assert_eq!(library_for(&RuleSet::from_bs_string("B2/S").unwrap()).len(), 4);
    assert_eq!(collection_name(&RuleSet::from_bs_string("B3678/S34678").unwrap()), Some("Day & Night"));
    assert_eq!(collection_name(&RuleSet::from_bs_string("B3/S12").unwrap()), None);
    assert_eq!(Category::StillLife.label(), "Still Lifes");
    assert_eq!(Category::Imported.label(), "Imported (clipboard)");
    assert_eq!(Category::all().len(), 7);
}

#[test]
fn every_built_in_pattern_has_live_cells_and_is_not_imported() {
    for c in collections() {
        let rule = RuleSet::from_bs_string(c.rule).unwrap();
        let lib = library_for(&rule);
        assert_eq!(lib.len(), c.defs.len());
        for p in &lib {
            assert!(!p.cells.is_empty(), "{} in {} has no cells", p.name, c.name);
            assert!(p.category != Category::Imported);
        }
    }
}

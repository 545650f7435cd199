use cellular_automata::patterns::library_for;
use cellular_automata::rules::RuleSet;
use cellular_automata::starts::{
    bounding_center, find_pattern, is_available, lattice, scatter_offsets, scattered_pattern,
    start_configs,
};

fn life() -> RuleSet {
    RuleSet::from_counts(&[3], &[2, 3])
}

#[test]
fn every_start_is_a_scatter_or_the_soup() {
    assert_eq!(
        start_configs(),
        vec!["Random soup", "Glider field", "Gosper gun field", "Pulsar field"]
    );
    assert_eq!(scattered_pattern("Glider field"), Some(("Glider", 24)));
    assert_eq!(scattered_pattern("Gosper gun field"), Some(("Gosper Glider Gun", 60)));
    assert_eq!(scattered_pattern("Pulsar field"), Some(("Pulsar", 24)));
    assert_eq!(scattered_pattern("Random soup"), None);
    assert_eq!(scattered_pattern("not a real start config"), None);
}

#[test]
fn pattern_starts_need_their_pattern_in_the_active_collection() {
    let conway = library_for(&life());
    let seeds = library_for(&RuleSet::from_bs_string("B2/S").unwrap());
    for name in ["Random soup", "Glider field", "Gosper gun field", "Pulsar field"] {
        assert!(is_available(name, &conway), "{name}");
    }
    assert!(is_available("Random soup", &seeds));
    assert!(!is_available("Glider field", &seeds));
    assert!(!is_available("not a real start config", &conway));
    assert!(find_pattern(&conway, "Pulsar").is_some());
    assert_eq!(find_pattern(&seeds, "Pulsar"), None);
}

#[test]
fn bounding_center_rounds_toward_zero() {
    assert_eq!(bounding_center(&[(0, 0), (2, 2), (1, 0)]), (1, 1));
    assert_eq!(bounding_center(&[(-3, 0), (0, -1)]), (-1, 0));
    assert_eq!(bounding_center(&[]), (0, 0));
}

#[test]
fn the_lattice_covers_the_whole_world_column_by_column() {
    let pts = lattice(24);
    assert_eq!(pts.len(), 171 * 171);
    assert_eq!(pts[0], (-2048, -2048));
    assert_eq!(pts[1], (-2048, -2024));
    assert_eq!(pts[171], (-2024, -2048));
    assert_eq!(*pts.last().unwrap(), (2032, 2032));
    assert!(pts.iter().any(|&(x, _)| x.abs() > 1024));
    assert_eq!(lattice(60).len(), 69 * 69);
}

#[test]
fn no_picks_place_no_copy() {
    let glider = [(1, 0), (2, 1), (0, 2), (1, 2), (2, 2)];
    let picks = vec![false; lattice(24).len()];
    assert!(scatter_offsets(&glider, 24, &picks).is_empty());
}

#[test]
fn all_picks_fill_every_lattice_slot() {
    let glider = [(1, 0), (2, 1), (0, 2), (1, 2), (2, 2)];
    let pts = lattice(24);
    let picks = vec![true; pts.len()];
    let offsets = scatter_offsets(&glider, 24, &picks);
    assert_eq!(offsets.len(), pts.len());
    for (o, p) in offsets.iter().zip(pts.iter()) {
        assert_eq!((o.0 + 1, o.1 + 1), *p);
    }
}

#[test]
fn picks_choose_which_slots_get_a_copy() {
    let block = [(0, 0), (1, 0), (0, 1), (1, 1)];
    let mut picks = vec![false; lattice(60).len()];
    picks[0] = true;
    picks[9] = true;
    assert_eq!(scatter_offsets(&block, 60, &picks), vec![(-2048, -2048), (-2048, -1508)]);
}

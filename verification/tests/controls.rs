use cellular_automata::controls::{add_imported, paste_rle, random_fill_span, RANDOM_MAX_SPAN};
use cellular_automata::patterns::{library_for, Category, Pattern};
use cellular_automata::rules::{preset_label, Class, RuleSet};

fn life() -> RuleSet {
    RuleSet::from_counts(&[3], &[2, 3])
}

#[test]
fn random_fill_is_capped_around_the_middle() {
    assert_eq!(random_fill_span(-10, 10), (-10, 10));
    assert_eq!(random_fill_span(-2048, 2047), (-512, 512));
    assert_eq!(random_fill_span(0, 5000), (1988, 3012));
    assert_eq!(random_fill_span(-5001, 0), (-3012, -1988));
    let (lo, hi) = random_fill_span(-100_000, 100_000);
    assert_eq!(hi - lo, RANDOM_MAX_SPAN);
}

#[test]
fn pasting_a_glider_keeps_the_active_rule() {
    let p = paste_rle("x = 3, y = 3, rule = B3/S23\nbo$2bo$3o!", "Glider", life()).ok().unwrap();
    assert!(p.switch_to.is_none());
    assert_eq!(p.pattern.name, "Glider");
    assert_eq!(p.pattern.category, Category::Imported);
    assert_eq!(p.pattern.cells, vec![(1, 0), (2, 1), (0, 2), (1, 2), (2, 2)]);
    assert_eq!(p.status, "Loaded 5 cells under B3/S23 - click canvas to place");
}

#[test]
fn pasting_under_another_rule_switches_to_it() {
    let p = paste_rle("x = 2, y = 1, rule = B36/S23\n2o!", "Pair", life()).ok().unwrap();
    assert_eq!(p.switch_to, Some(RuleSet::from_counts(&[3, 6], &[2, 3])));
    assert_eq!(p.status, "Loaded 2 cells under B36/S23 - click canvas to place");
    let q = paste_rle("3o!", "Blinker", RuleSet::from_counts(&[3, 6], &[2, 3])).ok().unwrap();
    assert!(q.switch_to.is_none());
    assert_eq!(q.status, "Loaded 3 cells under B36/S23 - click canvas to place");
}

#[test]
fn failed_imports_say_why() {
    assert_eq!(paste_rle("bbb!", "Empty", life()).err().unwrap(), "Import failed: no live cells");
    assert_eq!(
        paste_rle("2o\n3z!", "Bad", life()).err().unwrap(),
        "Import failed: line 2: unexpected character 'z'"
    );
    assert_eq!(paste_rle("3o", "Open", life()).err().unwrap(), "Import failed: missing terminating '!'");
}

#[test]
fn the_library_holds_one_import_at_a_time() {
    let mut library = library_for(&life());
    let built_in = library.len();
    let first = Pattern { name: "A".to_string(), category: Category::Imported, cells: vec![(0, 0)] };
    let k = add_imported(&mut library, first);
    assert_eq!((k, library.len()), (built_in, built_in + 1));
    let second = Pattern { name: "B".to_string(), category: Category::Imported, cells: vec![(0, 0), (1, 0)] };
    let k = add_imported(&mut library, second);
    assert_eq!((k, library.len()), (built_in, built_in + 1));
    assert_eq!(library[k].name, "B");
    assert_eq!(library.iter().filter(|p| p.category == Category::Imported).count(), 1);
    assert_eq!(library[0].name, "Block");
}

#[test]
fn rules_are_labelled_by_their_first_preset_or_as_custom() {
    assert_eq!(preset_label(&life()), ("Conway's Life", Some(Class::Stable)));
    assert_eq!(preset_label(&RuleSet::from_counts(&[2], &[])), ("Seeds", Some(Class::Explosive)));
    assert_eq!(preset_label(&RuleSet::from_counts(&[3, 4, 5], &[5])), ("Long Life", Some(Class::Stable)));
    assert_eq!(preset_label(&RuleSet::from_counts(&[3, 4, 5], &[2])), ("Custom", None));
}

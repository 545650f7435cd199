use std::collections::HashSet;

use cellular_automata::rle::{cells, parse, to_rle};
use cellular_automata::rules::RuleSet;

fn life() -> RuleSet {
    RuleSet::from_counts(&[3], &[2, 3])
}

fn normalized(cells: impl IntoIterator<Item = (i64, i64)>) -> HashSet<(i64, i64)> {
    let cells: Vec<_> = cells.into_iter().collect();
    let (mx, my) = (
        cells.iter().map(|c| c.0).min().unwrap(),
        cells.iter().map(|c| c.1).min().unwrap(),
    );
    cells.into_iter().map(|(x, y)| (x - mx, y - my)).collect()
}

#[test]
fn parses_a_golly_file_with_header_and_comments() {
    let rle = parse("#N Glider\n#C comment\nx = 3, y = 3, rule = B3/S23\nbo$2bo$3o!\n").unwrap();
    assert_eq!(rle.cells.len(), 5);
    assert_eq!(rle.rule, Some(life()));
}

#[test]
fn header_is_optional() {
    let rle = parse("2o$2o!").unwrap();
    assert_eq!((rle.cells.len(), rle.rule), (4, None));
}

#[test]
fn accepts_legacy_rule_spelling_in_the_header() {
    assert_eq!(
        parse("x = 1, y = 1, rule = 23/36\no!").unwrap().rule.unwrap().to_bs_string(),
        "B36/S23"
    );
}

#[test]
fn stops_at_the_terminator() {
    assert_eq!(parse("3o!\n2o!").unwrap().cells.len(), 3);
    assert_eq!(parse("3o!garbage").unwrap().cells.len(), 3);
}

#[test]
fn rejects_malformed_input_with_a_line_number() {
    for (text, needle) in [
        ("zq3o!", "unexpected character 'z'"),
        ("3o", "missing terminating"),
        ("", "missing terminating"),
        ("99999999999o!", "run count too large"),
        ("1000000o1000000$1000000o!", "too large"),
        ("x = 1, y = 1, rule = B0/S\no!", "B0"),
        ("x = 1, y = 1, rule = B3/S23:T5,5\no!", "bounded-grid"),
    ] {
        let err = parse(text).err().unwrap_or_else(|| panic!("{text:?} should fail"));
        assert!(err.contains(needle), "{text:?} -> {err}");
    }
    assert!(parse("2o\n3z!").unwrap_err().starts_with("line 2:"));
}

#[test]
fn writes_the_documented_golly_form() {
    let r_pentomino = cells("b2o$2o$bo!").iter().map(|&(x, y)| (x as i64, y as i64)).collect::<Vec<_>>();
    assert_eq!(to_rle(r_pentomino, life()), "x = 3, y = 3, rule = B3/S23\nb2o$2o$bo!\n");
    assert_eq!(to_rle(Vec::new(), life()), "x = 0, y = 0, rule = B3/S23\n!\n");
}

#[test]
fn export_wraps_at_70_columns_and_round_trips() {
    let cells: Vec<(i64, i64)> = (0..60).flat_map(|i| [(i * 2, i), (i * 2 + 5, i)]).collect();
    let text = to_rle(cells.clone(), life());
    assert!(text.lines().all(|l| l.len() <= 70), "{text}");
    let back = parse(&text).unwrap();
    assert_eq!(back.rule, Some(life()));
    assert_eq!(
        normalized(back.cells.iter().map(|&(x, y)| (x as i64, y as i64))),
        normalized(cells)
    );
}

#[test]
fn reads_cells_in_row_order_with_run_counts() {
    let rle = parse("x = 5, y = 2\n2b3o$o!").unwrap();
    assert_eq!(rle.cells, vec![(2, 0), (3, 0), (4, 0), (0, 1)]);
    assert_eq!(rle.rule, None);
}

#[test]
fn counts_carry_across_lines_and_spaces_are_skipped() {
    let rle = parse("3\no 2$\n o!").unwrap();
    assert_eq!(rle.cells, vec![(0, 0), (1, 0), (2, 0), (0, 2)]);
}

#[test]
fn a_second_x_line_is_body_text() {
    let err = parse("o\nx = 1\n!").unwrap_err();
    assert_eq!(err, "line 2: unexpected character 'x'");
}

#[test]
fn header_errors_carry_the_line_number() {
    assert_eq!(
        parse("#C c\nx = 1, rule = B3/S23/1\no!").unwrap_err(),
        "line 2: expected two parts separated by '/', got \"b3/s23/1\""
    );
    assert_eq!(parse("").unwrap_err(), "missing terminating '!'");
}

#[test]
fn large_runs_and_gaps_are_bounded() {
    assert_eq!(parse("1048576b$o!").unwrap().cells, vec![(0, 1)]);
    assert_eq!(parse("1048577b!").unwrap_err(), "line 1: run count too large");
    assert_eq!(parse("1048576bo!").unwrap_err(), "line 1: pattern too large");
}

#[test]
fn export_writes_a_repeated_cell_again_and_shifts_to_the_origin() {
    let text = to_rle(vec![(10, -5), (11, -5), (10, -5), (12, -3)], life());
    assert_eq!(text, "x = 3, y = 3, rule = B3/S23\no2o2$2bo!\n");
    let text = to_rle(vec![(10, -5), (11, -5), (12, -3)], life());
    assert_eq!(text, "x = 3, y = 3, rule = B3/S23\n2o2$2bo!\n");
}

#[test]
fn moved_or_reordered_cells_give_the_same_text() {
    let glider = vec![(1, 0), (2, 1), (0, 2), (1, 2), (2, 2)];
    let moved: Vec<(i64, i64)> = glider.iter().rev().map(|&(x, y)| (x - 700, y + 33)).collect();
    assert_eq!(to_rle(glider.clone(), life()), to_rle(moved, life()));
    assert_eq!(to_rle(glider, life()), "x = 3, y = 3, rule = B3/S23\nbo$2bo$3o!\n");
}

#[test]
fn builtin_text_gives_its_cells_in_reading_order() {
    assert_eq!(cells("b2o$2o$bo!"), vec![(1, 0), (2, 0), (0, 1), (1, 1), (1, 2)]);
    assert_eq!(cells("2o!").len(), 2);
}

#[test]
fn nothing_after_the_terminator_is_read() {
    let base = "#C a comment\nx = 2, y = 2, rule = B36/S23\n2o$o!";
    let expected = parse(base).unwrap();
    for tail in ["", "garbage", "  \n3o!", "\nx = 1, y = 1, rule = B0/S\n", "$$$zz!"] {
        let text = format!("{base}{tail}");
        let back = parse(&text).unwrap();
        assert_eq!(back.cells, expected.cells, "{text:?}");
        assert_eq!(back.rule, expected.rule, "{text:?}");
    }
}

#[test]
fn any_rule_and_any_placement_round_trip() {
    let highlife = RuleSet::from_counts(&[3, 6], &[2, 3]);
    let cells: Vec<(i64, i64)> = vec![(-7, -3), (-6, -3), (-5, -3), (-9, 4), (100, 2)];
    let text = to_rle(cells.clone(), highlife);
    let back = parse(&text).unwrap();
    assert_eq!(back.rule, Some(highlife));
    assert_eq!(back.cells.len(), 5);
    assert_eq!(normalized(back.cells.iter().map(|&(x, y)| (x as i64, y as i64))), normalized(cells));
}

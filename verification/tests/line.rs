use cellular_automata::line::line_cells;

fn touching(p: (i64, i64), q: (i64, i64)) -> bool {
    p != q && (p.0 - q.0).abs() <= 1 && (p.1 - q.1).abs() <= 1
}

#[test]
fn a_single_cell_is_its_own_line() {
    assert_eq!(line_cells((3, -4), (3, -4)), vec![(3, -4)]);
}

#[test]
fn straight_and_diagonal_lines() {
    assert_eq!(line_cells((0, 0), (3, 0)), vec![(0, 0), (1, 0), (2, 0), (3, 0)]);
    assert_eq!(line_cells((0, 0), (0, -2)), vec![(0, 0), (0, -1), (0, -2)]);
    assert_eq!(line_cells((2, 2), (0, 0)), vec![(2, 2), (1, 1), (0, 0)]);
}

#[test]
fn shallow_line_steps_like_bresenham() {
    assert_eq!(line_cells((0, 0), (4, 2)), vec![(0, 0), (1, 1), (2, 1), (3, 2), (4, 2)]);
    assert_eq!(line_cells((0, 0), (2, 5)), vec![(0, 0), (0, 1), (1, 2), (1, 3), (2, 4), (2, 5)]);
}

#[test]
fn fast_drags_leave_no_gap() {
    for (a, b) in [((0, 0), (17, -5)), ((-30, 12), (4, 40)), ((100, 100), (-100, 99)), ((5, 5), (5, -60))] {
        let cells = line_cells(a, b);
        assert_eq!(cells[0], a);
        assert_eq!(*cells.last().unwrap(), b);
        assert!(cells.windows(2).all(|w| touching(w[0], w[1])), "{a:?} -> {b:?}");
        let span = (b.0 - a.0).abs().max((b.1 - a.1).abs()) as usize;
        assert_eq!(cells.len(), span + 1, "{a:?} -> {b:?}");
    }
}

#[test]
fn far_apart_cells_do_not_overflow() {
    let cells = line_cells((i64::MAX - 2, i64::MIN), (i64::MAX, i64::MIN + 1));
    assert_eq!(cells, vec![(i64::MAX - 2, i64::MIN), (i64::MAX - 1, i64::MIN + 1), (i64::MAX, i64::MIN + 1)]);
}

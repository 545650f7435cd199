use cellular_automata::board::{paint_step, Board, PointerEvent, Stroke};
use cellular_automata::rules::RuleSet;
use cellular_automata::simulation::{WORLD_MAX, WORLD_MIN};

fn life() -> RuleSet {
    RuleSet::from_counts(&[3], &[2, 3])
}

#[test]
fn a_new_board_is_empty() {
    let b = Board::new();
    assert_eq!((b.population(), b.generation(), b.last_births(), b.last_deaths()), (0, 0, 0, 0));
    assert!(b.cells().is_empty());
}

#[test]
fn painting_stops_at_the_world_edge() {
    let mut b = Board::new();
    b.set_cell((WORLD_MAX, WORLD_MIN), true);
    b.set_cell((WORLD_MAX + 1, 0), true);
    b.set_cell((0, WORLD_MIN - 1), true);
    assert_eq!(b.cells(), &vec![(WORLD_MAX, WORLD_MIN)]);
    b.toggle_cell((3, 4));
    b.toggle_cell((WORLD_MAX, WORLD_MIN));
    assert_eq!(b.cells(), &vec![(3, 4)]);
    b.set_cell((3, 4), false);
    b.set_cell((9, 9), false);
    assert_eq!(b.population(), 0);
}

#[test]
fn stamping_adds_cells_and_keeps_them_sorted() {
    let mut b = Board::new();
    b.set_cell((0, 0), true);
    b.stamp(&[(1, 0), (2, 1), (0, 2), (1, 2), (2, 2)], (-1, -1));
    assert_eq!(b.cells(), &vec![(-1, 1), (0, -1), (0, 0), (0, 1), (1, 0), (1, 1)]);
    assert!(b.contains((1, 1)) && !b.contains((1, 2)));
    b.stamp(&[(0, 0), (1, 0)], (WORLD_MAX, 0));
    assert!(b.contains((WORLD_MAX, 0)) && b.population() == 7);
}

#[test]
fn stepping_counts_generations_births_and_deaths() {
    let mut b = Board::new();
    b.add_cells(&vec![(0, 0), (1, 0), (2, 0), (1, 0)]);
    b.step_n(&life(), 0);
    assert_eq!(b.cells(), &vec![(1, -1), (1, 0), (1, 1)]);
    assert_eq!((b.generation(), b.last_births(), b.last_deaths()), (1, 2, 2));
    b.step_n(&life(), 5);
    assert_eq!(b.cells(), &vec![(0, 0), (1, 0), (2, 0)]);
    assert_eq!((b.generation(), b.last_births(), b.last_deaths()), (6, 10, 10));
    b.clear();
    assert_eq!((b.population(), b.generation(), b.last_births(), b.last_deaths()), (0, 0, 0, 0));
}

#[test]
fn a_glider_moves_one_cell_diagonally_every_four_generations() {
    let mut b = Board::new();
    b.stamp(&[(1, 0), (2, 1), (0, 2), (1, 2), (2, 2)], (10, 10));
    let before: Vec<(i64, i64)> = b.cells().iter().map(|&(x, y)| (x + 1, y + 1)).collect();
    b.step_n(&life(), 4);
    let mut after = b.cells().clone();
    after.sort();
    let mut want = before;
    want.sort();
    assert_eq!(after, want);
}

#[test]
fn stepping_in_two_runs_is_stepping_once() {
    let r_pentomino = [(1, 0), (2, 0), (0, 1), (1, 1), (1, 2)];
    let mut once = Board::new();
    once.stamp(&r_pentomino, (0, 0));
    let mut twice = Board::new();
    twice.stamp(&r_pentomino, (0, 0));
    once.step_n(&life(), 30);
    twice.step_n(&life(), 12);
    twice.step_n(&life(), 18);
    assert_eq!(once.cells(), twice.cells());
    assert_eq!(once.generation(), twice.generation());
}

#[test]
fn a_drag_from_a_dead_cell_paints_a_trail_without_gaps() {
    let mut b = Board::new();
    let s = paint_step(&mut b, false, Stroke::Idle, PointerEvent::Press((0, 0)));
    assert_eq!(s, Stroke::Painting { value: true, last: (0, 0) });
    let s = paint_step(&mut b, false, s, PointerEvent::DragTo((4, 2)));
    assert_eq!(s, Stroke::Painting { value: true, last: (4, 2) });
    assert_eq!(b.cells(), &vec![(0, 0), (1, 1), (2, 1), (3, 2), (4, 2)]);
    let s = paint_step(&mut b, false, s, PointerEvent::DragTo((4, 2)));
    assert_eq!(b.population(), 5);
    let s = paint_step(&mut b, false, s, PointerEvent::Release);
    assert_eq!(s, Stroke::Idle);
    assert_eq!(b.population(), 5);
    assert_eq!(b.generation(), 0);
}

#[test]
fn a_drag_from_a_live_cell_erases_and_so_does_the_eraser() {
    let mut b = Board::new();
    b.add_cells(&vec![(0, 0), (1, 0), (2, 0), (5, 5)]);
    let s = paint_step(&mut b, false, Stroke::Idle, PointerEvent::Press((0, 0)));
    assert_eq!(s, Stroke::Painting { value: false, last: (0, 0) });
    paint_step(&mut b, false, s, PointerEvent::DragTo((2, 0)));
    assert_eq!(b.cells(), &vec![(5, 5)]);

    let s = paint_step(&mut b, true, Stroke::Idle, PointerEvent::Press((7, 7)));
    assert_eq!(s, Stroke::Painting { value: false, last: (7, 7) });
    paint_step(&mut b, true, s, PointerEvent::DragTo((3, 3)));
    assert_eq!(b.cells(), &vec![]);
}

#[test]
fn a_click_toggles_or_erases_and_a_stray_drag_does_nothing() {
    let mut b = Board::new();
    let s = paint_step(&mut b, false, Stroke::Idle, PointerEvent::Click((1, 1)));
    assert_eq!(s, Stroke::Idle);
    assert!(b.contains((1, 1)));
    paint_step(&mut b, false, Stroke::Idle, PointerEvent::Click((1, 1)));
    assert!(!b.contains((1, 1)));
    paint_step(&mut b, true, Stroke::Idle, PointerEvent::Click((1, 1)));
    assert!(!b.contains((1, 1)));
    paint_step(&mut b, false, Stroke::Idle, PointerEvent::Click((3000, 0)));
    assert_eq!(b.population(), 0);
    let s = paint_step(&mut b, false, Stroke::Idle, PointerEvent::DragTo((2, 2)));
    assert_eq!(s, Stroke::Idle);
    assert_eq!(b.population(), 0);
}

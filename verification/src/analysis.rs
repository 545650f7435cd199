//! Behaviour classification by bounded simulation: run a pattern until its
//! shape repeats (still life, oscillator, spaceship), it dies out, or the
//! generation bound is reached.
use vstd::prelude::*;
use crate::cellset::{Cell, lemma_sorted_unique, lex_lt, strictly_sorted};
use crate::rules::RuleSet;
use crate::simulation::{all_in_i32, cell_set, clear_of_ends, in_i32, in_world, next_generation, next_set};

verus! {

#[derive(Debug, PartialEq, Eq, Structural)]
pub enum Behavior {
    Dies,
    StillLife,
    Oscillator { period: u32 },
    /// Returns to its own shape translated by `(dx, dy)` after `period` generations.
    Spaceship { period: u32, dx: i64, dy: i64 },
    /// No repeat within the generation bound (guns, methuselahs, replicators, chaos).
    Unsettled,
}

/// The cells of a pattern given by `i32` coordinates.
pub open spec fn start_set(start: Seq<(i32, i32)>) -> Set<Cell> {
    start.map_values(|p: (i32, i32)| (p.0 as i64, p.1 as i64)).to_set()
}

/// Generation `k` of `start` under `rule`.
pub open spec fn gen(start: Set<Cell>, rule: RuleSet, k: nat) -> Set<Cell>
    decreases k,
{
    if k == 0 {
        start
    } else {
        next_set(gen(start, rule, (k - 1) as nat), rule)
    }
}

/// `m` is the smallest `x` in the non-empty `s`.
pub open spec fn is_min_x(s: Set<Cell>, m: i64) -> bool {
    (exists|c: Cell| s.contains(c) && c.0 == m) && forall|c: Cell| s.contains(c) ==> m <= c.0
}

/// `m` is the smallest `y` in the non-empty `s`.
pub open spec fn is_min_y(s: Set<Cell>, m: i64) -> bool {
    (exists|c: Cell| s.contains(c) && c.1 == m) && forall|c: Cell| s.contains(c) ==> m <= c.1
}

/// Corner of the bounding box of `s`: its smallest `x` and smallest `y`.
pub open spec fn origin(s: Set<Cell>) -> Cell {
    (choose|m: i64| is_min_x(s, m), choose|m: i64| is_min_y(s, m))
}

/// `c` moved by minus `o`.
pub open spec fn shifted(c: Cell, o: Cell) -> Cell {
    ((c.0 - o.0) as i64, (c.1 - o.1) as i64)
}

/// Shape of `s`: its cells translated so the bounding box starts at the origin.
pub open spec fn shape(s: Set<Cell>) -> Set<Cell> {
    s.map(|c: Cell| shifted(c, origin(s)))
}

/// Some earlier generation than `g` has the shape of generation `g`.
pub open spec fn repeats(start: Set<Cell>, rule: RuleSet, g: nat) -> bool {
    exists|f: nat| f < g && #[trigger] shape(gen(start, rule, f)) == shape(gen(start, rule, g))
}

/// The behaviour found when the shape of generation `g` repeats that of `f`.
pub open spec fn repeat_behavior(start: Set<Cell>, rule: RuleSet, f: nat, g: nat) -> Behavior {
    let dx = origin(gen(start, rule, g)).0 - origin(gen(start, rule, f)).0;
    let dy = origin(gen(start, rule, g)).1 - origin(gen(start, rule, f)).1;
    let period = (g - f) as u32;
    if dx == 0 && dy == 0 {
        if period == 1 {
            Behavior::StillLife
        } else {
            Behavior::Oscillator { period }
        }
    } else {
        Behavior::Spaceship { period, dx: dx as i64, dy: dy as i64 }
    }
}

/// Classification from generation `g` on, up to generation `max`: the first
/// generation that is empty gives `Dies`; the first whose shape equals that
/// of an earlier one gives a still life, oscillator or spaceship; otherwise
/// `Unsettled`.
pub open spec fn classify_from(start: Set<Cell>, rule: RuleSet, max: nat, g: nat) -> Behavior
    decreases max + 1 - g,
{
    if g > max {
        Behavior::Unsettled
    } else if gen(start, rule, g) == Set::<Cell>::empty() {
        Behavior::Dies
    } else if repeats(start, rule, g) {
        let f = choose|f: nat| f < g && #[trigger] shape(gen(start, rule, f)) == shape(gen(start, rule, g));
        repeat_behavior(start, rule, f, g)
    } else {
        classify_from(start, rule, max, g + 1)
    }
}

proof fn lemma_origin_is(s: Set<Cell>, mx: i64, my: i64)
    requires
        is_min_x(s, mx),
        is_min_y(s, my),
    ensures
        origin(s) == (mx, my),
{
    let a = choose|m: i64| is_min_x(s, m);
    let b = choose|m: i64| is_min_y(s, m);
    let cx = choose|c: Cell| s.contains(c) && c.0 == a;
    let cx2 = choose|c: Cell| s.contains(c) && c.0 == mx;
    let cy = choose|c: Cell| s.contains(c) && c.1 == b;
    let cy2 = choose|c: Cell| s.contains(c) && c.1 == my;
    assert(a <= cx2.0 && mx <= cx.0);
    assert(b <= cy2.1 && my <= cy.1);
}

/// Shape of `cells` translated so its bounding box starts at the origin,
/// plus the translation that was removed (none, `(0, 0)`, for no cells).
fn normalize(cells: &Vec<Cell>) -> (r: (Vec<Cell>, Cell))
    requires
        strictly_sorted(cells@),
        all_in_i32(cells@),
    ensures
        strictly_sorted(r.0@),
        r.0@.len() == cells@.len(),
        r.0@.to_set() == shape(cells@.to_set()),
        r.1 == (if cells@.len() == 0 {
            (0i64, 0i64)
        } else {
            origin(cells@.to_set())
        }),
        in_i32(r.1),
{
    let ghost s = cells@.to_set();
    if cells.len() == 0 {
        assert(s =~= Set::<Cell>::empty());
        assert(shape(s) =~= Set::<Cell>::empty());
        assert(Seq::<Cell>::empty().to_set() =~= Set::<Cell>::empty());
        return (Vec::new(), (0, 0));
    }
    let min_x = cells[0].0;
    let mut min_y = cells[0].1;
    let mut i: usize = 1;
    while i < cells.len()
        invariant
            1 <= i <= cells.len(),
            all_in_i32(cells@),
            exists|k: int| 0 <= k < i && cells@[k].1 == min_y,
            forall|k: int| 0 <= k < i ==> min_y <= #[trigger] cells@[k].1,
        decreases cells.len() - i,
    {
        if cells[i].1 < min_y {
            min_y = cells[i].1;
        }
        i += 1;
    }
    proof {
        assert(cells@.contains(cells@[0]));
        assert forall|c: Cell| s.contains(c) implies min_x <= c.0 by {
            let k = choose|k: int| 0 <= k < cells@.len() && cells@[k] == c;
            if k > 0 {
                assert(lex_lt(cells@[0], cells@[k]));
            }
        }
        let k = choose|k: int| 0 <= k < cells@.len() && cells@[k].1 == min_y;
        assert(s.contains(cells@[k]));
        assert forall|c: Cell| s.contains(c) implies min_y <= c.1 by {
            let j = choose|j: int| 0 <= j < cells@.len() && cells@[j] == c;
            assert(min_y <= cells@[j].1);
        }
        assert(s.contains(cells@[0]));
        assert(is_min_x(s, min_x));
        assert(is_min_y(s, min_y));
        lemma_origin_is(s, min_x, min_y);
        assert(in_i32(cells@[0]));
        assert(in_i32(cells@[k]));
    }
    let mut shape_cells: Vec<Cell> = Vec::new();
    let mut j: usize = 0;
    while j < cells.len()
        invariant
            j <= cells.len(),
            all_in_i32(cells@),
            strictly_sorted(cells@),
            i32::MIN <= min_x <= i32::MAX,
            i32::MIN <= min_y <= i32::MAX,
            shape_cells@.len() == j,
            forall|k: int| 0 <= k < j ==> #[trigger] shape_cells@[k] == shifted(cells@[k], (min_x, min_y)),
        decreases cells.len() - j,
    {
        let c = cells[j];
        assert(in_i32(cells@[j as int]));
        shape_cells.push((c.0 - min_x, c.1 - min_y));
        j += 1;
    }
    proof {
        let o = (min_x, min_y);
        assert forall|a: int, b: int| 0 <= a < b < shape_cells@.len() implies lex_lt(
            #[trigger] shape_cells@[a],
            #[trigger] shape_cells@[b],
        ) by {
            assert(lex_lt(cells@[a], cells@[b]));
            assert(in_i32(cells@[a]) && in_i32(cells@[b]));
        }
        assert forall|d: Cell| shape_cells@.to_set().contains(d) <==> shape(s).contains(d) by {
            if shape_cells@.contains(d) {
                let k = choose|k: int| 0 <= k < shape_cells@.len() && shape_cells@[k] == d;
                assert(s.contains(cells@[k]));
                assert(shifted(cells@[k], origin(s)) == d);
            }
            if shape(s).contains(d) {
                let c = choose|c: Cell| s.contains(c) && shifted(c, origin(s)) == d;
                let k = choose|k: int| 0 <= k < cells@.len() && cells@[k] == c;
                assert(shape_cells@[k] == d);
            }
        }
        assert(shape_cells@.to_set() =~= shape(s));
    }
    (shape_cells, (min_x, min_y))
}

/// Whether two cell vectors are equal.
fn same_cells(a: &Vec<Cell>, b: &Vec<Cell>) -> (r: bool)
    ensures
        r == (a@ == b@),
{
    if a.len() != b.len() {
        return false;
    }
    let mut i: usize = 0;
    while i < a.len()
        invariant
            a.len() == b.len(),
            i <= a.len(),
            forall|k: int| 0 <= k < i ==> a@[k] == b@[k],
        decreases a.len() - i,
    {
        if a[i].0 != b[i].0 || a[i].1 != b[i].1 {
            return false;
        }
        i += 1;
    }
    assert(a@ =~= b@);
    true
}

pub fn classify(start: &[(i32, i32)], rule: &RuleSet, max_generations: u32) -> (b: Behavior)
    ensures
        b == classify_from(start_set(start@), *rule, max_generations as nat, 0),
{
    let ghost s0 = start_set(start@);
    let mut cells: Vec<Cell> = Vec::new();
    let mut i: usize = 0;
    while i < start.len()
        invariant
            i <= start@.len(),
            cells@ == start@.subrange(0, i as int).map_values(
                |p: (i32, i32)| (p.0 as i64, p.1 as i64),
            ),
        decreases start.len() - i,
    {
        let (x, y) = start[i];
        cells.push((x as i64, y as i64));
        proof {
            assert(start@.subrange(0, i + 1) =~= start@.subrange(0, i as int).push(start@[i as int]));
            assert(cells@ =~= start@.subrange(0, i + 1).map_values(
                |p: (i32, i32)| (p.0 as i64, p.1 as i64),
            ));
        }
        i += 1;
    }
    assert(start@.subrange(0, start@.len() as int) =~= start@);
    let mut live = cell_set(cells);
    proof {
        assert(live@.to_set() =~= s0);
        assert forall|k: int| 0 <= k < live@.len() implies in_i32(#[trigger] live@[k]) by {
            assert(live@.contains(live@[k]));
        }
    }
    let mut seen: Vec<(Vec<Cell>, Cell)> = Vec::new();
    let mut g: u64 = 0;
    while g <= max_generations as u64
        invariant
            s0 == start_set(start@),
            g <= max_generations as u64 + 1,
            strictly_sorted(live@),
            all_in_i32(live@),
            live@.to_set() == gen(s0, *rule, g as nat),
            seen@.len() == g,
            forall|f: int|
                0 <= f < g ==> strictly_sorted(#[trigger] seen@[f].0@) && seen@[f].0@.to_set() == shape(
                    gen(s0, *rule, f as nat),
                ) && seen@[f].1 == origin(gen(s0, *rule, f as nat)) && in_i32(seen@[f].1),
            forall|f1: nat, f2: nat|
                f1 < f2 < g ==> #[trigger] shape(gen(s0, *rule, f1)) != #[trigger] shape(
                    gen(s0, *rule, f2),
                ),
            classify_from(s0, *rule, max_generations as nat, 0) == classify_from(
                s0,
                *rule,
                max_generations as nat,
                g as nat,
            ),
        decreases max_generations as u64 + 1 - g,
    {
        let ghost cur = gen(s0, *rule, g as nat);
        if live.len() == 0 {
            assert(live@.to_set() =~= Set::<Cell>::empty());
            assert(classify_from(s0, *rule, max_generations as nat, g as nat) == Behavior::Dies);
            return Behavior::Dies;
        }
        proof {
            assert(live@.to_set().contains(live@[0]));
            assert(cur != Set::<Cell>::empty());
        }
        let (shape_now, origin_now) = normalize(&live);
        let mut f: usize = 0;
        while f < seen.len()
            invariant
                s0 == start_set(start@),
                f <= seen@.len(),
                seen@.len() == g,
                g <= max_generations,
                forall|k: int| 0 <= k < f ==> seen@[k].0@ != shape_now@,
                cur == gen(s0, *rule, g as nat),
                shape_now@.to_set() == shape(cur),
                origin_now == origin(cur),
                in_i32(origin_now),
                forall|k: int|
                    0 <= k < g ==> strictly_sorted(#[trigger] seen@[k].0@) && seen@[k].0@.to_set()
                        == shape(gen(s0, *rule, k as nat)) && seen@[k].1 == origin(
                        gen(s0, *rule, k as nat),
                    ) && in_i32(seen@[k].1),
                forall|f1: nat, f2: nat|
                    f1 < f2 < g ==> #[trigger] shape(gen(s0, *rule, f1)) != #[trigger] shape(
                        gen(s0, *rule, f2),
                    ),
                classify_from(s0, *rule, max_generations as nat, 0) == classify_from(
                    s0,
                    *rule,
                    max_generations as nat,
                    g as nat,
                ),
                cur != Set::<Cell>::empty(),
            decreases seen.len() - f,
        {
            if same_cells(&seen[f].0, &shape_now) {
                let first_origin = seen[f].1;
                proof {
                    assert(seen@[f as int].0@ == shape_now@);
                    assert(shape(gen(s0, *rule, f as nat)) == shape(cur));
                    assert(repeats(s0, *rule, g as nat));
                    let f2 = choose|f2: nat|
                        f2 < g && #[trigger] shape(gen(s0, *rule, f2)) == shape(gen(s0, *rule, g as nat));
                    if f2 != f {
                        if f2 < f {
                            assert(shape(gen(s0, *rule, f2)) != shape(gen(s0, *rule, f as nat)));
                        } else {
                            assert(shape(gen(s0, *rule, f as nat)) != shape(gen(s0, *rule, f2)));
                        }
                    }
                    assert(in_i32(seen@[f as int].1));
                }
                let dx = origin_now.0 - first_origin.0;
                let dy = origin_now.1 - first_origin.1;
                let period = (g - f as u64) as u32;
                return if dx == 0 && dy == 0 {
                    if period == 1 {
                        Behavior::StillLife
                    } else {
                        Behavior::Oscillator { period }
                    }
                } else {
                    Behavior::Spaceship { period, dx, dy }
                };
            }
            f += 1;
        }
        proof {
            assert forall|f1: nat| f1 < g implies #[trigger] shape(gen(s0, *rule, f1)) != shape(cur) by {
                let k = f1 as int;
                assert(seen@[k].0@ != shape_now@);
                if shape(gen(s0, *rule, f1)) == shape(cur) {
                    assert forall|c: Cell| seen@[k].0@.contains(c) <==> shape_now@.contains(c) by {
                        assert(seen@[k].0@.to_set().contains(c) == seen@[k].0@.contains(c));
                        assert(shape_now@.to_set().contains(c) == shape_now@.contains(c));
                    }
                    lemma_sorted_unique(seen@[k].0@, shape_now@);
                }
            }
            assert(!repeats(s0, *rule, g as nat));
        }
        seen.push((shape_now, origin_now));
        assert forall|k: int| 0 <= k < live@.len() implies clear_of_ends(#[trigger] live@[k]) by {
            assert(in_i32(live@[k]));
        }
        let ghost prev = live@;
        live = next_generation(&live, rule);
        proof {
            assert forall|k: int| 0 <= k < live@.len() implies in_i32(#[trigger] live@[k]) by {
                if !in_world(live@[k]) {
                    let j = choose|j: int| 0 <= j < prev.len() && prev[j] == live@[k];
                    assert(in_i32(prev[j]));
                }
            }
        }
        g += 1;
    }
    Behavior::Unsettled
}

} // verus!

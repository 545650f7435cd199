//! One generation of a Life-like rule on a sparse set of live cells, on the
//! bounded square world.
use vstd::prelude::*;
use crate::cellset::{Cell, has_cell, sorted_distinct, strictly_sorted};
use crate::rules::RuleSet;

verus! {

/// Smallest coordinate of the world on either axis.
pub const WORLD_MIN: i64 = -2048;

/// Largest coordinate of the world on either axis.
pub const WORLD_MAX: i64 = 2047;

/// Whether `c` lies on the 4096 x 4096 world.
pub open spec fn in_world(c: Cell) -> bool {
    WORLD_MIN <= c.0 <= WORLD_MAX && WORLD_MIN <= c.1 <= WORLD_MAX
}

/// Whether both coordinates of `c` fit in an `i32`.
pub open spec fn in_i32(c: Cell) -> bool {
    i32::MIN <= c.0 <= i32::MAX && i32::MIN <= c.1 <= i32::MAX
}

/// The cell `(dx, dy)` away from `c`.
pub open spec fn nb(c: Cell, dx: int, dy: int) -> Cell {
    ((c.0 + dx) as i64, (c.1 + dy) as i64)
}

pub open spec fn ind(b: bool) -> nat {
    if b {
        1
    } else {
        0
    }
}

/// How many of the eight cells around `c` are in `live`.
pub open spec fn neighbor_count(live: Set<Cell>, c: Cell) -> nat {
    ind(live.contains(nb(c, -1, -1))) + ind(live.contains(nb(c, 0, -1))) + ind(
        live.contains(nb(c, 1, -1)),
    ) + ind(live.contains(nb(c, -1, 0))) + ind(live.contains(nb(c, 1, 0))) + ind(
        live.contains(nb(c, -1, 1)),
    ) + ind(live.contains(nb(c, 0, 1))) + ind(live.contains(nb(c, 1, 1)))
}

/// Whether `c` is live in the generation after `live`: a live cell survives
/// when the rule's survival table holds its neighbour count; a dead cell on
/// the world with at least one live neighbour is born when the birth table
/// holds its count. (The step only visits cells next to a live cell, so a
/// dead cell with no live neighbour stays dead whatever the rule says.)
pub open spec fn alive_next(live: Set<Cell>, rule: RuleSet, c: Cell) -> bool {
    let n = neighbor_count(live, c);
    if live.contains(c) {
        rule.survive@[n as int]
    } else {
        1 <= n && rule.birth@[n as int] && in_world(c)
    }
}

/// The generation after `live` under `rule`.
pub open spec fn next_set(live: Set<Cell>, rule: RuleSet) -> Set<Cell> {
    Set::new(|c: Cell| alive_next(live, rule, c))
}

/// Both coordinates of `c` are at least two steps away from the ends of
/// `i64`, so that the neighbours of its neighbours can be named.
pub open spec fn clear_of_ends(c: Cell) -> bool {
    i64::MIN + 2 <= c.0 <= i64::MAX - 2 && i64::MIN + 2 <= c.1 <= i64::MAX - 2
}

/// Every cell of `s` is clear of the ends of `i64`.
pub open spec fn all_clear_of_ends(s: Seq<Cell>) -> bool {
    forall|i: int| 0 <= i < s.len() ==> clear_of_ends(#[trigger] s[i])
}

/// Every cell of `s` fits in `i32` coordinates.
pub open spec fn all_in_i32(s: Seq<Cell>) -> bool {
    forall|i: int| 0 <= i < s.len() ==> in_i32(#[trigger] s[i])
}

/// 1 when `live` holds `c`.
fn count_if(live: &Vec<Cell>, c: Cell) -> (n: u8)
    requires
        strictly_sorted(live@),
    ensures
        n == ind(live@.to_set().contains(c)),
{
    if has_cell(live, c) {
        1
    } else {
        0
    }
}

/// `neighbor_count` of `c`.
fn count_neighbors(live: &Vec<Cell>, c: Cell) -> (n: u8)
    requires
        strictly_sorted(live@),
        i64::MIN + 1 <= c.0 <= i64::MAX - 1,
        i64::MIN + 1 <= c.1 <= i64::MAX - 1,
    ensures
        n == neighbor_count(live@.to_set(), c),
{
    let (x, y) = c;
    count_if(live, (x - 1, y - 1)) + count_if(live, (x, y - 1)) + count_if(live, (x + 1, y - 1))
        + count_if(live, (x - 1, y)) + count_if(live, (x + 1, y)) + count_if(live, (x - 1, y + 1))
        + count_if(live, (x, y + 1)) + count_if(live, (x + 1, y + 1))
}

/// Pushes `d` onto `cand` when it is live in the next generation.
fn consider(live: &Vec<Cell>, rule: &RuleSet, d: Cell, cand: &mut Vec<Cell>)
    requires
        strictly_sorted(live@),
        i64::MIN + 1 <= d.0 <= i64::MAX - 1,
        i64::MIN + 1 <= d.1 <= i64::MAX - 1,
    ensures
        final(cand)@ == if alive_next(live@.to_set(), *rule, d) {
            old(cand)@.push(d)
        } else {
            old(cand)@
        },
{
    let n = count_neighbors(live, d);
    let alive = if has_cell(live, d) {
        rule.survive[n as usize]
    } else {
        1 <= n && rule.birth[n as usize] && WORLD_MIN <= d.0 && d.0 <= WORLD_MAX && WORLD_MIN <= d.1
            && d.1 <= WORLD_MAX
    };
    if alive {
        cand.push(d);
    }
}

/// Pushes each of the nine cells at and around `c` that is live in the next
/// generation.
fn consider_around(live: &Vec<Cell>, rule: &RuleSet, c: Cell, cand: &mut Vec<Cell>)
    requires
        strictly_sorted(live@),
        clear_of_ends(c),
    ensures
        forall|d: Cell| #[trigger]
            final(cand)@.contains(d) ==> old(cand)@.contains(d) || alive_next(
                live@.to_set(),
                *rule,
                d,
            ),
        forall|d: Cell| old(cand)@.contains(d) ==> #[trigger] final(cand)@.contains(d),
        forall|dx: int, dy: int|
            -1 <= dx <= 1 && -1 <= dy <= 1 && alive_next(live@.to_set(), *rule, #[trigger] nb(c, dx, dy))
                ==> final(cand)@.contains(nb(c, dx, dy)),
{
    let ghost s0 = cand@;
    let (x, y) = c;
    consider(live, rule, (x - 1, y - 1), cand);
    let ghost s1 = cand@;
    consider(live, rule, (x, y - 1), cand);
    let ghost s2 = cand@;
    consider(live, rule, (x + 1, y - 1), cand);
    let ghost s3 = cand@;
    consider(live, rule, (x - 1, y), cand);
    let ghost s4 = cand@;
    consider(live, rule, (x, y), cand);
    let ghost s5 = cand@;
    consider(live, rule, (x + 1, y), cand);
    let ghost s6 = cand@;
    consider(live, rule, (x - 1, y + 1), cand);
    let ghost s7 = cand@;
    consider(live, rule, (x, y + 1), cand);
    let ghost s8 = cand@;
    consider(live, rule, (x + 1, y + 1), cand);
    let ghost s9 = cand@;
    proof {
        let steps = seq![s0, s1, s2, s3, s4, s5, s6, s7, s8, s9];
        let pts = seq![
            nb(c, -1, -1),
            nb(c, 0, -1),
            nb(c, 1, -1),
            nb(c, -1, 0),
            nb(c, 0, 0),
            nb(c, 1, 0),
            nb(c, -1, 1),
            nb(c, 0, 1),
            nb(c, 1, 1),
        ];
        assert forall|k: int| 0 <= k < 9 implies #[trigger] steps[k + 1] == (if alive_next(
            live@.to_set(),
            *rule,
            pts[k],
        ) {
            steps[k].push(pts[k])
        } else {
            steps[k]
        }) by {}
        // Each step keeps what was there and adds only live-next cells.
        assert forall|k: int, d: Cell| 0 <= k <= 9 && #[trigger] steps[k].contains(d) implies s0.contains(d)
            || alive_next(live@.to_set(), *rule, d) by {
            lemma_steps_grow(live@.to_set(), *rule, steps, pts, k, d);
        }
        assert forall|d: Cell| s0.contains(d) implies #[trigger] s9.contains(d) by {
            lemma_steps_keep(live@.to_set(), *rule, steps, pts, 0, d);
        }
        assert forall|dx: int, dy: int|
            -1 <= dx <= 1 && -1 <= dy <= 1 && alive_next(live@.to_set(), *rule, #[trigger] nb(c, dx, dy))
                implies s9.contains(nb(c, dx, dy)) by {
            let k = (dy + 1) * 3 + (dx + 1);
            assert(pts[k] == nb(c, dx, dy));
            assert(steps[k + 1].contains(pts[k])) by {
                assert(steps[k + 1][steps[k + 1].len() - 1] == pts[k]);
            }
            lemma_steps_keep(live@.to_set(), *rule, steps, pts, k + 1, pts[k]);
        }
        assert(steps[9] == s9);
    }
}

proof fn lemma_steps_grow(
    live: Set<Cell>,
    rule: RuleSet,
    steps: Seq<Seq<Cell>>,
    pts: Seq<Cell>,
    k: int,
    d: Cell,
)
    requires
        steps.len() == 10,
        pts.len() == 9,
        forall|j: int| 0 <= j < 9 ==> #[trigger] steps[j + 1] == (if alive_next(live, rule, pts[j]) {
            steps[j].push(pts[j])
        } else {
            steps[j]
        }),
        0 <= k <= 9,
        steps[k].contains(d),
    ensures
        steps[0].contains(d) || alive_next(live, rule, d),
    decreases k,
{
    if k > 0 {
        let j = k - 1;
        assert(steps[j + 1] == steps[k]);
        if alive_next(live, rule, pts[j]) {
            let i = choose|i: int| 0 <= i < steps[k].len() && steps[k][i] == d;
            if i < steps[j].len() {
                assert(steps[j][i] == d);
                lemma_steps_grow(live, rule, steps, pts, j, d);
            }
        } else {
            lemma_steps_grow(live, rule, steps, pts, j, d);
        }
    }
}

proof fn lemma_steps_keep(
    live: Set<Cell>,
    rule: RuleSet,
    steps: Seq<Seq<Cell>>,
    pts: Seq<Cell>,
    k: int,
    d: Cell,
)
    requires
        steps.len() == 10,
        pts.len() == 9,
        forall|j: int| 0 <= j < 9 ==> #[trigger] steps[j + 1] == (if alive_next(live, rule, pts[j]) {
            steps[j].push(pts[j])
        } else {
            steps[j]
        }),
        0 <= k <= 9,
        steps[k].contains(d),
    ensures
        steps[9].contains(d),
    decreases 9 - k,
{
    if k < 9 {
        let i = choose|i: int| 0 <= i < steps[k].len() && steps[k][i] == d;
        assert(steps[k + 1][i] == d);
        lemma_steps_keep(live, rule, steps, pts, k + 1, d);
    }
}

/// The generation after `live` under `rule`, as a sorted set of cells. Each
/// of its cells was live already or lies on the world.
pub fn next_generation(live: &Vec<Cell>, rule: &RuleSet) -> (next: Vec<Cell>)
    requires
        strictly_sorted(live@),
        all_clear_of_ends(live@),
    ensures
        strictly_sorted(next@),
        forall|j: int| 0 <= j < next@.len() ==> in_world(#[trigger] next@[j]) || live@.contains(next@[j]),
        all_clear_of_ends(next@),
        next@.to_set() == next_set(live@.to_set(), *rule),
{
    let ghost s = live@.to_set();
    let mut cand: Vec<Cell> = Vec::new();
    let mut i: usize = 0;
    while i < live.len()
        invariant
            i <= live.len(),
            strictly_sorted(live@),
            all_clear_of_ends(live@),
            s == live@.to_set(),
            forall|d: Cell| #[trigger] cand@.contains(d) ==> alive_next(s, *rule, d),
            forall|k: int, dx: int, dy: int|
                0 <= k < i && -1 <= dx <= 1 && -1 <= dy <= 1 && alive_next(
                    s,
                    *rule,
                    #[trigger] nb(live@[k], dx, dy),
                ) ==> cand@.contains(nb(live@[k], dx, dy)),
        decreases live.len() - i,
    {
        let ghost before = cand@;
        assert(clear_of_ends(live@[i as int]));
        consider_around(live, rule, live[i], &mut cand);
        i += 1;
    }
    let next = sorted_distinct(cand);
    proof {
        assert forall|d: Cell| next@.to_set().contains(d) <==> next_set(s, *rule).contains(d) by {
            if alive_next(s, *rule, d) {
                lemma_next_near_live(live@, *rule, d);
                let (k, dx, dy) = choose|k: int, dx: int, dy: int|
                    0 <= k < live@.len() && -1 <= dx <= 1 && -1 <= dy <= 1 && nb(live@[k], dx, dy)
                        == d;
                assert(cand@.contains(nb(live@[k], dx, dy)));
            }
        }
        assert(next@.to_set() =~= next_set(s, *rule));
        assert forall|j: int| 0 <= j < next@.len() implies (in_world(#[trigger] next@[j]) || live@.contains(
            next@[j],
        )) && clear_of_ends(next@[j]) by {
            assert(next@.contains(next@[j]));
            assert(alive_next(s, *rule, next@[j]));
            if s.contains(next@[j]) {
                let k = choose|k: int| 0 <= k < live@.len() && live@[k] == next@[j];
                assert(clear_of_ends(live@[k]));
            }
        }
    }
    next
}

/// A cell live in the next generation is at or next to a live cell.
proof fn lemma_next_near_live(live: Seq<Cell>, rule: RuleSet, d: Cell)
    requires
        all_clear_of_ends(live),
        alive_next(live.to_set(), rule, d),
    ensures
        exists|k: int, dx: int, dy: int|
            0 <= k < live.len() && -1 <= dx <= 1 && -1 <= dy <= 1 && nb(live[k], dx, dy) == d,
{
    let s = live.to_set();
    if s.contains(d) {
        let k = choose|k: int| 0 <= k < live.len() && live[k] == d;
        assert(nb(live[k], 0, 0) == d);
    } else {
        // d is on the world and has a live neighbour e; d is e seen from the other side.
        let offs = seq![(-1int, -1int), (0, -1), (1, -1), (-1, 0), (1, 0), (-1, 1), (0, 1), (1, 1)];
        assert(exists|j: int| 0 <= j < 8 && s.contains(nb(d, offs[j].0, offs[j].1)));
        let j = choose|j: int| 0 <= j < 8 && s.contains(nb(d, offs[j].0, offs[j].1));
        let e = nb(d, offs[j].0, offs[j].1);
        let k = choose|k: int| 0 <= k < live.len() && live[k] == e;
        assert(nb(live[k], -offs[j].0, -offs[j].1) == d);
    }
}

/// The distinct cells of `cells`, as a sorted set for `next_generation`.
pub fn cell_set(cells: Vec<Cell>) -> (set: Vec<Cell>)
    ensures
        strictly_sorted(set@),
        forall|c: Cell| set@.contains(c) <==> cells@.contains(c),
{
    sorted_distinct(cells)
}


/// A world on which every live cell lies stays so: cells are never born past
/// the edge.
pub proof fn lemma_next_stays_in_world(live: Set<Cell>, rule: RuleSet)
    requires
        forall|c: Cell| #[trigger] live.contains(c) ==> in_world(c),
    ensures
        forall|c: Cell| #[trigger] next_set(live, rule).contains(c) ==> in_world(c),
{
}

/// Whether `c` is on the world: cells past the edge cannot be painted,
/// stamped or born.
pub fn on_world(c: Cell) -> (b: bool)
    ensures
        b == in_world(c),
{
    WORLD_MIN <= c.0 && c.0 <= WORLD_MAX && WORLD_MIN <= c.1 && c.1 <= WORLD_MAX
}

/// `p` placed with the pattern's origin at `at`.
pub open spec fn placed_at(p: (i32, i32), at: Cell) -> (int, int) {
    (at.0 + p.0, at.1 + p.1)
}

/// Whether a point lies on the world.
pub open spec fn on_world_int(q: (int, int)) -> bool {
    WORLD_MIN <= q.0 <= WORLD_MAX && WORLD_MIN <= q.1 <= WORLD_MAX
}

/// The cells of `pattern` placed at `at` that lie on the world, in order.
pub open spec fn stamp_spec(pattern: Seq<(i32, i32)>, at: Cell) -> Seq<Cell>
    decreases pattern.len(),
{
    if pattern.len() == 0 {
        Seq::empty()
    } else {
        let q = placed_at(pattern.last(), at);
        stamp_spec(pattern.drop_last(), at) + if on_world_int(q) {
            seq![(q.0 as i64, q.1 as i64)]
        } else {
            Seq::empty()
        }
    }
}

/// The cells a stamp of `pattern` with its origin at `at` makes live: each
/// cell of the pattern moved by `at`, except those that would land past the
/// edge of the world.
pub fn stamp_cells(pattern: &[(i32, i32)], at: Cell) -> (r: Vec<Cell>)
    ensures
        r@ == stamp_spec(pattern@, at),
        forall|k: int| 0 <= k < r@.len() ==> in_world(#[trigger] r@[k]),
        forall|k: int|
            0 <= k < pattern@.len() && WORLD_MIN <= at.0 + (#[trigger] pattern@[k]).0 <= WORLD_MAX
                && WORLD_MIN <= at.1 + pattern@[k].1 <= WORLD_MAX ==> r@.contains(
                ((at.0 + pattern@[k].0) as i64, (at.1 + pattern@[k].1) as i64),
            ),
        forall|c: Cell|
            #[trigger] r@.contains(c) ==> exists|k: int|
                0 <= k < pattern@.len() && c.0 == at.0 + (#[trigger] pattern@[k]).0 && c.1 == at.1
                    + pattern@[k].1,
{
    let mut r: Vec<Cell> = Vec::new();
    let mut i: usize = 0;
    while i < pattern.len()
        invariant
            i <= pattern@.len(),
            r@ == stamp_spec(pattern@.take(i as int), at),
            forall|k: int| 0 <= k < r@.len() ==> in_world(#[trigger] r@[k]),
        decreases pattern.len() - i,
    {
        let (px, py) = pattern[i];
        let x = at.0 as i128 + px as i128;
        let y = at.1 as i128 + py as i128;
        assert(pattern@.take(i + 1).drop_last() =~= pattern@.take(i as int));
        assert(pattern@.take(i + 1).last() == pattern@[i as int]);
        if WORLD_MIN as i128 <= x && x <= WORLD_MAX as i128 && WORLD_MIN as i128 <= y && y
            <= WORLD_MAX as i128 {
            r.push((x as i64, y as i64));
        }
        proof {
            let t = pattern@.take(i + 1);
            let q = placed_at(t.last(), at);
            assert(stamp_spec(t, at) == stamp_spec(t.drop_last(), at) + if on_world_int(q) {
                seq![(q.0 as i64, q.1 as i64)]
            } else {
                Seq::empty()
            });
            assert(r@ =~= stamp_spec(t, at));
        }
        i += 1;
    }
    assert(pattern@.take(pattern.len() as int) =~= pattern@);
    proof {
        lemma_stamp_places_every_cell(pattern@, at);
    }
    r
}

/// A stamp makes live exactly the pattern's cells moved by `at` that land on
/// the world: each cell `p` of the pattern whose place `at + p` lies on the
/// world is in the stamp, and every cell of the stamp is such a place.
pub proof fn lemma_stamp_places_every_cell(pattern: Seq<(i32, i32)>, at: Cell)
    ensures
        forall|k: int|
            0 <= k < pattern.len() && WORLD_MIN <= at.0 + (#[trigger] pattern[k]).0 <= WORLD_MAX
                && WORLD_MIN <= at.1 + pattern[k].1 <= WORLD_MAX ==> stamp_spec(pattern, at).contains(
                ((at.0 + pattern[k].0) as i64, (at.1 + pattern[k].1) as i64),
            ),
        forall|c: Cell|
            #[trigger] stamp_spec(pattern, at).contains(c) ==> WORLD_MIN <= c.0 <= WORLD_MAX && WORLD_MIN
                <= c.1 <= WORLD_MAX && exists|k: int|
                0 <= k < pattern.len() && c.0 == at.0 + (#[trigger] pattern[k]).0 && c.1 == at.1
                    + pattern[k].1,
        stamp_spec(pattern, at).len() <= pattern.len(),
    decreases pattern.len(),
{
    if pattern.len() > 0 {
        let init = pattern.drop_last();
        lemma_stamp_places_every_cell(init, at);
        let p = pattern.last();
        let q = placed_at(p, at);
        let tail: Seq<Cell> = if on_world_int(q) {
            seq![(q.0 as i64, q.1 as i64)]
        } else {
            Seq::empty()
        };
        let whole = stamp_spec(pattern, at);
        assert(whole == stamp_spec(init, at) + tail);
        assert forall|k: int|
            0 <= k < pattern.len() && WORLD_MIN <= at.0 + (#[trigger] pattern[k]).0 <= WORLD_MAX
                && WORLD_MIN <= at.1 + pattern[k].1 <= WORLD_MAX implies whole.contains(
            ((at.0 + pattern[k].0) as i64, (at.1 + pattern[k].1) as i64),
        ) by {
            let c = ((at.0 + pattern[k].0) as i64, (at.1 + pattern[k].1) as i64);
            if k < pattern.len() - 1 {
                assert(init[k] == pattern[k]);
                assert(stamp_spec(init, at).contains(c));
                let i = choose|i: int| 0 <= i < stamp_spec(init, at).len() && stamp_spec(init, at)[i] == c;
                assert(whole[i] == c);
            } else {
                assert(whole[whole.len() - 1] == c);
            }
        }
        assert forall|c: Cell| #[trigger] whole.contains(c) implies WORLD_MIN <= c.0 <= WORLD_MAX && WORLD_MIN
            <= c.1 <= WORLD_MAX && exists|k: int|
            0 <= k < pattern.len() && c.0 == at.0 + (#[trigger] pattern[k]).0 && c.1 == at.1
                + pattern[k].1 by {
            let i = choose|i: int| 0 <= i < whole.len() && whole[i] == c;
            if i < stamp_spec(init, at).len() {
                assert(stamp_spec(init, at)[i] == c);
                assert(stamp_spec(init, at).contains(c));
                let k = choose|k: int|
                    0 <= k < init.len() && c.0 == at.0 + (#[trigger] init[k]).0 && c.1 == at.1 + init[k].1;
                assert(pattern[k] == init[k]);
            } else {
                assert(c == (q.0 as i64, q.1 as i64));
                assert(pattern[pattern.len() - 1] == p);
            }
        }
    }
}

} // verus!

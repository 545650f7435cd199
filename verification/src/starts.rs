//! Named starting layouts the user can load in one action instead of
//! stamping/painting a fresh board by hand every time. Every option is a
//! density-based scatter across the whole world rather than a single fixed
//! figure or a hardcoded instance count, so the same density that drives
//! "Random soup" also controls how crowded a "Glider field" or "Pulsar field"
//! comes out. Pattern-based starts reuse the pattern library's cell data.
//!
//! The random choice of which lattice slots get a copy is made by the caller;
//! this module lays out the lattice and where each chosen copy goes.
use vstd::prelude::*;
use crate::cellset::{Cell, lex_lt, strictly_sorted};
use crate::patterns::Pattern;
use crate::simulation::{WORLD_MAX, WORLD_MIN};
use crate::text::str_eq;

verus! {

broadcast use vstd::string::group_string_axioms;


/// The names of the starting configurations, in menu order.
pub open spec fn spec_start_configs() -> Seq<Seq<char>> {
    seq!["Random soup"@, "Glider field"@, "Gosper gun field"@, "Pulsar field"@]
}

pub fn start_configs() -> (r: Vec<&'static str>)
    ensures
        r@.map_values(|s: &str| s@) == spec_start_configs(),
{
    let mut r: Vec<&'static str> = Vec::new();
    r.push("Random soup");
    r.push("Glider field");
    r.push("Gosper gun field");
    r.push("Pulsar field");
    assert(r@.map_values(|s: &str| s@) =~= spec_start_configs());
    r
}

/// `(pattern name, lattice spacing)` for the start configs built from a
/// library pattern.
pub open spec fn scattered_spec(name: Seq<char>) -> Option<(Seq<char>, i64)> {
    if name == "Glider field"@ {
        Some(("Glider"@, 24))
    } else if name == "Gosper gun field"@ {
        Some(("Gosper Glider Gun"@, 60))
    } else if name == "Pulsar field"@ {
        Some(("Pulsar"@, 24))
    } else {
        None
    }
}

/// `(pattern name, lattice spacing)` for the start configs built from a
/// library pattern.
pub fn scattered_pattern(name: &str) -> (r: Option<(&'static str, i64)>)
    ensures
        match (r, scattered_spec(name@)) {
            (Some((p, s)), Some((ps, ss))) => p@ == ps && s == ss,
            (None, None) => true,
            _ => false,
        },
{
    if str_eq(name, "Glider field") {
        Some(("Glider", 24))
    } else if str_eq(name, "Gosper gun field") {
        Some(("Gosper Glider Gun", 60))
    } else if str_eq(name, "Pulsar field") {
        Some(("Pulsar", 24))
    } else {
        None
    }
}

/// `library` has a pattern named `name`.
pub open spec fn has_pattern(library: Seq<Pattern>, name: Seq<char>) -> bool {
    exists|i: int| 0 <= i < library.len() && (#[trigger] library[i]).name@ == name
}

/// Index of the first pattern named `name` in `library`.
pub fn find_pattern(library: &[Pattern], name: &str) -> (r: Option<usize>)
    ensures
        match r {
            Some(i) => i < library@.len() && library@[i as int].name@ == name@ && forall|j: int|
                0 <= j < i ==> (#[trigger] library@[j]).name@ != name@,
            None => !has_pattern(library@, name@),
        },
{
    let mut i: usize = 0;
    while i < library.len()
        invariant
            i <= library@.len(),
            forall|j: int| 0 <= j < i ==> (#[trigger] library@[j]).name@ != name@,
        decreases library.len() - i,
    {
        if str_eq(library[i].name.as_str(), name) {
            return Some(i);
        }
        i += 1;
    }
    None
}

/// Whether `name` can be loaded with the active rule's collection - the
/// pattern-based starts need their pattern to exist in it.
pub fn is_available(name: &str, library: &[Pattern]) -> (b: bool)
    ensures
        b == (name@ == "Random soup"@ || match scattered_spec(name@) {
            Some((pattern, _)) => has_pattern(library@, pattern),
            None => false,
        }),
{
    if str_eq(name, "Random soup") {
        return true;
    }
    match scattered_pattern(name) {
        Some((pattern, _)) => find_pattern(library, pattern).is_some(),
        None => false,
    }
}

/// Smallest `x` among `cells[..k]`, `i32::MAX` when there are none.
pub open spec fn min_x_upto(cells: Seq<(i32, i32)>, k: nat) -> int
    decreases k,
{
    if k == 0 {
        i32::MAX as int
    } else if cells[k - 1].0 < min_x_upto(cells, (k - 1) as nat) {
        cells[k - 1].0 as int
    } else {
        min_x_upto(cells, (k - 1) as nat)
    }
}

/// Largest `x` among `cells[..k]`, `i32::MIN` when there are none.
pub open spec fn max_x_upto(cells: Seq<(i32, i32)>, k: nat) -> int
    decreases k,
{
    if k == 0 {
        i32::MIN as int
    } else if cells[k - 1].0 > max_x_upto(cells, (k - 1) as nat) {
        cells[k - 1].0 as int
    } else {
        max_x_upto(cells, (k - 1) as nat)
    }
}

/// Smallest `y` among `cells[..k]`, `i32::MAX` when there are none.
pub open spec fn min_y_upto(cells: Seq<(i32, i32)>, k: nat) -> int
    decreases k,
{
    if k == 0 {
        i32::MAX as int
    } else if cells[k - 1].1 < min_y_upto(cells, (k - 1) as nat) {
        cells[k - 1].1 as int
    } else {
        min_y_upto(cells, (k - 1) as nat)
    }
}

/// Largest `y` among `cells[..k]`, `i32::MIN` when there are none.
pub open spec fn max_y_upto(cells: Seq<(i32, i32)>, k: nat) -> int
    decreases k,
{
    if k == 0 {
        i32::MIN as int
    } else if cells[k - 1].1 > max_y_upto(cells, (k - 1) as nat) {
        cells[k - 1].1 as int
    } else {
        max_y_upto(cells, (k - 1) as nat)
    }
}

/// `v / 2` rounded toward zero.
pub open spec fn half_toward_zero(v: int) -> int {
    if v >= 0 {
        v / 2
    } else {
        -((-v) / 2)
    }
}

/// Rounded-toward-zero midpoint of the bounding box of `cells`.
pub open spec fn center_spec(cells: Seq<(i32, i32)>) -> (int, int) {
    let n = cells.len();
    (
        half_toward_zero(min_x_upto(cells, n) + max_x_upto(cells, n)),
        half_toward_zero(min_y_upto(cells, n) + max_y_upto(cells, n)),
    )
}

/// The bounding-box corner sums fit in `i32` (they always do on the world).
pub open spec fn center_fits(cells: Seq<(i32, i32)>) -> bool {
    let n = cells.len();
    &&& i32::MIN <= min_x_upto(cells, n) + max_x_upto(cells, n) <= i32::MAX
    &&& i32::MIN <= min_y_upto(cells, n) + max_y_upto(cells, n) <= i32::MAX
}

proof fn lemma_upto_bounds(cells: Seq<(i32, i32)>, k: nat)
    requires
        k <= cells.len(),
    ensures
        i32::MIN <= min_x_upto(cells, k) <= i32::MAX,
        i32::MIN <= max_x_upto(cells, k) <= i32::MAX,
        i32::MIN <= min_y_upto(cells, k) <= i32::MAX,
        i32::MIN <= max_y_upto(cells, k) <= i32::MAX,
    decreases k,
{
    if k > 0 {
        lemma_upto_bounds(cells, (k - 1) as nat);
    }
}

/// Rounds-toward-zero midpoint of a pattern's bounding box, used to center
/// it on a target cell instead of stamping from its RLE-origin corner.
pub fn bounding_center(cells: &[(i32, i32)]) -> (c: (i64, i64))
    requires
        center_fits(cells@),
    ensures
        c.0 == center_spec(cells@).0,
        c.1 == center_spec(cells@).1,
{
    let (mut min_x, mut min_y, mut max_x, mut max_y) = (i32::MAX, i32::MAX, i32::MIN, i32::MIN);
    let mut i: usize = 0;
    while i < cells.len()
        invariant
            i <= cells@.len(),
            min_x == min_x_upto(cells@, i as nat),
            max_x == max_x_upto(cells@, i as nat),
            min_y == min_y_upto(cells@, i as nat),
            max_y == max_y_upto(cells@, i as nat),
        decreases cells.len() - i,
    {
        let (x, y) = cells[i];
        if x < min_x {
            min_x = x;
        }
        if y < min_y {
            min_y = y;
        }
        if x > max_x {
            max_x = x;
        }
        if y > max_y {
            max_y = y;
        }
        i += 1;
    }
    (((min_x + max_x) / 2) as i64, ((min_y + max_y) / 2) as i64)
}

/// A lattice point of the world with spacing `spacing`: `i` steps right
/// and `j` steps down from the world's top-left corner.
pub open spec fn lattice_point(spacing: int, i: int, j: int) -> Cell {
    ((WORLD_MIN + i * spacing) as i64, (WORLD_MIN + j * spacing) as i64)
}

/// `c` is a lattice point of the world with spacing `spacing`.
pub open spec fn on_lattice(spacing: int, c: Cell) -> bool {
    exists|i: int, j: int|
        0 <= i && 0 <= j && WORLD_MIN + i * spacing <= WORLD_MAX && WORLD_MIN + j * spacing
            <= WORLD_MAX && c == #[trigger] lattice_point(spacing, i, j)
}

/// The candidate centers: every lattice point of the world, `spacing`
/// cells apart, column by column (the order the random choices are made in).
pub fn lattice(spacing: i64) -> (pts: Vec<Cell>)
    requires
        1 <= spacing <= i64::MAX - WORLD_MAX,
    ensures
        strictly_sorted(pts@),
        forall|c: Cell| pts@.contains(c) <==> on_lattice(spacing as int, c),
{
    let s = spacing;
    let mut pts: Vec<Cell> = Vec::new();
    let mut x = WORLD_MIN;
    let ghost mut i: int = 0;
    while x <= WORLD_MAX
        invariant
            1 <= s <= i64::MAX - WORLD_MAX,
            i >= 0,
            x == WORLD_MIN + i * s,
            x <= WORLD_MAX + s,
            strictly_sorted(pts@),
            forall|k: int| 0 <= k < pts@.len() ==> (#[trigger] pts@[k]).0 < x,
            forall|c: Cell| pts@.contains(c) <==> (on_lattice(s as int, c) && c.0 < x),
        decreases WORLD_MAX + s - x,
    {
        let mut y = WORLD_MIN;
        let ghost mut j: int = 0;
        let ghost before = pts@;
        while y <= WORLD_MAX
            invariant
                1 <= s <= i64::MAX - WORLD_MAX,
                i >= 0,
                j >= 0,
                x == WORLD_MIN + i * s,
                x <= WORLD_MAX,
                y == WORLD_MIN + j * s,
                y <= WORLD_MAX + s,
                strictly_sorted(pts@),
                forall|k: int| 0 <= k < pts@.len() ==> (#[trigger] pts@[k]).0 <= x,
                forall|k: int| 0 <= k < pts@.len() && pts@[k].0 == x ==> (#[trigger] pts@[k]).1 < y,
                forall|c: Cell|
                    pts@.contains(c) <==> (on_lattice(s as int, c) && (c.0 < x || (c.0 == x && c.1
                        < y))),
            decreases WORLD_MAX + s - y,
        {
            let ghost old_pts = pts@;
            pts.push((x, y));
            proof {
                assert(lattice_point(s as int, i, j) == (x, y));
                assert forall|a: int, b: int| 0 <= a < b < pts@.len() implies lex_lt(
                    #[trigger] pts@[a],
                    #[trigger] pts@[b],
                ) by {
                    if b == pts@.len() - 1 {
                        assert(pts@[a] == old_pts[a]);
                    } else {
                        assert(lex_lt(old_pts[a], old_pts[b]));
                    }
                }
                assert forall|c: Cell|
                    pts@.contains(c) <==> (on_lattice(s as int, c) && (c.0 < x || (c.0 == x && c.1
                        < y + s))) by {
                    if pts@.contains(c) && c != (x, y) {
                        let k = choose|k: int| 0 <= k < pts@.len() && pts@[k] == c;
                        assert(old_pts.contains(c)) by {
                            assert(old_pts[k] == c);
                        }
                    }
                    if on_lattice(s as int, c) && (c.0 < x || (c.0 == x && c.1 < y + s)) {
                        if c.0 == x && c.1 >= y {
                            let (ci, cj) = choose|ci: int, cj: int|
                                0 <= ci && 0 <= cj && WORLD_MIN + ci * s <= WORLD_MAX
                                    && WORLD_MIN + cj * s <= WORLD_MAX && c
                                    == #[trigger] lattice_point(s as int, ci, cj);
                            lemma_step_unique(s as int, j, cj);
                            assert(c == (x, y));
                            assert(pts@[pts@.len() - 1] == c);
                        } else {
                            assert(old_pts.contains(c));
                            let k = choose|k: int| 0 <= k < old_pts.len() && old_pts[k] == c;
                            assert(pts@[k] == c);
                        }
                    }
                }
                assert((j + 1) * s == j * s + s) by (nonlinear_arith);
            }
            y = y + s;
            proof {
                j = j + 1;
            }
        }
        proof {
            assert forall|c: Cell| pts@.contains(c) <==> (on_lattice(s as int, c) && c.0 < x + s) by {
                if on_lattice(s as int, c) && c.0 < x + s && c.0 >= x {
                    let (ci, cj) = choose|ci: int, cj: int|
                        0 <= ci && 0 <= cj && WORLD_MIN + ci * s <= WORLD_MAX && WORLD_MIN
                            + cj * s <= WORLD_MAX && c == #[trigger] lattice_point(s as int, ci, cj);
                    lemma_step_unique(s as int, i, ci);
                    assert(c.1 < y);
                }
            }
            assert((i + 1) * s == i * s + s) by (nonlinear_arith);
        }
        x = x + s;
        proof {
            i = i + 1;
        }
    }
    proof {
        assert forall|c: Cell| on_lattice(s as int, c) implies c.0 < x by {
            let (ci, cj) = choose|ci: int, cj: int|
                0 <= ci && 0 <= cj && WORLD_MIN + ci * s <= WORLD_MAX && WORLD_MIN + cj * s
                    <= WORLD_MAX && c == #[trigger] lattice_point(s as int, ci, cj);
        }
    }
    pts
}

/// Points `a + k * s` and `a + m * s` (within a small range) agree only when
/// `k == m`, and a point strictly between two consecutive steps is none.
proof fn lemma_step_unique(s: int, k: int, m: int)
    requires
        s >= 1,
        0 <= k,
        0 <= m,
    ensures
        m * s < k * s + s && m * s >= k * s ==> m == k,
{
    if m * s < k * s + s && m * s >= k * s {
        if m > k {
            assert(m * s >= (k + 1) * s) by (nonlinear_arith)
                requires
                    m > k,
                    s >= 1,
            ;
            assert((k + 1) * s == k * s + s) by (nonlinear_arith);
        } else if m < k {
            assert(m * s <= (k - 1) * s) by (nonlinear_arith)
                requires
                    m < k,
                    s >= 1,
            ;
            assert((k - 1) * s == k * s - s) by (nonlinear_arith);
        }
    }
}

/// Where a copy of `cells` goes for each chosen candidate center: the
/// centers of `lattice(spacing)` for which `picks` is set (in lattice order),
/// each shifted so the pattern's bounding-box center lands on it.
pub fn scatter_offsets(cells: &[(i32, i32)], spacing: i64, picks: &[bool]) -> (offsets: Vec<Cell>)
    requires
        1 <= spacing <= i64::MAX - WORLD_MAX,
        center_fits(cells@),
    ensures
        forall|k: int| 0 <= k < offsets@.len() ==> on_lattice(
            spacing as int,
            #[trigger] shift_back(offsets@[k], cells@),
        ),
        offsets@ == picked_offsets(lattice_of(spacing), picks@, center_spec(cells@), 0),
{
    let pts = lattice(spacing);
    let (cx, cy) = bounding_center(cells);
    let mut offsets: Vec<Cell> = Vec::new();
    let mut k: usize = 0;
    proof {
        lemma_lattice_of(spacing, pts@);
        lemma_upto_bounds(cells@, cells@.len());
    }
    while k < pts.len()
        invariant
            1 <= spacing <= i64::MAX - WORLD_MAX,
            k <= pts@.len(),
            pts@ == lattice_of(spacing),
            (cx as int, cy as int) == center_spec(cells@),
            -0x8000_0000 <= cx < 0x8000_0000,
            -0x8000_0000 <= cy < 0x8000_0000,
            forall|c: Cell| pts@.contains(c) <==> on_lattice(spacing as int, c),
            forall|m: int| 0 <= m < offsets@.len() ==> on_lattice(
                spacing as int,
                #[trigger] shift_back(offsets@[m], cells@),
            ),
            picked_offsets(lattice_of(spacing), picks@, center_spec(cells@), 0) == offsets@
                + picked_offsets(lattice_of(spacing), picks@, center_spec(cells@), k as nat),
        decreases pts.len() - k,
    {
        let p = pts[k];
        assert(pts@.contains(p));
        let ghost c = p;
        proof {
            assert(on_lattice(spacing as int, c));
            let (ci, cj) = choose|ci: int, cj: int|
                0 <= ci && 0 <= cj && WORLD_MIN + ci * spacing <= WORLD_MAX && WORLD_MIN + cj
                    * spacing <= WORLD_MAX && c == #[trigger] lattice_point(spacing as int, ci, cj);
            assert(ci * spacing >= 0 && cj * spacing >= 0) by (nonlinear_arith)
                requires
                    ci >= 0,
                    cj >= 0,
                    spacing >= 1,
            ;
            assert(WORLD_MIN <= p.0 <= WORLD_MAX);
            assert(WORLD_MIN <= p.1 <= WORLD_MAX);
        }
        if k < picks.len() && picks[k] {
            let ghost before = offsets@;
            let o = (p.0 - cx, p.1 - cy);
            offsets.push(o);
            proof {
                assert(shift_back(offsets@[offsets@.len() - 1], cells@) == p);
                assert forall|m: int| 0 <= m < offsets@.len() implies on_lattice(
                    spacing as int,
                    #[trigger] shift_back(offsets@[m], cells@),
                ) by {
                    if m < before.len() {
                        assert(offsets@[m] == before[m]);
                    }
                }
                assert(offsets@ =~= before.push(o));
                assert(o == offset_for(p, center_spec(cells@)));
            }
        }
        k += 1;
    }
    offsets
}

/// The lattice of the world with spacing `s`, column by column.
pub open spec fn lattice_of(s: i64) -> Seq<Cell> {
    choose|pts: Seq<Cell>|
        strictly_sorted(pts) && forall|c: Cell| pts.contains(c) <==> on_lattice(s as int, c)
}

proof fn lemma_lattice_of(s: i64, pts: Seq<Cell>)
    requires
        strictly_sorted(pts),
        forall|c: Cell| pts.contains(c) <==> on_lattice(s as int, c),
    ensures
        pts == lattice_of(s),
{
    let chosen = lattice_of(s);
    assert(strictly_sorted(chosen) && forall|c: Cell| chosen.contains(c) <==> on_lattice(s as int, c));
    crate::cellset::lemma_sorted_unique(pts, chosen);
}

/// The offset that puts the center of `cells` on `p`.
pub open spec fn offset_for(p: Cell, center: (int, int)) -> Cell {
    ((p.0 - center.0) as i64, (p.1 - center.1) as i64)
}

/// The center that `offset` puts the center of `cells` on.
pub open spec fn shift_back(offset: Cell, cells: Seq<(i32, i32)>) -> Cell {
    ((offset.0 + center_spec(cells).0) as i64, (offset.1 + center_spec(cells).1) as i64)
}

/// Offsets for the points `pts[k..]` whose pick is set (a missing pick counts
/// as not set).
pub open spec fn picked_offsets(pts: Seq<Cell>, picks: Seq<bool>, center: (int, int), k: nat) -> Seq<
    Cell,
>
    decreases pts.len() - k,
{
    if k >= pts.len() {
        Seq::empty()
    } else if k < picks.len() && picks[k as int] {
        seq![offset_for(pts[k as int], center)] + picked_offsets(pts, picks, center, k + 1)
    } else {
        picked_offsets(pts, picks, center, k + 1)
    }
}


/// No candidate picked (density 0): no copy is placed.
pub proof fn lemma_no_picks_place_nothing(pts: Seq<Cell>, picks: Seq<bool>, center: (int, int), k: nat)
    requires
        forall|i: int| 0 <= i < picks.len() ==> !#[trigger] picks[i],
    ensures
        picked_offsets(pts, picks, center, k) == Seq::<Cell>::empty(),
    decreases pts.len() - k,
{
    if k < pts.len() {
        lemma_no_picks_place_nothing(pts, picks, center, k + 1);
    }
}

/// Every candidate picked (density 1): one copy per lattice point, in
/// lattice order.
pub proof fn lemma_all_picks_fill_every_slot(pts: Seq<Cell>, picks: Seq<bool>, center: (int, int), k: nat)
    requires
        k <= pts.len() <= picks.len(),
        forall|i: int| 0 <= i < picks.len() ==> #[trigger] picks[i],
    ensures
        picked_offsets(pts, picks, center, k) == pts.skip(k as int).map_values(|p: Cell| offset_for(p, center)),
    decreases pts.len() - k,
{
    if k < pts.len() {
        lemma_all_picks_fill_every_slot(pts, picks, center, k + 1);
        assert(picks[k as int]);
        assert(pts.skip(k as int).map_values(|p: Cell| offset_for(p, center)) =~= seq![
            offset_for(pts[k as int], center),
        ] + pts.skip(k + 1 as int).map_values(|p: Cell| offset_for(p, center)));
    } else {
        assert(pts.skip(k as int).map_values(|p: Cell| offset_for(p, center)) =~= Seq::<Cell>::empty());
    }
}

} // verus!

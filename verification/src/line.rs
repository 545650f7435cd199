//! Bresenham's line between two cells, used by the freehand tools so that a
//! fast drag leaves no gaps.
use vstd::prelude::*;
use crate::cellset::Cell;

verus! {

/// How far the cell reached after `i` steps along x and `j` along y lies from
/// the ideal line towards a cell `a` columns and `b` rows away (both
/// non-negative), scaled so that it stays an integer.
pub open spec fn line_err(a: int, b: int, i: int, j: int) -> int {
    a * (1 + j) - b * (1 + i)
}

/// Whether the step after `(i, j)` moves along x.
pub open spec fn steps_x(a: int, b: int, i: int, j: int) -> bool {
    2 * line_err(a, b, i, j) >= -b
}

/// Whether the step after `(i, j)` moves along y.
pub open spec fn steps_y(a: int, b: int, i: int, j: int) -> bool {
    2 * line_err(a, b, i, j) <= a
}

/// A step along x moves the measure by `-b`.
proof fn lemma_err_x(a: int, b: int, i: int, j: int)
    ensures
        line_err(a, b, i + 1, j) == line_err(a, b, i, j) - b,
{
    assert(b * (1 + (i + 1)) == b * (1 + i) + b) by (nonlinear_arith);
}

/// A step along y moves the measure by `a`.
proof fn lemma_err_y(a: int, b: int, i: int, j: int)
    ensures
        line_err(a, b, i, j + 1) == line_err(a, b, i, j) + a,
{
    assert(a * (1 + (j + 1)) == a * (1 + j) + a) by (nonlinear_arith);
}

/// Steps from `(i, j)` stay within `a` by `b` and make progress.
pub proof fn lemma_step_in_box(a: int, b: int, i: int, j: int)
    requires
        0 <= i <= a,
        0 <= j <= b,
        i < a || j < b,
    ensures
        steps_x(a, b, i, j) || steps_y(a, b, i, j),
        steps_x(a, b, i, j) ==> i < a,
        steps_y(a, b, i, j) ==> j < b,
{
    if i == a && j < b {
        assert(2 * (a * (1 + j) - b * (1 + i)) < -b) by (nonlinear_arith)
            requires
                i == a,
                0 <= j < b,
                0 <= a,
        ;
    }
    if j == b && i < a {
        assert(2 * (a * (1 + j) - b * (1 + i)) > a) by (nonlinear_arith)
            requires
                j == b,
                0 <= i < a,
                0 <= b,
        ;
    }
}

/// `i` units from `p` towards `q` (downwards when `q` is not above `p`).
pub open spec fn toward(p: int, q: int, i: int) -> int {
    if p < q {
        p + i
    } else {
        p - i
    }
}

pub open spec fn abs(v: int) -> int {
    if v < 0 {
        -v
    } else {
        v
    }
}

/// The cell `i` columns and `j` rows from `from`, towards `to`.
pub open spec fn step_cell(from: Cell, to: Cell, i: int, j: int) -> Cell {
    (toward(from.0 as int, to.0 as int, i) as i64, toward(from.1 as int, to.1 as int, j) as i64)
}

/// The cells of Bresenham's line from `from` to `to` that come after `i`
/// steps along x and `j` along y, starting with that cell.
pub open spec fn line_from(from: Cell, to: Cell, i: int, j: int) -> Seq<Cell>
    decreases (abs(to.0 - from.0) - i) + (abs(to.1 - from.1) - j),
    when 0 <= i <= abs(to.0 - from.0) && 0 <= j <= abs(to.1 - from.1)
{
    let a = abs(to.0 - from.0);
    let b = abs(to.1 - from.1);
    if i == a && j == b {
        seq![step_cell(from, to, i, j)]
    } else {
        proof {
            lemma_step_in_box(a, b, i, j);
        }
        seq![step_cell(from, to, i, j)] + line_from(
            from,
            to,
            if steps_x(a, b, i, j) {
                i + 1
            } else {
                i
            },
            if steps_y(a, b, i, j) {
                j + 1
            } else {
                j
            },
        )
    }
}

/// Bresenham's line from `from` to `to`, both ends included.
pub open spec fn line_spec(from: Cell, to: Cell) -> Seq<Cell> {
    line_from(from, to, 0, 0)
}

/// `p` and `q` are distinct and touch, sideways or diagonally.
pub open spec fn touching(p: Cell, q: Cell) -> bool {
    p != q && abs(p.0 - q.0) <= 1 && abs(p.1 - q.1) <= 1
}


/// A step cell lies between the two ends, so it is exact.
proof fn lemma_step_cell(from: Cell, to: Cell, i: int, j: int)
    requires
        0 <= i <= abs(to.0 - from.0),
        0 <= j <= abs(to.1 - from.1),
    ensures
        step_cell(from, to, i, j).0 == toward(from.0 as int, to.0 as int, i),
        step_cell(from, to, i, j).1 == toward(from.1 as int, to.1 as int, j),
{
}

/// From the cell after `(i, j)`, the line runs to `to`, each cell touching
/// the next.
proof fn lemma_line_from(from: Cell, to: Cell, i: int, j: int)
    requires
        0 <= i <= abs(to.0 - from.0),
        0 <= j <= abs(to.1 - from.1),
    ensures
        line_from(from, to, i, j).len() >= 1,
        line_from(from, to, i, j)[0] == step_cell(from, to, i, j),
        line_from(from, to, i, j).last() == to,
        forall|k: int|
            0 <= k < line_from(from, to, i, j).len() - 1 ==> touching(
                #[trigger] line_from(from, to, i, j)[k],
                line_from(from, to, i, j)[k + 1],
            ),
    decreases (abs(to.0 - from.0) - i) + (abs(to.1 - from.1) - j),
{
    let a = abs(to.0 - from.0);
    let b = abs(to.1 - from.1);
    let s = line_from(from, to, i, j);
    lemma_step_cell(from, to, i, j);
    if i == a && j == b {
        assert(s == seq![step_cell(from, to, i, j)]);
    } else {
        lemma_step_in_box(a, b, i, j);
        let i2 = if steps_x(a, b, i, j) {
            i + 1
        } else {
            i
        };
        let j2 = if steps_y(a, b, i, j) {
            j + 1
        } else {
            j
        };
        let rest = line_from(from, to, i2, j2);
        lemma_line_from(from, to, i2, j2);
        lemma_step_cell(from, to, i2, j2);
        assert(s == seq![step_cell(from, to, i, j)] + rest);
        assert(touching(s[0], s[1])) by {
            assert(s[1] == rest[0]);
        }
        assert forall|k: int| 0 <= k < s.len() - 1 implies touching(#[trigger] s[k], s[k + 1]) by {
            if k > 0 {
                assert(s[k] == rest[k - 1] && s[k + 1] == rest[k]);
            }
        }
        assert(s.last() == rest.last());
    }
}

/// Bresenham's line from `a` to `b`: the cells from `a` to `b`, both
/// included, each touching the next (sideways or diagonally), so that a drag
/// across several cells at once leaves no gap.
pub fn line_cells(a: Cell, b: Cell) -> (cells: Vec<Cell>)
    ensures
        cells@ == line_spec(a, b),
        cells@.len() >= 1,
        cells@[0] == a,
        cells@.last() == b,
        forall|k: int| 0 <= k < cells@.len() - 1 ==> touching(#[trigger] cells@[k], cells@[k + 1]),
{
    let ghost da = abs(b.0 - a.0);
    let ghost db = abs(b.1 - a.1);
    proof {
        lemma_line_from(a, b, 0, 0);
        lemma_step_cell(a, b, 0, 0);
    }
    let mut cells: Vec<Cell> = Vec::new();
    let (mut x0, mut y0) = a;
    let (x1, y1) = b;
    let dx: i128 = if x1 >= x0 {
        x1 as i128 - x0 as i128
    } else {
        x0 as i128 - x1 as i128
    };
    let dy: i128 = if y1 >= y0 {
        y0 as i128 - y1 as i128
    } else {
        y1 as i128 - y0 as i128
    };
    let sx: i64 = if x0 < x1 {
        1
    } else {
        -1
    };
    let sy: i64 = if y0 < y1 {
        1
    } else {
        -1
    };
    let mut err: i128 = dx + dy;
    let ghost mut i: int = 0;
    let ghost mut j: int = 0;
    loop
        invariant_except_break
            da == abs(b.0 - a.0),
            db == abs(b.1 - a.1),
            0 <= i <= da,
            0 <= j <= db,
            dx == da,
            dy == -db,
            sx == (if a.0 < b.0 { 1int } else { -1int }),
            sy == (if a.1 < b.1 { 1int } else { -1int }),
            x0 == toward(a.0 as int, b.0 as int, i),
            y0 == toward(a.1 as int, b.1 as int, j),
            x1 == b.0,
            y1 == b.1,
            err == line_err(da, db, i, j),
            -2 * db <= err <= 2 * da,
            cells@ + line_from(a, b, i, j) == line_spec(a, b),
        ensures
            cells@ == line_spec(a, b),
        decreases (da - i) + (db - j),
    {
        proof {
            lemma_step_cell(a, b, i, j);
        }
        cells.push((x0, y0));
        if x0 == x1 && y0 == y1 {
            assert(line_from(a, b, i, j) == seq![step_cell(a, b, i, j)]);
            break;
        }
        let ghost (i0, j0) = (i, j);
        proof {
            lemma_step_in_box(da, db, i, j);
            lemma_err_x(da, db, i, j);
            lemma_err_y(da, db, i, j);
            lemma_err_y(da, db, i + 1, j);
        }
        let e2 = 2 * err;
        if e2 >= dy {
            err += dy;
            x0 += sx;
            proof {
                i = i + 1;
            }
        }
        if e2 <= dx {
            err += dx;
            y0 += sy;
            proof {
                j = j + 1;
            }
        }
        assert(line_from(a, b, i0, j0) == seq![step_cell(a, b, i0, j0)] + line_from(a, b, i, j));
        assert(cells@ + line_from(a, b, i, j) =~= line_spec(a, b));
    }
    cells
}

} // verus!

//! The text `to_rle` writes depends only on the shape of the cells: neither
//! the order they are listed in nor where the pattern stands changes it.
use vstd::prelude::*;
use crate::cellset::{Cell, lemma_map_same_multiset, lex_le, sorted};
use crate::rle::{lemma_row_major, max_col, min_col, rle_text_of, row_major, run_end, swap, tokens_from};
use crate::rules::RuleSet;

verus! {

/// `p` moved by `dr` rows and `dc` columns.
pub open spec fn moved(p: Cell, dr: int, dc: int) -> Cell {
    ((p.0 + dr) as i64, (p.1 + dc) as i64)
}

/// Every entry of `l` moved by `(dr, dc)` stays within `i64`.
pub open spec fn moves_exactly(l: Seq<Cell>, dr: int, dc: int) -> bool {
    forall|k: int|
        0 <= k < l.len() ==> i64::MIN <= (#[trigger] l[k]).0 + dr <= i64::MAX && i64::MIN <= l[k].1 + dc
            <= i64::MAX
}

/// The cell `c` moved by `dx` columns and `dy` rows.
pub open spec fn translated(c: Cell, dx: int, dy: int) -> Cell {
    ((c.0 + dx) as i64, (c.1 + dy) as i64)
}

/// Listing the same cells, as often each, in another order gives the same
/// row-major listing, so `to_rle` writes the same text.
pub proof fn lemma_to_rle_order_free(c1: Seq<Cell>, c2: Seq<Cell>, rule: RuleSet)
    requires
        c1.to_multiset() == c2.to_multiset(),
    ensures
        row_major(c1) == row_major(c2),
        rle_text_of(row_major(c1), rule) == rle_text_of(row_major(c2), rule),
{
    lemma_map_same_multiset(c1, c2, |c: Cell| swap(c));
    lemma_row_major(c1);
    lemma_row_major(c2);
}

proof fn lemma_run_end_moved(l: Seq<Cell>, m: Seq<Cell>, dr: int, dc: int, i: nat, len: nat)
    requires
        moves_exactly(l, dr, dc),
        m == l.map_values(|p: Cell| moved(p, dr, dc)),
        i < l.len(),
        i + len <= l.len(),
    ensures
        run_end(m, i, len) == run_end(l, i, len),
    decreases l.len() - (i + len),
{
    if i + len < l.len() {
        assert(m[(i + len) as int] == moved(l[(i + len) as int], dr, dc));
        assert(m[i as int] == moved(l[i as int], dr, dc));
        lemma_run_end_moved(l, m, dr, dc, i, len + 1);
    }
}

proof fn lemma_cols_moved(l: Seq<Cell>, m: Seq<Cell>, dr: int, dc: int, k: nat)
    requires
        moves_exactly(l, dr, dc),
        m == l.map_values(|p: Cell| moved(p, dr, dc)),
        1 <= k <= l.len(),
    ensures
        min_col(m, k) == min_col(l, k) + dc,
        max_col(m, k) == max_col(l, k) + dc,
    decreases k,
{
    assert(m[k - 1] == moved(l[k - 1], dr, dc));
    assert(m[0] == moved(l[0], dr, dc));
    if k > 1 {
        lemma_cols_moved(l, m, dr, dc, (k - 1) as nat);
    }
}

proof fn lemma_tokens_moved(l: Seq<Cell>, m: Seq<Cell>, dr: int, dc: int, i: nat, row: int, col: int, min_x: int)
    requires
        moves_exactly(l, dr, dc),
        m == l.map_values(|p: Cell| moved(p, dr, dc)),
        i <= l.len(),
    ensures
        tokens_from(m, i, row + dr, col, min_x + dc) == tokens_from(l, i, row, col, min_x),
    decreases l.len() - i,
{
    if i < l.len() {
        assert(m[i as int] == moved(l[i as int], dr, dc));
        lemma_run_end_moved(l, m, dr, dc, i, 1);
        crate::rle::lemma_run_end(l, i, 1);
        let len = run_end(l, i, 1);
        let cy = l[i as int].0 as int;
        let cx = l[i as int].1 - min_x;
        lemma_tokens_moved(l, m, dr, dc, i + len, cy, cx + len, min_x);
        assert(cy + dr == m[i as int].0);
    }
}

/// Moving every cell of a row-major listing moves nothing in its text.
proof fn lemma_text_moved(l: Seq<Cell>, dr: int, dc: int, rule: RuleSet)
    requires
        moves_exactly(l, dr, dc),
    ensures
        rle_text_of(l.map_values(|p: Cell| moved(p, dr, dc)), rule) == rle_text_of(l, rule),
{
    let m = l.map_values(|p: Cell| moved(p, dr, dc));
    if l.len() > 0 {
        let n = l.len();
        lemma_cols_moved(l, m, dr, dc, n);
        assert(m[0] == moved(l[0], dr, dc));
        assert(m.last() == moved(l.last(), dr, dc));
        lemma_tokens_moved(l, m, dr, dc, 0, l[0].0 as int, 0, min_col(l, n));
        assert(m[0].0 as int == l[0].0 as int + dr);
    }
}

/// `to_rle` writes the same text for a copy of the cells moved by `(dx, dy)`
/// and listed in any order: the text depends only on the pattern's shape.
pub proof fn lemma_to_rle_translation(c1: Seq<Cell>, c2: Seq<Cell>, dx: int, dy: int, rule: RuleSet)
    requires
        forall|k: int|
            0 <= k < c1.len() ==> i64::MIN <= (#[trigger] c1[k]).0 + dx <= i64::MAX && i64::MIN <= c1[k].1
                + dy <= i64::MAX,
        c2.to_multiset() == c1.map_values(|c: Cell| translated(c, dx, dy)).to_multiset(),
    ensures
        rle_text_of(row_major(c2), rule) == rle_text_of(row_major(c1), rule),
{
    lemma_row_major(c1);
    lemma_row_major(c2);
    let l1 = row_major(c1);
    let sw1 = c1.map_values(|c: Cell| swap(c));
    let g = |p: Cell| moved(p, dy, dx);
    let m = l1.map_values(g);
    // Every entry of the listing is a cell of `c1`, swapped.
    assert(moves_exactly(l1, dy, dx)) by {
        assert forall|k: int| 0 <= k < l1.len() implies i64::MIN <= (#[trigger] l1[k]).0 + dy <= i64::MAX
            && i64::MIN <= l1[k].1 + dx <= i64::MAX by {
            vstd::seq_lib::to_multiset_contains(l1, l1[k]);
            vstd::seq_lib::to_multiset_contains(sw1, l1[k]);
            assert(l1.contains(l1[k]));
            let j = choose|j: int| 0 <= j < sw1.len() && sw1[j] == l1[k];
            assert(sw1[j] == swap(c1[j]));
        }
    }
    assert(sorted(m)) by {
        assert forall|i: int, j: int| 0 <= i < j < m.len() implies lex_le(#[trigger] m[i], #[trigger] m[j]) by {
            assert(lex_le(l1[i], l1[j]));
        }
    }
    lemma_map_same_multiset(l1, sw1, g);
    let sh = |c: Cell| translated(c, dx, dy);
    assert(sw1.map_values(g) =~= c1.map_values(sh).map_values(|c: Cell| swap(c)));
    lemma_map_same_multiset(c2, c1.map_values(sh), |c: Cell| swap(c));
    assert(m == row_major(c2));
    lemma_text_moved(l1, dy, dx, rule);
}

} // verus!

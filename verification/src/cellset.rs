//! Sets of cells held as vectors sorted in tuple order without repeats:
//! membership by binary search, sorting, and the fact that such a vector is
//! determined by the set it holds.
use vstd::prelude::*;

verus! {

broadcast use vstd::seq_lib::group_to_multiset_ensures;

/// A cell of the plane, `(x, y)`.
pub type Cell = (i64, i64);

/// Tuple order on cells: by `x`, then by `y`.
pub open spec fn lex_lt(a: Cell, b: Cell) -> bool {
    a.0 < b.0 || (a.0 == b.0 && a.1 < b.1)
}

pub open spec fn lex_le(a: Cell, b: Cell) -> bool {
    lex_lt(a, b) || a == b
}

/// Increasing in tuple order, so without repeats.
pub open spec fn strictly_sorted(s: Seq<Cell>) -> bool {
    forall|i: int, j: int| 0 <= i < j < s.len() ==> lex_lt(#[trigger] s[i], #[trigger] s[j])
}

/// Non-decreasing in tuple order.
pub open spec fn sorted(s: Seq<Cell>) -> bool {
    forall|i: int, j: int| 0 <= i < j < s.len() ==> lex_le(#[trigger] s[i], #[trigger] s[j])
}

/// Sorts `v` in tuple order by calling std's `slice::sort_unstable` (tuples
/// of integers compare lexicographically). Not proved here: the contract
/// takes from std's documentation that the result is a rearrangement of `v`
/// in non-decreasing order.
#[verifier::external_body]
pub(crate) fn sort_cells(v: &mut Vec<Cell>)
    ensures
        final(v)@.to_multiset() == old(v)@.to_multiset(),
        sorted(final(v)@),
{
    v.sort_unstable();
}

/// Whether the sorted vector `v` holds `c` (binary search).
pub fn has_cell(v: &Vec<Cell>, c: Cell) -> (b: bool)
    requires
        strictly_sorted(v@),
    ensures
        b == v@.contains(c),
{
    let mut lo: usize = 0;
    let mut hi: usize = v.len();
    while lo < hi
        invariant
            0 <= lo <= hi <= v.len(),
            strictly_sorted(v@),
            forall|i: int| 0 <= i < lo ==> lex_lt(#[trigger] v@[i], c),
            forall|i: int| hi <= i < v.len() ==> lex_lt(c, #[trigger] v@[i]),
        decreases hi - lo,
    {
        let mid = lo + (hi - lo) / 2;
        let m = v[mid];
        if m.0 == c.0 && m.1 == c.1 {
            assert(v@[mid as int] == c);
            return true;
        } else if m.0 < c.0 || (m.0 == c.0 && m.1 < c.1) {
            assert forall|i: int| 0 <= i < mid + 1 implies lex_lt(#[trigger] v@[i], c) by {
                if i < mid {
                    assert(lex_lt(v@[i], v@[mid as int]));
                }
            }
            lo = mid + 1;
        } else {
            assert forall|i: int| mid <= i < v.len() implies lex_lt(c, #[trigger] v@[i]) by {
                if i > mid {
                    assert(lex_lt(v@[mid as int], v@[i]));
                }
            }
            hi = mid;
        }
    }
    assert forall|i: int| 0 <= i < v.len() implies v@[i] != c by {
        if i < lo {
            assert(lex_lt(v@[i], c));
        } else {
            assert(lex_lt(c, v@[i]));
        }
    }
    false
}

/// The distinct cells of the sorted vector `v`, in order.
pub fn dedup_sorted(v: &Vec<Cell>) -> (r: Vec<Cell>)
    requires
        sorted(v@),
    ensures
        strictly_sorted(r@),
        forall|c: Cell| r@.contains(c) <==> v@.contains(c),
{
    let mut r: Vec<Cell> = Vec::new();
    let mut i: usize = 0;
    while i < v.len()
        invariant
            i <= v.len(),
            sorted(v@),
            strictly_sorted(r@),
            i > 0 ==> r.len() > 0 && r@.last() == v@[i - 1],
            i == 0 ==> r.len() == 0,
            forall|c: Cell| r@.contains(c) <==> v@.subrange(0, i as int).contains(c),
        decreases v.len() - i,
    {
        let c = v[i];
        let ghost pre = v@.subrange(0, i as int);
        let ghost post = v@.subrange(0, i + 1);
        proof {
            assert(post =~= pre.push(c));
        }
        if r.len() == 0 || !(r[r.len() - 1].0 == c.0 && r[r.len() - 1].1 == c.1) {
            proof {
                if r.len() > 0 {
                    assert(lex_le(v@[i - 1], c));
                }
            }
            let ghost old_r = r@;
            r.push(c);
            proof {
                assert forall|a: int, b: int| 0 <= a < b < r@.len() implies lex_lt(
                    #[trigger] r@[a],
                    #[trigger] r@[b],
                ) by {
                    if b == r@.len() - 1 && a < b - 1 {
                        assert(lex_lt(old_r[a], old_r[b - 1]));
                    }
                }
                assert forall|d: Cell| r@.contains(d) <==> post.contains(d) by {
                    if r@.contains(d) {
                        let k = choose|k: int| 0 <= k < r@.len() && r@[k] == d;
                        if k < old_r.len() {
                            assert(old_r[k] == d);
                            assert(old_r.contains(d));
                            assert(pre.contains(d));
                            let m = choose|m: int| 0 <= m < pre.len() && pre[m] == d;
                            assert(post[m] == d);
                        } else {
                            assert(post[i as int] == d);
                        }
                    }
                    if post.contains(d) {
                        let m = choose|m: int| 0 <= m < post.len() && post[m] == d;
                        if m < i {
                            assert(pre[m] == d);
                            assert(old_r.contains(d));
                            let k = choose|k: int| 0 <= k < old_r.len() && old_r[k] == d;
                            assert(r@[k] == d);
                        } else {
                            assert(r@[r@.len() - 1] == d);
                        }
                    }
                }
            }
        } else {
            proof {
                assert forall|d: Cell| r@.contains(d) <==> post.contains(d) by {
                    if post.contains(d) {
                        let m = choose|m: int| 0 <= m < post.len() && post[m] == d;
                        if m < i {
                            assert(pre[m] == d);
                        } else {
                            assert(r@[r@.len() - 1] == d);
                        }
                    }
                    if r@.contains(d) {
                        assert(pre.contains(d));
                        let m = choose|m: int| 0 <= m < pre.len() && pre[m] == d;
                        assert(post[m] == d);
                    }
                }
            }
        }
        i += 1;
    }
    assert(v@.subrange(0, v.len() as int) =~= v@);
    r
}

/// Sorts `v` and removes repeats: the distinct cells of `v` in tuple order.
pub fn sorted_distinct(v: Vec<Cell>) -> (r: Vec<Cell>)
    ensures
        strictly_sorted(r@),
        forall|c: Cell| r@.contains(c) <==> v@.contains(c),
{
    let mut w = v;
    let ghost before = w@;
    sort_cells(&mut w);
    proof {
        assert forall|c: Cell| w@.contains(c) <==> before.contains(c) by {
            vstd::seq_lib::to_multiset_contains(w@, c);
            vstd::seq_lib::to_multiset_contains(before, c);
        }
    }
    dedup_sorted(&w)
}

/// Two strictly sorted sequences with the same elements are equal.
pub proof fn lemma_sorted_unique(a: Seq<Cell>, b: Seq<Cell>)
    requires
        strictly_sorted(a),
        strictly_sorted(b),
        forall|c: Cell| a.contains(c) <==> b.contains(c),
    ensures
        a == b,
    decreases a.len(),
{
    if a.len() == 0 {
        if b.len() > 0 {
            assert(b.contains(b[0]));
        }
        assert(a =~= b);
    } else {
        assert(a.contains(a[0]));
        assert(b.len() > 0);
        assert(b.contains(b[0]));
        let ia = choose|i: int| 0 <= i < a.len() && a[i] == b[0];
        let ib = choose|i: int| 0 <= i < b.len() && b[i] == a[0];
        if ia > 0 {
            assert(lex_lt(a[0], a[ia]));
        }
        if ib > 0 {
            assert(lex_lt(b[0], b[ib]));
        }
        assert(a[0] == b[0]);
        let a1 = a.drop_first();
        let b1 = b.drop_first();
        assert forall|c: Cell| a1.contains(c) <==> b1.contains(c) by {
            if a1.contains(c) {
                let k = choose|k: int| 0 <= k < a1.len() && a1[k] == c;
                assert(lex_lt(a[0], a[k + 1]));
                assert(b.contains(c));
                let m = choose|m: int| 0 <= m < b.len() && b[m] == c;
                assert(m != 0);
                assert(b1[m - 1] == c);
            }
            if b1.contains(c) {
                let k = choose|k: int| 0 <= k < b1.len() && b1[k] == c;
                assert(lex_lt(b[0], b[k + 1]));
                assert(a.contains(c));
                let m = choose|m: int| 0 <= m < a.len() && a[m] == c;
                assert(m != 0);
                assert(a1[m - 1] == c);
            }
        }
        lemma_sorted_unique(a1, b1);
        assert(a.len() == b.len());
        assert forall|i: int| 0 <= i < a.len() implies a[i] == b[i] by {
            if i > 0 {
                assert(a[i] == a1[i - 1]);
                assert(b[i] == b1[i - 1]);
            }
        }
        assert(a =~= b);
    }
}


/// Where `c` goes in the sorted `v`: the number of cells before it.
fn lower_bound(v: &Vec<Cell>, c: Cell) -> (i: usize)
    requires
        strictly_sorted(v@),
    ensures
        i <= v.len(),
        forall|j: int| 0 <= j < i ==> lex_lt(#[trigger] v@[j], c),
        forall|j: int| i <= j < v.len() ==> lex_le(c, #[trigger] v@[j]),
{
    let mut lo: usize = 0;
    let mut hi: usize = v.len();
    while lo < hi
        invariant
            0 <= lo <= hi <= v.len(),
            strictly_sorted(v@),
            forall|j: int| 0 <= j < lo ==> lex_lt(#[trigger] v@[j], c),
            forall|j: int| hi <= j < v.len() ==> lex_le(c, #[trigger] v@[j]),
        decreases hi - lo,
    {
        let mid = lo + (hi - lo) / 2;
        let m = v[mid];
        if m.0 < c.0 || (m.0 == c.0 && m.1 < c.1) {
            assert forall|j: int| 0 <= j < mid + 1 implies lex_lt(#[trigger] v@[j], c) by {
                if j < mid {
                    assert(lex_lt(v@[j], v@[mid as int]));
                }
            }
            lo = mid + 1;
        } else {
            assert forall|j: int| mid <= j < v.len() implies lex_le(c, #[trigger] v@[j]) by {
                if j > mid {
                    assert(lex_lt(v@[mid as int], v@[j]));
                }
            }
            hi = mid;
        }
    }
    lo
}

/// Adds `c` to the sorted set `v`.
pub fn insert_sorted(v: &mut Vec<Cell>, c: Cell)
    requires
        strictly_sorted(old(v)@),
    ensures
        strictly_sorted(final(v)@),
        final(v)@.to_set() == old(v)@.to_set().insert(c),
{
    let i = lower_bound(v, c);
    if i < v.len() && v[i].0 == c.0 && v[i].1 == c.1 {
        assert(old(v)@.to_set().contains(c)) by {
            assert(old(v)@[i as int] == c);
        }
        assert(old(v)@.to_set().insert(c) =~= old(v)@.to_set());
        return;
    }
    let ghost o = v@;
    v.insert(i, c);
    assert(v@ =~= o.take(i as int).push(c) + o.skip(i as int));
    assert forall|a: int, b: int| 0 <= a < b < v@.len() implies lex_lt(#[trigger] v@[a], #[trigger] v@[b]) by {
        if b < i {
            assert(v@[a] == o[a] && v@[b] == o[b]);
        } else if b == i {
            assert(v@[a] == o[a]);
        } else if a == i {
            assert(v@[b] == o[b - 1]);
            assert(lex_le(c, o[b - 1]));
            assert(o[b - 1] != c);
        } else if a < i {
            assert(v@[a] == o[a] && v@[b] == o[b - 1]);
            assert(lex_lt(o[a], c) && lex_le(c, o[b - 1]));
        } else {
            assert(v@[a] == o[a - 1] && v@[b] == o[b - 1]);
        }
    }
    assert forall|d: Cell| v@.to_set().contains(d) <==> o.to_set().insert(c).contains(d) by {
        if v@.contains(d) {
            let k = choose|k: int| 0 <= k < v@.len() && v@[k] == d;
            if k < i {
                assert(o[k] == d);
            } else if k > i {
                assert(o[k - 1] == d);
            }
        }
        if o.contains(d) {
            let k = choose|k: int| 0 <= k < o.len() && o[k] == d;
            if k < i {
                assert(v@[k] == d);
            } else {
                assert(v@[k + 1] == d);
            }
        }
        if d == c {
            assert(v@[i as int] == c);
        }
    }
    assert(v@.to_set() =~= o.to_set().insert(c));
}

/// Takes `c` out of the sorted set `v`.
pub fn remove_sorted(v: &mut Vec<Cell>, c: Cell)
    requires
        strictly_sorted(old(v)@),
    ensures
        strictly_sorted(final(v)@),
        final(v)@.to_set() == old(v)@.to_set().remove(c),
{
    let i = lower_bound(v, c);
    let ghost o = v@;
    if i < v.len() && v[i].0 == c.0 && v[i].1 == c.1 {
        v.remove(i);
        assert(v@ =~= o.take(i as int) + o.skip(i + 1));
        assert forall|a: int, b: int| 0 <= a < b < v@.len() implies lex_lt(#[trigger] v@[a], #[trigger] v@[b]) by {
            if b < i {
                assert(v@[a] == o[a] && v@[b] == o[b]);
            } else if a < i {
                assert(v@[a] == o[a] && v@[b] == o[b + 1]);
            } else {
                assert(v@[a] == o[a + 1] && v@[b] == o[b + 1]);
            }
        }
        assert forall|d: Cell| v@.to_set().contains(d) <==> o.to_set().remove(c).contains(d) by {
            if v@.contains(d) {
                let k = choose|k: int| 0 <= k < v@.len() && v@[k] == d;
                if k < i {
                    assert(o[k] == d);
                    assert(lex_lt(o[k], o[i as int]));
                } else {
                    assert(o[k + 1] == d);
                    assert(lex_lt(o[i as int], o[k + 1]));
                }
            }
            if o.contains(d) && d != c {
                let k = choose|k: int| 0 <= k < o.len() && o[k] == d;
                if k < i {
                    assert(v@[k] == d);
                } else {
                    assert(k != i);
                    assert(v@[k - 1] == d);
                }
            }
        }
        assert(v@.to_set() =~= o.to_set().remove(c));
    } else {
        assert(!o.contains(c)) by {
            if o.contains(c) {
                let k = choose|k: int| 0 <= k < o.len() && o[k] == c;
                if k < i {
                    assert(lex_lt(o[k], c));
                } else {
                    assert(lex_le(c, o[k]));
                    if k > i {
                        assert(lex_lt(o[i as int], o[k]));
                    }
                }
            }
        }
        assert(o.to_set().remove(c) =~= o.to_set());
    }
}


/// Two sorted sequences holding the same cells, as often each, are equal.
pub proof fn lemma_sorted_same_multiset(a: Seq<Cell>, b: Seq<Cell>)
    requires
        sorted(a),
        sorted(b),
        a.to_multiset() == b.to_multiset(),
    ensures
        a == b,
    decreases a.len(),
{
    broadcast use vstd::multiset::group_multiset_axioms;

    vstd::seq_lib::to_multiset_len(a);
    vstd::seq_lib::to_multiset_len(b);
    if a.len() == 0 {
        assert(a =~= b);
    } else {
        vstd::seq_lib::to_multiset_contains(a, a[0]);
        vstd::seq_lib::to_multiset_contains(b, a[0]);
        vstd::seq_lib::to_multiset_contains(a, b[0]);
        vstd::seq_lib::to_multiset_contains(b, b[0]);
        assert(a.contains(a[0]));
        assert(b.contains(b[0]));
        let j = choose|j: int| 0 <= j < b.len() && b[j] == a[0];
        let k = choose|k: int| 0 <= k < a.len() && a[k] == b[0];
        assert(lex_le(b[0], b[j]));
        assert(lex_le(a[0], a[k]));
        assert(a[0] == b[0]);
        vstd::seq_lib::to_multiset_remove(a, 0);
        vstd::seq_lib::to_multiset_remove(b, 0);
        assert(a.remove(0) =~= a.drop_first());
        assert(b.remove(0) =~= b.drop_first());
        lemma_sorted_same_multiset(a.drop_first(), b.drop_first());
        assert(a =~= b) by {
            assert forall|i: int| 0 <= i < a.len() implies a[i] == b[i] by {
                if i > 0 {
                    assert(a[i] == a.drop_first()[i - 1]);
                    assert(b[i] == b.drop_first()[i - 1]);
                }
            }
        }
    }
}

/// Mapping keeps two sequences holding the same items as often each so.
pub proof fn lemma_map_same_multiset<B>(a: Seq<Cell>, b: Seq<Cell>, f: spec_fn(Cell) -> B)
    requires
        a.to_multiset() == b.to_multiset(),
    ensures
        a.map_values(f).to_multiset() == b.map_values(f).to_multiset(),
    decreases a.len(),
{
    broadcast use vstd::multiset::group_multiset_axioms;

    vstd::seq_lib::to_multiset_len(a);
    vstd::seq_lib::to_multiset_len(b);
    if a.len() == 0 {
        assert(a.map_values(f) =~= Seq::<B>::empty());
        assert(b.map_values(f) =~= Seq::<B>::empty());
    } else {
        let x = a.last();
        vstd::seq_lib::to_multiset_contains(a, x);
        vstd::seq_lib::to_multiset_contains(b, x);
        assert(a.contains(x)) by {
            assert(a[a.len() - 1] == x);
        }
        let j = choose|j: int| 0 <= j < b.len() && b[j] == x;
        vstd::seq_lib::to_multiset_remove(a, a.len() - 1);
        vstd::seq_lib::to_multiset_remove(b, j);
        assert(a.remove(a.len() - 1) =~= a.drop_last());
        lemma_map_same_multiset(a.drop_last(), b.remove(j), f);
        let ma = a.map_values(f);
        let mb = b.map_values(f);
        assert(ma =~= a.drop_last().map_values(f).push(f(x)));
        vstd::seq_lib::to_multiset_build(a.drop_last().map_values(f), f(x));
        vstd::seq_lib::to_multiset_remove(mb, j);
        assert(mb.remove(j) =~= b.remove(j).map_values(f));
        assert(mb[j] == f(x));
        vstd::seq_lib::to_multiset_contains(mb, f(x));
        assert(mb.contains(f(x))) by {
            assert(mb[j] == f(x));
        }
        assert(mb.to_multiset() =~= mb.to_multiset().remove(f(x)).insert(f(x)));
    }
}

} // verus!

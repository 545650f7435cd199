//! The board: the live cells on the world, with the generation count and the
//! births and deaths of the last step. Cells are only ever added on the
//! world, so none lies past its edge.
use vstd::prelude::*;
use crate::analysis::gen;
use crate::line::{line_cells, line_spec};
use crate::cellset::{Cell, has_cell, insert_sorted, remove_sorted, sorted_distinct, strictly_sorted};
use crate::rules::RuleSet;
use crate::simulation::{in_world, lemma_next_stays_in_world, next_generation, next_set, stamp_cells, stamp_spec};

verus! {

pub struct Board {
    live: Vec<Cell>,
    generation: u64,
    last_births: u64,
    last_deaths: u64,
}

/// `a + b`, held at `u64::MAX`.
pub open spec fn sat_add(a: int, b: int) -> u64 {
    if a + b > u64::MAX {
        u64::MAX
    } else {
        (a + b) as u64
    }
}

/// Generations a step of `n` runs: `n`, and one when `n` is zero.
pub open spec fn steps_for(n: u32) -> nat {
    if n == 0 {
        1
    } else {
        n as nat
    }
}

/// Cells born over the first `k` generations from `start`, counted step by
/// step (held at `u64::MAX`).
pub open spec fn births_over(start: Set<Cell>, rule: RuleSet, k: nat) -> u64
    decreases k,
{
    if k == 0 {
        0
    } else {
        sat_add(
            births_over(start, rule, (k - 1) as nat) as int,
            gen(start, rule, k).difference(gen(start, rule, (k - 1) as nat)).len() as int,
        )
    }
}

/// Cells that died over the first `k` generations from `start`, counted
/// step by step (held at `u64::MAX`).
pub open spec fn deaths_over(start: Set<Cell>, rule: RuleSet, k: nat) -> u64
    decreases k,
{
    if k == 0 {
        0
    } else {
        sat_add(
            deaths_over(start, rule, (k - 1) as nat) as int,
            gen(start, rule, (k - 1) as nat).difference(gen(start, rule, k)).len() as int,
        )
    }
}

impl Board {
    #[verifier::type_invariant]
    spec fn well_formed(self) -> bool {
        &&& strictly_sorted(self.live@)
        &&& forall|k: int| 0 <= k < self.live@.len() ==> in_world(#[trigger] self.live@[k])
    }

    /// The live cells.
    pub closed spec fn live_set(self) -> Set<Cell> {
        self.live@.to_set()
    }

    /// How many generations have been stepped.
    pub closed spec fn generation_count(self) -> u64 {
        self.generation
    }

    /// Cells born over the last step (all its generations).
    pub closed spec fn births_count(self) -> u64 {
        self.last_births
    }

    /// Cells that died over the last step (all its generations).
    pub closed spec fn deaths_count(self) -> u64 {
        self.last_deaths
    }

    /// An empty board at generation 0.
    pub fn new() -> (b: Board)
        ensures
            b.live_set() == Set::<Cell>::empty(),
            b.generation_count() == 0,
            b.births_count() == 0,
            b.deaths_count() == 0,
    {
        let b = Board { live: Vec::new(), generation: 0, last_births: 0, last_deaths: 0 };
        assert(b.live@.to_set() =~= Set::<Cell>::empty());
        b
    }

    /// The live cells, sorted; every one lies on the world.
    pub fn cells(&self) -> (v: &Vec<Cell>)
        ensures
            v@.to_set() == self.live_set(),
            strictly_sorted(v@),
            forall|k: int| 0 <= k < v@.len() ==> in_world(#[trigger] v@[k]),
    {
        proof {
            use_type_invariant(self);
        }
        &self.live
    }

    /// How many cells are live.
    pub fn population(&self) -> (n: usize)
        ensures
            n == self.live_set().len(),
    {
        proof {
            use_type_invariant(self);
            lemma_sorted_len(self.live@);
        }
        self.live.len()
    }

    pub fn generation(&self) -> (g: u64)
        ensures
            g == self.generation_count(),
    {
        self.generation
    }

    pub fn last_births(&self) -> (n: u64)
        ensures
            n == self.births_count(),
    {
        self.last_births
    }

    pub fn last_deaths(&self) -> (n: u64)
        ensures
            n == self.deaths_count(),
    {
        self.last_deaths
    }

    /// Whether `c` is live.
    pub fn contains(&self, c: Cell) -> (b: bool)
        ensures
            b == self.live_set().contains(c),
    {
        proof {
            use_type_invariant(self);
        }
        has_cell(&self.live, c)
    }

    /// Makes `c` live or dead; a cell past the edge of the world cannot be
    /// made live.
    pub fn set_cell(&mut self, c: Cell, alive: bool)
        ensures
            final(self).live_set() == if alive {
                if in_world(c) {
                    old(self).live_set().insert(c)
                } else {
                    old(self).live_set()
                }
            } else {
                old(self).live_set().remove(c)
            },
            final(self).generation_count() == old(self).generation_count(),
            final(self).births_count() == old(self).births_count(),
            final(self).deaths_count() == old(self).deaths_count(),
    {
        proof {
            use_type_invariant(&*self);
        }
        let mut live: Vec<Cell> = Vec::new();
        std::mem::swap(&mut live, &mut self.live);
        let ghost o = live@;
        if alive {
            if crate::simulation::on_world(c) {
                insert_sorted(&mut live, c);
                proof {
                    assert forall|k: int| 0 <= k < live@.len() implies in_world(#[trigger] live@[k]) by {
                        assert(live@.to_set().contains(live@[k]));
                        if live@[k] != c {
                            assert(o.to_set().contains(live@[k]));
                            let j = choose|j: int| 0 <= j < o.len() && o[j] == live@[k];
                        }
                    }
                }
            }
        } else {
            remove_sorted(&mut live, c);
            proof {
                assert forall|k: int| 0 <= k < live@.len() implies in_world(#[trigger] live@[k]) by {
                    assert(live@.to_set().contains(live@[k]));
                    assert(o.to_set().contains(live@[k]));
                    let j = choose|j: int| 0 <= j < o.len() && o[j] == live@[k];
                }
            }
        }
        self.live = live;
    }

    /// Flips `c` between live and dead (a cell past the edge stays dead).
    pub fn toggle_cell(&mut self, c: Cell)
        ensures
            final(self).live_set() == if old(self).live_set().contains(c) {
                old(self).live_set().remove(c)
            } else if in_world(c) {
                old(self).live_set().insert(c)
            } else {
                old(self).live_set()
            },
            final(self).generation_count() == old(self).generation_count(),
            final(self).births_count() == old(self).births_count(),
            final(self).deaths_count() == old(self).deaths_count(),
    {
        let live = self.contains(c);
        self.set_cell(c, !live);
    }

    /// Makes every cell of `cells` that lies on the world live.
    pub fn add_cells(&mut self, cells: &Vec<Cell>)
        ensures
            final(self).live_set() == old(self).live_set().union(
                cells@.to_set().filter(|c: Cell| in_world(c)),
            ),
            final(self).generation_count() == old(self).generation_count(),
            final(self).births_count() == old(self).births_count(),
            final(self).deaths_count() == old(self).deaths_count(),
    {
        proof {
            use_type_invariant(&*self);
        }
        let mut all: Vec<Cell> = Vec::new();
        std::mem::swap(&mut all, &mut self.live);
        let ghost o = all@;
        let mut i: usize = 0;
        while i < cells.len()
            invariant
                i <= cells@.len(),
                forall|d: Cell| #[trigger] all@.contains(d) <==> (o.contains(d) || (in_world(d) && cells@.take(i as int).contains(d))),
                forall|k: int| 0 <= k < all@.len() ==> in_world(#[trigger] all@[k]),
            decreases cells.len() - i,
        {
            let c = cells[i];
            let ghost before = all@;
            let ghost t0 = cells@.take(i as int);
            let ghost t1 = cells@.take(i + 1);
            proof {
                assert(forall|d: Cell| #[trigger] before.contains(d) <==> (o.contains(d) || (in_world(d) && t0.contains(d))));
                assert(t1 =~= t0.push(c));
                assert forall|d: Cell| #[trigger] t1.contains(d) <==> (t0.contains(d) || d == c) by {
                    if t0.contains(d) {
                        let k = choose|k: int| 0 <= k < t0.len() && t0[k] == d;
                        assert(t1[k] == d);
                    }
                    if t1.contains(d) {
                        let k = choose|k: int| 0 <= k < t1.len() && t1[k] == d;
                        if k < t0.len() {
                            assert(t0[k] == d);
                        }
                    }
                    assert(t1[i as int] == c);
                }
            }
            let keep = crate::simulation::on_world(c);
            if keep {
                all.push(c);
                proof {
                    assert forall|d: Cell| #[trigger] all@.contains(d) <==> (o.contains(d) || (in_world(d) && t1.contains(d))) by {
                        if before.contains(d) {
                            let k = choose|k: int| 0 <= k < before.len() && before[k] == d;
                            assert(all@[k] == d);
                        }
                        if all@.contains(d) {
                            let k = choose|k: int| 0 <= k < all@.len() && all@[k] == d;
                            if k < before.len() {
                                assert(before[k] == d);
                            }
                        }
                        assert(all@[all@.len() - 1] == c);
                        assert(t1.contains(d) <==> (t0.contains(d) || d == c));
                        assert(before.contains(d) <==> (o.contains(d) || (in_world(d) && t0.contains(d))));
                    }
                }
            } else {
                proof {
                    assert forall|d: Cell| #[trigger] all@.contains(d) <==> (o.contains(d) || (in_world(d) && t1.contains(d))) by {
                        assert(t1.contains(d) <==> (t0.contains(d) || d == c));
                        assert(before.contains(d) <==> (o.contains(d) || (in_world(d) && t0.contains(d))));
                    }
                }
            }
            i += 1;
        }
        assert(cells@.take(cells.len() as int) =~= cells@);
        let merged = sorted_distinct(all);
        proof {
            assert forall|k: int| 0 <= k < merged@.len() implies in_world(#[trigger] merged@[k]) by {
                assert(merged@.contains(merged@[k]));
                let j = choose|j: int| 0 <= j < all@.len() && all@[j] == merged@[k];
            }
            let target = o.to_set().union(cells@.to_set().filter(|c: Cell| in_world(c)));
            assert forall|d: Cell| merged@.to_set().contains(d) <==> target.contains(d) by {
                assert(merged@.to_set().contains(d) == merged@.contains(d));
                assert(o.to_set().contains(d) == o.contains(d));
                assert(cells@.to_set().contains(d) == cells@.contains(d));
            }
            assert(merged@.to_set() =~= target);
        }
        self.live = merged;
    }

    /// Stamps `pattern` with its origin at `at`: its cells become live,
    /// except those that would land past the edge of the world.
    pub fn stamp(&mut self, pattern: &[(i32, i32)], at: Cell)
        ensures
            final(self).live_set() == old(self).live_set().union(stamp_spec(pattern@, at).to_set()),
            final(self).generation_count() == old(self).generation_count(),
            final(self).births_count() == old(self).births_count(),
            final(self).deaths_count() == old(self).deaths_count(),
    {
        let placed = stamp_cells(pattern, at);
        self.add_cells(&placed);
        proof {
            let s = placed@.to_set();
            assert forall|d: Cell| #[trigger] s.contains(d) implies in_world(d) by {
                let k = choose|k: int| 0 <= k < placed@.len() && placed@[k] == d;
            }
            assert(s.filter(|c: Cell| in_world(c)) =~= s);
        }
    }

    /// Runs `n` generations under `rule` (one when `n` is 0), keeping the
    /// count of generations and the births and deaths summed over the run.
    pub fn step_n(&mut self, rule: &RuleSet, n: u32)
        ensures
            final(self).live_set() == gen(old(self).live_set(), *rule, steps_for(n)),
            final(self).generation_count() == sat_add(old(self).generation_count() as int, steps_for(n) as int),
            final(self).births_count() == births_over(old(self).live_set(), *rule, steps_for(n)),
            final(self).deaths_count() == deaths_over(old(self).live_set(), *rule, steps_for(n)),
    {
        proof {
            use_type_invariant(&*self);
        }
        let k: u32 = if n == 0 {
            1
        } else {
            n
        };
        let mut live: Vec<Cell> = Vec::new();
        std::mem::swap(&mut live, &mut self.live);
        let ghost start = live@.to_set();
        let mut births: u64 = 0;
        let mut deaths: u64 = 0;
        let mut i: u32 = 0;
        while i < k
            invariant
                i <= k,
                k == steps_for(n),
                strictly_sorted(live@),
                forall|j: int| 0 <= j < live@.len() ==> in_world(#[trigger] live@[j]),
                live@.to_set() == gen(start, *rule, i as nat),
                births == births_over(start, *rule, i as nat),
                deaths == deaths_over(start, *rule, i as nat),
            decreases k - i,
        {
            assert forall|j: int| 0 <= j < live@.len() implies crate::simulation::clear_of_ends(#[trigger] live@[j]) by {
                assert(in_world(live@[j]));
            }
            let next = next_generation(&live, rule);
            proof {
                let cur = live@.to_set();
                assert forall|c: Cell| #[trigger] cur.contains(c) implies in_world(c) by {
                    let j = choose|j: int| 0 <= j < live@.len() && live@[j] == c;
                }
                lemma_next_stays_in_world(cur, *rule);
                assert forall|j: int| 0 <= j < next@.len() implies in_world(#[trigger] next@[j]) by {
                    assert(next@.to_set().contains(next@[j]));
                }
                assert(gen(start, *rule, (i + 1) as nat) == next_set(gen(start, *rule, i as nat), *rule));
            }
            let b = count_new(&next, &live);
            let d = count_new(&live, &next);
            births = births.saturating_add(b as u64);
            deaths = deaths.saturating_add(d as u64);
            live = next;
            i += 1;
        }
        self.live = live;
        self.generation = self.generation.saturating_add(k as u64);
        self.last_births = births;
        self.last_deaths = deaths;
    }

    /// Kills every cell and starts counting generations afresh.
    pub fn clear(&mut self)
        ensures
            final(self).live_set() == Set::<Cell>::empty(),
            final(self).generation_count() == 0,
            final(self).births_count() == 0,
            final(self).deaths_count() == 0,
    {
        *self = Board::new();
    }
}

/// A strictly sorted sequence has as many entries as cells.
proof fn lemma_sorted_len(s: Seq<Cell>)
    requires
        strictly_sorted(s),
    ensures
        s.to_set().len() == s.len(),
{
    assert(s.no_duplicates()) by {
        assert forall|i: int, j: int| 0 <= i < s.len() && 0 <= j < s.len() && i != j implies s[i] != s[j] by {
            if i < j {
                assert(crate::cellset::lex_lt(s[i], s[j]));
            } else {
                assert(crate::cellset::lex_lt(s[j], s[i]));
            }
        }
    }
    s.unique_seq_to_set();
}


/// How many of `s[..k]` are not in `b`.
pub open spec fn count_not_in(s: Seq<Cell>, b: Set<Cell>, k: nat) -> nat
    decreases k,
{
    if k == 0 {
        0
    } else {
        count_not_in(s, b, (k - 1) as nat) + if b.contains(s[k - 1]) {
            0nat
        } else {
            1nat
        }
    }
}

/// Over a sequence without repeats, that count is the size of a set
/// difference.
proof fn lemma_count_not_in(s: Seq<Cell>, b: Set<Cell>, k: nat)
    requires
        strictly_sorted(s),
        k <= s.len(),
    ensures
        count_not_in(s, b, k) == s.take(k as int).to_set().difference(b).len(),
    decreases k,
{
    broadcast use vstd::set::group_set_axioms;
    broadcast use vstd::seq_lib::seq_to_set_is_finite;

    if k == 0 {
        assert(s.take(0).to_set().difference(b) =~= Set::<Cell>::empty());
    } else {
        lemma_count_not_in(s, b, (k - 1) as nat);
        let t = s.take(k - 1).to_set();
        let x = s[k - 1];
        assert(s.take(k as int) =~= s.take(k - 1).push(x));
        assert(s.take(k as int).to_set() =~= t.insert(x)) by {
            assert forall|c: Cell| s.take(k as int).to_set().contains(c) <==> t.insert(x).contains(c) by {
                let tk = s.take(k as int);
                let tp = s.take(k - 1);
                if tk.contains(c) {
                    let j = choose|j: int| 0 <= j < tk.len() && tk[j] == c;
                    if j < k - 1 {
                        assert(tp[j] == c);
                    }
                }
                if tp.contains(c) {
                    let j = choose|j: int| 0 <= j < tp.len() && tp[j] == c;
                    assert(tk[j] == c);
                }
                assert(tk[k - 1] == x);
            }
        }
        assert(!t.contains(x)) by {
            let tp = s.take(k - 1);
            if t.contains(x) {
                let j = choose|j: int| 0 <= j < tp.len() && tp[j] == x;
                assert(tp[j] == s[j]);
                assert(crate::cellset::lex_lt(s[j], s[k - 1]));
            }
        }
        let d = t.difference(b);
        if b.contains(x) {
            assert(t.insert(x).difference(b) =~= d);
        } else {
            assert(t.insert(x).difference(b) =~= d.insert(x));
            assert(!d.contains(x));
        }
    }
}

/// How many cells of the sorted `after` are not in the sorted `before`.
fn count_new(after: &Vec<Cell>, before: &Vec<Cell>) -> (n: usize)
    requires
        strictly_sorted(after@),
        strictly_sorted(before@),
    ensures
        n == after@.to_set().difference(before@.to_set()).len(),
{
    let mut n: usize = 0;
    let mut i: usize = 0;
    while i < after.len()
        invariant
            i <= after@.len(),
            strictly_sorted(after@),
            strictly_sorted(before@),
            n == count_not_in(after@, before@.to_set(), i as nat),
            n <= i,
        decreases after.len() - i,
    {
        if !has_cell(before, after[i]) {
            n += 1;
        }
        i += 1;
    }
    proof {
        lemma_count_not_in(after@, before@.to_set(), after@.len());
        assert(after@.take(after@.len() as int) =~= after@);
    }
    n
}


/// Running `a` generations and then `b` more is running `a + b`.
pub proof fn lemma_gen_add(start: Set<Cell>, rule: RuleSet, a: nat, b: nat)
    ensures
        gen(gen(start, rule, a), rule, b) == gen(start, rule, a + b),
    decreases b,
{
    if b > 0 {
        lemma_gen_add(start, rule, a, (b - 1) as nat);
        assert(a + b - 1 == a + (b - 1));
    }
}


/// `s` with every cell of `cells` made live (those on the world) when `v`
/// holds, or made dead otherwise.
pub open spec fn set_to(s: Set<Cell>, cells: Seq<Cell>, v: bool) -> Set<Cell> {
    if v {
        s.union(cells.to_set().filter(|c: Cell| in_world(c)))
    } else {
        s.difference(cells.to_set())
    }
}

/// Painting one more cell after `t`.
proof fn lemma_set_to_push(s: Set<Cell>, t: Seq<Cell>, c: Cell, v: bool)
    ensures
        set_to(s, t.push(c), v) == if v {
            if in_world(c) {
                set_to(s, t, v).insert(c)
            } else {
                set_to(s, t, v)
            }
        } else {
            set_to(s, t, v).remove(c)
        },
{
    let u = t.push(c);
    assert forall|x: Cell| #[trigger] u.contains(x) <==> t.contains(x) || x == c by {
        if t.contains(x) {
            let i = choose|i: int| 0 <= i < t.len() && t[i] == x;
            assert(u[i] == x);
        }
        if x == c {
            assert(u[t.len() as int] == c);
        }
        if u.contains(x) {
            let i = choose|i: int| 0 <= i < u.len() && u[i] == x;
            if i < t.len() {
                assert(t[i] == x);
            }
        }
    }
    assert(u.to_set() =~= t.to_set().insert(c));
    if v {
        if in_world(c) {
            assert(set_to(s, u, v) =~= set_to(s, t, v).insert(c));
        } else {
            assert(set_to(s, u, v) =~= set_to(s, t, v));
        }
    } else {
        assert(set_to(s, u, v) =~= set_to(s, t, v).remove(c));
    }
}

/// Paints every cell of `cells` with `value`.
fn paint_cells(board: &mut Board, cells: &Vec<Cell>, value: bool)
    ensures
        final(board).live_set() == set_to(old(board).live_set(), cells@, value),
        final(board).generation_count() == old(board).generation_count(),
        final(board).births_count() == old(board).births_count(),
        final(board).deaths_count() == old(board).deaths_count(),
{
    let ghost start = board.live_set();
    assert(cells@.take(0).to_set() =~= Set::<Cell>::empty());
    assert(set_to(start, cells@.take(0), value) =~= start);
    let mut k: usize = 0;
    while k < cells.len()
        invariant
            k <= cells@.len(),
            board.live_set() == set_to(start, cells@.take(k as int), value),
            start == old(board).live_set(),
            board.generation_count() == old(board).generation_count(),
            board.births_count() == old(board).births_count(),
            board.deaths_count() == old(board).deaths_count(),
        decreases cells.len() - k,
    {
        let c = cells[k];
        board.set_cell(c, value);
        proof {
            assert(cells@.take(k + 1) =~= cells@.take(k as int).push(c));
            lemma_set_to_push(start, cells@.take(k as int), c, value);
        }
        k += 1;
    }
    assert(cells@.take(cells@.len() as int) =~= cells@);
}

/// Where a freehand stroke stands: none under way, or painting `value` with
/// `last` the cell it reached.
#[derive(Clone, Copy, PartialEq, Eq, Debug)]
pub enum Stroke {
    Idle,
    Painting { value: bool, last: Cell },
}

/// What the pointer did on the canvas, already turned into cells.
#[derive(Clone, Copy, PartialEq, Eq, Debug)]
pub enum PointerEvent {
    /// A drag starts on the cell.
    Press(Cell),
    /// A drag moves on to the cell.
    DragTo(Cell),
    /// A click without a drag on the cell.
    Click(Cell),
    /// The button is let go.
    Release,
}

/// One step of the Draw and Eraser tools. A drag paints a trail: live
/// unless it starts on a live cell (or the Eraser is on), in which case it
/// erases; each move continues from the last cell reached along a line
/// without gaps. A click toggles a cell, or erases it with the Eraser.
/// Letting go ends the stroke.
pub fn paint_step(board: &mut Board, erase: bool, stroke: Stroke, ev: PointerEvent) -> (next: Stroke)
    ensures
        final(board).generation_count() == old(board).generation_count(),
        final(board).births_count() == old(board).births_count(),
        final(board).deaths_count() == old(board).deaths_count(),
        match (ev, stroke) {
            (PointerEvent::Press(c), _) => {
                let v = !erase && !old(board).live_set().contains(c);
                &&& next == (Stroke::Painting { value: v, last: c })
                &&& final(board).live_set() == set_to(old(board).live_set(), seq![c], v)
            },
            (PointerEvent::DragTo(c), Stroke::Painting { value, last }) => {
                &&& next == (Stroke::Painting { value, last: c })
                &&& final(board).live_set() == if c == last {
                    old(board).live_set()
                } else {
                    set_to(old(board).live_set(), line_spec(last, c), value)
                }
            },
            (PointerEvent::DragTo(_), Stroke::Idle) => {
                &&& next == Stroke::Idle
                &&& final(board).live_set() == old(board).live_set()
            },
            (PointerEvent::Click(c), s) => {
                &&& next == s
                &&& final(board).live_set() == if erase || old(board).live_set().contains(c) {
                    old(board).live_set().remove(c)
                } else if in_world(c) {
                    old(board).live_set().insert(c)
                } else {
                    old(board).live_set()
                }
            },
            (PointerEvent::Release, _) => {
                &&& next == Stroke::Idle
                &&& final(board).live_set() == old(board).live_set()
            },
        },
{
    match ev {
        PointerEvent::Press(c) => {
            let value = !erase && !board.contains(c);
            let ghost before = board.live_set();
            board.set_cell(c, value);
            proof {
                lemma_set_to_push(before, Seq::<Cell>::empty(), c, value);
                assert(Seq::<Cell>::empty().to_set() =~= Set::<Cell>::empty());
                assert(set_to(before, Seq::<Cell>::empty(), value) =~= before);
                assert(Seq::<Cell>::empty().push(c) == seq![c]);
            }
            Stroke::Painting { value, last: c }
        },
        PointerEvent::DragTo(c) => match stroke {
            Stroke::Idle => Stroke::Idle,
            Stroke::Painting { value, last } => {
                if c.0 != last.0 || c.1 != last.1 {
                    let cells = line_cells(last, c);
                    paint_cells(board, &cells, value);
                }
                Stroke::Painting { value, last: c }
            },
        },
        PointerEvent::Click(c) => {
            if erase {
                board.set_cell(c, false);
            } else {
                board.toggle_cell(c);
            }
            stroke
        },
        PointerEvent::Release => Stroke::Idle,
    }
}

} // verus!

//! The mathematical meaning of one generation step, and the laws it obeys.
//!
//! A grid of `w` columns and `h` rows is a sequence of `w * h` occupancy
//! flags, cell `(x, y)` at index `y * w + x`. A step visits the cells from
//! the bottom row up, each row from left to right. Every full cell claims the
//! first of its candidate neighbours that is inside the grid, was empty before
//! the step and has not been claimed yet in this step; with none free it stays
//! where it is. Every visited cell has its own coin, indexed like the grid,
//! that orders the two diagonal candidates.

use vstd::prelude::*;
use vstd::arithmetic::div_mod::{lemma_fundamental_div_mod, lemma_fundamental_div_mod_converse};
use crate::gravity::Gravity;

verus! {

pub open spec fn cell_index(w: int, x: int, y: int) -> int {
    y * w + x
}

pub open spec fn in_grid(w: int, h: int, x: int, y: int) -> bool {
    0 <= x < w && 0 <= y < h
}

/// Column of the `k`-th visited cell.
pub open spec fn visit_x(w: int, k: int) -> int {
    k % w
}

/// Row of the `k`-th visited cell: rows are visited from the bottom up.
pub open spec fn visit_y(w: int, h: int, k: int) -> int {
    h - 1 - k / w
}

/// Index of the `k`-th visited cell.
pub open spec fn visit(w: int, h: int, k: int) -> int {
    cell_index(w, visit_x(w, k), visit_y(w, h, k))
}

/// The first candidate from position `i` on whose target `(x + dx, y + dy)`
/// lies in the grid and is empty both before the step (`cur`) and in the
/// generation built so far (`next`).
pub open spec fn first_free(
    cur: Seq<bool>,
    next: Seq<bool>,
    w: int,
    h: int,
    x: int,
    y: int,
    cands: Seq<(int, int)>,
    i: int,
) -> Option<(int, int)>
    decreases cands.len() - i,
{
    if i < 0 || i >= cands.len() {
        None
    } else {
        let tx = x + cands[i].0;
        let ty = y + cands[i].1;
        if in_grid(w, h, tx, ty) && !cur[cell_index(w, tx, ty)] && !next[cell_index(w, tx, ty)] {
            Some((tx, ty))
        } else {
            first_free(cur, next, w, h, x, y, cands, i + 1)
        }
    }
}

/// Where the full cell at `(x, y)` ends up: its first free candidate, else
/// its own place.
pub open spec fn destination(
    cur: Seq<bool>,
    next: Seq<bool>,
    w: int,
    h: int,
    g: Gravity,
    coin: bool,
    x: int,
    y: int,
) -> (int, int) {
    match first_free(cur, next, w, h, x, y, g.candidates(coin), 0) {
        Some(t) => t,
        None => (x, y),
    }
}

/// The next generation after the first `k` cells have been visited.
pub open spec fn after_visits(
    cur: Seq<bool>,
    w: int,
    h: int,
    g: Gravity,
    coins: Seq<bool>,
    k: nat,
) -> Seq<bool>
    decreases k,
{
    if k == 0 {
        Seq::new((w * h) as nat, |i: int| false)
    } else {
        let prev = after_visits(cur, w, h, g, coins, (k - 1) as nat);
        let s = visit(w, h, k - 1);
        if cur[s] {
            let t = destination(cur, prev, w, h, g, coins[s], visit_x(w, k - 1), visit_y(w, h, k - 1));
            prev.update(cell_index(w, t.0, t.1), true)
        } else {
            prev
        }
    }
}

/// The cell claimed by the `k`-th visited cell, if that cell is full.
pub open spec fn claim(cur: Seq<bool>, w: int, h: int, g: Gravity, coins: Seq<bool>, k: nat) -> (
    int,
    int,
) {
    let s = visit(w, h, k as int);
    destination(
        cur,
        after_visits(cur, w, h, g, coins, k),
        w,
        h,
        g,
        coins[s],
        visit_x(w, k as int),
        visit_y(w, h, k as int),
    )
}

/// The generation that follows `cur`.
pub open spec fn next_generation(cur: Seq<bool>, w: int, h: int, g: Gravity, coins: Seq<bool>) -> Seq<
    bool,
> {
    after_visits(cur, w, h, g, coins, (w * h) as nat)
}

/// A grid with its top two rows full and every other cell empty.
pub open spec fn initial_pattern(w: int, h: int) -> Seq<bool> {
    Seq::new((w * h) as nat, |i: int| i < 2 * w)
}

/// The indices of the full cells.
pub open spec fn full_cells(s: Seq<bool>) -> Set<int> {
    Set::new(|i: int| 0 <= i < s.len() && s[i])
}

/// The number of full cells.
pub open spec fn full_count(s: Seq<bool>) -> nat {
    full_cells(s).len()
}

/// A valid step input: a non-empty grid and one coin per cell.
pub open spec fn step_input(cur: Seq<bool>, w: int, h: int, coins: Seq<bool>) -> bool {
    &&& w > 0
    &&& h > 0
    &&& cur.len() == w * h
    &&& coins.len() == w * h
}

/// Cell `(x, y)` of a grid lies at an index inside the grid.
pub proof fn lemma_cell_index_in_range(w: int, h: int, x: int, y: int)
    requires
        in_grid(w, h, x, y),
    ensures
        0 <= cell_index(w, x, y) < w * h,
{
    assert(0 <= y * w + x < w * h) by (nonlinear_arith)
        requires
            0 <= x < w,
            0 <= y < h,
    ;
}

/// The `k`-th visited cell lies in the grid.
pub proof fn lemma_visit_in_grid(w: int, h: int, k: int)
    requires
        w > 0,
        h > 0,
        0 <= k < w * h,
    ensures
        in_grid(w, h, visit_x(w, k), visit_y(w, h, k)),
        0 <= visit(w, h, k) < w * h,
{
    lemma_fundamental_div_mod(k, w);
    let q = k / w;
    let r = k % w;
    assert(0 <= q < h) by (nonlinear_arith)
        requires
            k == w * q + r,
            0 <= r < w,
            0 <= k < w * h,
    ;
    lemma_cell_index_in_range(w, h, visit_x(w, k), visit_y(w, h, k));
}

/// Visiting order is its own inverse: the cell visited at position `k` sits
/// at index `i` exactly when the cell at index `k` is visited at position `i`.
pub proof fn lemma_visit_involution(w: int, h: int, k: int)
    requires
        w > 0,
        h > 0,
        0 <= k < w * h,
    ensures
        visit(w, h, visit(w, h, k)) == k,
{
    lemma_fundamental_div_mod(k, w);
    lemma_visit_in_grid(w, h, k);
    let q = k / w;
    let r = k % w;
    let i = visit(w, h, k);
    assert(i == (h - 1 - q) * w + r);
    lemma_fundamental_div_mod_converse(i, w, h - 1 - q, r);
    assert(visit(w, h, i) == (h - 1 - (h - 1 - q)) * w + r);
    assert(k == q * w + r) by (nonlinear_arith)
        requires
            k == w * q + r,
    ;
}

/// The full cells of `cur` whose visit comes before position `k`.
pub open spec fn visited_full(cur: Seq<bool>, w: int, h: int, k: int) -> Set<int> {
    Set::new(|i: int| 0 <= i < w * h && cur[i] && visit(w, h, i) < k)
}

/// Every candidate offset moves at most one cell along each axis.
pub proof fn lemma_candidates_unit(g: Gravity, coin: bool)
    ensures
        forall|j: int|
            0 <= j < g.candidates(coin).len() ==> -1 <= (#[trigger] g.candidates(coin)[j]).0 <= 1
                && -1 <= g.candidates(coin)[j].1 <= 1,
{
}

/// A free candidate found by the scan lies in the grid next to its source,
/// and is empty before the step and in the generation built so far.
pub proof fn lemma_first_free(
    cur: Seq<bool>,
    next: Seq<bool>,
    w: int,
    h: int,
    x: int,
    y: int,
    cands: Seq<(int, int)>,
    i: int,
)
    requires
        w > 0,
        cur.len() == w * h,
        next.len() == w * h,
        forall|j: int|
            0 <= j < cands.len() ==> -1 <= (#[trigger] cands[j]).0 <= 1 && -1 <= cands[j].1 <= 1,
    ensures
        first_free(cur, next, w, h, x, y, cands, i) matches Some(t) ==> {
            &&& in_grid(w, h, t.0, t.1)
            &&& -1 <= t.0 - x <= 1
            &&& -1 <= t.1 - y <= 1
            &&& 0 <= cell_index(w, t.0, t.1) < w * h
            &&& !cur[cell_index(w, t.0, t.1)]
            &&& !next[cell_index(w, t.0, t.1)]
        },
    decreases cands.len() - i,
{
    if 0 <= i < cands.len() {
        let tx = x + cands[i].0;
        let ty = y + cands[i].1;
        if in_grid(w, h, tx, ty) {
            lemma_cell_index_in_range(w, h, tx, ty);
        }
        lemma_first_free(cur, next, w, h, x, y, cands, i + 1);
    }
}

/// What the scan claims for a full visited cell lies in the grid next to the
/// source and is still unclaimed.
pub(crate) proof fn lemma_claim_free(cur: Seq<bool>, w: int, h: int, g: Gravity, coins: Seq<bool>, k: nat)
    requires
        step_input(cur, w, h, coins),
        k < w * h,
        cur[visit(w, h, k as int)],
        after_visits(cur, w, h, g, coins, k).len() == w * h,
        forall|i: int|
            0 <= i < w * h && #[trigger] after_visits(cur, w, h, g, coins, k)[i] ==> !cur[i] || visit(
                w,
                h,
                i,
            ) < k,
    ensures
        in_grid(w, h, claim(cur, w, h, g, coins, k).0, claim(cur, w, h, g, coins, k).1),
        -1 <= claim(cur, w, h, g, coins, k).0 - visit_x(w, k as int) <= 1,
        -1 <= claim(cur, w, h, g, coins, k).1 - visit_y(w, h, k as int) <= 1,
        0 <= cell_index(w, claim(cur, w, h, g, coins, k).0, claim(cur, w, h, g, coins, k).1) < w * h,
        !after_visits(cur, w, h, g, coins, k)[cell_index(
            w,
            claim(cur, w, h, g, coins, k).0,
            claim(cur, w, h, g, coins, k).1,
        )],
        claim(cur, w, h, g, coins, k) != (visit_x(w, k as int), visit_y(w, h, k as int))
            ==> !cur[cell_index(w, claim(cur, w, h, g, coins, k).0, claim(cur, w, h, g, coins, k).1)],
{
    let s = visit(w, h, k as int);
    let prev = after_visits(cur, w, h, g, coins, k);
    lemma_visit_in_grid(w, h, k as int);
    lemma_candidates_unit(g, coins[s]);
    let x = visit_x(w, k as int);
    let y = visit_y(w, h, k as int);
    lemma_first_free(cur, prev, w, h, x, y, g.candidates(coins[s]), 0);
    if first_free(cur, prev, w, h, x, y, g.candidates(coins[s]), 0) is None {
        lemma_visit_involution(w, h, k as int);
        assert(!prev[s]);
    }
}

/// The generation built after `k` visits: its length, which cells in it can
/// be full, and how many are.
pub(crate) proof fn lemma_after_visits(cur: Seq<bool>, w: int, h: int, g: Gravity, coins: Seq<bool>, k: nat)
    requires
        step_input(cur, w, h, coins),
        k <= w * h,
    ensures
        after_visits(cur, w, h, g, coins, k).len() == w * h,
        forall|i: int|
            0 <= i < w * h && #[trigger] after_visits(cur, w, h, g, coins, k)[i] ==> !cur[i] || visit(
                w,
                h,
                i,
            ) < k,
        full_cells(after_visits(cur, w, h, g, coins, k)).finite(),
        visited_full(cur, w, h, k as int).finite(),
        full_cells(after_visits(cur, w, h, g, coins, k)).len() == visited_full(
            cur,
            w,
            h,
            k as int,
        ).len(),
    decreases k,
{
    if k == 0 {
        assert(full_cells(after_visits(cur, w, h, g, coins, 0)) =~= Set::empty());
        assert(visited_full(cur, w, h, 0) =~= Set::empty()) by {
            assert forall|i: int| 0 <= i < w * h implies visit(w, h, i) >= 0 by {
                lemma_visit_in_grid(w, h, i);
            }
        }
    } else {
        let j = (k - 1) as nat;
        lemma_after_visits(cur, w, h, g, coins, j);
        let prev = after_visits(cur, w, h, g, coins, j);
        let s = visit(w, h, j as int);
        lemma_visit_in_grid(w, h, j as int);
        lemma_visit_involution(w, h, j as int);
        assert forall|i: int| 0 <= i < w * h && visit(w, h, i) == j implies i == s by {
            lemma_visit_involution(w, h, i);
        }
        if cur[s] {
            lemma_claim_free(cur, w, h, g, coins, j);
            let t = claim(cur, w, h, g, coins, j);
            let ti = cell_index(w, t.0, t.1);
            if t == (visit_x(w, j as int), visit_y(w, h, j as int)) {
                assert(ti == s);
            }
            assert(full_cells(prev.update(ti, true)) =~= full_cells(prev).insert(ti));
            assert(visited_full(cur, w, h, k as int) =~= visited_full(cur, w, h, j as int).insert(s));
        } else {
            assert(visited_full(cur, w, h, k as int) =~= visited_full(cur, w, h, j as int));
        }
    }
}

/// Once claimed, a cell stays claimed for the rest of the step.
proof fn lemma_claimed_stays(
    cur: Seq<bool>,
    w: int,
    h: int,
    g: Gravity,
    coins: Seq<bool>,
    k: nat,
    m: nat,
    i: int,
)
    requires
        step_input(cur, w, h, coins),
        k <= m <= w * h,
        0 <= i < w * h,
        after_visits(cur, w, h, g, coins, k)[i],
    ensures
        after_visits(cur, w, h, g, coins, m)[i],
    decreases m - k,
{
    if k < m {
        let j = (m - 1) as nat;
        lemma_claimed_stays(cur, w, h, g, coins, k, j, i);
        lemma_after_visits(cur, w, h, g, coins, j);
        lemma_visit_in_grid(w, h, j as int);
        if cur[visit(w, h, j as int)] {
            lemma_claim_free(cur, w, h, g, coins, j);
        }
    }
}

/// Conservation: a step neither creates nor destroys full cells.
pub proof fn lemma_step_conserves(cur: Seq<bool>, w: int, h: int, g: Gravity, coins: Seq<bool>)
    requires
        step_input(cur, w, h, coins),
    ensures
        full_cells(cur).finite(),
        full_count(next_generation(cur, w, h, g, coins)) == full_count(cur),
{
    lemma_after_visits(cur, w, h, g, coins, (w * h) as nat);
    assert(visited_full(cur, w, h, w * h) =~= full_cells(cur)) by {
        assert forall|i: int| 0 <= i < w * h implies visit(w, h, i) < w * h by {
            lemma_visit_in_grid(w, h, i);
        }
    }
}

/// Bounds: the next generation has the shape of the grid, and every full
/// cell moves to a cell of the grid at most one step away along each axis.
pub proof fn lemma_step_in_bounds(
    cur: Seq<bool>,
    w: int,
    h: int,
    g: Gravity,
    coins: Seq<bool>,
    k: nat,
)
    requires
        step_input(cur, w, h, coins),
        k < w * h,
        cur[visit(w, h, k as int)],
    ensures
        next_generation(cur, w, h, g, coins).len() == w * h,
        in_grid(w, h, claim(cur, w, h, g, coins, k).0, claim(cur, w, h, g, coins, k).1),
        -1 <= claim(cur, w, h, g, coins, k).0 - visit_x(w, k as int) <= 1,
        -1 <= claim(cur, w, h, g, coins, k).1 - visit_y(w, h, k as int) <= 1,
{
    lemma_after_visits(cur, w, h, g, coins, (w * h) as nat);
    lemma_after_visits(cur, w, h, g, coins, k);
    lemma_claim_free(cur, w, h, g, coins, k);
}

/// No collision: two full cells visited in one step never claim the same
/// cell of the next generation.
pub proof fn lemma_step_claims_distinct(
    cur: Seq<bool>,
    w: int,
    h: int,
    g: Gravity,
    coins: Seq<bool>,
    j: nat,
    k: nat,
)
    requires
        step_input(cur, w, h, coins),
        j < k < w * h,
        cur[visit(w, h, j as int)],
        cur[visit(w, h, k as int)],
    ensures
        claim(cur, w, h, g, coins, j) != claim(cur, w, h, g, coins, k),
{
    lemma_after_visits(cur, w, h, g, coins, j);
    lemma_after_visits(cur, w, h, g, coins, k);
    lemma_claim_free(cur, w, h, g, coins, j);
    lemma_claim_free(cur, w, h, g, coins, k);
    let tj = claim(cur, w, h, g, coins, j);
    let ij = cell_index(w, tj.0, tj.1);
    assert(after_visits(cur, w, h, g, coins, j + 1)[ij]);
    lemma_claimed_stays(cur, w, h, g, coins, j + 1, k, ij);
}

/// A full grid is a fixed point of the step.
pub proof fn lemma_full_grid_fixed(cur: Seq<bool>, w: int, h: int, g: Gravity, coins: Seq<bool>)
    requires
        step_input(cur, w, h, coins),
        forall|i: int| 0 <= i < w * h ==> #[trigger] cur[i],
    ensures
        next_generation(cur, w, h, g, coins) == cur,
{
    lemma_full_grid_prefix(cur, w, h, g, coins, (w * h) as nat);
    assert forall|i: int| 0 <= i < w * h implies visit(w, h, i) < w * h by {
        lemma_visit_in_grid(w, h, i);
    }
    assert(next_generation(cur, w, h, g, coins) =~= cur);
}

/// On a full grid, the cells claimed after `k` visits are exactly the
/// visited ones.
proof fn lemma_full_grid_prefix(cur: Seq<bool>, w: int, h: int, g: Gravity, coins: Seq<bool>, k: nat)
    requires
        step_input(cur, w, h, coins),
        forall|i: int| 0 <= i < w * h ==> #[trigger] cur[i],
        k <= w * h,
    ensures
        after_visits(cur, w, h, g, coins, k).len() == w * h,
        forall|i: int|
            0 <= i < w * h ==> #[trigger] after_visits(cur, w, h, g, coins, k)[i] == (visit(w, h, i)
                < k),
    decreases k,
{
    lemma_after_visits(cur, w, h, g, coins, k);
    if k == 0 {
        assert forall|i: int| 0 <= i < w * h implies visit(w, h, i) >= 0 by {
            lemma_visit_in_grid(w, h, i);
        }
    } else {
        let j = (k - 1) as nat;
        lemma_full_grid_prefix(cur, w, h, g, coins, j);
        lemma_visit_in_grid(w, h, j as int);
        lemma_visit_involution(w, h, j as int);
        lemma_claim_free(cur, w, h, g, coins, j);
        let s = visit(w, h, j as int);
        let t = claim(cur, w, h, g, coins, j);
        assert(cell_index(w, t.0, t.1) == s);
        assert forall|i: int| 0 <= i < w * h && visit(w, h, i) == j implies i == s by {
            lemma_visit_involution(w, h, i);
        }
    }
}

} // verus!

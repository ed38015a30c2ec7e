//! The simulation: the grid of cells, the gravity vector, and the step that
//! computes the next generation.

use vstd::prelude::*;
use crate::gravity::Gravity;
use crate::model::{
    after_visits, cell_index, first_free, in_grid, initial_pattern, lemma_after_visits,
    lemma_candidates_unit, lemma_cell_index_in_range, lemma_claim_free, lemma_visit_in_grid,
    next_generation, visit, visit_x, visit_y,
};

verus! {

/// Why a simulation could not be created.
#[derive(Clone, Copy, Debug, PartialEq, Eq, Structural)]
pub enum GridError {
    /// The width or the height is zero.
    ZeroDimension,
}

/// A falling-sand grid and the gravity that drives it.
pub struct Simulation {
    pub width: usize,
    pub height: usize,
    /// One flag per cell, cell `(x, y)` at index `y * width + x`; `true`
    /// marks a full cell.
    pub density: Vec<bool>,
    pub gravity: Gravity,
}

/// Relies on rand::random::<bool>: one fair coin flip from the thread-local
/// generator. Nothing is known of the outcome.
#[verifier::external_body]
fn flip_coin() -> (r: bool) {
    rand::random::<bool>()
}

/// Writes the initial pattern over `cells`: the first two rows of a grid
/// `width` cells wide are full, the rest empty.
fn write_initial(cells: &mut Vec<bool>, width: usize)
    requires
        old(cells).len() <= isize::MAX,
        width <= isize::MAX,
    ensures
        final(cells).len() == old(cells).len(),
        forall|i: int| 0 <= i < final(cells).len() ==> #[trigger] final(cells)@[i] == (i < 2 * width),
{
    let limit: usize = 2 * width;
    let mut i: usize = 0;
    while i < cells.len()
        invariant
            limit == 2 * width,
            cells.len() == old(cells).len(),
            forall|j: int| 0 <= j < i ==> #[trigger] cells@[j] == (j < 2 * width),
        decreases cells.len() - i,
    {
        cells.set(i, i < limit);
        i += 1;
    }
}

impl Simulation {
    /// A well-formed simulation: a non-empty grid whose cell buffer has one
    /// flag per cell and whose size an allocation can hold.
    pub open spec fn wf(&self) -> bool {
        &&& self.width > 0
        &&& self.height > 0
        &&& self.width * self.height <= isize::MAX
        &&& self.density@.len() == self.width * self.height
    }

    /// A grid of `width` by `height` cells with its top two rows full and
    /// gravity pointing down. A zero width or height is refused.
    pub fn new(width: usize, height: usize) -> (r: Result<Simulation, GridError>)
        requires
            width * height <= isize::MAX,
        ensures
            r is Ok <==> (width > 0 && height > 0),
            r matches Ok(sim) ==> {
                &&& sim.wf()
                &&& sim.width == width
                &&& sim.height == height
                &&& sim.density@ == initial_pattern(width as int, height as int)
                &&& sim.gravity == Gravity { x: 0, y: 1 }
            },
            r matches Err(e) ==> e == GridError::ZeroDimension,
    {
        if width == 0 || height == 0 {
            return Err(GridError::ZeroDimension);
        }
        assert(width <= width * height) by (nonlinear_arith)
            requires
                height > 0,
        ;
        let mut density: Vec<bool> = vec![false; width * height];
        write_initial(&mut density, width);
        assert(density@ =~= initial_pattern(width as int, height as int));
        Ok(Simulation { width, height, density, gravity: Gravity::new(0, 1) })
    }

    /// Restores the initial pattern: the top two rows full, every other cell
    /// empty, whatever the grid held before.
    pub fn reset(&mut self)
        requires
            old(self).wf(),
        ensures
            final(self).wf(),
            final(self).width == old(self).width,
            final(self).height == old(self).height,
            final(self).gravity == old(self).gravity,
            final(self).density@ == initial_pattern(old(self).width as int, old(self).height as int),
    {
        assert(self.width <= self.width * self.height) by (nonlinear_arith)
            requires
                self.height > 0,
        ;
        write_initial(&mut self.density, self.width);
        assert(self.density@ =~= initial_pattern(self.width as int, self.height as int));
    }

    /// Replaces the gravity vector; the cells are untouched.
    pub fn set_gravity(&mut self, gravity: Gravity)
        ensures
            final(self).gravity == gravity,
            final(self).width == old(self).width,
            final(self).height == old(self).height,
            final(self).density == old(self).density,
    {
        self.gravity = gravity;
    }

    /// Whether `(x, y)` is a cell of the grid.
    pub fn in_bounds(&self, x: isize, y: isize) -> (r: bool)
        ensures
            r == in_grid(self.width as int, self.height as int, x as int, y as int),
    {
        x >= 0 && y >= 0 && (x as usize) < self.width && (y as usize) < self.height
    }

    /// Whether the cell at `(x, y)` is full.
    pub fn cell(&self, x: usize, y: usize) -> (r: bool)
        requires
            self.wf(),
            x < self.width,
            y < self.height,
        ensures
            r == self.density@[cell_index(self.width as int, x as int, y as int)],
    {
        proof {
            lemma_cell_index_in_range(self.width as int, self.height as int, x as int, y as int);
        }
        self.density[y * self.width + x]
    }

    /// The grid's width and height.
    pub fn dimensions(&self) -> (r: (usize, usize))
        ensures
            r == (self.width, self.height),
    {
        (self.width, self.height)
    }

    /// The index of the first candidate target of the full cell at `(x, y)`
    /// that is in the grid, empty in this generation and not yet claimed in
    /// `next`.
    fn free_target(&self, next: &Vec<bool>, x: usize, y: usize, coin: bool) -> (r: Option<usize>)
        requires
            self.wf(),
            next@.len() == self.width * self.height,
            x < self.width,
            y < self.height,
        ensures
            first_free(
                self.density@,
                next@,
                self.width as int,
                self.height as int,
                x as int,
                y as int,
                self.gravity.candidates(coin),
                0,
            ) matches Some(t) ==> r == Some(cell_index(self.width as int, t.0, t.1) as usize),
            first_free(
                self.density@,
                next@,
                self.width as int,
                self.height as int,
                x as int,
                y as int,
                self.gravity.candidates(coin),
                0,
            ) is None ==> r is None,
    {
        let ghost w = self.width as int;
        let ghost h = self.height as int;
        let ghost cands = self.gravity.candidates(coin);
        assert(w <= w * h && h <= w * h) by (nonlinear_arith)
            requires
                w > 0,
                h > 0,
        ;
        let offsets = self.gravity.neighbor_offsets(coin);
        proof {
            lemma_candidates_unit(self.gravity, coin);
        }
        let mut i: usize = 0;
        while i < offsets.len()
            invariant
                self.wf(),
                w == self.width,
                h == self.height,
                w <= isize::MAX,
                h <= isize::MAX,
                cands == self.gravity.candidates(coin),
                next@.len() == w * h,
                x < w,
                y < h,
                i <= offsets@.len(),
                offsets@.len() == cands.len(),
                forall|j: int|
                    0 <= j < offsets@.len() ==> (#[trigger] offsets@[j]).0 as int == cands[j].0
                        && offsets@[j].1 as int == cands[j].1,
                forall|j: int|
                    0 <= j < cands.len() ==> -1 <= (#[trigger] cands[j]).0 <= 1 && -1 <= cands[j].1
                        <= 1,
                first_free(self.density@, next@, w, h, x as int, y as int, cands, 0) == first_free(
                    self.density@,
                    next@,
                    w,
                    h,
                    x as int,
                    y as int,
                    cands,
                    i as int,
                ),
            decreases offsets@.len() - i,
        {
            let (dx, dy) = offsets[i];
            let nx = x as isize + dx;
            let ny = y as isize + dy;
            if self.in_bounds(nx, ny) {
                proof {
                    lemma_cell_index_in_range(w, h, nx as int, ny as int);
                }
                let nidx = (ny as usize) * self.width + (nx as usize);
                if !self.density[nidx] && !next[nidx] {
                    return Some(nidx);
                }
            }
            i += 1;
        }
        None
    }

    /// The generation that follows the current one, with `coins[i]` ordering
    /// the diagonal candidates of the cell at index `i`.
    fn next_cells(&self, coins: &Vec<bool>) -> (r: Vec<bool>)
        requires
            self.wf(),
            coins@.len() == self.width * self.height,
        ensures
            r@ == next_generation(
                self.density@,
                self.width as int,
                self.height as int,
                self.gravity,
                coins@,
            ),
    {
        let w = self.width;
        let h = self.height;
        let n = w * h;
        let ghost cur = self.density@;
        let ghost g = self.gravity;
        let mut next: Vec<bool> = vec![false; n];
        assert(next@ =~= after_visits(cur, w as int, h as int, g, coins@, 0));
        let mut k: usize = 0;
        while k < n
            invariant
                self.wf(),
                w == self.width,
                h == self.height,
                n == w * h,
                cur == self.density@,
                g == self.gravity,
                coins@.len() == n,
                k <= n,
                next@ == after_visits(cur, w as int, h as int, g, coins@, k as nat),
            decreases n - k,
        {
            proof {
                lemma_visit_in_grid(w as int, h as int, k as int);
                lemma_after_visits(cur, w as int, h as int, g, coins@, k as nat);
            }
            let x = k % w;
            let y = h - 1 - k / w;
            let idx = y * w + x;
            assert(idx == visit(w as int, h as int, k as int));
            if self.density[idx] {
                proof {
                    lemma_claim_free(cur, w as int, h as int, g, coins@, k as nat);
                }
                match self.free_target(&next, x, y, coins[idx]) {
                    Some(t) => {
                        next.set(t, true);
                    },
                    None => {
                        next.set(idx, true);
                    },
                }
            }
            k += 1;
        }
        next
    }

    /// Advances one generation, with `coins[i]` deciding which diagonal the
    /// full cell at index `i` tries first.
    pub fn step_with_coins(&mut self, coins: &Vec<bool>)
        requires
            old(self).wf(),
            coins@.len() == old(self).width * old(self).height,
        ensures
            final(self).wf(),
            final(self).width == old(self).width,
            final(self).height == old(self).height,
            final(self).gravity == old(self).gravity,
            final(self).density@ == next_generation(
                old(self).density@,
                old(self).width as int,
                old(self).height as int,
                old(self).gravity,
                coins@,
            ),
    {
        let next = self.next_cells(coins);
        proof {
            lemma_after_visits(
                self.density@,
                self.width as int,
                self.height as int,
                self.gravity,
                coins@,
                (self.width * self.height) as nat,
            );
        }
        self.density = next;
    }

    /// Advances one generation, with a fair coin per cell deciding which
    /// diagonal a full cell tries first.
    pub fn step(&mut self)
        requires
            old(self).wf(),
        ensures
            final(self).wf(),
            final(self).width == old(self).width,
            final(self).height == old(self).height,
            final(self).gravity == old(self).gravity,
            exists|coins: Seq<bool>|
                coins.len() == old(self).width * old(self).height && final(self).density@
                    == #[trigger] next_generation(
                    old(self).density@,
                    old(self).width as int,
                    old(self).height as int,
                    old(self).gravity,
                    coins,
                ),
    {
        let n = self.width * self.height;
        let mut coins: Vec<bool> = Vec::new();
        while coins.len() < n
            invariant
                coins@.len() <= n,
            decreases n - coins@.len(),
        {
            coins.push(flip_coin());
        }
        self.step_with_coins(&coins);
    }
} // impl Simulation

} // verus!

//! The gravity vector and the neighbour offsets that it selects.

use vstd::prelude::*;

verus! {

/// A gravity vector. Only the sign of each component and which of the two
/// has the larger magnitude affect the simulation.
#[derive(Clone, Copy, Debug, PartialEq, Eq, Structural)]
pub struct Gravity {
    pub x: i32,
    pub y: i32,
}

/// Magnitude of an integer.
pub open spec fn magnitude(v: int) -> int {
    if v < 0 {
        -v
    } else {
        v
    }
}

/// A zero component counts as pointing in the positive direction.
pub open spec fn direction_of(v: int) -> int {
    if v >= 0 {
        1
    } else {
        -1
    }
}

impl Gravity {
    pub fn new(x: i32, y: i32) -> (r: Gravity)
        ensures
            r.x == x,
            r.y == y,
    {
        Gravity { x, y }
    }

    pub open spec fn sign_x(self) -> int {
        direction_of(self.x as int)
    }

    pub open spec fn sign_y(self) -> int {
        direction_of(self.y as int)
    }

    /// Vertical moves come first when the vertical component is at least as
    /// strong as the horizontal one.
    pub open spec fn vertical_dominant(self) -> bool {
        magnitude(self.y as int) >= magnitude(self.x as int)
    }

    /// The neighbour offsets `(dx, dy)` that a full cell tries, in order.
    /// `coin` decides which of the two diagonals comes first.
    pub open spec fn candidates(self, coin: bool) -> Seq<(int, int)> {
        let sx = self.sign_x();
        let sy = self.sign_y();
        if self.vertical_dominant() {
            let d1 = (sx, sy);
            let d2 = (-sx, sy);
            if coin {
                seq![(0, sy), d1, d2]
            } else {
                seq![(0, sy), d2, d1]
            }
        } else {
            let d1 = (sx, sy);
            let d2 = (sx, -sy);
            if coin {
                seq![(sx, 0), d1, d2, (0, sy)]
            } else {
                seq![(sx, 0), d2, d1, (0, sy)]
            }
        }
    }

    /// Whether vertical moves are tried first.
    pub fn is_vertical_dominant(&self) -> (r: bool)
        ensures
            r == self.vertical_dominant(),
    {
        let ax: i64 = if self.x < 0 {
            -(self.x as i64)
        } else {
            self.x as i64
        };
        let ay: i64 = if self.y < 0 {
            -(self.y as i64)
        } else {
            self.y as i64
        };
        ay >= ax
    }

    /// The neighbour offsets that a full cell tries, in order.
    pub fn neighbor_offsets(&self, coin: bool) -> (r: Vec<(isize, isize)>)
        ensures
            r@.len() == self.candidates(coin).len(),
            forall|i: int|
                0 <= i < r@.len() ==> (#[trigger] r@[i]).0 as int == self.candidates(coin)[i].0
                    && r@[i].1 as int == self.candidates(coin)[i].1,
    {
        let sign_x: isize = if self.x >= 0 {
            1
        } else {
            -1
        };
        let sign_y: isize = if self.y >= 0 {
            1
        } else {
            -1
        };
        let mut offsets: Vec<(isize, isize)> = Vec::new();
        if self.is_vertical_dominant() {
            let diag1 = (sign_x, sign_y);
            let diag2 = (-sign_x, sign_y);
            offsets.push((0, sign_y));
            if coin {
                offsets.push(diag1);
                offsets.push(diag2);
            } else {
                offsets.push(diag2);
                offsets.push(diag1);
            }
        } else {
            let diag1 = (sign_x, sign_y);
            let diag2 = (sign_x, -sign_y);
            offsets.push((sign_x, 0));
            if coin {
                offsets.push(diag1);
                offsets.push(diag2);
            } else {
                offsets.push(diag2);
                offsets.push(diag1);
            }
            offsets.push((0, sign_y));
        }
        offsets
    }
}

} // verus!

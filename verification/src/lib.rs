use vstd::prelude::*;

pub mod grid;
pub mod moves;
pub mod solver;

verus! {

/// Shape of the rectangular three-dimensional board: the lattice holds
/// `x_dim * y_dim * z_dim` cells, one bit of a `u128` state per cell.
#[derive(Clone, Copy, Debug)]
pub struct Board {
    pub x_dim: u32,
    pub y_dim: u32,
    pub z_dim: u32,
}

impl Board {
    /// A usable board: every axis has at least one cell, and the cell count
    /// fits in the 128 bits of a state word.
    pub open spec fn wf(self) -> bool {
        &&& 1 <= self.x_dim
        &&& 1 <= self.y_dim
        &&& 1 <= self.z_dim
        &&& (self.x_dim as int) * (self.y_dim as int) * (self.z_dim as int) <= 128
    }

    /// Total number of cells on the board.
    pub open spec fn tot(self) -> int {
        (self.x_dim as int) * (self.y_dim as int) * (self.z_dim as int)
    }

    /// Builds a board, rejecting shapes with an empty axis or more cells than
    /// a 128-bit state word can hold.
    pub fn new(x_dim: u32, y_dim: u32, z_dim: u32) -> (r: Option<Board>)
        ensures
            match r {
                Some(b) => {
                    &&& b == (Board { x_dim, y_dim, z_dim })
                    &&& b.wf()
                },
                None => !(Board { x_dim, y_dim, z_dim }).wf(),
            },
    {
        if x_dim == 0 || y_dim == 0 || z_dim == 0 {
            None
        } else if x_dim > 128 || y_dim > 128 || z_dim > 128 {
            proof {
                assert((x_dim as int) * (y_dim as int) * (z_dim as int) > 128)
                    by (nonlinear_arith)
                    requires
                        1 <= x_dim,
                        1 <= y_dim,
                        1 <= z_dim,
                        x_dim > 128 || y_dim > 128 || z_dim > 128,
                ;
            }
            None
        } else {
            proof {
                assert((x_dim as int) * (y_dim as int) <= 16384
                    && (x_dim as int) * (y_dim as int) * (z_dim as int) <= 2097152)
                    by (nonlinear_arith)
                    requires
                        x_dim <= 128,
                        y_dim <= 128,
                        z_dim <= 128,
                ;
            }
            let cells: u32 = x_dim * y_dim * z_dim;
            if cells <= 128 {
                Some(Board { x_dim, y_dim, z_dim })
            } else {
                None
            }
        }
    }

    /// Total number of cells, as a run-time value.
    pub fn cells(&self) -> (r: u32)
        requires
            self.wf(),
        ensures
            r as int == self.tot(),
            1 <= r <= 128,
    {
        proof {
            assert((self.x_dim as int) * (self.y_dim as int) <= 128
                && 1 <= (self.x_dim as int) * (self.y_dim as int) * (self.z_dim as int))
                by (nonlinear_arith)
                requires
                    1 <= self.x_dim,
                    1 <= self.y_dim,
                    1 <= self.z_dim,
                    (self.x_dim as int) * (self.y_dim as int) * (self.z_dim as int) <= 128,
            ;
        }
        self.x_dim * self.y_dim * self.z_dim
    }
}

/// A usable board has between one and 128 cells.
pub proof fn lemma_tot_bounds(b: Board)
    requires
        b.wf(),
    ensures
        1 <= b.tot() <= 128,
{
    assert(1 <= (b.x_dim as int) * (b.y_dim as int) * (b.z_dim as int)) by (nonlinear_arith)
        requires
            1 <= b.x_dim,
            1 <= b.y_dim,
            1 <= b.z_dim,
    ;
}

} // verus!

use vstd::prelude::*;
use vstd::arithmetic::div_mod::{
    lemma_div_denominator, lemma_div_pos_is_pos, lemma_fundamental_div_mod, lemma_mod_bound,
    lemma_multiply_divide_lt,
};
use crate::Board;

verus! {

/// Coordinate of the cell with the given block index, by mixed-radix
/// decomposition: x runs fastest, then y, then z.
pub open spec fn coord_at(b: Board, i: int) -> (int, int, int) {
    (
        i % (b.x_dim as int),
        (i / (b.x_dim as int)) % (b.y_dim as int),
        i / ((b.x_dim as int) * (b.y_dim as int)),
    )
}

/// Block index of a coordinate: the inverse of `coord_at` on the board.
pub open spec fn index_of(b: Board, c: (int, int, int)) -> int {
    c.0 + (b.x_dim as int) * (c.1 + (b.y_dim as int) * c.2)
}

/// `a` dominates `c` when every component of `a` is at least the matching
/// component of `c`.
pub open spec fn dominates(a: (int, int, int), c: (int, int, int)) -> bool {
    a.0 >= c.0 && a.1 >= c.1 && a.2 >= c.2
}

/// Every component of a cell's coordinate lies inside the board's bounds.
pub proof fn lemma_coord_bounds(b: Board, i: int)
    requires
        b.wf(),
        0 <= i < b.tot(),
    ensures
        0 <= coord_at(b, i).0 < b.x_dim,
        0 <= coord_at(b, i).1 < b.y_dim,
        0 <= coord_at(b, i).2 < b.z_dim,
{
    let x = b.x_dim as int;
    let y = b.y_dim as int;
    let z = b.z_dim as int;
    lemma_mod_bound(i, x);
    lemma_mod_bound(i / x, y);
    assert(x * y >= 1) by (nonlinear_arith)
        requires
            x >= 1,
            y >= 1,
    ;
    lemma_div_pos_is_pos(i, x * y);
    lemma_multiply_divide_lt(i, x * y, z);
}

/// `index_of` undoes `coord_at`: the two maps form a bijection between block
/// indices and in-bounds coordinates.
pub proof fn lemma_coord_roundtrip(b: Board, i: int)
    requires
        b.wf(),
        0 <= i < b.tot(),
    ensures
        index_of(b, coord_at(b, i)) == i,
{
    let x = b.x_dim as int;
    let y = b.y_dim as int;
    let cx = i % x;
    let q = i / x;
    let cy = q % y;
    let cz = i / (x * y);
    lemma_div_denominator(i, x, y);
    assert(cz == q / y);
    lemma_fundamental_div_mod(i, x);
    lemma_fundamental_div_mod(q, y);
    assert(cx + x * (cy + y * cz) == i) by (nonlinear_arith)
        requires
            i == x * q + cx,
            q == y * cz + cy,
    ;
}

/// An in-bounds coordinate has an in-bounds block index.
pub proof fn lemma_index_of_bounds(b: Board, c: (int, int, int))
    requires
        b.wf(),
        0 <= c.0 < b.x_dim,
        0 <= c.1 < b.y_dim,
        0 <= c.2 < b.z_dim,
    ensures
        0 <= index_of(b, c) < b.tot(),
{
    let x = b.x_dim as int;
    let y = b.y_dim as int;
    let z = b.z_dim as int;
    assert(0 <= c.0 + x * (c.1 + y * c.2) < x * y * z) by (nonlinear_arith)
        requires
            1 <= x,
            1 <= y,
            1 <= z,
            0 <= c.0 < x,
            0 <= c.1 < y,
            0 <= c.2 < z,
    ;
}

/// Converts a block index to its lattice coordinate.
pub fn index_to_coord(b: &Board, i: u32) -> (r: (u32, u32, u32))
    requires
        b.wf(),
        (i as int) < b.tot(),
    ensures
        (r.0 as int, r.1 as int, r.2 as int) == coord_at(*b, i as int),
        r.0 < b.x_dim,
        r.1 < b.y_dim,
        r.2 < b.z_dim,
{
    proof {
        lemma_coord_bounds(*b, i as int);
        assert((b.x_dim as int) * (b.y_dim as int) <= 128) by (nonlinear_arith)
            requires
                1 <= b.x_dim,
                1 <= b.y_dim,
                1 <= b.z_dim,
                (b.x_dim as int) * (b.y_dim as int) * (b.z_dim as int) <= 128,
        ;
    }
    let x = i % b.x_dim;
    let y = (i / b.x_dim) % b.y_dim;
    let z = i / (b.x_dim * b.y_dim);
    (x, y, z)
}

/// Componentwise comparison of two coordinates.
pub fn coord_ge(a: (u32, u32, u32), c: (u32, u32, u32)) -> (r: bool)
    ensures
        r == dominates(
            (a.0 as int, a.1 as int, a.2 as int),
            (c.0 as int, c.1 as int, c.2 as int),
        ),
{
    a.0 >= c.0 && a.1 >= c.1 && a.2 >= c.2
}

} // verus!

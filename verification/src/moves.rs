use vstd::prelude::*;
use crate::Board;
use crate::grid::{
    coord_at, coord_ge, dominates, index_of, index_to_coord, lemma_coord_bounds,
    lemma_coord_roundtrip,
};

verus! {

/// Bit `i` of the state word is set: block `i` is on the board.
pub open spec fn has_block(s: u128, i: u32) -> bool {
    s & (1u128 << i) != 0
}

/// Setting one bit leaves every other bit as it was.
proof fn lemma_or_bit(m: u128, i: u32, j: u32)
    by (bit_vector)
    requires
        i < 128,
        j < 128,
    ensures
        ((m | (1u128 << i)) & (1u128 << j) != 0) <==> ((m & (1u128 << j) != 0) || i == j),
{
}

/// The zero word has no bit set.
proof fn lemma_zero_bit(j: u32)
    by (bit_vector)
    requires
        j < 128,
    ensures
        0u128 & (1u128 << j) == 0,
{
}

/// Clearing the bits of a mask: a bit survives exactly when it was set and
/// is not in the mask.
proof fn lemma_and_not_bit(s: u128, m: u128, j: u32)
    by (bit_vector)
    requires
        j < 128,
    ensures
        ((s & !m) & (1u128 << j) != 0) <==> ((s & (1u128 << j) != 0) && !(m & (1u128 << j)
            != 0)),
{
}

/// Clearing a bit that was set makes the word strictly smaller.
pub proof fn lemma_clear_decreases(s: u128, m: u128, i: u32)
    by (bit_vector)
    requires
        i < 128,
        s & (1u128 << i) != 0,
        m & (1u128 << i) != 0,
    ensures
        s & !m < s,
{
}

/// Removal mask restricted to the blocks with index below `n`.
pub open spec fn mask_upto(b: Board, chosen: (int, int, int), n: int) -> u128
    decreases n,
{
    if n <= 0 {
        0u128
    } else if dominates(coord_at(b, n - 1), chosen) {
        mask_upto(b, chosen, n - 1) | (1u128 << ((n - 1) as u32))
    } else {
        mask_upto(b, chosen, n - 1)
    }
}

/// The removal mask of a chosen coordinate: one bit per block whose
/// coordinate dominates the chosen one.
pub open spec fn mask_of(b: Board, chosen: (int, int, int)) -> u128 {
    mask_upto(b, chosen, b.tot())
}

proof fn lemma_mask_upto_bits(b: Board, chosen: (int, int, int), n: int)
    requires
        0 <= n <= 128,
    ensures
        forall|j: u32|
            j < 128 ==> (#[trigger] has_block(mask_upto(b, chosen, n), j) <==> (j < n
                && dominates(coord_at(b, j as int), chosen))),
    decreases n,
{
    if n <= 0 {
        assert forall|j: u32| j < 128 implies !has_block(mask_upto(b, chosen, n), j) by {
            lemma_zero_bit(j);
        }
    } else {
        lemma_mask_upto_bits(b, chosen, n - 1);
        let m = mask_upto(b, chosen, n - 1);
        assert forall|j: u32| j < 128 implies (#[trigger] has_block(mask_upto(b, chosen, n), j)
            <==> (j < n && dominates(coord_at(b, j as int), chosen))) by {
            assert(has_block(m, j) <==> (j < n - 1 && dominates(coord_at(b, j as int), chosen)));
            if dominates(coord_at(b, n - 1), chosen) {
                assert(mask_upto(b, chosen, n) == (m | (1u128 << ((n - 1) as u32))));
                lemma_or_bit(m, (n - 1) as u32, j);
            } else {
                assert(mask_upto(b, chosen, n) == m);
            }
        }
    }
}

/// Which bits the removal mask holds: exactly the on-board blocks whose
/// coordinate dominates the chosen one.
pub proof fn lemma_mask_bits(b: Board, chosen: (int, int, int))
    requires
        b.wf(),
    ensures
        forall|j: u32|
            j < 128 ==> (#[trigger] has_block(mask_of(b, chosen), j) <==> (j < b.tot()
                && dominates(coord_at(b, j as int), chosen))),
{
    crate::lemma_tot_bounds(b);
    lemma_mask_upto_bits(b, chosen, b.tot());
}

/// Computes the removal mask for a chosen coordinate.
pub fn removal_mask(b: &Board, chosen: (u32, u32, u32)) -> (m: u128)
    requires
        b.wf(),
    ensures
        m == mask_of(*b, (chosen.0 as int, chosen.1 as int, chosen.2 as int)),
{
    let ghost c = (chosen.0 as int, chosen.1 as int, chosen.2 as int);
    let tot = b.cells();
    let mut mask: u128 = 0;
    let mut i: u32 = 0;
    while i < tot
        invariant
            b.wf(),
            c == (chosen.0 as int, chosen.1 as int, chosen.2 as int),
            tot as int == b.tot(),
            tot <= 128,
            i <= tot,
            mask == mask_upto(*b, c, i as int),
        decreases tot - i,
    {
        let coord = index_to_coord(b, i);
        if coord_ge(coord, chosen) {
            mask = mask | (1u128 << i);
        }
        i = i + 1;
    }
    mask
}

/// Block `i` may be chosen from state `s`: it is on the board and present,
/// it is not the poison block, and its removal mask spares the poison block.
pub open spec fn move_allowed(b: Board, s: u128, i: u32) -> bool {
    &&& (i as int) < b.tot()
    &&& has_block(s, i)
    &&& coord_at(b, i as int) != (0int, 0int, 0int)
    &&& !has_block(mask_of(b, coord_at(b, i as int)), 0)
}

/// The state reached by choosing block `i`: every bit of its removal mask
/// cleared.
pub open spec fn child_state(b: Board, s: u128, i: u32) -> u128 {
    s & !mask_of(b, coord_at(b, i as int))
}

/// The coordinate of block `i`, as machine words.
pub open spec fn coord_u32(b: Board, i: u32) -> (u32, u32, u32) {
    (
        coord_at(b, i as int).0 as u32,
        coord_at(b, i as int).1 as u32,
        coord_at(b, i as int).2 as u32,
    )
}

/// The move emitted for block `i`: its coordinate and the resulting state.
pub open spec fn mv(b: Board, s: u128, i: u32) -> ((u32, u32, u32), u128) {
    (coord_u32(b, i), child_state(b, s, i))
}

/// The block index a move entry speaks of, recovered from its coordinate.
pub open spec fn entry_index(b: Board, e: ((u32, u32, u32), u128)) -> int {
    index_of(b, (e.0.0 as int, e.0.1 as int, e.0.2 as int))
}

/// The legal moves among the blocks with index below `n`, in index order.
pub open spec fn moves_upto(b: Board, s: u128, n: int) -> Seq<((u32, u32, u32), u128)>
    decreases n,
{
    if n <= 0 {
        Seq::empty()
    } else if move_allowed(b, s, (n - 1) as u32) {
        moves_upto(b, s, n - 1).push(mv(b, s, (n - 1) as u32))
    } else {
        moves_upto(b, s, n - 1)
    }
}

/// All legal moves of a state, in increasing block-index order.
pub open spec fn all_moves(b: Board, s: u128) -> Seq<((u32, u32, u32), u128)> {
    moves_upto(b, s, b.tot())
}

/// A move entry names the block its coordinate decodes to.
pub proof fn lemma_mv_index(b: Board, s: u128, i: u32)
    requires
        b.wf(),
        (i as int) < b.tot(),
    ensures
        entry_index(b, mv(b, s, i)) == i,
{
    lemma_coord_bounds(b, i as int);
    lemma_coord_roundtrip(b, i as int);
}

/// An entry of `moves_upto` is the move of the block its coordinate decodes
/// to, and that block may be chosen.
pub open spec fn entry_ok(b: Board, s: u128, n: int, e: ((u32, u32, u32), u128)) -> bool {
    &&& 0 <= entry_index(b, e) < n
    &&& move_allowed(b, s, entry_index(b, e) as u32)
    &&& e == mv(b, s, entry_index(b, e) as u32)
}

proof fn lemma_moves_upto_ok(b: Board, s: u128, n: int)
    requires
        b.wf(),
        0 <= n <= b.tot(),
    ensures
        forall|k: int|
            0 <= k < moves_upto(b, s, n).len() ==> entry_ok(
                b,
                s,
                n,
                #[trigger] moves_upto(b, s, n)[k],
            ),
        forall|i: u32|
            (i as int) < n && #[trigger] move_allowed(b, s, i) ==> moves_upto(b, s, n).contains(
                mv(b, s, i),
            ),
        forall|k1: int, k2: int|
            0 <= k1 < k2 < moves_upto(b, s, n).len() ==> entry_index(b, moves_upto(b, s, n)[k1])
                < entry_index(b, moves_upto(b, s, n)[k2]),
    decreases n,
{
    if n > 0 {
        lemma_moves_upto_ok(b, s, n - 1);
        let prev = moves_upto(b, s, n - 1);
        let cur = moves_upto(b, s, n);
        if move_allowed(b, s, (n - 1) as u32) {
            lemma_mv_index(b, s, (n - 1) as u32);
            assert forall|i: u32| (i as int) < n && #[trigger] move_allowed(b, s, i) implies cur
                .contains(mv(b, s, i)) by {
                if (i as int) < n - 1 {
                    let k = choose|k: int| 0 <= k < prev.len() && prev[k] == mv(b, s, i);
                    assert(cur[k] == mv(b, s, i));
                } else {
                    assert(cur[prev.len() as int] == mv(b, s, i));
                }
            }
        }
    }
}

/// Each entry of the move list is the move of the block its coordinate
/// decodes to, every allowed block is listed, and the entries come in
/// strictly increasing block-index order.
pub proof fn lemma_moves_characterized(b: Board, s: u128)
    requires
        b.wf(),
    ensures
        forall|k: int|
            0 <= k < all_moves(b, s).len() ==> entry_ok(
                b,
                s,
                b.tot(),
                #[trigger] all_moves(b, s)[k],
            ),
        forall|i: u32|
            #[trigger] move_allowed(b, s, i) ==> all_moves(b, s).contains(mv(b, s, i)),
        forall|k1: int, k2: int|
            0 <= k1 < k2 < all_moves(b, s).len() ==> entry_index(b, all_moves(b, s)[k1])
                < entry_index(b, all_moves(b, s)[k2]),
{
    crate::lemma_tot_bounds(b);
    lemma_moves_upto_ok(b, s, b.tot());
}

/// Choosing an allowed block clears its own bit, so the child state is
/// strictly smaller as a word.
pub proof fn lemma_child_smaller(b: Board, s: u128, i: u32)
    requires
        b.wf(),
        move_allowed(b, s, i),
    ensures
        child_state(b, s, i) < s,
{
    crate::lemma_tot_bounds(b);
    let chosen = coord_at(b, i as int);
    lemma_mask_bits(b, chosen);
    assert(dominates(coord_at(b, i as int), chosen));
    assert(has_block(mask_of(b, chosen), i));
    lemma_clear_decreases(s, mask_of(b, chosen), i);
}

/// Soundness of one emitted move: the chosen block was present and is not
/// the poison block, the poison block survives, and the child state is a
/// strict sub-set of the parent.
pub open spec fn move_sound(b: Board, s: u128, e: ((u32, u32, u32), u128)) -> bool {
    &&& 0 <= entry_index(b, e) < b.tot()
    &&& move_allowed(b, s, entry_index(b, e) as u32)
    &&& e == mv(b, s, entry_index(b, e) as u32)
    &&& has_block(s, entry_index(b, e) as u32)
    &&& e.0 != (0u32, 0u32, 0u32)
    &&& has_block(e.1, 0)
    &&& (forall|j: u32| j < 128 ==> (#[trigger] has_block(e.1, j) ==> has_block(s, j)))
    &&& e.1 != s
}

/// Every emitted move is sound, provided the poison block is present in the
/// parent state.
pub proof fn lemma_moves_sound(b: Board, s: u128)
    requires
        b.wf(),
        has_block(s, 0),
    ensures
        forall|k: int|
            0 <= k < all_moves(b, s).len() ==> move_sound(b, s, #[trigger] all_moves(b, s)[k]),
{
    crate::lemma_tot_bounds(b);
    lemma_moves_upto_ok(b, s, b.tot());
    assert forall|k: int| 0 <= k < all_moves(b, s).len() implies move_sound(
        b,
        s,
        all_moves(b, s)[k],
    ) by {
        let e = all_moves(b, s)[k];
        let i = entry_index(b, e) as u32;
        let chosen = coord_at(b, i as int);
        lemma_mask_bits(b, chosen);
        lemma_coord_bounds(b, i as int);
        assert(e.0 != (0u32, 0u32, 0u32)) by {
            if e.0 == (0u32, 0u32, 0u32) {
                assert(chosen == (0int, 0int, 0int));
            }
        }
        assert(has_block(mask_of(b, chosen), i)) by {
            assert(dominates(coord_at(b, i as int), chosen));
        }
        assert forall|j: u32| j < 128 implies (#[trigger] has_block(e.1, j) ==> has_block(
            s,
            j,
        )) by {
            lemma_and_not_bit(s, mask_of(b, chosen), j);
        }
        assert(has_block(e.1, 0)) by {
            lemma_and_not_bit(s, mask_of(b, chosen), 0);
        }
        assert(!has_block(e.1, i)) by {
            lemma_and_not_bit(s, mask_of(b, chosen), i);
        }
    }
}

/// Completeness and uniqueness of the move list: every block that may be
/// chosen is emitted, and no entry repeats.
pub proof fn lemma_moves_complete(b: Board, s: u128)
    requires
        b.wf(),
    ensures
        forall|i: u32|
            #[trigger] move_allowed(b, s, i) ==> all_moves(b, s).contains(mv(b, s, i)),
        forall|k1: int, k2: int|
            0 <= k1 < k2 < all_moves(b, s).len() ==> all_moves(b, s)[k1] != all_moves(b, s)[k2],
{
    crate::lemma_tot_bounds(b);
    lemma_moves_upto_ok(b, s, b.tot());
}

/// Enumerates the legal moves of a state, in increasing block-index order.
pub fn legal_moves(b: &Board, state: u128) -> (r: Vec<((u32, u32, u32), u128)>)
    requires
        b.wf(),
    ensures
        r@ == all_moves(*b, state),
{
    let tot = b.cells();
    let mut moves: Vec<((u32, u32, u32), u128)> = Vec::new();
    let mut i: u32 = 0;
    while i < tot
        invariant
            b.wf(),
            tot as int == b.tot(),
            tot <= 128,
            i <= tot,
            moves@ == moves_upto(*b, state, i as int),
        decreases tot - i,
    {
        if state & (1u128 << i) != 0 {
            let chosen = index_to_coord(b, i);
            if !(chosen.0 == 0 && chosen.1 == 0 && chosen.2 == 0) {
                let rm = removal_mask(b, chosen);
                proof {
                    assert(1u128 << 0u32 == 1u128) by (bit_vector);
                }
                if rm & 1 == 0 {
                    let new_state = state & !rm;
                    moves.push((chosen, new_state));
                }
            }
        }
        i = i + 1;
    }
    moves
}

} // verus!

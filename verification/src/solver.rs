use vstd::prelude::*;
use vstd::arithmetic::div_mod::{lemma_div_of0, lemma_small_mod};
use rayon::iter::{IntoParallelRefIterator, ParallelIterator};
use crate::Board;
use crate::moves::{
    all_moves, child_state, has_block, legal_moves, lemma_child_smaller,
    lemma_moves_characterized, move_allowed, mv,
};

verus! {

/// The win relation of the game, by recursion over the state word: the
/// terminal state with only the poison block is lost, and any other state is
/// won exactly when some allowed move leads to a state the opponent loses.
pub open spec fn winning(b: Board, s: u128) -> bool
    decreases s
    when b.wf()
    via winning_decreases
{
    if s == 1 {
        false
    } else {
        exists|i: u32| move_allowed(b, s, i) && !winning(b, child_state(b, s, i))
    }
}

#[via_fn]
proof fn winning_decreases(b: Board, s: u128) {
    assert forall|i: u32| move_allowed(b, s, i) implies child_state(b, s, i) < s by {
        lemma_child_smaller(b, s, i);
    }
}

#[verifier::external_type_specification]
#[verifier::external_body]
#[verifier::reject_recursive_types(K)]
#[verifier::reject_recursive_types(V)]
#[verifier::reject_recursive_types(S)]
pub struct ExDashMap<K, V, S>(dashmap::DashMap<K, V, S>);

/// The concurrent map behind the memo table.
pub type Table = dashmap::DashMap<u128, bool>;

/// What the memo table holds: the solved states and their results.
pub uninterp spec fn memo_entries(t: Table) -> Map<u128, bool>;

/// Relies on dashmap::DashMap::new: the new map holds no entry.
#[verifier::external_body]
fn table_new() -> (t: Table)
    ensures
        forall|k: u128| !memo_entries(t).contains_key(k),
{
    dashmap::DashMap::new()
}

/// Relies on dashmap::DashMap::get: returns the value stored under the key,
/// or nothing when the key is absent.
#[verifier::external_body]
fn table_get(t: &Table, s: u128) -> (r: Option<bool>)
    ensures
        match r {
            Some(v) => memo_entries(*t).contains_key(s) && memo_entries(*t)[s] == v,
            None => !memo_entries(*t).contains_key(s),
        },
{
    t.get(&s).map(|v| *v)
}

/// Relies on dashmap::DashMap::insert: maps the key to the value and keeps
/// every other entry.
#[verifier::external_body]
fn table_insert(t: &mut Table, s: u128, v: bool)
    ensures
        memo_entries(*final(t)) == memo_entries(*old(t)).insert(s, v),
{
    t.insert(s, v);
}

/// Memoisation table of solved states, backed by a map that supports
/// concurrent lookups and inserts.
pub struct Memo {
    table: Table,
}

impl Memo {
    /// The entries the table holds.
    pub closed spec fn entries(self) -> Map<u128, bool> {
        memo_entries(self.table)
    }

    /// A fresh, empty table.
    pub fn new() -> (m: Memo)
        ensures
            m.entries() == Map::<u128, bool>::empty(),
    {
        let t = table_new();
        proof {
            assert(memo_entries(t).dom() =~= Set::<u128>::empty());
            assert(memo_entries(t) =~= Map::<u128, bool>::empty());
        }
        Memo { table: t }
    }

    /// The result recorded for a state, if there is one.
    pub fn lookup(&self, s: u128) -> (r: Option<bool>)
        ensures
            match r {
                Some(v) => self.entries().contains_key(s) && self.entries()[s] == v,
                None => !self.entries().contains_key(s),
            },
    {
        table_get(&self.table, s)
    }

    /// Records the result for a state.
    pub fn store(&mut self, s: u128, v: bool)
        ensures
            final(self).entries() == old(self).entries().insert(s, v),
    {
        table_insert(&mut self.table, s, v);
    }
}

/// Every entry of the memo table records the win relation of its key.
pub open spec fn memo_ok(b: Board, m: Memo) -> bool {
    forall|k: u128| #[trigger] m.entries().contains_key(k) ==> m.entries()[k] == winning(b, k)
}

/// Decides whether the player to move wins from `state`, caching results in
/// the memo table. Any table whose entries record the win relation is
/// accepted, and the table still does so afterwards, so repeated calls agree
/// whether a result is recomputed or served from the table.
pub fn win(b: &Board, state: u128, memo: &mut Memo) -> (r: bool)
    requires
        b.wf(),
        memo_ok(*b, *old(memo)),
    ensures
        r == winning(*b, state),
        memo_ok(*b, *final(memo)),
        state != 1 ==> final(memo).entries().contains_key(state),
    decreases state,
{
    if state == 1 {
        return false;
    }
    match memo.lookup(state) {
        Some(v) => {
            return v;
        },
        None => {},
    }
    let moves = legal_moves(b, state);
    proof {
        lemma_moves_characterized(*b, state);
    }
    if moves.len() == 0 {
        proof {
            assert(!winning(*b, state)) by {
                if winning(*b, state) {
                    let i = choose|i: u32|
                        move_allowed(*b, state, i) && !winning(*b, child_state(*b, state, i));
                    assert(all_moves(*b, state).contains(mv(*b, state, i)));
                }
            }
        }
        memo.store(state, false);
        return false;
    }
    let mut k: usize = 0;
    let mut found = false;
    while k < moves.len() && !found
        invariant
            b.wf(),
            memo_ok(*b, *memo),
            state != 1,
            moves@ == all_moves(*b, state),
            k <= moves.len(),
            found ==> winning(*b, state),
            !found ==> forall|j: int|
                0 <= j < k as int ==> winning(*b, (#[trigger] moves@[j]).1),
        decreases moves.len() - k,
    {
        proof {
            lemma_moves_characterized(*b, state);
            let e = moves@[k as int];
            lemma_child_smaller(*b, state, crate::moves::entry_index(*b, e) as u32);
        }
        let child = moves[k].1;
        let w = win(b, child, memo);
        if !w {
            found = true;
            proof {
                let e = moves@[k as int];
                let i = crate::moves::entry_index(*b, e) as u32;
                assert(move_allowed(*b, state, i) && !winning(*b, child_state(*b, state, i)));
            }
        }
        k = k + 1;
    }
    proof {
        if !found {
            assert(!winning(*b, state)) by {
                if winning(*b, state) {
                    let i = choose|i: u32|
                        move_allowed(*b, state, i) && !winning(*b, child_state(*b, state, i));
                    lemma_moves_characterized(*b, state);
                    assert(all_moves(*b, state).contains(mv(*b, state, i)));
                    let k0 = choose|k0: int|
                        0 <= k0 < all_moves(*b, state).len() && all_moves(*b, state)[k0] == mv(
                            *b,
                            state,
                            i,
                        );
                    assert(winning(*b, (moves@[k0]).1));
                }
            }
        }
    }
    memo.store(state, found);
    found
}

/// Only the poison block survives in state 1.
proof fn lemma_one_bit(i: u32)
    by (bit_vector)
    requires
        i < 128,
    ensures
        (1u128 & (1u128 << i) != 0) <==> (i == 0),
{
}

/// The terminal state admits no move: its only block is the poison block.
pub proof fn lemma_terminal_no_moves(b: Board)
    requires
        b.wf(),
    ensures
        forall|i: u32| !move_allowed(b, 1u128, i),
{
    crate::lemma_tot_bounds(b);
    assert forall|i: u32| !move_allowed(b, 1u128, i) by {
        if move_allowed(b, 1u128, i) {
            lemma_one_bit(i);
            assert((b.x_dim as int) * (b.y_dim as int) >= 1) by (nonlinear_arith)
                requires
                    1 <= b.x_dim,
                    1 <= b.y_dim,
            ;
            lemma_small_mod(0, b.x_dim as nat);
            lemma_div_of0(b.x_dim as int);
            lemma_small_mod(0, b.y_dim as nat);
            lemma_div_of0((b.x_dim as int) * (b.y_dim as int));
            assert(crate::grid::coord_at(b, 0) == (0int, 0int, 0int));
        }
    }
}

/// The state holding only the poison block is lost for the player to move.
pub proof fn lemma_terminal_losing(b: Board)
    requires
        b.wf(),
    ensures
        !winning(b, 1u128),
{
}

/// The win relation is exactly the normal-play rule: a state is won when
/// and only when some allowed move leads to a state its mover loses. The
/// terminal state satisfies the rule too, having no move at all.
pub proof fn lemma_winning_characterized(b: Board, s: u128)
    requires
        b.wf(),
    ensures
        winning(b, s) <==> exists|i: u32|
            move_allowed(b, s, i) && !winning(b, child_state(b, s, i)),
{
    if s == 1 {
        lemma_terminal_no_moves(b);
        if exists|i: u32| move_allowed(b, s, i) && !winning(b, child_state(b, s, i)) {
            let i = choose|i: u32| move_allowed(b, s, i) && !winning(b, child_state(b, s, i));
            assert(!move_allowed(b, 1u128, i));
        }
    }
}

/// The chosen coordinates of the given move entries whose resulting state
/// the opponent loses, in the order the entries come.
pub open spec fn winning_coords_of(b: Board, es: Seq<((u32, u32, u32), u128)>) -> Seq<
    (u32, u32, u32),
>
    decreases es.len(),
{
    if es.len() == 0 {
        Seq::empty()
    } else if !winning(b, es.last().1) {
        winning_coords_of(b, es.drop_last()).push(es.last().0)
    } else {
        winning_coords_of(b, es.drop_last())
    }
}

/// The winning first moves of a state: the coordinates of the legal moves
/// whose resulting state the opponent loses, in move-list order.
pub open spec fn winning_moves_seq(b: Board, s: u128) -> Seq<(u32, u32, u32)> {
    winning_coords_of(b, all_moves(b, s))
}

/// Lists the winning first moves of a state, computing each child's result
/// on demand through the memo table. The result is a function of the board
/// and the state alone, so repeated solves agree, order included.
pub fn winning_moves(b: &Board, state: u128, memo: &mut Memo) -> (r: Vec<(u32, u32, u32)>)
    requires
        b.wf(),
        memo_ok(*b, *old(memo)),
    ensures
        r@ == winning_moves_seq(*b, state),
        memo_ok(*b, *final(memo)),
{
    let moves = legal_moves(b, state);
    let mut picked: Vec<(u32, u32, u32)> = Vec::new();
    let mut k: usize = 0;
    while k < moves.len()
        invariant
            b.wf(),
            memo_ok(*b, *memo),
            moves@ == all_moves(*b, state),
            k <= moves.len(),
            picked@ == winning_coords_of(*b, moves@.take(k as int)),
        decreases moves.len() - k,
    {
        let child = moves[k].1;
        let w = win(b, child, memo);
        if !w {
            picked.push(moves[k].0);
        }
        proof {
            let cur = moves@.take(k as int + 1);
            assert(cur.drop_last() =~= moves@.take(k as int));
            assert(cur.last() == moves@[k as int]);
        }
        k = k + 1;
    }
    proof {
        assert(moves@.take(moves@.len() as int) =~= moves@);
    }
    picked
}

/// The state in which every cell of the board still holds its block.
pub open spec fn full_state(b: Board) -> u128 {
    if b.tot() == 128 {
        !0u128
    } else {
        ((1u128 << (b.tot() as u32)) - 1) as u128
    }
}

proof fn lemma_low_bits(t: u32, j: u32)
    by (bit_vector)
    requires
        t < 128,
        j < 128,
    ensures
        ((((1u128 << t) - 1) as u128 & (1u128 << j)) != 0) <==> (j < t),
{
}

proof fn lemma_all_bits(j: u32)
    by (bit_vector)
    requires
        j < 128,
    ensures
        (!0u128) & (1u128 << j) != 0,
{
}

/// Builds the initial state: one set bit per cell of the board.
pub fn initial_state(b: &Board) -> (s: u128)
    requires
        b.wf(),
    ensures
        s == full_state(*b),
        forall|j: u32| j < 128 ==> (#[trigger] has_block(s, j) <==> (j as int) < b.tot()),
{
    let tot = b.cells();
    if tot == 128 {
        let s: u128 = !0u128;
        proof {
            assert forall|j: u32| j < 128 implies (has_block(s, j) <==> (j as int) < b.tot()) by {
                lemma_all_bits(j);
            }
        }
        s
    } else {
        proof {
            assert(1u128 << tot >= 1) by (bit_vector)
                requires
                    tot < 128,
            ;
        }
        let s: u128 = (1u128 << tot) - 1;
        proof {
            assert forall|j: u32| j < 128 implies (has_block(s, j) <==> (j as int) < b.tot()) by {
                lemma_low_bits(tot, j);
            }
        }
        s
    }
}

/// Solves a state with a fresh table of its own; the opposite answer of
/// `win`, packaged so a parallel task needs nothing shared.
fn losing_from(b: Board, s: u128) -> (r: bool)
    requires
        b.wf(),
    ensures
        r == !winning(b, s),
{
    let mut memo = Memo::new();
    !win(&b, s, &mut memo)
}

/// Relies on rayon's ParallelIterator::any over the states: true exactly
/// when the verified predicate `losing_from` holds of some element; the
/// tasks run in parallel and each calls verified code only.
#[verifier::external_body]
fn any_losing(b: &Board, states: &Vec<u128>) -> (r: bool)
    requires
        b.wf(),
    ensures
        r == (exists|k: int| 0 <= k < states@.len() && !winning(*b, states@[k])),
{
    states.par_iter().any(|s| losing_from(*b, *s))
}

/// Decides the win relation with the sibling subtrees of the root explored
/// in parallel: one independent task per legal first move.
pub fn win_parallel(b: &Board, state: u128) -> (r: bool)
    requires
        b.wf(),
    ensures
        r == winning(*b, state),
{
    if state == 1 {
        return false;
    }
    let moves = legal_moves(b, state);
    let mut children: Vec<u128> = Vec::new();
    let mut k: usize = 0;
    while k < moves.len()
        invariant
            k <= moves.len(),
            children@.len() == k as int,
            forall|j: int| 0 <= j < k as int ==> children@[j] == (#[trigger] moves@[j]).1,
        decreases moves.len() - k,
    {
        children.push(moves[k].1);
        k = k + 1;
    }
    let r = any_losing(b, &children);
    proof {
        lemma_moves_characterized(*b, state);
        if r {
            let k0 = choose|k0: int| 0 <= k0 < children@.len() && !winning(*b, children@[k0]);
            let e = moves@[k0];
            let i = crate::moves::entry_index(*b, e) as u32;
            assert(move_allowed(*b, state, i) && !winning(*b, child_state(*b, state, i)));
        } else {
            assert(!winning(*b, state)) by {
                if winning(*b, state) {
                    let i = choose|i: u32|
                        move_allowed(*b, state, i) && !winning(*b, child_state(*b, state, i));
                    assert(all_moves(*b, state).contains(mv(*b, state, i)));
                    let k0 = choose|k0: int|
                        0 <= k0 < moves@.len() && moves@[k0] == mv(*b, state, i);
                    assert(!winning(*b, children@[k0]));
                }
            }
        }
    }
    r
}

/// Runs the whole computation: whether the first player wins from the full
/// board, and every winning first move, in enumeration order.
pub fn solve(b: &Board) -> (r: (bool, Vec<(u32, u32, u32)>))
    requires
        b.wf(),
    ensures
        r.0 == winning(*b, full_state(*b)),
        r.1@ == winning_moves_seq(*b, full_state(*b)),
{
    let s = initial_state(b);
    let mut memo = Memo::new();
    let w = win(b, s, &mut memo);
    let ms = winning_moves(b, s, &mut memo);
    (w, ms)
}

} // verus!

//! What holds of the game whatever the state and the move.

use vstd::prelude::*;
use crate::nova_luna::digest::{board_digest, state_digest};
use crate::nova_luna::geometry::Position;
use crate::nova_luna::region::extends;
use crate::nova_luna::rules::{
    lemma_satisfied_by_colors,
    lemma_settle_keeps_solved,
    lemma_supply_grows,
    origin,
    resolved,
    solved_on,
    StateView,
};
use crate::nova_luna::solving::{demand, satisfied, supply};
use crate::nova_luna::tally::{lemma_sum_over_grows_with_terms, lemma_sum_over_one_more};
use crate::nova_luna::tile::{Color, MoveView, TileView};

verus! {

/// On an empty board the moves offered are the tiles of the pool, each on
/// the origin and nowhere else.
pub proof fn lemma_opening_moves(state: StateView, m: MoveView)
    requires
        state.placed.dom().is_empty(),
    ensures
        state.offers(m) <==> state.unplaced.contains(m.tile) && m.position == origin(),
{
}

/// On an empty board a list that holds each offered move once has as many
/// moves as the pool has distinct tiles.
pub proof fn lemma_opening_move_count(state: StateView, moves: Seq<MoveView>)
    requires
        state.placed.dom().is_empty(),
        moves.no_duplicates(),
        forall|m: MoveView| moves.contains(m) <==> state.offers(m),
    ensures
        moves.len() == state.unplaced.to_set().len(),
{
    let tiles = state.unplaced.to_set();
    let lay = |tile: TileView| MoveView { tile, position: origin() };
    vstd::seq_lib::seq_to_set_is_finite(state.unplaced);
    vstd::seq_lib::seq_to_set_is_finite(moves);
    moves.unique_seq_to_set();
    assert(vstd::relations::injective_on(lay, tiles)) by {
        assert forall|a: TileView, b: TileView| #[trigger] lay(a) == #[trigger] lay(b) implies a
            == b by {
            assert(lay(a).tile == a);
            assert(lay(b).tile == b);
        }
    }
    assert(tiles.map(lay) =~= moves.to_set()) by {
        assert forall|m: MoveView| tiles.map(lay).contains(m) implies moves.to_set().contains(
            m,
        ) by {
            let tile = choose|tile: TileView| tiles.contains(tile) && m == lay(tile);
            assert(state.offers(lay(tile)));
        }
        assert forall|m: MoveView| moves.to_set().contains(m) implies tiles.map(lay).contains(
            m,
        ) by {
            assert(state.offers(m));
            assert(tiles.contains(m.tile) && lay(m.tile) == m);
        }
    }
    vstd::set_lib::lemma_map_size(tiles, moves.to_set(), lay);
}

/// Every move that a state offers can be applied to it.
pub proof fn lemma_offered_moves_are_accepted(state: StateView, m: MoveView)
    requires
        state.offers(m),
    ensures
        state.accepts(m),
{
}

/// A move leaves the tiles that lay on the board where they were, with
/// their colours, costs and what their tasks ask for, and never takes a
/// solved mark away.
pub proof fn lemma_move_keeps_what_is_solved(state: StateView, m: MoveView, p: Position, k: int)
    requires
        state.accepts(m),
        state.placed.dom().contains(p),
        0 <= k < state.placed[p].tasks.len(),
    ensures
        state.after_move(m).placed.dom().contains(p),
        state.after_move(m).placed[p].color == state.placed[p].color,
        state.after_move(m).placed[p].cost == state.placed[p].cost,
        state.after_move(m).placed[p].tasks.len() == state.placed[p].tasks.len(),
        state.after_move(m).placed[p].tasks[k].required == state.placed[p].tasks[k].required,
        state.placed[p].tasks[k].solved ==> state.after_move(m).placed[p].tasks[k].solved,
{
}

/// The number of solved tasks on the board never goes down with a move.
pub proof fn lemma_solved_tasks_never_decrease(state: StateView, m: MoveView)
    requires
        state.placed.dom().finite(),
        state.accepts(m),
    ensures
        state.solved_tasks() <= state.after_move(m).solved_tasks(),
{
    let before = state.placed;
    let laid = before.insert(m.position, m.tile);
    let after = resolved(laid);
    assert(after.dom() =~= before.dom().insert(m.position));
    lemma_sum_over_one_more(before.dom(), solved_on(after), m.position);
    assert forall|p: Position| before.dom().contains(p) implies solved_on(before)(p) <= solved_on(
        after,
    )(p) by {
        lemma_settle_keeps_solved(laid, p, laid[p]);
    }
    lemma_sum_over_grows_with_terms(before.dom(), solved_on(before), solved_on(after));
}

/// A task that is complete stays complete when more tiles are laid.
pub proof fn lemma_complete_stays_complete(
    larger: Map<Position, TileView>,
    smaller: Map<Position, TileView>,
    owner: Position,
    required: Seq<Color>,
)
    requires
        larger.dom().finite(),
        extends(larger, smaller),
        satisfied(smaller, owner, required),
    ensures
        satisfied(larger, owner, required),
{
    assert forall|c: Color| demand(required, c) <= supply(larger, owner, c) by {
        lemma_supply_grows(larger, smaller, owner, c);
    }
}

/// Every task on `board` that is marked as solved is complete there.
pub open spec fn solved_means_complete(board: Map<Position, TileView>) -> bool {
    forall|p: Position, k: int|
        board.dom().contains(p) && 0 <= k < board[p].tasks.len() && (
        #[trigger] board[p].tasks[k]).solved ==> satisfied(board, p, board[p].tasks[k].required)
}

/// None of the tile's tasks is marked as solved.
pub open spec fn unsolved(tile: TileView) -> bool {
    forall|k: int| 0 <= k < tile.tasks.len() ==> !(#[trigger] tile.tasks[k]).solved
}

/// Looking again at a task that is marked as solved finds it complete: if
/// that holds of a board, it holds of the board after a move whose tile
/// comes without solved tasks.
pub proof fn lemma_solved_tasks_are_complete(state: StateView, m: MoveView)
    requires
        state.placed.dom().finite(),
        state.accepts(m),
        solved_means_complete(state.placed),
        unsolved(m.tile),
    ensures
        solved_means_complete(state.after_move(m).placed),
{
    let before = state.placed;
    let laid = before.insert(m.position, m.tile);
    let after = resolved(laid);
    assert(extends(laid, before));
    assert(extends(after, laid) && extends(laid, after));
    assert forall|p: Position, k: int|
        after.dom().contains(p) && 0 <= k < after[p].tasks.len() && (
        #[trigger] after[p].tasks[k]).solved implies satisfied(
        after,
        p,
        after[p].tasks[k].required,
    ) by {
        let required = laid[p].tasks[k].required;
        assert(after[p].tasks[k].required == required);
        lemma_satisfied_by_colors(after, laid, p, required);
        if laid[p].tasks[k].solved {
            assert(p != m.position);
            assert(before[p].tasks[k].solved);
            lemma_complete_stays_complete(laid, before, p, required);
        }
    }
}

/// Looking at every task of a board a second time changes nothing.
pub proof fn lemma_resolving_twice(board: Map<Position, TileView>)
    ensures
        resolved(resolved(board)) == resolved(board),
{
    let once = resolved(board);
    let twice = resolved(once);
    assert(extends(once, board) && extends(board, once));
    assert forall|p: Position| once.dom().contains(p) implies #[trigger] twice[p] == once[p] by {
        assert forall|k: int| 0 <= k < once[p].tasks.len() implies twice[p].tasks[k]
            == once[p].tasks[k] by {
            lemma_satisfied_by_colors(once, board, p, board[p].tasks[k].required);
        }
        assert(twice[p].tasks =~= once[p].tasks);
    }
    assert(twice =~= once);
}

/// Laying a tile on a board whose tasks have been looked at, and looking
/// again, gives what laying the tile first and looking once gives.
pub proof fn lemma_settling_absorbs(board: Map<Position, TileView>, q: Position, tile: TileView)
    requires
        board.dom().finite(),
        !board.dom().contains(q),
    ensures
        resolved(resolved(board).insert(q, tile)) == resolved(board.insert(q, tile)),
{
    let plain = board.insert(q, tile);
    let staged = resolved(board).insert(q, tile);
    assert(extends(plain, board));
    assert(extends(staged, plain) && extends(plain, staged));
    assert forall|p: Position| plain.dom().contains(p) implies #[trigger] resolved(staged)[p]
        == resolved(plain)[p] by {
        assert forall|k: int| 0 <= k < plain[p].tasks.len() implies resolved(staged)[p].tasks[k]
            == resolved(plain)[p].tasks[k] by {
            let required = plain[p].tasks[k].required;
            lemma_satisfied_by_colors(staged, plain, p, required);
            if p != q && satisfied(board, p, required) {
                lemma_complete_stays_complete(plain, board, p, required);
            }
        }
        assert(resolved(staged)[p].tasks =~= resolved(plain)[p].tasks);
    }
    assert(resolved(staged) =~= resolved(plain));
}

/// Two moves onto different cells of a board whose tasks have been looked
/// at leave the same board behind, whichever is applied first.
pub proof fn lemma_moves_commute_on_board(state: StateView, a: MoveView, b: MoveView)
    requires
        state.placed.dom().finite(),
        !state.placed.dom().contains(a.position),
        !state.placed.dom().contains(b.position),
        a.position != b.position,
    ensures
        state.after_move(a).after_move(b).placed == state.after_move(b).after_move(a).placed,
        board_digest(state.after_move(a).after_move(b).placed) == board_digest(
            state.after_move(b).after_move(a).placed,
        ),
{
    let board = state.placed;
    lemma_settling_absorbs(board.insert(a.position, a.tile), b.position, b.tile);
    lemma_settling_absorbs(board.insert(b.position, b.tile), a.position, a.tile);
    assert(board.insert(a.position, a.tile).insert(b.position, b.tile) =~= board.insert(
        b.position,
        b.tile,
    ).insert(a.position, a.tile));
}

/// The transposition hash is a function of what lies on the board and of
/// the pool in its order: states that agree in both have the same hash,
/// whatever the order in which their tiles were laid.
pub proof fn lemma_same_state_same_hash(a: StateView, b: StateView)
    requires
        a.placed == b.placed,
        a.unplaced == b.unplaced,
    ensures
        state_digest(a) == state_digest(b),
{
}

} // verus!

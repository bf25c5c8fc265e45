//! The game as mathematics: what a state is, which moves it offers, and what
//! a move makes of it.

use vstd::prelude::*;
use crate::nova_luna::geometry::Position;
use crate::nova_luna::region::{
    extends,
    is_walk,
    lemma_region_grows,
    lemma_region_within_board,
    region,
    shows,
};
use crate::nova_luna::solving::{demand, feed, feeds, satisfied, supply};
use crate::nova_luna::tally::{lemma_sum_over_grows_with_terms, lemma_sum_over_same_terms, sum_over};
use crate::nova_luna::tile::{Color, MoveView, TaskView, TileView};

verus! {

/// What a state of the game is, as a value: the tiles laid, by cell, and the
/// tiles still to be laid, in order.
pub struct StateView {
    pub placed: Map<Position, TileView>,
    pub unplaced: Seq<TileView>,
}

/// The cell on which the first tile is laid.
pub open spec fn origin() -> Position {
    Position(0, 0)
}

/// How many of `tasks` are solved.
pub open spec fn solved_count(tasks: Seq<TaskView>) -> nat
    decreases tasks.len(),
{
    if tasks.len() == 0 {
        0
    } else {
        solved_count(tasks.drop_last()) + if tasks.last().solved {
            1nat
        } else {
            0nat
        }
    }
}

/// The task as it stands once the tile on `p` has been looked at on `board`:
/// solved if it was, or if it is complete now.
pub open spec fn settle_task(board: Map<Position, TileView>, p: Position, task: TaskView) -> TaskView {
    TaskView { required: task.required, solved: task.solved || satisfied(board, p, task.required) }
}

/// The tile on `p` with its first `upto` tasks looked at on `board`.
pub open spec fn settle_upto(board: Map<Position, TileView>, p: Position, tile: TileView, upto: int) -> TileView {
    TileView {
        tasks: Seq::new(
            tile.tasks.len(),
            |k: int|
                if k < upto {
                    settle_task(board, p, tile.tasks[k])
                } else {
                    tile.tasks[k]
                },
        ),
        ..tile
    }
}

/// The tile on `p` with every task looked at on `board`.
pub open spec fn settle(board: Map<Position, TileView>, p: Position, tile: TileView) -> TileView {
    settle_upto(board, p, tile, tile.tasks.len() as int)
}

/// The board with every task of every tile looked at.
pub open spec fn resolved(board: Map<Position, TileView>) -> Map<Position, TileView> {
    Map::new(|p: Position| board.dom().contains(p), |p: Position| settle(board, p, board[p]))
}

/// For each cell of `board`, the number of solved tasks on its tile.
pub open spec fn solved_on(board: Map<Position, TileView>) -> spec_fn(Position) -> nat {
    |p: Position| solved_count(board[p].tasks)
}

/// The number of solved tasks on all tiles of `board`.
pub open spec fn solved_total(board: Map<Position, TileView>) -> nat {
    sum_over(board.dom(), solved_on(board))
}

/// `cells` with the free cells among the first `upto` of `more` added at
/// the end, each once and in their order.
pub open spec fn with_free_cells(
    cells: Seq<Position>,
    more: Seq<Position>,
    upto: int,
    occupied: Set<Position>,
) -> Seq<Position>
    decreases upto,
{
    if upto <= 0 {
        cells
    } else {
        let so_far = with_free_cells(cells, more, upto - 1, occupied);
        let q = more[upto - 1];
        if !occupied.contains(q) && !so_far.contains(q) {
            so_far.push(q)
        } else {
            so_far
        }
    }
}

/// The free cells that touch one of the first `upto` cells of `order`, each
/// once: those round the first cell, then those round the second, and so
/// on, round each cell in the order east, north, west, south.
pub open spec fn free_cells_around(order: Seq<Position>, upto: int, occupied: Set<Position>) -> Seq<
    Position,
>
    decreases upto,
{
    if upto <= 0 {
        Seq::empty()
    } else {
        let around = order[upto - 1].surrounding_cells();
        with_free_cells(
            free_cells_around(order, upto - 1, occupied),
            around,
            around.len() as int,
            occupied,
        )
    }
}

/// The cells on which a tile may be laid, in the order in which they are
/// listed, on a board whose tiles arrived in `order`.
pub open spec fn candidates(order: Seq<Position>) -> Seq<Position> {
    if order.len() == 0 {
        seq![origin()]
    } else {
        free_cells_around(order, order.len() as int, order.to_set())
    }
}

/// `moves` with `tile` on each of the first `upto` of `cells` added at the end.
pub open spec fn with_tile_on(moves: Seq<MoveView>, tile: TileView, cells: Seq<Position>, upto: int) -> Seq<
    MoveView,
>
    decreases upto,
{
    if upto <= 0 {
        moves
    } else {
        with_tile_on(moves, tile, cells, upto - 1).push(
            MoveView { tile, position: cells[upto - 1] },
        )
    }
}

/// `tile` is among the first `upto` of `tiles`.
pub open spec fn among(tiles: Seq<TileView>, upto: int, tile: TileView) -> bool {
    exists|j: int| 0 <= j < upto && #[trigger] tiles[j] == tile
}

/// The moves of the first `upto` tiles of `pool` onto `cells`: each tile
/// that differs from those before it, in the order of the pool, on each
/// cell in the order of `cells`.
pub open spec fn moves_onto(pool: Seq<TileView>, upto: int, cells: Seq<Position>) -> Seq<MoveView>
    decreases upto,
{
    if upto <= 0 {
        Seq::empty()
    } else {
        let so_far = moves_onto(pool, upto - 1, cells);
        if among(pool, upto - 1, pool[upto - 1]) {
            so_far
        } else {
            with_tile_on(so_far, pool[upto - 1], cells, cells.len() as int)
        }
    }
}

impl StateView {
    /// A tile may be laid on `p`: on the origin while the board is empty, and
    /// afterwards on any free cell that touches a tile.
    pub open spec fn candidate(self, p: Position) -> bool {
        if self.placed.dom().is_empty() {
            p == origin()
        } else {
            !self.placed.dom().contains(p) && exists|q: Position|
                self.placed.dom().contains(q) && #[trigger] q.touches(p)
        }
    }

    /// `m` is one of the moves the state offers: a tile of the pool on a
    /// candidate cell.
    pub open spec fn offers(self, m: MoveView) -> bool {
        self.unplaced.contains(m.tile) && self.candidate(m.position)
    }

    /// `m` can be applied: its tile is in the pool, and its cell is free.
    pub open spec fn accepts(self, m: MoveView) -> bool {
        &&& self.unplaced.contains(m.tile)
        &&& !self.placed.dom().contains(m.position)
    }

    /// The state after `m`: the first tile of the pool that equals the move's
    /// tile has left the pool and lies on the move's cell, and every task on
    /// the board that is complete now is solved.
    pub open spec fn after_move(self, m: MoveView) -> StateView {
        StateView {
            placed: resolved(self.placed.insert(m.position, m.tile)),
            unplaced: self.unplaced.remove_value(m.tile),
        }
    }

    /// The number of solved tasks on the board.
    pub open spec fn solved_tasks(self) -> nat {
        solved_total(self.placed)
    }
}

/// Whether a task is complete depends on where the tiles lie and on their
/// colours, and on nothing else.
pub proof fn lemma_satisfied_by_colors(
    a: Map<Position, TileView>,
    b: Map<Position, TileView>,
    owner: Position,
    required: Seq<Color>,
)
    requires
        extends(a, b),
        extends(b, a),
    ensures
        satisfied(a, owner, required) == satisfied(b, owner, required),
{
    assert forall|c: Color| supply(a, owner, c) == supply(b, owner, c) by {
        assert forall|via: Position| feed(a, owner, c, via) == feed(b, owner, c, via) by {
            lemma_region_grows(a, b, c, via);
            lemma_region_grows(b, a, c, via);
            assert(region(a, c, via) =~= region(b, c, via));
            if shows(a, via, c) {
                assert(b.dom().contains(via));
            }
            if shows(b, via, c) {
                assert(a.dom().contains(via));
            }
        }
        owner.lemma_surroundings();
        lemma_sum_over_same_terms(owner.surroundings(), feeds(a, owner, c), feeds(b, owner, c));
    }
}

/// Laying more tiles never takes from what the neighbours give.
pub proof fn lemma_supply_grows(
    larger: Map<Position, TileView>,
    smaller: Map<Position, TileView>,
    owner: Position,
    c: Color,
)
    requires
        larger.dom().finite(),
        extends(larger, smaller),
    ensures
        supply(smaller, owner, c) <= supply(larger, owner, c),
{
    assert forall|via: Position| feed(smaller, owner, c, via) <= feed(larger, owner, c, via) by {
        if shows(smaller, via, c) {
            assert(smaller.dom().contains(via));
            assert(shows(larger, via, c));
            lemma_region_grows(larger, smaller, c, via);
            lemma_region_within_board(larger, c, via);
            vstd::set_lib::lemma_len_subset(
                region(smaller, c, via).remove(owner),
                region(larger, c, via).remove(owner),
            );
        }
    }
    owner.lemma_surroundings();
    lemma_sum_over_grows_with_terms(
        owner.surroundings(),
        feeds(smaller, owner, c),
        feeds(larger, owner, c),
    );
}

/// A tile laid on a free cell changes nothing for a task that does not ask
/// for the tile's colour.
pub proof fn lemma_other_colors_untouched(
    board: Map<Position, TileView>,
    q: Position,
    tile: TileView,
    owner: Position,
    required: Seq<Color>,
)
    requires
        !board.dom().contains(q),
        !required.contains(tile.color),
    ensures
        satisfied(board.insert(q, tile), owner, required) == satisfied(board, owner, required),
{
    let larger = board.insert(q, tile);
    required.to_multiset_ensures();
    assert(demand(required, tile.color) == 0);
    assert forall|c: Color| c != tile.color implies supply(larger, owner, c) == supply(
        board,
        owner,
        c,
    ) by {
        assert forall|via: Position| feed(larger, owner, c, via) == feed(board, owner, c, via) by {
            assert(extends(larger, board));
            lemma_region_grows(larger, board, c, via);
            assert forall|x: Position| region(larger, c, via).contains(x) implies region(
                board,
                c,
                via,
            ).contains(x) by {
                let path = choose|path: Seq<Position>| #[trigger]
                    is_walk(larger, c, path) && path.first() == via && path.last() == x;
                assert forall|i: int| 0 <= i < path.len() implies shows(
                    board,
                    #[trigger] path[i],
                    c,
                ) by {
                    assert(shows(larger, path[i], c));
                }
                assert(is_walk(board, c, path));
            }
            assert(region(larger, c, via) =~= region(board, c, via));
        }
        owner.lemma_surroundings();
        lemma_sum_over_same_terms(
            owner.surroundings(),
            feeds(larger, owner, c),
            feeds(board, owner, c),
        );
    }
    if satisfied(board, owner, required) {
        assert forall|c: Color| demand(required, c) <= supply(larger, owner, c) by {
            assert(demand(required, c) <= supply(board, owner, c));
        }
    }
    if satisfied(larger, owner, required) {
        assert forall|c: Color| demand(required, c) <= supply(board, owner, c) by {
            assert(demand(required, c) <= supply(larger, owner, c));
        }
    }
}

/// Every task on `board` that is not marked as solved is incomplete there:
/// nothing is left to mark.
pub open spec fn settled(board: Map<Position, TileView>) -> bool {
    forall|p: Position, k: int|
        board.dom().contains(p) && 0 <= k < board[p].tasks.len() && !(
        #[trigger] board[p].tasks[k]).solved ==> !satisfied(board, p, board[p].tasks[k].required)
}

/// Once every task of a board has been looked at, nothing is left to mark.
pub proof fn lemma_resolved_is_settled(board: Map<Position, TileView>)
    ensures
        settled(resolved(board)),
{
    let after = resolved(board);
    assert(extends(after, board) && extends(board, after));
    assert forall|p: Position, k: int|
        after.dom().contains(p) && 0 <= k < after[p].tasks.len() && !(
        #[trigger] after[p].tasks[k]).solved implies !satisfied(
        after,
        p,
        after[p].tasks[k].required,
    ) by {
        lemma_satisfied_by_colors(after, board, p, board[p].tasks[k].required);
    }
}

/// Looking at a tile's tasks changes nothing but their solved marks, and
/// takes none of them away.
pub proof fn lemma_settle_keeps_solved(board: Map<Position, TileView>, p: Position, tile: TileView)
    ensures
        solved_count(tile.tasks) <= solved_count(settle(board, p, tile).tasks),
{
    lemma_solved_count_grows(tile.tasks, settle(board, p, tile).tasks);
}

/// A sequence of tasks in which every solved task of another is solved has
/// at least as many solved tasks.
pub proof fn lemma_solved_count_grows(before: Seq<TaskView>, after: Seq<TaskView>)
    requires
        before.len() == after.len(),
        forall|k: int| 0 <= k < before.len() && before[k].solved ==> after[k].solved,
    ensures
        solved_count(before) <= solved_count(after),
    decreases before.len(),
{
    if before.len() > 0 {
        lemma_solved_count_grows(before.drop_last(), after.drop_last());
    }
}

} // verus!

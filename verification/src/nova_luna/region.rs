//! Connected regions of one colour: the sets of cells that a task counts.

use vstd::prelude::*;
use crate::nova_luna::geometry::Position;
use crate::nova_luna::tile::{Color, TileView};

verus! {

/// Cell `p` holds a tile of colour `c`.
pub open spec fn shows(board: Map<Position, TileView>, p: Position, c: Color) -> bool {
    board.dom().contains(p) && board[p].color == c
}

/// `path` steps from cell to touching cell and stays on tiles of colour `c`.
pub open spec fn is_walk(board: Map<Position, TileView>, c: Color, path: Seq<Position>) -> bool {
    &&& path.len() > 0
    &&& forall|i: int| 0 <= i < path.len() ==> shows(board, #[trigger] path[i], c)
    &&& forall|i: int, j: int|
        0 <= i && j == i + 1 && j < path.len() ==> (#[trigger] path[i]).touches(#[trigger] path[j])
}

/// A walk over tiles of colour `c` leads from `from` to `to`.
pub open spec fn linked(board: Map<Position, TileView>, c: Color, from: Position, to: Position) -> bool {
    exists|path: Seq<Position>| #[trigger]
        is_walk(board, c, path) && path.first() == from && path.last() == to
}

/// The maximal connected group of tiles of colour `c` that `start` belongs to;
/// empty when `start` holds no tile of that colour.
pub open spec fn region(board: Map<Position, TileView>, c: Color, start: Position) -> Set<Position> {
    Set::new(|q: Position| linked(board, c, start, q))
}

/// Every cell of `smaller` holds a tile of the same colour in `larger`.
pub open spec fn extends(larger: Map<Position, TileView>, smaller: Map<Position, TileView>) -> bool {
    forall|p: Position| #[trigger]
        smaller.dom().contains(p) ==> larger.dom().contains(p) && larger[p].color
            == smaller[p].color
}

/// A tile of the right colour is in its own region.
pub proof fn lemma_region_holds_start(board: Map<Position, TileView>, c: Color, start: Position)
    requires
        shows(board, start, c),
    ensures
        region(board, c, start).contains(start),
{
    let path = seq![start];
    assert(is_walk(board, c, path));
    assert(path.first() == start && path.last() == start);
}

/// A region takes in every touching tile of its colour.
pub proof fn lemma_region_takes_neighbour(
    board: Map<Position, TileView>,
    c: Color,
    start: Position,
    member: Position,
    next: Position,
)
    requires
        region(board, c, start).contains(member),
        member.touches(next),
        shows(board, next, c),
    ensures
        region(board, c, start).contains(next),
{
    let path = choose|path: Seq<Position>| #[trigger]
        is_walk(board, c, path) && path.first() == start && path.last() == member;
    let longer = path.push(next);
    assert forall|i: int| 0 <= i < longer.len() implies shows(board, #[trigger] longer[i], c) by {
        if i < path.len() {
            assert(longer[i] == path[i]);
        }
    }
    assert forall|i: int, j: int| 0 <= i && j == i + 1 && j < longer.len() implies (
    #[trigger] longer[i]).touches(#[trigger] longer[j]) by {
        if j < path.len() {
            assert(longer[i] == path[i] && longer[j] == path[j]);
        } else {
            assert(longer[i] == path.last());
        }
    }
    assert(is_walk(board, c, longer));
    assert(longer.first() == start && longer.last() == next);
}

/// A region holds nothing but tiles of its colour.
pub proof fn lemma_region_shows_color(
    board: Map<Position, TileView>,
    c: Color,
    start: Position,
    member: Position,
)
    requires
        region(board, c, start).contains(member),
    ensures
        shows(board, member, c),
        shows(board, start, c),
{
    let path = choose|path: Seq<Position>| #[trigger]
        is_walk(board, c, path) && path.first() == start && path.last() == member;
    assert(shows(board, path[path.len() - 1], c));
    assert(shows(board, path[0], c));
}

/// A region lies within the cells of the board, so it is finite when the board is.
pub proof fn lemma_region_within_board(board: Map<Position, TileView>, c: Color, start: Position)
    ensures
        region(board, c, start).subset_of(board.dom()),
        board.dom().finite() ==> region(board, c, start).finite(),
        board.dom().finite() ==> region(board, c, start).len() <= board.dom().len(),
{
    assert forall|q: Position| region(board, c, start).contains(q) implies board.dom().contains(
        q,
    ) by {
        lemma_region_shows_color(board, c, start, q);
    }
    if board.dom().finite() {
        vstd::set_lib::lemma_len_subset(region(board, c, start), board.dom());
    }
}

/// A set that holds `start` and takes in every touching tile of colour `c`
/// holds the whole region of `start`.
pub proof fn lemma_region_within_closed_set(
    board: Map<Position, TileView>,
    c: Color,
    start: Position,
    closed: Set<Position>,
)
    requires
        shows(board, start, c) ==> closed.contains(start),
        forall|r: Position, q: Position|
            closed.contains(r) && #[trigger] r.touches(q) && shows(board, q, c)
                ==> closed.contains(q),
    ensures
        region(board, c, start).subset_of(closed),
{
    assert forall|q: Position| region(board, c, start).contains(q) implies closed.contains(q) by {
        let path = choose|path: Seq<Position>| #[trigger]
            is_walk(board, c, path) && path.first() == start && path.last() == q;
        lemma_walk_within_closed_set(board, c, path, closed, path.len() - 1);
    }
}

proof fn lemma_walk_within_closed_set(
    board: Map<Position, TileView>,
    c: Color,
    path: Seq<Position>,
    closed: Set<Position>,
    upto: int,
)
    requires
        is_walk(board, c, path),
        closed.contains(path.first()),
        forall|r: Position, q: Position|
            closed.contains(r) && #[trigger] r.touches(q) && shows(board, q, c)
                ==> closed.contains(q),
        0 <= upto < path.len(),
    ensures
        closed.contains(path[upto]),
    decreases upto,
{
    if upto > 0 {
        lemma_walk_within_closed_set(board, c, path, closed, upto - 1);
        assert(path[upto - 1].touches(path[upto]));
        assert(shows(board, path[upto], c));
    }
}

/// Laying more tiles never shrinks a region.
pub proof fn lemma_region_grows(
    larger: Map<Position, TileView>,
    smaller: Map<Position, TileView>,
    c: Color,
    start: Position,
)
    requires
        extends(larger, smaller),
    ensures
        region(smaller, c, start).subset_of(region(larger, c, start)),
{
    assert forall|q: Position| region(smaller, c, start).contains(q) implies region(
        larger,
        c,
        start,
    ).contains(q) by {
        let path = choose|path: Seq<Position>| #[trigger]
            is_walk(smaller, c, path) && path.first() == start && path.last() == q;
        assert forall|i: int| 0 <= i < path.len() implies shows(larger, #[trigger] path[i], c) by {
            assert(shows(smaller, path[i], c));
        }
        assert(is_walk(larger, c, path));
    }
}

} // verus!

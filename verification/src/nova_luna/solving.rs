//! When a task is complete: the colours around its tile, counted by the size
//! of the connected regions they belong to.

use vstd::prelude::*;
use crate::nova_luna::board::Board;
use crate::nova_luna::geometry::{holds, Position};
use crate::nova_luna::region::{
    lemma_region_holds_start,
    lemma_region_takes_neighbour,
    lemma_region_within_board,
    lemma_region_within_closed_set,
    region,
    shows,
};
use crate::nova_luna::tally::{lemma_sum_over_next, lemma_sum_over_nothing, sum_over};
use crate::nova_luna::tile::{Color, Task, TileView};

verus! {

/// What the neighbour on cell `via` gives to a task of the tile on `owner`
/// that asks for colour `c`: the size of the neighbour's region, not counting
/// `owner` itself, if the neighbour has that colour, and nothing otherwise.
pub open spec fn feed(board: Map<Position, TileView>, owner: Position, c: Color, via: Position) -> nat {
    if shows(board, via, c) {
        region(board, c, via).remove(owner).len()
    } else {
        0
    }
}

/// For each cell, what a neighbour there gives to a task of the tile on
/// `owner` that asks for colour `c`.
pub open spec fn feeds(board: Map<Position, TileView>, owner: Position, c: Color) -> spec_fn(
    Position,
) -> nat {
    |via: Position| feed(board, owner, c, via)
}

/// What the neighbours of `owner` together give for colour `c`. Two
/// neighbours in one region both give that region's size.
pub open spec fn supply(board: Map<Position, TileView>, owner: Position, c: Color) -> nat {
    sum_over(owner.surroundings(), feeds(board, owner, c))
}

/// How often `required` asks for colour `c`.
pub open spec fn demand(required: Seq<Color>, c: Color) -> nat {
    required.to_multiset().count(c)
}

/// A task of the tile on `owner` that asks for `required` is complete on
/// `board`: for every colour the neighbours give at least as much as is asked.
pub open spec fn satisfied(board: Map<Position, TileView>, owner: Position, required: Seq<Color>) -> bool {
    forall|c: Color| demand(required, c) <= supply(board, owner, c)
}

fn count_color(colors: &Vec<Color>, c: Color) -> (n: usize)
    ensures
        n == demand(colors@, c),
{
    let mut n: usize = 0;
    let mut i: usize = 0;
    proof {
        let nothing = colors@.take(0);
        nothing.to_multiset_ensures();
        assert(!nothing.contains(c));
    }
    while i < colors.len()
        invariant
            i <= colors.len(),
            n <= i,
            n == demand(colors@.take(i as int), c),
        decreases colors.len() - i,
    {
        proof {
            let before = colors@.take(i as int);
            assert(colors@.take(i + 1) =~= before.push(colors@[i as int]));
            before.to_multiset_ensures();
            vstd::multiset::lemma_insert_increases_count_by_1(
                before.to_multiset(),
                colors@[i as int],
            );
            vstd::multiset::lemma_insert_other_elements_unchanged(
                before.to_multiset(),
                colors@[i as int],
                c,
            );
        }
        if colors[i] == c {
            n += 1;
        }
        i += 1;
    }
    assert(colors@.take(colors.len() as int) =~= colors@);
    n
}

fn feed_of(owner: Position, color: Color, via: Position, board: &Board) -> (n: usize)
    requires
        board.wf(),
    ensures
        n == feed(board@, owner, color, via),
{
    if board.color_at(&via) == Some(color) {
        let tiles = Task::search_for_adjacent_tiles_matching_color(via, color, board);
        proof {
            board.lemma_wf();
            lemma_region_within_board(board@, color, via);
            tiles@.unique_seq_to_set();
        }
        if holds(&tiles, owner) {
            tiles.len() - 1
        } else {
            tiles.len()
        }
    } else {
        0
    }
}

fn supply_of(owner: Position, color: Color, board: &Board) -> (n: u128)
    requires
        board.wf(),
    ensures
        n == supply(board@, owner, color),
{
    let around = owner.adjacent_in_range();
    let ghost f = feeds(board@, owner, color);
    let mut n: u128 = 0;
    let mut i: usize = 0;
    proof {
        assert(around@.take(0).to_set() =~= Set::<Position>::empty());
        lemma_sum_over_nothing(f);
    }
    while i < around.len()
        invariant
            board.wf(),
            f == feeds(board@, owner, color),
            around@.no_duplicates(),
            around@.len() <= 4,
            i <= around@.len(),
            n == sum_over(around@.take(i as int).to_set(), f),
            n <= i * usize::MAX,
        decreases around@.len() - i,
    {
        let given = feed_of(owner, color, around[i], board);
        proof {
            lemma_sum_over_next(around@, i as int, f);
            assert(i * usize::MAX + usize::MAX == (i + 1) * usize::MAX) by (nonlinear_arith);
            assert(i * usize::MAX <= 4 * usize::MAX) by (nonlinear_arith)
                requires
                    0 <= i <= 4,
            ;
        }
        n = n + given as u128;
        i += 1;
    }
    assert(around@.take(around@.len() as int) =~= around@);
    n
}

impl Task {
    /// Whether the task, carried by the tile on `pos`, is complete on `state`.
    /// The answer does not depend on whether the task is already marked as solved.
    pub fn is_solved(&self, pos: Position, state: &Board) -> (complete: bool)
        requires
            state.wf(),
        ensures
            complete == satisfied(state@, pos, self@.required),
    {
        let colors = self.colors();
        let palette = [Color::Blue, Color::Yellow, Color::Teal, Color::Red];
        let mut i: usize = 0;
        while i < 4
            invariant
                i <= 4,
                state.wf(),
                colors@ == self@.required,
                palette@ == seq![Color::Blue, Color::Yellow, Color::Teal, Color::Red],
                forall|k: int|
                    0 <= k < i ==> demand(colors@, #[trigger] palette@[k]) <= supply(
                        state@,
                        pos,
                        palette@[k],
                    ),
            decreases 4 - i,
        {
            let color = palette[i];
            let asked = count_color(colors, color);
            if asked > 0 && asked as u128 > supply_of(pos, color, state) {
                return false;
            }
            i += 1;
        }
        proof {
            assert forall|c: Color| demand(colors@, c) <= supply(state@, pos, c) by {
                let k: int = match c {
                    Color::Blue => 0,
                    Color::Yellow => 1,
                    Color::Teal => 2,
                    Color::Red => 3,
                };
                assert(palette@[k] == c);
            }
        }
        true
    }

    /// The tiles of colour `color` that are connected to `position` through
    /// tiles of that colour, `position` itself among them; none if `position`
    /// holds no tile of that colour. Each is listed once.
    pub fn search_for_adjacent_tiles_matching_color(
        position: Position,
        color: Color,
        board: &Board,
    ) -> (adjacent_tiles: Vec<Position>)
        requires
            board.wf(),
        ensures
            adjacent_tiles@.no_duplicates(),
            adjacent_tiles@.to_set() == region(board@, color, position),
    {
        let mut unvisited_positions: Vec<Position> = Vec::new();
        unvisited_positions.push(position);
        let mut adjacent_tiles: Vec<Position> = Vec::new();
        proof {
            board.lemma_wf();
            assert(unvisited_positions@[0] == position);
        }
        while unvisited_positions.len() > 0
            invariant
                board.wf(),
                board@.dom().finite(),
                adjacent_tiles@.no_duplicates(),
                adjacent_tiles@.len() <= board@.dom().len(),
                forall|i: int|
                    0 <= i < adjacent_tiles@.len() ==> region(board@, color, position).contains(
                        #[trigger] adjacent_tiles@[i],
                    ),
                forall|i: int|
                    0 <= i < unvisited_positions@.len() ==> {
                        ||| #[trigger] unvisited_positions@[i] == position
                        ||| exists|k: int|
                            0 <= k < adjacent_tiles@.len() && (#[trigger] adjacent_tiles@[k]).touches(
                                unvisited_positions@[i],
                            )
                    },
                shows(board@, position, color) ==> adjacent_tiles@.contains(position)
                    || unvisited_positions@.contains(position),
                forall|r: Position, q: Position|
                    adjacent_tiles@.contains(r) && #[trigger] r.touches(q) && shows(
                        board@,
                        q,
                        color,
                    ) ==> adjacent_tiles@.contains(q) || unvisited_positions@.contains(q),
            decreases 4 * (board@.dom().len() - adjacent_tiles@.len()) + unvisited_positions@.len(),
        {
            let ghost stack_before = unvisited_positions@;
            let ghost found_before = adjacent_tiles@;
            let pos = unvisited_positions.pop().unwrap();
            let ghost stack_popped = unvisited_positions@;
            assert(stack_before =~= stack_popped.push(pos));
            let fresh = !holds(&adjacent_tiles, pos) && board.color_at(&pos) == Some(color);
            if fresh {
                proof {
                    board.lemma_wf();
                    assert(shows(board@, pos, color));
                    // the new tile belongs to the region
                    let k0 = stack_before.len() - 1;
                    assert(stack_before[k0] == pos);
                    if pos == position {
                        lemma_region_holds_start(board@, color, position);
                    } else {
                        let k = choose|k: int|
                            0 <= k < found_before.len() && (#[trigger] found_before[k]).touches(pos);
                        lemma_region_takes_neighbour(board@, color, position, found_before[k], pos);
                    }
                }
                adjacent_tiles.push(pos);
                let mut around = pos.adjacent_in_range();
                let ghost reached = around@;
                unvisited_positions.append(&mut around);
                proof {
                    let found = adjacent_tiles@;
                    let stack = unvisited_positions@;
                    assert(found =~= found_before.push(pos));
                    assert(stack =~= stack_popped + reached);
                    // no tile is listed twice, and no more tiles than the board has
                    lemma_region_within_board(board@, color, position);
                    assert(found.to_set().subset_of(board@.dom())) by {
                        assert forall|q: Position| found.to_set().contains(q) implies board@.dom().contains(q) by {
                            let i = choose|i: int| 0 <= i < found.len() && found[i] == q;
                            assert(region(board@, color, position).contains(found[i]));
                        }
                    }
                    found.unique_seq_to_set();
                    vstd::set_lib::lemma_len_subset(found.to_set(), board@.dom());
                    // what waits was reached from a listed tile
                    assert forall|i: int| 0 <= i < stack.len() implies {
                        ||| #[trigger] stack[i] == position
                        ||| exists|k: int|
                            0 <= k < found.len() && (#[trigger] found[k]).touches(stack[i])
                    } by {
                        if i < stack_popped.len() {
                            assert(stack[i] == stack_before[i]);
                            if stack[i] != position {
                                let k = choose|k: int|
                                    0 <= k < found_before.len() && (
                                    #[trigger] found_before[k]).touches(stack_before[i]);
                                assert(found[k] == found_before[k]);
                            }
                        } else {
                            let last = found.len() - 1;
                            assert(found[last] == pos);
                            assert(reached[i - stack_popped.len()] == stack[i]);
                            assert(reached.to_set().contains(stack[i]));
                            assert(found[last].touches(stack[i]));
                        }
                    }
                    // the start is listed or waits
                    if shows(board@, position, color) {
                        if found_before.contains(position) {
                            let i = choose|i: int| 0 <= i < found_before.len() && found_before[i] == position;
                            assert(found[i] == position);
                        } else {
                            let i = choose|i: int| 0 <= i < stack_before.len() && stack_before[i] == position;
                            if i < stack_popped.len() {
                                assert(stack[i] == position);
                            } else {
                                assert(found[found.len() - 1] == position);
                            }
                        }
                    }
                    // every touching tile of the colour is listed or waits
                    assert forall|r: Position, q: Position|
                        found.contains(r) && #[trigger] r.touches(q) && shows(
                            board@,
                            q,
                            color,
                        ) implies found.contains(q) || stack.contains(q) by {
                        if r == pos {
                            assert(reached.to_set().contains(q));
                            let i = choose|i: int| 0 <= i < reached.len() && reached[i] == q;
                            assert(stack[stack_popped.len() + i] == q);
                        } else {
                            let k = choose|k: int| 0 <= k < found.len() && found[k] == r;
                            assert(found_before[k] == r);
                            assert(found_before.contains(r));
                            if found_before.contains(q) {
                                let i = choose|i: int| 0 <= i < found_before.len() && found_before[i] == q;
                                assert(found[i] == q);
                            } else {
                                let i = choose|i: int| 0 <= i < stack_before.len() && stack_before[i] == q;
                                if i < stack_popped.len() {
                                    assert(stack[i] == q);
                                } else {
                                    assert(found[found.len() - 1] == q);
                                }
                            }
                        }
                    }
                }
            } else {
                proof {
                    let found = adjacent_tiles@;
                    let stack = unvisited_positions@;
                    board.lemma_wf();
                    assert(found.contains(pos) || !shows(board@, pos, color));
                    assert forall|i: int| 0 <= i < stack.len() implies {
                        ||| #[trigger] stack[i] == position
                        ||| exists|k: int|
                            0 <= k < found.len() && (#[trigger] found[k]).touches(stack[i])
                    } by {
                        assert(stack[i] == stack_before[i]);
                    }
                    if shows(board@, position, color) && !found.contains(position) {
                        let i = choose|i: int| 0 <= i < stack_before.len() && stack_before[i] == position;
                        if i < stack.len() {
                            assert(stack[i] == position);
                        }
                    }
                    assert forall|r: Position, q: Position|
                        found.contains(r) && #[trigger] r.touches(q) && shows(
                            board@,
                            q,
                            color,
                        ) implies found.contains(q) || stack.contains(q) by {
                        if !found.contains(q) {
                            let i = choose|i: int| 0 <= i < stack_before.len() && stack_before[i] == q;
                            if i < stack.len() {
                                assert(stack[i] == q);
                            }
                        }
                    }
                }
            }
        }
        proof {
            let found = adjacent_tiles@;
            assert(unvisited_positions@ =~= Seq::<Position>::empty());
            lemma_region_within_closed_set(board@, color, position, found.to_set());
            assert(found.to_set() =~= region(board@, color, position));
        }
        adjacent_tiles
    }
}

} // verus!

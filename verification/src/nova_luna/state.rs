//! A state of the game: the board and the pool of tiles still to be laid.

use vstd::prelude::*;
use crate::nova_luna::board::Board;
use crate::nova_luna::geometry::{holds, Position};
use crate::nova_luna::rules::{
    among,
    lemma_other_colors_untouched,
    lemma_resolved_is_settled,
    settled,
    candidates,
    free_cells_around,
    moves_onto,
    origin,
    with_free_cells,
    with_tile_on,
    resolved,
    settle,
    settle_task,
    settle_upto,
    solved_count,
    solved_on,
    StateView,
};
use crate::nova_luna::tally::{lemma_sum_over_next, lemma_sum_over_nothing, sum_over};
use crate::nova_luna::tile::{move_views, task_views, tile_views, Move, MoveView, Tile, TileView};

verus! {

/// The board and the pool of tiles still to be laid.
#[derive(Debug)]
pub struct State {
    board: Board,
    tiles: Vec<Tile>,
}

impl View for State {
    type V = StateView;

    closed spec fn view(&self) -> StateView {
        StateView { placed: self.board@, unplaced: tile_views(self.tiles@) }
    }
}

fn count_solved(tile: &Tile) -> (n: usize)
    ensures
        n == solved_count(tile@.tasks),
        n <= tile@.tasks.len(),
{
    let tasks = tile.tasks();
    let ghost views = task_views(tasks@);
    let mut n: usize = 0;
    let mut k: usize = 0;
    while k < tasks.len()
        invariant
            k <= tasks.len(),
            n <= k,
            views == task_views(tasks@),
            n == solved_count(views.take(k as int)),
        decreases tasks.len() - k,
    {
        proof {
            assert(views.take(k + 1).drop_last() =~= views.take(k as int));
            assert(views.take(k + 1).last() == tasks@[k as int]@);
        }
        if tasks[k].solved() {
            n += 1;
        }
        k += 1;
    }
    assert(views.take(tasks.len() as int) =~= views);
    n
}

/// One of the first `upto` cells of `order` touches `p`.
spec fn near(order: Seq<Position>, upto: int, p: Position) -> bool {
    exists|k: int| 0 <= k < upto && (#[trigger] order[k]).touches(p)
}

fn seen_before(tiles: &Vec<Tile>, index: usize) -> (seen: bool)
    requires
        index < tiles.len(),
    ensures
        seen == among(tile_views(tiles@), index as int, tiles@[index as int]@),
{
    let mut j: usize = 0;
    while j < index
        invariant
            j <= index < tiles.len(),
            !among(tile_views(tiles@), j as int, tiles@[index as int]@),
        decreases index - j,
    {
        if tiles[j].eq(&tiles[index]) {
            assert(tile_views(tiles@)[j as int] == tiles@[index as int]@);
            return true;
        }
        j += 1;
    }
    false
}

/// The index of the first of `tiles` that equals `tile`, if there is one.
fn first_match(tiles: &Vec<Tile>, tile: &Tile) -> (found: Option<usize>)
    ensures
        match found {
            Some(i) => {
                &&& i < tiles.len()
                &&& tile_views(tiles@).contains(tile@)
                &&& tile_views(tiles@).index_of_first(tile@) == Some(i as int)
            },
            None => !tile_views(tiles@).contains(tile@),
        },
{
    let ghost pool = tile_views(tiles@);
    let mut i: usize = 0;
    while i < tiles.len()
        invariant
            i <= tiles.len(),
            pool == tile_views(tiles@),
            forall|k: int| 0 <= k < i ==> pool[k] != tile@,
        decreases tiles.len() - i,
    {
        if tiles[i].eq(tile) {
            proof {
                assert(pool[i as int] == tile@);
                assert(pool.contains(tile@));
                pool.index_of_first_ensures(tile@);
                let first = pool.index_of_first(tile@).unwrap();
                if first < i {
                    assert(pool[first] != tile@);
                }
                if i < first {
                    assert(pool[i as int] != tile@);
                }
            }
            return Some(i);
        }
        i += 1;
    }
    None
}

impl State {
    /// The state is well formed: no cell holds two tiles, and no task on
    /// the board that is complete is left unmarked.
    pub closed spec fn wf(&self) -> bool {
        self.board.wf() && settled(self.board@)
    }

    /// The occupied cells in the order in which their tiles were laid.
    pub closed spec fn order(&self) -> Seq<Position> {
        self.board.order()
    }

    /// The board of a well-formed state is finite, and every task on it
    /// that is complete is marked as solved.
    pub proof fn lemma_wf(&self)
        requires
            self.wf(),
        ensures
            self@.placed.dom().finite(),
            settled(self@.placed),
    {
        self.board.lemma_wf();
    }

    /// The state with nothing laid and nothing to lay.
    pub fn empty() -> (state: State)
        ensures
            state.wf(),
            state@ == (StateView { placed: Map::empty(), unplaced: Seq::empty() }),
            state.order() == Seq::<Position>::empty(),
    {
        let state = State::with_tiles(Vec::new());
        assert(state@.unplaced =~= Seq::<TileView>::empty());
        state
    }

    /// The state at the start of a game: nothing laid, and `tiles` to lay.
    pub fn with_tiles(tiles: Vec<Tile>) -> (state: State)
        ensures
            state.wf(),
            state@ == (StateView { placed: Map::empty(), unplaced: tile_views(tiles@) }),
            state.order() == Seq::<Position>::empty(),
    {
        State { board: Board::new(), tiles }
    }

    /// The tiles laid so far.
    pub fn board(&self) -> (board: &Board)
        ensures
            board@ == self@.placed,
            board.order() == self.order(),
            self.wf() ==> board.wf(),
    {
        &self.board
    }

    /// The tiles still to be laid, in order.
    pub fn tiles(&self) -> (tiles: &Vec<Tile>)
        ensures
            tile_views(tiles@) == self@.unplaced,
    {
        &self.tiles
    }

    /// The cells on which a tile may be laid, each listed once: the origin
    /// on an empty board; else the free cells round the tile that was laid
    /// first, then those round the second, and so on.
    pub fn candidate_positions(&self) -> (cells: Vec<Position>)
        requires
            self.wf(),
        ensures
            cells@ == candidates(self.order()),
            cells@.no_duplicates(),
            forall|p: Position| #[trigger] cells@.contains(p) <==> self@.candidate(p),
    {
        let mut cells: Vec<Position> = Vec::new();
        let ghost order = self.board.order();
        let ghost dom = self.board@.dom();
        proof {
            self.board.lemma_wf();
        }
        if self.board.is_empty() {
            cells.push(Position(0, 0));
            proof {
                assert(dom.is_empty()) by {
                    assert(dom.len() == 0);
                }
                assert(cells@[0] == origin());
                assert(cells@ =~= seq![origin()]);
            }
            return cells;
        }
        let mut i: usize = 0;
        while i < self.board.len()
            invariant
                self.wf(),
                order == self.board.order(),
                dom == self.board@.dom(),
                order.to_set() == dom,
                i <= order.len(),
                cells@ == free_cells_around(order, i as int, dom),
                cells@.no_duplicates(),
                forall|p: Position| #[trigger]
                    cells@.contains(p) <==> !dom.contains(p) && near(order, i as int, p),
            decreases order.len() - i,
        {
            let here = self.board.position_at(i);
            let around = here.adjacent_in_range();
            let ghost start = cells@;
            let mut j: usize = 0;
            while j < around.len()
                invariant
                    self.wf(),
                    dom == self.board@.dom(),
                    i < order.len(),
                    here == order[i as int],
                    around@ == here.surrounding_cells(),
                    around@.to_set() == here.surroundings(),
                    j <= around@.len(),
                    cells@ == with_free_cells(start, around@, j as int, dom),
                    cells@.no_duplicates(),
                    forall|p: Position| #[trigger]
                        cells@.contains(p) <==> !dom.contains(p) && (near(order, i as int, p)
                            || exists|m: int| 0 <= m < j && #[trigger] around@[m] == p),
                decreases around@.len() - j,
            {
                let q = around[j];
                let ghost before = cells@;
                if !self.board.contains_key(&q) && !holds(&cells, q) {
                    cells.push(q);
                    proof {
                        assert forall|p: Position| cells@.contains(p) <==> before.contains(p) || p
                            == q by {
                            vstd::seq_lib::lemma_seq_contains_after_push(before, q, p);
                        }
                    }
                }
                proof {
                    assert(q == around@[j as int]);
                    assert(cells@.contains(q) || dom.contains(q));
                    assert forall|p: Position| #[trigger]
                        cells@.contains(p) <==> !dom.contains(p) && (near(order, i as int, p)
                            || exists|m: int| 0 <= m < j + 1 && #[trigger] around@[m] == p) by {
                        let shown = exists|m: int| 0 <= m < j + 1 && #[trigger] around@[m] == p;
                        if cells@.contains(p) {
                            if p == q {
                                assert(around@[j as int] == p);
                                assert(shown);
                            } else {
                                assert(before.contains(p));
                                if !near(order, i as int, p) {
                                    let m = choose|m: int| 0 <= m < j && #[trigger] around@[m] == p;
                                    assert(0 <= m < j + 1 && around@[m] == p);
                                    assert(shown);
                                }
                            }
                        }
                        if !dom.contains(p) && (near(order, i as int, p) || shown) {
                            if near(order, i as int, p) {
                                assert(before.contains(p));
                            } else {
                                let m = choose|m: int| 0 <= m < j + 1 && #[trigger] around@[m] == p;
                                if m < j {
                                    assert(before.contains(p));
                                } else {
                                    assert(p == q);
                                }
                            }
                        }
                    }
                }
                j += 1;
            }
            proof {
                assert forall|p: Position|
                    cells@.contains(p) <==> !dom.contains(p) && near(order, i + 1, p) by {
                    if near(order, i + 1, p) {
                        let k = choose|k: int| 0 <= k < i + 1 && (#[trigger] order[k]).touches(p);
                        if k == i {
                            assert(around@.to_set().contains(p));
                            let m = choose|m: int| 0 <= m < around@.len() && around@[m] == p;
                            assert(around@[m] == p);
                        } else {
                            assert(near(order, i as int, p));
                        }
                    }
                    if near(order, i as int, p) {
                        let k = choose|k: int| 0 <= k < i && (#[trigger] order[k]).touches(p);
                        assert(order[k].touches(p));
                    }
                    if exists|m: int| 0 <= m < around@.len() && #[trigger] around@[m] == p {
                        let m = choose|m: int| 0 <= m < around@.len() && #[trigger] around@[m] == p;
                        assert(around@.to_set().contains(around@[m]));
                        assert(order[i as int].touches(p));
                    }
                }
            }
            i += 1;
        }
        proof {
            assert(!dom.is_empty()) by {
                assert(dom.contains(order[0]));
            }
            assert forall|p: Position| cells@.contains(p) <==> self@.candidate(p) by {
                if near(order, order.len() as int, p) {
                    let k = choose|k: int| 0 <= k < order.len() && (#[trigger] order[k]).touches(p);
                    assert(dom.contains(order[k]));
                }
                if exists|q: Position| dom.contains(q) && #[trigger] q.touches(p) {
                    let q = choose|q: Position| dom.contains(q) && #[trigger] q.touches(p);
                    let k = choose|k: int| 0 <= k < order.len() && order[k] == q;
                    assert(order[k].touches(p));
                }
            }
        }
        cells
    }

    /// The moves the state offers: every distinct tile of the pool on every
    /// cell on which a tile may be laid. No move is listed twice. The moves
    /// of a tile that comes earlier in the pool come earlier, and the moves
    /// of one tile are in the order of `candidate_positions`.
    pub fn available_moves(&self) -> (moves: Vec<Move>)
        requires
            self.wf(),
        ensures
            move_views(moves@) == moves_onto(
                self@.unplaced,
                self@.unplaced.len() as int,
                candidates(self.order()),
            ),
            move_views(moves@).no_duplicates(),
            forall|m: MoveView| move_views(moves@).contains(m) <==> self@.offers(m),
    {
        let cells = self.candidate_positions();
        let ghost pool = tile_views(self.tiles@);
        let mut moves: Vec<Move> = Vec::new();
        let mut t: usize = 0;
        while t < self.tiles.len()
            invariant
                t <= self.tiles.len(),
                pool == tile_views(self.tiles@),
                cells@.no_duplicates(),
                move_views(moves@) == moves_onto(pool, t as int, cells@),
                move_views(moves@).no_duplicates(),
                forall|m: MoveView|
                    move_views(moves@).contains(m) <==> cells@.contains(m.position) && among(
                        pool,
                        t as int,
                        m.tile,
                    ),
            decreases self.tiles.len() - t,
        {
            let ghost tile = pool[t as int];
            let ghost start = move_views(moves@);
            if !seen_before(&self.tiles, t) {
                let mut c: usize = 0;
                while c < cells.len()
                    invariant
                        start == moves_onto(pool, t as int, cells@),
                        move_views(moves@) == with_tile_on(start, tile, cells@, c as int),
                        t < self.tiles.len(),
                        pool == tile_views(self.tiles@),
                        tile == pool[t as int],
                        !among(pool, t as int, tile),
                        c <= cells.len(),
                        cells@.no_duplicates(),
                        move_views(moves@).no_duplicates(),
                        forall|m: MoveView|
                            move_views(moves@).contains(m) <==> (cells@.contains(m.position)
                                && among(pool, t as int, m.tile)) || (m.tile == tile && exists|k: int|
                                0 <= k < c && #[trigger] cells@[k] == m.position),
                    decreases cells.len() - c,
                {
                    let ghost before = move_views(moves@);
                    let mov = Move::new(self.tiles[t].clone(), cells[c]);
                    let ghost added = mov@;
                    proof {
                        assert(added == MoveView { tile, position: cells@[c as int] });
                        if before.contains(added) {
                            if exists|k: int| 0 <= k < c && #[trigger] cells@[k] == added.position {
                                let k = choose|k: int|
                                    0 <= k < c && #[trigger] cells@[k] == added.position;
                                assert(cells@[k] == cells@[c as int]);
                            }
                            assert(false);
                        }
                    }
                    moves.push(mov);
                    proof {
                        let after = move_views(moves@);
                        assert(after =~= before.push(added));
                        assert forall|m: MoveView| after.contains(m) <==> before.contains(m) || m
                            == added by {
                            vstd::seq_lib::lemma_seq_contains_after_push(before, added, m);
                        }
                        assert(after.no_duplicates()) by {
                            assert forall|a: int, b: int|
                                0 <= a < after.len() && 0 <= b < after.len() && a != b implies after[a]
                                != after[b] by {
                                if a == before.len() {
                                    assert(before[b] == after[b]);
                                    assert(before.contains(before[b]));
                                } else if b == before.len() {
                                    assert(before[a] == after[a]);
                                    assert(before.contains(before[a]));
                                } else {
                                    assert(before[a] == after[a] && before[b] == after[b]);
                                }
                            }
                        }
                        assert forall|m: MoveView|
                            after.contains(m) <==> (cells@.contains(m.position) && among(
                                pool,
                                t as int,
                                m.tile,
                            )) || (m.tile == tile && exists|k: int|
                                0 <= k < c + 1 && #[trigger] cells@[k] == m.position) by {
                            if m.tile == tile && exists|k: int|
                                0 <= k < c + 1 && #[trigger] cells@[k] == m.position {
                                let k = choose|k: int|
                                    0 <= k < c + 1 && #[trigger] cells@[k] == m.position;
                                if k == c {
                                    assert(m == added);
                                }
                            }
                            if m == added {
                                assert(cells@[c as int] == m.position);
                            }
                        }
                    }
                    c += 1;
                }
                proof {
                    assert forall|m: MoveView|
                        move_views(moves@).contains(m) <==> cells@.contains(m.position) && among(
                            pool,
                            t + 1,
                            m.tile,
                        ) by {
                        if among(pool, t + 1, m.tile) {
                            let j = choose|j: int| 0 <= j < t + 1 && #[trigger] pool[j] == m.tile;
                            if j < t {
                                assert(among(pool, t as int, m.tile));
                            }
                        }
                        if among(pool, t as int, m.tile) {
                            let j = choose|j: int| 0 <= j < t && #[trigger] pool[j] == m.tile;
                            assert(pool[j] == m.tile);
                        }
                        if m.tile == tile {
                            assert(pool[t as int] == m.tile);
                        }
                        if cells@.contains(m.position) {
                            let k = choose|k: int| 0 <= k < cells@.len() && cells@[k] == m.position;
                            assert(cells@[k] == m.position);
                        }
                    }
                }
            } else {
                proof {
                    assert forall|m: MoveView|
                        among(pool, t + 1, m.tile) <==> among(pool, t as int, m.tile) by {
                        if among(pool, t + 1, m.tile) {
                            let j = choose|j: int| 0 <= j < t + 1 && #[trigger] pool[j] == m.tile;
                            if j == t {
                                let e = choose|e: int| 0 <= e < t && #[trigger] pool[e] == tile;
                                assert(pool[e] == m.tile);
                            }
                        }
                        if among(pool, t as int, m.tile) {
                            let j = choose|j: int| 0 <= j < t && #[trigger] pool[j] == m.tile;
                            assert(pool[j] == m.tile);
                        }
                    }
                }
            }
            t += 1;
        }
        proof {
            assert forall|m: MoveView| move_views(moves@).contains(m) <==> self@.offers(m) by {
                if among(pool, self.tiles.len() as int, m.tile) {
                    let j = choose|j: int| 0 <= j < pool.len() && #[trigger] pool[j] == m.tile;
                    assert(pool.contains(m.tile));
                }
                if pool.contains(m.tile) {
                    let j = choose|j: int| 0 <= j < pool.len() && pool[j] == m.tile;
                    assert(pool[j] == m.tile);
                }
            }
        }
        moves
    }

    /// Whether `mov` can be applied to the state.
    pub fn can_make_move(&self, mov: &Move) -> (accepted: bool)
        requires
            self.wf(),
        ensures
            accepted == self@.accepts(mov@),
    {
        let position = mov.position();
        !self.board.contains_key(&position) && first_match(
            &self.tiles,
            mov.tile(),
        ).is_some()
    }

    /// Lays the move's tile on the move's cell: the first tile of the pool
    /// that equals it leaves the pool, and every task on the board that is
    /// complete afterwards is marked as solved. Only the tasks of the new
    /// tile and the tasks that ask for its colour are looked at: for the
    /// others nothing has changed.
    pub fn make_move(&mut self, mov: &Move)
        requires
            old(self).wf(),
            old(self)@.accepts(mov@),
        ensures
            final(self).wf(),
            final(self)@ == old(self)@.after_move(mov@),
            final(self).order() == old(self).order().push(mov@.position),
    {
        let ghost before = self@;
        let idx = first_match(&self.tiles, mov.tile()).unwrap();
        self.tiles.remove(idx);
        let ghost pool = tile_views(self.tiles@);
        assert(pool =~= before.unplaced.remove_value(mov@.tile));
        let here = mov.position();
        let color = mov.tile().color();
        self.board.insert(here, mov.tile().clone());
        let ghost laid = self.board@;
        let ghost order = self.board.order();
        assert(laid == before.placed.insert(mov@.position, mov@.tile));
        proof {
            self.board.lemma_wf();
        }
        let mut i: usize = 0;
        while i < self.board.len()
            invariant
                self.board.wf(),
                settled(before.placed),
                !before.placed.dom().contains(here),
                laid == before.placed.insert(here, mov@.tile),
                color == mov@.tile.color,
                pool == tile_views(self.tiles@),
                order == self.board.order(),
                order.no_duplicates(),
                order.to_set() == laid.dom(),
                self.board@.dom() == laid.dom(),
                forall|p: Position| #[trigger]
                    laid.dom().contains(p) ==> self.board@[p].color == laid[p].color,
                i <= order.len(),
                forall|j: int|
                    0 <= j < i ==> self.board@[#[trigger] order[j]] == settle(
                        laid,
                        order[j],
                        laid[order[j]],
                    ),
                forall|j: int| i <= j < order.len() ==> self.board@[#[trigger] order[j]] == laid[order[j]],
            decreases order.len() - i,
        {
            let pos = self.board.position_at(i);
            let count = self.board.tile_at(i).task_count();
            let ghost unsettled = laid[pos];
            assert(order.to_set().contains(pos));
            assert(settle_upto(laid, pos, unsettled, 0).tasks =~= unsettled.tasks);
            let mut k: usize = 0;
            while k < count
                invariant
                    self.board.wf(),
                    settled(before.placed),
                    !before.placed.dom().contains(here),
                    laid == before.placed.insert(here, mov@.tile),
                    color == mov@.tile.color,
                    pool == tile_views(self.tiles@),
                    order == self.board.order(),
                    order.no_duplicates(),
                    order.to_set() == laid.dom(),
                    self.board@.dom() == laid.dom(),
                    forall|p: Position| #[trigger]
                        laid.dom().contains(p) ==> self.board@[p].color == laid[p].color,
                    i < order.len(),
                    pos == order[i as int],
                    laid.dom().contains(pos),
                    unsettled == laid[pos],
                    count == unsettled.tasks.len(),
                    k <= count,
                    self.board@[pos] == settle_upto(laid, pos, unsettled, k as int),
                    forall|j: int|
                        0 <= j < i ==> self.board@[#[trigger] order[j]] == settle(
                            laid,
                            order[j],
                            laid[order[j]],
                        ),
                    forall|j: int|
                        i < j < order.len() ==> self.board@[#[trigger] order[j]] == laid[order[j]],
                decreases count - k,
            {
                let ghost current = self.board@;
                let task = self.board.tile_at(i).task(k);
                proof {
                    assert(task@ == unsettled.tasks[k as int]);
                    crate::nova_luna::rules::lemma_satisfied_by_colors(
                        current,
                        laid,
                        pos,
                        task@.required,
                    );
                }
                let complete = !task.solved() && (pos == here || task.has_color(color))
                    && task.is_solved(pos, &self.board);
                if complete {
                    self.board.mark_solved(i, k);
                }
                proof {
                    let next = settle_upto(laid, pos, unsettled, k + 1);
                    let required = unsettled.tasks[k as int].required;
                    if complete {
                        assert(current[pos].with_solved(k as int).tasks =~= next.tasks);
                    } else {
                        if pos != here && !required.contains(color) {
                            lemma_other_colors_untouched(
                                before.placed,
                                here,
                                mov@.tile,
                                pos,
                                required,
                            );
                            assert(before.placed[pos].tasks[k as int] == unsettled.tasks[k as int]);
                        }
                        assert(settle_task(laid, pos, unsettled.tasks[k as int])
                            == unsettled.tasks[k as int]);
                        assert(current[pos].tasks =~= next.tasks);
                    }
                    assert(self.board@[pos] == next);
                    assert forall|j: int| 0 <= j < order.len() && j != i implies self.board@[order[j]]
                        == current[order[j]] by {
                        assert(order[j] != order[i as int]);
                    }
                }
                k += 1;
            }
            i += 1;
        }
        proof {
            assert forall|p: Position| laid.dom().contains(p) implies #[trigger] self.board@[p]
                == resolved(laid)[p] by {
                let j = choose|j: int| 0 <= j < order.len() && order[j] == p;
                assert(self.board@[order[j]] == settle(laid, order[j], laid[order[j]]));
            }
            assert(self.board@ =~= resolved(laid));
            lemma_resolved_is_settled(laid);
        }
    }

    /// The number of solved tasks on the board, or nothing if that number
    /// does not fit the result.
    pub fn checked_count_solved_tasks(&self) -> (n: Option<usize>)
        requires
            self.wf(),
        ensures
            n is Some <==> self@.solved_tasks() <= usize::MAX,
            n matches Some(count) ==> count == self@.solved_tasks(),
    {
        let ghost order = self.board.order();
        let ghost f = solved_on(self.board@);
        let mut n: usize = 0;
        let mut i: usize = 0;
        proof {
            self.board.lemma_wf();
            assert(order.take(0).to_set() =~= Set::<Position>::empty());
            lemma_sum_over_nothing(f);
        }
        while i < self.board.len()
            invariant
                self.wf(),
                order == self.board.order(),
                f == solved_on(self.board@),
                order.no_duplicates(),
                order.to_set() == self.board@.dom(),
                self.board@.dom().finite(),
                i <= order.len(),
                n == sum_over(order.take(i as int).to_set(), f),
            decreases order.len() - i,
        {
            let tile = self.board.tile_at(i);
            let solved = count_solved(tile);
            proof {
                lemma_sum_over_next(order, i as int, f);
            }
            match n.checked_add(solved) {
                Some(sum) => {
                    n = sum;
                },
                None => {
                    return None;
                },
            }
            i += 1;
        }
        assert(order.take(order.len() as int) =~= order);
        Some(n)
    }

    /// The number of solved tasks on the board.
    pub fn count_solved_tasks(&self) -> (n: usize)
        requires
            self.wf(),
            self@.solved_tasks() <= usize::MAX,
        ensures
            n == self@.solved_tasks(),
    {
        self.checked_count_solved_tasks().unwrap()
    }
}

impl Clone for State {
    fn clone(&self) -> (copy: State)
        ensures
            self.wf() ==> copy.wf() && copy@ == self@ && copy.order() == self.order(),
    {
        let mut tiles: Vec<Tile> = Vec::new();
        let mut i: usize = 0;
        while i < self.tiles.len()
            invariant
                i <= self.tiles.len(),
                tiles.len() == i,
                forall|k: int| 0 <= k < i ==> tiles@[k]@ == self.tiles@[k]@,
            decreases self.tiles.len() - i,
        {
            tiles.push(self.tiles[i].clone());
            i += 1;
        }
        assert(tile_views(tiles@) =~= tile_views(self.tiles@));
        State { board: self.board.clone(), tiles }
    }
}

} // verus!

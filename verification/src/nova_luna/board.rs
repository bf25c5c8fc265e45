//! The tiles that have been laid: a finite map from cells to tiles that
//! remembers the order in which the tiles arrived.

use vstd::prelude::*;
use crate::nova_luna::geometry::Position;
use crate::nova_luna::tile::{Color, Tile, TileView};

verus! {

/// The smallest rectangle of cells that holds every tile of a board.
#[derive(Clone, Copy, Debug, PartialEq, Eq, Structural)]
pub struct Extent {
    /// The leftmost column that holds a tile.
    pub left: isize,
    /// The lowest row that holds a tile.
    pub bottom: isize,
    /// The rightmost column that holds a tile.
    pub right: isize,
    /// The highest row that holds a tile.
    pub top: isize,
}

impl Extent {
    /// The rectangle holds every cell of `cells`, and each of its four
    /// sides passes through one of them.
    pub open spec fn frames(self, cells: Set<Position>) -> bool {
        &&& forall|p: Position| #[trigger]
            cells.contains(p) ==> self.left <= p.0 <= self.right && self.bottom <= p.1 <= self.top
        &&& exists|p: Position| #[trigger] cells.contains(p) && p.0 == self.left
        &&& exists|p: Position| #[trigger] cells.contains(p) && p.0 == self.right
        &&& exists|p: Position| #[trigger] cells.contains(p) && p.1 == self.bottom
        &&& exists|p: Position| #[trigger] cells.contains(p) && p.1 == self.top
    }
}

/// The smallest rectangle of cells that holds every cell of `cells`, which
/// is to hold a cell.
pub open spec fn extent_of(cells: Set<Position>) -> Extent {
    choose|e: Extent| e.frames(cells)
}

/// Only one rectangle is the smallest around given cells.
pub proof fn lemma_one_extent(cells: Set<Position>, e: Extent)
    requires
        e.frames(cells),
    ensures
        extent_of(cells) == e,
{
    let other = extent_of(cells);
    assert(other.frames(cells));
    let l = choose|p: Position| #[trigger] cells.contains(p) && p.0 == e.left;
    let r = choose|p: Position| #[trigger] cells.contains(p) && p.0 == e.right;
    let b = choose|p: Position| #[trigger] cells.contains(p) && p.1 == e.bottom;
    let t = choose|p: Position| #[trigger] cells.contains(p) && p.1 == e.top;
    assert(cells.contains(l) && cells.contains(r) && cells.contains(b) && cells.contains(t));
    let ol = choose|p: Position| #[trigger] cells.contains(p) && p.0 == other.left;
    let or = choose|p: Position| #[trigger] cells.contains(p) && p.0 == other.right;
    let ob = choose|p: Position| #[trigger] cells.contains(p) && p.1 == other.bottom;
    let ot = choose|p: Position| #[trigger] cells.contains(p) && p.1 == other.top;
    assert(cells.contains(ol) && cells.contains(or) && cells.contains(ob) && cells.contains(ot));
}

/// The laid tiles, each on a cell of its own.
#[derive(Debug)]
pub struct Board {
    cells: Vec<(Position, Tile)>,
}

impl View for Board {
    type V = Map<Position, TileView>;

    closed spec fn view(&self) -> Map<Position, TileView> {
        Map::new(
            |p: Position| exists|i: int| 0 <= i < self.cells@.len() && self.cells@[i].0 == p,
            |p: Position|
                self.cells@[choose|i: int| 0 <= i < self.cells@.len() && self.cells@[i].0 == p].1@,
        )
    }
}

impl Board {
    /// The occupied cells in the order in which their tiles were laid.
    pub closed spec fn order(&self) -> Seq<Position> {
        self.cells@.map_values(|cell: (Position, Tile)| cell.0)
    }

    /// No cell holds two tiles.
    pub closed spec fn wf(&self) -> bool {
        forall|i: int, j: int|
            0 <= i < j < self.cells@.len() ==> self.cells@[i].0 != self.cells@[j].0
    }

    /// What well-formedness says in terms of the map and the order of arrival.
    pub proof fn lemma_wf(&self)
        requires
            self.wf(),
        ensures
            self.order().no_duplicates(),
            self.order().to_set() == self@.dom(),
            self@.dom().finite(),
            self@.dom().len() == self.order().len(),
    {
        let order = self.order();
        assert(order.to_set() =~= self@.dom()) by {
            assert forall|p: Position| order.to_set().contains(p) implies self@.dom().contains(
                p,
            ) by {
                let i = choose|i: int| 0 <= i < order.len() && order[i] == p;
                assert(self.cells@[i].0 == p);
            }
            assert forall|p: Position| self@.dom().contains(p) implies order.to_set().contains(
                p,
            ) by {
                let i = choose|i: int| 0 <= i < self.cells@.len() && self.cells@[i].0 == p;
                assert(order[i] == p);
            }
        }
        vstd::seq_lib::seq_to_set_is_finite(order);
        order.unique_seq_to_set();
    }

    proof fn lemma_cell(&self, i: int)
        requires
            self.wf(),
            0 <= i < self.cells@.len(),
        ensures
            self@.dom().contains(self.cells@[i].0),
            self@[self.cells@[i].0] == self.cells@[i].1@,
            self.order()[i] == self.cells@[i].0,
    {
        let p = self.cells@[i].0;
        let k = choose|k: int| 0 <= k < self.cells@.len() && self.cells@[k].0 == p;
        assert(k == i);
    }

    /// A board without tiles.
    pub fn new() -> (board: Board)
        ensures
            board.wf(),
            board@ == Map::<Position, TileView>::empty(),
            board.order() == Seq::<Position>::empty(),
    {
        let board = Board { cells: Vec::new() };
        assert(board@ =~= Map::<Position, TileView>::empty());
        assert(board.order() =~= Seq::<Position>::empty());
        board
    }

    /// The number of tiles laid.
    pub fn len(&self) -> (n: usize)
        ensures
            n == self.order().len(),
    {
        self.cells.len()
    }

    pub fn is_empty(&self) -> (empty: bool)
        ensures
            empty == (self.order().len() == 0),
    {
        self.cells.len() == 0
    }

    /// The cell of the tile that arrived as number `index`.
    pub fn position_at(&self, index: usize) -> (p: Position)
        requires
            index < self.order().len(),
        ensures
            p == self.order()[index as int],
    {
        self.cells[index].0
    }

    /// The tile that arrived as number `index`.
    pub fn tile_at(&self, index: usize) -> (tile: &Tile)
        requires
            self.wf(),
            index < self.order().len(),
        ensures
            tile@ == self@[self.order()[index as int]],
    {
        proof {
            self.lemma_cell(index as int);
        }
        &self.cells[index].1
    }

    fn find(&self, p: &Position) -> (found: Option<usize>)
        requires
            self.wf(),
        ensures
            match found {
                Some(i) => i < self.cells@.len() && self.cells@[i as int].0 == *p,
                None => !self@.dom().contains(*p),
            },
    {
        let mut i: usize = 0;
        while i < self.cells.len()
            invariant
                i <= self.cells@.len(),
                forall|k: int| 0 <= k < i ==> self.cells@[k].0 != *p,
            decreases self.cells@.len() - i,
        {
            if self.cells[i].0 == *p {
                return Some(i);
            }
            i += 1;
        }
        None
    }

    /// The tile on cell `p`, if there is one.
    pub fn get(&self, p: &Position) -> (tile: Option<&Tile>)
        requires
            self.wf(),
        ensures
            tile is Some <==> self@.dom().contains(*p),
            tile matches Some(t) ==> t@ == self@[*p],
    {
        match self.find(p) {
            Some(i) => {
                proof {
                    self.lemma_cell(i as int);
                }
                Some(&self.cells[i].1)
            },
            None => None,
        }
    }

    /// Whether cell `p` holds a tile.
    pub fn contains_key(&self, p: &Position) -> (occupied: bool)
        requires
            self.wf(),
        ensures
            occupied == self@.dom().contains(*p),
    {
        match self.find(p) {
            Some(i) => {
                proof {
                    self.lemma_cell(i as int);
                }
                true
            },
            None => false,
        }
    }

    /// The colour of the tile on cell `p`, if there is one.
    pub fn color_at(&self, p: &Position) -> (color: Option<Color>)
        requires
            self.wf(),
        ensures
            color is Some <==> self@.dom().contains(*p),
            color matches Some(c) ==> c == self@[*p].color,
    {
        match self.get(p) {
            Some(tile) => Some(tile.color()),
            None => None,
        }
    }

    /// Lays `tile` on the free cell `p`.
    pub fn insert(&mut self, p: Position, tile: Tile)
        requires
            old(self).wf(),
            !old(self)@.dom().contains(p),
        ensures
            final(self).wf(),
            final(self)@ == old(self)@.insert(p, tile@),
            final(self).order() == old(self).order().push(p),
    {
        let ghost before = *self;
        self.cells.push((p, tile));
        proof {
            assert forall|i: int, j: int| 0 <= i < j < self.cells@.len() implies self.cells@[i].0
                != self.cells@[j].0 by {
                if j == before.cells@.len() {
                    assert(self.cells@[i] == before.cells@[i]);
                } else {
                    assert(self.cells@[i] == before.cells@[i]);
                    assert(self.cells@[j] == before.cells@[j]);
                }
            }
            assert(self.wf());
            assert(self.order() =~= before.order().push(p));
            let last = before.cells@.len() as int;
            assert forall|q: Position| self@.dom().contains(q) == before@.insert(
                p,
                tile@,
            ).dom().contains(q) by {
                if before@.dom().contains(q) {
                    let i = choose|i: int| 0 <= i < before.cells@.len() && before.cells@[i].0 == q;
                    assert(self.cells@[i].0 == q);
                }
                if q == p {
                    assert(self.cells@[last].0 == q);
                }
                if self@.dom().contains(q) && q != p {
                    let i = choose|i: int| 0 <= i < self.cells@.len() && self.cells@[i].0 == q;
                    assert(before.cells@[i].0 == q);
                }
            }
            assert forall|q: Position| self@.dom().contains(q) implies #[trigger] self@[q]
                == before@.insert(p, tile@)[q] by {
                let i = choose|i: int| 0 <= i < self.cells@.len() && self.cells@[i].0 == q;
                self.lemma_cell(i);
                if i < last {
                    before.lemma_cell(i);
                }
            }
            assert(self@ =~= before@.insert(p, tile@));
        }
    }

    /// The smallest rectangle of cells that holds every tile; none for the
    /// empty board.
    pub fn extent(&self) -> (extent: Option<Extent>)
        requires
            self.wf(),
        ensures
            extent is None <==> self@.dom().is_empty(),
            extent matches Some(e) ==> e.frames(self@.dom()) && e == extent_of(self@.dom()),
    {
        proof {
            self.lemma_wf();
        }
        if self.cells.len() == 0 {
            assert(self@.dom().len() == 0);
            return None;
        }
        let first = self.cells[0].0;
        let mut e = Extent { left: first.0, bottom: first.1, right: first.0, top: first.1 };
        let mut i: usize = 1;
        while i < self.cells.len()
            invariant
                1 <= i <= self.cells@.len(),
                forall|k: int|
                    0 <= k < i ==> e.left <= (#[trigger] self.cells@[k]).0.0 <= e.right && e.bottom
                        <= self.cells@[k].0.1 <= e.top,
                exists|k: int| 0 <= k < i && (#[trigger] self.cells@[k]).0.0 == e.left,
                exists|k: int| 0 <= k < i && (#[trigger] self.cells@[k]).0.0 == e.right,
                exists|k: int| 0 <= k < i && (#[trigger] self.cells@[k]).0.1 == e.bottom,
                exists|k: int| 0 <= k < i && (#[trigger] self.cells@[k]).0.1 == e.top,
            decreases self.cells@.len() - i,
        {
            let p = self.cells[i].0;
            let ghost at_left = choose|k: int| 0 <= k < i && (#[trigger] self.cells@[k]).0.0 == e.left;
            let ghost at_right = choose|k: int|
                0 <= k < i && (#[trigger] self.cells@[k]).0.0 == e.right;
            let ghost at_bottom = choose|k: int|
                0 <= k < i && (#[trigger] self.cells@[k]).0.1 == e.bottom;
            let ghost at_top = choose|k: int| 0 <= k < i && (#[trigger] self.cells@[k]).0.1 == e.top;
            if p.0 < e.left {
                e.left = p.0;
            }
            if p.0 > e.right {
                e.right = p.0;
            }
            if p.1 < e.bottom {
                e.bottom = p.1;
            }
            if p.1 > e.top {
                e.top = p.1;
            }
            proof {
                let here = i as int;
                assert(self.cells@[if p.0 == e.left { here } else { at_left }].0.0 == e.left);
                assert(self.cells@[if p.0 == e.right { here } else { at_right }].0.0 == e.right);
                assert(self.cells@[if p.1 == e.bottom { here } else { at_bottom }].0.1 == e.bottom);
                assert(self.cells@[if p.1 == e.top { here } else { at_top }].0.1 == e.top);
            }
            i += 1;
        }
        proof {
            let dom = self@.dom();
            assert(dom.contains(self.cells@[0].0));
            assert forall|p: Position| #[trigger] dom.contains(p) implies e.left <= p.0 <= e.right
                && e.bottom <= p.1 <= e.top by {
                let k = choose|k: int| 0 <= k < self.cells@.len() && self.cells@[k].0 == p;
                assert(e.left <= self.cells@[k].0.0);
            }
            let l = choose|k: int| 0 <= k < i && (#[trigger] self.cells@[k]).0.0 == e.left;
            assert(dom.contains(self.cells@[l].0));
            let r = choose|k: int| 0 <= k < i && (#[trigger] self.cells@[k]).0.0 == e.right;
            assert(dom.contains(self.cells@[r].0));
            let b = choose|k: int| 0 <= k < i && (#[trigger] self.cells@[k]).0.1 == e.bottom;
            assert(dom.contains(self.cells@[b].0));
            let t = choose|k: int| 0 <= k < i && (#[trigger] self.cells@[k]).0.1 == e.top;
            assert(dom.contains(self.cells@[t].0));
            lemma_one_extent(dom, e);
        }
        Some(e)
    }

    /// A board with the same tiles on the same cells, arrived in the same order.
    pub fn duplicate(&self) -> (copy: Board)
        ensures
            self.wf() ==> copy.wf() && copy@ == self@ && copy.order() == self.order(),
    {
        let mut copy = Board { cells: Vec::new() };
        let mut i: usize = 0;
        while i < self.cells.len()
            invariant
                i <= self.cells@.len(),
                copy.cells@.len() == i,
                forall|k: int|
                    0 <= k < i ==> (#[trigger] copy.cells@[k]).0 == self.cells@[k].0
                        && copy.cells@[k].1@ == self.cells@[k].1@,
            decreases self.cells@.len() - i,
        {
            copy.cells.push((self.cells[i].0, self.cells[i].1.clone()));
            i += 1;
        }
        proof {
            if self.wf() {
                assert(copy.wf());
                assert(copy.order() =~= self.order());
                assert forall|q: Position| copy@.dom().contains(q) == self@.dom().contains(q) by {
                    if copy@.dom().contains(q) {
                        let i = choose|i: int| 0 <= i < copy.cells@.len() && copy.cells@[i].0 == q;
                        assert(self.cells@[i].0 == q);
                    }
                    if self@.dom().contains(q) {
                        let i = choose|i: int| 0 <= i < self.cells@.len() && self.cells@[i].0 == q;
                        assert(copy.cells@[i].0 == q);
                    }
                }
                assert forall|q: Position| copy@.dom().contains(q) implies #[trigger] copy@[q]
                    == self@[q] by {
                    let i = choose|i: int| 0 <= i < copy.cells@.len() && copy.cells@[i].0 == q;
                    copy.lemma_cell(i);
                    self.lemma_cell(i);
                }
                assert(copy@ =~= self@);
            }
        }
        copy
    }

    /// Records that task number `task` of the tile that arrived as number
    /// `index` has been completed.
    pub(crate) fn mark_solved(&mut self, index: usize, task: usize)
        requires
            old(self).wf(),
            index < old(self).order().len(),
            task < old(self)@[old(self).order()[index as int]].tasks.len(),
        ensures
            final(self).wf(),
            final(self).order() == old(self).order(),
            final(self)@ == old(self)@.insert(
                old(self).order()[index as int],
                old(self)@[old(self).order()[index as int]].with_solved(task as int),
            ),
    {
        let ghost before = *self;
        proof {
            before.lemma_cell(index as int);
        }
        self.cells[index].1.mark_solved(task);
        proof {
            let p = before.cells@[index as int].0;
            assert(self.cells@.len() == before.cells@.len());
            assert forall|i: int| 0 <= i < self.cells@.len() implies self.cells@[i].0
                == before.cells@[i].0 by {}
            assert(self.wf());
            assert(self.order() =~= before.order());
            let after = before@.insert(p, before@[p].with_solved(task as int));
            assert forall|q: Position| self@.dom().contains(q) == after.dom().contains(q) by {
                if self@.dom().contains(q) {
                    let i = choose|i: int| 0 <= i < self.cells@.len() && self.cells@[i].0 == q;
                    assert(before.cells@[i].0 == q);
                }
                if before@.dom().contains(q) {
                    let i = choose|i: int| 0 <= i < before.cells@.len() && before.cells@[i].0 == q;
                    assert(self.cells@[i].0 == q);
                }
            }
            assert forall|q: Position| self@.dom().contains(q) implies #[trigger] self@[q]
                == after[q] by {
                let i = choose|i: int| 0 <= i < self.cells@.len() && self.cells@[i].0 == q;
                self.lemma_cell(i);
                before.lemma_cell(i);
            }
            assert(self@ =~= after);
        }
    }
}

impl Clone for Board {
    fn clone(&self) -> (copy: Board)
        ensures
            self.wf() ==> copy.wf() && copy@ == self@ && copy.order() == self.order(),
    {
        self.duplicate()
    }
}

} // verus!

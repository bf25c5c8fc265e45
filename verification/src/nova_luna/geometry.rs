//! The grid: cells with integer coordinates, each touching the four cells at
//! unit distance.

use vstd::prelude::*;

verus! {

/// A cell of the square grid on which tiles are laid: a column and a row.
#[derive(Clone, Copy, Debug, PartialEq, Eq, Hash, Structural)]
pub struct Position(pub isize, pub isize);

impl Position {
    /// `other` is at unit distance from `self`: one column or one row away.
    pub open spec fn touches(self, other: Position) -> bool {
        ||| other.0 == self.0 + 1 && other.1 == self.1
        ||| other.0 == self.0 && other.1 == self.1 + 1
        ||| other.0 == self.0 - 1 && other.1 == self.1
        ||| other.0 == self.0 && other.1 == self.1 - 1
    }

    /// The cells that touch `self`.
    pub open spec fn surroundings(self) -> Set<Position> {
        Set::new(|q: Position| self.touches(q))
    }

    /// The cell lies strictly inside the representable coordinate range, so
    /// all four cells at unit distance from it are representable.
    pub open spec fn interior(self) -> bool {
        &&& isize::MIN < self.0 < isize::MAX
        &&& isize::MIN < self.1 < isize::MAX
    }

    /// The cell reached from `self` by moving `dx` columns and `dy` rows.
    pub open spec fn shifted(self, dx: int, dy: int) -> Position {
        Position((self.0 + dx) as isize, (self.1 + dy) as isize)
    }

    /// The four cells at unit distance, in the fixed order east, north, west, south.
    pub open spec fn neighbours(self) -> Seq<Position> {
        seq![
            self.shifted(1, 0),
            self.shifted(0, 1),
            self.shifted(-1, 0),
            self.shifted(0, -1),
        ]
    }

    /// The cells that touch `self` in the fixed order east, north, west,
    /// south: the four neighbours, without those that lie beyond the edge of
    /// the coordinate range.
    pub open spec fn surrounding_cells(self) -> Seq<Position> {
        (if self.0 < isize::MAX {
            seq![self.shifted(1, 0)]
        } else {
            Seq::empty()
        }) + (if self.1 < isize::MAX {
            seq![self.shifted(0, 1)]
        } else {
            Seq::empty()
        }) + (if self.0 > isize::MIN {
            seq![self.shifted(-1, 0)]
        } else {
            Seq::empty()
        }) + (if self.1 > isize::MIN {
            seq![self.shifted(0, -1)]
        } else {
            Seq::empty()
        })
    }

    /// The cells that touch `self` are among its four neighbours, and they
    /// are all of them unless `self` lies on the edge of the coordinate range.
    pub proof fn lemma_surroundings(self)
        ensures
            self.surroundings().subset_of(self.neighbours().to_set()),
            self.surroundings().finite(),
            self.surroundings().len() <= 4,
            self.interior() ==> self.surroundings() == self.neighbours().to_set(),
    {
        let four = self.neighbours();
        assert forall|q: Position| self.surroundings().contains(q) implies four.to_set().contains(
            q,
        ) by {
            if q.0 == self.0 + 1 && q.1 == self.1 {
                assert(four[0] == q);
            } else if q.0 == self.0 && q.1 == self.1 + 1 {
                assert(four[1] == q);
            } else if q.0 == self.0 - 1 && q.1 == self.1 {
                assert(four[2] == q);
            } else {
                assert(four[3] == q);
            }
        }
        vstd::seq_lib::seq_to_set_is_finite(four);
        vstd::set_lib::lemma_len_subset(self.surroundings(), four.to_set());
        four.lemma_cardinality_of_set();
        if self.interior() {
            assert forall|q: Position| four.to_set().contains(q) implies self.surroundings().contains(
                q,
            ) by {
                let i = choose|i: int| 0 <= i < four.len() && four[i] == q;
                assert(four[i] == q);
            }
            assert(self.surroundings() =~= four.to_set());
        }
    }

    pub fn offset(&self, x: isize, y: isize) -> (p: Position)
        requires
            isize::MIN <= self.0 + x <= isize::MAX,
            isize::MIN <= self.1 + y <= isize::MAX,
        ensures
            p == self.shifted(x as int, y as int),
    {
        Position(self.0 + x, self.1 + y)
    }

    /// The four neighbours of a cell that does not lie on the edge of the
    /// coordinate range: east, north, west, south.
    pub fn adjacent(&self) -> (result: [Position; 4])
        requires
            self.interior(),
        ensures
            result@ == self.neighbours(),
    {
        let result = [
            self.offset(1, 0),
            self.offset(0, 1),
            self.offset(-1, 0),
            self.offset(0, -1),
        ];
        assert(result@ =~= self.neighbours());
        result
    }

    /// The cells that touch `self`, each once, in the order east, north,
    /// west, south: four of them, or fewer on the edge of the coordinate range.
    pub fn adjacent_in_range(&self) -> (around: Vec<Position>)
        ensures
            around@ == self.surrounding_cells(),
            around@.no_duplicates(),
            around@.len() <= 4,
            around@.to_set() == self.surroundings(),
    {
        let mut around: Vec<Position> = Vec::new();
        if self.0 < isize::MAX {
            around.push(Position(self.0 + 1, self.1));
        }
        if self.1 < isize::MAX {
            around.push(Position(self.0, self.1 + 1));
        }
        if self.0 > isize::MIN {
            around.push(Position(self.0 - 1, self.1));
        }
        if self.1 > isize::MIN {
            around.push(Position(self.0, self.1 - 1));
        }
        proof {
            assert forall|q: Position| self.surroundings().contains(q) implies around@.to_set().contains(
                q,
            ) by {
                if q.0 == self.0 + 1 && q.1 == self.1 {
                    assert(around@[0] == q);
                } else if q.0 == self.0 && q.1 == self.1 + 1 {
                    let i = if self.0 < isize::MAX { 1int } else { 0int };
                    assert(around@[i] == q);
                } else if q.0 == self.0 - 1 && q.1 == self.1 {
                    let i = (if self.0 < isize::MAX { 1int } else { 0int }) + (if self.1
                        < isize::MAX { 1int } else { 0int });
                    assert(around@[i] == q);
                } else {
                    let i = around@.len() - 1;
                    assert(around@[i] == q);
                }
            }
            assert forall|q: Position| around@.to_set().contains(q) implies self.surroundings().contains(
                q,
            ) by {
                let i = choose|i: int| 0 <= i < around@.len() && around@[i] == q;
                assert(self.touches(around@[i]));
            }
            assert(around@.to_set() =~= self.surroundings());
            assert(around@ =~= self.surrounding_cells());
        }
        around
    }
}

/// Whether `p` is among `cells`.
pub fn holds(cells: &Vec<Position>, p: Position) -> (found: bool)
    ensures
        found == cells@.contains(p),
{
    let mut i: usize = 0;
    while i < cells.len()
        invariant
            i <= cells.len(),
            forall|k: int| 0 <= k < i ==> cells@[k] != p,
        decreases cells.len() - i,
    {
        if cells[i] == p {
            return true;
        }
        i += 1;
    }
    false
}

} // verus!

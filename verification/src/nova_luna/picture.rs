//! The board as a picture: where each tile, its cost and its tasks are drawn.
//!
//! A tile is a square of 150 units; tiles lie 25 units apart, and the same
//! distance from the left and upper rim of the picture. The column and row
//! of the leftmost and lowest tile come to lie at that rim. Each task is a
//! disc of 65 units in one quarter of its tile, and each colour it asks for
//! a dot of 15 units inside that disc.

use vstd::prelude::*;
use crate::nova_luna::board::{extent_of, Board, Extent};
use crate::nova_luna::geometry::Position;
use crate::nova_luna::state::State;
use crate::nova_luna::tile::{Color, Task, TaskView, Tile, TileView};

verus! {

/// With what a shape is filled or written.
#[derive(Clone, Copy, Debug, PartialEq, Eq, Structural)]
pub enum Paint {
    /// The shade of a colour of the game.
    Shade(Color),
    White,
    Black,
    /// The light grey of a solved task.
    Light,
}

/// One thing to draw. Places are given by the left and upper rim of the thing.
#[derive(Clone, Copy, Debug, PartialEq, Eq, Structural)]
pub enum Shape {
    /// A filled rectangle.
    Rect { left: i32, top: i32, width: i32, height: i32, paint: Paint },
    /// A number, written in letters of the given size.
    Number { value: usize, left: i32, top: i32, size: i32, paint: Paint },
    /// A filled disc of the given width.
    Disc { left: i32, top: i32, size: i32, paint: Paint },
}

/// What to draw, in which order, and the size of the sheet to draw it on.
#[derive(Debug)]
pub struct Picture {
    pub width: i32,
    pub height: i32,
    pub shapes: Vec<Shape>,
}

/// The greatest number of columns, and of rows, between two tiles of a board
/// that can be drawn.
pub const WIDEST_SPREAD: isize = 12_000_000;

/// A dot for one colour that a task asks for.
pub open spec fn dot(c: Color, left: int, top: int) -> Shape {
    Shape::Disc { left: left as i32, top: top as i32, size: 15, paint: Paint::Shade(c) }
}

/// The dots for the colours that a task asks for, arranged round the point
/// (`x`, `y`): one alone in the middle, two above each other, three in a
/// triangle, four in a square.
pub open spec fn dots(colors: Seq<Color>, x: int, y: int) -> Seq<Shape> {
    if colors.len() == 1 {
        seq![dot(colors[0], x, y)]
    } else if colors.len() == 2 {
        seq![dot(colors[0], x, y + 16), dot(colors[1], x, y - 16)]
    } else if colors.len() == 3 {
        seq![
            dot(colors[0], x, y + 16),
            dot(colors[1], x - 13, y - 13),
            dot(colors[2], x + 13, y - 13),
        ]
    } else {
        seq![
            dot(colors[0], x + 16, y + 16),
            dot(colors[1], x + 16, y - 16),
            dot(colors[2], x - 16, y + 16),
            dot(colors[3], x - 16, y - 16),
        ]
    }
}

/// The shapes of the task that is number `index` of a tile drawn at
/// (`left`, `top`): its disc, light if the task is solved, in the upper
/// right, lower right or lower left quarter of the tile, and its dots.
pub open spec fn task_shapes(task: TaskView, index: int, left: int, top: int) -> Seq<Shape> {
    let x = left + 5 + if index == 2 { 0int } else { 75int };
    let y = top + 5 + if index == 0 { 0int } else { 75int };
    seq![
        Shape::Disc {
            left: x as i32,
            top: y as i32,
            size: 65,
            paint: if task.solved { Paint::Light } else { Paint::White },
        },
    ] + dots(task.required, x + 25, y + 25)
}

/// The shapes of the first `upto` tasks of a tile drawn at (`left`, `top`).
pub open spec fn tasks_shapes(tasks: Seq<TaskView>, upto: int, left: int, top: int) -> Seq<Shape>
    decreases upto,
{
    if upto <= 0 {
        Seq::empty()
    } else {
        tasks_shapes(tasks, upto - 1, left, top) + task_shapes(tasks[upto - 1], upto - 1, left, top)
    }
}

/// The shapes of a tile drawn at (`left`, `top`): its square, a white field
/// with its cost, and its tasks.
pub open spec fn tile_shapes(tile: TileView, left: int, top: int) -> Seq<Shape> {
    seq![
        Shape::Rect {
            left: left as i32,
            top: top as i32,
            width: 150,
            height: 150,
            paint: Paint::Shade(tile.color),
        },
        Shape::Rect {
            left: (left + 5) as i32,
            top: (top + 5) as i32,
            width: 35,
            height: 35,
            paint: Paint::White,
        },
        Shape::Number {
            value: tile.cost as usize,
            left: (left + 15) as i32,
            top: (top + 30) as i32,
            size: 24,
            paint: Paint::Black,
        },
    ] + tasks_shapes(tile.tasks, tile.tasks.len() as int, left, top)
}

/// Where on the sheet the column or row `at` comes to lie when `least` is
/// the leftmost column or the lowest row.
pub open spec fn place(at: int, least: int) -> int {
    25 + 175 * (at - least)
}

/// The shapes of the tiles on the first `upto` cells of `order`.
pub open spec fn board_shapes(
    board: Map<Position, TileView>,
    order: Seq<Position>,
    upto: int,
    extent: Extent,
) -> Seq<Shape>
    decreases upto,
{
    if upto <= 0 {
        Seq::empty()
    } else {
        let p = order[upto - 1];
        board_shapes(board, order, upto - 1, extent) + tile_shapes(
            board[p],
            place(p.0 as int, extent.left as int),
            place(p.1 as int, extent.bottom as int),
        )
    }
}

/// The tile can be drawn: it has at most three tasks, and each asks for at
/// least one colour and at most four.
pub open spec fn tile_drawable(tile: TileView) -> bool {
    &&& tile.tasks.len() <= 3
    &&& forall|k: int|
        0 <= k < tile.tasks.len() ==> 1 <= (#[trigger] tile.tasks[k]).required.len() <= 4
}

/// The board can be drawn: each of its tiles can, and no two of them are
/// too far apart for the sheet.
pub open spec fn drawable(board: Map<Position, TileView>) -> bool {
    &&& forall|p: Position| board.dom().contains(p) ==> tile_drawable(#[trigger] board[p])
    &&& extent_of(board.dom()).right - extent_of(board.dom()).left <= WIDEST_SPREAD
    &&& extent_of(board.dom()).top - extent_of(board.dom()).bottom <= WIDEST_SPREAD
}

/// The places on the sheet that leave room for a tile.
pub open spec fn on_sheet(left: int, top: int) -> bool {
    0 <= left <= 2_100_000_025 && 0 <= top <= 2_100_000_025
}

fn push_dots(shapes: &mut Vec<Shape>, colors: &Vec<Color>, x: i32, y: i32)
    requires
        1 <= colors@.len() <= 4,
        16 <= x <= i32::MAX - 16,
        16 <= y <= i32::MAX - 16,
    ensures
        final(shapes)@ == old(shapes)@ + dots(colors@, x as int, y as int),
{
    let ghost before = shapes@;
    if colors.len() == 1 {
        shapes.push(Shape::Disc { left: x, top: y, size: 15, paint: Paint::Shade(colors[0]) });
    } else if colors.len() == 2 {
        shapes.push(
            Shape::Disc { left: x, top: y + 16, size: 15, paint: Paint::Shade(colors[0]) },
        );
        shapes.push(
            Shape::Disc { left: x, top: y - 16, size: 15, paint: Paint::Shade(colors[1]) },
        );
    } else if colors.len() == 3 {
        shapes.push(
            Shape::Disc { left: x, top: y + 16, size: 15, paint: Paint::Shade(colors[0]) },
        );
        shapes.push(
            Shape::Disc { left: x - 13, top: y - 13, size: 15, paint: Paint::Shade(colors[1]) },
        );
        shapes.push(
            Shape::Disc { left: x + 13, top: y - 13, size: 15, paint: Paint::Shade(colors[2]) },
        );
    } else {
        shapes.push(
            Shape::Disc { left: x + 16, top: y + 16, size: 15, paint: Paint::Shade(colors[0]) },
        );
        shapes.push(
            Shape::Disc { left: x + 16, top: y - 16, size: 15, paint: Paint::Shade(colors[1]) },
        );
        shapes.push(
            Shape::Disc { left: x - 16, top: y + 16, size: 15, paint: Paint::Shade(colors[2]) },
        );
        shapes.push(
            Shape::Disc { left: x - 16, top: y - 16, size: 15, paint: Paint::Shade(colors[3]) },
        );
    }
    assert(shapes@ =~= before + dots(colors@, x as int, y as int));
}

fn push_task(shapes: &mut Vec<Shape>, task: &Task, index: usize, left: i32, top: i32)
    requires
        index < 3,
        1 <= task@.required.len() <= 4,
        on_sheet(left as int, top as int),
    ensures
        final(shapes)@ == old(shapes)@ + task_shapes(task@, index as int, left as int, top as int),
{
    let ghost before = shapes@;
    let x = left + 5 + if index == 2 { 0 } else { 75 };
    let y = top + 5 + if index == 0 { 0 } else { 75 };
    let paint = if task.solved() { Paint::Light } else { Paint::White };
    shapes.push(Shape::Disc { left: x, top: y, size: 65, paint });
    push_dots(shapes, task.colors(), x + 25, y + 25);
    assert(shapes@ =~= before + task_shapes(task@, index as int, left as int, top as int));
}

fn push_tile(shapes: &mut Vec<Shape>, tile: &Tile, left: i32, top: i32)
    requires
        tile_drawable(tile@),
        on_sheet(left as int, top as int),
    ensures
        final(shapes)@ == old(shapes)@ + tile_shapes(tile@, left as int, top as int),
{
    let ghost before = shapes@;
    shapes.push(
        Shape::Rect { left, top, width: 150, height: 150, paint: Paint::Shade(tile.color()) },
    );
    shapes.push(
        Shape::Rect { left: left + 5, top: top + 5, width: 35, height: 35, paint: Paint::White },
    );
    shapes.push(
        Shape::Number {
            value: tile.cost(),
            left: left + 15,
            top: top + 30,
            size: 24,
            paint: Paint::Black,
        },
    );
    let ghost start = shapes@;
    let mut k: usize = 0;
    while k < tile.task_count()
        invariant
            tile_drawable(tile@),
            on_sheet(left as int, top as int),
            k <= tile@.tasks.len(),
            shapes@ == start + tasks_shapes(tile@.tasks, k as int, left as int, top as int),
        decreases tile@.tasks.len() - k,
    {
        push_task(shapes, tile.task(k), k, left, top);
        assert(shapes@ =~= start + tasks_shapes(tile@.tasks, k + 1, left as int, top as int));
        k += 1;
    }
    assert(shapes@ =~= before + tile_shapes(tile@, left as int, top as int));
}

fn tile_can_be_drawn(tile: &Tile) -> (can: bool)
    ensures
        can == tile_drawable(tile@),
{
    if tile.task_count() > 3 {
        return false;
    }
    let mut k: usize = 0;
    while k < tile.task_count()
        invariant
            k <= tile@.tasks.len() <= 3,
            forall|j: int| 0 <= j < k ==> 1 <= (#[trigger] tile@.tasks[j]).required.len() <= 4,
        decreases tile@.tasks.len() - k,
    {
        let asked = tile.task(k).colors().len();
        if asked < 1 || asked > 4 {
            assert(!(1 <= tile@.tasks[k as int].required.len() <= 4));
            return false;
        }
        k += 1;
    }
    true
}

impl Board {
    /// Whether the board can be drawn.
    pub fn can_be_drawn(&self) -> (can: bool)
        requires
            self.wf(),
        ensures
            can == (!self@.dom().is_empty() && drawable(self@)),
    {
        let extent = match self.extent() {
            Some(extent) => extent,
            None => {
                return false;
            },
        };
        if extent.right as i128 - extent.left as i128 > WIDEST_SPREAD as i128 || extent.top as i128
            - extent.bottom as i128 > WIDEST_SPREAD as i128 {
            return false;
        }
        proof {
            self.lemma_wf();
        }
        let ghost order = self.order();
        let mut i: usize = 0;
        while i < self.len()
            invariant
                self.wf(),
                order == self.order(),
                order.to_set() == self@.dom(),
                i <= order.len(),
                forall|k: int| 0 <= k < i ==> tile_drawable(self@[#[trigger] order[k]]),
            decreases order.len() - i,
        {
            if !tile_can_be_drawn(self.tile_at(i)) {
                assert(self@.dom().contains(order[i as int]));
                return false;
            }
            i += 1;
        }
        proof {
            assert forall|p: Position| self@.dom().contains(p) implies tile_drawable(
                #[trigger] self@[p],
            ) by {
                let k = choose|k: int| 0 <= k < order.len() && order[k] == p;
                assert(tile_drawable(self@[order[k]]));
            }
        }
        true
    }

    /// The picture of the board, its tiles drawn in the order of their arrival.
    pub fn picture(&self) -> (picture: Picture)
        requires
            self.wf(),
            !self@.dom().is_empty(),
            drawable(self@),
        ensures
            picture.width == place(
                extent_of(self@.dom()).right as int,
                extent_of(self@.dom()).left as int,
            ),
            picture.height == place(
                extent_of(self@.dom()).top as int,
                extent_of(self@.dom()).bottom as int,
            ),
            picture.shapes@ == board_shapes(
                self@,
                self.order(),
                self.order().len() as int,
                extent_of(self@.dom()),
            ),
    {
        let extent = self.extent().unwrap();
        let width: i32 = 25 + 175 * ((extent.right - extent.left) as i32);
        let height: i32 = 25 + 175 * ((extent.top - extent.bottom) as i32);
        let mut shapes: Vec<Shape> = Vec::new();
        let ghost order = self.order();
        proof {
            self.lemma_wf();
        }
        let mut i: usize = 0;
        while i < self.len()
            invariant
                self.wf(),
                order == self.order(),
                order.to_set() == self@.dom(),
                drawable(self@),
                extent == extent_of(self@.dom()),
                extent.frames(self@.dom()),
                i <= order.len(),
                shapes@ == board_shapes(self@, order, i as int, extent),
            decreases order.len() - i,
        {
            let p = self.position_at(i);
            assert(self@.dom().contains(p));
            let left: i32 = 25 + 175 * ((p.0 - extent.left) as i32);
            let top: i32 = 25 + 175 * ((p.1 - extent.bottom) as i32);
            push_tile(&mut shapes, self.tile_at(i), left, top);
            i += 1;
        }
        Picture { width, height, shapes }
    }
}

impl State {
    /// Whether the board can be shown: it is empty, or it can be drawn.
    pub fn can_render_board(&self) -> (can: bool)
        requires
            self.wf(),
        ensures
            can == (self@.placed.dom().is_empty() || drawable(self@.placed)),
    {
        let board = self.board();
        proof {
            board.lemma_wf();
        }
        board.is_empty() || board.can_be_drawn()
    }

    /// The picture of the board, its tiles drawn in the order of their
    /// arrival; none for the empty board, of which nothing is shown.
    pub fn render_board(&self) -> (picture: Option<Picture>)
        requires
            self.wf(),
            self@.placed.dom().is_empty() || drawable(self@.placed),
        ensures
            picture is None <==> self@.placed.dom().is_empty(),
            picture matches Some(shown) ==> {
                let extent = extent_of(self@.placed.dom());
                &&& shown.width == place(extent.right as int, extent.left as int)
                &&& shown.height == place(extent.top as int, extent.bottom as int)
                &&& shown.shapes@ == board_shapes(
                    self@.placed,
                    self.order(),
                    self.order().len() as int,
                    extent,
                )
            },
    {
        let board = self.board();
        proof {
            board.lemma_wf();
        }
        if board.is_empty() {
            None
        } else {
            Some(board.picture())
        }
    }
}

} // verus!

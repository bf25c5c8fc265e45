//! The pieces of the game: colours, tasks, tiles and moves.

use vstd::prelude::*;
use vstd::std_specs::cmp::PartialEqSpecImpl;
use crate::nova_luna::geometry::Position;

verus! {

/// The four colours a tile can have and a task can ask for.
#[derive(Clone, Copy, Debug, PartialEq, Eq, Hash, Structural)]
pub enum Color {
    Blue,
    Yellow,
    Teal,
    Red,
}

impl Color {
    /// The red, green and blue parts of the colour as it is shown.
    pub open spec fn shade(self) -> (u8, u8, u8) {
        match self {
            Color::Blue => (0, 0, 255),
            Color::Yellow => (255, 255, 0),
            Color::Teal => (0, 128, 128),
            Color::Red => (255, 0, 0),
        }
    }

    /// The red, green and blue parts of the colour as it is shown.
    pub fn rgb(self) -> (parts: (u8, u8, u8))
        ensures
            parts == self.shade(),
    {
        match self {
            Color::Blue => (0, 0, 255),
            Color::Yellow => (255, 255, 0),
            Color::Teal => (0, 128, 128),
            Color::Red => (255, 0, 0),
        }
    }
}

/// What a task is, as a value: the colours it asks for, with repetition, and
/// whether it has been completed.
pub struct TaskView {
    pub required: Seq<Color>,
    pub solved: bool,
}

/// What a tile is, as a value.
pub struct TileView {
    pub color: Color,
    pub cost: nat,
    pub tasks: Seq<TaskView>,
}

impl TileView {
    /// The same tile with task number `index` completed.
    pub open spec fn with_solved(self, index: int) -> TileView {
        TileView {
            tasks: self.tasks.update(
                index,
                TaskView { required: self.tasks[index].required, solved: true },
            ),
            ..self
        }
    }
}

/// What a move is, as a value: a tile and the cell it is to be laid on.
pub struct MoveView {
    pub tile: TileView,
    pub position: Position,
}

/// A constraint carried by a tile: colours that the tile's surroundings must supply.
#[derive(Debug)]
pub struct Task {
    colors: Vec<Color>,
    solved: bool,
}

impl View for Task {
    type V = TaskView;

    closed spec fn view(&self) -> TaskView {
        TaskView { required: self.colors@, solved: self.solved }
    }
}

/// The values of a sequence of tasks, in order.
pub open spec fn task_views(tasks: Seq<Task>) -> Seq<TaskView> {
    tasks.map_values(|t: Task| t@)
}

/// The values of a sequence of tiles, in order.
pub open spec fn tile_views(tiles: Seq<Tile>) -> Seq<TileView> {
    tiles.map_values(|t: Tile| t@)
}

/// The values of a sequence of moves, in order.
pub open spec fn move_views(moves: Seq<Move>) -> Seq<MoveView> {
    moves.map_values(|m: Move| m@)
}

fn same_colors(a: &Vec<Color>, b: &Vec<Color>) -> (same: bool)
    ensures
        same == (a@ == b@),
{
    if a.len() != b.len() {
        return false;
    }
    let mut i: usize = 0;
    while i < a.len()
        invariant
            a.len() == b.len(),
            i <= a.len(),
            forall|k: int| 0 <= k < i ==> a@[k] == b@[k],
        decreases a.len() - i,
    {
        if a[i] != b[i] {
            return false;
        }
        i += 1;
    }
    assert(a@ =~= b@);
    true
}

fn copy_colors(a: &Vec<Color>) -> (copy: Vec<Color>)
    ensures
        copy@ == a@,
{
    let mut copy: Vec<Color> = Vec::new();
    let mut i: usize = 0;
    while i < a.len()
        invariant
            i <= a.len(),
            copy@ == a@.take(i as int),
        decreases a.len() - i,
    {
        copy.push(a[i]);
        assert(a@.take(i + 1) =~= a@.take(i as int).push(a@[i as int]));
        i += 1;
    }
    assert(a@.take(a.len() as int) =~= a@);
    copy
}

impl Task {
    /// A task that asks for `colors` and is not yet solved.
    pub fn new(colors: Vec<Color>) -> (task: Task)
        ensures
            task@ == (TaskView { required: colors@, solved: false }),
    {
        Task { colors, solved: false }
    }

    /// A task that asks for `colors` and is solved or not as `solved` says:
    /// a task as it was found on a board.
    pub fn with_state(colors: Vec<Color>, solved: bool) -> (task: Task)
        ensures
            task@ == (TaskView { required: colors@, solved }),
    {
        Task { colors, solved }
    }

    /// The colours the task asks for, in the order they were given.
    pub fn colors(&self) -> (colors: &Vec<Color>)
        ensures
            colors@ == self@.required,
    {
        &self.colors
    }

    /// Whether the task asks for `color`.
    pub fn has_color(&self, color: Color) -> (asked: bool)
        ensures
            asked == self@.required.contains(color),
    {
        let mut i: usize = 0;
        while i < self.colors.len()
            invariant
                i <= self.colors.len(),
                forall|k: int| 0 <= k < i ==> self.colors@[k] != color,
            decreases self.colors.len() - i,
        {
            if self.colors[i] == color {
                return true;
            }
            i += 1;
        }
        false
    }

    /// Whether the task has been completed.
    pub fn solved(&self) -> (solved: bool)
        ensures
            solved == self@.solved,
    {
        self.solved
    }

    /// Records that the task has been completed.
    pub(crate) fn mark_solved(&mut self)
        ensures
            final(self)@ == (TaskView { required: old(self)@.required, solved: true }),
    {
        self.solved = true;
    }
}

impl Clone for Task {
    fn clone(&self) -> (copy: Task)
        ensures
            copy@ == self@,
    {
        Task { colors: copy_colors(&self.colors), solved: self.solved }
    }
}

impl PartialEq for Task {
    fn eq(&self, other: &Task) -> (same: bool) {
        self.solved == other.solved && same_colors(&self.colors, &other.colors)
    }
}

impl PartialEqSpecImpl for Task {
    open spec fn obeys_eq_spec() -> bool {
        true
    }

    open spec fn eq_spec(&self, other: &Task) -> bool {
        self@ == other@
    }
}

impl Eq for Task {

}

fn same_tasks(a: &Vec<Task>, b: &Vec<Task>) -> (same: bool)
    ensures
        same == (task_views(a@) == task_views(b@)),
{
    if a.len() != b.len() {
        assert(task_views(a@).len() != task_views(b@).len());
        return false;
    }
    let mut i: usize = 0;
    while i < a.len()
        invariant
            a.len() == b.len(),
            i <= a.len(),
            forall|k: int| 0 <= k < i ==> a@[k]@ == b@[k]@,
        decreases a.len() - i,
    {
        if !a[i].eq(&b[i]) {
            assert(task_views(a@)[i as int] != task_views(b@)[i as int]);
            return false;
        }
        i += 1;
    }
    assert(task_views(a@) =~= task_views(b@));
    true
}

fn copy_tasks(a: &Vec<Task>) -> (copy: Vec<Task>)
    ensures
        task_views(copy@) == task_views(a@),
{
    let mut copy: Vec<Task> = Vec::new();
    let mut i: usize = 0;
    while i < a.len()
        invariant
            i <= a.len(),
            copy.len() == i,
            forall|k: int| 0 <= k < i ==> copy@[k]@ == a@[k]@,
        decreases a.len() - i,
    {
        copy.push(a[i].clone());
        i += 1;
    }
    assert(task_views(copy@) =~= task_views(a@));
    copy
}

/// A tile of the game: what it costs to lay, its colour, and the tasks it carries.
#[derive(Debug)]
pub struct Tile {
    color: Color,
    cost: usize,
    tasks: Vec<Task>,
}

impl View for Tile {
    type V = TileView;

    closed spec fn view(&self) -> TileView {
        TileView { color: self.color, cost: self.cost as nat, tasks: task_views(self.tasks@) }
    }
}

impl Tile {
    pub fn new(cost: usize, color: Color, tasks: Vec<Task>) -> (tile: Tile)
        ensures
            tile@ == (TileView { color, cost: cost as nat, tasks: task_views(tasks@) }),
    {
        Tile { color, cost, tasks }
    }

    pub fn color(&self) -> (color: Color)
        ensures
            color == self@.color,
    {
        self.color
    }

    pub fn cost(&self) -> (cost: usize)
        ensures
            cost == self@.cost,
    {
        self.cost
    }

    /// The tasks the tile carries, in order.
    pub fn tasks(&self) -> (tasks: &Vec<Task>)
        ensures
            task_views(tasks@) == self@.tasks,
    {
        &self.tasks
    }

    /// The number of tasks the tile carries.
    pub fn task_count(&self) -> (n: usize)
        ensures
            n == self@.tasks.len(),
    {
        self.tasks.len()
    }

    /// The task at `index`.
    pub fn task(&self, index: usize) -> (task: &Task)
        requires
            index < self@.tasks.len(),
        ensures
            task@ == self@.tasks[index as int],
    {
        &self.tasks[index]
    }

    /// Records that the task at `index` has been completed.
    pub(crate) fn mark_solved(&mut self, index: usize)
        requires
            index < old(self)@.tasks.len(),
        ensures
            final(self)@ == old(self)@.with_solved(index as int),
    {
        let ghost before = self.tasks@;
        self.tasks[index].mark_solved();
        assert(task_views(self.tasks@) =~= task_views(before).update(
            index as int,
            TaskView { required: before[index as int]@.required, solved: true },
        ));
    }
}

impl Clone for Tile {
    fn clone(&self) -> (copy: Tile)
        ensures
            copy@ == self@,
    {
        Tile { color: self.color, cost: self.cost, tasks: copy_tasks(&self.tasks) }
    }
}

impl PartialEq for Tile {
    fn eq(&self, other: &Tile) -> (same: bool) {
        self.color == other.color && self.cost == other.cost && same_tasks(
            &self.tasks,
            &other.tasks,
        )
    }
}

impl PartialEqSpecImpl for Tile {
    open spec fn obeys_eq_spec() -> bool {
        true
    }

    open spec fn eq_spec(&self, other: &Tile) -> bool {
        self@ == other@
    }
}

impl Eq for Tile {

}

/// A proposal to lay one tile on one cell.
#[derive(Debug)]
pub struct Move {
    tile: Tile,
    position: Position,
}

impl View for Move {
    type V = MoveView;

    closed spec fn view(&self) -> MoveView {
        MoveView { tile: self.tile@, position: self.position }
    }
}

impl Move {
    pub fn new(tile: Tile, position: Position) -> (mov: Move)
        ensures
            mov@ == (MoveView { tile: tile@, position }),
    {
        Move { tile, position }
    }

    pub fn tile(&self) -> (tile: &Tile)
        ensures
            tile@ == self@.tile,
    {
        &self.tile
    }

    pub fn position(&self) -> (position: Position)
        ensures
            position == self@.position,
    {
        self.position
    }
}

impl Clone for Move {
    fn clone(&self) -> (copy: Move)
        ensures
            copy@ == self@,
    {
        Move { tile: self.tile.clone(), position: self.position }
    }
}

impl PartialEq for Move {
    fn eq(&self, other: &Move) -> (same: bool) {
        self.position == other.position && self.tile.eq(&other.tile)
    }
}

impl PartialEqSpecImpl for Move {
    open spec fn obeys_eq_spec() -> bool {
        true
    }

    open spec fn eq_spec(&self, other: &Move) -> bool {
        self@ == other@
    }
}

impl Eq for Move {

}

} // verus!

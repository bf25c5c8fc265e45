//! The transposition hash: a 64-bit digest of a state that does not depend
//! on the order in which the tiles of the board were laid.

use std::collections::hash_map::DefaultHasher;
use std::hash::Hasher;
use vstd::bytes::{spec_u64_to_le_bytes, u64_to_le_bytes};
use vstd::prelude::*;
use vstd::std_specs::hash::DefaultHasherAdditionalSpecFns;
use crate::nova_luna::board::Board;
use crate::nova_luna::geometry::Position;
use crate::nova_luna::rules::StateView;
use crate::nova_luna::state::State;
use crate::nova_luna::tally::{lemma_xor_over_next, lemma_xor_over_nothing, xor_over};
use crate::nova_luna::tile::{tile_views, Color, Task, TaskView, Tile, TileView};

verus! {

/// The byte that stands for a colour.
pub open spec fn color_code(c: Color) -> u8 {
    match c {
        Color::Blue => 0,
        Color::Yellow => 1,
        Color::Teal => 2,
        Color::Red => 3,
    }
}

/// The unsigned number that stands for a coordinate: the coordinate moved up
/// by 2^63, so that none is negative.
pub open spec fn coordinate_code(x: isize) -> u64 {
    (x + 0x8000_0000_0000_0000) as u64
}

/// The bytes that stand for a cell.
pub open spec fn position_bytes(p: Position) -> Seq<u8> {
    spec_u64_to_le_bytes(coordinate_code(p.0)) + spec_u64_to_le_bytes(coordinate_code(p.1))
}

/// The bytes that stand for a task: how many colours it asks for, the
/// colours in order, and whether it is solved.
pub open spec fn task_bytes(task: TaskView) -> Seq<u8> {
    spec_u64_to_le_bytes(task.required.len() as u64) + task.required.map_values(
        |c: Color| color_code(c),
    ) + seq![if task.solved { 1u8 } else { 0u8 }]
}

/// The bytes of the tasks in order.
pub open spec fn tasks_bytes(tasks: Seq<TaskView>) -> Seq<u8>
    decreases tasks.len(),
{
    if tasks.len() == 0 {
        Seq::empty()
    } else {
        tasks_bytes(tasks.drop_last()) + task_bytes(tasks.last())
    }
}

/// The bytes that stand for a tile: its colour, its cost, the number of its
/// tasks and the tasks in order.
pub open spec fn tile_bytes(tile: TileView) -> Seq<u8> {
    seq![color_code(tile.color)] + spec_u64_to_le_bytes(tile.cost as u64) + spec_u64_to_le_bytes(
        tile.tasks.len() as u64,
    ) + tasks_bytes(tile.tasks)
}

/// The bytes of the tiles in order.
pub open spec fn tiles_bytes(tiles: Seq<TileView>) -> Seq<u8>
    decreases tiles.len(),
{
    if tiles.len() == 0 {
        Seq::empty()
    } else {
        tiles_bytes(tiles.drop_last()) + tile_bytes(tiles.last())
    }
}

/// The digest of one laid tile together with its cell.
pub open spec fn entry_digest(p: Position, tile: TileView) -> u64 {
    DefaultHasher::spec_finish(seq![position_bytes(p) + tile_bytes(tile)])
}

/// For each cell of `board`, the digest of the tile laid there.
pub open spec fn entry_digests(board: Map<Position, TileView>) -> spec_fn(Position) -> u64 {
    |p: Position| entry_digest(p, board[p])
}

/// The digest of the board: the exclusive-or of the digests of its tiles.
pub open spec fn board_digest(board: Map<Position, TileView>) -> u64 {
    xor_over(board.dom(), entry_digests(board))
}

/// The digest of the pool, which depends on the order of its tiles.
pub open spec fn pool_digest(pool: Seq<TileView>) -> u64 {
    DefaultHasher::spec_finish(seq![spec_u64_to_le_bytes(pool.len() as u64) + tiles_bytes(pool)])
}

/// The digest of a state.
pub open spec fn state_digest(state: StateView) -> u64 {
    board_digest(state.placed) ^ pool_digest(state.unplaced)
}

fn push_word(out: &mut Vec<u8>, x: u64)
    ensures
        final(out)@ == old(out)@ + spec_u64_to_le_bytes(x),
{
    let mut bytes = u64_to_le_bytes(x);
    out.append(&mut bytes);
}

fn code_of(c: Color) -> (code: u8)
    ensures
        code == color_code(c),
{
    match c {
        Color::Blue => 0,
        Color::Yellow => 1,
        Color::Teal => 2,
        Color::Red => 3,
    }
}

fn word_of(x: isize) -> (code: u64)
    ensures
        code == coordinate_code(x),
{
    (x as i128 + 0x8000_0000_0000_0000i128) as u64
}

fn push_position(out: &mut Vec<u8>, p: Position)
    ensures
        final(out)@ == old(out)@ + position_bytes(p),
{
    let ghost before = out@;
    push_word(out, word_of(p.0));
    push_word(out, word_of(p.1));
    assert(out@ =~= before + position_bytes(p));
}

fn push_task(out: &mut Vec<u8>, task: &Task)
    ensures
        final(out)@ == old(out)@ + task_bytes(task@),
{
    let ghost before = out@;
    let colors = task.colors();
    push_word(out, colors.len() as u64);
    let ghost start = out@;
    let ghost codes = colors@.map_values(|c: Color| color_code(c));
    let mut i: usize = 0;
    while i < colors.len()
        invariant
            i <= colors.len(),
            codes == colors@.map_values(|c: Color| color_code(c)),
            out@ == start + codes.take(i as int),
        decreases colors.len() - i,
    {
        out.push(code_of(colors[i]));
        assert(codes.take(i + 1) =~= codes.take(i as int).push(codes[i as int]));
        assert(out@ =~= start + codes.take(i + 1));
        i += 1;
    }
    assert(codes.take(colors.len() as int) =~= codes);
    out.push(if task.solved() { 1u8 } else { 0u8 });
    assert(out@ =~= before + task_bytes(task@));
}

fn push_tile(out: &mut Vec<u8>, tile: &Tile)
    ensures
        final(out)@ == old(out)@ + tile_bytes(tile@),
{
    let ghost before = out@;
    out.push(code_of(tile.color()));
    push_word(out, tile.cost() as u64);
    push_word(out, tile.task_count() as u64);
    let ghost start = out@;
    let ghost tasks = tile@.tasks;
    let mut k: usize = 0;
    while k < tile.task_count()
        invariant
            k <= tasks.len(),
            tasks == tile@.tasks,
            out@ == start + tasks_bytes(tasks.take(k as int)),
        decreases tasks.len() - k,
    {
        push_task(out, tile.task(k));
        proof {
            assert(tasks.take(k + 1).drop_last() =~= tasks.take(k as int));
            assert(tasks.take(k + 1).last() == tasks[k as int]);
            assert(out@ =~= start + tasks_bytes(tasks.take(k + 1)));
        }
        k += 1;
    }
    assert(tasks.take(tasks.len() as int) =~= tasks);
    assert(out@ =~= before + tile_bytes(tile@));
}

fn digest_of(bytes: &Vec<u8>) -> (h: u64)
    ensures
        h == DefaultHasher::spec_finish(seq![bytes@]),
{
    let mut hasher = DefaultHasher::new();
    hasher.write(bytes.as_slice());
    assert(hasher@ =~= seq![bytes@]);
    hasher.finish()
}

fn digest_of_entry(p: Position, tile: &Tile) -> (h: u64)
    ensures
        h == entry_digest(p, tile@),
{
    let mut bytes: Vec<u8> = Vec::new();
    push_position(&mut bytes, p);
    push_tile(&mut bytes, tile);
    assert(bytes@ =~= position_bytes(p) + tile_bytes(tile@));
    digest_of(&bytes)
}

fn digest_of_pool(tiles: &Vec<Tile>) -> (h: u64)
    ensures
        h == pool_digest(tile_views(tiles@)),
{
    let ghost pool = tile_views(tiles@);
    let mut bytes: Vec<u8> = Vec::new();
    push_word(&mut bytes, tiles.len() as u64);
    let ghost start = bytes@;
    let mut i: usize = 0;
    while i < tiles.len()
        invariant
            i <= tiles.len(),
            pool == tile_views(tiles@),
            bytes@ == start + tiles_bytes(pool.take(i as int)),
        decreases tiles.len() - i,
    {
        push_tile(&mut bytes, &tiles[i]);
        proof {
            assert(pool.take(i + 1).drop_last() =~= pool.take(i as int));
            assert(pool.take(i + 1).last() == tiles@[i as int]@);
            assert(bytes@ =~= start + tiles_bytes(pool.take(i + 1)));
        }
        i += 1;
    }
    assert(pool.take(tiles.len() as int) =~= pool);
    assert(bytes@ =~= spec_u64_to_le_bytes(pool.len() as u64) + tiles_bytes(pool));
    digest_of(&bytes)
}

impl Board {
    /// The digest of the board: the same for the same tiles on the same
    /// cells, in whatever order they were laid.
    pub fn hash(&self) -> (h: u64)
        requires
            self.wf(),
        ensures
            h == board_digest(self@),
    {
        let ghost order = self.order();
        let ghost f = entry_digests(self@);
        let mut h: u64 = 0;
        let mut i: usize = 0;
        proof {
            self.lemma_wf();
            assert(order.take(0).to_set() =~= Set::<Position>::empty());
            lemma_xor_over_nothing(f);
        }
        while i < self.len()
            invariant
                self.wf(),
                order == self.order(),
                f == entry_digests(self@),
                order.no_duplicates(),
                i <= order.len(),
                h == xor_over(order.take(i as int).to_set(), f),
            decreases order.len() - i,
        {
            let entry = digest_of_entry(self.position_at(i), self.tile_at(i));
            proof {
                lemma_xor_over_next(order, i as int, f);
            }
            h = h ^ entry;
            i += 1;
        }
        proof {
            self.lemma_wf();
            assert(order.take(order.len() as int) =~= order);
        }
        h
    }
}

impl State {
    /// The transposition hash of the state: the digest of the board, which
    /// does not depend on the order in which its tiles were laid, combined
    /// with the digest of the pool, which depends on the order of its tiles.
    pub fn hash(&self) -> (h: u64)
        requires
            self.wf(),
        ensures
            h == state_digest(self@),
    {
        self.board().hash() ^ digest_of_pool(self.tiles())
    }
}

} // verus!

//! What a run of the solver is told: the tiles, how long and how wide to
//! search, and what to report.

use vstd::prelude::*;
use crate::nova_luna::tile::Tile;

verus! {

/// The settings of one run of the solver.
pub struct SolverParameters<'a> {
    /// The tiles to lay.
    pub tiles: Vec<Tile>,
    /// The name of the file that receives the final board; `${datetime}` in
    /// it stands for the time of writing.
    pub output_file: Option<&'a str>,
    /// The directory of that file.
    pub output_dir: Option<&'a str>,
    /// Whether the number of solved tasks and the time taken are reported.
    pub print_statistics: bool,
    /// Whether the moves of the best line of play are reported.
    pub print_moves: bool,
    /// The number of playouts of the search.
    pub num_playouts: u32,
    /// The number of threads that share the playouts.
    pub num_threads: usize,
    /// Whether the search reports what it thinks of the first moves.
    pub debug: bool,
}

} // verus!

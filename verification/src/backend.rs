//! The web service: one route that takes tiles and answers with the board
//! the solver arrives at.

use vstd::prelude::*;
use crate::settings::SolverParameters;

verus! {

/// What the web service is launched with.
pub struct Launch {
    /// The path under which the service's route is mounted.
    pub mount: &'static str,
    /// The settings of the run that answers a request; the tiles are those
    /// of the request.
    pub parameters: SolverParameters<'static>,
}

/// The web service as it is launched: mounted at the root, and answering
/// each request with a short search on one thread that reports its
/// statistics, its moves and its debug output and writes no file.
pub fn rocket() -> (launch: Launch)
    ensures
        launch.mount@ == "/"@,
        launch.parameters.tiles@.len() == 0,
        launch.parameters.output_file is None,
        launch.parameters.output_dir is None,
        launch.parameters.print_statistics,
        launch.parameters.print_moves,
        launch.parameters.num_playouts == 10,
        launch.parameters.num_threads == 1,
        launch.parameters.debug,
{
    Launch {
        mount: "/",
        parameters: SolverParameters {
            tiles: Vec::new(),
            output_file: None,
            output_dir: None,
            print_statistics: true,
            print_moves: true,
            num_playouts: 10,
            num_threads: 1,
            debug: true,
        },
    }
}

} // verus!

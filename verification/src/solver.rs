//! What a Monte-Carlo tree search needs from the game besides its moves: how
//! a state is scored, what is done when a state is reached again, and how the
//! line of play that the search settles on is applied.

use vstd::prelude::*;
use crate::nova_luna::laws::lemma_solved_tasks_never_decrease;
use crate::nova_luna::rules::StateView;
use crate::nova_luna::state::State;
use crate::nova_luna::tile::{move_views, Move, MoveView};

verus! {

/// Scores states by the number of tasks solved on their boards.
pub struct StateEvaluator;

impl StateEvaluator {
    /// The score of a state that the search sees for the first time: the
    /// number of solved tasks on its board. With it comes one evaluation for
    /// each of the state's moves; the game has nothing to say about a single
    /// move, so each is empty.
    pub fn evaluate_new_state(&self, state: &State, moves: &Vec<Move>) -> (evaluation: (Vec<()>, i64))
        requires
            state.wf(),
            state@.solved_tasks() <= usize::MAX,
            state@.solved_tasks() <= i64::MAX,
        ensures
            evaluation.0@.len() == moves@.len(),
            evaluation.1 == state@.solved_tasks(),
    {
        let mut player: Vec<()> = Vec::new();
        let mut i: usize = 0;
        while i < moves.len()
            invariant
                i <= moves.len(),
                player@.len() == i,
            decreases moves.len() - i,
        {
            player.push(());
            i += 1;
        }
        (player, state.count_solved_tasks() as i64)
    }

    /// The score of a state that the search has scored before: the score it
    /// was given then.
    pub fn evaluate_existing_state(&self, state: &State, evaln: &i64) -> (evaluation: i64)
        ensures
            evaluation == *evaln,
    {
        *evaln
    }

    /// What a score is worth to the player. There is one player, so it is
    /// worth what it says.
    pub fn interpret_evaluation_for_player(&self, evaln: &i64, player: &()) -> (worth: i64)
        ensures
            worth == *evaln,
    {
        *evaln
    }
}

/// What the search does when a line of play comes back to a state it has
/// already passed through.
#[derive(Clone, Copy, Debug, PartialEq, Eq, Structural)]
pub enum CycleBehaviour {
    /// Goes on as if nothing had happened.
    Ignore,
    /// Ends the line and takes the score the state already has.
    UseCurrentEvalWhenCycleDetected,
    /// Stops the whole search.
    PanicWhenCycleDetected,
    /// Ends the line and takes the given score.
    UseThisEvalWhenCycleDetected(i64),
}

/// The settings of the search that depend on the game.
#[derive(Default)]
pub struct NovaLunaBoardGameMCTS;

impl NovaLunaBoardGameMCTS {
    /// Different orders of the same moves lead to the same state, so states
    /// are met again; the search then keeps the score such a state already has.
    pub fn cycle_behaviour(&self) -> (behaviour: CycleBehaviour)
        ensures
            behaviour == CycleBehaviour::UseCurrentEvalWhenCycleDetected,
    {
        CycleBehaviour::UseCurrentEvalWhenCycleDetected
    }
}

/// Each of `moves` can be applied in turn, starting from `state`.
pub open spec fn playable(state: StateView, moves: Seq<MoveView>) -> bool
    decreases moves.len(),
{
    moves.len() == 0 || (state.accepts(moves.first()) && playable(
        state.after_move(moves.first()),
        moves.drop_first(),
    ))
}

/// The state reached from `state` by applying `moves` in turn.
pub open spec fn played(state: StateView, moves: Seq<MoveView>) -> StateView
    decreases moves.len(),
{
    if moves.len() == 0 {
        state
    } else {
        played(state.after_move(moves.first()), moves.drop_first())
    }
}

/// The number of solved tasks on the board never goes down along a line of
/// play.
pub proof fn lemma_play_never_loses_solved_tasks(state: StateView, moves: Seq<MoveView>)
    requires
        state.placed.dom().finite(),
        playable(state, moves),
    ensures
        state.solved_tasks() <= played(state, moves).solved_tasks(),
    decreases moves.len(),
{
    if moves.len() > 0 {
        let next = state.after_move(moves.first());
        lemma_solved_tasks_never_decrease(state, moves.first());
        assert(next.placed.dom() =~= state.placed.dom().insert(moves.first().position));
        lemma_play_never_loses_solved_tasks(next, moves.drop_first());
    }
}

/// Applies `moves` in turn to `state`. Gives the state reached, or nothing if
/// one of the moves cannot be applied to the state reached before it.
pub fn playout_best_moves(state: State, moves: &Vec<Move>) -> (outcome: Option<State>)
    requires
        state.wf(),
    ensures
        outcome is Some <==> playable(state@, move_views(moves@)),
        outcome matches Some(game) ==> game.wf() && game@ == played(state@, move_views(moves@)),
{
    let ghost start = state@;
    let ghost line = move_views(moves@);
    let mut game = state;
    let mut i: usize = 0;
    assert(line.skip(0) =~= line);
    while i < moves.len()
        invariant
            i <= moves.len(),
            start == state@,
            line == move_views(moves@),
            game.wf(),
            playable(start, line) == playable(game@, line.skip(i as int)),
            played(start, line) == played(game@, line.skip(i as int)),
        decreases moves.len() - i,
    {
        proof {
            let rest = line.skip(i as int);
            assert(rest.first() == moves@[i as int]@);
            assert(rest.drop_first() =~= line.skip(i + 1));
        }
        if !game.can_make_move(&moves[i]) {
            assert(!playable(game@, line.skip(i as int)));
            return None;
        }
        game.make_move(&moves[i]);
        i += 1;
    }
    Some(game)
}

} // verus!

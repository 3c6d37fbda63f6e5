//! The game driver: a uniform-random baseline engine, and functions that
//! play whole engine-vs-engine games and tally the outcomes. Every game is
//! proved to finish in a terminal state within sixty placements.

use vstd::prelude::*;

use crate::mcts::mcts_move_seeded;
use crate::minimax::minimax_move_with;
use crate::othello::{
    count_free, is_turn, lemma_count_free_nonneg, lemma_step_free, lemma_valid_move, valid_moves,
    Othello, State,
};
use crate::rng::{lcg_pick, Lcg};

verus! {

/// The baseline engine: a uniformly random legal move.
pub fn random_move(game: &Othello, rng: &mut Lcg) -> (r: (usize, usize))
    requires
        valid_moves(game@).len() > 0,
    ensures
        valid_moves(game@).contains(r),
        r == valid_moves(game@)[lcg_pick(
            old(rng).state,
            valid_moves(game@).len() as usize,
        ) as int],
{
    let moves = game.get_valid_moves();
    let i = rng.pick(moves.len());
    proof {
        assert(valid_moves(game@).contains(valid_moves(game@)[i as int]));
    }
    moves[i]
}

/// A choice of move-selection engine for one side of a game.
#[derive(Copy, Clone)]
pub enum Engine {
    /// Uniformly random legal moves.
    Random,
    /// Alpha-beta minimax at the given base depth.
    Minimax(i16),
    /// Monte Carlo tree search with the given iteration budget.
    Mcts(i16),
}

/// The parameter constraints of an engine choice.
pub open spec fn engine_ok(e: Engine) -> bool {
    match e {
        Engine::Random => true,
        Engine::Minimax(depth) => 1 <= depth <= i16::MAX - 10,
        Engine::Mcts(iterations) => 1 <= iterations,
    }
}

/// Asks the chosen engine for a move on a running game.
fn choose_move(game: &Othello, engine: Engine, rng: &mut Lcg) -> (r: (usize, usize))
    requires
        game@.wf(),
        is_turn(game@.state),
        engine_ok(engine),
    ensures
        valid_moves(game@).contains(r),
{
    match engine {
        Engine::Random => random_move(game, rng),
        Engine::Minimax(depth) => {
            let moves = game.get_valid_moves();
            let pick = rng.pick(moves.len());
            minimax_move_with(game, depth, pick)
        },
        Engine::Mcts(iterations) => mcts_move_seeded(game, iterations, rng),
    }
}

/// Plays one full game between the two engines from the standard opening and
/// returns the terminal state and the number of placements made. Each move
/// fills exactly one free cell, so the game ends within sixty placements.
pub fn play_game(black: Engine, white: Engine, rng: &mut Lcg) -> (r: (State, u32))
    requires
        engine_ok(black),
        engine_ok(white),
    ensures
        !is_turn(r.0),
        r.1 <= 60,
{
    let mut game = Othello::new();
    let mut moves_made: u32 = 0;
    while game.state == State::BlackTurn || game.state == State::WhiteTurn
        invariant
            game@.wf(),
            engine_ok(black),
            engine_ok(white),
            moves_made as int + count_free(game@.board) == 60,
            count_free(game@.board) >= 0,
        decreases count_free(game@.board),
    {
        let position = if game.state == State::BlackTurn {
            choose_move(&game, black, rng)
        } else {
            choose_move(&game, white, rng)
        };
        proof {
            lemma_valid_move(game@, position);
            lemma_step_free(game@, position.0 as int, position.1 as int);
        }
        game.make_move(position);
        proof {
            lemma_count_free_nonneg(game@.board, 0);
        }
        moves_made = moves_made + 1;
    }
    (game.state, moves_made)
}

/// Plays `games` games between the two engines and tallies the outcomes as
/// (Black wins, White wins, draws); the three always account for every game.
pub fn run_match(black: Engine, white: Engine, games: u32, rng: &mut Lcg) -> (r: (u32, u32, u32))
    requires
        engine_ok(black),
        engine_ok(white),
    ensures
        r.0 as int + r.1 as int + r.2 as int == games as int,
{
    let mut black_wins: u32 = 0;
    let mut white_wins: u32 = 0;
    let mut draws: u32 = 0;
    let mut i: u32 = 0;
    while i < games
        invariant
            engine_ok(black),
            engine_ok(white),
            i <= games,
            black_wins as int + white_wins as int + draws as int == i as int,
        decreases games - i,
    {
        let (outcome, _moves) = play_game(black, white, rng);
        match outcome {
            State::BlackWon => {
                black_wins = black_wins + 1;
            },
            State::WhiteWon => {
                white_wins = white_wins + 1;
            },
            State::Draw => {
                draws = draws + 1;
            },
            _ => {
                proof {
                    assert(false);
                }
            },
        }
        i = i + 1;
    }
    (black_wins, white_wins, draws)
}

} // verus!

use othello::benchmark::{play_game, random_move, run_match, Engine};
use othello::mcts::{mcts_move_seeded, mcts_search};
use othello::minimax::{evaluate_board, get_round, minimax, minimax_move_with};
use othello::othello::{Cell, Othello, State};
use othello::rng::Lcg;

/// Full-width minimax with the same evaluator, orientation, depth handling
/// and first-seen tie-break as the library's search, but no pruning at all.
fn brute_force(game: &Othello, my_turn: State, depth: i16) -> (i32, (usize, usize)) {
    let state = game.state;
    if depth == 0 || (state != State::BlackTurn && state != State::WhiteTurn) {
        return (evaluate_board(game, my_turn), (0, 0));
    }
    let moves = game.get_valid_moves();
    let mut best_move = moves[0];
    let mut best_value = if state == my_turn { i32::MIN } else { i32::MAX };
    for mv in moves {
        let mut sim = *game;
        sim.make_move(mv);
        let value = brute_force(&sim, my_turn, depth - 1).0;
        if state == my_turn {
            if value > best_value {
                best_value = value;
                best_move = mv;
            }
        } else {
            if value < best_value {
                best_value = value;
                best_move = mv;
            }
        }
    }
    (best_value, best_move)
}

/// A midgame position reached deterministically from the opening.
fn midgame(plies: usize) -> Othello {
    let mut game = Othello::new();
    for _ in 0..plies {
        if game.state != State::BlackTurn && game.state != State::WhiteTurn {
            break;
        }
        let moves = game.get_valid_moves();
        game.make_move(moves[0]);
    }
    game
}

#[test]
fn evaluator_exact_values() {
    // The symmetric opening is worth zero to either side.
    let game = Othello::new();
    assert_eq!(evaluate_board(&game, State::BlackTurn), 0);
    assert_eq!(evaluate_board(&game, State::WhiteTurn), 0);
    // A lone corner piece is worth its full table weight.
    let mut board = [[Cell::Empty; 8]; 8];
    board[0][0] = Cell::Black;
    let corner = Othello { black_score: 1, white_score: 0, board, state: State::BlackTurn };
    assert_eq!(evaluate_board(&corner, State::BlackTurn), 80);
    assert_eq!(evaluate_board(&corner, State::WhiteTurn), -80);
    // A piece beside the corner carries the strongest penalty.
    let mut board = [[Cell::Empty; 8]; 8];
    board[1][1] = Cell::White;
    let bad = Othello { black_score: 0, white_score: 1, board, state: State::BlackTurn };
    assert_eq!(evaluate_board(&bad, State::WhiteTurn), -40);
}

#[test]
fn round_counts_moves_made() {
    let game = Othello::new();
    assert_eq!(get_round(game.board), 1);
    let later = midgame(5);
    assert_eq!(get_round(later.board), 6);
}

#[test]
fn minimax_single_move_short_circuit() {
    // Exactly one legal move: it is returned as-is, whatever the pick.
    let mut board = [[Cell::Empty; 8]; 8];
    board[0][0] = Cell::Black;
    board[0][1] = Cell::White;
    board[0][2] = Cell::Valid;
    board[7][7] = Cell::White;
    let game = Othello { black_score: 1, white_score: 2, board, state: State::BlackTurn };
    assert_eq!(game.get_valid_moves(), vec![(2, 0)]);
    assert_eq!(minimax_move_with(&game, 3, 0), (2, 0));
    assert_eq!(minimax_move_with(&game, 3, 12345), (2, 0));
}

#[test]
fn minimax_determinism() {
    for plies in [0usize, 1, 4, 9] {
        let game = midgame(plies);
        if game.state != State::BlackTurn && game.state != State::WhiteTurn {
            continue;
        }
        let a = minimax_move_with(&game, 2, 7);
        let b = minimax_move_with(&game, 2, 7);
        assert_eq!(a, b);
        assert!(game.get_valid_moves().contains(&a));
    }
}

#[test]
fn alpha_beta_equals_brute_force() {
    for plies in [4usize, 7, 10] {
        let game = midgame(plies);
        for depth in 1..=3i16 {
            let pruned = minimax(&game, game.state, depth, i32::MIN, i32::MAX);
            let full = brute_force(&game, game.state, depth);
            assert_eq!(pruned.0, full.0);
            assert_eq!(pruned.1, full.1);
        }
    }
}

#[test]
fn mcts_returns_legal_moves() {
    for seed in 0u64..10 {
        let game = midgame(seed as usize % 6);
        if game.state != State::BlackTurn && game.state != State::WhiteTurn {
            continue;
        }
        let mut rng = Lcg::new(seed);
        let mv = mcts_move_seeded(&game, 30, &mut rng);
        assert!(game.get_valid_moves().contains(&mv));
    }
}

#[test]
fn mcts_visit_monotonicity() {
    // A weak regression property, checked statistically over seeds: a larger
    // iteration budget does not usually shrink the chosen move's visit count.
    let game = Othello::new();
    let mut monotone = 0;
    let total = 20;
    for seed in 0u64..total {
        let mut rng_small = Lcg::new(seed);
        let (_, visits_small) = mcts_search(&game, 20, &mut rng_small);
        let mut rng_large = Lcg::new(seed);
        let (_, visits_large) = mcts_search(&game, 60, &mut rng_large);
        if visits_large >= visits_small {
            monotone += 1;
        }
    }
    assert!(monotone * 10 >= total * 8, "monotone in only {monotone} of {total} seeds");
}

#[test]
fn random_engine_end_to_end() {
    // Ten full random-vs-random games: each ends in a terminal state within
    // sixty placements with consistent counts.
    for seed in 1u64..=10 {
        let mut rng = Lcg::new(seed);
        let mut game = Othello::new();
        let mut placements = 0;
        while game.state == State::BlackTurn || game.state == State::WhiteTurn {
            let mv = random_move(&game, &mut rng);
            game.make_move(mv);
            placements += 1;
            assert!(placements <= 60);
        }
        assert!(matches!(game.state, State::BlackWon | State::WhiteWon | State::Draw));
        let mut free = 0;
        for y in 0..8 {
            for x in 0..8 {
                if game.board[y][x] == Cell::Empty || game.board[y][x] == Cell::Valid {
                    free += 1;
                }
            }
        }
        assert_eq!(game.black_score as u32 + game.white_score as u32 + free, 64);
        if free == 0 {
            assert_eq!(game.black_score as u32 + game.white_score as u32, 64);
        }
    }
}

#[test]
fn match_tallies_account_for_every_game() {
    let mut rng = Lcg::new(42);
    let (black_wins, white_wins, draws) = run_match(Engine::Random, Engine::Random, 10, &mut rng);
    assert_eq!(black_wins + white_wins + draws, 10);
    let mut rng = Lcg::new(7);
    let (outcome, moves) = play_game(Engine::Minimax(1), Engine::Mcts(20), &mut rng);
    assert!(matches!(outcome, State::BlackWon | State::WhiteWon | State::Draw));
    assert!(moves <= 60);
}

#[test]
fn lcg_is_deterministic() {
    let mut a = Lcg::new(99);
    let mut b = Lcg::new(99);
    let draws_a: Vec<usize> = (0..16).map(|_| a.pick(10)).collect();
    let draws_b: Vec<usize> = (0..16).map(|_| b.pick(10)).collect();
    assert_eq!(draws_a, draws_b);
    assert!(draws_a.iter().all(|&d| d < 10));
    // the draws move: not all sixteen are equal
    assert!(draws_a.iter().any(|&d| d != draws_a[0]));
}

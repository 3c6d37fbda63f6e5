//! The minimax engine: depth-limited adversarial search with alpha-beta
//! pruning, a fixed positional evaluator, adaptive depth late in the game,
//! and a uniformly random choice during the first few plies.
//!
//! The search is specified by [`minimax_spec`]/[`minimax_loop`]: the value
//! and move an alpha-beta search returns are pinned exactly, so the
//! executable search is deterministic by contract.

use vstd::prelude::*;

use crate::othello::{
    at, flat_board, is_turn, lemma_valid_move, step, valid_moves, Cell, Othello, Snapshot, State,
};

verus! {

/// The positional weight of cell `(x, y)`: corners strongly positive, cells
/// beside corners strongly negative, edges positive, centre mildly positive.
/// The table is symmetric under the board's fourfold reflection symmetry.
pub open spec fn reward(x: int, y: int) -> int {
    let fx = if x < 4 {
        x
    } else {
        7 - x
    };
    let fy = if y < 4 {
        y
    } else {
        7 - y
    };
    if fy == 0 {
        if fx == 0 {
            80
        } else if fx == 1 {
            -20
        } else if fx == 2 {
            20
        } else {
            10
        }
    } else if fy == 1 {
        if fx == 0 {
            -20
        } else if fx == 1 {
            -40
        } else {
            -10
        }
    } else if fy == 2 {
        if fx == 0 {
            20
        } else if fx == 1 {
            -10
        } else if fx == 2 {
            10
        } else {
            0
        }
    } else {
        if fx == 0 {
            10
        } else if fx == 1 {
            -10
        } else if fx == 2 {
            0
        } else {
            5
        }
    }
}

/// The positional weight of cell `(x, y)`.
pub fn reward_at(x: usize, y: usize) -> (r: i32)
    requires
        x < 8,
        y < 8,
    ensures
        r as int == reward(x as int, y as int),
        -40 <= r <= 80,
{
    let fx = if x < 4 {
        x
    } else {
        7 - x
    };
    let fy = if y < 4 {
        y
    } else {
        7 - y
    };
    if fy == 0 {
        if fx == 0 {
            80
        } else if fx == 1 {
            -20
        } else if fx == 2 {
            20
        } else {
            10
        }
    } else if fy == 1 {
        if fx == 0 {
            -20
        } else if fx == 1 {
            -40
        } else {
            -10
        }
    } else if fy == 2 {
        if fx == 0 {
            20
        } else if fx == 1 {
            -10
        } else if fx == 2 {
            10
        } else {
            0
        }
    } else {
        if fx == 0 {
            10
        } else if fx == 1 {
            -10
        } else if fx == 2 {
            0
        } else {
            5
        }
    }
}

/// The signed positional sum over the cells from `(x, y)` onward, row-major:
/// each occupied cell contributes its weight, positive for `my`'s colour and
/// negative for the opponent's.
pub open spec fn eval_from(b: Seq<Cell>, my: State, x: int, y: int) -> int
    decreases 8 - y, 8 - x,
        when 0 <= x <= 8 && 0 <= y <= 8
{
    if y >= 8 {
        0
    } else if x >= 8 {
        eval_from(b, my, 0, y + 1)
    } else {
        (if at(b, x, y) is Black {
            if my is BlackTurn {
                reward(x, y)
            } else {
                -reward(x, y)
            }
        } else if at(b, x, y) is White {
            if my is WhiteTurn {
                reward(x, y)
            } else {
                -reward(x, y)
            }
        } else {
            0
        }) + eval_from(b, my, x + 1, y)
    }
}

/// The static evaluation of a position from `my`'s perspective: a win/loss
/// sentinel that dominates every positional sum on terminal states, zero on
/// a draw, and the signed positional sum otherwise.
pub open spec fn eval_board(m: Snapshot, my: State) -> int {
    if m.state is BlackWon {
        if my is BlackTurn {
            i32::MAX as int
        } else {
            i32::MIN as int
        }
    } else if m.state is WhiteWon {
        if my is WhiteTurn {
            i32::MAX as int
        } else {
            i32::MIN as int
        }
    } else if m.state is Draw {
        0
    } else {
        eval_from(m.board, my, 0, 0)
    }
}

/// The positional sum from `(x, y)` onward stays within 80 per remaining cell.
proof fn lemma_eval_bound(b: Seq<Cell>, my: State, x: int, y: int)
    requires
        0 <= x <= 8,
        0 <= y <= 8,
        8 * y + x <= 64,
    ensures
        -80 * (64 - 8 * y - x) <= eval_from(b, my, x, y) <= 80 * (64 - 8 * y - x),
    decreases 8 - y, 8 - x,
{
    if y >= 8 {
    } else if x >= 8 {
        lemma_eval_bound(b, my, 0, y + 1);
    } else {
        lemma_eval_bound(b, my, x + 1, y);
    }
}

/// The static positional evaluator, exactly as specified by [`eval_board`].
pub fn evaluate_board(game: &Othello, my_turn: State) -> (r: i32)
    ensures
        r as int == eval_board(game@, my_turn),
{
    let state = game.state;
    if state == State::BlackWon {
        return if State::BlackTurn == my_turn {
            i32::MAX
        } else {
            i32::MIN
        };
    } else if state == State::WhiteWon {
        return if State::WhiteTurn == my_turn {
            i32::MAX
        } else {
            i32::MIN
        };
    } else if state == State::Draw {
        return 0;
    }
    let ghost b = game@.board;
    let mut score: i32 = 0;
    let mut y: usize = 0;
    while y < 8
        invariant
            b == game@.board,
            y <= 8,
            -10240 <= score <= 10240,
            score as int + eval_from(b, my_turn, 0, y as int) == eval_from(b, my_turn, 0, 0),
        decreases 8 - y,
    {
        let mut x: usize = 0;
        while x < 8
            invariant
                b == game@.board,
                y < 8,
                x <= 8,
                -10240 <= score <= 10240,
                score as int + eval_from(b, my_turn, x as int, y as int) == eval_from(
                    b,
                    my_turn,
                    0,
                    0,
                ),
            decreases 8 - x,
        {
            let cell = game.cell_at(x, y);
            let w = reward_at(x, y);
            if cell == Cell::Black {
                score = if my_turn == State::BlackTurn {
                    score + w
                } else {
                    score - w
                };
            } else if cell == Cell::White {
                score = if my_turn == State::WhiteTurn {
                    score + w
                } else {
                    score - w
                };
            }
            proof {
                lemma_eval_bound(b, my_turn, 0, 0);
                lemma_eval_bound(b, my_turn, x as int + 1, y as int);
            }
            x = x + 1;
        }
        y = y + 1;
    }
    score
}

/// The number of moves made so far: the piece count less the three pieces
/// beyond the first that the opening position holds.
pub open spec fn round_of(b: Seq<Cell>) -> int {
    crate::othello::count_cells(b, Cell::Black) + crate::othello::count_cells(b, Cell::White) - 3
}

/// Counts the moves made so far on a board.
pub fn get_round(game_board: [[Cell; 8]; 8]) -> (r: i8)
    ensures
        r as int == round_of(flat_board(game_board)),
{
    let ghost b = flat_board(game_board);
    let mut round: i8 = -3;
    let mut y: usize = 0;
    while y < 8
        invariant
            b == flat_board(game_board),
            y <= 8,
            -3 <= round as int <= 8 * y - 3,
            round as int + crate::othello::count_from(b, Cell::Black, 8 * y as int)
                + crate::othello::count_from(b, Cell::White, 8 * y as int) == round_of(b),
        decreases 8 - y,
    {
        let mut x: usize = 0;
        while x < 8
            invariant
                b == flat_board(game_board),
                y < 8,
                x <= 8,
                -3 <= round as int <= 8 * y + x - 3,
                round as int + crate::othello::count_from(b, Cell::Black, 8 * y as int + x as int)
                    + crate::othello::count_from(b, Cell::White, 8 * y as int + x as int)
                    == round_of(b),
            decreases 8 - x,
        {
            proof {
                crate::othello::lemma_cell_index(x as int, y as int);
            }
            let cell = game_board[y][x];
            if cell == Cell::Black || cell == Cell::White {
                round = round + 1;
            }
            x = x + 1;
        }
        y = y + 1;
    }
    round
}

/// One step of the alpha-beta fold over the move list, from move `i` on:
/// returns the best value and move once the list is exhausted or the window
/// closes, and otherwise searches move `i` one ply deeper and folds on with
/// the tightened window. Maximizing when it is `my`'s turn, minimizing
/// otherwise; strict improvement keeps the first-seen best move.
pub open spec fn minimax_loop(
    m: Snapshot,
    my: State,
    depth: int,
    mvs: Seq<(usize, usize)>,
    i: int,
    alpha: int,
    beta: int,
    best: int,
    best_move: (usize, usize),
) -> (int, (usize, usize))
    decreases depth, mvs.len() - i,
        when depth >= 1 && 0 <= i
{
    if i >= mvs.len() || alpha >= beta {
        (best, best_move)
    } else {
        let child = step(m, mvs[i].0 as int, mvs[i].1 as int);
        let v = minimax_spec(child, my, depth - 1, alpha, beta).0;
        if m.state == my {
            let best2 = if v > best {
                v
            } else {
                best
            };
            let bm2 = if v > best {
                mvs[i]
            } else {
                best_move
            };
            let alpha2 = if best2 > alpha {
                best2
            } else {
                alpha
            };
            minimax_loop(m, my, depth, mvs, i + 1, alpha2, beta, best2, bm2)
        } else {
            let best2 = if v < best {
                v
            } else {
                best
            };
            let bm2 = if v < best {
                mvs[i]
            } else {
                best_move
            };
            let beta2 = if best2 < beta {
                best2
            } else {
                beta
            };
            minimax_loop(m, my, depth, mvs, i + 1, alpha, beta2, best2, bm2)
        }
    }
}

/// The value and move of a depth-limited alpha-beta search of `m` from `my`'s
/// perspective: the static evaluation at depth zero or on a finished game,
/// and otherwise the alpha-beta fold over the legal moves.
pub open spec fn minimax_spec(m: Snapshot, my: State, depth: int, alpha: int, beta: int) -> (
    int,
    (usize, usize),
)
    decreases depth, valid_moves(m).len() + 1,
        when depth >= 0
{
    if depth <= 0 || !is_turn(m.state) {
        (eval_board(m, my), (0usize, 0usize))
    } else {
        let mvs = valid_moves(m);
        if mvs.len() == 0 {
            (eval_board(m, my), (0usize, 0usize))
        } else {
            let init = if m.state == my {
                i32::MIN as int
            } else {
                i32::MAX as int
            };
            minimax_loop(m, my, depth, mvs, 0, alpha, beta, init, mvs[0])
        }
    }
}

/// The fold never invents a move: its result comes from the list or from the
/// best-so-far it was given.
proof fn lemma_minimax_loop_in(
    m: Snapshot,
    my: State,
    depth: int,
    mvs: Seq<(usize, usize)>,
    i: int,
    alpha: int,
    beta: int,
    best: int,
    best_move: (usize, usize),
)
    requires
        depth >= 1,
        0 <= i,
        mvs.contains(best_move),
    ensures
        mvs.contains(minimax_loop(m, my, depth, mvs, i, alpha, beta, best, best_move).1),
    decreases depth, mvs.len() - i,
{
    if i >= mvs.len() || alpha >= beta {
    } else {
        let child = step(m, mvs[i].0 as int, mvs[i].1 as int);
        let v = minimax_spec(child, my, depth - 1, alpha, beta).0;
        assert(mvs.contains(mvs[i]));
        if m.state == my {
            let best2 = if v > best {
                v
            } else {
                best
            };
            let bm2 = if v > best {
                mvs[i]
            } else {
                best_move
            };
            let alpha2 = if best2 > alpha {
                best2
            } else {
                alpha
            };
            lemma_minimax_loop_in(m, my, depth, mvs, i + 1, alpha2, beta, best2, bm2);
        } else {
            let best2 = if v < best {
                v
            } else {
                best
            };
            let bm2 = if v < best {
                mvs[i]
            } else {
                best_move
            };
            let beta2 = if best2 < beta {
                best2
            } else {
                beta
            };
            lemma_minimax_loop_in(m, my, depth, mvs, i + 1, alpha, beta2, best2, bm2);
        }
    }
}

/// Depth-limited alpha-beta search: returns exactly the value and move of
/// [`minimax_spec`] on the position.
pub fn minimax(game: &Othello, my_turn: State, depth: i16, alpha: i32, beta: i32) -> (r: (
    i32,
    (usize, usize),
))
    requires
        game@.wf(),
        depth >= 0,
    ensures
        r.0 as int == minimax_spec(
            game@,
            my_turn,
            depth as int,
            alpha as int,
            beta as int,
        ).0,
        r.1 == minimax_spec(game@, my_turn, depth as int, alpha as int, beta as int).1,
    decreases depth,
{
    let ghost target = minimax_spec(game@, my_turn, depth as int, alpha as int, beta as int);
    let state = game.state;
    if depth == 0 || (state != State::BlackTurn && state != State::WhiteTurn) {
        return (evaluate_board(game, my_turn), (0, 0));
    }
    let possible_moves = game.get_valid_moves();
    let ghost mvs = possible_moves@;
    let mut best_move = possible_moves[0];
    let mut best_value: i32 = if state == my_turn {
        i32::MIN
    } else {
        i32::MAX
    };
    let mut alpha = alpha;
    let mut beta = beta;
    let mut i: usize = 0;
    while i < possible_moves.len() && alpha < beta
        invariant
            game@.wf(),
            is_turn(game@.state),
            state == game@.state,
            1 <= depth,
            mvs == valid_moves(game@),
            possible_moves@ == mvs,
            mvs.len() > 0,
            i <= mvs.len(),
            target == minimax_loop(
                game@,
                my_turn,
                depth as int,
                mvs,
                i as int,
                alpha as int,
                beta as int,
                best_value as int,
                best_move,
            ),
        decreases mvs.len() - i,
    {
        let move_ = possible_moves[i];
        proof {
            assert(mvs.contains(move_));
            lemma_valid_move(game@, move_);
        }
        let mut simulation = *game;
        simulation.make_move(move_);
        let value = minimax(&simulation, my_turn, depth - 1, alpha, beta).0;
        if state == my_turn {
            if value > best_value {
                best_value = value;
                best_move = move_;
            }
            if best_value > alpha {
                alpha = best_value;
            }
        } else {
            if value < best_value {
                best_value = value;
                best_move = move_;
            }
            if best_value < beta {
                beta = best_value;
            }
        }
        i = i + 1;
    }
    (best_value, best_move)
}

/// The depth actually searched: the base depth, deepened late in the game
/// when the branching factor shrinks, up to an endgame-exact search.
pub open spec fn adjusted_depth(depth: int, round: int) -> int {
    if round >= 50 {
        depth + 10
    } else if round > 40 {
        depth + 2
    } else if round > 30 {
        depth + 1
    } else {
        depth
    }
}

/// The move [`minimax_move_with`] chooses: the sole legal move if there is
/// only one; a uniformly random legal move (the `pick` draw) in the first
/// three plies; and otherwise the alpha-beta search's move at the adjusted
/// depth over the full window.
pub open spec fn minimax_choice(m: Snapshot, depth: int, pick: int) -> (usize, usize) {
    let mvs = valid_moves(m);
    if mvs.len() == 1 {
        mvs[0]
    } else if round_of(m.board) < 3 {
        mvs[pick % (mvs.len() as int)]
    } else {
        minimax_spec(
            m,
            m.state,
            adjusted_depth(depth, round_of(m.board)),
            i32::MIN as int,
            i32::MAX as int,
        ).1
    }
}

/// Chooses a move by alpha-beta search, with the random draw of the opening
/// plies injected as `pick`: the result is exactly [`minimax_choice`], a
/// function of the position, the depth and the draw alone.
pub fn minimax_move_with(game: &Othello, depth: i16, pick: usize) -> (r: (usize, usize))
    requires
        game@.wf(),
        is_turn(game@.state),
        1 <= depth <= i16::MAX - 10,
    ensures
        r == minimax_choice(game@, depth as int, pick as int),
        valid_moves(game@).contains(r),
{
    let possible_moves = game.get_valid_moves();
    let ghost mvs = possible_moves@;
    if possible_moves.len() == 1 {
        proof {
            assert(mvs.contains(mvs[0]));
        }
        return possible_moves[0];
    }
    let round = get_round(game.board);
    let mut depth = depth;
    if round < 3 {
        let idx = pick % possible_moves.len();
        proof {
            assert(mvs.contains(mvs[idx as int]));
        }
        return possible_moves[idx];
    }
    if round >= 50 {
        depth = depth + 10;
    } else if round > 40 {
        depth = depth + 2;
    } else if round > 30 {
        depth = depth + 1;
    }
    let r = minimax(game, game.state, depth, i32::MIN, i32::MAX);
    proof {
        assert(mvs.contains(mvs[0]));
        lemma_minimax_loop_in(
            game@,
            game@.state,
            depth as int,
            mvs,
            0,
            i32::MIN as int,
            i32::MAX as int,
            if game@.state == game@.state {
                i32::MIN as int
            } else {
                i32::MAX as int
            },
            mvs[0],
        );
    }
    r.1
}

/// Chooses a move by alpha-beta search, drawing the opening-phase random pick
/// from the process-wide generator. Beyond the opening the result is exactly
/// the search's choice, whatever the draw.
pub fn minimax_move(game: &Othello, depth: i16) -> (r: (usize, usize))
    requires
        game@.wf(),
        is_turn(game@.state),
        1 <= depth <= i16::MAX - 10,
    ensures
        valid_moves(game@).contains(r),
        valid_moves(game@).len() == 1 ==> r == valid_moves(game@)[0],
        round_of(game@.board) >= 3 ==> r == minimax_choice(game@, depth as int, 0),
{
    let pick = rand::random::<u32>();
    minimax_move_with(game, depth, pick as usize)
}

} // verus!

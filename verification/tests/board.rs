use othello::othello::{Cell, Othello, State};

fn count(board: &[[Cell; 8]; 8], cell: Cell) -> u32 {
    let mut n = 0;
    for y in 0..8 {
        for x in 0..8 {
            if board[y][x] == cell {
                n += 1;
            }
        }
    }
    n
}

fn free_cells(board: &[[Cell; 8]; 8]) -> u32 {
    count(board, Cell::Empty) + count(board, Cell::Valid)
}

#[test]
fn opening_fixture() {
    let game = Othello::new();
    assert_eq!(game.black_score, 2);
    assert_eq!(game.white_score, 2);
    assert!(game.state == State::BlackTurn);
    let mut moves = game.get_valid_moves();
    moves.sort();
    let mut expected = vec![(3usize, 2usize), (2, 3), (5, 4), (4, 5)];
    expected.sort();
    assert_eq!(moves, expected);
}

#[test]
fn opening_capture() {
    let mut game = Othello::new();
    // Black plays (2, 3): the run of one White piece at (3, 3) is captured.
    game.make_move((2, 3));
    assert_eq!(game.black_score, 4);
    assert_eq!(game.white_score, 1);
    assert!(game.state == State::WhiteTurn);
    assert!(game.board[3][2] == Cell::Black);
    assert!(game.board[3][3] == Cell::Black);
}

#[test]
fn count_invariant_holds_while_playing() {
    let mut game = Othello::new();
    let mut plies = 0;
    while (game.state == State::BlackTurn || game.state == State::WhiteTurn) && plies < 60 {
        let board = game.board;
        assert_eq!(
            count(&board, Cell::Black) + count(&board, Cell::White) + free_cells(&board),
            64
        );
        assert_eq!(count(&board, Cell::Black), game.black_score as u32);
        assert_eq!(count(&board, Cell::White), game.white_score as u32);
        let moves = game.get_valid_moves();
        game.make_move(moves[0]);
        plies += 1;
    }
    let board = game.board;
    assert_eq!(
        count(&board, Cell::Black) + count(&board, Cell::White) + free_cells(&board),
        64
    );
}

#[test]
fn pass_rule() {
    // Black to move at (2, 0). After the move White has no reply anywhere,
    // but Black can still capture (1, 2), so the turn passes back to Black.
    let mut board = [[Cell::Empty; 8]; 8];
    board[0][0] = Cell::Black;
    board[0][1] = Cell::White;
    board[0][2] = Cell::Valid;
    board[2][0] = Cell::Black;
    board[2][1] = Cell::White;
    board[7][7] = Cell::White;
    let mut game = Othello { black_score: 2, white_score: 3, board, state: State::BlackTurn };
    game.make_move((2, 0));
    assert!(game.state == State::BlackTurn);
    assert!(!game.get_valid_moves().is_empty());
    assert_eq!(game.black_score, 4);
    assert_eq!(game.white_score, 2);
}

#[test]
fn double_pass_terminal() {
    // After Black plays (2, 0), both colours remain on the board and free
    // cells are left, yet neither side has a legal move: the game must
    // resolve by strict majority.
    let mut board = [[Cell::Empty; 8]; 8];
    board[0][0] = Cell::Black;
    board[0][1] = Cell::White;
    board[0][2] = Cell::Valid;
    board[7][7] = Cell::White;
    let mut game = Othello { black_score: 1, white_score: 2, board, state: State::BlackTurn };
    game.make_move((2, 0));
    assert!(game.state == State::BlackWon);
    assert_eq!(game.black_score, 3);
    assert_eq!(game.white_score, 1);
}

#[test]
fn double_pass_draw_on_equality() {
    // The same double-pass shape with equal material resolves to a draw:
    // after Black's capture each side holds three pieces and nobody can move.
    let mut board = [[Cell::Empty; 8]; 8];
    board[0][0] = Cell::Black;
    board[0][1] = Cell::White;
    board[0][2] = Cell::Valid;
    board[7][7] = Cell::White;
    board[7][5] = Cell::White;
    board[5][7] = Cell::White;
    let mut game = Othello { black_score: 1, white_score: 4, board, state: State::BlackTurn };
    game.make_move((2, 0));
    assert!(game.state == State::Draw);
    assert_eq!(game.black_score, 3);
    assert_eq!(game.white_score, 3);
}

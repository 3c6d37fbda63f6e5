//! The board engine: an 8 x 8 Othello grid with turn and result state,
//! piece counters, legal-move computation and move application.
//!
//! The mathematical model of a game position is [`Snapshot`]: the board as a
//! flat row-major sequence of 64 cells, the turn/result state, and the two
//! piece counts. Every executable operation is specified against this model.

use vstd::prelude::*;

verus! {

/// One cell of the grid. `Valid` marks a legal move for the current mover; it
/// is a transient annotation recomputed after every move, and counts as empty.
#[derive(Copy, Clone, PartialEq, Eq, Structural, Debug)]
pub enum Cell {
    Empty,
    Black,
    White,
    Valid,
}

/// Turn or result of a game. `BlackTurn` and `WhiteTurn` are the only
/// non-terminal states.
#[derive(Copy, Clone, PartialEq, Eq, Structural, Debug)]
pub enum State {
    BlackTurn,
    WhiteTurn,
    BlackWon,
    WhiteWon,
    Draw,
}

/// A game position: the grid, whose first index is the row (`y`) and second
/// the column (`x`), the turn/result state, and the piece counts.
#[derive(Copy, Clone)]
pub struct Othello {
    pub black_score: u8,
    pub white_score: u8,
    pub board: [[Cell; 8]; 8],
    pub state: State,
}

/// The mathematical model of a position: the board as a flat row-major
/// sequence of 64 cells (cell `(x, y)` at index `y * 8 + x`).
#[verifier::ext_equal]
pub ghost struct Snapshot {
    pub board: Seq<Cell>,
    pub state: State,
    pub black: int,
    pub white: int,
}

/// Row-major index of cell `(x, y)`.
pub open spec fn cell_index(x: int, y: int) -> int {
    y * 8 + x
}

/// The flat row-major view of the grid.
pub open spec fn flat_board(b: [[Cell; 8]; 8]) -> Seq<Cell> {
    Seq::new(64, |i: int| b[i / 8][i % 8])
}

impl View for Othello {
    type V = Snapshot;

    open spec fn view(&self) -> Snapshot {
        Snapshot {
            board: flat_board(self.board),
            state: self.state,
            black: self.black_score as int,
            white: self.white_score as int,
        }
    }
}

pub open spec fn in_range(x: int, y: int) -> bool {
    0 <= x < 8 && 0 <= y < 8
}

/// The cell at `(x, y)` of a flat board.
pub open spec fn at(b: Seq<Cell>, x: int, y: int) -> Cell {
    b[cell_index(x, y)]
}

/// The flat board with cell `(x, y)` replaced by `c`.
pub open spec fn set_at(b: Seq<Cell>, x: int, y: int, c: Cell) -> Seq<Cell> {
    b.update(cell_index(x, y), c)
}

pub open spec fn is_turn(s: State) -> bool {
    s is BlackTurn || s is WhiteTurn
}

/// The colour that moves in state `s` (meaningful when `is_turn(s)`).
pub open spec fn mover_cell(s: State) -> Cell {
    if s is BlackTurn {
        Cell::Black
    } else {
        Cell::White
    }
}

pub open spec fn opponent_cell(s: State) -> Cell {
    if s is BlackTurn {
        Cell::White
    } else {
        Cell::Black
    }
}

pub open spec fn other_turn(s: State) -> State {
    if s is BlackTurn {
        State::WhiteTurn
    } else {
        State::BlackTurn
    }
}

/// Empty in the sense of the count invariant: `Empty` or the transient `Valid`.
pub open spec fn emptyish(c: Cell) -> bool {
    c is Empty || c is Valid
}

pub open spec fn is_dir(dx: int, dy: int) -> bool {
    -1 <= dx <= 1 && -1 <= dy <= 1 && !(dx == 0 && dy == 0)
}

/// An upper bound on how many steps of `(dx, dy)` stay on the board from
/// `(x, y)`; it shrinks by one with each step.
pub open spec fn dir_measure(x: int, y: int, dx: int, dy: int) -> int {
    if dx > 0 {
        8 - x
    } else if dx < 0 {
        x + 1
    } else if dy > 0 {
        8 - y
    } else {
        y + 1
    }
}

/// Whether the scan that starts at `(x, y)` (inclusive) and walks in direction
/// `(dx, dy)` sees a run of opponent cells terminated by a player cell. A zero
/// length run (a player cell at `(x, y)` itself) counts.
pub open spec fn ray_ok(b: Seq<Cell>, x: int, y: int, dx: int, dy: int, player: Cell, opp: Cell) -> bool
    decreases dir_measure(x, y, dx, dy)
        when is_dir(dx, dy)
{
    in_range(x, y) && (at(b, x, y) == player || (at(b, x, y) == opp && ray_ok(
        b,
        x + dx,
        y + dy,
        dx,
        dy,
        player,
        opp,
    )))
}

/// The maximal run of opponent cells from `(x, y)` (inclusive) in direction
/// `(dx, dy)`.
pub open spec fn ray_run(b: Seq<Cell>, x: int, y: int, dx: int, dy: int, opp: Cell) -> Seq<
    (usize, usize),
>
    decreases dir_measure(x, y, dx, dy)
        when is_dir(dx, dy)
{
    if in_range(x, y) && at(b, x, y) == opp {
        seq![(x as usize, y as usize)] + ray_run(b, x + dx, y + dy, dx, dy, opp)
    } else {
        Seq::empty()
    }
}

/// The cells captured in direction `(dx, dy)` by a `player` piece placed at
/// `(x, y)`: the run of opponent cells beyond `(x, y)`, provided it terminates
/// on a player cell; nothing otherwise.
pub open spec fn dir_flips(b: Seq<Cell>, x: int, y: int, dx: int, dy: int, player: Cell, opp: Cell) -> Seq<
    (usize, usize),
> {
    if ray_ok(b, x + dx, y + dy, dx, dy, player, opp) {
        ray_run(b, x + dx, y + dy, dx, dy, opp)
    } else {
        Seq::empty()
    }
}

/// All cells captured by a `player` piece placed at `(x, y)`, in the fixed
/// direction order of the engine.
pub open spec fn flips(b: Seq<Cell>, x: int, y: int, player: Cell, opp: Cell) -> Seq<
    (usize, usize),
> {
    dir_flips(b, x, y, 0, 1, player, opp) + dir_flips(b, x, y, 0, -1, player, opp) + dir_flips(
        b,
        x,
        y,
        1,
        0,
        player,
        opp,
    ) + dir_flips(b, x, y, 1, 1, player, opp) + dir_flips(b, x, y, 1, -1, player, opp) + dir_flips(
        b,
        x,
        y,
        -1,
        0,
        player,
        opp,
    ) + dir_flips(b, x, y, -1, 1, player, opp) + dir_flips(b, x, y, -1, -1, player, opp)
}

/// Whether placing `player` at `(x, y)` captures at least one cell.
pub open spec fn has_flip(b: Seq<Cell>, x: int, y: int, player: Cell, opp: Cell) -> bool {
    flips(b, x, y, player, opp).len() > 0
}

/// Whether the mover of `s` has at least one legal move on `b`, judged from
/// the piece placement alone (the `Valid` marks play no part).
pub open spec fn has_move(b: Seq<Cell>, s: State) -> bool {
    exists|x: int, y: int|
        in_range(x, y) && emptyish(at(b, x, y)) && has_flip(
            b,
            x,
            y,
            mover_cell(s),
            opponent_cell(s),
        )
}

/// The board with the `Valid` annotation recomputed for the mover of `s`:
/// occupied cells stay, and a free cell is `Valid` exactly when placing the
/// mover's piece there captures something.
pub open spec fn revalidate(b: Seq<Cell>, s: State) -> Seq<Cell> {
    Seq::new(
        64,
        |i: int|
            if emptyish(b[i]) {
                if has_flip(b, i % 8, i / 8, mover_cell(s), opponent_cell(s)) {
                    Cell::Valid
                } else {
                    Cell::Empty
                }
            } else {
                b[i]
            },
    )
}

/// The number of cells equal to `c` at index `i` or beyond.
pub open spec fn count_from(b: Seq<Cell>, c: Cell, i: int) -> int
    decreases 64 - i,
{
    if i < 0 || i >= 64 {
        0
    } else {
        (if b[i] == c {
            1int
        } else {
            0int
        }) + count_from(b, c, i + 1)
    }
}

/// The number of cells equal to `c` on the whole board.
pub open spec fn count_cells(b: Seq<Cell>, c: Cell) -> int {
    count_from(b, c, 0)
}

/// The number of free (`Empty` or `Valid`) cells at index `i` or beyond.
pub open spec fn count_free_from(b: Seq<Cell>, i: int) -> int
    decreases 64 - i,
{
    if i < 0 || i >= 64 {
        0
    } else {
        (if emptyish(b[i]) {
            1int
        } else {
            0int
        }) + count_free_from(b, i + 1)
    }
}

/// The number of free (`Empty` or `Valid`) cells on the whole board.
pub open spec fn count_free(b: Seq<Cell>) -> int {
    count_free_from(b, 0)
}

pub open spec fn board_full(b: Seq<Cell>) -> bool {
    forall|i: int| 0 <= i < 64 ==> !emptyish(b[i])
}

/// The terminal state decided by strict majority of the counts.
pub open spec fn winner(black: int, white: int) -> State {
    if black > white {
        State::BlackWon
    } else if black < white {
        State::WhiteWon
    } else {
        State::Draw
    }
}

/// The `Valid` cells of `b` in row-major order, from `(x, y)` onward.
pub open spec fn moves_from(b: Seq<Cell>, x: int, y: int) -> Seq<(usize, usize)>
    decreases 8 - y, 8 - x,
        when 0 <= x <= 8 && 0 <= y <= 8
{
    if y >= 8 {
        Seq::empty()
    } else if x >= 8 {
        moves_from(b, 0, y + 1)
    } else if at(b, x, y) is Valid {
        seq![(x as usize, y as usize)] + moves_from(b, x + 1, y)
    } else {
        moves_from(b, x + 1, y)
    }
}

/// The legal moves of a position: its `Valid` cells in row-major order, and
/// none at all once the game is over.
pub open spec fn valid_moves(m: Snapshot) -> Seq<(usize, usize)> {
    if is_turn(m.state) {
        moves_from(m.board, 0, 0)
    } else {
        Seq::empty()
    }
}

/// The board with every cell listed in `fl` set to `c`, in order.
pub open spec fn apply_flips(b: Seq<Cell>, fl: Seq<(usize, usize)>, c: Cell) -> Seq<Cell>
    decreases fl.len(),
{
    if fl.len() == 0 {
        b
    } else {
        apply_flips(set_at(b, fl[0].0 as int, fl[0].1 as int, c), fl.drop_first(), c)
    }
}

/// Turn and terminal resolution after the mover of `mover` has just moved on
/// `b`: recount the pieces; finish by majority if the board is full or a
/// colour is wiped out; otherwise hand the turn over, recompute the `Valid`
/// marks, pass back if the new mover has no move, and finish by majority if
/// neither mover has one.
pub open spec fn resolve(b: Seq<Cell>, mover: State) -> Snapshot {
    let black = count_cells(b, Cell::Black);
    let white = count_cells(b, Cell::White);
    if board_full(b) || black == 0 || white == 0 {
        Snapshot { board: b, state: winner(black, white), black, white }
    } else {
        let s1 = other_turn(mover);
        let b1 = revalidate(b, s1);
        if moves_from(b1, 0, 0).len() > 0 {
            Snapshot { board: b1, state: s1, black, white }
        } else {
            let b2 = revalidate(b1, mover);
            if moves_from(b2, 0, 0).len() > 0 {
                Snapshot { board: b2, state: mover, black, white }
            } else {
                Snapshot { board: b2, state: winner(black, white), black, white }
            }
        }
    }
}

/// The position after the mover of `m` places a piece on the `Valid` cell
/// `(x, y)`: the piece is placed, every captured cell is flipped, and the
/// turn/terminal resolution of [`resolve`] runs.
pub open spec fn step(m: Snapshot, x: int, y: int) -> Snapshot {
    let p = mover_cell(m.state);
    let o = opponent_cell(m.state);
    let b1 = set_at(m.board, x, y, p);
    let b2 = apply_flips(b1, flips(b1, x, y, p, o), p);
    resolve(b2, m.state)
}

impl Snapshot {
    /// Well-formedness: the counters agree with the board, and a position
    /// whose state says a player is to move offers that player a move.
    pub open spec fn wf(self) -> bool {
        &&& self.board.len() == 64
        &&& self.black == count_cells(self.board, Cell::Black)
        &&& self.white == count_cells(self.board, Cell::White)
        &&& is_turn(self.state) ==> moves_from(self.board, 0, 0).len() > 0
    }
}

/// Row-major indices decompose as expected.
pub broadcast proof fn lemma_cell_index(x: int, y: int)
    requires
        in_range(x, y),
    ensures
        0 <= #[trigger] cell_index(x, y) < 64,
        cell_index(x, y) / 8 == y,
        cell_index(x, y) % 8 == x,
{
    assert(0 <= y * 8 + x < 64) by (nonlinear_arith)
        requires 0 <= x < 8 && 0 <= y < 8;
    assert((y * 8 + x) / 8 == y && (y * 8 + x) % 8 == x) by (nonlinear_arith)
        requires 0 <= x < 8 && 0 <= y < 8;
}

/// Two boards that agree cell by cell on where colour `c` sits have the same
/// count of it.
proof fn lemma_count_from_same(b1: Seq<Cell>, b2: Seq<Cell>, c: Cell, i: int)
    requires
        forall|j: int| 0 <= j < 64 ==> ((b1[j] == c) <==> (b2[j] == c)),
    ensures
        count_from(b1, c, i) == count_from(b2, c, i),
    decreases 64 - i,
{
    if 0 <= i < 64 {
        lemma_count_from_same(b1, b2, c, i + 1);
    }
}

/// Two boards that agree cell by cell on freeness have the same free count.
proof fn lemma_count_free_same(b1: Seq<Cell>, b2: Seq<Cell>, i: int)
    requires
        forall|j: int| 0 <= j < 64 ==> (emptyish(b1[j]) <==> emptyish(b2[j])),
    ensures
        count_free_from(b1, i) == count_free_from(b2, i),
    decreases 64 - i,
{
    if 0 <= i < 64 {
        lemma_count_free_same(b1, b2, i + 1);
    }
}

/// Recomputing the `Valid` marks moves no piece: both colour counts and the
/// free count are unchanged.
pub proof fn lemma_revalidate_counts(b: Seq<Cell>, s: State)
    ensures
        count_cells(revalidate(b, s), Cell::Black) == count_cells(b, Cell::Black),
        count_cells(revalidate(b, s), Cell::White) == count_cells(b, Cell::White),
        count_free(revalidate(b, s)) == count_free(b),
{
    let r = revalidate(b, s);
    assert forall|j: int| 0 <= j < 64 implies ((r[j] == Cell::Black) <==> (b[j] == Cell::Black))
        && ((r[j] == Cell::White) <==> (b[j] == Cell::White)) && (emptyish(r[j]) <==> emptyish(
        b[j],
    )) by {}
    lemma_count_from_same(r, b, Cell::Black, 0);
    lemma_count_from_same(r, b, Cell::White, 0);
    lemma_count_free_same(r, b, 0);
}

/// Turn/terminal resolution always leaves a well-formed position.
pub proof fn lemma_resolve_wf(b: Seq<Cell>, mover: State)
    requires
        b.len() == 64,
    ensures
        resolve(b, mover).wf(),
        resolve(b, mover).board.len() == 64,
{
    let black = count_cells(b, Cell::Black);
    let white = count_cells(b, Cell::White);
    if board_full(b) || black == 0 || white == 0 {
    } else {
        let s1 = other_turn(mover);
        let b1 = revalidate(b, s1);
        lemma_revalidate_counts(b, s1);
        if moves_from(b1, 0, 0).len() > 0 {
        } else {
            let b2 = revalidate(b1, mover);
            lemma_revalidate_counts(b1, mover);
        }
    }
}

/// The standard Othello opening position: the four centre cells split
/// diagonally, with the four cells that capture something marked `Valid`.
pub open spec fn opening_cell(x: int, y: int) -> Cell {
    if (x == 3 && y == 3) || (x == 4 && y == 4) {
        Cell::White
    } else if (x == 4 && y == 3) || (x == 3 && y == 4) {
        Cell::Black
    } else if (x == 3 && y == 2) || (x == 2 && y == 3) || (x == 5 && y == 4) || (x == 4 && y == 5) {
        Cell::Valid
    } else {
        Cell::Empty
    }
}

pub open spec fn opening_board() -> Seq<Cell> {
    Seq::new(64, |i: int| opening_cell(i % 8, i / 8))
}

/// The four legal opening moves, in row-major order.
pub open spec fn opening_moves() -> Seq<(usize, usize)> {
    seq![(3usize, 2usize), (2usize, 3usize), (5usize, 4usize), (4usize, 5usize)]
}

/// A flat index splits into its column `i % 8` and row `i / 8`.
pub proof fn lemma_index_decompose(i: int)
    requires
        0 <= i < 64,
    ensures
        (i / 8) * 8 + (i % 8) == i,
        0 <= i % 8 < 8,
        0 <= i / 8 < 8,
{
    assert((i / 8) * 8 + (i % 8) == i && 0 <= i % 8 < 8 && 0 <= i / 8 < 8) by (nonlinear_arith)
        requires 0 <= i < 64;
}

#[verifier::rlimit(100)]
proof fn lemma_opening_black()
    ensures
        count_cells(opening_board(), Cell::Black) == 2,
{
    reveal_with_fuel(count_from, 65);
}

#[verifier::rlimit(100)]
proof fn lemma_opening_white()
    ensures
        count_cells(opening_board(), Cell::White) == 2,
{
    reveal_with_fuel(count_from, 65);
}

#[verifier::rlimit(100)]
proof fn lemma_opening_free()
    ensures
        count_free(opening_board()) == 60,
{
    reveal_with_fuel(count_free_from, 65);
}

#[verifier::rlimit(100)]
proof fn lemma_opening_moves()
    ensures
        moves_from(opening_board(), 0, 0) == opening_moves(),
{
    reveal_with_fuel(moves_from, 80);
    assert(moves_from(opening_board(), 0, 0) =~= opening_moves());
}

/// The concrete facts of the opening position.
proof fn lemma_opening()
    ensures
        count_cells(opening_board(), Cell::Black) == 2,
        count_cells(opening_board(), Cell::White) == 2,
        count_free(opening_board()) == 60,
        moves_from(opening_board(), 0, 0) == opening_moves(),
{
    lemma_opening_black();
    lemma_opening_white();
    lemma_opening_free();
    lemma_opening_moves();
}

/// Black count, White count and the free count partition the 64 cells.
proof fn lemma_partition_from(b: Seq<Cell>, i: int)
    requires
        0 <= i <= 64,
    ensures
        count_from(b, Cell::Black, i) + count_from(b, Cell::White, i) + count_free_from(b, i)
            == 64 - i,
    decreases 64 - i,
{
    if i < 64 {
        let c = b[i];
        assert(c is Empty || c is Black || c is White || c is Valid);
        lemma_partition_from(b, i + 1);
    }
}

/// The count invariant: in every well-formed position the Black count, the
/// White count and the free-cell count sum to 64.
pub proof fn lemma_count_invariant(m: Snapshot)
    requires
        m.wf(),
    ensures
        m.black + m.white + count_free(m.board) == 64,
{
    lemma_partition_from(m.board, 0);
}

/// The free count is never negative.
pub proof fn lemma_count_free_nonneg(b: Seq<Cell>, i: int)
    ensures
        count_free_from(b, i) >= 0,
    decreases 64 - i,
{
    if 0 <= i < 64 {
        lemma_count_free_nonneg(b, i + 1);
    }
}

/// Updating one cell changes the free count by the freeness difference of
/// the old and new contents.
proof fn lemma_count_free_update(b: Seq<Cell>, j: int, c: Cell, i: int)
    requires
        0 <= j < 64,
        b.len() == 64,
        0 <= i,
    ensures
        count_free_from(b.update(j, c), i) == count_free_from(b, i) + if i <= j {
            (if emptyish(c) {
                1int
            } else {
                0int
            }) - (if emptyish(b[j]) {
                1int
            } else {
                0int
            })
        } else {
            0int
        },
    decreases 64 - i,
{
    if i < 64 {
        lemma_count_free_update(b, j, c, i + 1);
    }
}

/// Setting occupied cells to an occupied colour leaves freeness unchanged,
/// cell by cell.
proof fn lemma_apply_flips_free(b: Seq<Cell>, fl: Seq<(usize, usize)>, c: Cell)
    requires
        b.len() == 64,
        !emptyish(c),
        forall|j: int|
            0 <= j < fl.len() ==> in_range((#[trigger] fl[j]).0 as int, fl[j].1 as int)
                && !emptyish(at(b, fl[j].0 as int, fl[j].1 as int)),
    ensures
        apply_flips(b, fl, c).len() == 64,
        forall|i: int|
            0 <= i < 64 ==> (emptyish(#[trigger] apply_flips(b, fl, c)[i]) <==> emptyish(b[i])),
    decreases fl.len(),
{
    if fl.len() > 0 {
        let x = fl[0].0 as int;
        let y = fl[0].1 as int;
        lemma_cell_index(x, y);
        let b2 = set_at(b, x, y, c);
        assert forall|j: int|
            0 <= j < fl.drop_first().len() implies in_range(
                (#[trigger] fl.drop_first()[j]).0 as int,
                fl.drop_first()[j].1 as int,
            ) && !emptyish(at(b2, fl.drop_first()[j].0 as int, fl.drop_first()[j].1 as int)) by {
            assert(fl.drop_first()[j] == fl[j + 1]);
            lemma_cell_index(fl[j + 1].0 as int, fl[j + 1].1 as int);
        }
        lemma_apply_flips_free(b2, fl.drop_first(), c);
    }
}

/// Applying a move fills exactly one free cell: the free count drops by one.
pub proof fn lemma_step_free(m: Snapshot, x: int, y: int)
    requires
        m.board.len() == 64,
        in_range(x, y),
        at(m.board, x, y) is Valid,
    ensures
        count_free(step(m, x, y).board) == count_free(m.board) - 1,
        step(m, x, y).board.len() == 64,
{
    let p = mover_cell(m.state);
    let o = opponent_cell(m.state);
    let b1 = set_at(m.board, x, y, p);
    let fl = flips(b1, x, y, p, o);
    let b2 = apply_flips(b1, fl, p);
    lemma_cell_index(x, y);
    lemma_count_free_update(m.board, cell_index(x, y), p, 0);
    lemma_flips_elems(b1, x, y, p, o);
    assert forall|j: int|
        0 <= j < fl.len() implies in_range((#[trigger] fl[j]).0 as int, fl[j].1 as int)
            && !emptyish(at(b1, fl[j].0 as int, fl[j].1 as int)) by {}
    lemma_apply_flips_free(b1, fl, p);
    lemma_count_free_same(b2, b1, 0);
    let black = count_cells(b2, Cell::Black);
    let white = count_cells(b2, Cell::White);
    if board_full(b2) || black == 0 || white == 0 {
    } else {
        let s1 = other_turn(m.state);
        let b3 = revalidate(b2, s1);
        lemma_revalidate_counts(b2, s1);
        if moves_from(b3, 0, 0).len() > 0 {
        } else {
            lemma_revalidate_counts(b3, m.state);
        }
    }
}

/// Every listed move is an on-board `Valid` cell.
pub proof fn lemma_moves_sound(b: Seq<Cell>, x: int, y: int)
    requires
        0 <= x <= 8,
        0 <= y <= 8,
    ensures
        forall|j: int|
            0 <= j < moves_from(b, x, y).len() ==> {
                let e = #[trigger] moves_from(b, x, y)[j];
                in_range(e.0 as int, e.1 as int) && at(b, e.0 as int, e.1 as int) is Valid
            },
    decreases 8 - y, 8 - x,
{
    if y >= 8 {
    } else if x >= 8 {
        lemma_moves_sound(b, 0, y + 1);
    } else {
        lemma_moves_sound(b, x + 1, y);
    }
}

/// Every on-board `Valid` cell at or beyond the scan position is listed.
pub proof fn lemma_moves_complete(b: Seq<Cell>, x: int, y: int, u: int, v: int)
    requires
        0 <= x <= 8,
        0 <= y <= 8,
        in_range(u, v),
        at(b, u, v) is Valid,
        v > y || (v == y && u >= x),
    ensures
        moves_from(b, x, y).contains((u as usize, v as usize)),
    decreases 8 - y, 8 - x,
{
    if y >= 8 {
    } else if x >= 8 {
        lemma_moves_complete(b, 0, y + 1, u, v);
    } else if u == x && v == y {
        assert(moves_from(b, x, y)[0] == (u as usize, v as usize));
    } else {
        lemma_moves_complete(b, x + 1, y, u, v);
        let rest = moves_from(b, x + 1, y);
        let j = choose|j: int| 0 <= j < rest.len() && rest[j] == (u as usize, v as usize);
        if at(b, x, y) is Valid {
            assert(moves_from(b, x, y)[j + 1] == (u as usize, v as usize));
        }
    }
}

/// A listed legal move addresses an on-board `Valid` cell of a running game.
pub proof fn lemma_valid_move(m: Snapshot, mv: (usize, usize))
    requires
        valid_moves(m).contains(mv),
    ensures
        is_turn(m.state),
        mv.0 < 8,
        mv.1 < 8,
        at(m.board, mv.0 as int, mv.1 as int) is Valid,
{
    if is_turn(m.state) {
        lemma_moves_sound(m.board, 0, 0);
        let j = choose|j: int|
            0 <= j < valid_moves(m).len() && valid_moves(m)[j] == mv;
        assert(moves_from(m.board, 0, 0)[j] == mv);
    }
}

/// A board freshly annotated for the mover of `s` lists a move exactly when
/// that mover has one.
pub proof fn lemma_revalidate_moves(b: Seq<Cell>, s: State)
    ensures
        moves_from(revalidate(b, s), 0, 0).len() > 0 <==> has_move(b, s),
{
    let r = revalidate(b, s);
    if moves_from(r, 0, 0).len() > 0 {
        lemma_moves_sound(r, 0, 0);
        let e = moves_from(r, 0, 0)[0];
        let x = e.0 as int;
        let y = e.1 as int;
        lemma_cell_index(x, y);
        assert(r[cell_index(x, y)] is Valid);
        assert(emptyish(at(b, x, y)) && has_flip(b, x, y, mover_cell(s), opponent_cell(s)));
        assert(has_move(b, s));
    }
    if has_move(b, s) {
        let (x, y) = choose|x: int, y: int|
            in_range(x, y) && emptyish(at(b, x, y)) && has_flip(
                b,
                x,
                y,
                mover_cell(s),
                opponent_cell(s),
            );
        lemma_cell_index(x, y);
        assert(at(r, x, y) is Valid);
        lemma_moves_complete(r, 0, 0, x, y);
    }
}

/// Two boards with every piece in the same place.
pub open spec fn same_occupancy(b1: Seq<Cell>, b2: Seq<Cell>) -> bool {
    forall|i: int|
        0 <= i < 64 ==> ((#[trigger] b1[i] == Cell::Black <==> #[trigger] b2[i] == Cell::Black)
            && (b1[i] == Cell::White <==> b2[i] == Cell::White))
}

/// Ray scans read only where the pieces sit, never the transient marks.
proof fn lemma_ray_frame(
    b1: Seq<Cell>,
    b2: Seq<Cell>,
    x: int,
    y: int,
    dx: int,
    dy: int,
    player: Cell,
    opp: Cell,
)
    requires
        same_occupancy(b1, b2),
        is_dir(dx, dy),
        !emptyish(player),
        !emptyish(opp),
    ensures
        ray_ok(b1, x, y, dx, dy, player, opp) == ray_ok(b2, x, y, dx, dy, player, opp),
        ray_run(b1, x, y, dx, dy, opp) == ray_run(b2, x, y, dx, dy, opp),
    decreases dir_measure(x, y, dx, dy),
{
    if in_range(x, y) {
        lemma_cell_index(x, y);
        assert(at(b1, x, y) == player <==> at(b2, x, y) == player);
        assert(at(b1, x, y) == opp <==> at(b2, x, y) == opp);
        lemma_ray_frame(b1, b2, x + dx, y + dy, dx, dy, player, opp);
        assert(ray_run(b1, x, y, dx, dy, opp) =~= ray_run(b2, x, y, dx, dy, opp));
    }
}

/// Captures depend only on where the pieces sit.
#[verifier::rlimit(100)]
proof fn lemma_flips_frame(
    b1: Seq<Cell>,
    b2: Seq<Cell>,
    x: int,
    y: int,
    player: Cell,
    opp: Cell,
)
    requires
        same_occupancy(b1, b2),
        !emptyish(player),
        !emptyish(opp),
    ensures
        flips(b1, x, y, player, opp) == flips(b2, x, y, player, opp),
{
    lemma_ray_frame(b1, b2, x + 0, y + 1, 0, 1, player, opp);
    lemma_ray_frame(b1, b2, x + 0, y - 1, 0, -1, player, opp);
    lemma_ray_frame(b1, b2, x + 1, y + 0, 1, 0, player, opp);
    lemma_ray_frame(b1, b2, x + 1, y + 1, 1, 1, player, opp);
    lemma_ray_frame(b1, b2, x + 1, y - 1, 1, -1, player, opp);
    lemma_ray_frame(b1, b2, x - 1, y + 0, -1, 0, player, opp);
    lemma_ray_frame(b1, b2, x - 1, y + 1, -1, 1, player, opp);
    lemma_ray_frame(b1, b2, x - 1, y - 1, -1, -1, player, opp);
}

/// Having a legal move depends only on where the pieces sit.
proof fn lemma_has_move_frame(b1: Seq<Cell>, b2: Seq<Cell>, s: State)
    requires
        same_occupancy(b1, b2),
    ensures
        has_move(b1, s) == has_move(b2, s),
{
    if has_move(b1, s) {
        let (x, y) = choose|x: int, y: int|
            in_range(x, y) && emptyish(at(b1, x, y)) && has_flip(
                b1,
                x,
                y,
                mover_cell(s),
                opponent_cell(s),
            );
        lemma_cell_index(x, y);
        lemma_flips_frame(b1, b2, x, y, mover_cell(s), opponent_cell(s));
        assert(at(b1, x, y) is Empty || at(b1, x, y) is Valid || at(b1, x, y) is Black || at(
            b1,
            x,
            y,
        ) is White);
        assert(emptyish(at(b2, x, y)));
        assert(has_move(b2, s));
    }
    if has_move(b2, s) {
        let (x, y) = choose|x: int, y: int|
            in_range(x, y) && emptyish(at(b2, x, y)) && has_flip(
                b2,
                x,
                y,
                mover_cell(s),
                opponent_cell(s),
            );
        lemma_cell_index(x, y);
        lemma_flips_frame(b1, b2, x, y, mover_cell(s), opponent_cell(s));
        assert(at(b2, x, y) is Empty || at(b2, x, y) is Valid || at(b2, x, y) is Black || at(
            b2,
            x,
            y,
        ) is White);
        assert(emptyish(at(b1, x, y)));
        assert(has_move(b1, s));
    }
}

/// Recomputing the `Valid` marks moves no piece.
proof fn lemma_revalidate_occupancy(b: Seq<Cell>, s: State)
    ensures
        same_occupancy(revalidate(b, s), b),
{
}

/// The double-pass rule: when neither mover has a legal move on the board
/// just played, resolution is terminal, with the winner decided purely by
/// strict majority of the counts (a draw on equality).
pub proof fn lemma_double_pass(b: Seq<Cell>, mover: State)
    requires
        b.len() == 64,
        is_turn(mover),
        !has_move(b, State::BlackTurn),
        !has_move(b, State::WhiteTurn),
    ensures
        resolve(b, mover).state == winner(
            count_cells(b, Cell::Black),
            count_cells(b, Cell::White),
        ),
        !is_turn(resolve(b, mover).state),
{
    let black = count_cells(b, Cell::Black);
    let white = count_cells(b, Cell::White);
    if board_full(b) || black == 0 || white == 0 {
    } else {
        let s1 = other_turn(mover);
        let b1 = revalidate(b, s1);
        lemma_revalidate_moves(b, s1);
        assert(moves_from(b1, 0, 0).len() == 0);
        let b2 = revalidate(b1, mover);
        lemma_revalidate_moves(b1, mover);
        lemma_revalidate_occupancy(b, s1);
        lemma_has_move_frame(b1, b, mover);
        assert(moves_from(b2, 0, 0).len() == 0);
    }
}

/// Every cell of a run lies on the board and holds the opponent's colour.
pub proof fn lemma_ray_run_elems(b: Seq<Cell>, x: int, y: int, dx: int, dy: int, opp: Cell)
    requires
        is_dir(dx, dy),
    ensures
        forall|j: int|
            0 <= j < ray_run(b, x, y, dx, dy, opp).len() ==> {
                let e = #[trigger] ray_run(b, x, y, dx, dy, opp)[j];
                in_range(e.0 as int, e.1 as int) && at(b, e.0 as int, e.1 as int) == opp
            },
    decreases dir_measure(x, y, dx, dy),
{
    if in_range(x, y) && at(b, x, y) == opp {
        lemma_ray_run_elems(b, x + dx, y + dy, dx, dy, opp);
    }
}

/// Every captured cell lies on the board and holds the opponent's colour.
pub proof fn lemma_flips_elems(b: Seq<Cell>, x: int, y: int, player: Cell, opp: Cell)
    ensures
        forall|j: int|
            0 <= j < flips(b, x, y, player, opp).len() ==> {
                let e = #[trigger] flips(b, x, y, player, opp)[j];
                in_range(e.0 as int, e.1 as int) && at(b, e.0 as int, e.1 as int) == opp
            },
{
    lemma_ray_run_elems(b, x + 0, y + 1, 0, 1, opp);
    lemma_ray_run_elems(b, x + 0, y - 1, 0, -1, opp);
    lemma_ray_run_elems(b, x + 1, y + 0, 1, 0, opp);
    lemma_ray_run_elems(b, x + 1, y + 1, 1, 1, opp);
    lemma_ray_run_elems(b, x + 1, y - 1, 1, -1, opp);
    lemma_ray_run_elems(b, x - 1, y + 0, -1, 0, opp);
    lemma_ray_run_elems(b, x - 1, y + 1, -1, 1, opp);
    lemma_ray_run_elems(b, x - 1, y - 1, -1, -1, opp);
}

impl Othello {
    /// The run of `opponent` cells captured by a `player` piece placed at
    /// `(x, y)`, scanning in direction `(dx, dy)`.
    fn flipped_cells_in_directions(
        &self,
        x: usize,
        y: usize,
        dx: i8,
        dy: i8,
        player: Cell,
        opponent: Cell,
    ) -> (fl: Vec<(usize, usize)>)
        requires
            x < 8,
            y < 8,
            is_dir(dx as int, dy as int),
            player != opponent,
        ensures
            fl@ == dir_flips(
                self@.board,
                x as int,
                y as int,
                dx as int,
                dy as int,
                player,
                opponent,
            ),
    {
        let ghost b = self@.board;
        let ghost sx: int = x + dx;
        let ghost sy: int = y + dy;
        let mut fl: Vec<(usize, usize)> = Vec::new();
        let mut cx: i16 = x as i16 + dx as i16;
        let mut cy: i16 = y as i16 + dy as i16;
        while 0 <= cx && cx < 8 && 0 <= cy && cy < 8 && self.cell_at(cx as usize, cy as usize)
            == opponent
            invariant
                b == self@.board,
                is_dir(dx as int, dy as int),
                player != opponent,
                sx == x + dx,
                sy == y + dy,
                x < 8,
                y < 8,
                -1 <= cx <= 8,
                -1 <= cy <= 8,
                ray_ok(b, sx, sy, dx as int, dy as int, player, opponent) == ray_ok(
                    b,
                    cx as int,
                    cy as int,
                    dx as int,
                    dy as int,
                    player,
                    opponent,
                ),
                ray_run(b, sx, sy, dx as int, dy as int, opponent) == fl@ + ray_run(
                    b,
                    cx as int,
                    cy as int,
                    dx as int,
                    dy as int,
                    opponent,
                ),
            decreases dir_measure(cx as int, cy as int, dx as int, dy as int),
        {
            proof {
                assert(ray_run(b, cx as int, cy as int, dx as int, dy as int, opponent) == seq![
                    (cx as usize, cy as usize),
                ] + ray_run(
                    b,
                    cx as int + dx as int,
                    cy as int + dy as int,
                    dx as int,
                    dy as int,
                    opponent,
                ));
            }
            fl.push((cx as usize, cy as usize));
            cx = cx + dx as i16;
            cy = cy + dy as i16;
            proof {
                assert(ray_run(b, sx, sy, dx as int, dy as int, opponent) =~= fl@ + ray_run(
                    b,
                    cx as int,
                    cy as int,
                    dx as int,
                    dy as int,
                    opponent,
                ));
            }
        }
        let terminated = 0 <= cx && cx < 8 && 0 <= cy && cy < 8 && self.cell_at(
            cx as usize,
            cy as usize,
        ) == player;
        if !terminated {
            return Vec::new();
        }
        proof {
            assert(ray_run(b, cx as int, cy as int, dx as int, dy as int, opponent)
                =~= Seq::<(usize, usize)>::empty());
            assert(fl@ + Seq::<(usize, usize)>::empty() =~= fl@);
        }
        fl
    }

    /// All cells captured by the current mover placing a piece at `position`,
    /// in the engine's fixed direction order.
    fn flipped_cells(&self, position: (usize, usize)) -> (fl: Vec<(usize, usize)>)
        requires
            position.0 < 8,
            position.1 < 8,
        ensures
            fl@ == flips(
                self@.board,
                position.0 as int,
                position.1 as int,
                mover_cell(self@.state),
                opponent_cell(self@.state),
            ),
    {
        let player: Cell;
        let opponent: Cell;
        if self.state == State::BlackTurn {
            player = Cell::Black;
            opponent = Cell::White;
        } else {
            player = Cell::White;
            opponent = Cell::Black;
        }
        let mut fl = self.flipped_cells_in_directions(position.0, position.1, 0, 1, player, opponent);
        let mut d2 = self.flipped_cells_in_directions(position.0, position.1, 0, -1, player, opponent);
        let mut d3 = self.flipped_cells_in_directions(position.0, position.1, 1, 0, player, opponent);
        let mut d4 = self.flipped_cells_in_directions(position.0, position.1, 1, 1, player, opponent);
        let mut d5 = self.flipped_cells_in_directions(position.0, position.1, 1, -1, player, opponent);
        let mut d6 = self.flipped_cells_in_directions(position.0, position.1, -1, 0, player, opponent);
        let mut d7 = self.flipped_cells_in_directions(position.0, position.1, -1, 1, player, opponent);
        let mut d8 = self.flipped_cells_in_directions(position.0, position.1, -1, -1, player, opponent);
        fl.append(&mut d2);
        fl.append(&mut d3);
        fl.append(&mut d4);
        fl.append(&mut d5);
        fl.append(&mut d6);
        fl.append(&mut d7);
        fl.append(&mut d8);
        fl
    }

    /// The legal moves of the position, as `(x, y)` coordinates in row-major
    /// order; empty once the game is over.
    pub fn get_valid_moves(&self) -> (moves: Vec<(usize, usize)>)
        ensures
            moves@ == valid_moves(self@),
    {
        let ghost b = self@.board;
        if !(self.state == State::BlackTurn || self.state == State::WhiteTurn) {
            return Vec::new();
        }
        let mut moves: Vec<(usize, usize)> = Vec::new();
        let mut y: usize = 0;
        while y < 8
            invariant
                b == self@.board,
                y <= 8,
                moves_from(b, 0, 0) == moves@ + moves_from(b, 0, y as int),
            decreases 8 - y,
        {
            let mut x: usize = 0;
            while x < 8
                invariant
                    b == self@.board,
                    y < 8,
                    x <= 8,
                    moves_from(b, 0, 0) == moves@ + moves_from(b, x as int, y as int),
                decreases 8 - x,
            {
                if self.cell_at(x, y) == Cell::Valid {
                    proof {
                        assert(moves_from(b, x as int, y as int) == seq![(x, y)] + moves_from(
                            b,
                            x as int + 1,
                            y as int,
                        ));
                    }
                    moves.push((x, y));
                }
                x = x + 1;
                proof {
                    assert(moves_from(b, 0, 0) =~= moves@ + moves_from(b, x as int, y as int));
                }
            }
            y = y + 1;
            proof {
                assert(moves_from(b, 8, y as int - 1) == moves_from(b, 0, y as int));
            }
        }
        proof {
            assert(moves_from(b, 0, 8) =~= Seq::<(usize, usize)>::empty());
            assert(moves@ + Seq::<(usize, usize)>::empty() =~= moves@);
        }
        moves
    }

    /// Counts the cells of colour `c`.
    fn count_color(&self, c: Cell) -> (n: u8)
        ensures
            n as int == count_cells(self@.board, c),
    {
        let ghost b = self@.board;
        let mut n: u8 = 0;
        let mut y: usize = 0;
        while y < 8
            invariant
                b == self@.board,
                y <= 8,
                n as int <= 8 * y,
                n as int + count_from(b, c, 8 * y as int) == count_cells(b, c),
            decreases 8 - y,
        {
            let mut x: usize = 0;
            while x < 8
                invariant
                    b == self@.board,
                    y < 8,
                    x <= 8,
                    n as int <= 8 * y + x,
                    n as int + count_from(b, c, 8 * y as int + x as int) == count_cells(b, c),
                decreases 8 - x,
            {
                proof {
                    lemma_cell_index(x as int, y as int);
                }
                if self.cell_at(x, y) == c {
                    n = n + 1;
                }
                x = x + 1;
            }
            y = y + 1;
        }
        n
    }

    /// Whether no free cell is left.
    fn is_board_full(&self) -> (r: bool)
        ensures
            r == board_full(self@.board),
    {
        let ghost b = self@.board;
        let mut y: usize = 0;
        while y < 8
            invariant
                b == self@.board,
                y <= 8,
                forall|i: int| 0 <= i < 8 * y ==> !emptyish(b[i]),
            decreases 8 - y,
        {
            let mut x: usize = 0;
            while x < 8
                invariant
                    b == self@.board,
                    y < 8,
                    x <= 8,
                    forall|i: int| 0 <= i < 8 * y + x ==> !emptyish(b[i]),
                decreases 8 - x,
            {
                proof {
                    lemma_cell_index(x as int, y as int);
                }
                let c = self.cell_at(x, y);
                if c == Cell::Empty || c == Cell::Valid {
                    return false;
                }
                x = x + 1;
            }
            y = y + 1;
        }
        true
    }

    /// Resolves the game by strict majority of the stored counts.
    fn decide_winner(&mut self)
        ensures
            final(self).board == old(self).board,
            final(self).black_score == old(self).black_score,
            final(self).white_score == old(self).white_score,
            final(self).state == winner(old(self)@.black, old(self)@.white),
    {
        if self.black_score > self.white_score {
            self.state = State::BlackWon;
        } else if self.black_score < self.white_score {
            self.state = State::WhiteWon;
        } else {
            self.state = State::Draw;
        }
    }

    /// Recomputes the `Valid` annotation for the current mover: every free
    /// cell is marked `Valid` exactly when playing it would capture something.
    fn update_valid_cells(&mut self)
        ensures
            final(self)@.board == revalidate(old(self)@.board, old(self)@.state),
            final(self).state == old(self).state,
            final(self).black_score == old(self).black_score,
            final(self).white_score == old(self).white_score,
    {
        let ghost b0 = self@.board;
        let ghost target = revalidate(old(self)@.board, old(self)@.state);
        // First pass: compute the new contents from the unchanged board.
        let mut fresh: Vec<Cell> = Vec::new();
        let mut y: usize = 0;
        while y < 8
            invariant
                b0 == self@.board,
                *self == *old(self),
                target == revalidate(b0, self@.state),
                y <= 8,
                fresh@.len() == 8 * y,
                forall|i: int| 0 <= i < 8 * y ==> fresh@[i] == target[i],
            decreases 8 - y,
        {
            let mut x: usize = 0;
            while x < 8
                invariant
                    b0 == self@.board,
                    *self == *old(self),
                    target == revalidate(b0, self@.state),
                    y < 8,
                    x <= 8,
                    fresh@.len() == 8 * y + x,
                    forall|i: int| 0 <= i < 8 * y + x ==> fresh@[i] == target[i],
                decreases 8 - x,
            {
                proof {
                    lemma_cell_index(x as int, y as int);
                }
                let c = self.cell_at(x, y);
                let nc = if c == Cell::Empty || c == Cell::Valid {
                    let captured = self.flipped_cells((x, y));
                    if captured.len() > 0 {
                        Cell::Valid
                    } else {
                        Cell::Empty
                    }
                } else {
                    c
                };
                fresh.push(nc);
                x = x + 1;
            }
            y = y + 1;
        }
        // Second pass: write the new contents back.
        let mut y: usize = 0;
        while y < 8
            invariant
                target == revalidate(b0, old(self)@.state),
                y <= 8,
                fresh@.len() == 64,
                forall|i: int| 0 <= i < 64 ==> fresh@[i] == target[i],
                self@.board.len() == 64,
                forall|i: int| 0 <= i < 8 * y ==> self@.board[i] == target[i],
                forall|i: int| 8 * y <= i < 64 ==> self@.board[i] == b0[i],
                self.state == old(self).state,
                self.black_score == old(self).black_score,
                self.white_score == old(self).white_score,
            decreases 8 - y,
        {
            let mut x: usize = 0;
            while x < 8
                invariant
                    target == revalidate(b0, old(self)@.state),
                    y < 8,
                    x <= 8,
                    fresh@.len() == 64,
                    forall|i: int| 0 <= i < 64 ==> fresh@[i] == target[i],
                    self@.board.len() == 64,
                    forall|i: int| 0 <= i < 8 * y + x ==> self@.board[i] == target[i],
                    forall|i: int| 8 * y + x <= i < 64 ==> self@.board[i] == b0[i],
                    self.state == old(self).state,
                    self.black_score == old(self).black_score,
                    self.white_score == old(self).white_score,
                decreases 8 - x,
            {
                proof {
                    lemma_cell_index(x as int, y as int);
                }
                let idx: usize = y * 8 + x;
                let c = fresh[idx];
                self.set_cell(x, y, c);
                x = x + 1;
            }
            y = y + 1;
        }
        proof {
            assert(self@.board =~= target);
        }
    }

    /// The standard opening position: the four centre cells split diagonally
    /// Black/White, the four capturing cells marked `Valid`, both counts 2,
    /// Black to move.
    pub fn new() -> (game: Othello)
        ensures
            game@.board == opening_board(),
            game@.state == State::BlackTurn,
            game@.black == 2,
            game@.white == 2,
            valid_moves(game@) == opening_moves(),
            count_free(game@.board) == 60,
            game@.wf(),
    {
        let mut game = Othello {
            black_score: 2,
            white_score: 2,
            board: [[Cell::Empty; 8]; 8],
            state: State::BlackTurn,
        };
        game.set_cell(3, 3, Cell::White);
        game.set_cell(4, 4, Cell::White);
        game.set_cell(4, 3, Cell::Black);
        game.set_cell(3, 4, Cell::Black);
        game.set_cell(3, 2, Cell::Valid);
        game.set_cell(2, 3, Cell::Valid);
        game.set_cell(5, 4, Cell::Valid);
        game.set_cell(4, 5, Cell::Valid);
        proof {
            assert forall|i: int| 0 <= i < 64 implies game@.board[i] == opening_board()[i] by {
                lemma_index_decompose(i);
            }
            assert(game@.board =~= opening_board());
            lemma_opening();
        }
        game
    }

    /// Turn and terminal resolution after the current mover has just moved:
    /// the executable counterpart of [`resolve`].
    fn update_state(&mut self)
        requires
            is_turn(old(self)@.state),
        ensures
            final(self)@ == resolve(old(self)@.board, old(self)@.state),
    {
        let ghost b0 = old(self)@.board;
        let ghost s0 = old(self)@.state;
        self.black_score = self.count_color(Cell::Black);
        self.white_score = self.count_color(Cell::White);
        if self.is_board_full() || self.black_score == 0 || self.white_score == 0 {
            self.decide_winner();
            proof {
                assert(self@ =~= resolve(b0, s0));
            }
            return;
        }
        self.state = if self.state == State::BlackTurn {
            State::WhiteTurn
        } else {
            State::BlackTurn
        };
        self.update_valid_cells();
        if self.get_valid_moves().len() == 0 {
            self.state = if self.state == State::BlackTurn {
                State::WhiteTurn
            } else {
                State::BlackTurn
            };
            self.update_valid_cells();
            if self.get_valid_moves().len() == 0 {
                self.decide_winner();
                proof {
                    assert(self@ =~= resolve(b0, s0));
                }
            } else {
                proof {
                    assert(self@ =~= resolve(b0, s0));
                }
            }
        } else {
            proof {
                assert(self@ =~= resolve(b0, s0));
            }
        }
    }

    /// Applies the current mover's move at `position`: places the piece,
    /// flips every captured cell, and resolves turn and terminal state.
    /// `position` must be a `Valid` cell of a running game.
    pub fn make_move(&mut self, position: (usize, usize))
        requires
            is_turn(old(self)@.state),
            position.0 < 8,
            position.1 < 8,
            at(old(self)@.board, position.0 as int, position.1 as int) is Valid,
        ensures
            final(self)@ == step(old(self)@, position.0 as int, position.1 as int),
            final(self)@.wf(),
    {
        let ghost m0 = old(self)@;
        let ghost p = mover_cell(m0.state);
        let ghost o = opponent_cell(m0.state);
        let reverse = if self.state == State::BlackTurn {
            Cell::Black
        } else {
            Cell::White
        };
        self.set_cell(position.0, position.1, reverse);
        let ghost b1 = self@.board;
        let flipped = self.flipped_cells(position);
        let ghost flq = flipped@;
        proof {
            lemma_flips_elems(b1, position.0 as int, position.1 as int, p, o);
            assert(flq.skip(0) =~= flq);
        }
        let mut i: usize = 0;
        while i < flipped.len()
            invariant
                flipped@ == flq,
                flq == flips(b1, position.0 as int, position.1 as int, p, o),
                forall|j: int|
                    0 <= j < flq.len() ==> in_range(
                        (#[trigger] flq[j]).0 as int,
                        flq[j].1 as int,
                    ),
                i <= flq.len(),
                apply_flips(self@.board, flq.skip(i as int), reverse) == apply_flips(
                    b1,
                    flq,
                    reverse,
                ),
                self.state == m0.state,
                reverse == p,
            decreases flq.len() - i,
        {
            let ghost before = self@.board;
            let (fx, fy) = flipped[i];
            self.set_cell(fx, fy, reverse);
            proof {
                assert(flq.skip(i as int)[0] == flq[i as int]);
                assert(flq.skip(i as int).drop_first() =~= flq.skip(i as int + 1));
                assert(apply_flips(before, flq.skip(i as int), reverse) == apply_flips(
                    self@.board,
                    flq.skip(i as int + 1),
                    reverse,
                ));
            }
            i = i + 1;
        }
        proof {
            assert(flq.skip(flq.len() as int) =~= Seq::<(usize, usize)>::empty());
            assert(self@.board == apply_flips(b1, flq, reverse));
        }
        self.update_state();
        proof {
            lemma_resolve_wf(apply_flips(b1, flq, reverse), m0.state);
            assert(self@ =~= step(m0, position.0 as int, position.1 as int));
        }
    }

    /// Reads cell `(x, y)` of the grid.
    pub fn cell_at(&self, x: usize, y: usize) -> (c: Cell)
        requires
            x < 8,
            y < 8,
        ensures
            c == at(self@.board, x as int, y as int),
    {
        proof {
            lemma_cell_index(x as int, y as int);
        }
        self.board[y][x]
    }

    /// Writes cell `(x, y)` of the grid, leaving everything else unchanged.
    fn set_cell(&mut self, x: usize, y: usize, c: Cell)
        requires
            x < 8,
            y < 8,
        ensures
            final(self)@.board == set_at(old(self)@.board, x as int, y as int, c),
            final(self).state == old(self).state,
            final(self).black_score == old(self).black_score,
            final(self).white_score == old(self).white_score,
    {
        let mut row: [Cell; 8] = self.board[y];
        row[x] = c;
        self.board[y] = row;
        proof {
            lemma_cell_index(x as int, y as int);
            assert forall|i: int| 0 <= i < 64 implies flat_board(self.board)[i] == set_at(
                old(self)@.board,
                x as int,
                y as int,
                c,
            )[i] by {
                lemma_cell_index(i % 8, i / 8);
            }
            assert(flat_board(self.board) =~= set_at(old(self)@.board, x as int, y as int, c));
        }
    }
}

} // verus!

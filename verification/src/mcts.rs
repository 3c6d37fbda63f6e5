//! The Monte Carlo tree search engine: repeated four-phase iterations
//! (select by UCT, expand a random unexplored move, random rollout,
//! backpropagate) over a tree of move outcomes held in an arena, returning
//! the most-visited root child.
//!
//! The UCT ordering `wins/visits + sqrt(log2(2 * parentVisits) / childVisits)`
//! is computed in fixed-point integer arithmetic (scale [`UCT_SCALE`], floor
//! logarithm and floor square root), so selection is exact integer
//! arithmetic, fully specified by [`uct_score`].

use vstd::arithmetic::power2::{lemma2_to64, lemma_pow2_strictly_increases, pow2};
use vstd::prelude::*;

use crate::othello::{
    count_free, is_turn, lemma_count_free_nonneg, lemma_step_free, lemma_valid_move, step,
    valid_moves, Othello, Snapshot, State,
};
use crate::rng::Lcg;

verus! {

/// The floor of the base-two logarithm (zero below two).
pub open spec fn log2_floor(n: int) -> int
    decreases n,
{
    if n <= 1 {
        0
    } else {
        1 + log2_floor(n / 2)
    }
}

proof fn lemma_log2_floor_nonneg(n: int)
    ensures
        log2_floor(n) >= 0,
    decreases n,
{
    if n > 1 {
        lemma_log2_floor_nonneg(n / 2);
    }
}

/// The floor of the square root.
pub open spec fn sqrt_floor(n: int) -> int
    decreases n,
{
    if n <= 0 {
        0
    } else {
        let r = sqrt_floor(n - 1);
        if (r + 1) * (r + 1) <= n {
            r + 1
        } else {
            r
        }
    }
}

proof fn lemma_sqrt_floor(n: int)
    requires
        n >= 0,
    ensures
        sqrt_floor(n) >= 0,
        sqrt_floor(n) * sqrt_floor(n) <= n,
        n < (sqrt_floor(n) + 1) * (sqrt_floor(n) + 1),
    decreases n,
{
    if n > 0 {
        lemma_sqrt_floor(n - 1);
        let r = sqrt_floor(n - 1);
        if (r + 1) * (r + 1) <= n {
            assert(n < (r + 2) * (r + 2)) by (nonlinear_arith)
                requires r >= 0 && n - 1 < (r + 1) * (r + 1) && (r + 1) * (r + 1) <= n;
        }
    }
}

proof fn lemma_sqrt_unique(n: int, r: int)
    requires
        n >= 0,
        r >= 0,
        r * r <= n,
        n < (r + 1) * (r + 1),
    ensures
        r == sqrt_floor(n),
{
    lemma_sqrt_floor(n);
    let s = sqrt_floor(n);
    assert(r == s) by (nonlinear_arith)
        requires
            r >= 0,
            s >= 0,
            r * r <= n,
            n < (r + 1) * (r + 1),
            s * s <= n,
            n < (s + 1) * (s + 1),
    ;
}

/// Floor base-two logarithm by repeated halving.
fn log2_floor_exec(n: u64) -> (r: u64)
    ensures
        r as int == log2_floor(n as int),
        r <= 63,
{
    let mut m: u64 = n;
    let mut k: u64 = 0;
    proof {
        lemma2_to64();
    }
    while m > 1
        invariant
            k <= 63,
            log2_floor(n as int) == k + log2_floor(m as int),
            pow2(k as nat) * (m as int) <= n as int,
            m >= 1 || k == 0,
        decreases m,
    {
        proof {
            assert(pow2((k + 1) as nat) * ((m as int) / 2) <= pow2(k as nat) * (m as int)) by {
                assert(pow2((k + 1) as nat) == 2 * pow2(k as nat)) by {
                    vstd::arithmetic::power2::lemma_pow2_unfold((k + 1) as nat);
                }
                assert(2 * pow2(k as nat) * ((m as int) / 2) <= pow2(k as nat) * (m as int))
                    by (nonlinear_arith)
                    requires m >= 2 && pow2(k as nat) >= 0;
            }
            if k >= 63 {
                lemma2_to64();
                if k + 1 > 64 {
                    lemma_pow2_strictly_increases(64, (k + 1) as nat);
                }
                assert(pow2((k + 1) as nat) >= 0x10000000000000000);
                assert(pow2((k + 1) as nat) * ((m as int) / 2) >= pow2((k + 1) as nat))
                    by (nonlinear_arith)
                    requires m >= 2 && pow2((k + 1) as nat) >= 1 && (m as int) / 2 >= 1;
                assert(false);
            }
        }
        m = m / 2;
        k = k + 1;
    }
    proof {
        lemma_log2_floor_nonneg(m as int);
    }
    k
}

/// Floor square root by binary search.
fn isqrt(n: u64) -> (r: u64)
    requires
        n < 0x400000000000,
    ensures
        r as int == sqrt_floor(n as int),
        r < 0x800000,
{
    if n == 0 {
        proof {
            lemma_sqrt_unique(0, 0);
        }
        return 0;
    }
    let mut lo: u64 = 0;
    let mut hi: u64 = 0x800000;
    proof {
        assert((0x800000int) * (0x800000int) == 0x400000000000) by (nonlinear_arith);
    }
    while lo + 1 < hi
        invariant
            lo < hi <= 0x800000,
            (lo as int) * (lo as int) <= n as int,
            (n as int) < (hi as int) * (hi as int),
        decreases hi - lo,
    {
        let mid = lo + (hi - lo) / 2;
        proof {
            assert((mid as int) * (mid as int) < 0x8000000000000000) by (nonlinear_arith)
                requires mid <= 0x800000;
        }
        if mid * mid <= n {
            lo = mid;
        } else {
            hi = mid;
        }
    }
    proof {
        lemma_sqrt_unique(n as int, lo as int);
    }
    lo
}

/// The fixed-point scale of the UCT ordering.
pub const UCT_SCALE: u64 = 1048576;

/// The fixed-point UCT ordering of a child: the exploitation term
/// `(wins + visits) / visits` (the win rate shifted to be non-negative, an
/// order-preserving shift) plus the exploration term
/// `sqrt(log2(2 * parentVisits) / visits)`, both scaled by [`UCT_SCALE`].
pub open spec fn uct_score(wins: int, visits: int, parent_visits: int) -> int {
    (wins + visits) * (UCT_SCALE as int) / visits + sqrt_floor(
        log2_floor(2 * parent_visits) * (UCT_SCALE as int) * (UCT_SCALE as int) / visits,
    )
}

/// Computes the fixed-point UCT ordering exactly.
fn uct_value(wins: i32, visits: u32, parent_visits: u32) -> (r: u64)
    requires
        1 <= visits <= 32767,
        parent_visits <= 32767,
        -(visits as int) <= wins as int <= visits as int,
    ensures
        r as int == uct_score(wins as int, visits as int, parent_visits as int),
{
    let w: u64 = (wins as i64 + visits as i64) as u64;
    let exploit: u64 = w * UCT_SCALE / (visits as u64);
    let lg: u64 = log2_floor_exec(2 * (parent_visits as u64));
    let explore: u64 = isqrt(lg * UCT_SCALE * UCT_SCALE / (visits as u64));
    proof {
        assert(exploit as int == (wins as int + visits as int) * (UCT_SCALE as int) / (
        visits as int));
    }
    exploit + explore
}

/// One node of the search tree, held in an arena and addressed by index:
/// the move that produced it, whose turn it is in the resulting position,
/// the legal moves not yet expanded, the parent and child indices, and the
/// win/visit statistics. The ghost `snap` is the position the node stands
/// for, which ties every statistic to a concrete reachable game state.
pub struct Node {
    pub position: (usize, usize),
    pub turn: State,
    pub unexplored: Vec<(usize, usize)>,
    pub parent: Option<usize>,
    pub children: Vec<usize>,
    pub wins: i32,
    pub visits: u32,
    pub snap: Ghost<Snapshot>,
}

/// Structural soundness of node `i` inside the arena: its position is
/// well-formed; a non-root node records a legal move of its parent's
/// position and stands for exactly the position that move produces; child
/// links point forward and agree with parent links; unexplored moves are
/// legal moves of the node's own position; and the win total never exceeds
/// the visit count.
pub open spec fn node_ok(arena: Seq<Node>, i: int) -> bool {
    let n = arena[i];
    &&& n.snap@.wf()
    &&& n.turn == n.snap@.state
    &&& match n.parent {
        Some(p) => {
            &&& 0 <= p < i
            &&& valid_moves(arena[p as int].snap@).contains(n.position)
            &&& n.snap@ == step(arena[p as int].snap@, n.position.0 as int, n.position.1 as int)
            &&& arena[p as int].children@.contains(i as usize)
        },
        None => i == 0,
    }
    &&& forall|j: int|
        0 <= j < n.children@.len() ==> i < ((#[trigger] n.children@[j]) as int)
            && (n.children@[j] as int) < arena.len() && arena[n.children@[j] as int].parent
            == Some(i as usize)
    &&& forall|j: int|
        0 <= j < n.unexplored@.len() ==> valid_moves(n.snap@).contains(#[trigger] n.unexplored@[j])
    &&& n.children@.len() > 0 ==> is_turn(n.snap@.state)
    &&& -(n.visits as int) <= n.wins as int <= n.visits as int
}

/// Structural soundness of the whole tree rooted at index 0.
pub open spec fn tree_ok(arena: Seq<Node>, root: Snapshot) -> bool {
    &&& arena.len() >= 1
    &&& arena[0].parent is None
    &&& arena[0].snap@ == root
    &&& forall|i: int| 0 <= i < arena.len() ==> node_ok(arena, i)
}

/// No node has been visited more than `k` times.
pub open spec fn visits_bounded(arena: Seq<Node>, k: int) -> bool {
    forall|i: int| 0 <= i < arena.len() ==> (#[trigger] arena[i].visits) as int <= k
}

/// Every node reachable as somebody's child has been visited at least once.
pub open spec fn children_visited(arena: Seq<Node>) -> bool {
    forall|i: int, j: int|
        0 <= i < arena.len() && 0 <= j < arena[i].children@.len() ==> arena[(
        #[trigger] arena[i].children@[j]) as int].visits >= 1
}

/// The first-seen child maximizing the UCT ordering, folding from child `i`
/// with the best seen so far.
pub open spec fn select_loop(
    arena: Seq<Node>,
    children: Seq<usize>,
    pv: int,
    i: int,
    best: usize,
    best_score: int,
) -> usize
    decreases children.len() - i,
{
    if i >= children.len() {
        best
    } else {
        let c = children[i];
        let s = uct_score(arena[c as int].wins as int, arena[c as int].visits as int, pv);
        if s > best_score {
            select_loop(arena, children, pv, i + 1, c, s)
        } else {
            select_loop(arena, children, pv, i + 1, best, best_score)
        }
    }
}

/// The child of `node` that UCT selection descends to.
pub open spec fn select_spec(arena: Seq<Node>, node: int) -> usize {
    let children = arena[node].children@;
    let pv = arena[node].visits as int;
    select_loop(
        arena,
        children,
        pv,
        1,
        children[0],
        uct_score(
            arena[children[0] as int].wins as int,
            arena[children[0] as int].visits as int,
            pv,
        ),
    )
}

/// The fold never leaves the child list.
proof fn lemma_select_loop_in(
    arena: Seq<Node>,
    children: Seq<usize>,
    pv: int,
    i: int,
    best: usize,
    best_score: int,
)
    requires
        0 <= i,
        children.contains(best),
    ensures
        children.contains(select_loop(arena, children, pv, i, best, best_score)),
    decreases children.len() - i,
{
    if i < children.len() {
        let c = children[i];
        assert(children.contains(c));
        let s = uct_score(arena[c as int].wins as int, arena[c as int].visits as int, pv);
        if s > best_score {
            lemma_select_loop_in(arena, children, pv, i + 1, c, s);
        } else {
            lemma_select_loop_in(arena, children, pv, i + 1, best, best_score);
        }
    }
}

/// Descends one step of UCT selection: among the children of `node`, the
/// first one maximizing the fixed-point UCT ordering, exactly as
/// [`select_spec`] says.
fn select_child(arena: &Vec<Node>, node: usize) -> (c: usize)
    requires
        node < arena@.len(),
        arena@[node as int].children@.len() > 0,
        arena@[node as int].visits <= 32767,
        forall|j: int|
            0 <= j < arena@[node as int].children@.len() ==> ((
            #[trigger] arena@[node as int].children@[j]) as int) < arena@.len(),
        forall|j: int|
            0 <= j < arena@[node as int].children@.len() ==> {
                let ch = arena@[(#[trigger] arena@[node as int].children@[j]) as int];
                1 <= ch.visits <= 32767 && -(ch.visits as int) <= ch.wins as int <= ch.visits as int
            },
    ensures
        c == select_spec(arena@, node as int),
        arena@[node as int].children@.contains(c),
{
    let ghost children = arena@[node as int].children@;
    let ghost pv = arena@[node as int].visits as int;
    let parent_visits = arena[node].visits;
    let n_children = arena[node].children.len();
    let first = arena[node].children[0];
    let mut best_child = first;
    let mut best_value = uct_value(arena[first].wins, arena[first].visits, parent_visits);
    let mut i: usize = 1;
    while i < n_children
        invariant
            node < arena@.len(),
            children == arena@[node as int].children@,
            pv == arena@[node as int].visits as int,
            parent_visits == arena@[node as int].visits,
            parent_visits <= 32767,
            n_children == children.len(),
            1 <= i <= n_children,
            children.contains(best_child),
            (best_child as int) < arena@.len(),
            best_value as int == uct_score(
                arena@[best_child as int].wins as int,
                arena@[best_child as int].visits as int,
                pv,
            ),
            forall|j: int|
                0 <= j < children.len() ==> ((#[trigger] children[j]) as int) < arena@.len(),
            forall|j: int|
                0 <= j < children.len() ==> {
                    let ch = arena@[(#[trigger] children[j]) as int];
                    1 <= ch.visits <= 32767 && -(ch.visits as int) <= ch.wins as int
                        <= ch.visits as int
                },
            select_spec(arena@, node as int) == select_loop(
                arena@,
                children,
                pv,
                i as int,
                best_child,
                best_value as int,
            ),
        decreases n_children - i,
    {
        let c = arena[node].children[i];
        proof {
            assert(children.contains(children[i as int]));
        }
        let v = uct_value(arena[c].wins, arena[c].visits, parent_visits);
        if v > best_value {
            best_child = c;
            best_value = v;
        }
        i = i + 1;
    }
    proof {
        assert(children.contains(children[0]));
        lemma_select_loop_in(
            arena@,
            children,
            pv,
            1,
            children[0],
            uct_score(
                arena@[children[0] as int].wins as int,
                arena@[children[0] as int].visits as int,
                pv,
            ),
        );
    }
    best_child
}

/// The first-seen strictly-most-visited child, folding from child `i`.
pub open spec fn most_visited_loop(
    arena: Seq<Node>,
    children: Seq<usize>,
    i: int,
    best: Option<usize>,
    best_visits: int,
) -> Option<usize>
    decreases children.len() - i,
{
    if i >= children.len() {
        best
    } else {
        let c = children[i];
        if arena[c as int].visits as int > best_visits {
            most_visited_loop(arena, children, i + 1, Some(c), arena[c as int].visits as int)
        } else {
            most_visited_loop(arena, children, i + 1, best, best_visits)
        }
    }
}

/// The robust-child choice at `node`.
pub open spec fn most_visited_spec(arena: Seq<Node>, node: int) -> Option<usize> {
    most_visited_loop(arena, arena[node].children@, 0, None, 0)
}

/// The fold yields a child from the list once anything beats the bar.
proof fn lemma_most_visited_props(
    arena: Seq<Node>,
    children: Seq<usize>,
    i: int,
    best: Option<usize>,
    best_visits: int,
)
    requires
        0 <= i,
        best is Some ==> children.contains(best.unwrap()),
    ensures
        ({
            let r = most_visited_loop(arena, children, i, best, best_visits);
            &&& r is Some ==> children.contains(r.unwrap())
            &&& best is Some ==> r is Some
            &&& (exists|j: int|
                i <= j < children.len() && arena[(#[trigger] children[j]) as int].visits as int
                    > best_visits) ==> r is Some
        }),
    decreases children.len() - i,
{
    if i < children.len() {
        let c = children[i];
        assert(children.contains(c));
        if arena[c as int].visits as int > best_visits {
            lemma_most_visited_props(arena, children, i + 1, Some(c), arena[c as int].visits as int);
        } else {
            lemma_most_visited_props(arena, children, i + 1, best, best_visits);
            if exists|j: int|
                i <= j < children.len() && arena[(#[trigger] children[j]) as int].visits as int
                    > best_visits {
                let j = choose|j: int|
                    i <= j < children.len() && arena[(#[trigger] children[j]) as int].visits as int
                        > best_visits;
                assert(i + 1 <= j < children.len());
            }
        }
    }
}

/// The move of the strictly most visited child of `node`, with its visit
/// count: the robust-child policy. Some child must have been visited.
fn get_most_visited_child_position(arena: &Vec<Node>, node: usize) -> (r: ((usize, usize), u32))
    requires
        node < arena@.len(),
        forall|j: int|
            0 <= j < arena@[node as int].children@.len() ==> ((
            #[trigger] arena@[node as int].children@[j]) as int) < arena@.len(),
        exists|j: int|
            0 <= j < arena@[node as int].children@.len() && arena@[(
            #[trigger] arena@[node as int].children@[j]) as int].visits >= 1,
    ensures
        ({
            let pick = most_visited_spec(arena@, node as int);
            &&& pick is Some
            &&& arena@[node as int].children@.contains(pick.unwrap())
            &&& r.0 == arena@[pick.unwrap() as int].position
            &&& r.1 == arena@[pick.unwrap() as int].visits
            &&& r.1 >= 1
        }),
{
    let ghost children = arena@[node as int].children@;
    let n_children = arena[node].children.len();
    let mut most_visited: Option<usize> = None;
    let mut most_visits: u32 = 0;
    let mut i: usize = 0;
    while i < n_children
        invariant
            node < arena@.len(),
            children == arena@[node as int].children@,
            n_children == children.len(),
            i <= n_children,
            forall|j: int|
                0 <= j < children.len() ==> ((#[trigger] children[j]) as int) < arena@.len(),
            most_visited is Some ==> children.contains(most_visited.unwrap())
                && (most_visited.unwrap() as int) < arena@.len(),
            most_visited is Some ==> most_visits == arena@[most_visited.unwrap() as int].visits
                && most_visits >= 1,
            most_visited is None ==> most_visits == 0,
            most_visited_spec(arena@, node as int) == most_visited_loop(
                arena@,
                children,
                i as int,
                most_visited,
                most_visits as int,
            ),
        decreases n_children - i,
    {
        let c = arena[node].children[i];
        proof {
            assert(children.contains(children[i as int]));
        }
        if arena[c].visits > most_visits {
            most_visited = Some(c);
            most_visits = arena[c].visits;
        }
        i = i + 1;
    }
    proof {
        let j = choose|j: int|
            0 <= j < children.len() && arena@[(#[trigger] children[j]) as int].visits >= 1;
        lemma_most_visited_props(arena@, children, 0, None, 0);
        if most_visited is None {
            assert(most_visited_loop(arena@, children, i as int, most_visited, most_visits as int)
                is None);
            assert(false);
        }
    }
    match most_visited {
        Some(c) => ((arena[c].position, arena[c].visits)),
        None => vstd::pervasive::unreached(),
    }
}

impl Node {
    /// A fresh node for the outcome of `position`, standing for the ghost
    /// position `snap`, with its own legal moves still unexplored.
    pub fn new(
        parent: Option<usize>,
        position: (usize, usize),
        turn: State,
        unexplored: Vec<(usize, usize)>,
        Ghost(snap): Ghost<Snapshot>,
    ) -> (n: Node)
        ensures
            n.parent == parent,
            n.position == position,
            n.turn == turn,
            n.unexplored == unexplored,
            n.children@.len() == 0,
            n.wins == 0,
            n.visits == 0,
            n.snap@ == snap,
    {
        Node {
            position,
            turn,
            unexplored,
            parent,
            children: Vec::new(),
            wins: 0,
            visits: 0,
            snap: Ghost(snap),
        }
    }

    /// Folds one rollout result into the node: one more visit; the score
    /// drops by one when the winner is the colour to move at this node (the
    /// branch is a loss for the side that just moved into it), rises by one
    /// when the winner is the other colour, and is unchanged on a draw.
    pub fn update(&mut self, result: State)
        requires
            old(self).visits < 32767,
            -(old(self).visits as int) <= old(self).wins as int <= old(self).visits as int,
        ensures
            final(self).visits == old(self).visits + 1,
            final(self).wins as int == updated_wins(
                old(self).wins as int,
                old(self).turn,
                result,
            ),
            -(final(self).visits as int) <= final(self).wins as int <= final(self).visits as int,
            final(self).position == old(self).position,
            final(self).turn == old(self).turn,
            final(self).unexplored == old(self).unexplored,
            final(self).parent == old(self).parent,
            final(self).children == old(self).children,
            final(self).snap == old(self).snap,
    {
        if result == State::Draw {
            // no change to the score on a draw
        } else if (result == State::BlackWon) == (self.turn == State::BlackTurn) {
            self.wins = self.wins - 1;
        } else {
            self.wins = self.wins + 1;
        }
        self.visits = self.visits + 1;
    }
}

/// The score change a rollout result causes at a node whose side to move is
/// `turn`.
pub open spec fn updated_wins(wins: int, turn: State, result: State) -> int {
    if result is Draw {
        wins
    } else if (result is BlackWon) == (turn is BlackTurn) {
        wins - 1
    } else {
        wins + 1
    }
}

/// Like [`children_visited`], but node `e` is excused: the state of the tree
/// between expanding a fresh child and backpropagating its first visit.
pub open spec fn children_visited_except(arena: Seq<Node>, e: int) -> bool {
    forall|i: int, j: int|
        0 <= i < arena.len() && 0 <= j < arena[i].children@.len() && ((
        #[trigger] arena[i].children@[j]) as int) != e ==> arena[arena[i].children@[j] as int].visits
            >= 1
}

/// Some child of the root has been visited.
pub open spec fn root_child_visited(arena: Seq<Node>) -> bool {
    exists|j: int|
        0 <= j < arena[0].children@.len() && arena[((#[trigger] arena[0].children@[j]) as int)].visits
            >= 1
}

/// Builds a search tree by `iterations` four-phase MCTS iterations (UCT
/// selection, random expansion, uniform random rollout, backpropagation) and
/// returns the move of the most-visited root child with its visit count.
/// Every random draw comes from `rng`.
/// One select-expand-simulate pass: descends by UCT through fully expanded
/// nodes, expands one random unexplored move into a fresh node, and plays
/// the position out with uniform random moves. Returns the index of the
/// node the rollout started from and the terminal result.
#[verifier::rlimit(100)]
fn mcts_iteration(
    othello: &Othello,
    arena: &mut Vec<Node>,
    rng: &mut Lcg,
    it: i16,
    Ghost(root_snap): Ghost<Snapshot>,
) -> (r: (usize, State))
    requires
        othello@ == root_snap,
        root_snap.wf(),
        is_turn(root_snap.state),
        tree_ok(old(arena)@, root_snap),
        children_visited(old(arena)@),
        visits_bounded(old(arena)@, it as int),
        0 <= it < 32767,
        old(arena)@[0].unexplored@.len() + old(arena)@[0].children@.len() >= 1,
    ensures
        tree_ok(final(arena)@, root_snap),
        children_visited_except(final(arena)@, r.0 as int),
        visits_bounded(final(arena)@, it as int),
        1 <= r.0 < final(arena)@.len(),
        final(arena)@[0].unexplored@.len() + final(arena)@[0].children@.len() >= 1,
{
    let mut idx: usize = 0;
    let mut simulation = *othello;
    // SELECT: descend by UCT while the node is fully expanded and has
    // children, replaying each chosen move on the private simulation.
    while arena[idx].unexplored.len() == 0 && arena[idx].children.len() > 0
        invariant
            tree_ok(arena@, root_snap),
            children_visited(arena@),
            visits_bounded(arena@, it as int),
            0 <= it < 32767,
            idx < arena@.len(),
            simulation@ == arena@[idx as int].snap@,
            arena@[0].unexplored@.len() + arena@[0].children@.len() >= 1,
        decreases arena@.len() - idx,
    {
        proof {
            assert(node_ok(arena@, idx as int));
            assert forall|j: int| 0 <= j < arena@[idx as int].children@.len() implies {
                let ch = arena@[((#[trigger] arena@[idx as int].children@[j]) as int)];
                1 <= ch.visits <= 32767 && -(ch.visits as int) <= ch.wins as int
                    <= ch.visits as int
            } by {
                assert(node_ok(arena@, arena@[idx as int].children@[j] as int));
            }
        }
        let c = select_child(arena, idx);
        proof {
            let ch = arena@[idx as int].children@;
            let j = choose|j: int| 0 <= j < ch.len() && ch[j] == c;
            assert(arena@[c as int].parent == Some(idx));
            assert(node_ok(arena@, c as int));
            lemma_valid_move(simulation@, arena@[c as int].position);
        }
        let pos = arena[c].position;
        simulation.make_move(pos);
        idx = c;
    }
    // EXPAND: pick an unexplored move at random, play it on the simulation,
    // and attach a fresh node for the resulting position.
    if arena[idx].unexplored.len() > 0 {
        idx = expand_node(arena, idx, &mut simulation, rng, it, Ghost(root_snap));
    } else {
        proof {
            assert forall|i: int, j: int|
                0 <= i < arena@.len() && 0 <= j < arena@[i].children@.len() && ((
            #[trigger] arena@[i].children@[j]) as int) != idx as int implies arena@[arena@[i].children@[j] as int].visits
                >= 1 by {}
            assert(node_ok(arena@, idx as int));
            if idx == 0 {
                assert(false);
            }
        }
    }
    proof {
        assert(node_ok(arena@, idx as int));
        assert(simulation@.wf());
    }
    // SIMULATE: play uniformly random legal moves to the end of the game.
    while simulation.state == State::BlackTurn || simulation.state == State::WhiteTurn
        invariant
            simulation@.wf(),
            tree_ok(arena@, root_snap),
            children_visited_except(arena@, idx as int),
            visits_bounded(arena@, it as int),
            0 <= it < 32767,
            1 <= idx < arena@.len(),
            arena@[0].unexplored@.len() + arena@[0].children@.len() >= 1,
        decreases count_free(simulation@.board),
    {
        let valid = simulation.get_valid_moves();
        let mv_i = rng.pick(valid.len());
        let mv = valid[mv_i];
        proof {
            assert(valid@.contains(valid@[mv_i as int]));
            lemma_valid_move(simulation@, mv);
            lemma_step_free(simulation@, mv.0 as int, mv.1 as int);
            lemma_count_free_nonneg(simulation@.board, 0);
        }
        simulation.make_move(mv);
        proof {
            lemma_count_free_nonneg(simulation@.board, 0);
        }
    }
    (idx, simulation.state)
}

/// Removing one unexplored entry of node `idx` (all other fields and nodes
/// unchanged) preserves the tree invariants.
proof fn lemma_tree_shrink(pre: Seq<Node>, post: Seq<Node>, idx: int, r: int, root_snap: Snapshot, k: int)
    requires
        tree_ok(pre, root_snap),
        children_visited(pre),
        visits_bounded(pre, k),
        0 <= idx < pre.len(),
        0 <= r < pre[idx].unexplored@.len(),
        post.len() == pre.len(),
        forall|i: int| 0 <= i < pre.len() && i != idx ==> post[i] == pre[i],
        post[idx].unexplored@ == pre[idx].unexplored@.remove(r),
        post[idx].position == pre[idx].position,
        post[idx].turn == pre[idx].turn,
        post[idx].parent == pre[idx].parent,
        post[idx].children == pre[idx].children,
        post[idx].wins == pre[idx].wins,
        post[idx].visits == pre[idx].visits,
        post[idx].snap == pre[idx].snap,
    ensures
        tree_ok(post, root_snap),
        children_visited(post),
        visits_bounded(post, k),
{
    assert forall|i: int| 0 <= i < post.len() implies node_ok(post, i) by {
        assert(node_ok(pre, i));
        assert forall|j: int| 0 <= j < post[i].unexplored@.len() implies valid_moves(
            post[i].snap@,
        ).contains(#[trigger] post[i].unexplored@[j]) by {
            if i == idx {
                if j < r {
                    assert(post[i].unexplored@[j] == pre[i].unexplored@[j]);
                } else {
                    assert(post[i].unexplored@[j] == pre[i].unexplored@[j + 1]);
                }
            }
        }
        match post[i].parent {
            Some(p) => {
                assert(pre[p as int].children@.contains(i as usize));
                assert(post[p as int].children@ == pre[p as int].children@);
            },
            None => {},
        }
    }
    assert forall|i: int, j: int|
        0 <= i < post.len() && 0 <= j < post[i].children@.len() implies post[(
    #[trigger] post[i].children@[j]) as int].visits >= 1 by {
        assert(pre[i].children@[j] == post[i].children@[j]);
        assert(node_ok(pre, i));
    }
    assert forall|i: int| 0 <= i < post.len() implies (#[trigger] post[i].visits) as int <= k by {
        assert(pre[i].visits as int <= k);
    }
}

/// Shared hypotheses of the attach lemmas: `post` is `mid` with a fresh last
/// node `ci` whose parent is `idx`, and `ci` appended to `idx`'s child list.
pub open spec fn attach_shape(mid: Seq<Node>, post: Seq<Node>, idx: int, ci: int) -> bool {
    &&& 0 <= idx < mid.len()
    &&& ci == mid.len()
    &&& ci <= usize::MAX
    &&& post.len() == mid.len() + 1
    &&& (forall|i: int| 0 <= i < mid.len() && i != idx ==> post[i] == mid[i])
    &&& post[idx].children@ == mid[idx].children@.push(ci as usize)
    &&& post[idx].position == mid[idx].position
    &&& post[idx].turn == mid[idx].turn
    &&& post[idx].parent == mid[idx].parent
    &&& post[idx].unexplored == mid[idx].unexplored
    &&& post[idx].wins == mid[idx].wins
    &&& post[idx].visits == mid[idx].visits
    &&& post[idx].snap == mid[idx].snap
    &&& post[ci].parent == Some(idx as usize)
    &&& post[ci].children@.len() == 0
    &&& post[ci].wins == 0
    &&& post[ci].visits == 0
}

/// Attaching a fresh child preserves structural soundness of the tree.
#[verifier::rlimit(100)]
proof fn lemma_tree_attach_ok(mid: Seq<Node>, post: Seq<Node>, idx: int, ci: int, root_snap: Snapshot)
    requires
        tree_ok(mid, root_snap),
        attach_shape(mid, post, idx, ci),
        valid_moves(mid[idx].snap@).contains(post[ci].position),
        post[ci].snap@ == step(mid[idx].snap@, post[ci].position.0 as int, post[ci].position.1 as int),
        post[ci].snap@.wf(),
        post[ci].turn == post[ci].snap@.state,
        forall|j: int|
            0 <= j < post[ci].unexplored@.len() ==> valid_moves(post[ci].snap@).contains(
                #[trigger] post[ci].unexplored@[j],
            ),
    ensures
        tree_ok(post, root_snap),
{
    lemma_valid_move(mid[idx].snap@, post[ci].position);
    assert forall|i: int| 0 <= i < post.len() implies node_ok(post, i) by {
        if i < mid.len() {
            assert(node_ok(mid, i));
            if i == idx {
                assert forall|j: int| 0 <= j < post[i].children@.len() implies i < ((
                #[trigger] post[i].children@[j]) as int) && (post[i].children@[j] as int)
                    < post.len() && post[post[i].children@[j] as int].parent == Some(i as usize) by {
                    if j < mid[i].children@.len() {
                        assert(post[i].children@[j] == mid[i].children@[j]);
                        let cj = mid[i].children@[j] as int;
                        assert(i < cj && cj < mid.len());
                        assert(post[cj] == mid[cj]);
                    } else {
                        assert(post[i].children@[j] == ci as usize);
                        assert((ci as usize) as int == ci);
                    }
                }
            } else {
                assert(post[i].children@ == mid[i].children@);
            }
            match post[i].parent {
                Some(p) => {
                    assert(mid[p as int].children@.contains(i as usize));
                    let j = choose|j: int|
                        0 <= j < mid[p as int].children@.len() && mid[p as int].children@[j]
                            == i as usize;
                    assert(post[p as int].children@[j] == i as usize);
                },
                None => {},
            }
        } else {
            assert(i == ci);
            assert(post[idx].children@[post[idx].children@.len() - 1] == ci as usize);
        }
    }
}

/// Attaching a fresh child keeps every other child visited, and no visit
/// count moves.
#[verifier::rlimit(100)]
proof fn lemma_tree_attach_visits(
    mid: Seq<Node>,
    post: Seq<Node>,
    idx: int,
    ci: int,
    k: int,
    root_snap: Snapshot,
)
    requires
        tree_ok(mid, root_snap),
        children_visited(mid),
        visits_bounded(mid, k),
        k >= 0,
        attach_shape(mid, post, idx, ci),
    ensures
        children_visited_except(post, ci),
        visits_bounded(post, k),
{
    assert forall|i: int, j: int|
        0 <= i < post.len() && 0 <= j < post[i].children@.len() && ((
    #[trigger] post[i].children@[j]) as int) != ci implies post[post[i].children@[j] as int].visits
        >= 1 by {
        let c = post[i].children@[j] as int;
        if i < mid.len() {
            assert(node_ok(mid, i));
            if i == idx {
                assert(post[i].children@[j] == mid[i].children@.push(ci as usize)[j]);
                if j < mid[i].children@.len() {
                    assert(mid[i].children@[j] as int == c);
                    assert(0 <= c < mid.len());
                    assert(mid[post[i].children@[j] as int].visits >= 1);
                    assert(post[c].visits == mid[c].visits);
                } else {
                    assert(post[i].children@[j] == ci as usize);
                    assert((ci as usize) as int == ci);
                    assert(c == ci);
                }
            } else {
                assert(post[i].children@ == mid[i].children@);
                assert(mid[i].children@[j] as int == c);
                assert(0 <= c < mid.len());
                assert(mid[post[i].children@[j] as int].visits >= 1);
                assert(post[c].visits == mid[c].visits);
            }
        } else {
            assert(post[i].children@.len() == 0);
        }
    }
    assert forall|i: int| 0 <= i < post.len() implies (#[trigger] post[i].visits) as int <= k by {
        if i < mid.len() {
            assert(mid[i].visits as int <= k);
            assert(post[i].visits == mid[i].visits);
        }
    }
}
/// Expands one random unexplored move of node `idx`: removes it from the
/// unexplored set, plays it on the simulation, and attaches a fresh child
/// node standing for the resulting position. Returns the child's index.
#[verifier::rlimit(100)]
fn expand_node(
    arena: &mut Vec<Node>,
    idx: usize,
    simulation: &mut Othello,
    rng: &mut Lcg,
    it: i16,
    Ghost(root_snap): Ghost<Snapshot>,
) -> (ci: usize)
    requires
        tree_ok(old(arena)@, root_snap),
        children_visited(old(arena)@),
        visits_bounded(old(arena)@, it as int),
        0 <= it < 32767,
        idx < old(arena)@.len(),
        old(simulation)@ == old(arena)@[idx as int].snap@,
        old(arena)@[idx as int].unexplored@.len() > 0,
        old(arena)@[0].unexplored@.len() + old(arena)@[0].children@.len() >= 1,
    ensures
        tree_ok(final(arena)@, root_snap),
        children_visited_except(final(arena)@, ci as int),
        visits_bounded(final(arena)@, it as int),
        1 <= ci < final(arena)@.len(),
        final(simulation)@ == final(arena)@[ci as int].snap@,
        final(simulation)@.wf(),
        final(arena)@[0].unexplored@.len() + final(arena)@[0].children@.len() >= 1,
{
    let ghost pre = arena@;
    let n_unex = arena[idx].unexplored.len();
    let rand_idx = rng.pick(n_unex);
    let explored_move = arena[idx].unexplored[rand_idx];
    proof {
        assert(node_ok(arena@, idx as int));
        assert(valid_moves(arena@[idx as int].snap@).contains(explored_move));
    }
    arena[idx].unexplored.remove(rand_idx);
    proof {
        lemma_tree_shrink(pre, arena@, idx as int, rand_idx as int, root_snap, it as int);
        lemma_valid_move(simulation@, explored_move);
    }
    simulation.make_move(explored_move);
    let child_moves = simulation.get_valid_moves();
    let child = Node::new(
        Some(idx),
        explored_move,
        simulation.state,
        child_moves,
        Ghost(simulation@),
    );
    let ci = arena.len();
    let ghost mid = arena@;
    arena.push(child);
    arena[idx].children.push(ci);
    proof {
        lemma_tree_attach_ok(mid, arena@, idx as int, ci as int, root_snap);
        lemma_tree_attach_visits(mid, arena@, idx as int, ci as int, it as int, root_snap);
        assert(node_ok(arena@, ci as int));
    }
    ci
}

/// Folds the rollout result into every node from `start` up to the root,
/// inclusive: one walk along the parent links.
#[verifier::rlimit(100)]
fn backpropagate(
    arena: &mut Vec<Node>,
    start: usize,
    result: State,
    it: i16,
    Ghost(root_snap): Ghost<Snapshot>,
)
    requires
        tree_ok(old(arena)@, root_snap),
        children_visited_except(old(arena)@, start as int),
        visits_bounded(old(arena)@, it as int),
        0 <= it < 32767,
        1 <= start < old(arena)@.len(),
        old(arena)@[0].unexplored@.len() + old(arena)@[0].children@.len() >= 1,
    ensures
        tree_ok(final(arena)@, root_snap),
        children_visited(final(arena)@),
        visits_bounded(final(arena)@, it as int + 1),
        root_child_visited(final(arena)@),
        final(arena)@[0].unexplored@.len() + final(arena)@[0].children@.len() >= 1,
{
    let mut cur: usize = start;
    let mut done: bool = false;
    while !done
        invariant
            tree_ok(arena@, root_snap),
            0 <= it < 32767,
            cur < arena@.len(),
            arena@[0].unexplored@.len() + arena@[0].children@.len() >= 1,
            !done ==> children_visited_except(arena@, cur as int),
            !done ==> forall|i: int|
                0 <= i <= cur ==> (#[trigger] arena@[i].visits) as int <= it as int,
            visits_bounded(arena@, it as int + 1),
            !done && cur == 0 ==> root_child_visited(arena@),
            done ==> children_visited(arena@) && root_child_visited(arena@),
        decreases (if done {
            0int
        } else {
            cur + 1
        }),
    {
        let ghost pre = arena@;
        proof {
            assert(node_ok(arena@, cur as int));
        }
        arena[cur].update(result);
        proof {
            assert(arena@[cur as int].visits as int == pre[cur as int].visits as int + 1);
            assert forall|i: int| 0 <= i < arena@.len() implies node_ok(arena@, i) by {
                assert(node_ok(pre, i));
                assert(arena@[i].children@ == pre[i].children@);
                assert(arena@[i].unexplored@ == pre[i].unexplored@);
                assert(arena@[i].snap@ == pre[i].snap@);
                match arena@[i].parent {
                    Some(p) => {
                        assert(pre[p as int].children@.contains(i as usize));
                    },
                    None => {},
                }
            }
            if root_child_visited(pre) {
                let j = choose|j: int|
                    0 <= j < pre[0].children@.len() && pre[((
                    #[trigger] pre[0].children@[j]) as int)].visits >= 1;
                assert(node_ok(pre, 0));
                let cj = pre[0].children@[j] as int;
                assert(0 <= cj < pre.len());
                assert(arena@[0].children@[j] as int == cj);
                if cj == cur as int {
                } else {
                    assert(arena@[cj] == pre[cj]);
                }
                assert(arena@[((arena@[0].children@[j]) as int)].visits >= 1);
                assert(root_child_visited(arena@));
            }
            // one more node now carries a visit: the excuse moves one level up
            assert forall|i: int, j: int|
                0 <= i < arena@.len() && 0 <= j < arena@[i].children@.len() && ((
            #[trigger] arena@[i].children@[j]) as int) != cur as int implies arena@[arena@[i].children@[j] as int].visits
                >= 1 by {
                assert(node_ok(arena@, i));
                let c = arena@[i].children@[j] as int;
                if c != cur as int {
                    assert(pre[i].children@[j] as int == c);
                    assert(arena@[c] == pre[c]);
                }
            }
        }
        match arena[cur].parent {
            Some(p) => {
                proof {
                    assert(node_ok(arena@, cur as int));
                    assert(arena@[p as int].children@.contains(cur));
                    if p == 0 {
                        let j = choose|j: int|
                            0 <= j < arena@[0].children@.len() && arena@[0].children@[j] == cur;
                        assert(arena@[((arena@[0].children@[j]) as int)].visits >= 1);
                        assert(root_child_visited(arena@));
                    }
                    // children lists never name a smaller index, so the new
                    // excuse at `p` also covers every child entry equal to cur
                    assert forall|i: int, j: int|
                        0 <= i < arena@.len() && 0 <= j < arena@[i].children@.len() && ((
                    #[trigger] arena@[i].children@[j]) as int) != p as int implies arena@[arena@[i].children@[j] as int].visits
                        >= 1 by {
                        let c = arena@[i].children@[j] as int;
                        if c != cur as int {
                        }
                    }
                }
                cur = p;
            },
            None => {
                proof {
                    assert(cur == 0);
                    assert forall|i: int, j: int|
                        0 <= i < arena@.len() && 0 <= j < arena@[i].children@.len() implies arena@[(
                    #[trigger] arena@[i].children@[j]) as int].visits >= 1 by {
                        assert(node_ok(arena@, i));
                        assert((arena@[i].children@[j] as int) > i);
                        assert((arena@[i].children@[j] as int) != 0);
                    }
                }
                done = true;
            },
        }
    }
}

/// Builds a search tree by `iterations` four-phase MCTS iterations (UCT
/// selection, random expansion, uniform random rollout, backpropagation) and
/// returns the move of the most-visited root child with its visit count.
/// Every random draw comes from `rng`.
pub fn mcts_search(othello: &Othello, iterations: i16, rng: &mut Lcg) -> (r: ((usize, usize), u32))
    requires
        othello@.wf(),
        is_turn(othello@.state),
        1 <= iterations,
    ensures
        valid_moves(othello@).contains(r.0),
        1 <= r.1 <= iterations,
{
    let ghost root_snap = othello@;
    let root_moves = othello.get_valid_moves();
    let root = Node::new(None, (0, 0), othello.state, root_moves, Ghost(root_snap));
    let mut arena: Vec<Node> = Vec::new();
    arena.push(root);
    proof {
        assert forall|i: int| 0 <= i < arena@.len() implies node_ok(arena@, i) by {}
    }
    let mut it: i16 = 0;
    while it < iterations
        invariant
            othello@ == root_snap,
            root_snap.wf(),
            is_turn(root_snap.state),
            tree_ok(arena@, root_snap),
            children_visited(arena@),
            visits_bounded(arena@, it as int),
            0 <= it <= iterations <= 32767,
            arena@[0].unexplored@.len() + arena@[0].children@.len() >= 1,
            it >= 1 ==> root_child_visited(arena@),
        decreases iterations - it,
    {
        let (start, result) = mcts_iteration(othello, &mut arena, rng, it, Ghost(root_snap));
        backpropagate(&mut arena, start, result, it, Ghost(root_snap));
        it = it + 1;
    }
    proof {
        assert(node_ok(arena@, 0));
        assert forall|j: int| 0 <= j < arena@[0].children@.len() implies ((
        #[trigger] arena@[0].children@[j]) as int) < arena@.len() by {}
        let j = choose|j: int|
            0 <= j < arena@[0].children@.len() && arena@[((
            #[trigger] arena@[0].children@[j]) as int)].visits >= 1;
        assert(arena@[((arena@[0].children@[j]) as int)].visits >= 1);
    }
    let r = get_most_visited_child_position(&arena, 0);
    proof {
        let pick = most_visited_spec(arena@, 0).unwrap();
        let ch = arena@[0].children@;
        let j = choose|j: int| 0 <= j < ch.len() && ch[j] == pick;
        assert(node_ok(arena@, 0));
        assert(arena@[pick as int].parent == Some(0usize));
        assert(node_ok(arena@, pick as int));
        assert(valid_moves(root_snap).contains(arena@[pick as int].position));
    }
    r
}

/// Chooses a move by Monte Carlo tree search, with every random draw taken
/// from the given deterministic source: the robust-child move after
/// `iterations` iterations.
pub fn mcts_move_seeded(othello: &Othello, iterations: i16, rng: &mut Lcg) -> (r: (usize, usize))
    requires
        othello@.wf(),
        is_turn(othello@.state),
        1 <= iterations,
    ensures
        valid_moves(othello@).contains(r),
{
    mcts_search(othello, iterations, rng).0
}

/// Chooses a move by Monte Carlo tree search, seeding the deterministic
/// source from the process-wide generator.
pub fn mcts_move(othello: &Othello, iterations: i16) -> (r: (usize, usize))
    requires
        othello@.wf(),
        is_turn(othello@.state),
        1 <= iterations,
    ensures
        valid_moves(othello@).contains(r),
{
    let seed = rand::random::<u64>();
    let mut rng = Lcg::new(seed);
    mcts_move_seeded(othello, iterations, &mut rng)
}

} // verus!

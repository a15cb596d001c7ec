//! Monte Carlo tree search: builds a tree of board states rooted at the
//! current position, grows it by repeated select / expand / rollout /
//! backpropagate iterations, and commits to the most-visited move.
//!
//! Scores are held in thousandths as integers rather than as floating-point
//! values: rollout payoffs are exactly -1, 0 or 1, so an integer sum
//! accumulates them without rounding, and the UCB priority is computed in
//! fixed point.

use vstd::arithmetic::power2::{lemma2_to64, pow2};
use vstd::prelude::*;

use crate::defs::Cell;
use crate::defs::Coord;
use crate::defs::Grid;
use crate::defs::Player;
use crate::defs::coord_in_bounds;
use crate::defs::grid_empties;
use crate::defs::grid_winner;
use crate::defs::is_legal_move_seq;
use crate::defs::lemma_grid_empties_bounds;
use crate::defs::lemma_grid_empties_refresh;
use crate::defs::lemma_grid_empties_set;
use crate::defs::move_legal;

verus! {

/// Floor of the base-2 logarithm; 0 below 2.
pub open spec fn log2_floor(n: int) -> int
    decreases n,
{
    if n < 2 {
        0
    } else {
        1 + log2_floor(n / 2)
    }
}

proof fn lemma_log2_floor_bound(n: int, k: nat)
    requires
        1 <= n,
        n < pow2(k),
    ensures
        log2_floor(n) < k,
    decreases k,
{
    assert(pow2(0) == 1) by {
        vstd::arithmetic::power2::lemma_pow2(0);
        vstd::arithmetic::power::lemma_pow0(2);
    }
    if k == 0 {
        assert(false);
    }
    if n >= 2 {
        assert(pow2(k) == 2 * pow2((k - 1) as nat)) by {
            vstd::arithmetic::power2::lemma_pow2_unfold(k);
        }
        lemma_log2_floor_bound(n / 2, (k - 1) as nat);
    }
}

proof fn lemma_log2_floor_nonneg(n: int)
    ensures
        log2_floor(n) >= 0,
    decreases n,
{
    if n >= 2 {
        lemma_log2_floor_nonneg(n / 2);
    }
}

/// Fixed-point natural logarithm, in thousandths: `693 * log2_floor(n)`
/// approximates `1000 * ln(n)` through `ln 2 ~ 0.693`; 0 below 2.
pub open spec fn ln_milli_spec(n: int) -> int {
    693 * log2_floor(n)
}

/// Floor of the square root of a non-negative integer.
pub open spec fn sqrt_floor(x: int) -> int
    decreases x,
{
    if x < 1 {
        0
    } else {
        let s = sqrt_floor(x - 1);
        if (s + 1) * (s + 1) <= x {
            s + 1
        } else {
            s
        }
    }
}

proof fn lemma_sqrt_floor_props(x: int)
    requires
        x >= 0,
    ensures
        sqrt_floor(x) >= 0,
        sqrt_floor(x) * sqrt_floor(x) <= x,
        x < (sqrt_floor(x) + 1) * (sqrt_floor(x) + 1),
    decreases x,
{
    if x >= 1 {
        lemma_sqrt_floor_props(x - 1);
        let s = sqrt_floor(x - 1);
        if (s + 1) * (s + 1) <= x {
            assert(x < (s + 2) * (s + 2)) by (nonlinear_arith)
                requires
                    s >= 0,
                    x - 1 < (s + 1) * (s + 1),
                    (s + 1) * (s + 1) <= x,
            ;
        }
    }
}

proof fn lemma_sqrt_floor_unique(x: int, r: int)
    requires
        x >= 0,
        r >= 0,
        r * r <= x,
        x < (r + 1) * (r + 1),
    ensures
        r == sqrt_floor(x),
{
    lemma_sqrt_floor_props(x);
    let s = sqrt_floor(x);
    assert(r == s) by (nonlinear_arith)
        requires
            r >= 0,
            s >= 0,
            r * r <= x,
            x < (r + 1) * (r + 1),
            s * s <= x,
            x < (s + 1) * (s + 1),
    ;
}

/// The UCB priority of a child node, in thousandths. An unvisited child has
/// the highest possible priority. Otherwise the exploitation term is the
/// mean payoff shifted by one (so that it is non-negative: payoffs lie in
/// `[-1, 1]`), and the exploration term scales the square root of
/// `ln(parent_visits) / visits`; the shift is shared by every sibling, so
/// comparisons are unchanged by it.
pub open spec fn ucb_spec(score: int, visits: int, parent_visits: int, c_milli: int) -> int {
    if visits == 0 {
        u64::MAX as int
    } else {
        (score + visits) * 1000 / visits + c_milli * sqrt_floor(
            ln_milli_spec(parent_visits) * 1000 / visits,
        ) / 1000
    }
}

fn log2_floor_u64(n: u64) -> (r: u64)
    requires
        n >= 1,
    ensures
        r == log2_floor(n as int),
        r <= 63,
{
    proof {
        lemma2_to64();
        lemma_log2_floor_bound(n as int, 64);
    }
    let mut m: u64 = n;
    let mut r: u64 = 0;
    while m >= 2
        invariant
            m >= 1,
            r + log2_floor(m as int) == log2_floor(n as int),
            log2_floor(n as int) <= 63,
            r <= 63,
        decreases m,
    {
        proof {
            lemma_log2_floor_nonneg(m as int / 2);
        }
        m = m / 2;
        r = r + 1;
    }
    r
}

fn ln_milli(n: u64) -> (r: u64)
    ensures
        r == ln_milli_spec(n as int),
        r <= 43659,
{
    if n < 2 {
        return 0;
    }
    693 * log2_floor_u64(n)
}

fn isqrt(x: u64) -> (r: u64)
    requires
        x < 0x1_0000_0000,
    ensures
        r == sqrt_floor(x as int),
        r <= 0x1_0000,
{
    let mut lo: u64 = 0;
    let mut hi: u64 = 0x1_0000;
    assert(hi * hi > x);
    while hi - lo > 1
        invariant
            lo < hi <= 0x1_0000,
            lo * lo <= x,
            hi * hi > x,
        decreases hi - lo,
    {
        let mid: u64 = lo + (hi - lo) / 2;
        assert(mid * mid <= 0x1_0000_0000) by (nonlinear_arith)
            requires
                mid <= 0x1_0000,
        ;
        if mid * mid <= x {
            lo = mid;
        } else {
            hi = mid;
        }
    }
    proof {
        lemma_sqrt_floor_unique(x as int, lo as int);
    }
    lo
}

/// Relies on rand's `thread_rng` and `Rng::gen_range`: a uniformly drawn
/// index below `n`. The draw depends on the generator's state, so nothing
/// beyond the bound is promised.
#[verifier::external_body]
fn random_below(n: usize) -> (r: usize)
    requires
        n > 0,
    ensures
        r < n,
{
    rand::Rng::gen_range(&mut rand::thread_rng(), 0..n)
}

/// A strategy that picks moves by Monte Carlo tree search.
#[derive(Clone, Copy)]
pub struct MCTSPlayer {
    /// Exploration weight of the UCB rule, in thousandths (1500 stands for
    /// a weight of 1.5).
    exploration_milli: u32,
    /// Number of search iterations per move decision.
    simulation_steps: u32,
    /// The symbol this engine plays.
    symbol: Cell,
}

impl MCTSPlayer {
    /// The engine always plays a real symbol, never `Empty`.
    #[verifier::type_invariant]
    spec fn plays_real_symbol(self) -> bool {
        self.symbol != Cell::Empty
    }

    /// The symbol this engine plays.
    pub closed spec fn spec_symbol(self) -> Cell {
        self.symbol
    }

    /// The configured iteration budget.
    pub closed spec fn spec_steps(self) -> u32 {
        self.simulation_steps
    }

    /// Create an engine from its exploration weight (in thousandths), its
    /// iteration budget, and the symbol it plays.
    pub fn new(exploration_milli: u32, simulation_steps: u32, symbol: Cell) -> (r: Self)
        requires
            symbol != Cell::Empty,
        ensures
            r.spec_symbol() == symbol,
            r.spec_steps() == simulation_steps,
    {
        MCTSPlayer { exploration_milli, simulation_steps, symbol }
    }

    /// The UCB priority of a child with the given statistics, under a parent
    /// with `parent_visits` visits. Strictly below the unvisited-child
    /// priority whenever the child has been visited.
    fn ucb(&self, score: i64, visits: u64, parent_visits: u64) -> (r: u64)
        requires
            -visits <= score <= visits,
            visits <= 0xffff_ffff,
        ensures
            r == ucb_spec(score as int, visits as int, parent_visits as int, self.exploration_milli as int),
            visits > 0 ==> r < u64::MAX,
    {
        if visits == 0 {
            return u64::MAX;
        }
        let num: u64 = (score + visits as i64) as u64;
        let exploit: u64 = num * 1000 / visits;
        assert(exploit <= 2000) by {
            assert(num * 1000 <= 2 * visits * 1000) by (nonlinear_arith)
                requires
                    num <= 2 * visits,
            ;
            vstd::arithmetic::div_mod::lemma_div_is_ordered(
                num as int * 1000,
                2 * visits as int * 1000,
                visits as int,
            );
            assert(2 * visits as int * 1000 / visits as int == 2000) by (nonlinear_arith)
                requires
                    visits > 0,
            ;
        }
        let lnp: u64 = ln_milli(parent_visits);
        let arg: u64 = lnp * 1000 / visits;
        assert(arg <= 43659000) by {
            vstd::arithmetic::div_mod::lemma_div_is_ordered(
                lnp as int * 1000,
                43659000,
                visits as int,
            );
            assert(43659000int / visits as int <= 43659000) by (nonlinear_arith)
                requires
                    visits >= 1,
            ;
        }
        let root: u64 = isqrt(arg);
        assert((self.exploration_milli as u64) * root <= 0xffff_ffff * 0x1_0000) by (
        nonlinear_arith)
            requires
                self.exploration_milli <= 0xffff_ffff,
                root <= 0x1_0000,
        ;
        let explore: u64 = (self.exploration_milli as u64) * root / 1000;
        exploit + explore
    }
}

/// One node of the search tree. Nodes live in an arena vector; `parent` and
/// `children` hold arena indices, and a node is always created after its
/// parent, so a child's index is larger than its parent's.
struct Node {
    state: Grid,
    visits: u64,
    score: i64,
    children: Vec<usize>,
    parent: Option<usize>,
    last_move: Option<Coord>,
}

/// Well-formedness of the arena: the root at index 0 has no parent, every
/// other node's parent has a smaller index, child indices point past their
/// parent and into the arena, statistics are consistent (a score is a sum
/// of payoffs in `[-1, 1]`, one per visit), and recorded moves are in
/// bounds.
spec fn tree_wf(arena: Seq<Node>) -> bool {
    &&& arena.len() > 0
    &&& arena[0].parent is None
    &&& forall|i: int|
        0 < i < arena.len() ==> ((#[trigger] arena[i].parent) matches Some(p) && p < i)
    &&& forall|i: int, j: int|
        0 <= i < arena.len() && 0 <= j < arena[i].children@.len() ==> i < #[trigger] arena[i].children@[j] < arena.len()
    &&& forall|i: int|
        0 <= i < arena.len() ==> -arena[i].visits <= #[trigger] arena[i].score <= arena[i].visits
    &&& forall|i: int|
        0 <= i < arena.len() ==> ((#[trigger] arena[i].last_move) matches Some(lm)
            ==> coord_in_bounds(lm))
}

/// `a` is a strict ancestor of `d`: it lies on the parent chain from `d` up
/// to the root.
spec fn is_ancestor(arena: Seq<Node>, d: int, a: int) -> bool
    decreases d,
{
    if 0 < d < arena.len() {
        match arena[d].parent {
            Some(p) => {
                if p >= d {
                    false
                } else if a == p {
                    true
                } else {
                    is_ancestor(arena, p as int, a)
                }
            },
            None => false,
        }
    } else {
        false
    }
}

/// `is_ancestor` reads only the parent links, so arenas that agree on them
/// agree on ancestry.
proof fn lemma_ancestor_same_parents(a1: Seq<Node>, a2: Seq<Node>, d: int, a: int)
    requires
        0 <= d,
        a1.len() == a2.len(),
        forall|i: int| 0 <= i < a1.len() ==> a1[i].parent == a2[i].parent,
    ensures
        is_ancestor(a1, d, a) == is_ancestor(a2, d, a),
    decreases d,
{
    if 0 < d < a1.len() {
        match a1[d].parent {
            Some(p) => {
                if p < d && a != p {
                    lemma_ancestor_same_parents(a1, a2, p as int, a);
                }
            },
            None => {},
        }
    }
}

/// An ancestor has a smaller index than its descendant.
proof fn lemma_ancestor_below(arena: Seq<Node>, d: int, a: int)
    requires
        is_ancestor(arena, d, a),
    ensures
        0 <= a < d,
    decreases d,
{
    if 0 < d < arena.len() {
        match arena[d].parent {
            Some(p) => {
                if p < d && a != p {
                    lemma_ancestor_below(arena, p as int, a);
                }
            },
            None => {},
        }
    }
}

/// Add one visit and the payoff to `start` and to every ancestor of
/// `start`, up to the root inclusive. The simulated node's own statistics
/// are included, so a child of the root that is simulated directly still
/// accumulates visits. Nothing else in the arena changes.
fn backpropagate(arena: &mut Vec<Node>, start: usize, payoff: i64)
    requires
        tree_wf(old(arena)@),
        start < old(arena)@.len(),
        -1 <= payoff <= 1,
        forall|i: int|
            0 <= i < old(arena)@.len() && (i == start || is_ancestor(
                old(arena)@,
                start as int,
                i,
            )) ==> (#[trigger] old(arena)@[i]).visits < 0x1_0000_0000,
    ensures
        final(arena)@.len() == old(arena)@.len(),
        forall|i: int|
            0 <= i < old(arena)@.len() ==> {
                &&& (#[trigger] final(arena)@[i]).state == old(arena)@[i].state
                &&& final(arena)@[i].children == old(arena)@[i].children
                &&& final(arena)@[i].parent == old(arena)@[i].parent
                &&& final(arena)@[i].last_move == old(arena)@[i].last_move
            },
        forall|i: int|
            0 <= i < old(arena)@.len() && (i == start || is_ancestor(old(arena)@, start as int, i))
                ==> (#[trigger] final(arena)@[i]).visits == old(arena)@[i].visits + 1
                && final(arena)@[i].score == old(arena)@[i].score + payoff,
        forall|i: int|
            0 <= i < old(arena)@.len() && !(i == start || is_ancestor(old(arena)@, start as int, i))
                ==> (#[trigger] final(arena)@[i]).visits == old(arena)@[i].visits
                && final(arena)@[i].score == old(arena)@[i].score,
        tree_wf(final(arena)@),
    decreases start,
{
    proof {
        assert(old(arena)@[start as int].visits < 0x1_0000_0000);
        assert(-old(arena)@[start as int].visits <= old(arena)@[start as int].score <= old(
            arena,
        )@[start as int].visits);
    }
    let v = arena[start].visits;
    let s = arena[start].score;
    arena[start].visits = v + 1;
    arena[start].score = s + payoff;
    let ghost mid = arena@;
    let parent = arena[start].parent;
    if let Some(p) = parent {
        proof {
            assert(p < start);
            assert forall|i: int|
                0 <= i < mid.len() implies is_ancestor(mid, p as int, i) == is_ancestor(
                old(arena)@,
                p as int,
                i,
            ) by {
                lemma_ancestor_same_parents(mid, old(arena)@, p as int, i);
            }
            assert forall|i: int|
                0 <= i < mid.len() && (i == p || is_ancestor(mid, p as int, i)) implies (
            #[trigger] mid[i]).visits < 0x1_0000_0000 by {
                if i != p {
                    lemma_ancestor_below(mid, p as int, i);
                }
                assert(is_ancestor(old(arena)@, start as int, i));
            }
        }
        backpropagate(arena, p, payoff);
        proof {
            assert forall|i: int|
                0 <= i < old(arena)@.len() && (i == start || is_ancestor(
                    old(arena)@,
                    start as int,
                    i,
                )) implies (#[trigger] arena@[i]).visits == old(arena)@[i].visits + 1
                && arena@[i].score == old(arena)@[i].score + payoff by {
                if i != start {
                    lemma_ancestor_below(old(arena)@, start as int, i);
                    lemma_ancestor_same_parents(mid, old(arena)@, p as int, i);
                } else {
                    if is_ancestor(mid, p as int, i) {
                        lemma_ancestor_below(mid, p as int, i);
                    }
                }
            }
            assert forall|i: int|
                0 <= i < old(arena)@.len() && !(i == start || is_ancestor(
                    old(arena)@,
                    start as int,
                    i,
                )) implies (#[trigger] arena@[i]).visits == old(arena)@[i].visits
                && arena@[i].score == old(arena)@[i].score by {
                lemma_ancestor_same_parents(mid, old(arena)@, p as int, i);
            }
        }
    } else {
        proof {
            assert(start == 0);
        }
    }
}

/// The UCB priority of arena node `child` under arena node `parent`.
spec fn node_ucb(arena: Seq<Node>, parent: int, child: int, c_milli: int) -> int {
    ucb_spec(
        arena[child].score as int,
        arena[child].visits as int,
        arena[parent].visits as int,
        c_milli,
    )
}

impl MCTSPlayer {
    /// Among the children of `node`, one whose UCB priority is maximal; an
    /// unvisited child always beats a visited one.
    fn select_best_child(&self, arena: &Vec<Node>, node: usize) -> (best: usize)
        requires
            tree_wf(arena@),
            node < arena@.len(),
            arena@[node as int].children@.len() > 0,
            forall|i: int| 0 <= i < arena@.len() ==> (#[trigger] arena@[i]).visits <= 0xffff_ffff,
        ensures
            arena@[node as int].children@.contains(best),
            node < best < arena@.len(),
            forall|j: int|
                0 <= j < arena@[node as int].children@.len() ==> node_ucb(
                    arena@,
                    node as int,
                    #[trigger] arena@[node as int].children@[j] as int,
                    self.exploration_milli as int,
                ) <= node_ucb(arena@, node as int, best as int, self.exploration_milli as int),
    {
        let parent_visits = arena[node].visits;
        let mut best: usize = arena[node].children[0];
        assert(arena@[node as int].children@[0] == best);
        let mut best_ucb: u64 = self.ucb(arena[best].score, arena[best].visits, parent_visits);
        let mut j: usize = 1;
        while j < arena[node].children.len()
            invariant
                tree_wf(arena@),
                node < arena@.len(),
                forall|i: int|
                    0 <= i < arena@.len() ==> (#[trigger] arena@[i]).visits <= 0xffff_ffff,
                1 <= j <= arena@[node as int].children@.len(),
                arena@[node as int].children@.contains(best),
                parent_visits == arena@[node as int].visits,
                best_ucb == node_ucb(arena@, node as int, best as int, self.exploration_milli as int),
                forall|k: int|
                    0 <= k < j ==> node_ucb(
                        arena@,
                        node as int,
                        #[trigger] arena@[node as int].children@[k] as int,
                        self.exploration_milli as int,
                    ) <= best_ucb,
            decreases arena@[node as int].children@.len() - j,
        {
            let c: usize = arena[node].children[j];
            assert(arena@[node as int].children@[j as int] == c);
            let u: u64 = self.ucb(arena[c].score, arena[c].visits, parent_visits);
            if u > best_ucb {
                best = c;
                best_ucb = u;
                assert(arena@[node as int].children@.contains(best));
            }
            j = j + 1;
        }
        best
    }

    /// Play uniformly-random legal moves from `state` (respecting the
    /// forced-target rule seeded by `start_last_move`), alternating symbols
    /// starting with this engine's own, until the board is won or no legal
    /// move is left. The payoff is 1 when this engine's symbol wins, -1 when
    /// the opponent's does, 0 on a draw; a board already won before any move
    /// is scored the same way.
    fn simulate(&self, state: &Grid, start_last_move: Option<Coord>) -> (payoff: i64)
        requires
            start_last_move matches Some(lm) ==> coord_in_bounds(lm),
        ensures
            -1 <= payoff <= 1,
            (grid_winner(state.completed_minigrid@) matches Some(w) && w == self.spec_symbol())
                ==> payoff == 1,
            (grid_winner(state.completed_minigrid@) matches Some(w) && w != self.spec_symbol()
                && w != Cell::Empty) ==> payoff == -1,
    {
        proof {
            use_type_invariant(&*self);
        }
        let mut sim_state: Grid = *state;
        let mut current_player = self.symbol;
        let mut last_move = start_last_move;

        loop
            invariant
                self.symbol != Cell::Empty,
                current_player != Cell::Empty,
                last_move matches Some(lm) ==> coord_in_bounds(lm),
                grid_winner(state.completed_minigrid@) is Some ==> sim_state == *state,
            decreases grid_empties(sim_state),
        {
            if let Some(winner) = sim_state.is_completed() {
                if winner == self.symbol {
                    return 1;
                }
                if winner != Cell::Empty {
                    return -1;
                }
                return 0;
            }
            let legal_moves = sim_state.get_legal_moves(last_move);
            if legal_moves.len() == 0 {
                return 0;
            }

            let idx = random_below(legal_moves.len());
            let random_move = legal_moves[idx];
            assert(move_legal(sim_state, last_move, legal_moves@[idx as int]));

            let ghost pre = sim_state;
            sim_state.set(random_move, current_player);
            proof {
                lemma_grid_empties_set(pre, sim_state, random_move, current_player);
            }
            let ghost mid = sim_state;
            sim_state.update_grid();
            proof {
                lemma_grid_empties_refresh(mid, sim_state);
                lemma_grid_empties_bounds(sim_state, 9);
            }
            last_move = Some(random_move);

            current_player = if current_player == Cell::Cross {
                Cell::Circle
            } else {
                Cell::Cross
            };
        }
    }
}

impl Player for MCTSPlayer {
    fn reset(&self) {
        // The tree is rebuilt from scratch on every move request, so there
        // is no state to clear between matches.
    }

    /// Pick a move by Monte Carlo tree search: build a root for the given
    /// board, expand it with the given legal moves, run the configured
    /// number of select / expand / rollout / backpropagate iterations, and
    /// return the move of the root child with the most visits. A leaf is
    /// expanded full-width the first time selection reaches it, and
    /// backpropagation updates the simulated node itself along with its
    /// ancestors.
    #[verifier::loop_isolation(false)]
    fn select_move(&self, grid: Grid, legal_moves: Vec<Coord>, last_move: Option<Coord>) -> (r:
        Coord) {
        let mut arena: Vec<Node> = Vec::new();
        arena.push(
            Node {
                state: grid,
                visits: 0,
                score: 0,
                children: Vec::new(),
                parent: None,
                last_move: None,
            },
        );

        // Expand the root with one child per legal move.
        let mut root_children: Vec<usize> = Vec::new();
        let mut k: usize = 0;
        while k < legal_moves.len()
            invariant
                is_legal_move_seq(grid, last_move, legal_moves@),
                k <= legal_moves@.len(),
                arena@.len() == 1 + k,
                arena@[0].parent is None,
                arena@[0].children@.len() == 0,
                arena@[0].visits == 0,
                arena@[0].score == 0,
                arena@[0].last_move is None,
                forall|j: int|
                    0 < j < arena@.len() ==> {
                        &&& (#[trigger] arena@[j]).parent == Some(0usize)
                        &&& arena@[j].children@.len() == 0
                        &&& arena@[j].visits == 0
                        &&& arena@[j].score == 0
                        &&& arena@[j].last_move == Some(legal_moves@[j - 1])
                    },
                root_children@.len() == k,
                forall|j: int| 0 <= j < k ==> #[trigger] root_children@[j] == j + 1,
            decreases legal_moves@.len() - k,
        {
            let m = legal_moves[k];
            assert(move_legal(grid, last_move, legal_moves@[k as int]));
            let mut new_state = grid;
            new_state.set(m, self.symbol);
            new_state.update_grid();
            arena.push(
                Node {
                    state: new_state,
                    visits: 0,
                    score: 0,
                    children: Vec::new(),
                    parent: Some(0),
                    last_move: Some(m),
                },
            );
            root_children.push(k + 1);
            k = k + 1;
        }
        let ghost rc = root_children@;
        let ghost pre0 = arena@;
        arena[0].children = root_children;
        proof {
            assert(arena@[0].children@ == rc);
            assert forall|i: int| 0 < i < arena@.len() implies arena@[i] == pre0[i] by {}
            assert forall|i: int, j: int|
                0 <= i < arena@.len() && 0 <= j < arena@[i].children@.len() implies i < #[trigger] arena@[i].children@[j]
                < arena@.len() by {
                if i == 0 {
                    assert(rc[j] == j + 1);
                } else {
                    assert(pre0[i].children@.len() == 0);
                }
            }
            assert forall|i: int|
                0 <= i < arena@.len() implies ((#[trigger] arena@[i]).last_move matches Some(lm)
                ==> coord_in_bounds(lm)) by {
                if 0 < i {
                    assert(pre0[i].last_move == Some(legal_moves@[i - 1]));
                    assert(move_legal(grid, last_move, legal_moves@[i - 1]));
                } else {
                    assert(arena@[0].last_move == pre0[0].last_move);
                    assert(pre0[0].last_move is None);
                }
            }
            assert forall|i: int|
                0 < i < arena@.len() implies ((#[trigger] arena@[i]).parent matches Some(p) && p
                < i) by {
                assert(pre0[i].parent == Some(0usize));
            }
            assert forall|i: int|
                0 <= i < arena@.len() implies -arena@[i].visits <= (#[trigger] arena@[i]).score
                    <= arena@[i].visits by {
                if 0 < i {
                    assert(pre0[i].visits == 0 && pre0[i].score == 0);
                }
            }
            assert(tree_wf(arena@));
            assert forall|j: int|
                0 <= j < legal_moves@.len() implies (#[trigger] arena@[j + 1]).last_move == Some(
                legal_moves@[j],
            ) by {
                assert(pre0[j + 1].last_move == Some(legal_moves@[j]));
            }
            assert forall|i: int| 0 <= i < arena@.len() implies (#[trigger] arena@[i]).visits
                <= 0 by {
                if 0 < i {
                    assert(pre0[i].visits == 0);
                }
            }
        }

        let mut it: u32 = 0;
        while it < self.simulation_steps
            invariant
                is_legal_move_seq(grid, last_move, legal_moves@),
                legal_moves@.len() > 0,
                tree_wf(arena@),
                it <= self.simulation_steps,
                arena@.len() >= 1 + legal_moves@.len(),
                arena@[0].children@.len() == legal_moves@.len(),
                forall|j: int|
                    0 <= j < legal_moves@.len() ==> #[trigger] arena@[0].children@[j] == j + 1,
                forall|j: int|
                    0 <= j < legal_moves@.len() ==> (#[trigger] arena@[j + 1]).last_move == Some(
                        legal_moves@[j],
                    ),
                forall|i: int| 0 <= i < arena@.len() ==> (#[trigger] arena@[i]).visits <= it,
            decreases self.simulation_steps - it,
        {
            // Selection: descend to a leaf along maximal-UCB children.
            let mut cur: usize = 0;
            while arena[cur].children.len() > 0
                invariant
                    cur < arena@.len(),
                decreases arena@.len() - cur,
            {
                cur = self.select_best_child(&arena, cur);
            }

            // Expansion: give the leaf one child per legal move, if any.
            let node_state = arena[cur].state;
            let node_last = arena[cur].last_move;
            let legal = node_state.get_legal_moves(node_last);
            let mut sim_from: usize = cur;
            if legal.len() > 0 {
                let ghost base_arena = arena@;
                let ghost base = arena@.len();
                let mut kids: Vec<usize> = Vec::new();
                let mut k2: usize = 0;
                while k2 < legal.len()
                    invariant
                        is_legal_move_seq(node_state, node_last, legal@),
                        k2 <= legal@.len(),
                        arena@.len() == base + k2,
                        base == base_arena.len(),
                        cur < base,
                        forall|i: int| 0 <= i < base ==> arena@[i] == base_arena[i],
                        forall|i: int|
                            base <= i < arena@.len() ==> {
                                &&& (#[trigger] arena@[i]).parent == Some(cur)
                                &&& arena@[i].children@.len() == 0
                                &&& arena@[i].visits == 0
                                &&& arena@[i].score == 0
                                &&& (arena@[i].last_move matches Some(lm) && coord_in_bounds(lm))
                            },
                        kids@.len() == k2,
                        forall|j: int| 0 <= j < k2 ==> #[trigger] kids@[j] == base + j,
                    decreases legal@.len() - k2,
                {
                    let m = legal[k2];
                    assert(move_legal(node_state, node_last, legal@[k2 as int]));
                    let mut new_state = node_state;
                    new_state.set(m, self.symbol);
                    new_state.update_grid();
                    arena.push(
                        Node {
                            state: new_state,
                            visits: 0,
                            score: 0,
                            children: Vec::new(),
                            parent: Some(cur),
                            last_move: Some(m),
                        },
                    );
                    let idx = arena.len() - 1;
                    kids.push(idx);
                    k2 = k2 + 1;
                }
                let ghost kv = kids@;
                let ghost pre1 = arena@;
                arena[cur].children = kids;
                proof {
                    assert(cur != 0);
                    assert(arena@[cur as int].children@ == kv);
                    assert forall|i: int|
                        0 <= i < arena@.len() && i != cur implies arena@[i] == pre1[i] by {}
                    assert(arena@[cur as int].visits == pre1[cur as int].visits
                        && arena@[cur as int].score == pre1[cur as int].score
                        && arena@[cur as int].parent == pre1[cur as int].parent
                        && arena@[cur as int].last_move == pre1[cur as int].last_move);
                    assert forall|i: int, j: int|
                        0 <= i < arena@.len() && 0 <= j
                            < arena@[i].children@.len() implies i < #[trigger] arena@[i].children@[j]
                        < arena@.len() by {
                        if i == cur {
                            assert(kv[j] == base + j);
                        } else if i < base {
                            assert(pre1[i] == base_arena[i]);
                            assert(i < base_arena[i].children@[j] < base_arena.len());
                        } else {
                            assert(pre1[i].children@.len() == 0);
                        }
                    }
                    assert forall|i: int|
                        0 < i < arena@.len() implies ((#[trigger] arena@[i]).parent matches Some(p)
                        && p < i) by {
                        if i != cur && i < base {
                            assert(pre1[i] == base_arena[i]);
                        }
                    }
                    assert forall|i: int|
                        0 <= i < arena@.len() implies -arena@[i].visits
                            <= (#[trigger] arena@[i]).score <= arena@[i].visits by {
                        if i != cur && i < base {
                            assert(pre1[i] == base_arena[i]);
                        }
                    }
                    assert forall|i: int|
                        0 <= i < arena@.len() implies ((#[trigger] arena@[i]).last_move matches Some(
                        lm) ==> coord_in_bounds(lm)) by {
                        if i != cur && i < base {
                            assert(pre1[i] == base_arena[i]);
                        }
                    }
                    assert(tree_wf(arena@));
                    assert forall|i: int|
                        0 <= i < arena@.len() implies (#[trigger] arena@[i]).visits <= it by {
                        if i < base {
                            assert(pre1[i] == base_arena[i]);
                        }
                    }
                    assert(arena@[0].children@.len() == legal_moves@.len());
                    assert forall|j: int|
                        0 <= j < legal_moves@.len() implies #[trigger] arena@[0].children@[j] == j
                            + 1 by {
                        assert(pre1[0] == base_arena[0]);
                    }
                    assert forall|j: int|
                        0 <= j < legal_moves@.len() implies (#[trigger] arena@[j + 1]).last_move
                            == Some(legal_moves@[j]) by {
                        assert(pre1[j + 1] == base_arena[j + 1]);
                    }
                }
                let pick = random_below(arena[cur].children.len());
                sim_from = arena[cur].children[pick];
                assert(kv[pick as int] == base + pick);
            }

            // Rollout from the chosen node's board.
            let sim_state = arena[sim_from].state;
            let sim_last = arena[sim_from].last_move;
            let payoff = self.simulate(&sim_state, sim_last);

            // Backpropagation up to the root.
            proof {
                assert forall|i: int|
                    0 <= i < arena@.len() && (i == sim_from || is_ancestor(
                        arena@,
                        sim_from as int,
                        i,
                    )) implies (#[trigger] arena@[i]).visits < 0x1_0000_0000 by {}
            }
            backpropagate(&mut arena, sim_from, payoff);

            it = it + 1;
        }

        // Commit to the root child with the most visits.
        let n_kids = arena[0].children.len();
        let mut best_j: usize = 0;
        let first_child = arena[0].children[0];
        let mut best_vis: u64 = arena[first_child].visits;
        let mut j: usize = 1;
        while j < n_kids
            invariant
                tree_wf(arena@),
                n_kids == arena@[0].children@.len(),
                best_j < n_kids,
                j <= n_kids,
            decreases n_kids - j,
        {
            let cidx = arena[0].children[j];
            let v = arena[cidx].visits;
            if v > best_vis {
                best_j = j;
                best_vis = v;
            }
            j = j + 1;
        }
        let best_child = arena[0].children[best_j];
        match arena[best_child].last_move {
            Some(mv) => {
                assert(best_child == best_j + 1);
                assert(mv == legal_moves@[best_j as int]);
                mv
            },
            None => {
                proof {
                    assert(best_child == best_j + 1);
                    assert(false);
                }
                vstd::pervasive::unreached()
            },
        }
    }
}

/// Visit count and accumulated score of a node after folding in a sequence
/// of rollout payoffs, one backpropagation step at a time: each step adds
/// one visit and adds the payoff to the score.
pub open spec fn stats_after(payoffs: Seq<int>) -> (int, int)
    decreases payoffs.len(),
{
    if payoffs.len() == 0 {
        (0, 0)
    } else {
        let prev = stats_after(payoffs.drop_last());
        (prev.0 + 1, prev.1 + payoffs.last())
    }
}

/// The sum of a sequence of payoffs.
pub open spec fn payoff_sum(payoffs: Seq<int>) -> int
    decreases payoffs.len(),
{
    if payoffs.len() == 0 {
        0
    } else {
        payoff_sum(payoffs.drop_last()) + payoffs.last()
    }
}

/// A node that has absorbed `k` backpropagated results holds visit count
/// `k` and score equal to their sum, so its stored mean `score / visits` is
/// the arithmetic mean of the individual rollout payoffs. Integer
/// accumulation makes this exact: payoffs are whole numbers, and no
/// bit-pattern reinterpretation is involved.
pub proof fn lemma_mean_payoff(payoffs: Seq<int>)
    ensures
        stats_after(payoffs).0 == payoffs.len(),
        stats_after(payoffs).1 == payoff_sum(payoffs),
    decreases payoffs.len(),
{
    if payoffs.len() > 0 {
        lemma_mean_payoff(payoffs.drop_last());
    }
}

} // verus!

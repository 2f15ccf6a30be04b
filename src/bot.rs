use vstd::prelude::*;

use std::collections::HashMap;

use crate::board::{Disk, Position, BOARD_SIZE, NUM_CELLS};
use crate::errors::Error;
use crate::game::{
    heuristic, is_terminal, lemma_heuristic_bounds, lemma_legal_action_cell, legal_actions, play,
    utility_of, Action, Game, Player,
};

verus! {

broadcast use vstd::std_specs::hash::group_hash_axioms;

// ---------------------------------------------------------------------------
// The value that the search computes

/// The minimax value of a state from the agent's side, with the agent to move
/// when `maximizing` and the human otherwise, `depth` plies below the root of a
/// search that looks `limit` plies ahead: the score of a finished game, the
/// heuristic value below the look-ahead, and otherwise the best value for the
/// side to move over its legal moves. A side with no legal move while the other
/// still has one gets the worst value for it: the empty maximum is the smallest
/// `i32`, the empty minimum the largest.
pub open spec fn minimax(cells: Seq<Option<Disk>>, maximizing: bool, depth: int, limit: int) -> int
    decreases limit + 2 - depth, 0int,
{
    if is_terminal(cells) {
        utility_of(cells)
    } else if depth > limit {
        heuristic(cells)
    } else if maximizing {
        max_over(cells, legal_actions(cells, Player::Bot), depth, limit)
    } else {
        min_over(cells, legal_actions(cells, Player::Human), depth, limit)
    }
}

/// The largest value, for the human to move, of the states after `acts`.
pub open spec fn max_over(cells: Seq<Option<Disk>>, acts: Seq<Action>, depth: int, limit: int) -> int
    decreases limit + 1 - depth, acts.len(),
{
    if acts.len() == 0 {
        i32::MIN as int
    } else {
        let rest = max_over(cells, acts.drop_last(), depth, limit);
        let last = minimax(play(cells, acts.last()), false, depth + 1, limit);
        if last > rest {
            last
        } else {
            rest
        }
    }
}

/// The smallest value, for the agent to move, of the states after `acts`.
pub open spec fn min_over(cells: Seq<Option<Disk>>, acts: Seq<Action>, depth: int, limit: int) -> int
    decreases limit + 1 - depth, acts.len(),
{
    if acts.len() == 0 {
        i32::MAX as int
    } else {
        let rest = min_over(cells, acts.drop_last(), depth, limit);
        let last = minimax(play(cells, acts.last()), true, depth + 1, limit);
        if last < rest {
            last
        } else {
            rest
        }
    }
}

/// What a search with window `(alpha, beta)` tells of the true value `t` when it
/// returns `v`: at or below `alpha`, an upper bound; at or above `beta`, a lower
/// bound; strictly inside, the value itself.
pub open spec fn window_result(v: int, alpha: int, beta: int, t: int) -> bool {
    &&& v <= alpha ==> t <= v
    &&& v >= beta ==> t >= v
    &&& alpha < v < beta ==> t == v
}

/// The values, for the human to move one ply below the root, of the states after
/// each of `acts`.
pub open spec fn root_values(cells: Seq<Option<Disk>>, acts: Seq<Action>, limit: int) -> Seq<int> {
    Seq::new(acts.len(), |j: int| minimax(play(cells, acts[j]), false, 1, limit))
}

/// The first index that holds the largest of `vals`.
pub open spec fn first_best(vals: Seq<int>) -> int
    decreases vals.len(),
{
    if vals.len() <= 1 {
        0
    } else {
        let b = first_best(vals.drop_last());
        if vals.last() > vals[b] {
            vals.len() - 1
        } else {
            b
        }
    }
}

/// Every minimax value is an `i32`.
proof fn lemma_minimax_range(cells: Seq<Option<Disk>>, maximizing: bool, depth: int, limit: int)
    ensures
        i32::MIN <= minimax(cells, maximizing, depth, limit) <= i32::MAX,
    decreases limit + 2 - depth, 0int,
{
    if is_terminal(cells) {
    } else if depth > limit {
        lemma_heuristic_bounds(cells);
    } else if maximizing {
        lemma_max_over_range(cells, legal_actions(cells, Player::Bot), depth, limit);
    } else {
        lemma_min_over_range(cells, legal_actions(cells, Player::Human), depth, limit);
    }
}

proof fn lemma_max_over_range(cells: Seq<Option<Disk>>, acts: Seq<Action>, depth: int, limit: int)
    requires
        depth <= limit,
    ensures
        i32::MIN <= max_over(cells, acts, depth, limit) <= i32::MAX,
    decreases limit + 1 - depth, acts.len(),
{
    if acts.len() > 0 {
        lemma_max_over_range(cells, acts.drop_last(), depth, limit);
        lemma_minimax_range(play(cells, acts.last()), false, depth + 1, limit);
    }
}

proof fn lemma_min_over_range(cells: Seq<Option<Disk>>, acts: Seq<Action>, depth: int, limit: int)
    requires
        depth <= limit,
    ensures
        i32::MIN <= min_over(cells, acts, depth, limit) <= i32::MAX,
    decreases limit + 1 - depth, acts.len(),
{
    if acts.len() > 0 {
        lemma_min_over_range(cells, acts.drop_last(), depth, limit);
        lemma_minimax_range(play(cells, acts.last()), true, depth + 1, limit);
    }
}

/// The maximum over a prefix is at most the maximum over all.
proof fn lemma_max_over_prefix(cells: Seq<Option<Disk>>, acts: Seq<Action>, k: int, depth: int, limit: int)
    requires
        0 <= k <= acts.len(),
    ensures
        max_over(cells, acts.take(k), depth, limit) <= max_over(cells, acts, depth, limit),
    decreases acts.len(),
{
    if k < acts.len() {
        assert(acts.drop_last().take(k) =~= acts.take(k));
        lemma_max_over_prefix(cells, acts.drop_last(), k, depth, limit);
    } else {
        assert(acts.take(k) =~= acts);
    }
}

/// The minimum over a prefix is at least the minimum over all.
proof fn lemma_min_over_prefix(cells: Seq<Option<Disk>>, acts: Seq<Action>, k: int, depth: int, limit: int)
    requires
        0 <= k <= acts.len(),
    ensures
        min_over(cells, acts.take(k), depth, limit) >= min_over(cells, acts, depth, limit),
    decreases acts.len(),
{
    if k < acts.len() {
        assert(acts.drop_last().take(k) =~= acts.take(k));
        lemma_min_over_prefix(cells, acts.drop_last(), k, depth, limit);
    } else {
        assert(acts.take(k) =~= acts);
    }
}

/// With a single legal move the agent chooses that move, whatever its look-ahead.
pub proof fn lemma_single_move_chosen(cells: Seq<Option<Disk>>, limit: int)
    requires
        legal_actions(cells, Player::Bot).len() == 1,
    ensures
        first_best(root_values(cells, legal_actions(cells, Player::Bot), limit)) == 0,
{
}

// ---------------------------------------------------------------------------
// Keys of the evaluation cache

/// The digit of a cell in a state's key.
pub open spec fn cell_digit(c: Option<Disk>) -> int {
    match c {
        None => 0,
        Some(Disk::Dark) => 1,
        Some(Disk::Light) => 2,
    }
}

/// The cells read as a number in base three, the first cell the most significant.
pub open spec fn encode(s: Seq<Option<Disk>>) -> int
    decreases s.len(),
{
    if s.len() == 0 {
        0
    } else {
        3 * encode(s.drop_last()) + cell_digit(s.last())
    }
}

/// The key of a state in the evaluation cache: its cells and whose turn it is.
/// A state that the cache holds is not finished, so it records no winner.
pub open spec fn state_key(cells: Seq<Option<Disk>>, turn: Player) -> int {
    2 * encode(cells) + if turn == Player::Human {
        1int
    } else {
        0int
    }
}

pub open spec fn pow3(n: nat) -> int
    decreases n,
{
    if n == 0 {
        1
    } else {
        3 * pow3((n - 1) as nat)
    }
}

proof fn lemma_pow3_adds(a: nat, b: nat)
    ensures
        pow3(a + b) == pow3(a) * pow3(b),
    decreases b,
{
    if b > 0 {
        lemma_pow3_adds(a, (b - 1) as nat);
        assert(pow3(a + b) == 3 * pow3((a + b - 1) as nat));
        assert(pow3(a) * pow3(b) == pow3(a) * (3 * pow3((b - 1) as nat)));
        assert(pow3(a) * (3 * pow3((b - 1) as nat)) == 3 * (pow3(a) * pow3((b - 1) as nat)))
            by (nonlinear_arith);
    }
}

proof fn lemma_pow3_positive(a: nat)
    ensures
        1 <= pow3(a),
    decreases a,
{
    if a > 0 {
        lemma_pow3_positive((a - 1) as nat);
    }
}

proof fn lemma_pow3_grows(a: nat, b: nat)
    requires
        a <= b,
    ensures
        1 <= pow3(a) <= pow3(b),
    decreases b,
{
    lemma_pow3_positive(a);
    if b > a {
        lemma_pow3_grows(a, (b - 1) as nat);
    }
}

proof fn lemma_pow3_64()
    ensures
        pow3(64) == 3433683820292512484657849089281,
{
    assert(pow3(0) == 1);
    assert(pow3(1) == 3);
    assert(pow3(2) == 9);
    assert(pow3(3) == 27);
    assert(pow3(4) == 81);
    lemma_pow3_adds(4, 4);
    assert(pow3(8) == 6561);
    lemma_pow3_adds(8, 8);
    assert(pow3(16) == 43046721);
    lemma_pow3_adds(16, 16);
    assert(pow3(32) == 1853020188851841);
    lemma_pow3_adds(32, 32);
}

proof fn lemma_encode_bound(s: Seq<Option<Disk>>)
    ensures
        0 <= encode(s) < pow3(s.len()),
    decreases s.len(),
{
    if s.len() > 0 {
        lemma_encode_bound(s.drop_last());
    }
}

proof fn lemma_encode_injective(s: Seq<Option<Disk>>, t: Seq<Option<Disk>>)
    requires
        s.len() == t.len(),
        encode(s) == encode(t),
    ensures
        s == t,
    decreases s.len(),
{
    if s.len() > 0 {
        lemma_encode_injective(s.drop_last(), t.drop_last());
        assert(s =~= s.drop_last().push(s.last()));
        assert(t =~= t.drop_last().push(t.last()));
    } else {
        assert(s =~= t);
    }
}

/// Keys of full boards fit a `u128`, and two full boards with one key are equal.
proof fn lemma_state_key(s: Seq<Option<Disk>>, p: Player, t: Seq<Option<Disk>>, q: Player)
    requires
        s.len() == NUM_CELLS,
        t.len() == NUM_CELLS,
    ensures
        0 <= state_key(s, p) <= u128::MAX,
        state_key(s, p) == state_key(t, q) ==> s == t && p == q,
{
    lemma_encode_bound(s);
    lemma_pow3_64();
    if state_key(s, p) == state_key(t, q) {
        lemma_encode_injective(s, t);
    }
}

/// The cache key of a state as a `u128`.
pub open spec fn cache_key(cells: Seq<Option<Disk>>, turn: Player) -> u128 {
    state_key(cells, turn) as u128
}

fn key_of(game: &Game) -> (k: u128)
    ensures
        k == state_key(game.cells(), game.turn()),
{
    let board = game.board();
    let ghost cells = game.cells();
    proof {
        game.lemma_cells_len();
        lemma_pow3_64();
    }
    let mut acc: u128 = 0;
    let mut i: usize = 0;
    while i < NUM_CELLS
        invariant
            i <= NUM_CELLS,
            board@ == cells,
            cells.len() == NUM_CELLS,
            pow3(64) == 3433683820292512484657849089281,
            acc == encode(cells.take(i as int)),
            acc < pow3(i as nat),
        decreases NUM_CELLS - i,
    {
        assert(cells.take(i + 1).drop_last() =~= cells.take(i as int));
        let pos = Position { row: i / BOARD_SIZE, col: i % BOARD_SIZE };
        let digit: u128 = match board.disk(&pos) {
            None => 0,
            Some(Disk::Dark) => 1,
            Some(Disk::Light) => 2,
        };
        proof {
            lemma_pow3_grows((i + 1) as nat, 64);
        }
        acc = acc * 3 + digit;
        i = i + 1;
    }
    assert(cells.take(NUM_CELLS as int) =~= cells);
    proof {
        lemma_encode_bound(cells);
    }
    let turn: u128 = match game.current_player() {
        Player::Bot => 0,
        Player::Human => 1,
    };
    acc * 2 + turn
}

// ---------------------------------------------------------------------------
// The search agent

/// The search agent: a look-ahead of a fixed number of plies, and a cache of the
/// heuristic values of the states it has evaluated.
pub struct Bot {
    depth_limit: u32,
    minimax_cache: HashMap<u128, i32>,
}

impl Bot {
    /// How many plies ahead the search looks.
    pub closed spec fn limit(&self) -> int {
        self.depth_limit as int
    }

    /// The cache: the values stored so far, by state key.
    pub closed spec fn cache(&self) -> Map<u128, i32> {
        self.minimax_cache@
    }

    /// Every cached value is the heuristic value of the state whose key it is under.
    pub closed spec fn wf(&self) -> bool {
        forall|s: Seq<Option<Disk>>, t: Player|
            s.len() == NUM_CELLS && #[trigger] self.minimax_cache@.contains_key(cache_key(s, t))
                ==> self.minimax_cache@[cache_key(s, t)] == heuristic(s)
    }

    /// An agent that looks `intelligence` plies ahead, with an empty cache.
    pub fn new(intelligence: u32) -> (r: Bot)
        ensures
            r.limit() == intelligence,
            r.cache() == Map::<u128, i32>::empty(),
            r.wf(),
    {
        Bot { depth_limit: intelligence, minimax_cache: HashMap::new() }
    }

    /// The agent's move from `game`, where it is the agent's turn, with the state
    /// that it leads to. Each legal move is valued by the minimax value, looking
    /// ahead as far as this agent does, of the state after it; the first move of
    /// the largest value is chosen. Without a legal move the agent cannot decide.
    /// The search prunes with the usual alpha-beta bounds on both sides, which
    /// never changes the values that decide the choice.
    pub fn decide(&mut self, game: Game) -> (r: Result<(Action, Game), Error>)
        requires
            old(self).wf(),
            game.turn() == Player::Bot,
        ensures
            final(self).wf(),
            final(self).limit() == old(self).limit(),
            legal_actions(game.cells(), Player::Bot).len() == 0 ==> r == Err::<(Action, Game), Error>(
                Error::NoActionsAvailable,
            ),
            legal_actions(game.cells(), Player::Bot).len() > 0 ==> r is Ok,
            r is Ok ==> {
                let acts = legal_actions(game.cells(), Player::Bot);
                let best = first_best(root_values(game.cells(), acts, old(self).limit()));
                &&& 0 <= best < acts.len()
                &&& r->Ok_0.0 == acts[best]
                &&& r->Ok_0.1.cells() == play(game.cells(), acts[best])
                &&& r->Ok_0.1.turn() == Player::Human
                &&& r->Ok_0.1.winner_recorded() == crate::game::recorded_winner(r->Ok_0.1.cells())
            },
    {
        let ghost cells = game.cells();
        let ghost lim = self.limit();
        proof {
            game.lemma_cells_len();
        }
        let actions = game.actions(Player::Bot);
        let ghost acts = actions@;
        let ghost vals = root_values(cells, acts, lim);
        if actions.len() == 0 {
            return Err(Error::NoActionsAvailable);
        }
        proof {
            lemma_legal_action_cell(cells, Player::Bot, 0);
            lemma_minimax_range(play(cells, acts[0]), false, 1, lim);
        }
        let mut best_action = actions[0];
        let mut best_result = game.result(&best_action);
        let mut best_value = self.min_value(best_result, i32::MIN, i32::MAX, 1);
        let ghost mut best_index: int = 0;
        let mut i: usize = 1;
        assert(vals.take(1).len() == 1);
        while i < actions.len()
            invariant
                self.wf(),
                self.limit() == lim,
                lim == old(self).limit(),
                cells == game.cells(),
                cells.len() == NUM_CELLS,
                acts == actions@,
                acts == legal_actions(cells, Player::Bot),
                vals == root_values(cells, acts, lim),
                1 <= i <= acts.len(),
                best_index == first_best(vals.take(i as int)),
                0 <= best_index < i,
                best_value == vals[best_index],
                best_action == acts[best_index],
                best_result.cells() == play(cells, acts[best_index]),
                best_result.turn() == Player::Human,
                best_result.winner_recorded() == crate::game::recorded_winner(best_result.cells()),
            decreases acts.len() - i,
        {
            let a = actions[i];
            proof {
                lemma_legal_action_cell(cells, Player::Bot, i as int);
                lemma_minimax_range(play(cells, a), false, 1, lim);
                assert(vals.take(i + 1).drop_last() =~= vals.take(i as int));
                assert(vals.take(i + 1).last() == vals[i as int]);
            }
            if best_value < i32::MAX {
                let result = game.result(&a);
                let value = self.min_value(result, best_value, i32::MAX, 1);
                if value > best_value {
                    best_value = value;
                    best_action = a;
                    best_result = result;
                    proof {
                        best_index = i as int;
                    }
                }
            }
            i = i + 1;
        }
        assert(vals.take(acts.len() as int) =~= vals);
        Ok((best_action, best_result))
    }

    /// The heuristic value of an unfinished state, from the cache when it is there.
    fn evaluate(&mut self, game: Game) -> (r: i32)
        requires
            old(self).wf(),
            !is_terminal(game.cells()),
        ensures
            final(self).wf(),
            final(self).limit() == old(self).limit(),
            r == heuristic(game.cells()),
            final(self).cache() == old(self).cache().insert(cache_key(game.cells(), game.turn()), r),
    {
        let key = key_of(&game);
        proof {
            game.lemma_cells_len();
            lemma_state_key(game.cells(), game.turn(), game.cells(), game.turn());
            assert(key == cache_key(game.cells(), game.turn()));
        }
        match self.minimax_cache.get(&key) {
            Some(v) => {
                assert(self.cache().insert(key, *v) =~= self.cache());
                return *v;
            },
            None => {},
        }
        let value = game.evaluate();
        self.minimax_cache.insert(key, value);
        proof {
            assert forall|s: Seq<Option<Disk>>, t: Player|
                s.len() == NUM_CELLS && #[trigger] self.minimax_cache@.contains_key(
                    cache_key(s, t),
                ) implies self.minimax_cache@[cache_key(s, t)] == heuristic(s) by {
                lemma_state_key(s, t, game.cells(), game.turn());
                if cache_key(s, t) == key {
                    assert(s == game.cells());
                } else {
                    assert(old(self).minimax_cache@.contains_key(cache_key(s, t)));
                }
            }
        }
        value
    }

    /// The value of a state with the human to move, searched within the window
    /// `(alpha, beta)`: the search of the remaining moves stops as soon as the
    /// smallest value found is at or below `alpha`.
    fn min_value(&mut self, game: Game, alpha: i32, beta: i32, depth: u64) -> (v: i32)
        requires
            old(self).wf(),
            alpha < beta,
            1 <= depth <= old(self).limit() + 1,
        ensures
            final(self).wf(),
            final(self).limit() == old(self).limit(),
            window_result(v as int, alpha as int, beta as int, minimax(game.cells(), false, depth as int, old(self).limit())),
            is_terminal(game.cells()) ==> v == utility_of(game.cells()),
            !is_terminal(game.cells()) && depth > old(self).limit() ==> v == heuristic(game.cells()),
        decreases u32::MAX + 2 - depth,
    {
        let ghost lim = self.limit();
        let ghost cells = game.cells();
        proof {
            game.lemma_cells_len();
        }
        if game.is_over() {
            return game.utility();
        }
        if depth > self.depth_limit as u64 {
            return self.evaluate(game);
        }
        let actions = game.actions(Player::Human);
        let ghost acts = actions@;
        let mut best: i32 = i32::MAX;
        let mut bound: i32 = beta;
        let mut i: usize = 0;
        assert(acts.take(0) =~= Seq::<Action>::empty());
        while i < actions.len()
            invariant
                self.wf(),
                self.limit() == lim,
                lim == old(self).limit(),
                lim == self.depth_limit,
                cells == game.cells(),
                cells.len() == NUM_CELLS,
                !is_terminal(cells),
                1 <= depth <= lim,
                acts == actions@,
                acts == legal_actions(cells, Player::Human),
                i <= acts.len(),
                alpha < beta,
                alpha < best,
                bound == if best < beta { best } else { beta },
                min_over(cells, acts.take(i as int), depth as int, lim) >= best,
                best < beta ==> min_over(cells, acts.take(i as int), depth as int, lim) <= best,
            decreases acts.len() - i,
        {
            let a = actions[i];
            proof {
                lemma_legal_action_cell(cells, Player::Human, i as int);
                assert(acts.take(i + 1).drop_last() =~= acts.take(i as int));
                assert(acts.take(i + 1).last() == a);
            }
            let child = game.result(&a);
            let v = self.max_value(child, alpha, bound, depth + 1);
            if v < best {
                best = v;
            }
            if best <= alpha {
                proof {
                    lemma_min_over_prefix(cells, acts, i + 1, depth as int, lim);
                }
                return best;
            }
            if best < bound {
                bound = best;
            }
            i = i + 1;
        }
        assert(acts.take(acts.len() as int) =~= acts);
        best
    }

    /// The value of a state with the agent to move, searched within the window
    /// `(alpha, beta)`: the search of the remaining moves stops as soon as the
    /// largest value found is at or above `beta`.
    fn max_value(&mut self, game: Game, alpha: i32, beta: i32, depth: u64) -> (v: i32)
        requires
            old(self).wf(),
            alpha < beta,
            1 <= depth <= old(self).limit() + 1,
        ensures
            final(self).wf(),
            final(self).limit() == old(self).limit(),
            window_result(v as int, alpha as int, beta as int, minimax(game.cells(), true, depth as int, old(self).limit())),
            is_terminal(game.cells()) ==> v == utility_of(game.cells()),
            !is_terminal(game.cells()) && depth > old(self).limit() ==> v == heuristic(game.cells()),
        decreases u32::MAX + 2 - depth,
    {
        let ghost lim = self.limit();
        let ghost cells = game.cells();
        proof {
            game.lemma_cells_len();
        }
        if game.is_over() {
            return game.utility();
        }
        if depth > self.depth_limit as u64 {
            return self.evaluate(game);
        }
        let actions = game.actions(Player::Bot);
        let ghost acts = actions@;
        let mut best: i32 = i32::MIN;
        let mut bound: i32 = alpha;
        let mut i: usize = 0;
        assert(acts.take(0) =~= Seq::<Action>::empty());
        while i < actions.len()
            invariant
                self.wf(),
                self.limit() == lim,
                lim == old(self).limit(),
                lim == self.depth_limit,
                cells == game.cells(),
                cells.len() == NUM_CELLS,
                !is_terminal(cells),
                1 <= depth <= lim,
                acts == actions@,
                acts == legal_actions(cells, Player::Bot),
                i <= acts.len(),
                alpha < beta,
                best < beta,
                bound == if best > alpha { best } else { alpha },
                max_over(cells, acts.take(i as int), depth as int, lim) <= best,
                best > alpha ==> max_over(cells, acts.take(i as int), depth as int, lim) >= best,
            decreases acts.len() - i,
        {
            let a = actions[i];
            proof {
                lemma_legal_action_cell(cells, Player::Bot, i as int);
                assert(acts.take(i + 1).drop_last() =~= acts.take(i as int));
                assert(acts.take(i + 1).last() == a);
            }
            let child = game.result(&a);
            let v = self.min_value(child, bound, beta, depth + 1);
            if v > best {
                best = v;
            }
            if best >= beta {
                proof {
                    lemma_max_over_prefix(cells, acts, i + 1, depth as int, lim);
                }
                return best;
            }
            if best > bound {
                bound = best;
            }
            i = i + 1;
        }
        assert(acts.take(acts.len() as int) =~= acts);
        best
    }
}

} // verus!

use vstd::prelude::*;

use crate::board::{
    all_directions, cell_at, in_bounds, index_of, position_at, positions_upto, weight_of, Board,
    Direction, Disk, Position, BOARD_SIZE, NUM_CELLS,
};
use crate::errors::Error;

verus! {

/// One of the two sides: the search agent, or its human opponent.
#[derive(Clone, Copy, PartialEq, Eq, Structural, Debug, Hash)]
pub enum Player {
    Bot,
    Human,
}

/// The character that names a player in text.
pub open spec fn player_char(p: Player) -> char {
    match p {
        Player::Bot => 'B',
        Player::Human => 'H',
    }
}

impl Player {
    /// The other side.
    pub open spec fn other(self) -> Player {
        match self {
            Player::Bot => Player::Human,
            Player::Human => Player::Bot,
        }
    }

    /// The color that a side plays: the agent plays light, its opponent dark.
    pub open spec fn color(self) -> Disk {
        match self {
            Player::Bot => Disk::Light,
            Player::Human => Disk::Dark,
        }
    }

    /// Reads `'B'` as the agent and `'H'` as the human; any other character is a
    /// parse error.
    pub fn parse(ch: char) -> (r: Result<Player, Error>)
        ensures
            ch == 'B' ==> r == Ok::<Player, Error>(Player::Bot),
            ch == 'H' ==> r == Ok::<Player, Error>(Player::Human),
            ch != 'B' && ch != 'H' ==> r == Err::<Player, Error>(Error::ParseError),
    {
        if ch == 'B' {
            Ok(Player::Bot)
        } else if ch == 'H' {
            Ok(Player::Human)
        } else {
            Err(Error::ParseError)
        }
    }

    /// The opponent of this player.
    pub fn opponent(&self) -> (r: Player)
        ensures
            r == self.other(),
    {
        match *self {
            Player::Bot => Player::Human,
            Player::Human => Player::Bot,
        }
    }

    /// The disk color of this player.
    pub fn disk(&self) -> (r: Disk)
        ensures
            r == self.color(),
    {
        match *self {
            Player::Bot => Disk::Light,
            Player::Human => Disk::Dark,
        }
    }

    /// The character that names this player.
    pub fn to_char(&self) -> (r: char)
        ensures
            r == player_char(*self),
    {
        match *self {
            Player::Bot => 'B',
            Player::Human => 'H',
        }
    }
}

/// A move: `player` puts a disk of its color on `placement`.
#[derive(Clone, Copy, PartialEq, Eq, Structural, Debug, Hash)]
pub struct Action {
    pub player: Player,
    pub placement: Position,
}

impl Action {
    /// The move of `player` onto `placement`.
    pub fn parse(player: Player, placement: Position) -> (r: Action)
        ensures
            r.player == player,
            r.placement == placement,
    {
        Action { player, placement }
    }

    /// The placement's text, as `"D3"`.
    pub fn to_string(&self) -> (r: String)
        requires
            self.placement.on_board(),
        ensures
            r@ == crate::board::position_text(self.placement),
    {
        self.placement.to_string()
    }
}

// ---------------------------------------------------------------------------
// Walking along a ray of cells

/// The number of consecutive cells, from `(row, col)` on in direction `d`, that
/// hold `disk`.
pub open spec fn run_length(cells: Seq<Option<Disk>>, row: int, col: int, d: Direction, disk: Disk) -> nat
    decreases d.steps_left(row, col),
{
    if in_bounds(row, col) && cell_at(cells, row, col) == Some(disk) {
        1 + run_length(cells, row + d.row_step(), col + d.col_step(), d, disk)
    } else {
        0
    }
}

/// The first cell, from `(row, col)` on in direction `d`, that does not hold
/// `disk`; it may lie off the board.
pub open spec fn run_end(cells: Seq<Option<Disk>>, row: int, col: int, d: Direction, disk: Disk) -> (int, int)
    decreases d.steps_left(row, col),
{
    if in_bounds(row, col) && cell_at(cells, row, col) == Some(disk) {
        run_end(cells, row + d.row_step(), col + d.col_step(), d, disk)
    } else {
        (row, col)
    }
}

/// The position of `(row, col)` if it is on the board.
pub open spec fn on_board_at(row: int, col: int) -> Option<Position> {
    if in_bounds(row, col) {
        Some(Position { row: row as usize, col: col as usize })
    } else {
        None
    }
}

/// The empty cell where a disk of `player` would flank, from its own disk at
/// `(row, col)` and in direction `d`: the walk over the opponent's disks starting
/// next to `(row, col)` crosses at least one and stops on an empty cell.
pub open spec fn flank_target(cells: Seq<Option<Disk>>, row: int, col: int, d: Direction, player: Player) -> Option<Position> {
    let r = row + d.row_step();
    let c = col + d.col_step();
    let opp = player.other().color();
    let (er, ec) = run_end(cells, r, c, d, opp);
    if run_length(cells, r, c, d, opp) >= 1 && in_bounds(er, ec) && cell_at(cells, er, ec) is None {
        Some(Position { row: er as usize, col: ec as usize })
    } else {
        None
    }
}

/// The moves found from the disk at cell `i`, over the first `k` directions.
pub open spec fn actions_from(cells: Seq<Option<Disk>>, i: int, player: Player, k: int) -> Seq<Action>
    decreases k,
{
    if k <= 0 {
        Seq::empty()
    } else {
        let p = position_at(i);
        actions_from(cells, i, player, k - 1) + match flank_target(
            cells,
            p.row as int,
            p.col as int,
            all_directions()[k - 1],
            player,
        ) {
            Some(t) => seq![Action { player, placement: t }],
            None => Seq::empty(),
        }
    }
}

/// The moves of `player` found from its disks among the first `n` cells.
pub open spec fn actions_upto(cells: Seq<Option<Disk>>, player: Player, n: int) -> Seq<Action>
    decreases n,
{
    if n <= 0 {
        Seq::empty()
    } else {
        actions_upto(cells, player, n - 1) + if cells[n - 1] == Some(player.color()) {
            actions_from(cells, n - 1, player, 8)
        } else {
            Seq::empty()
        }
    }
}

/// The legal moves of `player`: for each of its disks in row-major order, and for
/// each direction in enumeration order, the flanking move found there, if any.
/// A cell reachable in several ways appears once for each.
pub open spec fn legal_actions(cells: Seq<Option<Disk>>, player: Player) -> Seq<Action> {
    actions_upto(cells, player, NUM_CELLS as int)
}

/// A state is over when neither side has a legal move.
pub open spec fn is_terminal(cells: Seq<Option<Disk>>) -> bool {
    legal_actions(cells, Player::Bot).len() == 0 && legal_actions(cells, Player::Human).len() == 0
}

// ---------------------------------------------------------------------------
// Applying a move

/// `n` cells from `(row, col)` on in direction `d` set to `disk`.
pub open spec fn paint(cells: Seq<Option<Disk>>, row: int, col: int, d: Direction, n: nat, disk: Disk) -> Seq<Option<Disk>>
    decreases n,
{
    if n == 0 {
        cells
    } else {
        paint(
            cells.update(index_of(row, col), Some(disk)),
            row + d.row_step(),
            col + d.col_step(),
            d,
            (n - 1) as nat,
            disk,
        )
    }
}

/// The flips in direction `d` after `own` was placed at `p`: the opponent's disks
/// next to `p` turn when the run of them ends on a disk of `own`.
pub open spec fn flip_direction(cells: Seq<Option<Disk>>, p: Position, d: Direction, own: Disk) -> Seq<Option<Disk>> {
    let r = p.row + d.row_step();
    let c = p.col + d.col_step();
    let opp = own.flipped();
    let (er, ec) = run_end(cells, r, c, d, opp);
    if in_bounds(er, ec) && cell_at(cells, er, ec) == Some(own) {
        paint(cells, r, c, d, run_length(cells, r, c, d, opp), own)
    } else {
        cells
    }
}

/// The flips of the first `k` directions, in enumeration order.
pub open spec fn flip_directions(cells: Seq<Option<Disk>>, p: Position, own: Disk, k: int) -> Seq<Option<Disk>>
    decreases k,
{
    if k <= 0 {
        cells
    } else {
        flip_direction(flip_directions(cells, p, own, k - 1), p, all_directions()[k - 1], own)
    }
}

/// The cells after `a`: its player's disk placed, then the flanked disks of every
/// direction flipped.
pub open spec fn play(cells: Seq<Option<Disk>>, a: Action) -> Seq<Option<Disk>> {
    let own = a.player.color();
    flip_directions(cells.update(a.placement.index(), Some(own)), a.placement, own, 8)
}

// ---------------------------------------------------------------------------
// Scoring

/// The number of cells among the first `n` that hold `disk`.
pub open spec fn count_upto(cells: Seq<Option<Disk>>, disk: Disk, n: int) -> int
    decreases n,
{
    if n <= 0 {
        0
    } else {
        count_upto(cells, disk, n - 1) + if cells[n - 1] == Some(disk) { 1int } else { 0int }
    }
}

/// The number of disks of `player` on the board.
pub open spec fn disk_count(cells: Seq<Option<Disk>>, player: Player) -> int {
    count_upto(cells, player.color(), NUM_CELLS as int)
}

/// The number of disks on the board.
pub open spec fn total_disks(cells: Seq<Option<Disk>>) -> int {
    disk_count(cells, Player::Bot) + disk_count(cells, Player::Human)
}

/// The side with strictly more disks, or `None` on a tie.
pub open spec fn leader(cells: Seq<Option<Disk>>) -> Option<Player> {
    if disk_count(cells, Player::Bot) > disk_count(cells, Player::Human) {
        Some(Player::Bot)
    } else if disk_count(cells, Player::Human) > disk_count(cells, Player::Bot) {
        Some(Player::Human)
    } else {
        None
    }
}

/// The winner that a state records: the leader once the game is over, and
/// `None` while it goes on.
pub open spec fn recorded_winner(cells: Seq<Option<Disk>>) -> Option<Player> {
    if is_terminal(cells) {
        leader(cells)
    } else {
        None
    }
}

/// The score of a finished game from the agent's side: the largest `i32` for its
/// win, the smallest for its loss, zero for a tie.
pub open spec fn utility_of(cells: Seq<Option<Disk>>) -> int {
    match leader(cells) {
        Some(Player::Bot) => i32::MAX as int,
        Some(Player::Human) => i32::MIN as int,
        None => 0,
    }
}

/// The sum of the positional weights of some cells.
pub open spec fn weight_sum(ps: Seq<Position>) -> int
    decreases ps.len(),
{
    if ps.len() == 0 {
        0
    } else {
        weight_sum(ps.drop_last()) + weight_of(ps.last().row as int, ps.last().col as int)
    }
}

/// The sum of the positional weights of the cells that hold `player`'s disks.
pub open spec fn placement_score(cells: Seq<Option<Disk>>, player: Player) -> int {
    weight_sum(positions_upto(cells, player.color(), NUM_CELLS as int))
}

/// The heuristic value of a state from the agent's side: the positional weight
/// of its disks less the human's, plus the number of its legal moves less the
/// human's.
pub open spec fn heuristic(cells: Seq<Option<Disk>>) -> int {
    (placement_score(cells, Player::Bot) - placement_score(cells, Player::Human)) + (legal_actions(
        cells,
        Player::Bot,
    ).len() - legal_actions(cells, Player::Human).len())
}

// ---------------------------------------------------------------------------
// Facts about the definitions above

/// A run of disks fits on the board.
proof fn lemma_run_length_bound(cells: Seq<Option<Disk>>, row: int, col: int, d: Direction, disk: Disk)
    ensures
        run_length(cells, row, col, d, disk) <= BOARD_SIZE,
        in_bounds(row, col) ==> run_length(cells, row, col, d, disk) <= d.steps_left(row, col),
    decreases d.steps_left(row, col),
{
    if in_bounds(row, col) && cell_at(cells, row, col) == Some(disk) {
        lemma_run_length_bound(cells, row + d.row_step(), col + d.col_step(), d, disk);
    }
}

/// Each disk yields at most one move per direction.
proof fn lemma_actions_len(cells: Seq<Option<Disk>>, player: Player, n: int)
    requires
        0 <= n,
    ensures
        actions_upto(cells, player, n).len() <= 8 * n,
    decreases n,
{
    if n > 0 {
        lemma_actions_len(cells, player, n - 1);
        lemma_actions_from_len(cells, n - 1, player, 8);
    }
}

proof fn lemma_actions_from_len(cells: Seq<Option<Disk>>, i: int, player: Player, k: int)
    requires
        0 <= k,
    ensures
        actions_from(cells, i, player, k).len() <= k,
    decreases k,
{
    if k > 0 {
        lemma_actions_from_len(cells, i, player, k - 1);
    }
}

/// The positions of a disk are on the board, and there are as many as the disks
/// counted.
proof fn lemma_positions(cells: Seq<Option<Disk>>, disk: Disk, n: int)
    requires
        0 <= n <= NUM_CELLS,
    ensures
        positions_upto(cells, disk, n).len() == count_upto(cells, disk, n),
        positions_upto(cells, disk, n).len() <= n,
        forall|j: int|
            0 <= j < positions_upto(cells, disk, n).len() ==> (#[trigger] positions_upto(
                cells,
                disk,
                n,
            )[j]).on_board(),
    decreases n,
{
    if n > 0 {
        lemma_positions(cells, disk, n - 1);
        let m = n - 1;
        assert(position_at(m).on_board());
        let ps = positions_upto(cells, disk, n);
        let qs = positions_upto(cells, disk, m);
        assert forall|j: int| 0 <= j < ps.len() implies (#[trigger] ps[j]).on_board() by {
            if j < qs.len() {
                assert(ps[j] == qs[j]);
            }
        }
    }
}

/// The positional weights of a few cells stay within a small range.
proof fn lemma_weight_sum_bounds(ps: Seq<Position>)
    requires
        forall|j: int| 0 <= j < ps.len() ==> (#[trigger] ps[j]).on_board(),
    ensures
        -25 * ps.len() <= weight_sum(ps) <= 30 * ps.len(),
    decreases ps.len(),
{
    if ps.len() > 0 {
        let q = ps.drop_last();
        assert forall|j: int| 0 <= j < q.len() implies (#[trigger] q[j]).on_board() by {
            assert(q[j] == ps[j]);
        }
        lemma_weight_sum_bounds(q);
        assert(ps[ps.len() - 1].on_board());
        crate::board::lemma_weight_range(ps.last().row as int, ps.last().col as int);
    }
}

/// The heuristic value fits an `i32` with room to spare.
pub proof fn lemma_heuristic_bounds(cells: Seq<Option<Disk>>)
    ensures
        -5000 <= heuristic(cells) <= 5000,
{
    lemma_positions(cells, Player::Bot.color(), NUM_CELLS as int);
    lemma_positions(cells, Player::Human.color(), NUM_CELLS as int);
    lemma_weight_sum_bounds(positions_upto(cells, Player::Bot.color(), NUM_CELLS as int));
    lemma_weight_sum_bounds(positions_upto(cells, Player::Human.color(), NUM_CELLS as int));
    lemma_actions_len(cells, Player::Bot, NUM_CELLS as int);
    lemma_actions_len(cells, Player::Human, NUM_CELLS as int);
}

proof fn lemma_count_update(cells: Seq<Option<Disk>>, i: int, v: Option<Disk>, disk: Disk, n: int)
    requires
        0 <= i < cells.len(),
        0 <= n <= cells.len(),
    ensures
        count_upto(cells.update(i, v), disk, n) == count_upto(cells, disk, n) - (if i < n
            && cells[i] == Some(disk) {
            1int
        } else {
            0int
        }) + (if i < n && v == Some(disk) {
            1int
        } else {
            0int
        }),
    decreases n,
{
    if n > 0 {
        lemma_count_update(cells, i, v, disk, n - 1);
    }
}

/// Putting a disk of `player` on a cell never lowers its count nor the total, and
/// raises both by one on an empty cell.
proof fn lemma_set_own(cells: Seq<Option<Disk>>, i: int, player: Player)
    requires
        cells.len() == NUM_CELLS,
        0 <= i < NUM_CELLS,
    ensures
        disk_count(cells.update(i, Some(player.color())), player) >= disk_count(cells, player),
        total_disks(cells.update(i, Some(player.color()))) >= total_disks(cells),
        cells[i] is None ==> disk_count(cells.update(i, Some(player.color())), player)
            == disk_count(cells, player) + 1,
        cells[i] is None ==> total_disks(cells.update(i, Some(player.color()))) == total_disks(cells)
            + 1,
{
    let v = Some(player.color());
    lemma_count_update(cells, i, v, Disk::Dark, NUM_CELLS as int);
    lemma_count_update(cells, i, v, Disk::Light, NUM_CELLS as int);
}

/// Changing a cell behind `(row, col)`, seen in direction `d`, leaves the run
/// from `(row, col)` on as it was.
proof fn lemma_run_ignores_behind(
    cells: Seq<Option<Disk>>,
    r0: int,
    c0: int,
    x: Option<Disk>,
    row: int,
    col: int,
    d: Direction,
    disk: Disk,
)
    requires
        cells.len() == NUM_CELLS,
        in_bounds(r0, c0),
        d.steps_left(r0, c0) > d.steps_left(row, col),
    ensures
        run_length(cells.update(index_of(r0, c0), x), row, col, d, disk) == run_length(
            cells,
            row,
            col,
            d,
            disk,
        ),
    decreases d.steps_left(row, col),
{
    if in_bounds(row, col) {
        assert(index_of(row, col) != index_of(r0, c0));
        lemma_run_ignores_behind(cells, r0, c0, x, row + d.row_step(), col + d.col_step(), d, disk);
    }
}

/// Painting `n` disks of a run of the other color with `player`'s color moves
/// exactly `n` disks from the other side to `player`.
proof fn lemma_paint_recolors(cells: Seq<Option<Disk>>, row: int, col: int, d: Direction, n: nat, player: Player)
    requires
        cells.len() == NUM_CELLS,
        n <= run_length(cells, row, col, d, player.other().color()),
    ensures
        paint(cells, row, col, d, n, player.color()).len() == NUM_CELLS,
        disk_count(paint(cells, row, col, d, n, player.color()), player) == disk_count(cells, player)
            + n,
        disk_count(paint(cells, row, col, d, n, player.color()), player.other()) == disk_count(
            cells,
            player.other(),
        ) - n,
    decreases n,
{
    if n > 0 {
        let i = index_of(row, col);
        let next = cells.update(i, Some(player.color()));
        lemma_count_update(cells, i, Some(player.color()), Disk::Dark, NUM_CELLS as int);
        lemma_count_update(cells, i, Some(player.color()), Disk::Light, NUM_CELLS as int);
        lemma_run_ignores_behind(
            cells,
            row,
            col,
            Some(player.color()),
            row + d.row_step(),
            col + d.col_step(),
            d,
            player.other().color(),
        );
        lemma_paint_recolors(next, row + d.row_step(), col + d.col_step(), d, (n - 1) as nat, player);
    }
}

proof fn lemma_flips_gain(cells: Seq<Option<Disk>>, p: Position, player: Player, k: int)
    requires
        cells.len() == NUM_CELLS,
        0 <= k <= 8,
    ensures
        flip_directions(cells, p, player.color(), k).len() == NUM_CELLS,
        disk_count(flip_directions(cells, p, player.color(), k), player) >= disk_count(cells, player),
        total_disks(flip_directions(cells, p, player.color(), k)) == total_disks(cells),
    decreases k,
{
    if k > 0 {
        lemma_flips_gain(cells, p, player, k - 1);
        let prev = flip_directions(cells, p, player.color(), k - 1);
        let d = all_directions()[k - 1];
        let own = player.color();
        let r = p.row + d.row_step();
        let c = p.col + d.col_step();
        let n = run_length(prev, r, c, d, own.flipped());
        let (er, ec) = run_end(prev, r, c, d, own.flipped());
        assert(own.flipped() == player.other().color());
        if in_bounds(er, ec) && cell_at(prev, er, ec) == Some(own) {
            lemma_paint_recolors(prev, r, c, d, n, player);
            assert(total_disks(prev) == disk_count(prev, player) + disk_count(prev, player.other()));
        }
    }
}

/// The direction opposite to `d`.
pub open spec fn reverse(d: Direction) -> Direction {
    match d {
        Direction::North => Direction::South,
        Direction::NorthEast => Direction::SouthWest,
        Direction::East => Direction::West,
        Direction::SouthEast => Direction::NorthWest,
        Direction::South => Direction::North,
        Direction::SouthWest => Direction::NorthEast,
        Direction::West => Direction::East,
        Direction::NorthWest => Direction::SouthEast,
    }
}

/// The row `s` steps from `row` in direction `d`.
pub open spec fn ray_row(row: int, d: Direction, s: int) -> int
    decreases s,
{
    if s <= 0 {
        row
    } else {
        ray_row(row, d, s - 1) + d.row_step()
    }
}

/// The column `s` steps from `col` in direction `d`.
pub open spec fn ray_col(col: int, d: Direction, s: int) -> int
    decreases s,
{
    if s <= 0 {
        col
    } else {
        ray_col(col, d, s - 1) + d.col_step()
    }
}

/// A run of `disk` from `s` steps past `(row, col)` on: all of its cells hold
/// `disk`, and it ends just after them.
proof fn lemma_run_shape(cells: Seq<Option<Disk>>, row: int, col: int, d: Direction, disk: Disk, s: int)
    requires
        s >= 0,
    ensures
        ({
            let m = run_length(cells, ray_row(row, d, s), ray_col(col, d, s), d, disk) as int;
            &&& run_end(cells, ray_row(row, d, s), ray_col(col, d, s), d, disk) == (
                ray_row(row, d, s + m),
                ray_col(col, d, s + m),
            )
            &&& forall|q: int|
                s <= q < s + m ==> in_bounds(#[trigger] ray_row(row, d, q), ray_col(col, d, q))
                    && cell_at(cells, ray_row(row, d, q), ray_col(col, d, q)) == Some(disk)
        }),
    decreases d.steps_left(ray_row(row, d, s), ray_col(col, d, s)),
{
    let r = ray_row(row, d, s);
    let c = ray_col(col, d, s);
    assert(ray_row(row, d, s + 1) == r + d.row_step());
    assert(ray_col(col, d, s + 1) == c + d.col_step());
    if in_bounds(r, c) && cell_at(cells, r, c) == Some(disk) {
        lemma_run_shape(cells, row, col, d, disk, s + 1);
    }
}

/// Walking back from `s` steps past `(row, col)` over cells of `disk` reaches
/// `(row, col)`, which holds another disk, after exactly `s` cells.
proof fn lemma_run_back(cells: Seq<Option<Disk>>, row: int, col: int, d: Direction, disk: Disk, s: int)
    requires
        s >= 0,
        in_bounds(row, col),
        cell_at(cells, row, col) is Some,
        cell_at(cells, row, col) != Some(disk),
        forall|q: int|
            1 <= q <= s ==> in_bounds(#[trigger] ray_row(row, d, q), ray_col(col, d, q))
                && cell_at(cells, ray_row(row, d, q), ray_col(col, d, q)) == Some(disk),
    ensures
        run_length(cells, ray_row(row, d, s), ray_col(col, d, s), reverse(d), disk) == s,
        run_end(cells, ray_row(row, d, s), ray_col(col, d, s), reverse(d), disk) == (row, col),
    decreases s,
{
    if s > 0 {
        lemma_run_back(cells, row, col, d, disk, s - 1);
        assert(ray_row(row, d, s) + reverse(d).row_step() == ray_row(row, d, s - 1));
        assert(ray_col(col, d, s) + reverse(d).col_step() == ray_col(col, d, s - 1));
    }
}

/// One direction's flips leave the board as it was or give `player` more disks.
proof fn lemma_flip_direction_progress(cells: Seq<Option<Disk>>, p: Position, d: Direction, player: Player)
    requires
        cells.len() == NUM_CELLS,
    ensures
        flip_direction(cells, p, d, player.color()).len() == NUM_CELLS,
        disk_count(flip_direction(cells, p, d, player.color()), player) >= disk_count(cells, player),
        flip_direction(cells, p, d, player.color()) == cells || disk_count(
            flip_direction(cells, p, d, player.color()),
            player,
        ) >= disk_count(cells, player) + 1,
{
    let own = player.color();
    let r = p.row + d.row_step();
    let c = p.col + d.col_step();
    let n = run_length(cells, r, c, d, own.flipped());
    let (er, ec) = run_end(cells, r, c, d, own.flipped());
    assert(own.flipped() == player.other().color());
    if in_bounds(er, ec) && cell_at(cells, er, ec) == Some(own) {
        lemma_paint_recolors(cells, r, c, d, n, player);
    }
}

/// Once the flips of direction `kd` alone would give `player` a disk, the flips
/// of all directions up to it and beyond do so too.
proof fn lemma_flips_reach(cells: Seq<Option<Disk>>, p: Position, player: Player, k: int, kd: int)
    requires
        cells.len() == NUM_CELLS,
        0 <= kd < 8,
        0 <= k <= 8,
        disk_count(flip_direction(cells, p, all_directions()[kd], player.color()), player)
            >= disk_count(cells, player) + 1,
    ensures
        flip_directions(cells, p, player.color(), k).len() == NUM_CELLS,
        k > kd ==> disk_count(flip_directions(cells, p, player.color(), k), player) >= disk_count(
            cells,
            player,
        ) + 1,
        flip_directions(cells, p, player.color(), k) == cells || disk_count(
            flip_directions(cells, p, player.color(), k),
            player,
        ) >= disk_count(cells, player) + 1,
    decreases k,
{
    if k > 0 {
        lemma_flips_reach(cells, p, player, k - 1, kd);
        let prev = flip_directions(cells, p, player.color(), k - 1);
        lemma_flip_direction_progress(prev, p, all_directions()[k - 1], player);
    }
}

/// Where a move comes from: an own disk and a direction whose flanking target it is.
proof fn lemma_action_origin(cells: Seq<Option<Disk>>, player: Player, n: int, j: int)
    requires
        0 <= n <= NUM_CELLS,
        cells.len() == NUM_CELLS,
        0 <= j < actions_upto(cells, player, n).len(),
    ensures
        exists|i: int, k: int|
            0 <= i < n && 0 <= k < 8 && cells[i] == Some(player.color()) && #[trigger] flank_target(
                cells,
                position_at(i).row as int,
                position_at(i).col as int,
                all_directions()[k],
                player,
            ) == Some(actions_upto(cells, player, n)[j].placement),
    decreases n,
{
    let prev = actions_upto(cells, player, n - 1);
    if j < prev.len() {
        assert(actions_upto(cells, player, n)[j] == prev[j]);
        lemma_action_origin(cells, player, n - 1, j);
        let (i, k) = choose|i: int, k: int|
            0 <= i < n - 1 && 0 <= k < 8 && cells[i] == Some(player.color()) && #[trigger] flank_target(
                cells,
                position_at(i).row as int,
                position_at(i).col as int,
                all_directions()[k],
                player,
            ) == Some(prev[j].placement);
        assert(flank_target(
            cells,
            position_at(i).row as int,
            position_at(i).col as int,
            all_directions()[k],
            player,
        ) == Some(actions_upto(cells, player, n)[j].placement));
    } else {
        let i = n - 1;
        let more = actions_from(cells, i, player, 8);
        assert(cells[i] == Some(player.color()));
        assert(actions_upto(cells, player, n)[j] == more[j - prev.len()]);
        lemma_action_origin_from(cells, i, player, 8, j - prev.len());
    }
}

proof fn lemma_action_origin_from(cells: Seq<Option<Disk>>, i: int, player: Player, k: int, j: int)
    requires
        0 <= k <= 8,
        0 <= j < actions_from(cells, i, player, k).len(),
    ensures
        exists|kk: int|
            0 <= kk < k && #[trigger] flank_target(
                cells,
                position_at(i).row as int,
                position_at(i).col as int,
                all_directions()[kk],
                player,
            ) == Some(actions_from(cells, i, player, k)[j].placement),
    decreases k,
{
    let prev = actions_from(cells, i, player, k - 1);
    let p = position_at(i);
    if j < prev.len() {
        assert(actions_from(cells, i, player, k)[j] == prev[j]);
        lemma_action_origin_from(cells, i, player, k - 1, j);
        let kk = choose|kk: int|
            0 <= kk < k - 1 && #[trigger] flank_target(
                cells,
                p.row as int,
                p.col as int,
                all_directions()[kk],
                player,
            ) == Some(prev[j].placement);
        assert(flank_target(cells, p.row as int, p.col as int, all_directions()[kk], player) == Some(
            actions_from(cells, i, player, k)[j].placement,
        ));
    } else {
        assert(flank_target(cells, p.row as int, p.col as int, all_directions()[k - 1], player)
            == Some(actions_from(cells, i, player, k)[j].placement));
    }
}

/// The disk placed by a move flanks, looking back the way the move was found, the
/// run of the opponent's disks that the move was found over.
proof fn lemma_placed_flank(cells: Seq<Option<Disk>>, player: Player, i: int, k: int, t: Position)
    requires
        cells.len() == NUM_CELLS,
        0 <= i < NUM_CELLS,
        0 <= k < 8,
        cells[i] == Some(player.color()),
        flank_target(
            cells,
            position_at(i).row as int,
            position_at(i).col as int,
            all_directions()[k],
            player,
        ) == Some(t),
    ensures
        t.on_board(),
        cells[t.index()] is None,
        disk_count(
            flip_direction(
                cells.update(t.index(), Some(player.color())),
                t,
                reverse(all_directions()[k]),
                player.color(),
            ),
            player,
        ) >= disk_count(cells.update(t.index(), Some(player.color())), player) + 1,
{
    let d = all_directions()[k];
    let own = player.color();
    let opp = player.other().color();
    let o = position_at(i);
    let orow = o.row as int;
    let ocol = o.col as int;
    assert(index_of(orow, ocol) == i);
    assert(ray_row(orow, d, 0) == orow);
    assert(ray_col(ocol, d, 0) == ocol);
    assert(ray_row(orow, d, 1) == orow + d.row_step());
    assert(ray_col(ocol, d, 1) == ocol + d.col_step());
    lemma_run_shape(cells, orow, ocol, d, opp, 1);
    let m = run_length(cells, orow + d.row_step(), ocol + d.col_step(), d, opp) as int;
    assert(m >= 1);
    let ti = t.index();
    assert(ti == index_of(ray_row(orow, d, 1 + m), ray_col(ocol, d, 1 + m)));
    let placed = cells.update(ti, Some(own));
    assert forall|q: int| 1 <= q <= m implies in_bounds(#[trigger] ray_row(orow, d, q), ray_col(ocol, d, q))
        && cell_at(placed, ray_row(orow, d, q), ray_col(ocol, d, q)) == Some(opp) by {
        assert(1 <= q < 1 + m);
        assert(cell_at(cells, ray_row(orow, d, q), ray_col(ocol, d, q)) == Some(opp));
    }
    assert(cell_at(placed, orow, ocol) == Some(own));
    lemma_run_back(placed, orow, ocol, d, opp, m);
    assert(ray_row(orow, d, m + 1) == ray_row(orow, d, m) + d.row_step());
    assert(ray_col(ocol, d, m + 1) == ray_col(ocol, d, m) + d.col_step());
    assert(t.row + reverse(d).row_step() == ray_row(orow, d, m));
    assert(t.col + reverse(d).col_step() == ray_col(ocol, d, m));
    assert(own.flipped() == opp);
    lemma_paint_recolors(placed, ray_row(orow, d, m), ray_col(ocol, d, m), reverse(d), m as nat, player);
}

proof fn lemma_actions_from_cells(cells: Seq<Option<Disk>>, i: int, player: Player, k: int)
    requires
        cells.len() == NUM_CELLS,
        0 <= k <= 8,
    ensures
        forall|j: int|
            0 <= j < actions_from(cells, i, player, k).len() ==> {
                let a = #[trigger] actions_from(cells, i, player, k)[j];
                a.player == player && a.placement.on_board() && cells[a.placement.index()] is None
            },
    decreases k,
{
    if k > 0 {
        lemma_actions_from_cells(cells, i, player, k - 1);
        let prev = actions_from(cells, i, player, k - 1);
        let all = actions_from(cells, i, player, k);
        assert forall|j: int| 0 <= j < all.len() implies {
            let a = #[trigger] all[j];
            a.player == player && a.placement.on_board() && cells[a.placement.index()] is None
        } by {
            if j < prev.len() {
                assert(all[j] == prev[j]);
            }
        }
    }
}

proof fn lemma_actions_upto_cells(cells: Seq<Option<Disk>>, player: Player, n: int)
    requires
        cells.len() == NUM_CELLS,
        0 <= n <= NUM_CELLS,
    ensures
        forall|j: int|
            0 <= j < actions_upto(cells, player, n).len() ==> {
                let a = #[trigger] actions_upto(cells, player, n)[j];
                a.player == player && a.placement.on_board() && cells[a.placement.index()] is None
            },
    decreases n,
{
    if n > 0 {
        lemma_actions_upto_cells(cells, player, n - 1);
        lemma_actions_from_cells(cells, n - 1, player, 8);
        let prev = actions_upto(cells, player, n - 1);
        let all = actions_upto(cells, player, n);
        let more = actions_from(cells, n - 1, player, 8);
        assert forall|j: int| 0 <= j < all.len() implies {
            let a = #[trigger] all[j];
            a.player == player && a.placement.on_board() && cells[a.placement.index()] is None
        } by {
            if j < prev.len() {
                assert(all[j] == prev[j]);
            } else {
                assert(all[j] == more[j - prev.len()]);
            }
        }
    }
}

/// Every legal move belongs to its player and goes to an empty cell on the board.
pub proof fn lemma_legal_action_cell(cells: Seq<Option<Disk>>, player: Player, j: int)
    requires
        cells.len() == NUM_CELLS,
        0 <= j < legal_actions(cells, player).len(),
    ensures
        legal_actions(cells, player)[j].player == player,
        legal_actions(cells, player)[j].placement.on_board(),
        cells[legal_actions(cells, player)[j].placement.index()] is None,
{
    lemma_actions_upto_cells(cells, player, NUM_CELLS as int);
}

/// A legal move raises its player's disk count by at least two (the placed disk
/// and at least one flipped disk) and adds exactly one disk to the board:
/// flipping only changes colors.
pub proof fn lemma_legal_move_gains(cells: Seq<Option<Disk>>, player: Player, j: int)
    requires
        cells.len() == NUM_CELLS,
        0 <= j < legal_actions(cells, player).len(),
    ensures
        disk_count(play(cells, legal_actions(cells, player)[j]), player) >= disk_count(cells, player)
            + 1,
        total_disks(play(cells, legal_actions(cells, player)[j])) == total_disks(cells) + 1,
        disk_count(play(cells, legal_actions(cells, player)[j]), player) >= disk_count(cells, player)
            + 2,
{
    let a = legal_actions(cells, player)[j];
    lemma_legal_action_cell(cells, player, j);
    let i = a.placement.index();
    lemma_set_own(cells, i, player);
    lemma_flips_gain(cells.update(i, Some(player.color())), a.placement, player, 8);
    lemma_action_origin(cells, player, NUM_CELLS as int, j);
    let (o, k) = choose|o: int, k: int|
        0 <= o < NUM_CELLS && 0 <= k < 8 && cells[o] == Some(player.color()) && #[trigger] flank_target(
            cells,
            position_at(o).row as int,
            position_at(o).col as int,
            all_directions()[k],
            player,
        ) == Some(a.placement);
    lemma_placed_flank(cells, player, o, k, a.placement);
    let kd = (k + 4) % 8;
    assert(all_directions()[kd] == reverse(all_directions()[k]));
    lemma_flips_reach(cells.update(i, Some(player.color())), a.placement, player, 8, kd);
}

// ---------------------------------------------------------------------------
// Executable rules on a board

/// Walks from the cell next to `from` in direction `d` over the cells that hold
/// `disk`: how many it crossed, and the first cell that does not hold `disk` if
/// that cell is on the board.
fn walk(board: &Board, from: &Position, d: Direction, disk: Disk) -> (r: (usize, Option<Position>))
    requires
        from.on_board(),
    ensures
        r.0 == run_length(board@, from.row + d.row_step(), from.col + d.col_step(), d, disk),
        r.1 == on_board_at(
            run_end(board@, from.row + d.row_step(), from.col + d.col_step(), d, disk).0,
            run_end(board@, from.row + d.row_step(), from.col + d.col_step(), d, disk).1,
        ),
{
    let ghost r0 = from.row + d.row_step();
    let ghost c0 = from.col + d.col_step();
    let ghost mut gr: int = r0;
    let ghost mut gc: int = c0;
    let mut n: usize = 0;
    let mut walker = board.neighbour(from, d);
    let mut going = true;
    proof {
        lemma_run_length_bound(board@, r0, c0, d, disk);
    }
    while going
        invariant
            -1 <= gr <= BOARD_SIZE,
            -1 <= gc <= BOARD_SIZE,
            walker == on_board_at(gr, gc),
            run_length(board@, r0, c0, d, disk) <= BOARD_SIZE,
            run_length(board@, r0, c0, d, disk) == n + run_length(board@, gr, gc, d, disk),
            run_end(board@, r0, c0, d, disk) == run_end(board@, gr, gc, d, disk),
            !going ==> !(in_bounds(gr, gc) && cell_at(board@, gr, gc) == Some(disk)),
        decreases
                if going {
                    d.steps_left(gr, gc) + 1
                } else {
                    0
                },
    {
        match walker {
            None => {
                going = false;
            },
            Some(w) => {
                if board.disk(&w) == Some(disk) {
                    n = n + 1;
                    walker = board.neighbour(&w, d);
                    proof {
                        gr = gr + d.row_step();
                        gc = gc + d.col_step();
                    }
                } else {
                    going = false;
                }
            },
        }
    }
    (n, walker)
}

/// Sets `n` cells from the cell next to `from` on in direction `d` to `disk`;
/// those cells hold the other color.
fn paint_run(board: &mut Board, from: &Position, d: Direction, n: usize, disk: Disk)
    requires
        from.on_board(),
        n <= run_length(old(board)@, from.row + d.row_step(), from.col + d.col_step(), d, disk.flipped()),
    ensures
        final(board)@ == paint(old(board)@, from.row + d.row_step(), from.col + d.col_step(), d, n as nat, disk),
{
    let ghost start = board@;
    let ghost mut gr: int = from.row + d.row_step();
    let ghost mut gc: int = from.col + d.col_step();
    let mut walker = board.neighbour(from, d);
    let mut j: usize = 0;
    while j < n
        invariant
            j <= n,
            walker == on_board_at(gr, gc),
            run_length(start, gr, gc, d, disk.flipped()) >= n - j,
            paint(start, from.row + d.row_step(), from.col + d.col_step(), d, n as nat, disk)
                == paint(board@, gr, gc, d, (n - j) as nat, disk),
        decreases n - j,
    {
        let w = walker.unwrap();
        board.set_cell(&w, Some(disk));
        walker = board.neighbour(&w, d);
        proof {
            gr = gr + d.row_step();
            gc = gc + d.col_step();
        }
        j = j + 1;
    }
}

/// The legal moves of `player` on `board`.
fn legal_moves(board: &Board, player: Player) -> (r: Vec<Action>)
    ensures
        r@ == legal_actions(board@, player),
{
    let own = player.disk();
    let opp = player.opponent().disk();
    let dirs = Direction::all();
    let mut r: Vec<Action> = Vec::new();
    let mut i: usize = 0;
    while i < NUM_CELLS
        invariant
            i <= NUM_CELLS,
            own == player.color(),
            opp == player.other().color(),
            dirs@ == all_directions(),
            r@ == actions_upto(board@, player, i as int),
        decreases NUM_CELLS - i,
    {
        let pos = Position { row: i / BOARD_SIZE, col: i % BOARD_SIZE };
        assert(pos == position_at(i as int));
        if board.disk(&pos) == Some(own) {
            let ghost base = r@;
            let mut k: usize = 0;
            while k < 8
                invariant
                    k <= 8,
                    i < NUM_CELLS,
                    pos == position_at(i as int),
                    pos.on_board(),
                    opp == player.other().color(),
                    dirs@ == all_directions(),
                    r@ == base + actions_from(board@, i as int, player, k as int),
                decreases 8 - k,
            {
                let d = dirs[k];
                let (n, end) = walk(board, &pos, d, opp);
                match end {
                    Some(e) => {
                        if n >= 1 && board.disk(&e).is_none() {
                            r.push(Action { player, placement: e });
                        }
                    },
                    None => {},
                }
                k = k + 1;
                assert(r@ =~= base + actions_from(board@, i as int, player, k as int));
            }
        }
        i = i + 1;
        assert(r@ =~= actions_upto(board@, player, i as int));
    }
    r
}

/// Whether neither side has a legal move on `board`.
fn no_moves_left(board: &Board) -> (r: bool)
    ensures
        r == is_terminal(board@),
{
    legal_moves(board, Player::Bot).len() == 0 && legal_moves(board, Player::Human).len() == 0
}

/// The number of disks of `player` on `board`.
fn count_disks(board: &Board, player: Player) -> (r: usize)
    ensures
        r == disk_count(board@, player),
{
    let ps = board.positions(player.disk());
    proof {
        lemma_positions(board@, player.color(), NUM_CELLS as int);
    }
    ps.len()
}

/// The side with more disks on `board`, or `None` on a tie.
fn leader_on(board: &Board) -> (r: Option<Player>)
    ensures
        r == leader(board@),
{
    let num_bot_disks = count_disks(board, Player::Bot);
    let num_human_disks = count_disks(board, Player::Human);
    if num_bot_disks > num_human_disks {
        Some(Player::Bot)
    } else if num_human_disks > num_bot_disks {
        Some(Player::Human)
    } else {
        None
    }
}

/// The summed positional weight of the cells that hold `player`'s disks.
fn placement_total(board: &Board, player: Player) -> (r: i32)
    ensures
        r == placement_score(board@, player),
{
    let ps = board.positions(player.disk());
    proof {
        lemma_positions(board@, player.color(), NUM_CELLS as int);
    }
    let mut sum: i32 = 0;
    let mut j: usize = 0;
    while j < ps.len()
        invariant
            j <= ps.len(),
            ps.len() <= NUM_CELLS,
            ps@ == positions_upto(board@, player.color(), NUM_CELLS as int),
            forall|t: int| 0 <= t < ps.len() ==> (#[trigger] ps@[t]).on_board(),
            sum == weight_sum(ps@.take(j as int)),
            -25 * j <= sum <= 30 * j,
        decreases ps.len() - j,
    {
        assert(ps@.take(j + 1).drop_last() =~= ps@.take(j as int));
        sum = sum + ps[j].weight();
        j = j + 1;
    }
    assert(ps@.take(ps.len() as int) =~= ps@);
    sum
}

// ---------------------------------------------------------------------------
// Game states

/// A state of play: the board, whose turn it is, and the winner once the game is
/// over (`None` both while it goes on and after a tie).
#[derive(Clone, Copy, PartialEq, Eq, Debug, Hash)]
pub struct Game {
    board: Board,
    current_player: Player,
    winner: Option<Player>,
}

impl Game {
    /// The stored winner always agrees with the board.
    #[verifier::type_invariant]
    closed spec fn winner_agrees(self) -> bool {
        self.winner == recorded_winner(self.board@)
    }

    /// The cells of the board, row by row.
    pub closed spec fn cells(self) -> Seq<Option<Disk>> {
        self.board@
    }

    /// The side whose turn it is.
    pub closed spec fn turn(self) -> Player {
        self.current_player
    }

    /// The winner that this state stores.
    pub closed spec fn winner_recorded(self) -> Option<Player> {
        self.winner
    }

    /// Two states with the same cells, turn and stored winner are the same state.
    /// Every state that the library makes stores `recorded_winner` of its cells, so
    /// for those the cells and the turn decide.
    pub proof fn lemma_same_state(a: Game, b: Game)
        requires
            a.cells() == b.cells(),
            a.turn() == b.turn(),
            a.winner_recorded() == b.winner_recorded(),
        ensures
            a == b,
    {
        crate::board::lemma_same_cells(a.board, b.board);
    }

    /// Every state has a full board.
    pub proof fn lemma_cells_len(self)
        ensures
            self.cells().len() == NUM_CELLS,
    {
        self.board.lemma_len();
    }

    /// The starting state: a fresh board, the agent to move.
    pub fn new() -> (r: Game)
        ensures
            r.cells() == crate::board::initial_cells(),
            r.turn() == Player::Bot,
            r.winner_recorded() == recorded_winner(r.cells()),
    {
        Game::parse(Board::new(), Player::Bot)
    }

    /// The state with `board` and `current_player` to move; its winner is worked
    /// out if the game is already over there.
    pub fn parse(board: Board, current_player: Player) -> (r: Game)
        ensures
            r.cells() == board@,
            r.turn() == current_player,
            r.winner_recorded() == recorded_winner(r.cells()),
    {
        let winner = if no_moves_left(&board) {
            leader_on(&board)
        } else {
            None
        };
        Game { board, current_player, winner }
    }

    /// The side whose turn it is.
    pub fn current_player(&self) -> (r: Player)
        ensures
            r == self.turn(),
    {
        self.current_player
    }

    /// The board of this state.
    pub fn board(&self) -> (r: &Board)
        ensures
            r@ == self.cells(),
    {
        &self.board
    }

    /// The legal moves of `player` (see `legal_actions`).
    pub fn actions(&self, player: Player) -> (r: Vec<Action>)
        ensures
            r@ == legal_actions(self.cells(), player),
    {
        legal_moves(&self.board, player)
    }

    /// The state after `action`, which is not checked for legality: its disk is
    /// placed, the flanked disks of each direction flipped, and the turn passes
    /// to the opponent of its player.
    pub fn result(&self, action: &Action) -> (r: Game)
        requires
            action.placement.on_board(),
            self.cells()[action.placement.index()] is None,
        ensures
            r.cells() == play(self.cells(), *action),
            r.turn() == action.player.other(),
            r.winner_recorded() == recorded_winner(r.cells()),
    {
        let mut board = self.board;
        let own = action.player.disk();
        let opp = own.opposite();
        let _ = board.place(own, &action.placement);
        let ghost placed = board@;
        let dirs = Direction::all();
        let mut k: usize = 0;
        while k < 8
            invariant
                k <= 8,
                action.placement.on_board(),
                own == action.player.color(),
                opp == own.flipped(),
                dirs@ == all_directions(),
                placed == self.cells().update(action.placement.index(), Some(own)),
                board@ == flip_directions(placed, action.placement, own, k as int),
            decreases 8 - k,
        {
            let d = dirs[k];
            let (n, end) = walk(&board, &action.placement, d, opp);
            match end {
                Some(e) => {
                    if board.disk(&e) == Some(own) {
                        paint_run(&mut board, &action.placement, d, n, own);
                    }
                },
                None => {},
            }
            k = k + 1;
        }
        Game::parse(board, action.player.opponent())
    }

    /// Whether neither side has a legal move.
    pub fn is_over(&self) -> (r: bool)
        ensures
            r == is_terminal(self.cells()),
    {
        no_moves_left(&self.board)
    }

    /// The side with more disks, or `None` on a tie; asked only of a finished game.
    pub fn winner(&self) -> (r: Option<Player>)
        requires
            is_terminal(self.cells()),
        ensures
            r == leader(self.cells()),
    {
        proof {
            use_type_invariant(self);
        }
        self.winner
    }

    /// The score of a finished game from the agent's side.
    pub fn utility(&self) -> (r: i32)
        requires
            is_terminal(self.cells()),
        ensures
            r == utility_of(self.cells()),
            r == i32::MAX <==> disk_count(self.cells(), Player::Bot) > disk_count(
                self.cells(),
                Player::Human,
            ),
            r == i32::MIN <==> disk_count(self.cells(), Player::Human) > disk_count(
                self.cells(),
                Player::Bot,
            ),
            r == 0 <==> disk_count(self.cells(), Player::Bot) == disk_count(
                self.cells(),
                Player::Human,
            ),
    {
        proof {
            use_type_invariant(self);
        }
        match self.winner {
            Some(Player::Bot) => i32::MAX,
            Some(Player::Human) => i32::MIN,
            None => 0,
        }
    }

    /// The heuristic value of a state that is not finished.
    pub fn evaluate(&self) -> (r: i32)
        requires
            !is_terminal(self.cells()),
        ensures
            r == heuristic(self.cells()),
    {
        proof {
            let cells = self.board@;
            lemma_positions(cells, Player::Bot.color(), NUM_CELLS as int);
            lemma_positions(cells, Player::Human.color(), NUM_CELLS as int);
            lemma_weight_sum_bounds(positions_upto(cells, Player::Bot.color(), NUM_CELLS as int));
            lemma_weight_sum_bounds(positions_upto(cells, Player::Human.color(), NUM_CELLS as int));
            lemma_actions_len(cells, Player::Bot, NUM_CELLS as int);
            lemma_actions_len(cells, Player::Human, NUM_CELLS as int);
        }
        let placement = placement_total(&self.board, Player::Bot) - placement_total(
            &self.board,
            Player::Human,
        );
        let bot_moves = legal_moves(&self.board, Player::Bot).len();
        let human_moves = legal_moves(&self.board, Player::Human).len();
        placement + (bot_moves as i32 - human_moves as i32)
    }
}

} // verus!

use vstd::prelude::*;

use crate::errors::Error;

verus! {

/// Side length of the square board.
pub const BOARD_SIZE: usize = 8;

/// Number of cells on the board.
pub const NUM_CELLS: usize = 64;

/// Whether `(row, col)` lies on the board.
pub open spec fn in_bounds(row: int, col: int) -> bool {
    0 <= row < BOARD_SIZE && 0 <= col < BOARD_SIZE
}

/// Row-major index of the cell `(row, col)`.
pub open spec fn index_of(row: int, col: int) -> int {
    row * BOARD_SIZE + col
}

/// The occupant of `(row, col)` in a row-major sequence of cells.
pub open spec fn cell_at(cells: Seq<Option<Disk>>, row: int, col: int) -> Option<Disk> {
    cells[index_of(row, col)]
}

/// One of the eight compass directions.
#[derive(Clone, Copy, PartialEq, Eq, Structural, Debug, Hash)]
pub enum Direction {
    North,
    NorthEast,
    East,
    SouthEast,
    South,
    SouthWest,
    West,
    NorthWest,
}

/// The eight directions in their fixed enumeration order.
pub open spec fn all_directions() -> Seq<Direction> {
    seq![
        Direction::North,
        Direction::NorthEast,
        Direction::East,
        Direction::SouthEast,
        Direction::South,
        Direction::SouthWest,
        Direction::West,
        Direction::NorthWest,
    ]
}

impl Direction {
    /// Row offset of one step in this direction (north is up, towards row 0).
    pub open spec fn row_step(self) -> int {
        match self {
            Direction::North | Direction::NorthEast | Direction::NorthWest => -1,
            Direction::East | Direction::West => 0,
            Direction::SouthEast | Direction::South | Direction::SouthWest => 1,
        }
    }

    /// Column offset of one step in this direction (east is towards the last column).
    pub open spec fn col_step(self) -> int {
        match self {
            Direction::North | Direction::South => 0,
            Direction::NorthEast | Direction::East | Direction::SouthEast => 1,
            Direction::SouthWest | Direction::West | Direction::NorthWest => -1,
        }
    }

    /// How many more steps in this direction can at most stay on the board from
    /// `(row, col)`, plus one; positive on the board, and one less after a step.
    pub open spec fn steps_left(self, row: int, col: int) -> int {
        match self {
            Direction::North | Direction::NorthEast | Direction::NorthWest => row + 1,
            Direction::SouthEast | Direction::South | Direction::SouthWest => BOARD_SIZE - row,
            Direction::East => BOARD_SIZE - col,
            Direction::West => col + 1,
        }
    }

    /// All eight directions, in the order north, north-east, east, ..., north-west.
    pub fn all() -> (r: Vec<Direction>)
        ensures
            r@ == all_directions(),
    {
        let r = vec![
            Direction::North,
            Direction::NorthEast,
            Direction::East,
            Direction::SouthEast,
            Direction::South,
            Direction::SouthWest,
            Direction::West,
            Direction::NorthWest,
        ];
        assert(r@ =~= all_directions());
        r
    }
}

/// A playing disk: one of the two colors.
#[derive(Clone, Copy, PartialEq, Eq, Structural, Debug, Hash)]
pub enum Disk {
    Dark,
    Light,
}

/// The character that stands for an empty cell in a board's text.
pub open spec fn empty_char() -> char {
    'E'
}

/// The character that stands for a disk in a board's text.
pub open spec fn disk_char(d: Disk) -> char {
    match d {
        Disk::Dark => 'D',
        Disk::Light => 'L',
    }
}

/// The disk that a character stands for, if any.
pub open spec fn disk_of_char(ch: char) -> Option<Disk> {
    if ch == 'D' {
        Some(Disk::Dark)
    } else if ch == 'L' {
        Some(Disk::Light)
    } else {
        None
    }
}

impl Disk {
    /// The other color.
    pub open spec fn flipped(self) -> Disk {
        match self {
            Disk::Dark => Disk::Light,
            Disk::Light => Disk::Dark,
        }
    }

    /// Reads `'D'` as dark and `'L'` as light; any other character is a parse error.
    pub fn parse(ch: char) -> (r: Result<Disk, Error>)
        ensures
            match disk_of_char(ch) {
                Some(d) => r == Ok::<Disk, Error>(d),
                None => r == Err::<Disk, Error>(Error::ParseError),
            },
    {
        if ch == 'D' {
            Ok(Disk::Dark)
        } else if ch == 'L' {
            Ok(Disk::Light)
        } else {
            Err(Error::ParseError)
        }
    }

    /// The opposite color.
    pub fn opposite(&self) -> (r: Disk)
        ensures
            r == self.flipped(),
            r != *self,
    {
        match *self {
            Disk::Dark => Disk::Light,
            Disk::Light => Disk::Dark,
        }
    }

    /// The character of this disk in a board's text.
    pub fn to_char(&self) -> (r: char)
        ensures
            r == disk_char(*self),
    {
        match *self {
            Disk::Dark => 'D',
            Disk::Light => 'L',
        }
    }
}

/// A cell position: row and column, counted from zero at the north-west corner.
#[derive(Clone, Copy, PartialEq, Eq, Structural, Debug, Hash)]
pub struct Position {
    pub row: usize,
    pub col: usize,
}

/// The positional weights of the cells, row by row: corners highest, the cells
/// next to a corner lowest, edges moderate.
pub open spec fn weight_table() -> Seq<Seq<int>> {
    seq![
        seq![30, -25, 10, 5, 5, 10, -25, 30],
        seq![-25, -25, 1, 1, 1, 1, -25, -25],
        seq![10, 1, 5, 2, 2, 5, 1, 10],
        seq![5, 1, 2, 1, 1, 2, 1, 5],
        seq![5, 1, 2, 1, 1, 2, 1, 5],
        seq![10, 1, 5, 2, 2, 5, 1, 10],
        seq![-25, -25, 1, 1, 1, 1, -25, -25],
        seq![30, -25, 10, 5, 5, 10, -25, 30],
    ]
}

/// The positional weight of the cell `(row, col)`.
pub open spec fn weight_of(row: int, col: int) -> int {
    weight_table()[row][col]
}

/// Every weight on the board lies between -25 and 30.
pub proof fn lemma_weight_range(row: int, col: int)
    requires
        in_bounds(row, col),
    ensures
        -25 <= weight_of(row, col) <= 30,
{
    let t = weight_table();
    assert(t[row] == weight_table()[row]);
}

/// The direction in which `target` lies seen from `from`; a position to the
/// east or the west on the same row counts by its column alone.
pub open spec fn direction_towards(from: Position, target: Position) -> Direction {
    if target.row < from.row {
        if target.col < from.col {
            Direction::NorthWest
        } else if target.col == from.col {
            Direction::North
        } else {
            Direction::NorthEast
        }
    } else if target.row == from.row {
        if target.col < from.col {
            Direction::West
        } else {
            Direction::East
        }
    } else {
        if target.col < from.col {
            Direction::SouthWest
        } else if target.col == from.col {
            Direction::South
        } else {
            Direction::SouthEast
        }
    }
}

/// The letter of a column in a position's text.
pub open spec fn column_letters() -> Seq<char> {
    seq!['A', 'B', 'C', 'D', 'E', 'F', 'G', 'H']
}

/// The digit of a row in a position's text (row 0 is `'1'`).
pub open spec fn row_digits() -> Seq<char> {
    seq!['1', '2', '3', '4', '5', '6', '7', '8']
}

/// The text of an on-board position: column letter, then row number.
pub open spec fn position_text(p: Position) -> Seq<char> {
    seq![column_letters()[p.col as int], row_digits()[p.row as int]]
}

/// The column that a letter `A`..`H` names.
pub open spec fn column_of_letter(ch: char) -> Option<usize> {
    if ch == 'A' { Some(0usize) }
    else if ch == 'B' { Some(1usize) }
    else if ch == 'C' { Some(2usize) }
    else if ch == 'D' { Some(3usize) }
    else if ch == 'E' { Some(4usize) }
    else if ch == 'F' { Some(5usize) }
    else if ch == 'G' { Some(6usize) }
    else if ch == 'H' { Some(7usize) }
    else { None }
}

/// The row that a digit `1`..`8` names.
pub open spec fn row_of_digit(ch: char) -> Option<usize> {
    if ch == '1' { Some(0usize) }
    else if ch == '2' { Some(1usize) }
    else if ch == '3' { Some(2usize) }
    else if ch == '4' { Some(3usize) }
    else if ch == '5' { Some(4usize) }
    else if ch == '6' { Some(5usize) }
    else if ch == '7' { Some(6usize) }
    else if ch == '8' { Some(7usize) }
    else { None }
}

/// The position that a text names, if it is a column letter and a row number.
pub open spec fn position_of_text(s: Seq<char>) -> Option<Position> {
    if s.len() == 2 && column_of_letter(s[0]) is Some && row_of_digit(s[1]) is Some {
        Some(Position { row: row_of_digit(s[1])->0, col: column_of_letter(s[0])->0 })
    } else {
        None
    }
}

fn column_from_letter(ch: char) -> (r: Option<usize>)
    ensures
        r == column_of_letter(ch),
{
    match ch {
        'A' => Some(0),
        'B' => Some(1),
        'C' => Some(2),
        'D' => Some(3),
        'E' => Some(4),
        'F' => Some(5),
        'G' => Some(6),
        'H' => Some(7),
        _ => None,
    }
}

fn row_from_digit(ch: char) -> (r: Option<usize>)
    ensures
        r == row_of_digit(ch),
{
    match ch {
        '1' => Some(0),
        '2' => Some(1),
        '3' => Some(2),
        '4' => Some(3),
        '5' => Some(4),
        '6' => Some(5),
        '7' => Some(6),
        '8' => Some(7),
        _ => None,
    }
}

impl Position {
    /// Whether this position lies on the board.
    pub open spec fn on_board(self) -> bool {
        self.row < BOARD_SIZE && self.col < BOARD_SIZE
    }

    /// Row-major index of this position.
    pub open spec fn index(self) -> int {
        index_of(self.row as int, self.col as int)
    }

    pub fn new(row: usize, col: usize) -> (r: Position)
        ensures
            r.row == row,
            r.col == col,
    {
        Position { row, col }
    }

    /// Whether this position lies on the board.
    pub fn is_inbound(&self) -> (r: bool)
        ensures
            r == self.on_board(),
    {
        self.row < BOARD_SIZE && self.col < BOARD_SIZE
    }

    /// The direction towards `target`, which must differ from this position.
    pub fn direction(&self, target: &Position) -> (r: Direction)
        requires
            *self != *target,
        ensures
            r == direction_towards(*self, *target),
    {
        if target.row < self.row {
            if target.col < self.col {
                Direction::NorthWest
            } else if target.col == self.col {
                Direction::North
            } else {
                Direction::NorthEast
            }
        } else if target.row == self.row {
            if target.col < self.col {
                Direction::West
            } else {
                Direction::East
            }
        } else {
            if target.col < self.col {
                Direction::SouthWest
            } else if target.col == self.col {
                Direction::South
            } else {
                Direction::SouthEast
            }
        }
    }

    /// The positional weight of this cell.
    pub fn weight(&self) -> (r: i32)
        requires
            self.on_board(),
        ensures
            r == weight_of(self.row as int, self.col as int),
    {
        let weights: [[i32; BOARD_SIZE]; BOARD_SIZE] = [
            [30, -25, 10, 5, 5, 10, -25, 30],
            [-25, -25, 1, 1, 1, 1, -25, -25],
            [10, 1, 5, 2, 2, 5, 1, 10],
            [5, 1, 2, 1, 1, 2, 1, 5],
            [5, 1, 2, 1, 1, 2, 1, 5],
            [10, 1, 5, 2, 2, 5, 1, 10],
            [-25, -25, 1, 1, 1, 1, -25, -25],
            [30, -25, 10, 5, 5, 10, -25, 30],
        ];
        weights[self.row][self.col]
    }

    /// The text of this position: its column letter and its row number, as `"B1"`
    /// for row 0, column 1.
    pub fn to_string(&self) -> (r: String)
        requires
            self.on_board(),
        ensures
            r@ == position_text(*self),
    {
        let letters = "ABCDEFGH";
        let digits = "12345678";
        proof {
            reveal_strlit("ABCDEFGH");
            reveal_strlit("12345678");
        }
        let mut r = String::new();
        r.append(letters.substring_char(self.col, self.col + 1));
        r.append(digits.substring_char(self.row, self.row + 1));
        assert(r@ =~= position_text(*self));
        r
    }

    /// Reads a column letter `A`..`H` followed by a row number `1`..`8`.
    pub fn parse(text: &str) -> (r: Result<Position, Error>)
        ensures
            match position_of_text(text@) {
                Some(p) => r == Ok::<Position, Error>(p),
                None => r == Err::<Position, Error>(Error::ParseError),
            },
    {
        if text.unicode_len() != 2 {
            return Err(Error::ParseError);
        }
        let col = column_from_letter(text.get_char(0));
        let row = row_from_digit(text.get_char(1));
        match (col, row) {
            (Some(col), Some(row)) => Ok(Position { row, col }),
            _ => Err(Error::ParseError),
        }
    }
}

/// The cells of a fresh board: dark on the two cells of the main diagonal of the
/// center square, light on the other two, everything else empty.
pub open spec fn initial_cells() -> Seq<Option<Disk>> {
    Seq::new(
        NUM_CELLS as nat,
        |i: int|
            if i == index_of(3, 3) || i == index_of(4, 4) {
                Some(Disk::Dark)
            } else if i == index_of(3, 4) || i == index_of(4, 3) {
                Some(Disk::Light)
            } else {
                None
            },
    )
}

/// The position of the cell with row-major index `i`.
pub open spec fn position_at(i: int) -> Position {
    Position { row: (i / BOARD_SIZE as int) as usize, col: (i % BOARD_SIZE as int) as usize }
}

/// The positions, in row-major order, of the first `n` cells that hold `disk`.
pub open spec fn positions_upto(cells: Seq<Option<Disk>>, disk: Disk, n: int) -> Seq<Position>
    decreases n,
{
    if n <= 0 {
        Seq::empty()
    } else {
        positions_upto(cells, disk, n - 1) + if cells[n - 1] == Some(disk) {
            seq![position_at(n - 1)]
        } else {
            Seq::empty()
        }
    }
}

/// The `k`-th of the nine cells of the 3x3 square centred on `p`, row by row.
pub open spec fn square_cell(p: Position, k: int) -> (int, int) {
    (p.row + k / 3 - 1, p.col + k % 3 - 1)
}

/// The on-board cells among the first `k` cells of the square around `p`,
/// leaving out `p` itself.
pub open spec fn neighbours_upto(p: Position, k: int) -> Seq<Position>
    decreases k,
{
    if k <= 0 {
        Seq::empty()
    } else {
        let (r, c) = square_cell(p, k - 1);
        neighbours_upto(p, k - 1) + if k - 1 != 4 && in_bounds(r, c) {
            seq![Position { row: r as usize, col: c as usize }]
        } else {
            Seq::empty()
        }
    }
}

/// The cell one step from `p` in direction `d`, if it is on the board.
pub open spec fn step_from(p: Position, d: Direction) -> Option<Position> {
    let r = p.row + d.row_step();
    let c = p.col + d.col_step();
    if in_bounds(r, c) {
        Some(Position { row: r as usize, col: c as usize })
    } else {
        None
    }
}

/// The character that stands for a cell in a board's text.
pub open spec fn cell_char(c: Option<Disk>) -> char {
    match c {
        None => empty_char(),
        Some(d) => disk_char(d),
    }
}

/// The cell that a character of a board's text stands for, if any.
pub open spec fn cell_of_char(ch: char) -> Option<Option<Disk>> {
    if ch == empty_char() {
        Some(None)
    } else {
        match disk_of_char(ch) {
            Some(d) => Some(Some(d)),
            None => None,
        }
    }
}

/// The text of the first `n` cells: one character per cell, and a newline
/// between two rows.
pub open spec fn text_upto(cells: Seq<Option<Disk>>, n: int) -> Seq<char>
    decreases n,
{
    if n <= 0 {
        Seq::empty()
    } else {
        text_upto(cells, n - 1) + if n - 1 > 0 && (n - 1) % BOARD_SIZE as int == 0 {
            seq!['\n']
        } else {
            Seq::empty()
        } + seq![cell_char(cells[n - 1])]
    }
}

/// The text of a board: its rows from north to south, one character per cell,
/// separated by newlines (no newline after the last row).
pub open spec fn board_text(cells: Seq<Option<Disk>>) -> Seq<char> {
    text_upto(cells, NUM_CELLS as int)
}

/// Where a reader of a board's text stands: the row and column that the next
/// cell character goes to, and the cells read so far.
pub type ParseState = (int, int, Seq<Option<Disk>>);

/// One character of a board's text read: a newline moves to the start of the
/// next row; a cell character writes the current cell and moves one column on;
/// a character that stands for no cell, or a cell off the board, fails.
pub open spec fn parse_step(st: Option<ParseState>, ch: char) -> Option<ParseState> {
    match st {
        None => None,
        Some((r, c, cells)) => {
            if ch == '\n' {
                Some((r + 1, 0, cells))
            } else {
                match cell_of_char(ch) {
                    Some(cell) => if in_bounds(r, c) {
                        Some((r, c + 1, cells.update(index_of(r, c), cell)))
                    } else {
                        None
                    },
                    None => None,
                }
            }
        },
    }
}

/// A board's text read from its start; cells that the text does not reach keep
/// their value on a fresh board.
pub open spec fn parse_chars(s: Seq<char>) -> Option<ParseState>
    decreases s.len(),
{
    if s.len() == 0 {
        Some((0, 0, initial_cells()))
    } else {
        parse_step(parse_chars(s.drop_last()), s.last())
    }
}

/// A square grid of cells, each empty or holding one disk.
#[derive(Clone, Copy, PartialEq, Eq, Debug, Hash)]
pub struct Board {
    cells: [Option<Disk>; NUM_CELLS],
}

impl View for Board {
    type V = Seq<Option<Disk>>;

    /// The cells in row-major order.
    closed spec fn view(&self) -> Seq<Option<Disk>> {
        self.cells@
    }
}

impl Board {
    /// The cell sequence of every board has one entry per cell.
    pub proof fn lemma_len(&self)
        ensures
            self@.len() == NUM_CELLS,
    {
    }

    /// A fresh board with the four starting disks.
    pub fn new() -> (r: Board)
        ensures
            r@ == initial_cells(),
    {
        let mut cells: [Option<Disk>; NUM_CELLS] = [None; NUM_CELLS];
        cells[27] = Some(Disk::Dark);
        cells[28] = Some(Disk::Light);
        cells[35] = Some(Disk::Light);
        cells[36] = Some(Disk::Dark);
        let r = Board { cells };
        assert(r@ =~= initial_cells());
        r
    }

    /// The occupant of an on-board position.
    pub fn disk(&self, pos: &Position) -> (r: Option<Disk>)
        requires
            pos.on_board(),
        ensures
            r == self@[pos.index()],
    {
        self.cells[pos.row * BOARD_SIZE + pos.col]
    }

    /// Writes `disk` at `pos`, unless a disk is there already.
    pub fn place(&mut self, disk: Disk, pos: &Position) -> (r: Result<(), Error>)
        requires
            pos.on_board(),
        ensures
            old(self)@[pos.index()] is Some ==> r == Err::<(), Error>(Error::InvalidArgument)
                && final(self)@ == old(self)@,
            old(self)@[pos.index()] is None ==> r is Ok && final(self)@ == old(self)@.update(
                pos.index(),
                Some(disk),
            ),
    {
        let i = pos.row * BOARD_SIZE + pos.col;
        if self.cells[i].is_some() {
            return Err(Error::InvalidArgument);
        }
        self.cells[i] = Some(disk);
        Ok(())
    }

    /// Turns the disk at `pos` to the other color; an empty cell is an error.
    pub fn flip(&mut self, pos: &Position) -> (r: Result<(), Error>)
        requires
            pos.on_board(),
        ensures
            match old(self)@[pos.index()] {
                None => r == Err::<(), Error>(Error::InvalidArgument) && final(self)@ == old(self)@,
                Some(d) => r is Ok && final(self)@ == old(self)@.update(pos.index(), Some(d.flipped())),
            },
    {
        let i = pos.row * BOARD_SIZE + pos.col;
        match self.cells[i] {
            None => Err(Error::InvalidArgument),
            Some(d) => {
                self.cells[i] = Some(d.opposite());
                Ok(())
            },
        }
    }

    /// Writes `cell` at `pos`, whatever was there.
    pub(crate) fn set_cell(&mut self, pos: &Position, cell: Option<Disk>)
        requires
            pos.on_board(),
        ensures
            final(self)@ == old(self)@.update(pos.index(), cell),
    {
        self.cells[pos.row * BOARD_SIZE + pos.col] = cell;
    }

    /// Empties every cell.
    pub fn clear(&mut self)
        ensures
            final(self)@ == Seq::new(NUM_CELLS as nat, |i: int| None::<Disk>),
    {
        self.cells = [None; NUM_CELLS];
        assert(self@ =~= Seq::new(NUM_CELLS as nat, |i: int| None::<Disk>));
    }

    /// The positions of every cell that holds `disk`, in row-major order.
    pub fn positions(&self, disk: Disk) -> (r: Vec<Position>)
        ensures
            r@ == positions_upto(self@, disk, NUM_CELLS as int),
    {
        let mut r: Vec<Position> = Vec::new();
        let mut i: usize = 0;
        while i < NUM_CELLS
            invariant
                i <= NUM_CELLS,
                r@ == positions_upto(self@, disk, i as int),
            decreases NUM_CELLS - i,
        {
            if self.cells[i] == Some(disk) {
                r.push(Position { row: i / BOARD_SIZE, col: i % BOARD_SIZE });
            }
            i = i + 1;
        }
        r
    }

    /// The on-board cells adjacent to `pos`, row by row, without `pos` itself.
    pub fn neighbours(&self, pos: &Position) -> (r: Vec<Position>)
        requires
            pos.on_board(),
        ensures
            r@ == neighbours_upto(*pos, 9),
    {
        let mut r: Vec<Position> = Vec::new();
        let mut k: usize = 0;
        while k < 9
            invariant
                k <= 9,
                pos.on_board(),
                r@ == neighbours_upto(*pos, k as int),
            decreases 9 - k,
        {
            let i = k / 3;
            let j = k % 3;
            if k != 4 && pos.row + i >= 1 && pos.row + i <= BOARD_SIZE && pos.col + j >= 1
                && pos.col + j <= BOARD_SIZE {
                r.push(Position { row: pos.row + i - 1, col: pos.col + j - 1 });
            }
            k = k + 1;
        }
        r
    }

    /// The cell next to `pos` in direction `dir`, or `None` off the board.
    pub fn neighbour(&self, pos: &Position, dir: Direction) -> (r: Option<Position>)
        requires
            pos.on_board(),
        ensures
            r == step_from(*pos, dir),
    {
        step(pos, dir)
    }

    /// The text of this board: one line per row, `'E'` for an empty cell and
    /// the disk's character otherwise, the lines separated by newlines.
    pub fn to_string(&self) -> (r: String)
        ensures
            r@ == board_text(self@),
    {
        let mut r = String::new();
        let mut i: usize = 0;
        while i < NUM_CELLS
            invariant
                i <= NUM_CELLS,
                r@ == text_upto(self@, i as int),
            decreases NUM_CELLS - i,
        {
            let ghost before = r@;
            proof {
                reveal_strlit("E");
                reveal_strlit("D");
                reveal_strlit("L");
                reveal_strlit("\n");
            }
            if i > 0 && i % BOARD_SIZE == 0 {
                r.append("\n");
            }
            let ghost sep = r@;
            match self.cells[i] {
                None => r.append("E"),
                Some(Disk::Dark) => r.append("D"),
                Some(Disk::Light) => r.append("L"),
            }
            assert(r@ =~= sep + seq![cell_char(self@[i as int])]);
            i = i + 1;
            assert(r@ =~= text_upto(self@, i as int));
        }
        r
    }

    /// Reads a board's text (see `to_string`). A line may stop short: the cells
    /// it does not reach keep their value on a fresh board. A character other
    /// than `'E'`, `'D'`, `'L'` or a newline, or a cell beyond the last row or
    /// column, is a parse error.
    pub fn parse(data: String) -> (r: Result<Board, Error>)
        ensures
            match parse_chars(data@) {
                Some(st) => r is Ok && r->Ok_0@ == st.2,
                None => r == Err::<Board, Error>(Error::ParseError),
            },
    {
        let text = data.as_str();
        let n = text.unicode_len();
        let mut board = Board::new();
        let mut row: usize = 0;
        let mut col: usize = 0;
        let mut i: usize = 0;
        assert(data@.take(0) =~= Seq::<char>::empty());
        while i < n
            invariant
                n == data@.len(),
                text@ == data@,
                i <= n,
                row <= i,
                col <= BOARD_SIZE,
                parse_chars(data@.take(i as int)) == Some((row as int, col as int, board@)),
            decreases n - i,
        {
            let ch = text.get_char(i);
            assert(data@.take(i + 1).drop_last() =~= data@.take(i as int));
            if ch == '\n' {
                row = row + 1;
                col = 0;
            } else {
                let cell = if ch == 'E' {
                    None
                } else {
                    match Disk::parse(ch) {
                        Ok(d) => Some(d),
                        Err(e) => {
                            proof {
                                lemma_parse_failure_stays(data@, i as int + 1);
                            }
                            return Err(e);
                        },
                    }
                };
                if row >= BOARD_SIZE || col >= BOARD_SIZE {
                    proof {
                        lemma_parse_failure_stays(data@, i as int + 1);
                    }
                    return Err(Error::ParseError);
                }
                board.cells[row * BOARD_SIZE + col] = cell;
                col = col + 1;
            }
            i = i + 1;
        }
        assert(data@.take(n as int) =~= data@);
        Ok(board)
    }
}

fn step(pos: &Position, dir: Direction) -> (r: Option<Position>)
    requires
        pos.on_board(),
    ensures
        r == step_from(*pos, dir),
{
    let (dr, dc): (i64, i64) = match dir {
        Direction::North => (-1, 0),
        Direction::NorthEast => (-1, 1),
        Direction::East => (0, 1),
        Direction::SouthEast => (1, 1),
        Direction::South => (1, 0),
        Direction::SouthWest => (1, -1),
        Direction::West => (0, -1),
        Direction::NorthWest => (-1, -1),
    };
    let r = pos.row as i64 + dr;
    let c = pos.col as i64 + dc;
    if 0 <= r && r < BOARD_SIZE as i64 && 0 <= c && c < BOARD_SIZE as i64 {
        Some(Position { row: r as usize, col: c as usize })
    } else {
        None
    }
}

/// Once reading a text has failed, reading any longer prefix of it fails too.
proof fn lemma_parse_failure_stays(s: Seq<char>, i: int)
    requires
        0 <= i <= s.len(),
        parse_chars(s.take(i)) is None,
    ensures
        parse_chars(s) is None,
    decreases s.len() - i,
{
    if i < s.len() {
        assert(s.take(i + 1).drop_last() =~= s.take(i));
        lemma_parse_failure_stays(s, i + 1);
    } else {
        assert(s.take(i) =~= s);
    }
}

/// The first `n` cells taken from `cells`, the rest from a fresh board.
pub open spec fn cells_read(cells: Seq<Option<Disk>>, n: int) -> Seq<Option<Disk>> {
    Seq::new(NUM_CELLS as nat, |i: int| if i < n { cells[i] } else { initial_cells()[i] })
}

proof fn lemma_parse_push(x: Seq<char>, a: char)
    ensures
        parse_chars(x.push(a)) == parse_step(parse_chars(x), a),
{
    assert(x.push(a).drop_last() =~= x);
}

/// Where reading the text of the first `n` cells stands: at the start for no
/// cell, and just after the last cell read otherwise.
spec fn row_after(n: int) -> int {
    if n == 0 { 0 } else { (n - 1) / 8 }
}

spec fn col_after(n: int) -> int {
    if n == 0 { 0 } else { (n - 1) % 8 + 1 }
}

/// Reading the text of the first `n` cells stands just after the last of them,
/// with those cells read.
proof fn lemma_text_prefix(cells: Seq<Option<Disk>>, n: int)
    requires
        cells.len() == NUM_CELLS,
        0 <= n <= NUM_CELLS,
    ensures
        parse_chars(text_upto(cells, n)) == Some((row_after(n), col_after(n), cells_read(cells, n))),
    decreases n,
{
    if n == 0 {
        assert(cells_read(cells, 0) =~= initial_cells());
    } else {
        let m = n - 1;
        lemma_text_prefix(cells, m);
        let x = text_upto(cells, m);
        let a = cell_char(cells[m]);
        assert(m / 8 * 8 + m % 8 == m);
        assert(in_bounds(m / 8, m % 8));
        assert(cell_of_char(a) == Some(cells[m]));
        assert(cells_read(cells, m).update(index_of(m / 8, m % 8), cells[m]) =~= cells_read(
            cells,
            n,
        ));
        if m > 0 && m % 8 == 0 {
            lemma_parse_push(x, '\n');
            lemma_parse_push(x.push('\n'), a);
            assert(text_upto(cells, n) =~= x.push('\n').push(a));
            assert((m - 1) / 8 + 1 == m / 8);
        } else {
            lemma_parse_push(x, a);
            assert(text_upto(cells, n) =~= x.push(a));
            if m > 0 {
                assert((m - 1) / 8 == m / 8 && (m - 1) % 8 + 1 == m % 8);
            }
        }
        assert(m / 8 == (n - 1) / 8 && m % 8 + 1 == (n - 1) % 8 + 1);
    }
}

/// Two boards with the same cells are the same board.
pub proof fn lemma_same_cells(a: Board, b: Board)
    requires
        a@ == b@,
    ensures
        a == b,
{
    assert(a.cells =~= b.cells);
}

/// Reading the text of a board gives back exactly its cells, and so the board
/// itself (see `lemma_same_cells`).
pub proof fn lemma_text_round_trip(b: Board)
    ensures
        parse_chars(board_text(b@)) == Some((BOARD_SIZE - 1, BOARD_SIZE as int, b@)),
{
    b.lemma_len();
    lemma_text_prefix(b@, NUM_CELLS as int);
    assert(cells_read(b@, NUM_CELLS as int) =~= b@);
}

} // verus!

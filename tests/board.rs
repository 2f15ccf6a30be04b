use othello::board::Direction::{
    East, North, NorthEast, NorthWest, South, SouthEast, SouthWest, West,
};
use othello::board::{Board, Direction, Disk, Position, BOARD_SIZE};
use othello::errors::Error;

#[test]
fn new() {
    let board = Board::new();

    assert_eq!(BOARD_SIZE, 8);

    assert_eq!(board.disk(&Position::new(3, 3)), Some(Disk::Dark));
    assert_eq!(board.disk(&Position::new(4, 4)), Some(Disk::Dark));
    assert_eq!(board.disk(&Position::new(3, 4)), Some(Disk::Light));
    assert_eq!(board.disk(&Position::new(4, 3)), Some(Disk::Light));

    assert_eq!(
        board.to_string(),
        "\
        EEEEEEEE\n\
        EEEEEEEE\n\
        EEEEEEEE\n\
        EEEDLEEE\n\
        EEELDEEE\n\
        EEEEEEEE\n\
        EEEEEEEE\n\
        EEEEEEEE\
        "
    )
}

#[test]
fn disk() {
    let mut board = Board::new();

    let pos = Position::new(0, 0);
    assert!(board.disk(&pos).is_none());

    board.place(Disk::Dark, &pos).unwrap();
    assert_eq!(board.disk(&pos), Some(Disk::Dark));
}

#[test]
fn flip() {
    let mut board = Board::new();

    let pos = Position::new(0, 0);
    assert!(board.flip(&pos).is_err());

    board.place(Disk::Dark, &pos).unwrap();
    assert!(board.flip(&pos).is_ok());
    assert_eq!(board.disk(&pos), Some(Disk::Light));

    assert!(board.flip(&pos).is_ok());
    assert_eq!(board.disk(&pos), Some(Disk::Dark));
}

fn neighbour_names(board: &Board, pos: &Position) -> Vec<String> {
    board.neighbours(pos).iter().map(|p| p.to_string()).collect()
}

#[test]
fn neighbours() {
    let board = Board::new();

    let pos = Position::new(0, 0);
    assert_eq!(neighbour_names(&board, &pos), vec!["B1", "A2", "B2"]);

    let pos = Position::new(0, BOARD_SIZE - 1);
    assert_eq!(neighbour_names(&board, &pos), vec!["G1", "G2", "H2"]);

    let pos = Position::new(BOARD_SIZE - 1, 0);
    assert_eq!(neighbour_names(&board, &pos), vec!["A7", "B7", "B8"]);

    let pos = Position::new(BOARD_SIZE - 1, BOARD_SIZE - 1);
    assert_eq!(neighbour_names(&board, &pos), vec!["G7", "H7", "G8"]);

    let pos = Position::new(0, 3);
    assert_eq!(neighbour_names(&board, &pos), vec!["C1", "E1", "C2", "D2", "E2"]);

    let pos = Position::new(3, BOARD_SIZE - 1);
    assert_eq!(neighbour_names(&board, &pos), vec!["G3", "H3", "G4", "G5", "H5"]);

    let pos = Position::new(BOARD_SIZE - 1, 3);
    assert_eq!(neighbour_names(&board, &pos), vec!["C7", "D7", "E7", "C8", "E8"]);

    let pos = Position::new(3, 0);
    assert_eq!(neighbour_names(&board, &pos), vec!["A3", "B3", "B4", "A5", "B5"]);

    let pos = Position::new(3, 3);
    assert_eq!(
        neighbour_names(&board, &pos),
        vec!["C3", "D3", "E3", "C4", "E4", "C5", "D5", "E5"]
    );
}

fn neighbour_name(board: &Board, pos: &Position, dir: Direction) -> Option<String> {
    board.neighbour(pos, dir).map(|p| p.to_string())
}

#[test]
fn neighbour() {
    let board = Board::new();

    let pos = Position::new(3, 3);
    assert_eq!(neighbour_name(&board, &pos, North), Some("D3".to_string()));
    assert_eq!(neighbour_name(&board, &pos, NorthEast), Some("E3".to_string()));
    assert_eq!(neighbour_name(&board, &pos, East), Some("E4".to_string()));
    assert_eq!(neighbour_name(&board, &pos, SouthEast), Some("E5".to_string()));
    assert_eq!(neighbour_name(&board, &pos, South), Some("D5".to_string()));
    assert_eq!(neighbour_name(&board, &pos, SouthWest), Some("C5".to_string()));
    assert_eq!(neighbour_name(&board, &pos, West), Some("C4".to_string()));
    assert_eq!(neighbour_name(&board, &pos, NorthWest), Some("C3".to_string()));

    let pos = Position::new(0, 0);
    assert_eq!(neighbour_name(&board, &pos, North), None);
    assert_eq!(neighbour_name(&board, &pos, NorthEast), None);
    assert_eq!(neighbour_name(&board, &pos, SouthWest), None);
    assert_eq!(neighbour_name(&board, &pos, West), None);
    assert_eq!(neighbour_name(&board, &pos, NorthWest), None);

    let pos = Position::new(BOARD_SIZE - 1, BOARD_SIZE - 1);
    assert_eq!(neighbour_name(&board, &pos, NorthEast), None);
    assert_eq!(neighbour_name(&board, &pos, East), None);
    assert_eq!(neighbour_name(&board, &pos, SouthEast), None);
    assert_eq!(neighbour_name(&board, &pos, South), None);
    assert_eq!(neighbour_name(&board, &pos, SouthWest), None);
}

#[test]
fn positions() {
    let mut board = Board::new();
    board.clear();

    board.place(Disk::Dark, &Position::new(0, 0)).unwrap();
    board.place(Disk::Dark, &Position::new(1, 1)).unwrap();
    board.place(Disk::Light, &Position::new(2, 2)).unwrap();

    let names: Vec<String> = board.positions(Disk::Dark).iter().map(|p| p.to_string()).collect();
    assert_eq!(names, vec!["A1", "B2"]);
}

#[test]
fn direction() {
    let center = Position::new(BOARD_SIZE / 2, BOARD_SIZE / 2);

    let target = Position::new(center.row - 2, center.col - 2);
    assert_eq!(center.direction(&target), NorthWest);

    let target = Position::new(center.row, center.col - 2);
    assert_eq!(center.direction(&target), West);

    let target = Position::new(center.row + 2, center.col - 2);
    assert_eq!(center.direction(&target), SouthWest);

    let target = Position::new(center.row + 2, center.col);
    assert_eq!(center.direction(&target), South);

    let target = Position::new(center.row + 2, center.col + 2);
    assert_eq!(center.direction(&target), SouthEast);

    let target = Position::new(center.row, center.col + 2);
    assert_eq!(center.direction(&target), East);

    let target = Position::new(center.row - 2, center.col + 2);
    assert_eq!(center.direction(&target), NorthEast);

    let target = Position::new(center.row - 2, center.col);
    assert_eq!(center.direction(&target), North);
}

#[test]
fn all_directions_in_order() {
    assert_eq!(
        Direction::all(),
        vec![North, NorthEast, East, SouthEast, South, SouthWest, West, NorthWest]
    );
}

#[test]
fn disk_parse_and_opposite() {
    assert_eq!(Disk::parse('D'), Ok(Disk::Dark));
    assert_eq!(Disk::parse('L'), Ok(Disk::Light));
    assert_eq!(Disk::parse('E'), Err(Error::ParseError));
    assert_eq!(Disk::Dark.opposite(), Disk::Light);
    assert_eq!(Disk::Light.opposite(), Disk::Dark);
    assert_eq!(Disk::Dark.to_char(), 'D');
}

#[test]
fn place_on_occupied_cell_fails() {
    let mut board = Board::new();
    let pos = Position::new(3, 3);
    assert_eq!(board.place(Disk::Light, &pos), Err(Error::InvalidArgument));
    assert_eq!(board.disk(&pos), Some(Disk::Dark));
}

#[test]
fn weights() {
    assert_eq!(Position::new(0, 0).weight(), 30);
    assert_eq!(Position::new(7, 7).weight(), 30);
    assert_eq!(Position::new(1, 1).weight(), -25);
    assert_eq!(Position::new(0, 1).weight(), -25);
    assert_eq!(Position::new(6, 7).weight(), -25);
    assert_eq!(Position::new(0, 2).weight(), 10);
    assert_eq!(Position::new(0, 3).weight(), 5);
    assert_eq!(Position::new(1, 3).weight(), 1);
    assert_eq!(Position::new(2, 2).weight(), 5);
    assert_eq!(Position::new(2, 3).weight(), 2);
    assert_eq!(Position::new(4, 4).weight(), 1);
}

#[test]
fn position_text() {
    assert_eq!(Position::new(0, 0).to_string(), "A1");
    assert_eq!(Position::new(7, 7).to_string(), "H8");
    assert_eq!(Position::new(2, 3).to_string(), "D3");
    assert_eq!(Position::parse("D3"), Ok(Position::new(2, 3)));
    assert_eq!(Position::parse("H8"), Ok(Position::new(7, 7)));
    assert_eq!(Position::parse("I1"), Err(Error::ParseError));
    assert_eq!(Position::parse("A9"), Err(Error::ParseError));
    assert_eq!(Position::parse("A10"), Err(Error::ParseError));
    assert_eq!(Position::parse(""), Err(Error::ParseError));
}

#[test]
fn text_round_trip() {
    let board = Board::new();
    assert_eq!(Board::parse(board.to_string()), Ok(board));

    let mut board = Board::new();
    board.clear();
    board.place(Disk::Light, &Position::new(0, 0)).unwrap();
    board.place(Disk::Dark, &Position::new(7, 7)).unwrap();
    board.place(Disk::Dark, &Position::new(2, 5)).unwrap();
    assert_eq!(Board::parse(board.to_string()), Ok(board));
}

#[test]
fn parse_without_final_newline() {
    let text = "LEEEEEEE\nEEEEEEEE\nEEEEEEEE\nEEEEEEEE\nEEEEEEEE\nEEEEEEEE\nEEEEEEEE\nEEEEEEED";
    let board = Board::parse(text.to_string()).unwrap();
    assert_eq!(board.disk(&Position::new(0, 0)), Some(Disk::Light));
    assert_eq!(board.disk(&Position::new(7, 7)), Some(Disk::Dark));
    assert_eq!(board.disk(&Position::new(3, 3)), None);
    assert_eq!(board.to_string(), text);
}

#[test]
fn parse_short_text_keeps_fresh_cells() {
    let board = Board::parse("L".to_string()).unwrap();
    assert_eq!(board.disk(&Position::new(0, 0)), Some(Disk::Light));
    assert_eq!(board.disk(&Position::new(3, 3)), Some(Disk::Dark));
    assert_eq!(board.disk(&Position::new(3, 4)), Some(Disk::Light));
}

#[test]
fn parse_errors() {
    assert_eq!(Board::parse("EEX".to_string()), Err(Error::ParseError));
    assert_eq!(Board::parse("EEEEEEEEE".to_string()), Err(Error::ParseError));
    assert_eq!(Board::parse("E\nE\nE\nE\nE\nE\nE\nE\nE".to_string()), Err(Error::ParseError));
    assert_eq!(Board::parse("\n\n\n\n\n\n\n\n".to_string()), Ok(Board::new()));
}

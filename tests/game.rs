use itertools::Itertools;

use othello::board::{Board, Disk, Position, BOARD_SIZE};
use othello::errors::Error;
use othello::game::{Action, Game, Player};

fn placements(game: &Game, player: Player) -> Vec<String> {
    game.actions(player)
        .iter()
        .map(|a| format!("{},{}", a.placement.row, a.placement.col))
        .sorted()
        .collect_vec()
}

fn count(game: &Game, player: Player) -> usize {
    game.board().positions(player.disk()).len()
}

#[test]
fn game_actions() {
    let game = Game::new();
    assert_eq!(
        placements(&game, Player::Bot),
        vec!["2,3", "3,2", "4,5", "5,4"].into_iter().map(|s| s.to_string()).sorted().collect_vec()
    );

    // The side that plays dark has the mirrored opening moves.
    let dark_moves = game
        .actions(Player::Human)
        .iter()
        .map(|a| a.to_string())
        .sorted()
        .collect_vec();
    assert_eq!(
        dark_moves,
        vec!["E3", "F4", "C5", "D6"].into_iter().map(|s| s.to_string()).sorted().collect_vec()
    );

    let mut board = Board::new();
    board.clear();
    for i in 1..BOARD_SIZE - 1 {
        board.place(Player::Human.disk(), &Position::new(i, 0)).unwrap();
    }
    board.place(Player::Bot.disk(), &Position::new(BOARD_SIZE - 1, 0)).unwrap();

    let game = Game::parse(board, Player::Bot);
    assert_eq!(placements(&game, Player::Bot), vec!["0,0".to_string()]);
}

#[test]
fn game_result() {
    let mut board = Board::new();
    for j in 1..BOARD_SIZE {
        board.place(Player::Human.disk(), &Position::new(0, j)).unwrap()
    }
    board.flip(&Position::new(0, BOARD_SIZE - 1)).unwrap();
    let game = Game::parse(board, Player::Bot);

    let game = game.result(&Action::parse(Player::Bot, Position::new(0, 0)));
    for j in 0..BOARD_SIZE {
        assert_eq!(game.board().disk(&Position::new(0, j)), Some(Player::Bot.disk()))
    }

    // -------------------------

    let mut board = *game.board();
    board.clear();
    for i in 1..BOARD_SIZE {
        board.place(Player::Human.disk(), &Position::new(i, i)).unwrap()
    }
    board.flip(&Position::new(BOARD_SIZE - 1, BOARD_SIZE - 1)).unwrap();
    let game = Game::parse(board, game.current_player());

    let game = game.result(&Action::parse(Player::Bot, Position::new(0, 0)));
    for i in 0..BOARD_SIZE {
        assert_eq!(game.board().disk(&Position::new(i, i)), Some(Player::Bot.disk()))
    }
}

#[test]
fn players() {
    assert_eq!(Player::parse('B'), Ok(Player::Bot));
    assert_eq!(Player::parse('H'), Ok(Player::Human));
    assert_eq!(Player::parse('X'), Err(Error::ParseError));
    assert_eq!(Player::Bot.opponent(), Player::Human);
    assert_eq!(Player::Human.opponent(), Player::Bot);
    assert_eq!(Player::Bot.disk(), Disk::Light);
    assert_eq!(Player::Human.disk(), Disk::Dark);
    assert_eq!(Player::Bot.to_char(), 'B');
}

#[test]
fn opening_move_flips_one_disk() {
    let game = Game::new();
    assert_eq!(game.current_player(), Player::Bot);
    let next = game.result(&Action::parse(Player::Bot, Position::new(2, 3)));
    assert_eq!(next.board().disk(&Position::new(3, 3)), Some(Player::Bot.disk()));
    assert_eq!(next.board().disk(&Position::new(2, 3)), Some(Player::Bot.disk()));
    assert_eq!(count(&next, Player::Bot), 4);
    assert_eq!(count(&next, Player::Human), 1);
    assert_eq!(next.current_player(), Player::Human);
    assert!(!next.is_over());
}

#[test]
fn legal_moves_gain_disks() {
    let game = Game::new();
    for action in game.actions(Player::Bot) {
        let next = game.result(&action);
        assert!(count(&next, Player::Bot) >= count(&game, Player::Bot) + 2);
        assert_eq!(
            count(&next, Player::Bot) + count(&next, Player::Human),
            count(&game, Player::Bot) + count(&game, Player::Human) + 1
        );
    }
    let next = game.result(&Action::parse(Player::Bot, Position::new(5, 4)));
    for action in next.actions(Player::Human) {
        let after = next.result(&action);
        assert!(count(&after, Player::Human) >= count(&next, Player::Human) + 2);
    }
}

fn edge_row_game() -> Game {
    let mut board = Board::new();
    board.clear();
    for j in 1..BOARD_SIZE - 1 {
        board.place(Player::Human.disk(), &Position::new(0, j)).unwrap();
    }
    board.place(Player::Bot.disk(), &Position::new(0, BOARD_SIZE - 1)).unwrap();
    Game::parse(board, Player::Bot)
}

#[test]
fn edge_row_has_one_move_that_takes_the_row() {
    let game = edge_row_game();
    let actions = game.actions(Player::Bot);
    assert_eq!(actions.len(), 1);
    assert_eq!(actions[0], Action::parse(Player::Bot, Position::new(0, 0)));
    let next = game.result(&actions[0]);
    for j in 0..BOARD_SIZE {
        assert_eq!(next.board().disk(&Position::new(0, j)), Some(Player::Bot.disk()));
    }
    assert!(next.is_over());
    assert_eq!(next.winner(), Some(Player::Bot));
    assert_eq!(next.utility(), i32::MAX);
}

#[test]
fn terminal_states_and_utility() {
    let mut board = Board::new();
    board.clear();
    let empty = Game::parse(board, Player::Bot);
    assert!(empty.is_over());
    assert!(empty.is_over());
    assert_eq!(empty.winner(), None);
    assert_eq!(empty.utility(), 0);

    board.place(Player::Bot.disk(), &Position::new(0, 0)).unwrap();
    let bot_only = Game::parse(board, Player::Human);
    assert!(bot_only.is_over());
    assert_eq!(bot_only.winner(), Some(Player::Bot));
    assert_eq!(bot_only.utility(), i32::MAX);

    let mut board = Board::new();
    board.clear();
    board.place(Player::Human.disk(), &Position::new(4, 4)).unwrap();
    board.place(Player::Human.disk(), &Position::new(4, 5)).unwrap();
    board.place(Player::Bot.disk(), &Position::new(0, 0)).unwrap();
    let human_ahead = Game::parse(board, Player::Bot);
    assert!(human_ahead.is_over());
    assert_eq!(human_ahead.winner(), Some(Player::Human));
    assert_eq!(human_ahead.utility(), i32::MIN);

    let mut board = Board::new();
    board.clear();
    board.place(Player::Human.disk(), &Position::new(0, 0)).unwrap();
    board.place(Player::Bot.disk(), &Position::new(7, 7)).unwrap();
    let tie = Game::parse(board, Player::Bot);
    assert!(tie.is_over());
    assert_eq!(tie.winner(), None);
    assert_eq!(tie.utility(), 0);
}

#[test]
fn evaluation_of_a_position() {
    let game = Game::new();
    assert_eq!(game.evaluate(), 0);
    let next = game.result(&Action::parse(Player::Bot, Position::new(2, 3)));
    assert_eq!(next.actions(Player::Bot).len(), 3);
    assert_eq!(next.actions(Player::Human).len(), 3);
    assert_eq!(next.evaluate(), 4);
}

#[test]
fn duplicate_moves_are_kept() {
    let mut board = Board::new();
    board.clear();
    board.place(Player::Bot.disk(), &Position::new(0, 0)).unwrap();
    board.place(Player::Human.disk(), &Position::new(0, 1)).unwrap();
    board.place(Player::Bot.disk(), &Position::new(2, 2)).unwrap();
    board.place(Player::Human.disk(), &Position::new(1, 2)).unwrap();
    let game = Game::parse(board, Player::Bot);
    let targets = game.actions(Player::Bot).iter().map(|a| a.to_string()).collect_vec();
    assert_eq!(targets, vec!["C1", "C1"]);
}

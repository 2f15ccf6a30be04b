use othello::board::{Board, Disk, Position, BOARD_SIZE};
use othello::bot::Bot;
use othello::errors::Error;
use othello::game::{Action, Game, Player};

#[test]
fn single_move_with_no_look_ahead() {
    let mut board = Board::new();
    board.clear();
    for j in 1..BOARD_SIZE - 1 {
        board.place(Player::Human.disk(), &Position::new(0, j)).unwrap();
    }
    board.place(Player::Bot.disk(), &Position::new(0, BOARD_SIZE - 1)).unwrap();
    let game = Game::parse(board, Player::Bot);

    let mut bot = Bot::new(0);
    let (action, next) = bot.decide(game).unwrap();
    assert_eq!(action, Action::parse(Player::Bot, Position::new(0, 0)));
    assert_eq!(next, game.result(&action));
}

#[test]
fn no_moves_is_reported() {
    let mut board = Board::new();
    board.clear();
    board.place(Player::Human.disk(), &Position::new(3, 3)).unwrap();
    let game = Game::parse(board, Player::Bot);

    let mut bot = Bot::new(3);
    assert_eq!(bot.decide(game).err(), Some(Error::NoActionsAvailable));
}

#[test]
fn first_of_equal_moves_is_chosen() {
    let game = Game::new();
    let mut bot = Bot::new(0);
    let (action, next) = bot.decide(game).unwrap();
    assert_eq!(action, Action::parse(Player::Bot, Position::new(5, 4)));
    assert_eq!(next, game.result(&action));
    assert_eq!(next.current_player(), Player::Human);
}

#[test]
fn deeper_search_picks_a_legal_move() {
    let game = Game::new();
    for depth in 1..4 {
        let mut bot = Bot::new(depth);
        let (action, next) = bot.decide(game).unwrap();
        assert!(game.actions(Player::Bot).contains(&action));
        assert_eq!(next, game.result(&action));
    }
}

fn board_with(dark: &[(usize, usize)], light: &[(usize, usize)]) -> Board {
    let mut board = Board::new();
    board.clear();
    for &(r, c) in dark {
        board.place(Disk::Dark, &Position::new(r, c)).unwrap();
    }
    for &(r, c) in light {
        board.place(Disk::Light, &Position::new(r, c)).unwrap();
    }
    board
}

#[test]
fn stuck_human_does_not_end_the_game() {
    // The human (dark) cannot flank anything, the agent (light) still can.
    let board = board_with(&[(0, 0), (0, 2), (2, 0), (2, 2)], &[(0, 1), (1, 0), (1, 1)]);
    let game = Game::parse(board, Player::Human);
    assert!(game.actions(Player::Human).is_empty());
    assert!(!game.actions(Player::Bot).is_empty());
    assert!(!game.is_over());
}

#[test]
fn stuck_agent_does_not_pass() {
    // Colors swapped: the agent (light) has no move while the human has one.
    let board = board_with(&[(0, 1), (1, 0), (1, 1)], &[(0, 0), (0, 2), (2, 0), (2, 2)]);
    let game = Game::parse(board, Player::Bot);
    assert!(game.actions(Player::Bot).is_empty());
    assert!(!game.actions(Player::Human).is_empty());
    assert!(!game.is_over());
    let mut bot = Bot::new(2);
    assert_eq!(bot.decide(game).err(), Some(Error::NoActionsAvailable));
}

#[test]
fn leaving_the_human_stuck_scores_highest() {
    // Playing B3 leaves the human without a move while the agent keeps one; with
    // no pass, the human's turn is valued as the largest i32, so that move wins.
    let board = board_with(&[(0, 0), (0, 2), (1, 1), (2, 0), (2, 2)], &[(0, 1), (1, 0)]);
    let game = Game::parse(board, Player::Bot);
    let names: Vec<String> = game.actions(Player::Bot).iter().map(|a| a.to_string()).collect();
    assert_eq!(names, vec!["D1", "B3", "C2", "A4"]);

    let mut bot = Bot::new(1);
    let (action, next) = bot.decide(game).unwrap();
    assert_eq!(action, Action::parse(Player::Bot, Position::new(2, 1)));
    assert!(next.actions(Player::Human).is_empty());
    assert!(!next.actions(Player::Bot).is_empty());
    assert!(!next.is_over());
}

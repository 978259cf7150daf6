use reversi::game::Mcts;
use reversi::reversi::{Board, InputError, Player, Position, Reversi, Square, Turn};

#[test]
fn game_player_test() {
    let mut game = Reversi::new();

    // Start a new game playing as black
    assert_eq!(game.player(), Player::Black);
    assert_eq!(game.player().opponent(), Player::White);

    // Switch players
    game.board.player.switch();
    assert_eq!(game.player(), Player::White);
    assert_eq!(game.player().opponent(), Player::Black);
}

#[test]
fn game_board_turns_test() {
    let mut game = Reversi::new();

    // Check legal first turns
    // NOTE: ordered by col, then row
    assert_eq!(
        game.board.turns(),
        [
            Turn::new(Player::Black, Position(3, 2)),
            Turn::new(Player::Black, Position(2, 3)),
            Turn::new(Player::Black, Position(5, 4)),
            Turn::new(Player::Black, Position(4, 5)),
        ]
    );

    // Remove all legal turns
    *game.board.get_mut(Position(3, 3)).unwrap() = Square::Piece(Player::Black);
    *game.board.get_mut(Position(4, 4)).unwrap() = Square::Piece(Player::Black);
    assert_eq!(game.board.turns(), []);
}

#[test]
fn game_play_test() {
    let mut game = Reversi::new();

    // Play a few moves
    game.play(Turn::new(game.player(), Position(2, 3)));
    game.play(Turn::new(game.player(), Position(4, 2)));

    // Manually play turns
    let mut board = Board::new();
    *board.get_mut(Position(2, 3)).unwrap() = Square::Piece(Player::Black);
    *board.get_mut(Position(3, 3)).unwrap() = Square::Piece(Player::Black);
    *board.get_mut(Position(4, 2)).unwrap() = Square::Piece(Player::White);
    *board.get_mut(Position(4, 3)).unwrap() = Square::Piece(Player::White);
    assert_eq!(game.board, board);
}

#[test]
fn game_over_test() {
    let mut game = Reversi::new();

    // Play first turn until game is over
    while !game.over() {
        let turn = game.turns()[0].clone();
        game.play(turn);
    }
}

#[test]
fn game_over_early_test() {
    let mut game = Reversi::new();

    // Play game until an early end
    game.play(Turn::new(Player::Black, Position(3, 2)));
    assert!(!game.over());
    game.play(Turn::new(Player::White, Position(2, 2)));
    assert!(!game.over());
    game.play(Turn::new(Player::Black, Position(1, 2)));
    assert!(!game.over());
    game.play(Turn::new(Player::White, Position(3, 1)));
    assert!(!game.over());
    game.play(Turn::new(Player::Black, Position(4, 0)));
    assert!(!game.over());
    game.play(Turn::new(Player::White, Position(3, 5)));
    assert!(!game.over());
    game.play(Turn::new(Player::Black, Position(3, 6)));
    assert!(!game.over());
    game.play(Turn::new(Player::White, Position(4, 2)));
    assert!(!game.over());
    game.play(Turn::new(Player::Black, Position(5, 3)));
    assert!(game.over());
    assert_eq!(game.winner(), Some(Player::Black));
}

#[test]
fn game_board_is_occupied_test() {
    let game = Reversi::new();

    assert!(!game.board.is_occupied(Position(0, 0)));
    assert!(!game.board.is_occupied(Position(2, 2)));
    assert!(game.board.is_occupied(Position(4, 4)));
    assert!(!game.board.is_occupied(Position(6, 6)));
}

#[test]
fn game_board_is_legal_test() {
    let game = Reversi::new();
    let board = &game.board;

    // Legal spaces for black's first turn
    assert!(board.is_legal(&Turn::new(game.player(), Position(2, 3))));
    assert!(board.is_legal(&Turn::new(game.player(), Position(3, 2))));
    assert!(board.is_legal(&Turn::new(game.player(), Position(4, 5))));
    assert!(board.is_legal(&Turn::new(game.player(), Position(5, 4))));

    // Legal spaces for white's first turn
    assert!(!board.is_legal(&Turn::new(game.player(), Position(2, 4))));
    assert!(!board.is_legal(&Turn::new(game.player(), Position(4, 2))));
    assert!(!board.is_legal(&Turn::new(game.player(), Position(5, 3))));
    assert!(!board.is_legal(&Turn::new(game.player(), Position(3, 5))));

    // Occupied spaces
    assert!(!board.is_legal(&Turn::new(game.player(), Position(3, 3))));
    assert!(!board.is_legal(&Turn::new(game.player(), Position(4, 4))));

    // Spaces on the edge of the board
    assert!(!board.is_legal(&Turn::new(game.player(), Position(0, 0))));
    assert!(!board.is_legal(&Turn::new(game.player(), Position(7, 7))));

    // Invalid spaces
    assert!(!board.is_legal(&Turn::new(game.player(), Position(8, 8))));
}

#[test]
fn new_board_layout() {
    let board = Board::new();
    assert_eq!(board.height(), 8);
    assert_eq!(board.width(), 8);
    assert_eq!(board.get(Position(3, 3)), Some(&Square::Piece(Player::White)));
    assert_eq!(board.get(Position(3, 4)), Some(&Square::Piece(Player::Black)));
    assert_eq!(board.get(Position(4, 3)), Some(&Square::Piece(Player::Black)));
    assert_eq!(board.get(Position(4, 4)), Some(&Square::Piece(Player::White)));
    assert_eq!(board.get(Position(0, 7)), Some(&Square::Empty));
    assert_eq!(board.get(Position(8, 0)), None);
    assert!(board.in_bounds(Position(7, 7)));
    assert!(!board.in_bounds(Position(0, 8)));
    assert_eq!(board.player, Player::Black);
}

#[test]
fn square_occupied_and_switch() {
    assert!(Square::Piece(Player::White).occupied());
    assert!(!Square::Empty.occupied());
    let mut p = Player::White;
    p.switch();
    assert_eq!(p, Player::Black);
}

#[test]
fn set_turn_flips_and_illegal_turn_is_refused() {
    let mut board = Board::new();
    // Illegal: no capture from a corner
    assert!(!board.set_turn(&Turn::new(Player::Black, Position(0, 0))));
    assert_eq!(board, Board::new());

    assert!(board.set_turn(&Turn::new(Player::Black, Position(2, 3))));
    assert_eq!(board.get(Position(2, 3)), Some(&Square::Piece(Player::Black)));
    assert_eq!(board.get(Position(3, 3)), Some(&Square::Piece(Player::Black)));
    assert_eq!(board.get(Position(4, 4)), Some(&Square::Piece(Player::White)));
    assert_eq!(board.player, Player::Black);
}

#[test]
fn play_hands_the_move_to_the_opponent() {
    let mut board = Board::new();
    assert!(board.play(&Turn::new(Player::Black, Position(2, 3))));
    assert_eq!(board.player, Player::White);
    assert!(board.has_turn(Player::White));
    assert!(!board.play(&Turn::new(Player::White, Position(0, 0))));
    assert_eq!(board.player, Player::White);
}

#[test]
fn is_legal_in_direction_of_first_turn() {
    let board = Board::new();
    let turn = Turn::new(Player::Black, Position(2, 3));
    assert!(board.is_legal_in_direction(&turn, (1, 0)));
    assert!(!board.is_legal_in_direction(&turn, (0, 1)));
    assert!(!board.is_legal_in_direction(&turn, (0, 0)));
}

#[test]
fn winner_counts_pieces() {
    // All four pieces black: nobody can move, black wins
    let mut board = Board::new();
    *board.get_mut(Position(3, 3)).unwrap() = Square::Piece(Player::Black);
    *board.get_mut(Position(4, 4)).unwrap() = Square::Piece(Player::Black);
    assert!(board.over());
    assert_eq!(board.winner(), Some(Player::Black));

    // All four pieces white: white wins
    let mut board = Board::new();
    *board.get_mut(Position(3, 4)).unwrap() = Square::Piece(Player::White);
    *board.get_mut(Position(4, 3)).unwrap() = Square::Piece(Player::White);
    assert!(board.over());
    assert_eq!(board.winner(), Some(Player::White));

    // Two black pieces and two white ones far apart: a tie
    let mut board = Board::new();
    *board.get_mut(Position(3, 3)).unwrap() = Square::Empty;
    *board.get_mut(Position(3, 4)).unwrap() = Square::Empty;
    *board.get_mut(Position(4, 3)).unwrap() = Square::Empty;
    *board.get_mut(Position(4, 4)).unwrap() = Square::Empty;
    *board.get_mut(Position(0, 0)).unwrap() = Square::Piece(Player::Black);
    *board.get_mut(Position(7, 7)).unwrap() = Square::Piece(Player::White);
    assert!(board.over());
    assert_eq!(board.winner(), None);

    // A game that goes on has no winner
    assert_eq!(Board::new().winner(), None);
}

#[test]
fn parse_positions() {
    assert_eq!(Position::parse(b"d3"), Ok(Position(2, 3)));
    assert_eq!(Position::parse(b"a1"), Ok(Position(0, 0)));
    assert_eq!(Position::parse(b""), Err(InputError::Empty));
    assert_eq!(Position::parse(b"d33"), Err(InputError::Length));
    assert_eq!(Position::parse(b"d0"), Err(InputError::Row));
    assert_eq!(Position::parse(b"A3"), Err(InputError::Col));
}

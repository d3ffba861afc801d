use mancala::game::{Board, Game, GameOver, GameState, InvalidPocketError, PlayerSide, Winner};

fn game_from(player: [i32; 7], opponent: [i32; 7], turn: PlayerSide) -> Game {
    Game::new(Board::new(player, opponent, turn))
}

fn total(board: &Board) -> i32 {
    board.player_pockets.iter().sum::<i32>() + board.opponent_pockets.iter().sum::<i32>()
}

#[test]
fn default_layout() {
    let game = Game::default();
    assert_eq!(game.board.player_pockets, [4, 4, 4, 4, 4, 4, 0]);
    assert_eq!(game.board.opponent_pockets, [4, 4, 4, 4, 4, 4, 0]);
    assert_eq!(game.board.player_turn, PlayerSide::Player);
    assert_eq!(game.game_state, GameState::InProgress);
    assert_eq!(Board::default(), game.board);
}

#[test]
fn get_stones_reads_both_sides() {
    let board = Board::new([1, 2, 3, 4, 5, 6, 7], [8, 9, 10, 11, 12, 13, 14], PlayerSide::Player);
    assert_eq!(board.get_stones((0, PlayerSide::Player)), 1);
    assert_eq!(board.get_stones((6, PlayerSide::Player)), 7);
    assert_eq!(board.get_stones((2, PlayerSide::Opponent)), 10);
    assert_eq!(board.get_stones((6, PlayerSide::Opponent)), 14);
}

#[test]
fn chain_from_opening_first_pit() {
    let mut game = Game::default();
    assert!(game.play_move((0, PlayerSide::Player)).is_ok());
    assert_eq!(game.board.player_pockets, [1, 4, 1, 10, 1, 1, 5]);
    assert_eq!(game.board.opponent_pockets, [3, 0, 2, 9, 2, 9, 0]);
    assert_eq!(game.board.player_turn, PlayerSide::Opponent);
    assert_eq!(game.game_state, GameState::InProgress);
}

#[test]
fn stones_conserved_over_many_moves() {
    let mut game = Game::default();
    let mut moves = 0;
    while game.game_state == GameState::InProgress && moves < 60 {
        let turn = game.board.player_turn;
        let pit = (0..6).rev().find(|&p| game.board.get_stones((p, turn)) > 0).unwrap();
        assert!(game.play_move((pit, turn)).is_ok());
        assert_eq!(total(&game.board), 48);
        assert!(game.board.player_pockets.iter().all(|&x| x >= 0));
        assert!(game.board.opponent_pockets.iter().all(|&x| x >= 0));
        moves += 1;
    }
    assert!(moves > 0);
}

#[test]
fn sowing_skips_opponent_store() {
    let mut game = game_from([0, 0, 0, 0, 0, 10, 0], [1, 1, 1, 1, 1, 1, 3], PlayerSide::Player);
    assert!(game.play_move((5, PlayerSide::Player)).is_ok());
    assert_eq!(game.board.player_pockets, [1, 1, 1, 0, 0, 0, 1]);
    assert_eq!(game.board.opponent_pockets, [2, 2, 2, 2, 2, 2, 3]);
    assert_eq!(game.board.player_turn, PlayerSide::Opponent);
}

#[test]
fn sowing_skips_player_store_when_opponent_moves() {
    let mut game = game_from([1, 1, 1, 1, 1, 1, 3], [0, 0, 0, 0, 0, 10, 0], PlayerSide::Opponent);
    assert!(game.play_move((5, PlayerSide::Opponent)).is_ok());
    assert_eq!(game.board.player_pockets, [2, 2, 2, 2, 2, 2, 3]);
    assert_eq!(game.board.opponent_pockets, [1, 1, 1, 0, 0, 0, 1]);
    assert_eq!(game.board.player_turn, PlayerSide::Player);
}

#[test]
fn landing_in_own_store_keeps_turn() {
    let mut game = Game::default();
    assert!(game.play_move((2, PlayerSide::Player)).is_ok());
    assert_eq!(game.board.player_pockets, [4, 4, 0, 5, 5, 5, 1]);
    assert_eq!(game.board.opponent_pockets, [4, 4, 4, 4, 4, 4, 0]);
    assert_eq!(game.board.player_turn, PlayerSide::Player);
}

#[test]
fn landing_in_empty_pocket_passes_turn() {
    let mut game = game_from([1, 0, 0, 0, 0, 0, 0], [1, 1, 1, 1, 1, 1, 0], PlayerSide::Player);
    assert!(game.play_move((0, PlayerSide::Player)).is_ok());
    assert_eq!(game.board.player_pockets, [0, 1, 0, 0, 0, 0, 0]);
    assert_eq!(game.board.player_turn, PlayerSide::Opponent);
}

#[test]
fn landing_in_occupied_pocket_sows_again() {
    let mut game = game_from([1, 2, 0, 0, 0, 0, 0], [1, 1, 1, 1, 1, 1, 0], PlayerSide::Player);
    assert!(game.play_move((0, PlayerSide::Player)).is_ok());
    assert_eq!(game.board.player_pockets, [0, 0, 1, 1, 1, 0, 0]);
    assert_eq!(game.board.opponent_pockets, [1, 1, 1, 1, 1, 1, 0]);
    assert_eq!(game.board.player_turn, PlayerSide::Opponent);
}

#[test]
fn win_when_player_pits_empty() {
    let mut game = game_from([0, 0, 0, 0, 0, 0, 20], [0, 0, 0, 0, 0, 1, 27], PlayerSide::Opponent);
    assert!(game.play_move((5, PlayerSide::Opponent)).is_ok());
    assert_eq!(game.board.player_pockets[6], 20);
    assert_eq!(game.board.opponent_pockets[6], 28);
    assert_eq!(game.game_state, GameState::Over(GameOver::Win(Winner::Opponent)));
}

#[test]
fn tie_when_stores_equal() {
    let mut game = game_from([0, 0, 0, 0, 0, 0, 24], [0, 0, 0, 0, 0, 1, 23], PlayerSide::Opponent);
    assert!(game.play_move((5, PlayerSide::Opponent)).is_ok());
    assert_eq!(game.game_state, GameState::Over(GameOver::Win(Winner::Tie)));
}

#[test]
fn player_wins_on_stores() {
    let mut game = game_from([0, 0, 0, 0, 0, 1, 30], [0, 0, 0, 0, 0, 0, 17], PlayerSide::Player);
    assert!(game.play_move((5, PlayerSide::Player)).is_ok());
    assert_eq!(game.game_state, GameState::Over(GameOver::Win(Winner::Player)));
}

#[test]
fn technical_win_before_pits_run_out() {
    let mut game = game_from([1, 0, 0, 0, 0, 0, 0], [1, 0, 0, 0, 0, 0, 30], PlayerSide::Player);
    assert!(game.play_move((0, PlayerSide::Player)).is_ok());
    assert_eq!(game.board.player_pockets, [0, 1, 0, 0, 0, 0, 0]);
    assert_eq!(game.board.opponent_pockets, [1, 0, 0, 0, 0, 0, 30]);
    assert_eq!(game.game_state, GameState::Over(GameOver::TechnicalWin(PlayerSide::Opponent)));
}

#[test]
fn technical_win_for_player() {
    let mut game = game_from([1, 0, 0, 0, 0, 0, 30], [1, 0, 0, 0, 0, 0, 0], PlayerSide::Player);
    assert!(game.play_move((0, PlayerSide::Player)).is_ok());
    assert_eq!(game.game_state, GameState::Over(GameOver::TechnicalWin(PlayerSide::Player)));
}

#[test]
fn wrong_player_checked_first() {
    let mut game = game_from([4, 4, 4, 4, 4, 4, 0], [0, 4, 4, 4, 4, 4, 0], PlayerSide::Player);
    let before = game;
    assert!(matches!(game.play_move((0, PlayerSide::Opponent)), Err(InvalidPocketError::WrongPlayer)));
    assert!(matches!(game.play_move((9, PlayerSide::Opponent)), Err(InvalidPocketError::WrongPlayer)));
    assert_eq!(game, before);
}

#[test]
fn empty_pocket_before_store_and_bounds() {
    let mut game = game_from([4, 4, 0, 4, 4, 4, 0], [4, 4, 4, 4, 4, 4, 0], PlayerSide::Player);
    let before = game;
    assert!(matches!(game.play_move((2, PlayerSide::Player)), Err(InvalidPocketError::EmptyPocket)));
    assert!(matches!(game.play_move((6, PlayerSide::Player)), Err(InvalidPocketError::EmptyPocket)));
    assert_eq!(game, before);
}

#[test]
fn store_pocket_refused() {
    let mut game = game_from([4, 4, 4, 4, 4, 4, 3], [4, 4, 4, 4, 4, 4, 0], PlayerSide::Player);
    let before = game;
    assert!(matches!(game.play_move((6, PlayerSide::Player)), Err(InvalidPocketError::StorePocket)));
    assert_eq!(game, before);
}

#[test]
fn out_of_bounds_pocket_refused() {
    let mut game = Game::default();
    let before = game;
    assert!(matches!(game.play_move((7, PlayerSide::Player)), Err(InvalidPocketError::OutOfBoundsPocket)));
    assert!(matches!(game.play_move((100, PlayerSide::Player)), Err(InvalidPocketError::OutOfBoundsPocket)));
    assert_eq!(game, before);
}

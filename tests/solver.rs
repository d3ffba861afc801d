use mancala::game::{Board, Game, GameOver, GameState, PlayerSide, Winner};
use mancala::solver::{evaluate, EvalMethod, SequenceNodeEnum, SequenceTree};

fn game_from(player: [i32; 7], opponent: [i32; 7], turn: PlayerSide) -> Game {
    Game::new(Board::new(player, opponent, turn))
}

fn node_game(tree: &SequenceTree, index: usize) -> Game {
    match &tree.nodes[index].node_enum {
        SequenceNodeEnum::Root(game) => *game,
        SequenceNodeEnum::Move(move_node) => move_node.played.game,
    }
}

fn replay(start: Game, pockets: &[usize]) -> Game {
    let mut game = start;
    for &pocket in pockets {
        let turn = game.board.player_turn;
        assert!(game.play_move((pocket, turn)).is_ok());
    }
    game
}

#[test]
fn new_tree_holds_only_root() {
    let tree = SequenceTree::new(Game::default());
    assert_eq!(tree.nodes.len(), 1);
    assert!(tree.leaf_nodes.is_empty());
    assert!(tree.game_over_nodes.is_empty());
    assert_eq!(tree.nodes[0].depth, 0);
    assert!(tree.nodes[0].path.is_empty());
    assert_eq!(node_game(&tree, 0), Game::default());
}

#[test]
fn small_tree_shape() {
    let root = game_from([0, 0, 0, 0, 1, 1, 0], [2, 2, 2, 2, 2, 2, 0], PlayerSide::Player);
    let mut tree = SequenceTree::new(root);
    tree.generate_tree(PlayerSide::Player, None);
    assert_eq!(tree.nodes.len(), 4);
    assert_eq!(tree.leaf_nodes, vec![1, 3]);
    assert!(tree.game_over_nodes.is_empty());
    assert_eq!(tree.get_move_sequence(1), vec![4]);
    assert_eq!(tree.get_move_sequence(2), vec![5]);
    assert_eq!(tree.get_move_sequence(3), vec![5, 4]);
    assert_eq!(tree.nodes[3].depth, 2);
    assert_eq!(tree.nodes[3].path, vec![0, 2]);
    let leaf = node_game(&tree, 1);
    assert_eq!(leaf.board.player_pockets, [1, 0, 0, 0, 0, 0, 1]);
    assert_eq!(leaf.board.opponent_pockets, [0, 3, 3, 0, 3, 3, 0]);
    let leaf = node_game(&tree, 3);
    assert_eq!(leaf.board.player_pockets, [0, 0, 0, 0, 0, 1, 1]);
    assert_eq!(leaf.board.opponent_pockets, [2, 2, 2, 2, 2, 2, 0]);
}

#[test]
fn best_sequence_ties_keep_first() {
    let root = game_from([0, 0, 0, 0, 1, 1, 0], [2, 2, 2, 2, 2, 2, 0], PlayerSide::Player);
    let mut tree = SequenceTree::new(root);
    tree.generate_tree(PlayerSide::Player, None);
    assert_eq!(tree.get_best_sequence(&EvalMethod::ByDifference, true, true), vec![4]);
    assert_eq!(tree.get_best_sequence(&EvalMethod::ByDifference, false, false), vec![4]);
}

#[test]
fn opening_tree_counts() {
    let mut tree = SequenceTree::new(Game::default());
    tree.generate_tree(PlayerSide::Player, None);
    assert_eq!(tree.nodes.len(), 9513);
    assert_eq!(tree.leaf_nodes.len(), 7161);
    assert_eq!(tree.game_over_nodes.len(), 1473);
}

#[test]
fn opening_best_sequences() {
    let mut tree = SequenceTree::new(Game::default());
    tree.generate_tree(PlayerSide::Player, None);
    assert_eq!(
        tree.get_best_sequence(&EvalMethod::ByDifference, true, true),
        vec![5, 2, 1, 4, 0, 0, 4, 4, 5, 0, 4, 5, 3]
    );
    assert_eq!(tree.get_best_sequence(&EvalMethod::ByDifference, false, false), vec![2, 0]);
}

#[test]
fn leaf_nodes_end_a_chain() {
    let mut tree = SequenceTree::new(Game::default());
    tree.generate_tree(PlayerSide::Player, None);
    for &index in &tree.leaf_nodes {
        match &tree.nodes[index].node_enum {
            SequenceNodeEnum::Move(move_node) => {
                assert!(!move_node.played.free_turn || move_node.played.game.game_state != GameState::InProgress);
            }
            SequenceNodeEnum::Root(_) => panic!("a leaf is the root"),
        }
    }
    for &index in &tree.game_over_nodes {
        assert!(tree.leaf_nodes.contains(&index));
        assert_ne!(node_game(&tree, index).game_state, GameState::InProgress);
    }
}

#[test]
fn leaf_sequences_replay_to_leaf_games() {
    let root = Game::default();
    let mut tree = SequenceTree::new(root);
    tree.generate_tree(PlayerSide::Player, None);
    for &index in tree.leaf_nodes.iter().step_by(7) {
        let sequence = tree.get_move_sequence(index);
        assert_eq!(sequence.len(), tree.nodes[index].depth);
        assert_eq!(replay(root, &sequence), node_game(&tree, index));
    }
}

#[test]
fn tree_for_side_not_to_move_is_empty() {
    let mut tree = SequenceTree::new(Game::default());
    tree.generate_tree(PlayerSide::Opponent, None);
    assert_eq!(tree.nodes.len(), 1);
    assert!(tree.leaf_nodes.is_empty());
    assert!(tree.get_best_sequence(&EvalMethod::ByDifference, true, true).is_empty());
    assert!(tree.get_best_sequence(&EvalMethod::ByDifference, false, false).is_empty());
}

#[test]
fn tree_over_finished_game_is_empty() {
    let root = Game {
        board: Board::new([0, 0, 0, 0, 0, 0, 20], [0, 0, 0, 0, 0, 0, 28], PlayerSide::Player),
        game_state: GameState::Over(GameOver::Win(Winner::Opponent)),
    };
    let mut tree = SequenceTree::new(root);
    tree.generate_tree(PlayerSide::Player, None);
    assert_eq!(tree.nodes.len(), 1);
    assert!(tree.get_best_sequence(&EvalMethod::ByDifference, true, true).is_empty());
}

#[test]
fn moves_record_score_and_free_turn() {
    let mut tree = SequenceTree::new(Game::default());
    tree.generate_tree(PlayerSide::Player, None);
    match &tree.nodes[3].node_enum {
        SequenceNodeEnum::Move(move_node) => {
            assert_eq!(move_node.parent, 0);
            assert_eq!(move_node.played.pocket, 2);
            assert_eq!(move_node.played.score, 1);
            assert!(move_node.played.free_turn);
        }
        SequenceNodeEnum::Root(_) => panic!("node 3 is the root"),
    }
}

#[test]
fn evaluate_by_difference() {
    assert_eq!(evaluate(&Game::default(), &EvalMethod::ByDifference), 0);
    let game = game_from([0, 0, 0, 0, 0, 0, 20], [0, 0, 0, 0, 0, 0, 28], PlayerSide::Player);
    assert_eq!(evaluate(&game, &EvalMethod::ByDifference), -8);
    let game = game_from([1, 0, 0, 0, 0, 0, 30], [1, 0, 0, 0, 0, 0, 5], PlayerSide::Player);
    assert_eq!(evaluate(&game, &EvalMethod::ByDifference), 25);
}

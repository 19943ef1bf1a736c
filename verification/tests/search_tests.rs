use territory::board::Color;
use territory::board::Position;
use territory::board::State;
use territory::search::Node;
use territory::search::MAX_SCORE;
use territory::search::MIN_SCORE;
use territory::tree::Tree;

fn pos(row: usize, col: usize) -> Position {
    Position { row, col }
}

/// Two four-stone clusters in opposite corners: seven legal moves per side.
fn mid_game_state() -> State {
    let mut s = State::new();
    s.place(pos(0, 0), Color::White);
    s.place(pos(0, 2), Color::White);
    s.place(pos(2, 0), Color::White);
    s.place(pos(2, 2), Color::White);
    s.place(pos(8, 8), Color::Black);
    s.place(pos(8, 10), Color::Black);
    s.place(pos(10, 8), Color::Black);
    s.place(pos(10, 10), Color::Black);
    s
}

fn mid_game_node() -> Node {
    Node::from_state(mid_game_state())
}

#[test]
fn depth_zero_returns_static_evaluation() {
    let n = mid_game_node();
    let e = n.cost();
    assert_eq!(n.minimax(0, true), e);
    assert_eq!(n.minimax(0, false), e);
    assert_eq!(n.negamax(0, 1), e);
    assert_eq!(n.negamax(0, -1), -e);
    assert_eq!(n.abnegamax(0, MIN_SCORE, MAX_SCORE, 1), e);
    assert_eq!(n.abnegamax(0, MIN_SCORE, MAX_SCORE, -1), -e);
    assert_eq!(n.negamax_node_count(0, 1), 1);
}

#[test]
fn minimax_negamax_and_pruned_negamax_agree() {
    let n = mid_game_node();
    for depth in 0..4u16 {
        let mm = n.minimax(depth, true);
        let nm = n.negamax(depth, 1);
        let ab = n.abnegamax(depth, MIN_SCORE, MAX_SCORE, 1);
        assert_eq!(mm, nm);
        assert_eq!(nm, ab);
        assert_eq!(n.minimax(depth, false), -n.negamax(depth, -1));
        assert_eq!(n.negamax(depth, -1), n.abnegamax(depth, MIN_SCORE, MAX_SCORE, -1));
    }
}

#[test]
fn pruning_never_visits_more_nodes() {
    let n = mid_game_node();
    for depth in 1..4u16 {
        let full = n.negamax_node_count(depth, 1);
        let (score, pruned) = n.abnegamax_node_count(depth, MIN_SCORE, MAX_SCORE, 1);
        assert!(pruned <= full);
        assert_eq!(score, n.negamax(depth, 1));
    }
    // At depth 3 the mid-game position really prunes something.
    let full = n.negamax_node_count(3, 1);
    let (_, pruned) = n.abnegamax_node_count(3, MIN_SCORE, MAX_SCORE, 1);
    assert!(pruned < full);
}

#[test]
fn no_moves_is_not_terminal_and_falls_back_to_evaluation() {
    // Black alone can grow: White has no legal move, yet the game is not
    // over, and White's ply returns the static evaluation.
    let mut s = State::new();
    s.place(pos(0, 0), Color::Black);
    s.place(pos(0, 2), Color::Black);
    let n = Node::from_state(s);
    assert!(n.state.legal_moves(Color::White).is_empty());
    assert!(!n.state.legal_moves(Color::Black).is_empty());
    assert!(!n.state.is_terminal());
    let e = n.cost();
    assert_eq!(e, -4);
    assert_eq!(n.minimax(3, true), e);
    assert_eq!(n.negamax(3, 1), e);
    assert_eq!(n.abnegamax(3, MIN_SCORE, MAX_SCORE, 1), e);
    assert!(n.get_optimal_moves(3).is_empty());
}

#[test]
fn root_scores_are_exact() {
    // White at (0,0) and (0,2): the root moves are (0,1) and (1,1), and at
    // depth 1 a root score is the evaluation of the derived position.
    let mut s = State::new();
    s.place(pos(0, 0), Color::White);
    s.place(pos(0, 2), Color::White);
    let n = Node::from_state(s);
    assert_eq!(n.cost(), 4);
    assert_eq!(n.root_score(pos(0, 1), 1), 4);
    assert_eq!(n.root_score(pos(1, 1), 1), 6);
}

#[test]
fn ranking_sorts_descending_with_exact_scores() {
    let mut s = State::new();
    s.place(pos(0, 0), Color::White);
    s.place(pos(0, 2), Color::White);
    let n = Node::from_state(s);
    // Generator order is (0,1) then (1,1) with scores 4 and 6: the stable
    // sort must reorder them.
    let ranked = n.get_optimal_moves(1);
    assert_eq!(ranked, vec![(6, pos(1, 1)), (4, pos(0, 1))]);
}

#[test]
fn ranking_matches_a_stable_sort_of_root_scores() {
    let n = mid_game_node();
    let depth = 2u16;
    let moves = n.state.legal_moves(Color::White);
    let mut expected: Vec<(i32, Position)> =
        moves.iter().map(|m| (n.root_score(*m, depth), *m)).collect();
    expected.sort_by(|a, b| b.0.cmp(&a.0));
    expected.truncate(5);
    assert_eq!(n.get_optimal_moves(depth), expected);
}

#[test]
fn equal_scores_keep_generator_order() {
    // Two mirrored clusters: each left-cluster move has a mirrored
    // right-cluster twin with the same score, and ties must stay in
    // row-major generator order.
    let mut s = State::new();
    s.place(pos(0, 0), Color::White);
    s.place(pos(0, 2), Color::White);
    s.place(pos(0, 8), Color::White);
    s.place(pos(0, 10), Color::White);
    let n = Node::from_state(s);
    let ranked = n.get_optimal_moves(1);
    let positions: Vec<Position> = ranked.iter().map(|r| r.1).collect();
    assert_eq!(positions, vec![pos(1, 1), pos(1, 9), pos(0, 1), pos(0, 9)]);
    assert_eq!(ranked[0].0, ranked[1].0);
    assert_eq!(ranked[2].0, ranked[3].0);
    assert!(ranked[0].0 > ranked[2].0);
}

#[test]
fn ranking_keeps_at_most_five_moves() {
    let n = mid_game_node();
    let moves = n.state.legal_moves(Color::White);
    assert_eq!(moves.len(), 7);
    assert_eq!(n.get_optimal_moves(2).len(), 5);
    // A richer position yields more than five legal moves but still at
    // most five ranked ones.
    let mut s = State::new();
    s.place(pos(2, 2), Color::White);
    s.place(pos(2, 4), Color::White);
    s.place(pos(4, 2), Color::White);
    s.place(pos(4, 4), Color::White);
    s.place(pos(2, 8), Color::White);
    s.place(pos(4, 8), Color::White);
    s.place(pos(3, 7), Color::White);
    let rich = Node::from_state(s);
    assert!(rich.state.legal_moves(Color::White).len() > 5);
    assert_eq!(rich.get_optimal_moves(2).len(), 5);
}

#[test]
fn rerunning_the_ranking_is_bit_identical() {
    let n = mid_game_node();
    let first = n.get_optimal_moves(3);
    let second = n.get_optimal_moves(3);
    assert_eq!(first, second);
    for w in first.windows(2) {
        assert!(w[0].0 >= w[1].0);
    }
}

#[test]
fn iterative_deepening_always_completes_depth_two() {
    let n = mid_game_node();
    let (depth, moves) = n.get_optimal_moves_iterative_deepening(0);
    assert!(depth >= 2);
    assert_eq!(moves, n.get_optimal_moves(depth));
}

#[test]
fn random_opening_places_ten_stones_per_side() {
    let n = Node::random();
    let r = n.render();
    assert_eq!(r.chars().filter(|c| *c == 'o').count(), 10);
    assert_eq!(r.chars().filter(|c| *c == 'x').count(), 10);
    assert_eq!(n.state.legal_empty_cells().len(), 121 - 20);
}

#[test]
fn materialized_tree_matches_direct_search() {
    let depth = 3u16;
    let n = mid_game_node();
    let tree = Tree::build(mid_game_state(), depth, true);
    assert_eq!(tree.minimax(depth, true), n.minimax(depth, true));
    assert_eq!(tree.ranked_root_moves(depth), n.get_optimal_moves(depth));
    let black_tree = Tree::build(mid_game_state(), 2, false);
    assert_eq!(black_tree.minimax(2, false), n.minimax(2, false));
}

#[test]
fn with_derives_a_child_without_touching_the_parent() {
    let n = mid_game_node();
    let before = n.cost();
    let child = n.with(pos(1, 1), Color::White);
    assert_eq!(n.cost(), before);
    assert_eq!(child.state.get_field(1, 1), Some(Color::White));
}

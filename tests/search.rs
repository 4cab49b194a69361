use reversi::board::{Board, Case, GameError, History};
use reversi::minimax::{evaluate, matrix_eval, minimax, placement_score, Tree};
use reversi::mcts::{ChildStats, Node, MCTS};
use reversi::mcts_rave::MCTSRave;

/// A board on `cases` whose history records them as the last grid, so that
/// undoing a move tried on it comes back to them.
fn board_from(cases: [[Case; 8]; 8]) -> Board {
    Board { cases, history: History { moves: vec![(3, 3)], history: vec![cases] } }
}

/// UCT as a sortable key: win ratio plus exploration, mapped to its bits.
fn uct(s: ChildStats) -> u64 {
    let ratio = s.wins as f64 / s.played as f64;
    let explore = 2.0 * ((s.parent_played as f64).ln() / s.played as f64);
    (ratio + explore).max(0.0).to_bits()
}

/// RAVE blend of UCT and AMAF statistics as a sortable key.
fn rave(s: ChildStats) -> u64 {
    if s.played == 0 {
        return f64::INFINITY.to_bits();
    }
    let k = 250.0;
    let alpha = (k / (3.0 * s.parent_played as f64 + k)).sqrt();
    let uct = s.wins as f64 / s.played as f64
        + std::f64::consts::SQRT_2 * ((s.parent_played as f64).ln() / s.played as f64).sqrt();
    let amaf = if s.played_rave == 0 { 0.0 } else { s.wins_rave as f64 / s.played_rave as f64 };
    ((1.0 - alpha) * uct + alpha * amaf).max(0.0).to_bits()
}

/// Black to move with two moves, both ending the game: (0,0) wins 11 to 8,
/// (7,7) loses 9 to 10.
fn two_move_endgame() -> Board {
    let mut c = [[Case::Empty; 8]; 8];
    c[0][1] = Case::White;
    c[0][2] = Case::White;
    c[0][3] = Case::White;
    c[0][4] = Case::Black;
    c[0][5] = Case::White;
    c[0][6] = Case::White;
    c[0][7] = Case::White;
    for col in 0..6 {
        c[7][col] = Case::Black;
    }
    c[7][6] = Case::White;
    c[3][3] = Case::White;
    c[3][4] = Case::White;
    c[4][3] = Case::White;
    c[4][4] = Case::White;
    board_from(c)
}

#[test]
fn mcts_update_winning_state_test() {
    let turn = Case::White;
    let mut current = turn.opponent();
    let states = [Case::Black, Case::Black, Case::Empty, Case::White, Case::Black, Case::Empty, Case::White];
    let expected = [Case::Black, Case::Black, Case::Empty, Case::White, Case::White, Case::White, Case::White];
    for i in 0..7 {
        current = Node::update_winning_state(turn, current, states[i]);
        assert_eq!(current, expected[i])
    }
}

#[test]
fn mcts_rave_update_winning_state_test() {
    let turn = Case::White;
    let mut current = turn.opponent();
    let states = [Case::Black, Case::Black, Case::Empty, Case::White, Case::Black, Case::Empty, Case::White];
    let expected = [Case::Black, Case::Black, Case::Empty, Case::White, Case::White, Case::White, Case::White];
    for i in 0..7 {
        current = reversi::mcts_rave::Node::update_winning_state(turn, current, states[i]);
        assert_eq!(current, expected[i])
    }
}

#[test]
fn endgame_position_has_two_terminal_moves() {
    let mut b = two_move_endgame();
    assert_eq!(b.get_turn(), Case::Black);
    assert_eq!(b.available_moves(None), vec![(0, 0), (7, 7)]);
    let mut other = b.clone();
    assert_eq!(
        b.play_move(&(0, 0)).unwrap(),
        reversi::board::BoardState::Ended(reversi::board::EndState::Winner(Case::Black))
    );
    assert_eq!(b.score(), (11, 8));
    assert_eq!(
        other.play_move(&(7, 7)).unwrap(),
        reversi::board::BoardState::Ended(reversi::board::EndState::Winner(Case::White))
    );
    assert_eq!(other.score(), (9, 10));
}

#[test]
fn placement_weights() {
    assert_eq!(placement_score(0, 0), 256);
    assert_eq!(placement_score(0, 1), -8);
    assert_eq!(placement_score(1, 1), -8);
    assert_eq!(placement_score(0, 3), 16);
    assert_eq!(placement_score(1, 4), -4);
    assert_eq!(placement_score(4, 4), 0);
    assert_eq!(placement_score(7, 6), -8);
    assert_eq!(matrix_eval(&Board::new().cases), (0, 0));
    assert_eq!(matrix_eval(&two_move_endgame().cases), (280, 328));
}

#[test]
fn static_evaluation() {
    let mut board = Board::new();
    board.play_move(&(2, 3)).unwrap();
    let mut t = Tree::from_board(&mut board, None, 0);
    assert_eq!(t.score, (4, 1));
    assert_eq!(t.moves, 3);
    // 5 discs: first phase, factor 1; positional values are all 0 here.
    assert_eq!(evaluate(&t, Case::Black), 3);
    assert_eq!(evaluate(&t, Case::White), -3);
    t.moves = 0;
    assert_eq!(evaluate(&t, Case::Black), 10003);
    assert_eq!(evaluate(&t, Case::White), -10003);
    let mut b2 = two_move_endgame();
    let t2 = Tree::from_board(&mut b2, None, 0);
    // 18 discs: second phase, factor 2; balance -4 for Black.
    let (w, bl) = matrix_eval(&b2.cases);
    assert_eq!(evaluate(&t2, Case::Black), -4 * 2 + (bl as i32 - w as i32));
}

#[test]
fn tree_building_restores_the_board() {
    let mut board = Board::new();
    let before = board.clone();
    let t = Tree::from_board(&mut board, None, 2);
    assert_eq!(board.cases, before.cases);
    assert!(board.history.moves.is_empty());
    let kids = t.subtree.as_ref().unwrap();
    assert_eq!(kids.len(), 4);
    assert_eq!(kids[0].mov, Some((2, 3)));
    assert_eq!(kids[0].subtree.as_ref().unwrap().len(), 3);
    assert!(kids[0].subtree.as_ref().unwrap()[0].subtree.is_none());
}

#[test]
fn minimax_picks_the_winning_endgame_move() {
    let mut board = two_move_endgame();
    let mut t = Tree::from_board(&mut board, None, 2);
    let best = minimax(&mut t, Case::Black);
    assert_eq!(best.mov, Some((0, 0)));
    assert_eq!(best.value, Some(10003));
    assert_eq!(t.value, Some(10003));
    let mut tree = Tree::from_board(&mut board, None, 0);
    assert_eq!(tree.best_move(Case::Black, &board, 1), Ok((0, 0)));
    assert_eq!(tree.mov, Some((0, 0)));
}

#[test]
fn minimax_twice_gives_the_same_move() {
    let mut board = Board::new();
    board.play_move(&(2, 3)).unwrap();
    let mut t = Tree::from_board(&mut board, None, 3);
    let first = minimax(&mut t, Case::White);
    let second = minimax(&mut t, Case::White);
    assert_eq!(first.mov, second.mov);
    assert_eq!(first.value, second.value);
}

#[test]
fn minimax_on_a_leaf_returns_its_evaluation() {
    let mut cases = [[Case::Empty; 8]; 8];
    cases[0][0] = Case::Black;
    cases[7][7] = Case::Black;
    let mut board = board_from(cases);
    let mut t = Tree::from_board(&mut board, None, 3);
    assert!(t.subtree.is_none());
    let r = minimax(&mut t, Case::Black);
    assert_eq!(r.value, Some(10002));
    let mut t2 = Tree::from_board(&mut board, None, 3);
    assert_eq!(t2.best_move(Case::Black, &board, 3), Err(GameError::NoMovesAvailable));
}

#[test]
fn best_move_keeps_the_chosen_subtree() {
    let board = Board::new();
    let mut b = board.clone();
    let mut tree = Tree::from_board(&mut b, None, 1);
    let m = tree.best_move(Case::Black, &board, 2).unwrap();
    assert!(board.available_moves(None).contains(&m));
    assert_eq!(tree.mov, Some(m));
    assert_eq!(tree.moves, 3);
    assert_eq!(tree.subtree.as_ref().unwrap().len(), 3);
}

#[test]
fn mcts_finds_the_winning_endgame_move() {
    let board = two_move_endgame();
    let mut engine = MCTS::new(Case::Black, true, 50, board.clone());
    assert_eq!(engine.search(&board, &uct), Ok((0, 0)));
    assert_eq!(engine.root.mov, (0, 0));
}

#[test]
fn exact_solve_picks_the_winning_move() {
    let board = two_move_endgame();
    let mut root = Node::root(board.clone());
    while !root.is_fully_expanded {
        root.expand(&rave);
    }
    assert_eq!(root.children.len(), 2);
    assert_eq!(root.children[0].wins, 1);
    assert_eq!(root.children[1].wins, 0);
    for _ in 0..10 {
        let mut copy = Node::root(board.clone());
        while !copy.is_fully_expanded {
            copy.expand(&uct);
        }
        assert_eq!(copy.select_move(0, true, true, &rave), Ok((0, 0)));
        assert_eq!(copy.winning_state, Some(Case::Black));
        assert_eq!(copy.children[1].winning_state, Some(Case::White));
    }
}

#[test]
fn rave_engine_plays_a_game_legally() {
    let mut board = Board::new();
    let mut black = MCTSRave::new(Case::Black, true, 30, board.clone());
    let mut white = MCTS::new(Case::White, true, 30, board.clone());
    for _ in 0..70 {
        let m = match board.get_turn() {
            Case::Black => black.search(&board, &rave),
            _ => white.search(&board, &uct),
        };
        let m = match m {
            Ok(m) => m,
            Err(e) => {
                assert_eq!(e, GameError::NoMovesAvailable);
                break;
            }
        };
        assert!(board.available_moves(None).contains(&m));
        match board.play_move(&m).unwrap() {
            reversi::board::BoardState::Ongoing => {}
            _ => break,
        }
    }
    assert!(board.history.moves.len() > 4);
}

#[test]
fn amaf_counters_follow_the_playout() {
    let board = Board::new();
    let mut root = Node::root(board);
    for _ in 0..40 {
        root.expand(&rave);
    }
    assert_eq!(root.played, 40);
    assert_eq!(root.children.len(), 4);
    let total: u64 = root.children.iter().map(|c| c.played).sum();
    assert_eq!(total, 40);
    for c in &root.children {
        assert!(c.wins <= c.played);
        assert!(c.wins_rave <= c.played_rave);
    }
}

#[test]
fn parallel_reducer_returns_a_child_of_the_best_value() {
    let mut board = two_move_endgame();
    let mut t = Tree::from_board(&mut board, None, 2);
    let best = reversi::minimax::minimax_parallel(&mut t, Case::Black);
    assert_eq!(best.mov, Some((0, 0)));
    assert_eq!(best.value, Some(10003));
    let mut opening = Board::new();
    let mut t2 = Tree::from_board(&mut opening, None, 3);
    let seq = minimax(&mut t2, Case::Black);
    let par = reversi::minimax::minimax_parallel(&mut t2, Case::Black);
    assert_eq!(seq.value, par.value);
    assert!(opening.available_moves(None).contains(&par.mov.unwrap()));
}

#[test]
fn rave_engine_solves_the_endgame_in_one_search() {
    let board = two_move_endgame();
    for _ in 0..10 {
        let mut engine = MCTSRave::new(Case::Black, true, 20, board.clone());
        assert_eq!(engine.search(&board, &rave), Ok((0, 0)));
        assert_eq!(engine.root.mov, (0, 0));
    }
}

#[test]
fn search_without_moves_fails() {
    let mut cases = [[Case::Empty; 8]; 8];
    cases[0][0] = Case::Black;
    cases[7][7] = Case::Black;
    let board = board_from(cases);
    let mut engine = MCTS::new(Case::Black, true, 10, board.clone());
    assert_eq!(engine.search(&board, &uct), Err(GameError::NoMovesAvailable));
}

#[test]
fn stale_tree_is_replaced_by_the_board() {
    let mut board = Board::new();
    let mut engine = MCTS::new(Case::White, false, 20, Board::new());
    // The engine's tree is for another position; the board's last move is unknown to it.
    board.play_move(&(2, 3)).unwrap();
    let m = engine.search(&board, &uct).unwrap();
    assert!(board.available_moves(None).contains(&m));
    assert_eq!(engine.root.mov, m);
}

#[test]
fn amaf_pass_counts_each_listed_move() {
    let board = Board::new();
    let mut root = Node::root(board);
    for _ in 0..4 {
        root.expand(&rave);
    }
    let before: Vec<(u64, u64)> = root.children.iter().map(|c| (c.played_rave, c.wins_rave)).collect();
    let b = vec![root.children[0].mov, root.children[0].mov, (0, 0)];
    let w = vec![root.children[1].mov];
    root.update_from_endstate_rave(reversi::board::EndState::Winner(Case::White), &b, &w);
    assert_eq!(root.children[0].played_rave, before[0].0 + 2);
    assert_eq!(root.children[0].wins_rave, before[0].1);
    assert_eq!(root.children[1].played_rave, before[1].0 + 1);
    assert_eq!(root.children[1].wins_rave, before[1].1 + 1);
    assert_eq!(root.children[2].played_rave, before[2].0);
    root.update_from_endstate_rave(reversi::board::EndState::Winner(Case::Empty), &b, &w);
    assert_eq!(root.children[1].wins_rave, before[1].1 + 1);
}

#[test]
fn fully_expanded_node_is_left_alone() {
    let board = two_move_endgame();
    let mut root = Node::root(board);
    root.expand(&uct);
    root.expand(&uct);
    assert!(root.is_fully_expanded);
    let played = root.played;
    let (e, b, w) = root.expand(&uct);
    assert_eq!(e, reversi::board::EndState::Winner(Case::Empty));
    assert!(b.is_empty() && w.is_empty());
    assert_eq!(root.played, played);
}

use reversi::board::{
    last_move_between, parse_coords, print_coords, Board, BoardState, Case, EndState, GameError,
    History, Move,
};
use reversi::player::{record_result, PlayStyle, Player, Strategy};
use reversi::rules::{check_direction, check_direction_with_gain, enemy, is_legal_move, is_legal_move_with_gain};
use reversi::scraper::Difficulty;

fn board_from(cases: [[Case; 8]; 8]) -> Board {
    Board { cases, history: History { moves: Vec::new(), history: Vec::new() } }
}

#[test]
fn play_move_test() {
    let mut board = Board::new();
    board.play_move(&(0, 0)).expect_err("Move should not be legal");
    assert_eq!(board.cases[0][0], Case::Empty); // Check that the move was not made
    // Check the initial board
    assert_eq!(board.cases[3][3], Case::White);
    assert_eq!(board.cases[4][4], Case::White);
    assert_eq!(board.cases[3][4], Case::Black);
    assert_eq!(board.cases[4][3], Case::Black);
}

#[test]
fn available_moves_test() {
    let board = Board::new();
    let moves = board.available_moves(None);
    assert_eq!(moves.len(), 4);
    assert!(moves.contains(&(2, 3)));
    assert!(moves.contains(&(3, 2)));
    assert!(moves.contains(&(4, 5)));
    assert!(moves.contains(&(5, 4)));
}

#[test]
fn reset_test() {
    let mut board = Board::new();
    let first = board.available_moves(None)[0];
    board.play_move(&first).expect("Move should be legal");
    board.reset(1);
    assert_eq!(board.cases[3][3], Case::White);
    assert_eq!(board.cases[4][4], Case::White);
    assert_eq!(board.cases[3][4], Case::Black);
    assert_eq!(board.cases[4][3], Case::Black);
}

#[test]
fn opening_scenario_black_plays_c4() {
    let mut board = Board::new();
    let state = board.play_move(&(2, 3)).unwrap();
    assert_eq!(state, BoardState::Ongoing);
    for (r, c) in [(2, 3), (3, 3), (3, 4), (4, 3)] {
        assert_eq!(board.cases[r][c], Case::Black);
    }
    assert_eq!(board.cases[4][4], Case::White);
    assert_eq!(board.score(), (4, 1));
    assert_eq!(board.get_turn(), Case::White);
    assert!(!board.available_moves(Some(Case::White)).is_empty());
    assert_eq!(board.available_moves(None), vec![(2, 2), (2, 4), (4, 2)]);
}

#[test]
fn capture_flips_only_the_closed_run() {
    let mut board = Board::new();
    board.play_move(&(2, 3)).unwrap();
    let before = board.cases;
    board.play_move(&(2, 2)).unwrap();
    // White at (2,2) closes the diagonal run (3,3) with (4,4); nothing else moves.
    for r in 0..8 {
        for c in 0..8 {
            let expected = if (r, c) == (2, 2) || (r, c) == (3, 3) { Case::White } else { before[r][c] };
            assert_eq!(board.cases[r][c], expected, "cell {:?}", (r, c));
        }
    }
}

#[test]
fn each_move_adds_one_disc() {
    let mut board = Board::new();
    for _ in 0..20 {
        let moves = board.available_moves(None);
        if moves.is_empty() {
            break;
        }
        let (b, w) = board.score();
        let state = board.play_move(&moves[moves.len() / 2]).unwrap();
        let (b2, w2) = board.score();
        assert_eq!(b2 + w2, b + w + 1);
        if state != BoardState::Ongoing {
            break;
        }
    }
}

#[test]
fn play_then_reset_restores_board_and_history() {
    let mut board = Board::new();
    board.play_move(&(2, 3)).unwrap();
    board.play_move(&(2, 2)).unwrap();
    let cells = board.cases;
    let moves = board.history.moves.clone();
    let snaps = board.history.history.len();
    for m in board.available_moves(None) {
        board.play_move(&m).unwrap();
        board.reset(1);
        assert_eq!(board.cases, cells);
        assert_eq!(board.history.moves, moves);
        assert_eq!(board.history.history.len(), snaps);
    }
}

#[test]
fn reset_edge_cases() {
    let mut board = Board::new();
    board.reset(3);
    assert_eq!(board.cases, Board::new().cases);
    board.play_move(&(2, 3)).unwrap();
    board.play_move(&(2, 2)).unwrap();
    board.play_move(&(2, 1)).unwrap();
    let after_two = {
        let mut b = Board::new();
        b.play_move(&(2, 3)).unwrap();
        b.play_move(&(2, 2)).unwrap();
        b.cases
    };
    board.reset(0);
    assert_eq!(board.history.moves.len(), 3);
    board.reset(1);
    assert_eq!(board.cases, after_two);
    assert_eq!(board.history.moves, vec![(2, 3), (2, 2)]);
    board.reset(5);
    assert_eq!(board.cases, Board::new().cases);
    assert!(board.history.moves.is_empty());
    assert!(board.history.history.is_empty());
}

#[test]
fn illegal_moves_are_refused() {
    let mut board = Board::new();
    assert_eq!(board.play_move(&(3, 3)), Err(GameError::IllegalMove(3, 3)));
    assert_eq!(board.play_move(&(8, 0)), Err(GameError::IllegalMove(8, 0)));
    assert_eq!(board.play_move(&(5, 5)), Err(GameError::IllegalMove(5, 5)));
    assert_eq!(board.cases, Board::new().cases);
    assert!(board.history.moves.is_empty());
}

#[test]
fn legality_matches_play() {
    let mut board = Board::new();
    board.play_move(&(2, 3)).unwrap();
    let listed = board.available_moves(None);
    for r in 0..8 {
        for c in 0..8 {
            let mut copy = board.clone();
            let ok = copy.play_move(&(r, c)).is_ok();
            assert_eq!(ok, listed.contains(&(r, c)), "cell {:?}", (r, c));
        }
    }
}

#[test]
fn rules_on_the_opening() {
    let cases = Board::new().cases;
    assert!(is_legal_move(&cases, (2, 3), &Case::Black));
    assert!(!is_legal_move(&cases, (2, 3), &Case::White));
    assert!(!is_legal_move(&cases, (2, 3), &Case::Empty));
    assert!(!is_legal_move(&cases, (9, 3), &Case::Black));
    assert_eq!(is_legal_move_with_gain(&cases, (2, 3), &Case::Black), (true, 1));
    assert_eq!(is_legal_move_with_gain(&cases, (0, 0), &Case::Black), (false, 0));
    assert_eq!(is_legal_move_with_gain(&cases, (3, 3), &Case::Black), (false, 0));
    assert!(check_direction(&cases, (2, 3), (1, 0), &Case::Black));
    assert!(!check_direction(&cases, (2, 3), (0, 1), &Case::Black));
    assert_eq!(check_direction_with_gain(&cases, (2, 3), (1, 0), &Case::Black), (true, 1));
    assert_eq!(check_direction_with_gain(&cases, (5, 5), (-1, -1), &Case::Black), (false, 2));
    assert_eq!(enemy(&Case::White), Case::Black);
    assert_eq!(enemy(&Case::Empty), Case::Empty);
    assert_eq!(Case::Black.opponent(), Case::White);
}

#[test]
fn gain_counts_every_flanked_direction() {
    let mut cases = [[Case::Empty; 8]; 8];
    // Black at (4,4) plays (4,0): flips (4,1..3); Black at (1,0) plays (4,0) upwards: flips (2,0),(3,0).
    cases[4][1] = Case::White;
    cases[4][2] = Case::White;
    cases[4][3] = Case::White;
    cases[4][4] = Case::Black;
    cases[3][0] = Case::White;
    cases[2][0] = Case::White;
    cases[1][0] = Case::Black;
    assert_eq!(is_legal_move_with_gain(&cases, (4, 0), &Case::Black), (true, 5));
    assert_eq!(is_legal_move_with_gain(&cases, (4, 0), &Case::White), (false, 0));
}

#[test]
fn no_move_for_the_side_to_move() {
    let mut cases = [[Case::Empty; 8]; 8];
    cases[0][0] = Case::Black;
    cases[7][7] = Case::Black;
    let board = board_from(cases);
    assert_eq!(board.get_turn(), Case::Black);
    assert!(board.available_moves(None).is_empty());
    assert_eq!(board.move_with_highest_gain(), Err(GameError::NoMovesAvailable));
    assert!(board.is_ended());
}

#[test]
fn greedy_takes_first_highest_gain() {
    let mut board = Board::new();
    board.play_move(&(2, 3)).unwrap();
    board.play_move(&(2, 2)).unwrap();
    let with_gain = board.available_moves_with_gain();
    let best = with_gain.iter().map(|m| m.1).max().unwrap();
    let first_best = with_gain.iter().find(|m| m.1 == best).unwrap().0;
    assert_eq!(board.move_with_highest_gain(), Ok(first_best));
    assert_eq!(with_gain.len(), board.available_moves(None).len());
}

#[test]
fn winner_and_end_of_game() {
    let mut cases = [[Case::Empty; 8]; 8];
    cases[0][1] = Case::White;
    cases[0][2] = Case::Black;
    cases[5][5] = Case::Black;
    cases[6][6] = Case::Black;
    // 4 discs: Black to move; (0,0) takes the last white disc.
    let mut board = board_from(cases);
    assert_eq!(board.current_winner(), Case::Black);
    let state = board.play_move(&(0, 0)).unwrap();
    assert_eq!(state, BoardState::Ended(EndState::Winner(Case::Black)));
    assert!(board.is_ended());
    let mut even = [[Case::Empty; 8]; 8];
    even[0][0] = Case::White;
    even[7][7] = Case::Black;
    assert_eq!(board_from(even).current_winner(), Case::Empty);
}

#[test]
fn coordinates_as_text() {
    assert_eq!(print_coords(&(2, 3)), "C4");
    assert_eq!(print_coords(&(0, 0)), "A1");
    assert_eq!(print_coords(&(7, 7)), "H8");
    assert_eq!(Move { move_: (2, 3) }.to_string(), "4c");
    assert_eq!(parse_coords('C', '4'), Some((2, 3)));
    assert_eq!(parse_coords('h', '8'), Some((7, 7)));
    assert_eq!(parse_coords('I', '1'), None);
    assert_eq!(parse_coords('A', '9'), None);
}

#[test]
fn last_move_found_between_grids() {
    let before = Board::new().cases;
    let mut board = Board::new();
    board.play_move(&(4, 5)).unwrap();
    assert_eq!(last_move_between(&before, &board.cases), Some((4, 5)));
    assert_eq!(last_move_between(&before, &before), None);
}

#[test]
fn tally_and_strategies() {
    let t = record_result((1, 2, 3), EndState::Winner(Case::White));
    assert_eq!(t, (1, 3, 3));
    assert_eq!(record_result(t, EndState::Winner(Case::Empty)), (1, 3, 4));
    assert_eq!(record_result(t, EndState::Winner(Case::Black)), (2, 3, 3));
    assert!(!Strategy::Manual.allowed_in(&PlayStyle::Automatic));
    assert!(Strategy::Manual.allowed_in(&PlayStyle::Progressive));
    assert!(Strategy::Greedy.allowed_in(&PlayStyle::Automatic));
    let p = Player::new((Strategy::Random, Strategy::Minimax { depth: 2 }));
    assert_eq!(p.board.cases, Board::new().cases);
    assert_eq!(p.strategy.1, Strategy::Minimax { depth: 2 });
    assert_eq!(Difficulty::Easy.level(), 0);
    assert_eq!(Difficulty::Hard.level(), 2);
}

#[test]
fn reset_without_history_goes_to_the_opening() {
    let mut cases = [[Case::Empty; 8]; 8];
    cases[0][0] = Case::Black;
    cases[7][7] = Case::White;
    let mut board = board_from(cases);
    board.reset(1);
    assert_eq!(board.cases, Board::new().cases);
    let mut untouched = board_from(cases);
    untouched.reset(0);
    assert_eq!(untouched.cases, cases);
}

#[test]
fn greedy_prefers_the_first_of_equal_gains() {
    let board = Board::new();
    // Every opening move flips one disc: the first in row-major order wins.
    assert_eq!(board.move_with_highest_gain(), Ok((2, 3)));
}

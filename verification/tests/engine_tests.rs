use kalaha::best_move;
use kalaha::try_best_move;
use kalaha::Kalaha;
use kalaha::MoveError;
use kalaha::PLAYER_ONE;
use kalaha::PLAYER_TWO;
use kalaha::REMIS;

#[test]
fn best_move_at_depth_zero_is_greedy_for_player_one() {
    // From the start only pits 2..=5 reach the store in one move; the
    // leftmost of the tied best pits wins.
    assert_eq!(best_move(Kalaha::new(), PLAYER_ONE, 0), 2);
}

#[test]
fn best_move_at_depth_zero_is_greedy_for_player_two() {
    // Pits 9..=12 reach player Two's store in one move; pit 9 is the
    // leftmost of the tied best ones.
    assert_eq!(best_move(Kalaha::new(), PLAYER_TWO, 0), 9);
}

#[test]
fn best_move_takes_an_immediate_winning_capture() {
    // Pit 1 lands on the empty pit 2 and captures the twenty stones
    // opposite, ending the game with a majority for player One.
    let kalaha = Kalaha::of([1, 1, 0, 0, 0, 0, 23, 0, 0, 0, 20, 0, 3, 0]);
    assert_eq!(best_move(kalaha, PLAYER_ONE, 1), 1);
}

#[test]
fn best_move_is_deterministic() {
    let kalaha = Kalaha::of([2, 0, 7, 1, 0, 3, 5, 4, 0, 6, 2, 0, 9, 9]);
    let first = best_move(kalaha, PLAYER_TWO, 2);
    let second = best_move(kalaha, PLAYER_TWO, 2);
    assert_eq!(first, second);
}

#[test]
fn best_move_returns_a_legal_pit_at_depth_two() {
    let kalaha = Kalaha::new();
    let pit = best_move(kalaha, PLAYER_ONE, 2);
    assert!(pit < 6);
    assert!(kalaha.get_bucket(pit) > 0);
}

#[test]
fn try_best_move_agrees_with_best_move() {
    assert_eq!(try_best_move(&Kalaha::new(), PLAYER_ONE, 0), Ok(2));
}

#[test]
fn try_best_move_rejects_an_invalid_player() {
    let kalaha = Kalaha::new();
    assert_eq!(try_best_move(&kalaha, REMIS, 1), Err(MoveError::InvalidPlayer));
    assert_eq!(try_best_move(&kalaha, 6, 1), Err(MoveError::InvalidPlayer));
}

#[test]
fn try_best_move_reports_a_starved_row() {
    let kalaha = Kalaha::of([0, 0, 0, 0, 0, 0, 10, 0, 0, 0, 0, 0, 0, 38]);
    assert_eq!(try_best_move(&kalaha, PLAYER_ONE, 1), Err(MoveError::NoLegalMove));
}

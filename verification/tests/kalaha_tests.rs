use kalaha::AfterMove;
use kalaha::Kalaha;
use kalaha::MoveError;
use kalaha::other_player;
use kalaha::PLAYER_ONE;
use kalaha::PLAYER_TWO;
use kalaha::REMIS;

#[test]
fn check_idx_valid() {
    assert!(Kalaha::check_idx(5, PLAYER_ONE));
    assert!(Kalaha::check_idx(0, PLAYER_ONE));
    assert!(Kalaha::check_idx(7, PLAYER_TWO));
    assert!(Kalaha::check_idx(12, PLAYER_TWO));
}

#[test]
fn check_idx_6_is_invalid() {
    assert!(!Kalaha::check_idx(6, PLAYER_ONE));
}

#[test]
fn check_idx_13_is_invalid() {
    assert!(!Kalaha::check_idx(13, PLAYER_ONE));
    assert!(!Kalaha::check_idx(13, PLAYER_TWO));
}

#[test]
fn check_idx_0_is_invalid_for_player_two() {
    assert!(!Kalaha::check_idx(0, PLAYER_TWO));
}

#[test]
fn check_idx_12_is_invalid_for_player_one() {
    assert!(!Kalaha::check_idx(12, PLAYER_ONE));
}

#[test]
fn check_idx_rejects_invalid_player() {
    assert!(!Kalaha::check_idx(0, REMIS));
    assert!(!Kalaha::check_idx(0, 7));
}

#[test]
fn new_kalaha() {
    let kalaha = Kalaha::new();
    assert_eq!(kalaha.buckets(), [4, 4, 4, 4, 4, 4, 0, 4, 4, 4, 4, 4, 4, 0]);
}

#[test]
fn test_kalahas() {
    assert_eq!((6, 13), Kalaha::kalahas(PLAYER_ONE));
    assert_eq!((13, 6), Kalaha::kalahas(PLAYER_TWO));
}

#[test]
fn other_player_swaps_the_two_players() {
    assert_eq!(other_player(PLAYER_ONE), PLAYER_TWO);
    assert_eq!(other_player(PLAYER_TWO), PLAYER_ONE);
}

#[test]
fn test_regular_move() {
    let kalaha = Kalaha::new();
    if let AfterMove::Regular { kalaha, next_move } = kalaha.make_move(3, PLAYER_ONE) {
        assert_eq!(next_move, PLAYER_TWO);
        assert_eq!(kalaha.buckets(), [4, 4, 4, 0, 5, 5, 1, 5, 4, 4, 4, 4, 4, 0]);
    } else {
        panic!()
    }
}

#[test]
fn test_move_that_ends_in_kalaha() {
    let kalaha = Kalaha::new();
    if let AfterMove::Regular { kalaha, next_move } = kalaha.make_move(2, PLAYER_ONE) {
        assert_eq!(next_move, PLAYER_ONE);
        assert_eq!(kalaha.buckets(), [4, 4, 0, 5, 5, 5, 1, 4, 4, 4, 4, 4, 4, 0]);
    } else {
        panic!()
    }
}

#[test]
fn test_skips_other_kalaha() {
    let kalaha = Kalaha::of([0, 0, 1, 0, 0, 10, 0, 0, 0, 0, 0, 0, 0, 0]);
    if let AfterMove::Regular { kalaha, next_move: _ } = kalaha.make_move(5, PLAYER_ONE) {
        assert_eq!(kalaha.buckets(), [1, 1, 2, 0, 0, 0, 1, 1, 1, 1, 1, 1, 1, 0]);
    } else {
        panic!()
    }
}

#[test]
fn test_clear_other_bucket() {
    let kalaha = Kalaha::of([1, 0, 0, 0, 0, 0, 0, 0, 0, 0, 0, 1, 0, 0]);
    if let AfterMove::Regular { kalaha, next_move: _ } = kalaha.make_move(0, PLAYER_ONE) {
        assert_eq!(kalaha.buckets(), [0, 0, 0, 0, 0, 0, 2, 0, 0, 0, 0, 0, 0, 0]);
    } else {
        panic!()
    }
}

#[test]
fn no_capture_when_landing_on_opponent_empty_pit() {
    let kalaha = Kalaha::of([8, 0, 0, 0, 0, 0, 0, 0, 0, 0, 0, 0, 1, 0]);
    if let AfterMove::Regular { kalaha, next_move } = kalaha.make_move(0, PLAYER_ONE) {
        assert_eq!(next_move, PLAYER_TWO);
        assert_eq!(kalaha.buckets(), [0, 1, 1, 1, 1, 1, 1, 1, 1, 0, 0, 0, 1, 0]);
    } else {
        panic!()
    }
}

#[test]
fn starvation_sweeps_opponent_stones_into_their_store() {
    let kalaha = Kalaha::of([0, 0, 0, 0, 0, 2, 0, 3, 0, 0, 0, 0, 1, 0]);
    if let AfterMove::Regular { kalaha, next_move } = kalaha.make_move(5, PLAYER_ONE) {
        assert_eq!(next_move, PLAYER_TWO);
        assert_eq!(kalaha.buckets(), [0, 0, 0, 0, 0, 0, 1, 0, 0, 0, 0, 0, 0, 5]);
    } else {
        panic!()
    }
}

#[test]
fn win_by_majority_even_with_stones_left() {
    let kalaha = Kalaha::of([0, 0, 0, 0, 0, 1, 24, 4, 4, 4, 4, 4, 3, 0]);
    if let AfterMove::Winner { winner } = kalaha.make_move(5, PLAYER_ONE) {
        assert_eq!(winner, PLAYER_ONE);
    } else {
        panic!()
    }
}

#[test]
fn opponent_wins_when_their_store_holds_the_majority() {
    let kalaha = Kalaha::of([1, 0, 0, 0, 0, 0, 22, 0, 0, 0, 0, 0, 0, 25]);
    if let AfterMove::Winner { winner } = kalaha.make_move(0, PLAYER_ONE) {
        assert_eq!(winner, PLAYER_TWO);
    } else {
        panic!()
    }
}

#[test]
fn draw_when_both_stores_hold_exactly_half() {
    let kalaha = Kalaha::of([0, 0, 0, 0, 0, 1, 23, 0, 0, 0, 0, 0, 0, 24]);
    if let AfterMove::Winner { winner } = kalaha.make_move(5, PLAYER_ONE) {
        assert_eq!(winner, REMIS);
    } else {
        panic!()
    }
}

#[test]
fn apply_move_rejects_a_pit_outside_the_movers_row() {
    let kalaha = Kalaha::new();
    assert!(matches!(kalaha.apply_move(7, PLAYER_ONE), Err(MoveError::InvalidMove)));
    assert!(matches!(kalaha.apply_move(6, PLAYER_ONE), Err(MoveError::InvalidMove)));
    assert!(matches!(kalaha.apply_move(0, PLAYER_TWO), Err(MoveError::InvalidMove)));
    assert!(matches!(kalaha.apply_move(13, PLAYER_TWO), Err(MoveError::InvalidMove)));
    assert!(matches!(kalaha.apply_move(40, PLAYER_ONE), Err(MoveError::InvalidMove)));
}

#[test]
fn apply_move_rejects_an_empty_pit() {
    let kalaha = Kalaha::of([0, 4, 4, 4, 4, 4, 0, 4, 4, 4, 4, 4, 4, 0]);
    assert!(matches!(kalaha.apply_move(0, PLAYER_ONE), Err(MoveError::InvalidMove)));
}

#[test]
fn apply_move_rejects_an_invalid_player() {
    let kalaha = Kalaha::new();
    assert!(matches!(kalaha.apply_move(0, REMIS), Err(MoveError::InvalidPlayer)));
    assert!(matches!(kalaha.apply_move(0, 9), Err(MoveError::InvalidPlayer)));
}

#[test]
fn apply_move_agrees_with_make_move() {
    let kalaha = Kalaha::new();
    let checked = kalaha.apply_move(3, PLAYER_ONE);
    if let Ok(AfterMove::Regular { kalaha, next_move }) = checked {
        assert_eq!(next_move, PLAYER_TWO);
        assert_eq!(kalaha.buckets(), [4, 4, 4, 0, 5, 5, 1, 5, 4, 4, 4, 4, 4, 0]);
    } else {
        panic!()
    }
}

#[test]
fn make_move_is_deterministic() {
    let kalaha = Kalaha::of([2, 0, 7, 1, 0, 3, 5, 4, 0, 6, 2, 0, 9, 9]);
    let first = kalaha.make_move(2, PLAYER_ONE);
    let second = kalaha.make_move(2, PLAYER_ONE);
    match (first, second) {
        (
            AfterMove::Regular { kalaha: a, next_move: na },
            AfterMove::Regular { kalaha: b, next_move: nb },
        ) => {
            assert_eq!(a.buckets(), b.buckets());
            assert_eq!(na, nb);
        },
        _ => panic!(),
    }
}

#[test]
fn stones_stay_conserved_and_in_range_over_a_game_prefix() {
    let mut kalaha = Kalaha::new();
    let mut player = PLAYER_ONE;
    for _ in 0..20 {
        let mut pit = usize::MAX;
        let lo = if player == PLAYER_ONE { 0 } else { 7 };
        for k in lo..lo + 6 {
            if kalaha.get_bucket(k) != 0 {
                pit = k;
                break;
            }
        }
        if pit == usize::MAX {
            break;
        }
        match kalaha.make_move(pit, player) {
            AfterMove::Regular { kalaha: next, next_move } => {
                kalaha = next;
                player = next_move;
            },
            AfterMove::Winner { winner: _ } => break,
        }
        let counts = kalaha.buckets();
        let sum: u32 = counts.iter().map(|c| *c as u32).sum();
        assert_eq!(sum, 48);
        assert!(counts.iter().all(|c| *c <= 48));
    }
}

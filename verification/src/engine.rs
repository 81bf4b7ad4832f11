//! Fixed-depth minimax search over the Kalaha rules.
//!
//! Player One maximises and player Two minimises the evaluation `store
//! of One minus store of Two`. The search walks every legal move to a
//! fixed ply budget; a ply is consumed by every move, extra turns
//! included. Move selection compares strictly, so among equally good
//! moves the lowest pit index wins.

use vstd::prelude::*;

use crate::kalaha::has_legal_move;
use crate::kalaha::is_own_pit;
use crate::kalaha::is_player;
use crate::kalaha::other_store;
use crate::kalaha::own_store;
use crate::kalaha::spec_board_after;
use crate::kalaha::spec_next_player;
use crate::kalaha::wf_board;
use crate::kalaha::AfterMove;
use crate::kalaha::Kalaha;
use crate::kalaha::MoveError;
use crate::kalaha::PLAYER_ONE;
use crate::kalaha::PLAYER_TWO;

verus! {

/// The score standing for a certain win of player One.
pub const MAX: i16 = 127;

/// The score standing for a certain win of player Two.
pub const MIN: i16 = -128;

/// The evaluation of a board from player One's point of view: player
/// One's store minus player Two's store.
pub open spec fn spec_eval(s: Seq<int>) -> int {
    s[6] - s[13]
}

/// The pit index of `player`'s `k`-th playable pit.
pub open spec fn pit_of(player: u8, k: int) -> int {
    if player == PLAYER_ONE {
        k
    } else {
        7 + k
    }
}

/// Whether `v` is a strict improvement over `acc` for `player`: larger
/// for the maximiser One, smaller for the minimiser Two.
pub open spec fn better(player: u8, v: int, acc: int) -> bool {
    if player == PLAYER_ONE {
        v > acc
    } else {
        v < acc
    }
}

/// The running best of a fold over move values.
pub open spec fn combine(player: u8, acc: int, v: int) -> int {
    if better(player, v, acc) {
        v
    } else {
        acc
    }
}

/// The value, for the search, of `player` playing pit `pit` on board
/// `s`: a terminal result maps to the win scores (`MAX` for One, `MIN`
/// for Two, 0 for a draw), and a continuation is searched `depth` plies
/// deeper.
pub open spec fn spec_child_value(s: Seq<int>, pit: int, player: u8, depth: nat) -> int
    decreases depth, 2int, 0int,
{
    let nb = spec_board_after(s, pit, player);
    if nb[own_store(player)] > 24 {
        if player == PLAYER_ONE {
            MAX as int
        } else {
            MIN as int
        }
    } else if nb[other_store(player)] > 24 {
        if player == PLAYER_ONE {
            MIN as int
        } else {
            MAX as int
        }
    } else if nb[own_store(player)] == 24 && nb[other_store(player)] == 24 {
        0
    } else {
        spec_search(nb, spec_next_player(s, pit, player), depth)
    }
}

/// The minimax value of board `s` with `player` on turn and `depth`
/// plies left: the board evaluation at depth 0, otherwise the best value
/// over `player`'s legal moves.
pub open spec fn spec_search(s: Seq<int>, player: u8, depth: nat) -> int
    decreases depth, 1int, 0int,
{
    if depth == 0 {
        spec_eval(s)
    } else if player == PLAYER_ONE {
        spec_fold(s, PLAYER_ONE, depth, 0, MIN as int)
    } else {
        spec_fold(s, PLAYER_TWO, depth, 0, MAX as int)
    }
}

/// The fold behind `spec_search`: the best value over `player`'s moves
/// from the `k`-th pit on, starting from the running best `acc` and
/// skipping empty pits.
pub open spec fn spec_fold(s: Seq<int>, player: u8, depth: nat, k: int, acc: int) -> int
    decreases depth, 0int, 6 - k,
{
    if depth == 0 || !(0 <= k < 6) {
        acc
    } else {
        let pit = pit_of(player, k);
        let acc2 = if s[pit] == 0 {
            acc
        } else {
            combine(player, acc, spec_child_value(s, pit, player, (depth - 1) as nat))
        };
        spec_fold(s, player, depth, k + 1, acc2)
    }
}

/// The top-level selection fold: walks `player`'s pits from the `k`-th
/// on, keeps the first legal pit and after that only a strictly better
/// one, and yields the chosen pit (or -1 when none was legal) and its
/// value.
pub open spec fn spec_best_from(
    s: Seq<int>,
    player: u8,
    depth: nat,
    k: int,
    best_pit: int,
    best_val: int,
) -> (int, int)
    decreases depth, 3int, 6 - k,
{
    if !(0 <= k < 6) {
        (best_pit, best_val)
    } else {
        let pit = pit_of(player, k);
        if s[pit] == 0 {
            spec_best_from(s, player, depth, k + 1, best_pit, best_val)
        } else {
            let v = spec_child_value(s, pit, player, depth);
            if best_pit < 0 || better(player, v, best_val) {
                spec_best_from(s, player, depth, k + 1, pit, v)
            } else {
                spec_best_from(s, player, depth, k + 1, best_pit, best_val)
            }
        }
    }
}

/// The pit `best_move` returns: the leftmost of `player`'s legal pits
/// with the best value at look-ahead `depth`.
pub open spec fn spec_best_move(s: Seq<int>, player: u8, depth: nat) -> int {
    spec_best_from(s, player, depth, 0, -1, 0).0
}

/// Every value a move can take lies between the two win scores: the
/// terminal scores are the bounds themselves, and every continuation
/// bottoms out in a board evaluation, which 48 stones keep within them.
pub proof fn lemma_child_value_bounds(s: Seq<int>, pit: int, player: u8, depth: nat)
    requires
        wf_board(s),
        is_player(player),
        is_own_pit(pit, player),
        s[pit] > 0,
    ensures
        MIN as int <= spec_child_value(s, pit, player, depth) <= MAX as int,
    decreases depth, 2int, 0int,
{
    let nb = spec_board_after(s, pit, player);
    if !(nb[own_store(player)] > 24) && !(nb[other_store(player)] > 24) && !(nb[own_store(player)]
        == 24 && nb[other_store(player)] == 24) {
        crate::kalaha::lemma_move_conserves(s, pit, player);
        lemma_search_bounds(nb, spec_next_player(s, pit, player), depth);
    }
}

/// The minimax value of a well-formed board lies between the two win
/// scores.
pub proof fn lemma_search_bounds(s: Seq<int>, player: u8, depth: nat)
    requires
        wf_board(s),
        is_player(player),
    ensures
        MIN as int <= spec_search(s, player, depth) <= MAX as int,
    decreases depth, 1int, 0int,
{
    if depth == 0 {
        crate::kalaha::lemma_counts_in_range(s);
    } else if player == PLAYER_ONE {
        lemma_fold_bounds(s, PLAYER_ONE, depth, 0, MIN as int);
    } else {
        lemma_fold_bounds(s, PLAYER_TWO, depth, 0, MAX as int);
    }
}

/// The fold over move values stays between the two win scores whenever
/// its running best starts there.
pub proof fn lemma_fold_bounds(s: Seq<int>, player: u8, depth: nat, k: int, acc: int)
    requires
        wf_board(s),
        is_player(player),
        MIN as int <= acc <= MAX as int,
    ensures
        MIN as int <= spec_fold(s, player, depth, k, acc) <= MAX as int,
    decreases depth, 0int, 6 - k,
{
    if depth != 0 && 0 <= k < 6 {
        let pit = pit_of(player, k);
        if s[pit] == 0 {
            lemma_fold_bounds(s, player, depth, k + 1, acc);
        } else {
            lemma_child_value_bounds(s, pit, player, (depth - 1) as nat);
            let acc2 = combine(player, acc, spec_child_value(s, pit, player, (depth - 1) as nat));
            lemma_fold_bounds(s, player, depth, k + 1, acc2);
        }
    }
}

/// A found certain win absorbs the rest of the fold: once the running
/// best is the mover's own win score, no later move changes it.
proof fn lemma_fold_absorbs_win(s: Seq<int>, player: u8, depth: nat, k: int)
    requires
        wf_board(s),
        is_player(player),
        depth > 0,
    ensures
        player == PLAYER_ONE ==> spec_fold(s, player, depth, k, MAX as int) == MAX as int,
        player == PLAYER_TWO ==> spec_fold(s, player, depth, k, MIN as int) == MIN as int,
    decreases 6 - k,
{
    if 0 <= k < 6 {
        let pit = pit_of(player, k);
        if s[pit] != 0 {
            lemma_child_value_bounds(s, pit, player, (depth - 1) as nat);
        }
        lemma_fold_absorbs_win(s, player, depth, k + 1);
    }
}

/// The summary that the selection fold keeps after looking at the first
/// `k` pits: either none of them was legal (`bp == -1`), or `bp` is a
/// legal pit among them, `bv` is its value, no legal pit among them
/// beats `bv`, and every legal pit left of `bp` is strictly beaten.
pub open spec fn selection_summary(
    s: Seq<int>,
    player: u8,
    depth: nat,
    k: int,
    bp: int,
    bv: int,
) -> bool {
    if bp == -1 {
        forall|j: int| #![trigger pit_of(player, j)] 0 <= j < k ==> s[pit_of(player, j)] == 0
    } else {
        &&& exists|j0: int| #![trigger pit_of(player, j0)] 0 <= j0 < k && bp == pit_of(player, j0)
        &&& s[bp] > 0
        &&& bv == spec_child_value(s, bp, player, depth)
        &&& forall|j: int|
            #![trigger pit_of(player, j)]
            0 <= j < k && s[pit_of(player, j)] > 0 ==> !better(
                player,
                spec_child_value(s, pit_of(player, j), player, depth),
                bv,
            )
        &&& forall|j: int|
            #![trigger pit_of(player, j)]
            0 <= j < k && pit_of(player, j) < bp && s[pit_of(player, j)] > 0 ==> better(
                player,
                bv,
                spec_child_value(s, pit_of(player, j), player, depth),
            )
    }
}

/// The selection fold turns a valid summary of the first `k` pits into a
/// valid summary of all six.
proof fn lemma_best_from_props(s: Seq<int>, player: u8, depth: nat, k: int, bp: int, bv: int)
    requires
        wf_board(s),
        is_player(player),
        0 <= k <= 6,
        bp == -1 || is_own_pit(bp, player),
        selection_summary(s, player, depth, k, bp, bv),
    ensures
        ({
            let r = spec_best_from(s, player, depth, k, bp, bv);
            &&& r.0 == -1 || is_own_pit(r.0, player)
            &&& selection_summary(s, player, depth, 6, r.0, r.1)
        }),
    decreases 6 - k,
{
    if k < 6 {
        let pit = pit_of(player, k);
        if s[pit] == 0 {
            assert(selection_summary(s, player, depth, k + 1, bp, bv));
            lemma_best_from_props(s, player, depth, k + 1, bp, bv);
        } else {
            let v = spec_child_value(s, pit, player, depth);
            if bp < 0 || better(player, v, bv) {
                assert(0 <= k < k + 1 && pit == pit_of(player, k));
                assert forall|j: int|
                    0 <= j < k + 1 && s[#[trigger] pit_of(player, j)] > 0 implies !better(
                    player,
                    spec_child_value(s, pit_of(player, j), player, depth),
                    v,
                ) by {
                    if j < k {
                        if bp == -1 {
                            assert(s[pit_of(player, j)] == 0);
                        } else {
                            assert(!better(
                                player,
                                spec_child_value(s, pit_of(player, j), player, depth),
                                bv,
                            ));
                        }
                    }
                }
                assert forall|j: int|
                    0 <= j < k + 1 && pit_of(player, j) < pit && s[#[trigger] pit_of(player, j)]
                    > 0 implies better(
                    player,
                    v,
                    spec_child_value(s, pit_of(player, j), player, depth),
                ) by {
                    if j < k {
                        if bp == -1 {
                            assert(s[pit_of(player, j)] == 0);
                        } else {
                            assert(!better(
                                player,
                                spec_child_value(s, pit_of(player, j), player, depth),
                                bv,
                            ));
                        }
                    }
                }
                assert(selection_summary(s, player, depth, k + 1, pit, v));
                lemma_best_from_props(s, player, depth, k + 1, pit, v);
            } else {
                assert(selection_summary(s, player, depth, k + 1, bp, bv));
                lemma_best_from_props(s, player, depth, k + 1, bp, bv);
            }
        }
    }
}

/// Search sanity: the chosen move is a legal pit, no legal pit has a
/// strictly better value at the same look-ahead, and among equally good
/// pits the leftmost one wins. At depth 0 a pit's value is the immediate
/// result of its move, so the choice is exactly one-ply greedy selection
/// on the resulting evaluation.
pub proof fn lemma_best_move_optimal(s: Seq<int>, player: u8, depth: nat)
    requires
        wf_board(s),
        is_player(player),
        has_legal_move(s, player),
    ensures
        ({
            let r = spec_best_move(s, player, depth);
            &&& is_own_pit(r, player)
            &&& s[r] > 0
            &&& forall|q: int|
                is_own_pit(q, player) && #[trigger] s[q] > 0 ==> !better(
                    player,
                    spec_child_value(s, q, player, depth),
                    spec_child_value(s, r, player, depth),
                )
            &&& forall|q: int|
                is_own_pit(q, player) && #[trigger] s[q] > 0 && q < r ==> better(
                    player,
                    spec_child_value(s, r, player, depth),
                    spec_child_value(s, q, player, depth),
                )
        }),
{
    lemma_best_from_props(s, player, depth, 0, -1, 0);
    let r = spec_best_from(s, player, depth, 0, -1, 0).0;
    let rv = spec_best_from(s, player, depth, 0, -1, 0).1;
    if r == -1 {
        assert(s[pit_of(player, 0)] == 0);
        assert(s[pit_of(player, 1)] == 0);
        assert(s[pit_of(player, 2)] == 0);
        assert(s[pit_of(player, 3)] == 0);
        assert(s[pit_of(player, 4)] == 0);
        assert(s[pit_of(player, 5)] == 0);
        assert(false);
    }
    assert(rv == spec_child_value(s, r, player, depth));
    assert forall|q: int| is_own_pit(q, player) && #[trigger] s[q] > 0 implies !better(
        player,
        spec_child_value(s, q, player, depth),
        rv,
    ) by {
        let j = if player == PLAYER_ONE {
            q
        } else {
            q - 7
        };
        assert(q == pit_of(player, j));
    }
    assert forall|q: int| is_own_pit(q, player) && #[trigger] s[q] > 0 && q < r implies better(
        player,
        rv,
        spec_child_value(s, q, player, depth),
    ) by {
        let j = if player == PLAYER_ONE {
            q
        } else {
            q - 7
        };
        assert(q == pit_of(player, j));
    }
}

/// The board evaluation used at the leaves of the search.
fn eval(kalaha: &Kalaha) -> (r: i16)
    ensures
        r as int == spec_eval(kalaha@),
{
    kalaha.get_bucket(6) as i16 - kalaha.get_bucket(13) as i16
}

/// The strict comparator of the maximiser.
fn greater(x: i16, y: i16) -> (r: bool)
    ensures
        r == (x > y),
{
    x > y
}

/// The strict comparator of the minimiser.
fn lower(x: i16, y: i16) -> (r: bool)
    ensures
        r == (x < y),
{
    x < y
}

/// The value of one legal move: the move is applied, a terminal result
/// is mapped to its score, and a continuation is searched `depth` plies
/// deeper by whichever player is then on turn.
fn move_value(kalaha: &Kalaha, pit: usize, player: u8, depth: u8) -> (v: i16)
    requires
        kalaha.wf(),
        is_player(player),
        is_own_pit(pit as int, player),
        kalaha@[pit as int] > 0,
    ensures
        v as int == spec_child_value(kalaha@, pit as int, player, depth as nat),
    decreases depth, 2int,
{
    match kalaha.make_move(pit, player) {
        AfterMove::Winner { winner } => {
            if winner == PLAYER_ONE {
                MAX
            } else if winner == PLAYER_TWO {
                MIN
            } else {
                0
            }
        },
        AfterMove::Regular { kalaha: child, next_move } => {
            if next_move == PLAYER_ONE {
                max(child, depth)
            } else {
                min(child, depth)
            }
        },
    }
}

/// The maximising node of the search: player One's best achievable value
/// within `depth` plies.
#[verifier::loop_isolation(false)]
fn max(kalaha: Kalaha, depth: u8) -> (r: i16)
    requires
        kalaha.wf(),
    ensures
        r as int == spec_search(kalaha@, PLAYER_ONE, depth as nat),
    decreases depth, 1int,
{
    if depth == 0 {
        return eval(&kalaha);
    }
    let mut max_eval: i16 = MIN;
    let mut k: usize = 0;
    while k < 6
        invariant
            k <= 6,
            MIN <= max_eval <= MAX,
            spec_fold(kalaha@, PLAYER_ONE, depth as nat, k as int, max_eval as int) == spec_fold(
                kalaha@,
                PLAYER_ONE,
                depth as nat,
                0,
                MIN as int,
            ),
        decreases 6 - k,
    {
        if kalaha.get_bucket(k) != 0 {
            let ghost prev = max_eval as int;
            let v = move_value(&kalaha, k, PLAYER_ONE, depth - 1);
            proof {
                lemma_child_value_bounds(kalaha@, k as int, PLAYER_ONE, (depth - 1) as nat);
            }
            if v == MAX {
                // A certain win for the maximiser: no later move can
                // change the node's value.
                proof {
                    lemma_fold_absorbs_win(kalaha@, PLAYER_ONE, depth as nat, k as int + 1);
                }
                return MAX;
            }
            if greater(v, max_eval) {
                max_eval = v;
            }
            proof {
                assert(max_eval as int == combine(PLAYER_ONE, prev, v as int));
            }
        }
        k = k + 1;
    }
    max_eval
}

/// The minimising node of the search: player Two's best achievable value
/// within `depth` plies.
#[verifier::loop_isolation(false)]
fn min(kalaha: Kalaha, depth: u8) -> (r: i16)
    requires
        kalaha.wf(),
    ensures
        r as int == spec_search(kalaha@, PLAYER_TWO, depth as nat),
    decreases depth, 1int,
{
    if depth == 0 {
        return eval(&kalaha);
    }
    let mut min_eval: i16 = MAX;
    let mut k: usize = 0;
    while k < 6
        invariant
            k <= 6,
            MIN <= min_eval <= MAX,
            spec_fold(kalaha@, PLAYER_TWO, depth as nat, k as int, min_eval as int) == spec_fold(
                kalaha@,
                PLAYER_TWO,
                depth as nat,
                0,
                MAX as int,
            ),
        decreases 6 - k,
    {
        let pit = 7 + k;
        if kalaha.get_bucket(pit) != 0 {
            let ghost prev = min_eval as int;
            let v = move_value(&kalaha, pit, PLAYER_TWO, depth - 1);
            proof {
                lemma_child_value_bounds(kalaha@, pit as int, PLAYER_TWO, (depth - 1) as nat);
            }
            if v == MIN {
                // A certain win for the minimiser: no later move can
                // change the node's value.
                proof {
                    lemma_fold_absorbs_win(kalaha@, PLAYER_TWO, depth as nat, k as int + 1);
                }
                return MIN;
            }
            if lower(v, min_eval) {
                min_eval = v;
            }
            proof {
                assert(min_eval as int == combine(PLAYER_TWO, prev, v as int));
            }
        }
        k = k + 1;
    }
    min_eval
}

/// The move the engine plays for `player`: every legal pit is valued by
/// a minimax search `depth` plies deep, and the leftmost pit with the
/// strictly best value is returned.
#[verifier::loop_isolation(false)]
pub fn best_move(kalaha: Kalaha, player: u8, depth: u8) -> (r: usize)
    requires
        kalaha.wf(),
        is_player(player),
        has_legal_move(kalaha@, player),
    ensures
        r as int == spec_best_move(kalaha@, player, depth as nat),
        is_own_pit(r as int, player),
        kalaha@[r as int] > 0,
        forall|q: int|
            is_own_pit(q, player) && #[trigger] kalaha@[q] > 0 ==> !better(
                player,
                spec_child_value(kalaha@, q, player, depth as nat),
                spec_child_value(kalaha@, r as int, player, depth as nat),
            ),
        forall|q: int|
            is_own_pit(q, player) && #[trigger] kalaha@[q] > 0 && q < r as int ==> better(
                player,
                spec_child_value(kalaha@, r as int, player, depth as nat),
                spec_child_value(kalaha@, q, player, depth as nat),
            ),
{
    proof {
        lemma_best_move_optimal(kalaha@, player, depth as nat);
    }
    let lo: usize = if player == PLAYER_ONE {
        0
    } else {
        7
    };
    let mut have: bool = false;
    let mut best: usize = 0;
    let mut best_eval: i16 = 0;
    let mut k: usize = 0;
    while k < 6
        invariant
            k <= 6,
            !have ==> best_eval == 0 && forall|j: int|
                0 <= j < k ==> kalaha@[pit_of(player, j)] == 0,
            have ==> is_own_pit(best as int, player) && kalaha@[best as int] > 0,
            spec_best_from(
                kalaha@,
                player,
                depth as nat,
                k as int,
                if have {
                    best as int
                } else {
                    -1
                },
                best_eval as int,
            ) == spec_best_from(kalaha@, player, depth as nat, 0, -1, 0),
        decreases 6 - k,
    {
        let pit = lo + k;
        proof {
            assert(pit as int == pit_of(player, k as int));
        }
        if kalaha.get_bucket(pit) != 0 {
            let v = move_value(&kalaha, pit, player, depth);
            let adopt = if !have {
                true
            } else if player == PLAYER_ONE {
                greater(v, best_eval)
            } else {
                lower(v, best_eval)
            };
            if adopt {
                best = pit;
                best_eval = v;
                have = true;
            }
        }
        k = k + 1;
    }
    proof {
        if !have {
            assert(kalaha@[pit_of(player, 0)] == 0);
            assert(kalaha@[pit_of(player, 1)] == 0);
            assert(kalaha@[pit_of(player, 2)] == 0);
            assert(kalaha@[pit_of(player, 3)] == 0);
            assert(kalaha@[pit_of(player, 4)] == 0);
            assert(kalaha@[pit_of(player, 5)] == 0);
            assert(false);
        }
    }
    best
}

/// The checked form of `best_move`: it validates the player marker and
/// the existence of a legal move, returning `InvalidPlayer` or
/// `NoLegalMove` instead of requiring them.
#[verifier::loop_isolation(false)]
pub fn try_best_move(kalaha: &Kalaha, player: u8, depth: u8) -> (r: Result<usize, MoveError>)
    requires
        kalaha.wf(),
    ensures
        !is_player(player) ==> r == Err::<usize, MoveError>(MoveError::InvalidPlayer),
        is_player(player) && !has_legal_move(kalaha@, player) ==> r == Err::<usize, MoveError>(
            MoveError::NoLegalMove,
        ),
        is_player(player) && has_legal_move(kalaha@, player) ==> (r matches Ok(p) && p as int
            == spec_best_move(kalaha@, player, depth as nat) && is_own_pit(p as int, player)
            && kalaha@[p as int] > 0),
{
    if player != PLAYER_ONE && player != PLAYER_TWO {
        return Err(MoveError::InvalidPlayer);
    }
    let lo: usize = if player == PLAYER_ONE {
        0
    } else {
        7
    };
    let mut any: bool = false;
    let mut k: usize = 0;
    while k < 6
        invariant
            k <= 6,
            any ==> has_legal_move(kalaha@, player),
            !any ==> forall|j: int| 0 <= j < k ==> kalaha@[pit_of(player, j)] == 0,
        decreases 6 - k,
    {
        if kalaha.get_bucket(lo + k) != 0 {
            proof {
                assert(is_own_pit((lo + k) as int, player) && kalaha@[(lo + k) as int] > 0);
            }
            any = true;
        }
        k = k + 1;
    }
    if !any {
        proof {
            assert(kalaha@[pit_of(player, 0)] == 0);
            assert(kalaha@[pit_of(player, 1)] == 0);
            assert(kalaha@[pit_of(player, 2)] == 0);
            assert(kalaha@[pit_of(player, 3)] == 0);
            assert(kalaha@[pit_of(player, 4)] == 0);
            assert(kalaha@[pit_of(player, 5)] == 0);
            assert(!has_legal_move(kalaha@, player));
        }
        return Err(MoveError::NoLegalMove);
    }
    Ok(best_move(*kalaha, player, depth))
}

} // verus!

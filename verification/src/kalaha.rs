//! The Kalaha board and its single state transition.
//!
//! A board holds fourteen pits: indices 0 to 5 are player One's playable
//! pits, index 6 is player One's store, indices 7 to 12 are player Two's
//! playable pits, and index 13 is player Two's store. A move sows the
//! stones of one pit counter-clockwise (skipping the opponent's store),
//! may capture, may grant an extra turn, sweeps a starved board, and
//! reports a winner once a store holds a majority of the stones.

use vstd::prelude::*;

verus! {

/// The marker for player One, who owns pits 0 to 5 and store 6.
pub const PLAYER_ONE: u8 = 0;

/// The marker for player Two, who owns pits 7 to 12 and store 13.
pub const PLAYER_TWO: u8 = 1;

/// The marker for a drawn game; never a valid player argument.
pub const REMIS: u8 = 2;

/// A Kalaha board. The counts are kept as bytes; every board built
/// through this module holds at most 48 stones in total.
#[derive(Copy, Clone)]
pub struct Kalaha {
    buckets: [u8; 14],
}

/// The outcome of one move: either the game goes on with a new board and
/// a player on turn, or it is over and a winner (or `REMIS`) is named.
pub enum AfterMove {
    Regular { kalaha: Kalaha, next_move: u8 },
    Winner { winner: u8 },
}

/// The failures a caller can provoke: a pit outside the mover's row or
/// empty, a player marker that is neither `PLAYER_ONE` nor `PLAYER_TWO`,
/// or a search request on a board without a legal move.
#[derive(Copy, Clone, PartialEq, Eq, Structural, Debug)]
pub enum MoveError {
    InvalidMove,
    InvalidPlayer,
    NoLegalMove,
}

/// True of the two real player markers, `PLAYER_ONE` and `PLAYER_TWO`.
pub open spec fn is_player(p: u8) -> bool {
    p == PLAYER_ONE || p == PLAYER_TWO
}

/// The player whose turn it is not.
pub open spec fn spec_other(p: u8) -> u8 {
    if p == PLAYER_ONE {
        PLAYER_TWO
    } else {
        PLAYER_ONE
    }
}

/// The index of `p`'s own store.
pub open spec fn own_store(p: u8) -> int {
    if p == PLAYER_ONE {
        6
    } else {
        13
    }
}

/// The index of the opponent's store.
pub open spec fn other_store(p: u8) -> int {
    if p == PLAYER_ONE {
        13
    } else {
        6
    }
}

/// True when `i` is one of `p`'s six playable pits (stores excluded).
pub open spec fn is_own_pit(i: int, p: u8) -> bool {
    if p == PLAYER_ONE {
        0 <= i < 6
    } else {
        7 <= i < 13
    }
}

/// The number of stones on the whole board.
pub open spec fn total(s: Seq<int>) -> int
    recommends
        s.len() == 14,
{
    s[0] + s[1] + s[2] + s[3] + s[4] + s[5] + s[6] + s[7] + s[8] + s[9] + s[10] + s[11] + s[12]
        + s[13]
}

/// The number of stones in `p`'s six playable pits.
pub open spec fn side_total(s: Seq<int>, p: u8) -> int
    recommends
        s.len() == 14,
{
    if p == PLAYER_ONE {
        s[0] + s[1] + s[2] + s[3] + s[4] + s[5]
    } else {
        s[7] + s[8] + s[9] + s[10] + s[11] + s[12]
    }
}

/// True when `player` still has a stone in one of their own playable
/// pits, so a move is possible; on a board of non-negative counts this
/// is exactly a non-empty own row.
pub open spec fn has_legal_move(s: Seq<int>, player: u8) -> bool
    recommends
        s.len() == 14,
{
    side_total(s, player) > 0
}

/// A well-formed board: fourteen pits, no negative count, and at most 48
/// stones in all. Every board the library hands out satisfies this.
pub open spec fn wf_board(s: Seq<int>) -> bool {
    &&& s.len() == 14
    &&& forall|i: int| 0 <= i < 14 ==> 0 <= #[trigger] s[i]
    &&& total(s) <= 48
}

/// The fixed starting position: four stones in each playable pit and
/// empty stores.
pub open spec fn starting_board() -> Seq<int> {
    seq![4, 4, 4, 4, 4, 4, 0, 4, 4, 4, 4, 4, 4, 0]
}

/// The model of a raw bucket array as a sequence of counts.
pub open spec fn board_of(a: [u8; 14]) -> Seq<int> {
    Seq::new(14, |i: int| a[i] as int)
}

/// The pit after `i` in sowing order, with index 13 wrapping to 0.
pub open spec fn wrap_idx(i: int) -> int {
    if i == 13 {
        0
    } else {
        i + 1
    }
}

/// The pit that receives the next stone after `i`: one step forward,
/// stepping once more when that lands on the skipped store `skip`.
pub open spec fn next_pit(i: int, skip: int) -> int {
    let j = wrap_idx(i);
    if j == skip {
        wrap_idx(j)
    } else {
        j
    }
}

/// Dropping `stones` stones one by one into the pits after `i`, never
/// into the store `skip`. Yields the board and the last pit served.
pub open spec fn spec_sow(s: Seq<int>, i: int, stones: nat, skip: int) -> (Seq<int>, int)
    decreases stones,
{
    if stones == 0 {
        (s, i)
    } else {
        let j = next_pit(i, skip);
        spec_sow(s.update(j, s[j] + 1), j, (stones - 1) as nat, skip)
    }
}

/// The board and landing pit after emptying `pit` and sowing its stones
/// for `player`.
pub open spec fn spec_sown(s: Seq<int>, pit: int, player: u8) -> (Seq<int>, int) {
    spec_sow(s.update(pit, 0), pit, s[pit] as nat, other_store(player))
}

/// The pit the last stone fell into.
pub open spec fn spec_landing(s: Seq<int>, pit: int, player: u8) -> int {
    spec_sown(s, pit, player).1
}

/// The player on turn after the move: the mover again exactly when the
/// last stone landed in the mover's own store.
pub open spec fn spec_next_player(s: Seq<int>, pit: int, player: u8) -> u8 {
    if spec_landing(s, pit, player) == own_store(player) {
        player
    } else {
        spec_other(player)
    }
}

/// The capture step: when the last stone landed in one of the mover's own
/// playable pits that was empty before (so holds exactly one stone now),
/// that stone and the whole opposite pit move into the mover's store.
pub open spec fn spec_captured(s: Seq<int>, landing: int, player: u8) -> Seq<int> {
    if is_own_pit(landing, player) && s[landing] == 1 {
        let opp = 12 - landing;
        s.update(own_store(player), s[own_store(player)] + 1 + s[opp]).update(landing, 0).update(
            opp,
            0,
        )
    } else {
        s
    }
}

/// The board with `p`'s six playable pits emptied.
pub open spec fn clear_side_spec(s: Seq<int>, p: u8) -> Seq<int> {
    Seq::new(s.len(), |i: int| if is_own_pit(i, p) { 0 } else { s[i] })
}

/// The starvation sweep: when the mover's row is empty, the opponent's
/// remaining stones go into the opponent's store; otherwise, when the
/// opponent's row is empty, the mover's remaining stones go into the
/// mover's store.
pub open spec fn spec_swept(s: Seq<int>, player: u8) -> Seq<int> {
    let my = side_total(s, player);
    let their = side_total(s, spec_other(player));
    if my == 0 {
        clear_side_spec(s, spec_other(player)).update(
            other_store(player),
            s[other_store(player)] + their,
        )
    } else if their == 0 {
        clear_side_spec(s, player).update(own_store(player), s[own_store(player)] + my)
    } else {
        s
    }
}

/// The full board transition of one valid move: sowing, then capture,
/// then the starvation sweep.
pub open spec fn spec_board_after(s: Seq<int>, pit: int, player: u8) -> Seq<int> {
    let sown = spec_sown(s, pit, player);
    spec_swept(spec_captured(sown.0, sown.1, player), player)
}

/// What `make_move` returns on a valid move from board `s`: a winner as
/// soon as a store holds more than half the stones, a draw when both
/// stores hold exactly 24, and otherwise the new board with the player
/// on turn.
pub open spec fn move_result_matches(s: Seq<int>, pit: int, player: u8, r: AfterMove) -> bool {
    let nb = spec_board_after(s, pit, player);
    if nb[own_store(player)] > 24 {
        r == (AfterMove::Winner { winner: player })
    } else if nb[other_store(player)] > 24 {
        r == (AfterMove::Winner { winner: spec_other(player) })
    } else if nb[own_store(player)] == 24 && nb[other_store(player)] == 24 {
        r == (AfterMove::Winner { winner: REMIS })
    } else {
        r matches AfterMove::Regular { kalaha, next_move } && kalaha@ == nb && next_move
            == spec_next_player(s, pit, player)
    }
}

impl View for Kalaha {
    type V = Seq<int>;

    closed spec fn view(&self) -> Seq<int> {
        board_of(self.buckets)
    }
}

impl Kalaha {
    /// Well-formedness of this board's counts.
    pub open spec fn wf(&self) -> bool {
        wf_board(self@)
    }

    /// The starting board of a game.
    pub fn new() -> (r: Kalaha)
        ensures
            r@ == starting_board(),
            r.wf(),
            total(r@) == 48,
    {
        let mut buckets: [u8; 14] = [4; 14];
        buckets[6] = 0;
        buckets[13] = 0;
        let r = Kalaha { buckets };
        proof {
            assert(r@ =~= starting_board());
        }
        r
    }

    /// A board with the given counts; the caller keeps the 48-stone bound.
    pub fn of(buckets: [u8; 14]) -> (r: Kalaha)
        requires
            total(board_of(buckets)) <= 48,
        ensures
            r@ == board_of(buckets),
            r.wf(),
    {
        Kalaha { buckets }
    }

    /// The count in pit `idx`.
    pub fn get_bucket(&self, idx: usize) -> (r: u8)
        requires
            idx < 14,
        ensures
            r as int == self@[idx as int],
    {
        self.buckets[idx]
    }

    /// Overwrites pit `idx`.
    fn set_bucket(&mut self, idx: usize, value: u8)
        requires
            idx < 14,
        ensures
            final(self)@ == old(self)@.update(idx as int, value as int),
    {
        self.buckets[idx] = value;
        proof {
            assert(self@ =~= old(self)@.update(idx as int, value as int));
        }
    }

    /// Adds `inc` stones to pit `idx`.
    fn inc_bucket(&mut self, idx: usize, inc: u8)
        requires
            idx < 14,
            old(self)@[idx as int] + inc <= 255,
        ensures
            final(self)@ == old(self)@.update(idx as int, old(self)@[idx as int] + inc),
    {
        self.buckets[idx] = self.buckets[idx] + inc;
        proof {
            assert(self@ =~= old(self)@.update(idx as int, old(self)@[idx as int] + inc));
        }
    }

    /// The pair (own store, opponent's store) for `player`.
    pub fn kalahas(player: u8) -> (r: (usize, usize))
        requires
            is_player(player),
        ensures
            r.0 as int == own_store(player),
            r.1 as int == other_store(player),
    {
        if player == PLAYER_ONE {
            (6, 13)
        } else {
            (13, 6)
        }
    }

    /// The pit directly opposite a playable pit.
    fn opposite_bucket(idx: usize) -> (r: usize)
        requires
            idx <= 12,
        ensures
            r as int == 12 - idx,
    {
        12 - idx
    }

    /// Whether `idx` is one of `player`'s own playable pits; only such
    /// pits may be chosen as a move.
    pub fn check_idx(idx: usize, player: u8) -> (r: bool)
        ensures
            r == (is_player(player) && is_own_pit(idx as int, player)),
    {
        if player == PLAYER_ONE {
            idx < 6
        } else if player == PLAYER_TWO {
            idx > 6 && idx < 13
        } else {
            false
        }
    }

    /// The number of stones left in `player`'s six playable pits.
    fn stones_count(&self, player: u8) -> (r: u8)
        requires
            is_player(player),
            self.wf(),
        ensures
            r as int == side_total(self@, player),
    {
        let lo: usize = if player == PLAYER_ONE {
            0
        } else {
            7
        };
        self.get_bucket(lo) + self.get_bucket(lo + 1) + self.get_bucket(lo + 2) + self.get_bucket(
            lo + 3,
        ) + self.get_bucket(lo + 4) + self.get_bucket(lo + 5)
    }

    /// Empties `player`'s six playable pits.
    fn clear_side(&mut self, player: u8)
        requires
            is_player(player),
        ensures
            final(self)@ == clear_side_spec(old(self)@, player),
            final(self)@.len() == old(self)@.len(),
    {
        let lo: usize = if player == PLAYER_ONE {
            0
        } else {
            7
        };
        self.set_bucket(lo, 0);
        self.set_bucket(lo + 1, 0);
        self.set_bucket(lo + 2, 0);
        self.set_bucket(lo + 3, 0);
        self.set_bucket(lo + 4, 0);
        self.set_bucket(lo + 5, 0);
        proof {
            assert(self@ =~= clear_side_spec(old(self)@, player));
        }
    }

    /// Empties pit `idx` and sows its stones counter-clockwise, skipping
    /// the opponent's store; returns the new board and the landing pit.
    #[verifier::loop_isolation(false)]
    #[verifier::rlimit(50)]
    fn sow(&self, idx: usize, player: u8) -> (r: (Kalaha, usize))
        requires
            self.wf(),
            is_player(player),
            is_own_pit(idx as int, player),
            self@[idx as int] > 0,
        ensures
            r.0@ == spec_sown(self@, idx as int, player).0,
            r.1 as int == spec_sown(self@, idx as int, player).1,
            total(r.0@) == total(self@),
            r.1 < 14,
            r.1 as int != other_store(player),
    {
        let (_, other_kalaha) = Kalaha::kalahas(player);
        let mut stones = self.get_bucket(idx);
        let mut copy = *self;
        copy.set_bucket(idx, 0);
        let mut i = idx;
        let ghost start = self@.update(idx as int, 0);
        let ghost n0 = self@[idx as int] as nat;
        let ghost skip = other_store(player);
        while stones != 0
            invariant
                i < 14,
                i as int != skip,
                forall|k: int| 0 <= k < 14 ==> 0 <= #[trigger] copy@[k],
                total(copy@) + stones == total(self@),
                spec_sow(copy@, i as int, stones as nat, skip) == spec_sow(
                    start,
                    idx as int,
                    n0,
                    skip,
                ),
            decreases stones,
        {
            let ghost prev = copy@;
            let ghost prev_i = i as int;
            let ghost prev_stones = stones as nat;
            let mut j = if i == 13 {
                0
            } else {
                i + 1
            };
            if j == other_kalaha {
                j = if j == 13 {
                    0
                } else {
                    j + 1
                };
            }
            proof {
                assert(j as int == next_pit(prev_i, skip));
                assert(copy@[j as int] <= total(copy@));
            }
            copy.inc_bucket(j, 1);
            stones = stones - 1;
            i = j;
            proof {
                assert(spec_sow(prev, prev_i, prev_stones, skip) == spec_sow(
                    copy@,
                    i as int,
                    stones as nat,
                    skip,
                ));
            }
        }
        proof {
            assert((copy@, i as int) == spec_sown(self@, idx as int, player));
        }
        (copy, i)
    }

    /// Applies one move of `player` from pit `idx`: the pit is emptied
    /// and sown counter-clockwise past the opponent's store, a landing in
    /// an own empty pit captures, a landing in the own store keeps the
    /// turn, a starved board is swept, and a store holding more than half
    /// of the 48 stones (or both holding exactly half) ends the game.
    #[verifier::rlimit(50)]
    pub fn make_move(&self, idx: usize, player: u8) -> (r: AfterMove)
        requires
            self.wf(),
            is_player(player),
            is_own_pit(idx as int, player),
            self@[idx as int] > 0,
        ensures
            move_result_matches(self@, idx as int, player, r),
            r matches AfterMove::Regular { kalaha, next_move } ==> kalaha.wf() && total(kalaha@)
                == total(self@) && is_player(next_move),
    {
        let (my_kalaha, other_kalaha) = Kalaha::kalahas(player);
        let (mut copy, i) = self.sow(idx, player);
        let ghost b1 = copy@;
        let next_move = if i == my_kalaha {
            player
        } else {
            other_player(player)
        };
        if Kalaha::check_idx(i, player) && copy.get_bucket(i) == 1 {
            let opposite_idx = Kalaha::opposite_bucket(i);
            let opp_count = copy.get_bucket(opposite_idx);
            proof {
                assert(b1[my_kalaha as int] <= total(b1));
                assert(b1[opposite_idx as int] <= total(b1));
            }
            copy.inc_bucket(my_kalaha, 1);
            copy.inc_bucket(my_kalaha, opp_count);
            copy.set_bucket(i, 0);
            copy.set_bucket(opposite_idx, 0);
            proof {
                assert(copy@ =~= spec_captured(b1, i as int, player));
                assert(total(copy@) == total(b1));
            }
        }
        let ghost b2 = copy@;
        proof {
            assert(b2 == spec_captured(b1, i as int, player));
            assert(total(b2) == total(self@));
            assert(copy.wf());
        }
        let other = other_player(player);
        let my_stones = copy.stones_count(player);
        let other_stones = copy.stones_count(other);
        if my_stones == 0 {
            copy.inc_bucket(other_kalaha, other_stones);
            copy.clear_side(other);
            proof {
                assert(copy@ =~= spec_swept(b2, player));
            }
        } else if other_stones == 0 {
            copy.inc_bucket(my_kalaha, my_stones);
            copy.clear_side(player);
            proof {
                assert(copy@ =~= spec_swept(b2, player));
            }
        }
        proof {
            assert(copy@ == spec_board_after(self@, idx as int, player));
            assert(total(copy@) == total(self@));
            assert(copy.wf());
        }
        let my_result = copy.get_bucket(my_kalaha);
        let other_result = copy.get_bucket(other_kalaha);
        if my_result > 24 {
            AfterMove::Winner { winner: player }
        } else if other_result > 24 {
            AfterMove::Winner { winner: other_player(player) }
        } else if other_result == 24 && my_result == 24 {
            AfterMove::Winner { winner: REMIS }
        } else {
            AfterMove::Regular { kalaha: copy, next_move }
        }
    }

    /// The checked form of `make_move`: it validates the player marker
    /// and the chosen pit, returns `InvalidPlayer` or `InvalidMove` where
    /// the call would break the move contract, and otherwise applies the
    /// move.
    pub fn apply_move(&self, idx: usize, player: u8) -> (r: Result<AfterMove, MoveError>)
        requires
            self.wf(),
        ensures
            !is_player(player) ==> r == Err::<AfterMove, MoveError>(MoveError::InvalidPlayer),
            is_player(player) && !(is_own_pit(idx as int, player) && self@[idx as int] > 0)
                ==> r == Err::<AfterMove, MoveError>(MoveError::InvalidMove),
            is_player(player) && is_own_pit(idx as int, player) && self@[idx as int] > 0 ==> (
            r matches Ok(m) && move_result_matches(self@, idx as int, player, m)),
            r matches Ok(AfterMove::Regular { kalaha, next_move }) ==> kalaha.wf() && total(
                kalaha@,
            ) == total(self@) && is_player(next_move),
    {
        if player != PLAYER_ONE && player != PLAYER_TWO {
            return Err(MoveError::InvalidPlayer);
        }
        if !Kalaha::check_idx(idx, player) {
            return Err(MoveError::InvalidMove);
        }
        if self.get_bucket(idx) == 0 {
            return Err(MoveError::InvalidMove);
        }
        Ok(self.make_move(idx, player))
    }

    /// The raw counts, in pit order.
    pub fn buckets(&self) -> (r: [u8; 14])
        ensures
            board_of(r) == self@,
    {
        self.buckets
    }
}

/// Sowing `stones` stones from pit `i` adds exactly `stones` to the
/// board total, never leaves a pit negative, and lands inside the board,
/// away from the skipped store.
pub proof fn lemma_sow_props(s: Seq<int>, i: int, stones: nat, skip: int)
    requires
        s.len() == 14,
        0 <= i < 14,
        i != skip,
        0 <= skip < 14,
        forall|k: int| 0 <= k < 14 ==> 0 <= #[trigger] s[k],
    ensures
        spec_sow(s, i, stones, skip).0.len() == 14,
        total(spec_sow(s, i, stones, skip).0) == total(s) + stones,
        forall|k: int| 0 <= k < 14 ==> 0 <= #[trigger] spec_sow(s, i, stones, skip).0[k],
        0 <= spec_sow(s, i, stones, skip).1 < 14,
        spec_sow(s, i, stones, skip).1 != skip,
    decreases stones,
{
    if stones != 0 {
        let j = next_pit(i, skip);
        lemma_sow_props(s.update(j, s[j] + 1), j, (stones - 1) as nat, skip);
    }
}

/// Replacing the count of one pit changes the board total by the
/// difference.
proof fn lemma_total_update(s: Seq<int>, j: int, v: int)
    requires
        s.len() == 14,
        0 <= j < 14,
    ensures
        total(s.update(j, v)) == total(s) + v - s[j],
{
}

/// Emptying one side removes exactly that side's stones from the total
/// and touches nothing else.
proof fn lemma_clear_side(s: Seq<int>, p: u8)
    requires
        s.len() == 14,
        is_player(p),
    ensures
        clear_side_spec(s, p).len() == 14,
        total(clear_side_spec(s, p)) == total(s) - side_total(s, p),
        forall|k: int|
            0 <= k < 14 && !is_own_pit(k, p) ==> #[trigger] clear_side_spec(s, p)[k] == s[k],
        forall|k: int| 0 <= k < 14 && is_own_pit(k, p) ==> #[trigger] clear_side_spec(s, p)[k] == 0,
{
}

/// The capture step moves stones around without changing their number,
/// and leaves no pit negative.
proof fn lemma_captured_conserves(s: Seq<int>, landing: int, player: u8)
    requires
        s.len() == 14,
        is_player(player),
        0 <= landing < 14,
        forall|k: int| 0 <= k < 14 ==> 0 <= #[trigger] s[k],
    ensures
        spec_captured(s, landing, player).len() == 14,
        total(spec_captured(s, landing, player)) == total(s),
        forall|k: int| 0 <= k < 14 ==> 0 <= #[trigger] spec_captured(s, landing, player)[k],
{
    if is_own_pit(landing, player) && s[landing] == 1 {
        let st = own_store(player);
        let opp = 12 - landing;
        let s1 = s.update(st, s[st] + 1 + s[opp]);
        lemma_total_update(s, st, s[st] + 1 + s[opp]);
        let s2 = s1.update(landing, 0);
        lemma_total_update(s1, landing, 0);
        lemma_total_update(s2, opp, 0);
    }
}

/// The starvation sweep moves stones around without changing their
/// number, and leaves no pit negative.
proof fn lemma_swept_conserves(s: Seq<int>, player: u8)
    requires
        s.len() == 14,
        is_player(player),
        forall|k: int| 0 <= k < 14 ==> 0 <= #[trigger] s[k],
    ensures
        spec_swept(s, player).len() == 14,
        total(spec_swept(s, player)) == total(s),
        forall|k: int| 0 <= k < 14 ==> 0 <= #[trigger] spec_swept(s, player)[k],
{
    let my = side_total(s, player);
    let their = side_total(s, spec_other(player));
    if my == 0 {
        let c = clear_side_spec(s, spec_other(player));
        lemma_clear_side(s, spec_other(player));
        lemma_total_update(c, other_store(player), s[other_store(player)] + their);
    } else if their == 0 {
        let c = clear_side_spec(s, player);
        lemma_clear_side(s, player);
        lemma_total_update(c, own_store(player), s[own_store(player)] + my);
    }
}

/// Conservation: a valid move neither creates nor destroys a stone. The
/// board after sowing, capture and sweep holds exactly the stones of the
/// board before the move, and stays well formed; since a game starts
/// with 48 stones, every reachable board carries 48 stones.
pub proof fn lemma_move_conserves(s: Seq<int>, pit: int, player: u8)
    requires
        wf_board(s),
        is_player(player),
        is_own_pit(pit, player),
        s[pit] > 0,
    ensures
        total(spec_board_after(s, pit, player)) == total(s),
        wf_board(spec_board_after(s, pit, player)),
{
    lemma_sow_props(s.update(pit, 0), pit, s[pit] as nat, other_store(player));
    let b1 = spec_sown(s, pit, player).0;
    let landing = spec_sown(s, pit, player).1;
    lemma_captured_conserves(b1, landing, player);
    let b2 = spec_captured(b1, landing, player);
    lemma_swept_conserves(b2, player);
}

/// True when the `(pit, player)` moves can be played in order from
/// board `s`: each move picks a non-empty pit of its mover's own row on
/// the board the moves before it produced.
pub open spec fn valid_play(s: Seq<int>, moves: Seq<(int, u8)>) -> bool
    decreases moves.len(),
{
    moves.len() == 0 || {
        let m = moves[0];
        &&& is_player(m.1)
        &&& is_own_pit(m.0, m.1)
        &&& s[m.0] > 0
        &&& valid_play(spec_board_after(s, m.0, m.1), moves.drop_first())
    }
}

/// The board that the `(pit, player)` moves produce when played in order
/// from board `s`.
pub open spec fn play(s: Seq<int>, moves: Seq<(int, u8)>) -> Seq<int>
    decreases moves.len(),
{
    if moves.len() == 0 {
        s
    } else {
        play(spec_board_after(s, moves[0].0, moves[0].1), moves.drop_first())
    }
}

/// Conservation along whole games: every board reachable from a
/// well-formed board by valid moves holds exactly the stones that board
/// held and stays well formed. From the starting position that number
/// is 48.
pub proof fn lemma_reachable_conservation(s: Seq<int>, moves: Seq<(int, u8)>)
    requires
        wf_board(s),
        valid_play(s, moves),
    ensures
        wf_board(play(s, moves)),
        total(play(s, moves)) == total(s),
    decreases moves.len(),
{
    if moves.len() != 0 {
        lemma_move_conserves(s, moves[0].0, moves[0].1);
        lemma_reachable_conservation(
            spec_board_after(s, moves[0].0, moves[0].1),
            moves.drop_first(),
        );
    }
}

/// Range: on a well-formed board every pit count lies between 0 and 48.
pub proof fn lemma_counts_in_range(s: Seq<int>)
    requires
        wf_board(s),
    ensures
        forall|i: int| 0 <= i < 14 ==> 0 <= #[trigger] s[i] <= 48,
{
}

/// Range after a move: every pit count still lies between 0 and 48 after
/// any valid move.
pub proof fn lemma_move_counts_in_range(s: Seq<int>, pit: int, player: u8)
    requires
        wf_board(s),
        is_player(player),
        is_own_pit(pit, player),
        s[pit] > 0,
    ensures
        forall|i: int| 0 <= i < 14 ==> 0 <= #[trigger] spec_board_after(s, pit, player)[i] <= 48,
{
    lemma_move_conserves(s, pit, player);
    lemma_counts_in_range(spec_board_after(s, pit, player));
}

/// Two boards with the same counts are the same board.
pub proof fn lemma_view_injective(a: Kalaha, b: Kalaha)
    requires
        a@ == b@,
    ensures
        a == b,
{
    assert forall|i: int| 0 <= i < 14 implies a.buckets@[i] == b.buckets@[i] by {
        assert(a@[i] == a.buckets[i] as int);
        assert(b@[i] == b.buckets[i] as int);
        assert(a@[i] == b@[i]);
    }
    assert(a.buckets =~= b.buckets);
}

/// Determinism: the move relation admits a single outcome, so any two
/// results of the same valid move on the same board are equal.
pub proof fn lemma_move_deterministic(s: Seq<int>, pit: int, player: u8, r1: AfterMove, r2: AfterMove)
    requires
        move_result_matches(s, pit, player, r1),
        move_result_matches(s, pit, player, r2),
    ensures
        r1 == r2,
{
    let nb = spec_board_after(s, pit, player);
    if !(nb[own_store(player)] > 24) && !(nb[other_store(player)] > 24) && !(nb[own_store(player)]
        == 24 && nb[other_store(player)] == 24) {
        let k1 = r1->Regular_kalaha;
        let k2 = r2->Regular_kalaha;
        lemma_view_injective(k1, k2);
    }
}

/// The player whose turn it is not; `PLAYER_ONE` and `PLAYER_TWO` map to
/// each other.
pub fn other_player(p: u8) -> (r: u8)
    requires
        is_player(p),
    ensures
        r == spec_other(p),
        is_player(r),
{
    1 - p
}

} // verus!

//! A verified Kalaha (Mancala) engine: a value-typed board with the full
//! rule set (sowing, capture, extra turn, starvation sweep, terminal
//! detection) and a fixed-depth minimax search over it.

pub mod engine;
pub mod kalaha;

pub use crate::engine::best_move;
pub use crate::engine::try_best_move;
pub use crate::kalaha::other_player;
pub use crate::kalaha::AfterMove;
pub use crate::kalaha::Kalaha;
pub use crate::kalaha::MoveError;
pub use crate::kalaha::PLAYER_ONE;
pub use crate::kalaha::PLAYER_TWO;
pub use crate::kalaha::REMIS;

pub mod agents;
pub mod constants;
pub mod game;
pub mod random;

pub use game::combo::{Combo, ComboKind};
pub use game::game_state::GameState;
pub use game::view::{GameView, OpponentView};

pub mod arrays;
pub mod combo;
pub mod maps;
pub mod play;
pub mod player;
pub mod trick_type;
pub mod view;
pub mod rules;
pub mod game_state;
pub mod ranking;
pub mod laws;
pub mod deal;
pub mod game_runner;

pub use combo::Combo;
pub use view::GameView;

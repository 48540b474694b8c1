pub mod board;
pub mod codec;
pub mod game;
pub mod search_for_win;
pub mod strategy;
pub mod strategy_cache;

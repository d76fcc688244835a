pub mod ai;
pub mod board;
pub mod candidates;
pub mod eval;
pub mod game;
pub mod notation;
pub mod proposer;
pub mod reply;
pub mod rules;
pub mod search;
pub mod selfplay;
pub mod trusted;
pub mod types;

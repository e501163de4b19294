//! A solver for the crafting mini-game: the rules of one move, an upper
//! bound on the quality that a craft can still reach, and the search for the
//! macro of the best score.

pub mod actions;
pub mod backtracking;
pub mod effects;
pub mod game_data;
pub mod macro_solver;
pub mod mask;
pub mod pareto_front_builder;
pub mod quality_upper_bound_solver;
pub mod reduced_state;
pub mod score;
pub mod search_queue;
pub mod settings;
pub mod state;

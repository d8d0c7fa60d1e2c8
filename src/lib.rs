//! A Monte Carlo Tree Search engine for single-agent, perfect-information
//! games, together with the mechanics of the 2048 tile game.
pub mod mcts;
pub mod twofortyeight;

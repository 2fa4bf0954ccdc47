//! Verified core of a 2048 engine.
//!
//! The crate models the game board as four bit-packed rows of four 5-bit
//! tile exponents, precomputes a total move table for the row transition
//! function, and builds three move-selection engines on top of it:
//! alpha-beta minimax, expectimax, and Monte Carlo tree search over an
//! arena-stored bipartite move/spawn tree with tree reuse across turns.

pub mod rows;

pub mod game;

pub mod randsrc;

pub mod minimax;

pub mod mcts;

pub mod fastgame;

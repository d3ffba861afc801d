//! A two-player stone-sowing board game (a Kalah variant in which a sow that
//! ends in an occupied pocket is picked up and sown again), with a solver that
//! enumerates every chain of moves a side can make within one turn.
pub mod game;
pub mod solver;

pub mod board;
pub mod frontier;
pub mod optimality;
pub mod parity;
pub mod solver;

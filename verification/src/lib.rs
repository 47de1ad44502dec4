//! A solver for the "robot reboot" sliding-robot puzzle: four robots on a
//! 16 x 16 board slide until they hit a wall, the board's edge or another
//! robot, and one of them has to reach a goal cell.
pub mod bitset;
pub mod board;
pub mod compressed;
pub mod config;
pub mod pieces;
pub mod quarters;
pub mod schedule;
pub mod search;
pub mod state;
pub mod submission;

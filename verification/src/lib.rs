//! The rules of Minesweeper on a fixed-size grid: mine placement that keeps a
//! safe start, neighbour numbering, cascading reveal, chorded flagging and the
//! counters a front end reads back, each with a machine-checked contract.

pub mod board;
pub mod cell;
mod chance;
pub mod difficulty;
pub mod grid;
pub mod laws;
pub mod rules;

//! Solutions to a set of grid, text and simulation puzzles. Every solver takes the
//! puzzle input as bytes and returns the answers, proved against the rules of
//! each puzzle stated as spec functions.
pub mod text;
pub mod seen;
pub mod grid;
pub mod bfs;
pub mod puzzle01;
pub mod puzzle02;
pub mod puzzle03;
pub mod puzzle04;
pub mod puzzle05;
pub mod puzzle06;
pub mod puzzle07;
pub mod puzzle08;
pub mod puzzle09;
pub mod puzzle10;
pub mod puzzle11;

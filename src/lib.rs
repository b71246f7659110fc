//! Solutions to a set of daily puzzles, each a parser over text input and two
//! computations over what it parsed, with their results stated as contracts.
pub mod text;
pub mod error;
pub mod day1;
pub mod day3;
pub mod day4;
pub mod day8;
pub mod day5;
pub mod day6;
pub mod day7;

//! Solvers for a collection of small daily text puzzles.
//!
//! Each day is an independent batch computation: it takes the puzzle input as
//! a list of text lines, computes one or two numeric answers, and renders them
//! as text. The days share only the [`day::Day`] trait for uniform invocation
//! and a few text-handling helpers.

pub mod day;
pub mod day1;
pub mod day11;
pub mod day15;
pub mod day16;
pub mod day2;
pub mod day20;
pub mod day4;
pub mod day6;
pub mod day9;
pub mod day5;
pub mod day7;
pub mod day8;
pub mod day22;
pub mod text;
pub mod util;

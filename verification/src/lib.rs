pub mod types;
pub mod helpers;
pub mod rules;
pub mod candidates;
pub mod singles;
pub mod subsets;
pub mod pairs;
pub mod box_line;
pub mod swordfish;
pub mod heuristics;
pub mod grid;
pub mod solver;
pub mod puzzles;
pub mod parser;
pub mod render;

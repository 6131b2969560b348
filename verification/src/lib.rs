pub mod bits;
pub mod data_structures;
pub mod grid;
pub mod judging;
pub mod problem;
pub mod rng;
pub mod search;
pub mod solver;
pub mod tools;
pub mod text;
pub mod generator;
pub mod sorting;

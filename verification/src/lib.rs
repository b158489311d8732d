pub mod check;
pub mod data;
pub mod problems;
pub mod hardness;
pub mod solver;

pub mod bits;
pub mod check;
pub mod placement;
pub mod search;

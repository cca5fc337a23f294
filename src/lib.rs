pub mod text;
pub mod symmetry;
pub mod polyominos;
pub mod board;
pub mod search;

pub mod bits;
pub mod board;
pub mod mobility;
pub mod monte_carlo;
pub mod render;
pub mod search;

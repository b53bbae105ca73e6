pub mod graphs;
pub mod linear;
pub mod misc;

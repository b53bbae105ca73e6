pub mod counting;
pub mod cycles;
pub mod digraph;
pub mod topological_sorting;

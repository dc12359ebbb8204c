pub mod distance;
pub mod graph;
pub mod priority_queue;
pub mod shortest_path;

pub mod bfs;
pub mod recorder;

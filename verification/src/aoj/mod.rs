pub mod bfs;

pub mod misc;
pub mod graph;
pub mod aoj;
pub mod io;
pub mod algorithm;

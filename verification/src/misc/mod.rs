pub mod rand;
pub mod period;

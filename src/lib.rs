pub mod distance;
pub mod rank;

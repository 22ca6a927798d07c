pub mod block;
pub mod deal;
pub mod rom;

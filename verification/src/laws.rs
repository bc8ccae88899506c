//! What the library promises, in terms of its inputs and results alone: bytes,
//! positions, times, characters and numbers.
pub mod expanding;
pub mod fetching;
pub mod hashing;
pub mod messages;
pub mod naming;
pub mod numbers;
pub mod probing;
pub mod resuming;
pub mod sizing;
pub mod starting;
pub mod supervising;
pub mod texts;

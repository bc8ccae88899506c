//! The logic of `rget`, a downloader that fetches a file over several connections.
//!
//! Everything that decides what is downloaded, where each byte goes and what is
//! verified stands here, and each function says in its contract what it returns.
//! Sockets, files, the clock and the terminal belong to the program around it.
//!
//! - [`session`], [`target`], [`probe`]: what to download, under which name, and
//!   what the server says of it;
//! - [`chunks`], [`resume`], [`supervisor`]: dividing a file, going on after an
//!   interruption, and watching over the connections;
//! - [`ranges`], [`speed`]: number ranges in URLs, and sizes such as `1.5G`;
//! - [`hash`], [`digest`]: expected and computed digests;
//! - [`text`], [`number`], [`double`], [`paths`]: what the others are built on;
//! - [`laws`]: what holds of all of it, in bytes, times and characters.

pub mod chunks;
pub mod digest;
pub mod double;
pub mod hash;
pub mod laws;
pub mod number;
pub mod paths;
pub mod probe;
pub mod ranges;
pub mod resume;
pub mod session;
pub mod speed;
pub mod supervisor;
pub mod target;
pub mod text;

//! The repository's own tooling: what its maintenance commands decide, apart from the processes
//! and files they read and write.
pub mod eol;
pub mod numbering;
pub mod pr;
pub mod markers;
pub mod feature;
pub mod gate;

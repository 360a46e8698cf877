//! Version-resolution engine of a Python interpreter launcher.
//!
//! Given an ambiguous request ("run Python", "run Python 3", "run Python
//! 3.6"), this library decides which concrete installed interpreter to
//! invoke: it models version requirements, parses shebang lines, filters
//! candidate executables discovered along a search path, and ranks them to
//! pick exactly one winner.  All I/O (reading directories, reading script
//! files, replacing the process image) is left to the caller, which hands
//! the library plain values.

pub mod text;
pub mod version;
pub mod resolve;
pub mod shebang;
pub mod cli;

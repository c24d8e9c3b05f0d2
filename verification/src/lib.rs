//! Readers for the `splits.txt` and `symbols.txt` files of a decompilation
//! project, and the paths of those files in a project's layout.
pub mod util;
pub mod splits;
pub mod symbols;
pub mod config;

//! Verified core of `cargo-run-copy`: command-line parsing, path arithmetic,
//! content hashing and the decisions taken around `cargo build`.

pub mod cargo_build;
pub mod cli;
pub mod exe_path_file;
pub mod hash;
pub mod paths;
pub mod text;

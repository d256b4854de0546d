//! Finds the manifests and lock files of the projects under a directory,
//! reads from them the versions of one dependency, and orders what it found.
//!
//! The library decides and computes; reading directories and files, running
//! workers and printing are left to the program around it.
pub mod cli;
pub mod document;
pub mod error;
pub mod file_explorer;
pub mod parser;
pub mod printer;
pub mod semver_filter;
pub mod text;

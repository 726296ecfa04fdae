//! Dependencies between the modules of a source tree, and the rules they are
//! held to.
//!
//! A tree is a directory of source files. The top-level directory a file lies
//! in is its module. A file depends on the files it imports, and a module on
//! the modules of the files its own files import. From the import statements
//! of every file this library derives the graph of those dependencies, finds
//! its cycles, and checks how barrel files (the `index` and `testing` files
//! that stand for a module to the outside) are imported.
//!
//! The library reads nothing and prints nothing. What the file system knows
//! (which paths exist, what their canonical form is, what a file holds) is
//! handed to it as plain values; what it decides is stated in the contract of
//! each function and proved.

pub mod commands;
pub mod dependency;
pub mod file_parent_path;
pub mod file_path;
pub mod import_path;
mod index;
pub mod module;
pub mod module_mapping;
pub mod pattern;
pub mod render;
pub mod repository;
pub mod segment;
pub mod text;
pub mod unique;
pub mod validate;

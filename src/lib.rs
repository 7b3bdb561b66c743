//! Diff trees over two snapshots of a package's file tree: rename detection,
//! line-level change accounting, tree assembly and status propagation.
pub mod text;
pub mod differ;
pub mod patch;
pub mod files;
pub mod paths;
pub mod similarity;
pub mod rename;
pub mod tree;
pub mod laws;
pub mod session;
pub mod package;
pub mod tarball;

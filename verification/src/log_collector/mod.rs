//! Log collection: tailing the files of a directory.

pub mod directory;
pub mod files;
pub mod kubernetes;
pub mod lines;
pub mod paths;
pub mod watcher;

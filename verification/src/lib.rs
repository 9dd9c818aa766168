//! Disk usage of a directory tree.
//!
//! A scan builds the size tree ([`structs::Dir`]) from what the file system
//! says, one directory at a time ([`scanning::Scanner`]). The tree is sorted
//! by size, and a menu ([`menu::Menu`]) goes through it: down into the
//! entries above a threshold and back up again.
//!
//! The trees, the scan and the menu have mathematical values
//! ([`tree::Node`], [`traversal::ScanState`], [`navigation::MenuState`]); the
//! contracts of the functions and the laws of the library are stated over
//! these.

pub mod menu;
pub mod navigation;
pub mod path;
pub mod scanning;
pub mod snapshot;
pub mod sorting;
pub mod structs;
pub mod text;
pub mod traversal;
pub mod tree;

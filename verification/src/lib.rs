//! Core of a static directory-index generator.
//!
//! A build mirrors a directory tree: every regular file is placed at the
//! same relative path in the mirror, and every directory gets an index page
//! that lists its entries. This crate decides which entries of a directory
//! are listed and in which order, what the index page of a directory says,
//! and in which order the tree is walked. It performs no I/O: a caller lists
//! directories, places files and writes pages, and hands plain values in and
//! out.
//!
//! - [`path`]: paths below the root of the tree, as sequences of names.
//! - [`order`]: the order of names and paths in a listing.
//! - [`config`]: the configuration of a build.
//! - [`entry`]: what is known of an entry of a directory, and which
//!   children of a directory count as entries.
//! - [`listing`]: which entries are listed, and in which order.
//! - [`format`]: the modification and size columns of a listing.
//! - [`text`]: HTML escaping.
//! - [`render`]: the index page of a directory.
//! - [`builder`]: the walk, one task at a time.
//! - [`walk`]: what a whole build does to a tree.

pub mod builder;
pub mod config;
pub mod entry;
pub mod format;
pub mod listing;
pub mod order;
pub mod path;
pub mod render;
pub mod text;
pub mod walk;

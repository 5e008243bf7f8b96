//! Dotfiler: a verified tree materialization engine for dotfile templates.
//!
//! The library materializes template subtrees onto a filesystem, substituting
//! configured variables into text content (and into the row values of embedded
//! SQLite database files), with a backup-and-rollback discipline that makes a
//! failed materialization restore the prior state of the target subtree.
//!
//! The filesystem itself is modelled: building a node tree, rendering it and
//! computing the save and restore effects are pure, verified operations over
//! explicit values. An unverified adapter performs the resulting actions with
//! real I/O and feeds probed filesystem state back in.

pub mod config;
pub mod db;
pub mod error;
pub mod fsmodel;
pub mod materialize;
pub mod roundtrip;
pub mod text;
pub mod tree;
pub mod vars;

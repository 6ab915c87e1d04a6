//! Synchronisation engine for mirroring a plaintext directory tree to an
//! encrypted one and back.
//!
//! The crate holds the in-memory model of both directory trees, the
//! reconciliation of a tree with a snapshot of the filesystem, the merge of the
//! two trees into an ordered list of file operations, and the bookkeeping that
//! follows the execution of those operations. All of it is plain data in,
//! plain data out: reading directories, watching for changes and running the
//! OpenPGP engine are left to the program that embeds the library.
//!
//! The modules, from the bottom up: [`order`] and [`path`] hold names and
//! paths; [`entries`] and [`tree`] the model of one directory tree, with
//! [`visit`] for walks through it; [`path_aggregator`] folds the paths of
//! notifications; [`diff`] reconciles a tree with the disk; [`merge`], with
//! [`conflict`] and [`file_op`], turns two trees into file operations;
//! [`fs_ops`] turns a file operation into steps on the disk; [`update`] carries
//! the operations over into the trees; [`engine`] runs the cycle. [`filesync`],
//! [`syncdb`] and [`syncentity`] hold the simpler sync that goes file by file,
//! and [`hash`] the content hashes. The modules whose names end in `_lemmas`
//! hold what is proved of the others.

pub mod conflict;
pub mod diff;
pub mod engine;
pub mod entries;
pub mod file_op;
pub mod filesync;
pub mod fs_ops;
pub mod hash;
pub mod merge;
pub mod merge_lemmas;
pub mod order;
pub mod path;
pub mod path_aggregator;
pub mod path_lemmas;
pub mod syncdb;
pub mod syncentity;
pub mod tree;
pub mod tree_lemmas;
pub mod update;
pub mod visit;

//! The verified core of a tester for the code examples in documents.
//!
//! An example is compiled with the libraries that the build of its project made, and run if it is
//! to be run. [`run`] decides what is to be done for one test, step by step; whoever drives it
//! does the reading, writing and calling. The other modules hold what it decides by:
//!
//! - [`metadata`] and [`locked`]: the packages of the project, and which of them it is locked to;
//! - [`version`], [`fingerprint`] and [`select`]: what the build left behind of each library, and
//!   which build of it a test is linked to;
//! - [`command`]: the command line of the compiler;
//! - [`cache`], [`codec`] and [`store`]: what was worked out before, and how it is kept;
//! - [`document`] and [`names`]: the documents that tests are written in, and the names of tests;
//! - [`path`], [`text`] and [`error`]: paths, texts and errors.

pub mod cache;
pub mod codec;
pub mod command;
pub mod document;
pub mod error;
pub mod fingerprint;
pub mod locked;
pub mod metadata;
pub mod names;
pub mod path;
pub mod run;
pub mod select;
pub mod store;
pub mod text;
pub mod version;

pub use run::{compile_test, run_test};

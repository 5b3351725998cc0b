//! gitalong: keep a team in sync on what is being worked on across Git clones.
//!
//! This crate holds the decision logic of gitalong: where a tracked commit
//! lives relative to this clone (its spread), how the status line of a file
//! reads, which files are followed at all, which files a clone may claim and
//! which it may write, which store records a clone replaces when it
//! publishes and which it reads back, how header values expand
//! environment variables, and the text rules (configuration properties,
//! `.gitignore` patching, path forms, dates) around them. Reading
//! repositories, talking to stores and printing happen in the binary that
//! wraps this library.
pub mod commit;
pub mod config;
pub mod date;
pub mod error;
pub mod hooks;
pub mod operations;
pub mod repository;
pub mod spread;
pub mod store;
pub mod testing;
pub mod text;

pub use commit::{Branches, Commit};
pub use config::Config;
pub use error::Error;
pub use repository::Context;
pub use spread::CommitSpread;
pub use store::StoreKind;

//! Document synchronization and path-completion engine for an
//! ignore-pattern language server.
//!
//! The crate tracks the text of open documents through incremental,
//! position-addressed edits, and resolves the path fragment under a cursor
//! into a directory to list together with the fragment still being typed.
//! All logic is specified and verified with Verus; the hosting process
//! supplies transport and filesystem access around it.

pub mod buffer;
pub mod completion;
pub mod error;
pub mod file;
pub mod text;
pub mod workspace;

pub use error::CoreError;

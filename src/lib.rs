//! An in-memory directory tree driven by one-line text commands: CREATE,
//! DELETE, MOVE and LIST of slash-separated paths.
pub mod command;
pub mod error;
pub mod laws;
pub mod node;
pub mod text;
pub mod tree;

pub use command::{AllowedCommands, Command};
pub use error::Error;
pub use node::{DirNode, ListEntry};
pub use tree::DirTree;

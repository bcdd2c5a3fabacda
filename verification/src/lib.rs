//! Environment files: lines of `KEY=VALUE` text, held in memory as a map
//! ordered by key, and written back in a canonical sorted form.
//!
//! ```
//! use envfile::EnvFile;
//! use std::path::PathBuf;
//!
//! let bytes = b"# where we are\nHOSTNAME=pop-testing\n LANG=en_US.UTF-8\n";
//! let mut envfile = EnvFile::new(PathBuf::from("test.env"), bytes);
//!
//! for (key, value) in envfile.store.entries() {
//!     println!("{}: {}", key, value);
//! }
//!
//! envfile.update("ID", "example");
//! assert_eq!(envfile.get("ID"), Some("example"));
//! assert_eq!(envfile.write(), b"HOSTNAME=pop-testing\nID=example\nLANG=en_US.UTF-8\n");
//! ```
//!
//! The library reads and writes bytes; opening files is left to the caller.

pub mod env_file;
pub mod format;
pub mod line;
pub mod order;
pub mod quote;
pub mod store;
pub mod text;

pub use env_file::EnvFile;
pub use line::parse_line;
pub use store::Store;

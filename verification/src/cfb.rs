//! Reading and writing Microsoft Compound File Binary files, the container
//! AAF is stored in.

pub mod error;
pub mod sector;

pub use error::{Error, Result};
pub mod dir_entry;

pub use dir_entry::{Color, DirEntry, DirId, EntryType, root_id};
pub mod names;

pub use names::cmp_names;
pub mod header;

pub use header::Header;
pub mod tables;
pub mod tree;
pub mod file;

pub use file::{CompoundFile, Warning};

//! Backup scheduling, archive naming and configuration logic of the
//! archiver, with the file system and process work left to the caller.

pub mod scheduler;
pub mod text;
pub mod clock;
pub mod config;
pub mod dirreader;
pub mod logger;
pub mod mounter;

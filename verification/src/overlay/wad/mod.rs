//! WAD archives: table of contents, entries, archives and mounts.

pub mod archive;
pub mod entry;
pub mod fantome;
pub mod forms;
pub mod index;
pub mod marks;
pub mod mod_outcome;
pub mod mounted;
pub mod round_trip;
pub mod toc;

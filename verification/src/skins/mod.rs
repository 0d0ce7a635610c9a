//! The skins of the library: what they are, which are enabled, and what is
//! shown of them.

pub mod fantome;
pub mod finding;
pub mod import;
pub mod index;
pub mod index_json;
pub mod injection;
pub mod library;
pub mod outcome;
pub mod picture;
pub mod preview;
pub mod state;
pub mod warm;

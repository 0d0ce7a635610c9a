//! Reading the archives and property files that skins are made of.

pub mod bin;
pub mod bin_outcome;
pub mod reader;
pub mod reading;

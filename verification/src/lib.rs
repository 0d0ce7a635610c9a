//! Verified core of a League of Legends skin overlay manager: WAD archives,
//! overlay building, skin metadata, and the rules that drive the desktop app.

pub mod bridge;
pub mod bytes;
pub mod codecs;
pub mod data_dragon;
pub mod json;
pub mod lcu;
pub mod names;
pub mod overlay;
pub mod patcher;
pub mod path_laws;
pub mod paths;
pub mod pengu;
pub mod skins;
pub mod sorting;
pub mod storage;
pub mod text;
pub mod textures;
pub mod wad;
pub mod wide;
pub mod zips;

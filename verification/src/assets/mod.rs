//! Assets: images and characters, stored under a folder per kind and
//! addressed by stable numeric handles.

pub mod asset_path;
pub mod character;
pub mod data;
pub mod image;
pub mod io;
pub mod kind;
pub mod pane;
pub mod laws;

pub use asset_path::{AssetPath, AssetPathView};
pub use character::{Character, CharacterView};
pub use data::AssetsData;
pub use image::Image;
pub use kind::{Asset, AssetHandle, AssetKind, AssetView, AssetsError, ViewMode};

//! Texture atlas packing: rectangle packing, sprite preparation and atlas layout.
pub mod atlas;

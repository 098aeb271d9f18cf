//! Mapbox Vector Tile encoding: projection of world geometry into tile pixels,
//! the geometry command stream, per-layer attribute dictionaries, tile assembly
//! and the binary tile codec.

pub mod grid;
pub mod geom;
pub mod screen;
pub mod geom_encoder;
pub mod wire;
pub mod vector_tile;
pub mod codec;
pub mod layer;
pub mod feature;
pub mod gz;
pub mod tile;
pub mod postgis_fields;

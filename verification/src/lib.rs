//! Core of a roguelike prototype: a sparse, chunked, unbounded tile grid
//! with a monotonically growing bounding rectangle, and a permissive
//! recursive-shadowcasting visibility field computed over it.

pub mod fov;
pub mod geom;
pub mod tilemap;
pub mod worldgen;

pub use fov::Viewshed;
pub use geom::Rect;
pub use tilemap::Tile;
pub use tilemap::TileMap;
pub use worldgen::make_world;

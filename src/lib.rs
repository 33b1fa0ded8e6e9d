//! Scanline filling of polygons on a grid of cells, and cutting polygon-shaped holes.

pub mod model;
pub mod lemmas;
pub mod edges;
pub mod raster;
pub mod hole;
pub mod laws;
pub mod scene;
pub mod export;

pub use model::Point;
pub use raster::fill_polygon;
pub use hole::create_hole;
pub use scene::draw_polygons;
pub use export::rgb_buffer;

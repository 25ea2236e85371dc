//! Hex-grid world model: wraparound locations, portals, sectors, and a
//! shadow-casting field-of-view scan.

pub mod geom;
pub mod location;
pub mod morton;
pub mod polar;
pub mod fov;
pub mod world;
pub mod screen;
pub mod game_view;

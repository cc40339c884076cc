//! ASCII wireframe rendering of polygon meshes onto a fixed-size character canvas.
//!
//! - `obj` reads the line structure of mesh text into vertex and face records.
//! - `raster` models the canvas and the cells that a line covers.
//! - `shape` models drawing faces as closed polygons.
//! - `screen` holds the canvas and draws pixels, lines and shapes on it.

pub mod obj;
pub mod raster;
pub mod screen;
pub mod shape;

//! Level-geometry toolkit: a plane-based brush model with exact vertex
//! reconstruction, a text parser for the brush map format, and an
//! incremental convex-hull builder over integer point clouds.

pub mod brush;
pub mod components;
pub mod error;
pub mod geom;
pub mod hull;
pub mod level;
pub mod mesh;
pub mod plane;

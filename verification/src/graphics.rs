use vstd::prelude::*;

pub mod color;
pub mod primitive;
pub mod rasterizer;
pub mod topology;

verus! {

/// Which winding order of a triangle's screen-space vertices counts as its
/// front side.
#[derive(Debug, Clone, Copy, PartialEq, Eq, Structural)]
pub enum FrontFace {
    /// Counter-clockwise triangles face the viewer.
    Ccw,
    /// Clockwise triangles face the viewer.
    Cw,
}

/// A side of a triangle, as selected for culling.
#[derive(Debug, Clone, Copy, PartialEq, Eq, Structural)]
pub enum Face {
    Front,
    Back,
}

} // verus!

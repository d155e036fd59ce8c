//! The integer core of a software rasterizer: primitive assembly, face and
//! frustum culling decisions, Bresenham line walking, row binning for
//! parallel rasterization and render target bookkeeping, each with a
//! machine-checked contract.

pub mod color;
pub mod graphics;
pub mod math;
pub mod pipeline;
pub mod renderer;
pub mod target;

use vstd::prelude::*;

verus! {

/// Rounding of floating-point values that works with and without the
/// standard library.
///
/// This library holds no floating-point values, so it declares the interface
/// and implements it for none of its types. Rust's orphan rule keeps a crate
/// that depends on this one from implementing it for `f32`; the rasterizer
/// that works in `f32`, outside this library, therefore rounds through a trait
/// of its own with these two methods (backed by `libm`).
pub trait FloatExt: Sized {
    /// The largest integer value not above `self`.
    fn floor_custom(self) -> Self;

    /// The smallest integer value not below `self`.
    fn ceil_custom(self) -> Self;
}

} // verus!

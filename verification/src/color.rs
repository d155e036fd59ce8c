use vstd::prelude::*;

verus! {

/// A pixel format that converts to and from a plain output value.
pub trait ColorFormat: Sized {
    type Output: Copy;

    fn to_output(self) -> Self::Output;

    fn from_output(color: Self::Output) -> Self;
}

} // verus!

use vstd::prelude::*;

verus! {

/// A value that converts into a color.
pub trait IntoColor: Sized {
    type Output;

    fn into_color(self) -> Self::Output;
}

} // verus!

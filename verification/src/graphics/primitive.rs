use core::marker::PhantomData;
use vstd::prelude::*;

use crate::graphics::topology::{PrimitiveTopology, TriangleList};
use crate::graphics::{Face, FrontFace};

verus! {

/// Fixed-function primitive state of a pipeline: the topology marker `T`,
/// which winding is the front face, and which face (if any) is culled.
pub struct PrimitiveState<T> {
    _topology: PhantomData<T>,
    pub(crate) front_face: FrontFace,
    pub(crate) cull_mode: Option<Face>,
}

impl<T> PrimitiveState<T> {
    pub closed spec fn spec_front_face(&self) -> FrontFace {
        self.front_face
    }

    pub closed spec fn spec_cull_mode(&self) -> Option<Face> {
        self.cull_mode
    }

    /// The winding that counts as the front face.
    pub fn front_face(&self) -> (r: FrontFace)
        ensures
            r == self.spec_front_face(),
    {
        self.front_face
    }

    /// The face that is culled, if any.
    pub fn cull_mode(&self) -> (r: Option<Face>)
        ensures
            r == self.spec_cull_mode(),
    {
        self.cull_mode
    }

    /// A state for the given topology with counter-clockwise front faces and
    /// no culling.
    pub fn new(topology: PrimitiveTopology<T>) -> (r: Self)
        ensures
            r.spec_front_face() == FrontFace::Ccw,
            r.spec_cull_mode() == None::<Face>,
    {
        let _ = topology;
        Self { _topology: PhantomData, front_face: FrontFace::Ccw, cull_mode: None }
    }

    /// The same state, culling the given face.
    pub fn with_cull_mode(self, cull_mode: Face) -> (r: Self)
        ensures
            r.spec_cull_mode() == Some(cull_mode),
            r.spec_front_face() == self.spec_front_face(),
    {
        let mut state = self;
        state.cull_mode = Some(cull_mode);
        state
    }

    /// The same state, with the given winding as the front face.
    pub fn with_front_face(self, front_face: FrontFace) -> (r: Self)
        ensures
            r.spec_front_face() == front_face,
            r.spec_cull_mode() == self.spec_cull_mode(),
    {
        let mut state = self;
        state.front_face = front_face;
        state
    }
}

impl Default for PrimitiveState<TriangleList> {
    /// Triangle lists with counter-clockwise front faces and no culling.
    fn default() -> (r: Self)
        ensures
            r.spec_front_face() == FrontFace::Ccw,
            r.spec_cull_mode() == None::<Face>,
    {
        Self::new(PrimitiveTopology::triangle_list())
    }
}

} // verus!

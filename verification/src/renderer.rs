use vstd::prelude::*;

verus! {

/// The size of the screen that render passes draw to.
pub struct Renderer {
    width: usize,
    height: usize,
}

/// A render pass of a renderer; pipelines are bound to it for drawing.
pub struct RenderPass<'pass> {
    render: &'pass Renderer,
}

/// Marker type for no depth buffer
pub struct NoDepth;

/// Marker type for no blending
pub struct NoBlend;

/// Marker type for blending enabled, holding the blend operation.
pub struct WithBlend<B>(B);

impl<B> WithBlend<B> {
    pub closed spec fn spec_blend(&self) -> B {
        self.0
    }

    pub fn new(blend: B) -> (r: Self)
        ensures
            r.spec_blend() == blend,
    {
        WithBlend(blend)
    }

    /// The blend operation.
    pub fn blend(&self) -> (r: &B)
        ensures
            *r == self.spec_blend(),
    {
        &self.0
    }
}

impl Renderer {
    pub closed spec fn spec_width(&self) -> usize {
        self.width
    }

    pub closed spec fn spec_height(&self) -> usize {
        self.height
    }

    pub fn new(width: usize, height: usize) -> (r: Self)
        ensures
            r.spec_width() == width,
            r.spec_height() == height,
    {
        Self { width, height }
    }

    pub fn begin_render_pass(&self) -> (r: RenderPass<'_>)
        ensures
            *r.spec_renderer() == *self,
    {
        RenderPass { render: self }
    }

    pub fn width(&self) -> (r: usize)
        ensures
            r == self.spec_width(),
    {
        self.width
    }

    pub fn height(&self) -> (r: usize)
        ensures
            r == self.spec_height(),
    {
        self.height
    }

    pub fn set_width(&mut self, width: usize)
        ensures
            final(self).spec_width() == width,
            final(self).spec_height() == old(self).spec_height(),
    {
        self.width = width;
    }

    pub fn set_height(&mut self, height: usize)
        ensures
            final(self).spec_height() == height,
            final(self).spec_width() == old(self).spec_width(),
    {
        self.height = height;
    }
}

impl<'pass> RenderPass<'pass> {
    pub closed spec fn spec_renderer(&self) -> &'pass Renderer {
        self.render
    }

    /// The renderer this pass draws for.
    pub fn renderer(&self) -> (r: &'pass Renderer)
        ensures
            *r == *self.spec_renderer(),
    {
        self.render
    }
}

} // verus!

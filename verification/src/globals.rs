//! The view transform of a frame, as draws see it.

use crate::gpu::BUFFER_UNIFORM;
use crate::region::PixelRegion;
use vstd::prelude::*;

verus! {

/// The uniforms that hold the view transform of a viewport, bound for use.
#[derive(Debug)]
pub struct Globals<BindGroup, Buffer> {
    bind_group: BindGroup,
    buffer: Buffer,
}

impl<BindGroup, Buffer> Globals<BindGroup, Buffer> {
    pub closed spec fn spec_bind_group(&self) -> BindGroup {
        self.bind_group
    }

    pub closed spec fn spec_buffer(&self) -> Buffer {
        self.buffer
    }

    /// Makes a buffer with the view transform of `viewport`, and binds the
    /// whole of it.
    pub fn new(
        viewport: PixelRegion,
        create_buffer: impl FnOnce(PixelRegion, u32) -> Buffer,
        create_bind_group: impl FnOnce(&Buffer) -> BindGroup,
    ) -> (globals: Self)
        requires
            call_requires(create_buffer, (viewport, BUFFER_UNIFORM)),
            forall|buffer: &Buffer| #[trigger] call_requires(create_bind_group, (buffer,)),
        ensures
            call_ensures(create_buffer, (viewport, BUFFER_UNIFORM), globals.spec_buffer()),
            call_ensures(create_bind_group, (&globals.spec_buffer(),), globals.spec_bind_group()),
    {
        let buffer = create_buffer(viewport, BUFFER_UNIFORM);
        let bind_group = create_bind_group(&buffer);
        Globals { bind_group, buffer }
    }

    pub fn bind_group(&self) -> (bind_group: &BindGroup)
        ensures
            *bind_group == self.spec_bind_group(),
    {
        &self.bind_group
    }
}

} // verus!

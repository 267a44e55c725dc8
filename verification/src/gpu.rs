//! Descriptions of textures and buffers, as a device is asked for them.

use vstd::prelude::*;

verus! {

/// The size of a texture.
#[derive(Clone, Copy, Debug, PartialEq, Eq, Structural)]
pub struct Extent3d {
    pub width: u32,
    pub height: u32,
    pub depth_or_array_layers: u32,
}

/// A pixel format, by a number of the caller's that no other format has.
#[derive(Clone, Copy, Debug, PartialEq, Eq, Structural)]
pub struct TextureFormat {
    pub id: u32,
}

/// A texture can be copied from.
pub const TEXTURE_COPY_SRC: u32 = 1;

/// A texture can be sampled.
pub const TEXTURE_BINDING: u32 = 4;

/// A texture can be drawn to.
pub const TEXTURE_RENDER_ATTACHMENT: u32 = 16;

/// A buffer can be copied to.
pub const BUFFER_COPY_DST: u32 = 8;

/// A buffer can hold uniforms.
pub const BUFFER_UNIFORM: u32 = 64;

/// A flat texture with a single level. `usage` is the union of the ways in which it is used.
#[derive(Clone, Copy, Debug, PartialEq, Eq, Structural)]
pub struct TextureDescriptor {
    pub size: Extent3d,
    pub sample_count: u32,
    pub format: TextureFormat,
    pub usage: u32,
}

/// A buffer. `usage` is the union of the ways in which it is used.
#[derive(Clone, Copy, Debug, PartialEq, Eq, Structural)]
pub struct BufferDescriptor {
    pub size: u64,
    pub usage: u32,
    pub mapped_at_creation: bool,
}

/// A part of a buffer. Without a size it reaches to the buffer's end.
#[derive(Clone, Copy, Debug, PartialEq, Eq, Structural)]
pub struct BufferBinding {
    pub offset: u64,
    pub size: Option<u64>,
}

/// What a device can do.
#[derive(Clone, Copy, Debug, PartialEq, Eq, Structural)]
pub struct Limits {
    pub min_uniform_buffer_offset_alignment: u32,
    pub max_buffer_size: u64,
}

} // verus!

//! Draw commands, reduced to what decides where they draw and whether they changed.

use crate::region::{Bounds, PixelRegion};
use vstd::prelude::*;

verus! {

/// How a bitmap's position is rounded to whole pixels.
#[derive(Clone, Copy, Debug, PartialEq, Eq, Structural)]
pub enum PixelSnapping {
    Always,
    Auto,
    Never,
}

/// Blend modes that the fixed-function blender can do.
#[derive(Clone, Copy, Debug, PartialEq, Eq, Structural)]
pub enum TrivialBlend {
    Normal,
    Add,
    Subtract,
    Screen,
}

/// Blend modes that read the pixels below them.
#[derive(Clone, Copy, Debug, PartialEq, Eq, Structural)]
pub enum ComplexBlend {
    Multiply,
    Lighten,
    Darken,
    Difference,
    Invert,
    Alpha,
    Erase,
    Overlay,
    HardLight,
}

/// How a layer is put onto what lies below it.
#[derive(Clone, Copy, Debug, PartialEq, Eq, Structural)]
pub enum BlendType {
    Trivial(TrivialBlend),
    Complex(ComplexBlend),
    Shader,
}

/// A bitmap by its identity, and how often its pixels were written.
#[derive(Clone, Copy, Debug, PartialEq, Eq, Structural)]
pub struct BitmapRef {
    pub id: u64,
    pub generation: u64,
}

/// How a command is placed and tinted: the bits of the numbers `a`, `b`, `c`, `d`, `tx`, `ty` of
/// its matrix, and those of the four multipliers and the four offsets of its color transform.
#[derive(Clone, Copy, Debug)]
pub struct Placement {
    pub matrix: [u32; 6],
    pub color: [u32; 8],
}

/// One draw command. `bounds` is the rectangle outside of which it draws nothing.
#[allow(inconsistent_fields)]
#[derive(Debug)]
pub enum Command {
    RenderBitmap {
        bitmap: BitmapRef,
        placement: Placement,
        smoothing: bool,
        pixel_snapping: PixelSnapping,
        bounds: Bounds,
    },
    RenderStage3D,
    RenderShape {
        shape: u64,
        placement: Placement,
        bitmaps: Vec<BitmapRef>,
        bounds: Option<Bounds>,
    },
    DrawRect { placement: Placement, bounds: Bounds },
    DrawLine { placement: Placement, bounds: Bounds },
    DrawLineRect { placement: Placement, bounds: Bounds },
    PushMask,
    ActivateMask,
    DeactivateMask,
    PopMask,
    Blend { commands: CommandList, blend_mode: BlendType, bounds: PixelRegion },
    RenderAlphaMask {
        maskee_commands: CommandList,
        mask_commands: CommandList,
        bounds: PixelRegion,
    },
}

/// Draw commands in the order in which they are drawn.
#[derive(Debug)]
pub struct CommandList {
    pub commands: Vec<Command>,
}

impl CommandList {
    pub fn new() -> (list: CommandList)
        ensures
            list.commands@ == Seq::<Command>::empty(),
    {
        CommandList { commands: Vec::new() }
    }
}

/// The number by which signatures tell the ways of snapping apart.
pub open spec fn spec_snapping_id(snapping: PixelSnapping) -> u64 {
    match snapping {
        PixelSnapping::Always => 1,
        PixelSnapping::Auto => 2,
        PixelSnapping::Never => 3,
    }
}

pub fn snapping_id(snapping: PixelSnapping) -> (id: u64)
    ensures
        id == spec_snapping_id(snapping),
{
    match snapping {
        PixelSnapping::Always => 1,
        PixelSnapping::Auto => 2,
        PixelSnapping::Never => 3,
    }
}

/// The number by which signatures tell the ways of blending apart.
pub open spec fn spec_blend_tag(blend: BlendType) -> u64 {
    match blend {
        BlendType::Trivial(TrivialBlend::Normal) => 10,
        BlendType::Trivial(TrivialBlend::Add) => 11,
        BlendType::Trivial(TrivialBlend::Subtract) => 12,
        BlendType::Trivial(TrivialBlend::Screen) => 13,
        BlendType::Complex(ComplexBlend::Multiply) => 14,
        BlendType::Complex(ComplexBlend::Lighten) => 15,
        BlendType::Complex(ComplexBlend::Darken) => 16,
        BlendType::Complex(ComplexBlend::Difference) => 17,
        BlendType::Complex(ComplexBlend::Invert) => 18,
        BlendType::Complex(ComplexBlend::Alpha) => 19,
        BlendType::Complex(ComplexBlend::Erase) => 20,
        BlendType::Complex(ComplexBlend::Overlay) => 21,
        BlendType::Complex(ComplexBlend::HardLight) => 22,
        BlendType::Shader => 23,
    }
}

pub fn blend_tag(blend: BlendType) -> (tag: u64)
    ensures
        tag == spec_blend_tag(blend),
{
    match blend {
        BlendType::Trivial(TrivialBlend::Normal) => 10,
        BlendType::Trivial(TrivialBlend::Add) => 11,
        BlendType::Trivial(TrivialBlend::Subtract) => 12,
        BlendType::Trivial(TrivialBlend::Screen) => 13,
        BlendType::Complex(ComplexBlend::Multiply) => 14,
        BlendType::Complex(ComplexBlend::Lighten) => 15,
        BlendType::Complex(ComplexBlend::Darken) => 16,
        BlendType::Complex(ComplexBlend::Difference) => 17,
        BlendType::Complex(ComplexBlend::Invert) => 18,
        BlendType::Complex(ComplexBlend::Alpha) => 19,
        BlendType::Complex(ComplexBlend::Erase) => 20,
        BlendType::Complex(ComplexBlend::Overlay) => 21,
        BlendType::Complex(ComplexBlend::HardLight) => 22,
        BlendType::Shader => 23,
    }
}

/// Different ways of snapping have different numbers.
pub proof fn snapping_ids_differ(a: PixelSnapping, b: PixelSnapping)
    ensures
        spec_snapping_id(a) == spec_snapping_id(b) <==> a == b,
{
}

/// Different ways of blending have different numbers, none of which is that of a mask command or
/// of a part of an alpha mask.
pub proof fn blend_tags_differ(a: BlendType, b: BlendType)
    ensures
        spec_blend_tag(a) == spec_blend_tag(b) <==> a == b,
        10 <= spec_blend_tag(a) <= 23,
{
}

} // verus!

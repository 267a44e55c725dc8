//! The uniform buffer from which draws get their transforms.

use crate::gpu::{BufferBinding, BufferDescriptor, Limits, BUFFER_COPY_DST, BUFFER_UNIFORM};
use vstd::prelude::*;

verus! {

/// Number of transforms a single dynamic uniform buffer holds before the
/// renderer must split the draw stream into a new render pass. Sized for the
/// worst common case (full redraw frames submit thousands of draws; each split
/// costs a full-surface multisampled load/store/resolve).
pub const TRANSFORMS_PER_BUFFER: u64 = 1024;

/// The distance between entries of `stride` bytes: the least multiple of the
/// alignment that is no less, or `stride` itself where there is no alignment.
pub open spec fn aligned_stride(stride: u64, alignment: u32) -> int {
    if alignment > 0 {
        (stride + alignment - 1) / alignment as int * alignment
    } else {
        stride as int
    }
}

/// The size of a buffer for `TRANSFORMS_PER_BUFFER` entries of `stride` bytes,
/// or the largest that the device can make.
pub open spec fn buffer_size(stride: u64, limits: Limits) -> int {
    let wanted = aligned_stride(stride, limits.min_uniform_buffer_offset_alignment)
        * TRANSFORMS_PER_BUFFER;
    if wanted <= limits.max_buffer_size {
        wanted
    } else {
        limits.max_buffer_size as int
    }
}

/// Whether the size of `TRANSFORMS_PER_BUFFER` entries is a number that fits
/// its type.
pub open spec fn stride_fits(stride: u64, limits: Limits) -> bool {
    aligned_stride(stride, limits.min_uniform_buffer_offset_alignment) * TRANSFORMS_PER_BUFFER
        <= u64::MAX
}

/// Byte size of the dynamic uniform buffer that holds up to
/// `TRANSFORMS_PER_BUFFER` aligned transform entries of `stride` bytes, capped
/// by the device's maximum buffer size.
pub fn transforms_buffer_size(stride: u64, limits: &Limits) -> (size: u64)
    requires
        stride_fits(stride, *limits),
    ensures
        size == buffer_size(stride, *limits),
{
    let alignment: u64 = limits.min_uniform_buffer_offset_alignment as u64;
    let aligned: u64 = if alignment > 0 {
        proof {
            let unit = alignment as int;
            let rounded = (stride + unit - 1) / unit;
            lemma_rounded_up(stride as int, unit);
            assert(rounded <= rounded * unit) by (nonlinear_arith)
                requires
                    0 <= rounded,
                    1 <= unit,
            ;
        }
        let whole: u64 = stride / alignment;
        let count: u64 = if stride % alignment == 0 {
            whole
        } else {
            whole + 1
        };
        count * alignment
    } else {
        stride
    };
    let wanted: u64 = aligned * TRANSFORMS_PER_BUFFER;
    if wanted <= limits.max_buffer_size {
        wanted
    } else {
        limits.max_buffer_size
    }
}

/// A buffer of transforms, bound so that a draw picks its entry by an offset.
pub struct DynamicTransforms<Buffer, BindGroup> {
    pub buffer: Buffer,
    pub bind_group: BindGroup,
}

/// The buffer that holds the transforms.
pub open spec fn transforms_descriptor(stride: u64, limits: Limits) -> BufferDescriptor {
    BufferDescriptor {
        size: buffer_size(stride, limits) as u64,
        usage: BUFFER_UNIFORM | BUFFER_COPY_DST,
        mapped_at_creation: false,
    }
}

/// The part of the buffer that a draw sees: one entry.
pub open spec fn transforms_binding(stride: u64) -> BufferBinding {
    BufferBinding {
        offset: 0,
        size: if stride == 0 {
            None
        } else {
            Some(stride)
        },
    }
}

impl<Buffer, BindGroup> DynamicTransforms<Buffer, BindGroup> {
    /// Makes the buffer for entries of `stride` bytes, and binds it.
    pub fn new(
        stride: u64,
        limits: &Limits,
        create_buffer: impl FnOnce(BufferDescriptor) -> Buffer,
        create_bind_group: impl FnOnce(&Buffer, BufferBinding) -> BindGroup,
    ) -> (transforms: Self)
        requires
            stride_fits(stride, *limits),
            call_requires(create_buffer, (transforms_descriptor(stride, *limits),)),
            forall|buffer: &Buffer| #[trigger]
                call_requires(create_bind_group, (buffer, transforms_binding(stride))),
        ensures
            call_ensures(
                create_buffer,
                (transforms_descriptor(stride, *limits),),
                transforms.buffer,
            ),
            call_ensures(
                create_bind_group,
                (&transforms.buffer, transforms_binding(stride)),
                transforms.bind_group,
            ),
    {
        let buffer = create_buffer(
            BufferDescriptor {
                size: transforms_buffer_size(stride, limits),
                usage: BUFFER_UNIFORM | BUFFER_COPY_DST,
                mapped_at_creation: false,
            },
        );
        let size: Option<u64> = if stride == 0 {
            None
        } else {
            Some(stride)
        };
        let bind_group = create_bind_group(&buffer, BufferBinding { offset: 0, size });
        DynamicTransforms { buffer, bind_group }
    }
}

/// Rounding up in two steps.
proof fn lemma_rounded_up(value: int, unit: int)
    requires
        value >= 0,
        unit > 0,
    ensures
        (value + unit - 1) / unit == if value % unit == 0 {
            value / unit
        } else {
            value / unit + 1
        },
{
    let whole = value / unit;
    let rest = value % unit;
    vstd::arithmetic::div_mod::lemma_fundamental_div_mod(value, unit);
    if rest == 0 {
        vstd::arithmetic::div_mod::lemma_fundamental_div_mod_converse(
            value + unit - 1,
            unit,
            whole,
            unit - 1,
        );
    } else {
        assert(unit * (whole + 1) == unit * whole + unit) by (nonlinear_arith);
        vstd::arithmetic::div_mod::lemma_fundamental_div_mod_converse(
            value + unit - 1,
            unit,
            whole + 1,
            rest - 1,
        );
    }
}

/// The distance between entries is a multiple of the alignment, leaves room for
/// an entry, and wastes less than one alignment.
pub proof fn entries_are_aligned(stride: u64, alignment: u32)
    requires
        alignment > 0,
    ensures
        aligned_stride(stride, alignment) % alignment as int == 0,
        stride <= aligned_stride(stride, alignment) < stride + alignment,
{
    let unit = alignment as int;
    let count = (stride + unit - 1) / unit;
    vstd::arithmetic::div_mod::lemma_fundamental_div_mod(stride + unit - 1, unit);
    assert(count * unit == unit * count) by (nonlinear_arith);
    vstd::arithmetic::div_mod::lemma_mod_multiples_basic(count, unit);
}

/// Where the device does not cap the size, every one of the
/// `TRANSFORMS_PER_BUFFER` entries lies inside the buffer.
pub proof fn every_entry_fits(stride: u64, limits: Limits, i: int)
    requires
        0 <= i < TRANSFORMS_PER_BUFFER,
        aligned_stride(stride, limits.min_uniform_buffer_offset_alignment) * TRANSFORMS_PER_BUFFER
            <= limits.max_buffer_size,
    ensures
        i * aligned_stride(stride, limits.min_uniform_buffer_offset_alignment) + stride
            <= buffer_size(stride, limits),
{
    let alignment = limits.min_uniform_buffer_offset_alignment;
    let aligned = aligned_stride(stride, alignment);
    if alignment > 0 {
        entries_are_aligned(stride, alignment);
    }
    assert((i + 1) * aligned <= aligned * TRANSFORMS_PER_BUFFER) by (nonlinear_arith)
        requires
            0 <= i < TRANSFORMS_PER_BUFFER,
            0 <= aligned,
    ;
    assert((i + 1) * aligned == i * aligned + aligned) by (nonlinear_arith);
}

/// The buffer is never larger than the device can make.
pub proof fn buffer_stays_within_limit(stride: u64, limits: Limits)
    ensures
        buffer_size(stride, limits) <= limits.max_buffer_size,
{
}

/// The buffer has room for 1024 entries, each at a multiple of the alignment, or is as large as the
/// device can make it; it holds uniforms and is copied to. A draw sees one entry, from the start.
pub proof fn buffer_has_room_for_all_entries(stride: u64, limits: Limits)
    requires
        stride_fits(stride, limits),
    ensures
        limits.min_uniform_buffer_offset_alignment == 0 ==> aligned_stride(stride, 0) == stride,
        ({
            let room = 1024 * aligned_stride(stride, limits.min_uniform_buffer_offset_alignment);
            &&& room <= limits.max_buffer_size ==> buffer_size(stride, limits) == room
            &&& room > limits.max_buffer_size ==> buffer_size(stride, limits)
                == limits.max_buffer_size
        }),
        transforms_descriptor(stride, limits).size == buffer_size(stride, limits),
        transforms_descriptor(stride, limits).usage == 72,
        !transforms_descriptor(stride, limits).mapped_at_creation,
        transforms_binding(stride).offset == 0,
        stride > 0 ==> transforms_binding(stride).size == Some(stride),
        stride == 0 ==> transforms_binding(stride).size is None,
{
    assert(64u32 | 8 == 72) by (bit_vector);
    let aligned = aligned_stride(stride, limits.min_uniform_buffer_offset_alignment);
    if limits.min_uniform_buffer_offset_alignment > 0 {
        entries_are_aligned(stride, limits.min_uniform_buffer_offset_alignment);
    }
    assert(aligned * 1024 >= 0);
}

/// Entries of up to 2^32 bytes fit, whatever the alignment.
pub proof fn ordinary_entries_fit(stride: u64, limits: Limits)
    requires
        stride <= 0x1_0000_0000,
    ensures
        stride_fits(stride, limits),
{
    if limits.min_uniform_buffer_offset_alignment > 0 {
        entries_are_aligned(stride, limits.min_uniform_buffer_offset_alignment);
    }
}

} // verus!

use frame_cache::dynamic_transforms::{
    transforms_buffer_size, DynamicTransforms, TRANSFORMS_PER_BUFFER,
};
use frame_cache::globals::Globals;
use frame_cache::gpu::{BufferBinding, BufferDescriptor, Limits, BUFFER_COPY_DST, BUFFER_UNIFORM};
use frame_cache::region::PixelRegion;
use std::mem;

#[allow(dead_code)]
struct Transforms {
    world_matrix: [[f32; 4]; 4],
    mult_color: [f32; 4],
    add_color: [f32; 4],
}

fn stride() -> u64 {
    mem::size_of::<Transforms>() as u64
}

fn limits(alignment: u32, max_buffer_size: u64) -> Limits {
    Limits {
        min_uniform_buffer_offset_alignment: alignment,
        max_buffer_size,
    }
}

#[test]
fn buffer_holds_one_thousand_transforms_at_gl_alignment() {
    let size = transforms_buffer_size(stride(), &limits(256, u64::MAX));
    assert_eq!(size, 1024 * 256);
}

#[test]
fn buffer_falls_back_to_struct_size_without_alignment() {
    let size = transforms_buffer_size(stride(), &limits(0, u64::MAX));
    assert_eq!(size, 1024 * mem::size_of::<Transforms>() as u64);
}

#[test]
fn buffer_is_capped_by_max_buffer_size() {
    let size = transforms_buffer_size(stride(), &limits(256, 512 * 256));
    assert_eq!(size, 512 * 256);
}

#[test]
fn stride_is_rounded_up_to_the_alignment() {
    assert_eq!(transforms_buffer_size(256, &limits(256, u64::MAX)), 1024 * 256);
    assert_eq!(transforms_buffer_size(257, &limits(256, u64::MAX)), 1024 * 512);
    assert_eq!(transforms_buffer_size(96, &limits(64, u64::MAX)), 1024 * 128);
    assert_eq!(transforms_buffer_size(0, &limits(64, u64::MAX)), 0);
    assert_eq!(TRANSFORMS_PER_BUFFER, 1024);
}

#[test]
fn transforms_are_bound_entry_by_entry() {
    let transforms = DynamicTransforms::new(
        96,
        &limits(256, u64::MAX),
        |descriptor: BufferDescriptor| descriptor,
        |buffer: &BufferDescriptor, binding: BufferBinding| (buffer.size, binding),
    );
    assert_eq!(
        transforms.buffer,
        BufferDescriptor {
            size: 1024 * 256,
            usage: BUFFER_UNIFORM | BUFFER_COPY_DST,
            mapped_at_creation: false,
        }
    );
    assert_eq!(
        transforms.bind_group,
        (
            1024 * 256,
            BufferBinding {
                offset: 0,
                size: Some(96)
            }
        )
    );
    assert_eq!(BUFFER_UNIFORM | BUFFER_COPY_DST, 72);
}

#[test]
fn globals_hold_the_view_of_their_viewport() {
    let viewport = PixelRegion::for_region(100, 50, 400, 200);
    let globals = Globals::new(
        viewport,
        |viewport: PixelRegion, usage: u32| (viewport, usage),
        |buffer: &(PixelRegion, u32)| format!("{} {}", buffer.0.x_max, buffer.1),
    );
    assert_eq!(globals.bind_group(), "500 64");
}

use frame_cache::command::{Command, CommandList, ComplexBlend};
use frame_cache::gpu::{Extent3d, TextureDescriptor, TextureFormat};
use frame_cache::passes::{
    composite_blend, frame_steps, regions_strictly_intersect, BlendPipeline, BlendSource, Chunk,
    CompositeState, FrameDrawing, LayerRef, MaskState, PassAction, Step,
};
use frame_cache::region::PixelRegion;
use frame_cache::surface::{FrameAction, Surface};

fn region(x: u32, y: u32) -> PixelRegion {
    PixelRegion::for_region(x, y, 10, 10)
}

fn complex(blend_mode: ComplexBlend, needs_stencil: bool, viewport: PixelRegion) -> Chunk {
    Chunk::Complex {
        blend_mode,
        needs_stencil,
        viewport,
    }
}

fn multiply(x: u32) -> Chunk {
    complex(ComplexBlend::Multiply, false, region(x, 0))
}

fn prepare(chunk: usize, source: BlendSource, x: u32) -> Step {
    Step::Prepare {
        chunk,
        source,
        viewport: region(x, 0),
    }
}

fn composite(chunk: usize, blend_mode: ComplexBlend) -> Step {
    Step::Composite {
        chunk,
        blend_mode,
        needs_stencil: false,
    }
}

const UNMASKED: Step = Step::BeginBlends {
    with_stencil: false,
};

#[test]
fn draws_and_shaders_stand_alone() {
    let chunks = vec![
        Chunk::Draw {
            needs_stencil: false,
        },
        Chunk::Draw {
            needs_stencil: true,
        },
        Chunk::Shader {
            needs_stencil: false,
            viewport: region(0, 0),
        },
    ];
    assert_eq!(
        frame_steps(&chunks, LayerRef::Absent, false),
        vec![
            Step::Draw {
                chunk: 0,
                with_stencil: false
            },
            Step::Draw {
                chunk: 1,
                with_stencil: true
            },
            Step::Shade {
                chunk: 2,
                viewport: region(0, 0)
            },
        ]
    );
}

#[test]
fn blends_apart_from_each_other_share_a_pass() {
    let chunks = vec![multiply(0), multiply(10), multiply(20)];
    assert_eq!(
        frame_steps(&chunks, LayerRef::Absent, false),
        vec![
            prepare(0, BlendSource::Target, 0),
            prepare(1, BlendSource::Target, 10),
            prepare(2, BlendSource::Target, 20),
            UNMASKED,
            composite(0, ComplexBlend::Multiply),
            composite(1, ComplexBlend::Multiply),
            composite(2, ComplexBlend::Multiply),
        ]
    );
}

#[test]
fn overlapping_blend_begins_a_new_pass() {
    let chunks = vec![multiply(0), multiply(10), multiply(9), multiply(30)];
    assert_eq!(
        frame_steps(&chunks, LayerRef::Absent, false),
        vec![
            prepare(0, BlendSource::Target, 0),
            prepare(1, BlendSource::Target, 10),
            UNMASKED,
            composite(0, ComplexBlend::Multiply),
            composite(1, ComplexBlend::Multiply),
            prepare(2, BlendSource::Target, 9),
            prepare(3, BlendSource::Target, 30),
            UNMASKED,
            composite(2, ComplexBlend::Multiply),
            composite(3, ComplexBlend::Multiply),
        ]
    );
}

#[test]
fn blends_with_and_without_stencil_do_not_mix() {
    let chunks = vec![
        multiply(0),
        complex(ComplexBlend::Invert, true, region(20, 0)),
    ];
    assert_eq!(
        frame_steps(&chunks, LayerRef::Absent, false),
        vec![
            prepare(0, BlendSource::Target, 0),
            UNMASKED,
            composite(0, ComplexBlend::Multiply),
            prepare(1, BlendSource::Target, 20),
            Step::BeginBlends { with_stencil: true },
            Step::Composite {
                chunk: 1,
                blend_mode: ComplexBlend::Invert,
                needs_stencil: true
            },
        ]
    );
}

#[test]
fn draw_between_blends_ends_a_batch() {
    let chunks = vec![
        multiply(0),
        Chunk::Draw {
            needs_stencil: false,
        },
        multiply(20),
    ];
    assert_eq!(
        frame_steps(&chunks, LayerRef::Absent, true),
        vec![
            prepare(0, BlendSource::Target, 0),
            Step::BeginBlends { with_stencil: true },
            composite(0, ComplexBlend::Multiply),
            Step::Draw {
                chunk: 1,
                with_stencil: true
            },
            prepare(2, BlendSource::Target, 20),
            Step::BeginBlends { with_stencil: true },
            composite(2, ComplexBlend::Multiply),
        ]
    );
}

#[test]
fn alpha_and_erase_act_on_the_nearest_layer() {
    let chunks = vec![
        multiply(0),
        complex(ComplexBlend::Alpha, false, region(20, 0)),
        complex(ComplexBlend::Erase, false, region(40, 0)),
    ];
    let steps = |layer, source| {
        assert_eq!(
            frame_steps(&chunks, layer, false),
            vec![
                prepare(0, BlendSource::Target, 0),
                prepare(1, source, 20),
                prepare(2, source, 40),
                UNMASKED,
                composite(0, ComplexBlend::Multiply),
                composite(1, ComplexBlend::Alpha),
                composite(2, ComplexBlend::Erase),
            ]
        );
    };
    steps(LayerRef::Current, BlendSource::Target);
    steps(LayerRef::Parent, BlendSource::Layer);
    // Without a layer they are left out of the batch.
    assert_eq!(
        frame_steps(&chunks, LayerRef::Absent, false),
        vec![
            prepare(0, BlendSource::Target, 0),
            UNMASKED,
            composite(0, ComplexBlend::Multiply),
        ]
    );
}

#[test]
fn blend_with_nothing_to_act_on_is_left_out_of_its_batch() {
    let chunks = vec![
        complex(ComplexBlend::Alpha, false, region(0, 0)),
        multiply(20),
        multiply(25),
    ];
    assert_eq!(
        frame_steps(&chunks, LayerRef::Absent, false),
        vec![
            prepare(1, BlendSource::Target, 20),
            UNMASKED,
            composite(1, ComplexBlend::Multiply),
            prepare(2, BlendSource::Target, 25),
            UNMASKED,
            composite(2, ComplexBlend::Multiply),
        ]
    );
}

#[test]
fn batch_with_nothing_to_act_on_needs_no_pass() {
    let chunks = vec![
        complex(ComplexBlend::Alpha, false, region(0, 0)),
        complex(ComplexBlend::Erase, false, region(20, 0)),
        Chunk::Draw {
            needs_stencil: false,
        },
    ];
    assert_eq!(
        frame_steps(&chunks, LayerRef::Absent, false),
        vec![Step::Draw {
            chunk: 2,
            with_stencil: false
        }]
    );
}

#[test]
fn children_see_the_target_as_parent() {
    assert_eq!(LayerRef::Absent.for_children(), LayerRef::Absent);
    assert_eq!(LayerRef::Current.for_children(), LayerRef::Parent);
    assert_eq!(LayerRef::Parent.for_children(), LayerRef::Parent);
}

#[test]
fn touching_regions_do_not_intersect() {
    assert!(!regions_strictly_intersect(region(0, 0), region(10, 0)));
    assert!(!regions_strictly_intersect(region(0, 0), region(0, 10)));
    assert!(regions_strictly_intersect(region(0, 0), region(9, 9)));
    assert!(regions_strictly_intersect(region(5, 5), region(5, 5)));
    assert!(!regions_strictly_intersect(region(0, 0), region(50, 0)));
}

#[test]
fn stencil_follows_the_masks() {
    let masked = |mask_state| composite_blend(3, mask_state, false, true);
    let reference = |mask_state| masked(mask_state).stencil_reference;
    assert_eq!(reference(MaskState::NoMask), None);
    assert_eq!(reference(MaskState::DrawMaskStencil), Some(2));
    assert_eq!(reference(MaskState::DrawMaskedContent), Some(3));
    assert_eq!(reference(MaskState::ClearMaskStencil), Some(3));
    assert_eq!(
        masked(MaskState::DrawMaskedContent).pipeline,
        BlendPipeline::Masked {
            mask_state: MaskState::DrawMaskedContent
        }
    );
    assert_eq!(
        composite_blend(3, MaskState::DrawMaskedContent, false, false),
        CompositeState {
            stencil_reference: None,
            pipeline: BlendPipeline::Stencilless
        }
    );
}

#[test]
fn partial_frames_mark_their_stencil() {
    let dirty = |num_masks, mask_state| composite_blend(num_masks, mask_state, true, false);
    assert_eq!(
        dirty(0, MaskState::NoMask),
        CompositeState {
            stencil_reference: Some(0x80),
            pipeline: BlendPipeline::Dirty {
                mask_state: MaskState::NoMask
            },
        }
    );
    assert_eq!(
        dirty(3, MaskState::DrawMaskStencil).stencil_reference,
        Some(0x82)
    );
    assert_eq!(
        dirty(3, MaskState::ClearMaskStencil).stencil_reference,
        Some(0x83)
    );
}

#[test]
fn masks_are_carried_from_draw_to_draw() {
    let chunks = vec![
        Chunk::Draw {
            needs_stencil: true,
        },
        complex(ComplexBlend::Darken, true, region(0, 0)),
        Chunk::Draw {
            needs_stencil: true,
        },
    ];
    let mut frame = FrameDrawing::new(&chunks, LayerRef::Absent, false);
    assert_eq!(
        frame.advance(),
        PassAction::Draw {
            chunk: 0,
            with_stencil: true,
            dirty_tiles: false,
            num_masks: 0,
            mask_state: MaskState::NoMask,
        }
    );
    frame.drawn(2, MaskState::DrawMaskStencil);
    assert_eq!(
        frame.advance(),
        PassAction::Prepare {
            chunk: 1,
            source: BlendSource::Target,
            viewport: region(0, 0)
        }
    );
    assert_eq!(
        frame.advance(),
        PassAction::BeginBlends { with_stencil: true }
    );
    assert!(frame.can_advance());
    assert_eq!(
        frame.advance(),
        PassAction::Composite {
            chunk: 1,
            blend_mode: ComplexBlend::Darken,
            state: CompositeState {
                stencil_reference: Some(1),
                pipeline: BlendPipeline::Masked {
                    mask_state: MaskState::DrawMaskStencil
                },
            },
        }
    );
    assert_eq!(
        frame.advance(),
        PassAction::Draw {
            chunk: 2,
            with_stencil: true,
            dirty_tiles: false,
            num_masks: 2,
            mask_state: MaskState::DrawMaskStencil,
        }
    );
    assert_eq!(frame.advance(), PassAction::Finish);
    assert_eq!(frame.advance(), PassAction::Finish);
}

#[test]
fn blend_inside_an_uncounted_mask_cannot_go_on() {
    let chunks = vec![complex(ComplexBlend::Darken, true, region(0, 0))];
    let mut frame = FrameDrawing::new(&chunks, LayerRef::Absent, false);
    frame.drawn(0, MaskState::DrawMaskStencil);
    assert!(frame.can_advance());
    frame.advance();
    assert!(frame.can_advance());
    frame.advance();
    assert!(!frame.can_advance());
    frame.drawn(1, MaskState::DrawMaskStencil);
    assert!(frame.can_advance());
}

const FORMAT: TextureFormat = TextureFormat { id: 18 };

type TestSurface = Surface<TextureDescriptor, u8, (u32, TextureFormat), String>;

fn surface(width: u32, height: u32, samples: u32) -> TestSurface {
    Surface::new(
        9,
        width,
        height,
        FORMAT,
        |quality: u8| quality as u32,
        move |wanted: u32, _: TextureFormat| {
            assert_eq!(wanted, 9);
            samples
        },
        |count: u32, format: TextureFormat| (count, format),
    )
}

#[test]
fn surface_has_the_size_of_its_viewport() {
    let surface = surface(30, 20, 4);
    assert_eq!(surface.viewport(), PixelRegion::for_whole_size(30, 20));
    assert_eq!(
        surface.size(),
        Extent3d {
            width: 30,
            height: 20,
            depth_or_array_layers: 1
        }
    );
    assert_eq!(surface.quality(), 9);
    assert_eq!(surface.sample_count(), 4);
    assert_eq!(surface.format(), FORMAT);
    assert_eq!(*surface.pipelines(), (4, FORMAT));

    let part: TestSurface = Surface::for_viewport_with_sample_count(
        1,
        PixelRegion::for_region(5, 6, 7, 8),
        FORMAT,
        16,
        |wanted: u32, _: TextureFormat| wanted / 2,
        |count: u32, format: TextureFormat| (count, format),
    );
    assert_eq!(part.sample_count(), 8);
    assert_eq!(part.size().width, 7);
    assert_eq!(part.size().height, 8);
}

#[test]
fn region_bind_groups_are_made_once() {
    let mut surface = surface(30, 20, 4);
    let name = |region: PixelRegion| format!("{} {}", region.x_min, region.y_min);
    assert_eq!(surface.cached_region_bind_group(region(1, 2), name), "1 2");
    assert_eq!(
        surface.cached_region_bind_group(region(1, 2), |_| unreachable!()),
        "1 2"
    );
    assert_eq!(surface.cached_region_bind_group(region(2, 1), name), "2 1");
}

fn stage(commands: Vec<Command>) -> CommandList {
    CommandList { commands }
}

const CLEAR: [u64; 4] = [0; 4];

#[test]
fn surface_with_one_sample_is_drawn_directly() {
    let mut surface = surface(64, 64, 1);
    for _ in 0..2 {
        let action =
            surface.draw_frame_commands_and_copy_to(|_| unreachable!(), &stage(vec![]), CLEAR);
        assert!(matches!(action, FrameAction::Direct));
    }
}

#[test]
fn repeated_frame_is_copied() {
    let mut surface = surface(64, 64, 4);
    let first = surface.draw_frame_commands_and_copy_to(
        |descriptor| descriptor,
        &stage(vec![Command::ActivateMask]),
        CLEAR,
    );
    match first {
        FrameAction::Redraw {
            multisampled,
            resolved,
            clear,
            rects,
        } => {
            assert_eq!(multisampled.sample_count, 4);
            assert_eq!(resolved.sample_count, 1);
            assert!(clear);
            assert!(rects.is_none());
        }
        other => panic!("expected a full frame, not {:?}", other),
    }
    let second = surface.draw_frame_commands_and_copy_to(
        |_| unreachable!(),
        &stage(vec![Command::ActivateMask]),
        CLEAR,
    );
    match second {
        FrameAction::CopyRetained { resolved } => assert_eq!(resolved.sample_count, 1),
        other => panic!("expected a copy, not {:?}", other),
    }
}

#[test]
fn partial_frame_is_not_cleared() {
    let mut surface = surface(128, 128, 4);
    let layer = |x| {
        stage(vec![Command::Blend {
            commands: stage(vec![]),
            blend_mode: frame_cache::command::BlendType::Shader,
            bounds: PixelRegion::for_region(x, 0, 8, 8),
        }])
    };
    let forced = surface.draw_frame_commands_and_copy_to(|made| made, &layer(0), CLEAR);
    assert!(matches!(forced, FrameAction::Redraw { clear: true, rects: None, .. }));

    let mut surface = TestSurface::for_viewport(
        9,
        PixelRegion::for_whole_size(128, 128),
        FORMAT,
        |_: u8| 4,
        |wanted: u32, _: TextureFormat| wanted,
        |count: u32, format: TextureFormat| (count, format),
    );
    let mask = |x| {
        stage(vec![Command::RenderAlphaMask {
            maskee_commands: stage(vec![]),
            mask_commands: stage(vec![]),
            bounds: PixelRegion::for_region(x, 0, 8, 8),
        }])
    };
    surface.draw_frame_commands_and_copy_to(|made| made, &mask(0), CLEAR);
    match surface.draw_frame_commands_and_copy_to(|made| made, &mask(64), CLEAR) {
        FrameAction::Redraw { clear, rects, .. } => {
            assert!(!clear);
            assert_eq!(
                rects,
                Some(vec![
                    PixelRegion::for_region(0, 0, 32, 32),
                    PixelRegion::for_region(64, 0, 32, 32),
                ])
            );
        }
        other => panic!("expected a partial frame, not {:?}", other),
    }
}

#[test]
fn surface_begins_frames_without_masks() {
    let surface = surface(64, 64, 4);
    let chunks = vec![Chunk::Draw {
        needs_stencil: false,
    }];
    let draw = |with_stencil, dirty_tiles| PassAction::Draw {
        chunk: 0,
        with_stencil,
        dirty_tiles,
        num_masks: 0,
        mask_state: MaskState::NoMask,
    };
    let mut whole = surface.draw_commands(&chunks, LayerRef::Absent);
    assert_eq!(whole.advance(), draw(false, false));
    let rects = vec![region(0, 0)];
    let mut part = surface.draw_commands_impl(&chunks, LayerRef::Absent, Some(&rects));
    assert_eq!(part.advance(), draw(true, true));
}

use frame_cache::coalesce::coalesce_tiles;
use frame_cache::command::{
    blend_tag, snapping_id, BitmapRef, BlendType, Command, CommandList, ComplexBlend, PixelSnapping,
    Placement, TrivialBlend,
};
use frame_cache::dirty::{
    DirtyDecision, DirtyTileState, HIGH_CHANGE_STREAK_LIMIT, TRACKING_COOLDOWN_FRAMES,
};
use frame_cache::fingerprint::{frame_fingerprint, Fingerprint};
use frame_cache::gpu::{Extent3d, TextureDescriptor, TextureFormat};
use frame_cache::region::{pixel_bounds, viewport_bounds, Bounds, PixelRegion};
use frame_cache::signature::{command_signature, mix, HASH_SEED};

const BLACK: [u64; 4] = [0, 0, 0, 0x3ff0_0000_0000_0000];

/// A placement by its matrix, in pixels, with a color of all ones.
fn placement(a: f32, d: f32, tx: f32, ty: f32) -> Placement {
    let one = 1.0f32.to_bits();
    Placement {
        matrix: [
            a.to_bits(),
            0.0f32.to_bits(),
            0.0f32.to_bits(),
            d.to_bits(),
            tx.to_bits(),
            ty.to_bits(),
        ],
        color: [one, one, one, one, 0, 0, 0, 0],
    }
}

/// A rectangle of whole pixels, with the margin that rectangles are drawn with.
fn rect(x: i64, y: i64, width: i64, height: i64) -> Command {
    Command::DrawRect {
        placement: placement(width as f32, height as f32, x as f32, y as f32),
        bounds: Bounds {
            left: x - 2,
            top: y - 2,
            right: x + width + 2,
            bottom: y + height + 2,
        },
    }
}

fn list(commands: Vec<Command>) -> CommandList {
    CommandList { commands }
}

fn hashes(viewport: PixelRegion, commands: Vec<Command>) -> Vec<u64> {
    frame_fingerprint(viewport, BLACK, &list(commands)).hashes
}

#[test]
fn coalesces_rectangles_without_covering_clean_tiles() {
    let dirty = [true, true, false, true, true, true, false, true];
    let rects = coalesce_tiles(&dirty, 4, 2, PixelRegion::for_whole_size(128, 64));
    assert_eq!(
        rects,
        vec![
            PixelRegion::for_region(0, 0, 64, 64),
            PixelRegion::for_region(96, 0, 32, 64),
        ]
    );
}

#[test]
fn clips_edge_tiles() {
    let rects = coalesce_tiles(
        &[false, true, false, true],
        2,
        2,
        PixelRegion::for_whole_size(50, 45),
    );
    assert_eq!(rects, vec![PixelRegion::for_region(32, 0, 18, 45)]);
}

#[test]
fn nested_changes_invalidate_the_entire_effect_bounds() {
    let make = |x: i64| {
        let mut child = CommandList::new();
        child.commands.push(rect(x, 0, 8, 8));
        let mut commands = CommandList::new();
        commands.commands.push(Command::Blend {
            commands: child,
            blend_mode: BlendType::Trivial(TrivialBlend::Normal),
            bounds: PixelRegion::for_whole_size(64, 32),
        });
        Fingerprint::new(PixelRegion::for_whole_size(64, 32), BLACK)
            .build(&commands)
            .hashes
    };

    let first = make(0);
    let moved = make(4);
    assert_eq!(first[0], first[1]);
    assert_ne!(first[0], moved[0]);
    assert_ne!(first[1], moved[1]);
}

#[test]
fn rows_of_different_width_are_not_joined() {
    let dirty = [
        true, true, true, //
        true, true, false, //
        false, true, true,
    ];
    let rects = coalesce_tiles(&dirty, 3, 3, PixelRegion::for_whole_size(96, 96));
    assert_eq!(
        rects,
        vec![
            PixelRegion::for_region(0, 0, 96, 32),
            PixelRegion::for_region(0, 32, 64, 32),
            PixelRegion::for_region(32, 64, 64, 32),
        ]
    );
}

#[test]
fn clean_tiles_give_no_regions() {
    let rects = coalesce_tiles(&[false; 6], 3, 2, PixelRegion::for_whole_size(96, 64));
    assert!(rects.is_empty());
    assert!(coalesce_tiles(&[], 0, 0, PixelRegion::for_whole_size(0, 0)).is_empty());
}

#[test]
fn every_dirty_tile_lies_in_one_region() {
    for pattern in 0..512u32 {
        let dirty: Vec<bool> = (0..9).map(|i| pattern >> i & 1 == 1).collect();
        let rects = coalesce_tiles(&dirty, 3, 3, PixelRegion::for_whole_size(90, 90));
        for y in 0..90 {
            for x in 0..90 {
                let count = rects
                    .iter()
                    .filter(|r| r.x_min <= x && x < r.x_max && r.y_min <= y && y < r.y_max)
                    .count();
                let tile = (y / 32 * 3 + x / 32) as usize;
                assert_eq!(count, dirty[tile] as usize);
            }
        }
    }
}

#[test]
fn signatures_have_known_values() {
    let mut hash = HASH_SEED;
    mix(&mut hash, 1);
    assert_eq!(hash, 0xaf63_bc4c_8601_b62c);
    assert_eq!(
        command_signature(3, &[1, 2, 3, 4, 5, 6], &[7, 8, 9, 10, 11, 12, 13, 14]),
        0xbf60_2e0d_8d81_a40d
    );
}

#[test]
fn mixing_tells_values_apart() {
    let (mut a, mut b) = (HASH_SEED, HASH_SEED);
    mix(&mut a, 5);
    mix(&mut b, 6);
    assert_ne!(a, b);
    let (mut a, mut b) = (1, 2);
    mix(&mut a, 7);
    mix(&mut b, 7);
    assert_ne!(a, b);
}

#[test]
fn each_number_of_a_command_counts() {
    let matrix = [1, 2, 3, 4, 5, 6];
    let color = [7, 8, 9, 10, 11, 12, 13, 14];
    let plain = command_signature(3, &matrix, &color);
    for i in 0..6 {
        let mut changed = matrix;
        changed[i] += 1;
        assert_ne!(command_signature(3, &changed, &color), plain);
    }
    for i in 0..8 {
        let mut changed = color;
        changed[i] += 1;
        assert_ne!(command_signature(3, &matrix, &changed), plain);
    }
    assert_ne!(command_signature(4, &matrix, &color), plain);
}

#[test]
fn tags_are_numbered() {
    let trivial = [
        TrivialBlend::Normal,
        TrivialBlend::Add,
        TrivialBlend::Subtract,
        TrivialBlend::Screen,
    ];
    let complex = [
        ComplexBlend::Multiply,
        ComplexBlend::Lighten,
        ComplexBlend::Darken,
        ComplexBlend::Difference,
        ComplexBlend::Invert,
        ComplexBlend::Alpha,
        ComplexBlend::Erase,
        ComplexBlend::Overlay,
        ComplexBlend::HardLight,
    ];
    let mut tags: Vec<u64> = trivial
        .iter()
        .map(|blend| blend_tag(BlendType::Trivial(*blend)))
        .collect();
    tags.extend(complex.iter().map(|blend| blend_tag(BlendType::Complex(*blend))));
    tags.push(blend_tag(BlendType::Shader));
    assert_eq!(tags, (10..24).collect::<Vec<u64>>());
    assert_eq!(snapping_id(PixelSnapping::Always), 1);
    assert_eq!(snapping_id(PixelSnapping::Auto), 2);
    assert_eq!(snapping_id(PixelSnapping::Never), 3);
}

#[test]
fn bounds_have_the_edges_of_regions() {
    let region = PixelRegion::for_region(3, 4, 5, 6);
    let bounds = Bounds {
        left: 3,
        top: 4,
        right: 8,
        bottom: 10,
    };
    assert_eq!(viewport_bounds(region), bounds);
    assert_eq!(pixel_bounds(region), bounds);
    assert_eq!(region.width(), 5);
    assert_eq!(region.height(), 6);
}

#[test]
fn hashes_of_simple_frames_have_known_values() {
    let viewport = PixelRegion::for_whole_size(40, 32);
    assert_eq!(hashes(viewport, vec![]), vec![0x5bac_4fd9_252b_e94f; 2]);
    assert_eq!(
        hashes(viewport, vec![Command::PushMask]),
        vec![0x5ba7_efd9_2535_cd25; 2]
    );
}

#[test]
fn moved_rectangle_changes_the_tiles_it_touches() {
    let viewport = PixelRegion::for_whole_size(128, 64);
    let before = hashes(viewport, vec![rect(4, 4, 8, 8)]);
    let after = hashes(viewport, vec![rect(68, 36, 8, 8)]);
    let changed: Vec<usize> = (0..8).filter(|i| before[*i] != after[*i]).collect();
    assert_eq!(changed, vec![0, 6]);
}

#[test]
fn recolored_rectangle_changes_only_its_tiles() {
    let viewport = PixelRegion::for_whole_size(96, 96);
    let colored = |tint: u32| {
        let mut placed = placement(20.0, 20.0, 40.0, 40.0);
        placed.color[4] = tint;
        vec![
            rect(0, 0, 96, 96),
            Command::DrawRect {
                placement: placed,
                bounds: Bounds {
                    left: 38,
                    top: 38,
                    right: 66,
                    bottom: 62,
                },
            },
        ]
    };
    let before = hashes(viewport, colored(0));
    let after = hashes(viewport, colored(1));
    let changed: Vec<usize> = (0..9).filter(|i| before[*i] != after[*i]).collect();
    assert_eq!(changed, vec![4, 5]);
}

#[test]
fn invisible_commands_leave_no_trace() {
    let viewport = PixelRegion::for_region(32, 32, 64, 64);
    let hidden = vec![
        rect(200, 200, 10, 10),
        rect(0, 0, 30, 200),
        Command::RenderShape {
            shape: 1,
            placement: placement(1.0, 1.0, 0.0, 0.0),
            bitmaps: vec![],
            bounds: None,
        },
    ];
    assert_eq!(hashes(viewport, hidden), hashes(viewport, vec![]));
}

#[test]
fn repeated_command_does_not_cancel_out() {
    let viewport = PixelRegion::for_whole_size(32, 32);
    let twice = hashes(viewport, vec![rect(0, 0, 8, 8), rect(0, 0, 8, 8)]);
    assert_ne!(twice, hashes(viewport, vec![]));
    assert_ne!(twice, hashes(viewport, vec![rect(0, 0, 8, 8)]));
}

#[test]
fn bitmaps_count_with_their_generation() {
    let viewport = PixelRegion::for_whole_size(32, 32);
    let bitmap = |generation, smoothing, pixel_snapping| {
        hashes(
            viewport,
            vec![Command::RenderBitmap {
                bitmap: BitmapRef { id: 7, generation },
                placement: placement(8.0, 8.0, 0.0, 0.0),
                smoothing,
                pixel_snapping,
                bounds: Bounds {
                    left: -2,
                    top: -2,
                    right: 10,
                    bottom: 10,
                },
            }],
        )
    };
    let plain = bitmap(1, false, PixelSnapping::Never);
    assert_eq!(plain, bitmap(1, false, PixelSnapping::Never));
    assert_ne!(plain, bitmap(2, false, PixelSnapping::Never));
    assert_ne!(plain, bitmap(1, true, PixelSnapping::Never));
    assert_ne!(plain, bitmap(1, false, PixelSnapping::Auto));

    let shape = |generation| {
        hashes(
            viewport,
            vec![Command::RenderShape {
                shape: 3,
                placement: placement(1.0, 1.0, 0.0, 0.0),
                bitmaps: vec![BitmapRef { id: 7, generation }],
                bounds: Some(Bounds {
                    left: 0,
                    top: 0,
                    right: 8,
                    bottom: 8,
                }),
            }],
        )
    };
    assert_ne!(shape(1), shape(2));
}

#[test]
fn alpha_mask_counts_both_layers() {
    let viewport = PixelRegion::for_whole_size(64, 32);
    let masked = |x, mask_x| {
        hashes(
            viewport,
            vec![Command::RenderAlphaMask {
                maskee_commands: list(vec![rect(x, 0, 8, 8)]),
                mask_commands: list(vec![rect(mask_x, 0, 8, 8)]),
                bounds: PixelRegion::for_whole_size(32, 32),
            }],
        )
    };
    let plain = masked(0, 0);
    assert_ne!(plain[0], masked(1, 0)[0]);
    assert_ne!(plain[0], masked(0, 1)[0]);
    assert_eq!(plain[1], masked(1, 1)[1]);
}

#[test]
fn some_commands_force_a_full_frame() {
    let viewport = PixelRegion::for_whole_size(32, 32);
    let forced = |commands| frame_fingerprint(viewport, BLACK, &list(commands)).force_full;
    assert!(!forced(vec![rect(0, 0, 8, 8)]));
    assert!(forced(vec![Command::RenderStage3D]));
    let blend = |blend_mode, commands| Command::Blend {
        commands: list(commands),
        blend_mode,
        bounds: viewport,
    };
    assert!(forced(vec![blend(BlendType::Shader, vec![])]));
    assert!(forced(vec![blend(
        BlendType::Complex(ComplexBlend::Invert),
        vec![Command::RenderStage3D]
    )]));
    assert!(!forced((0..127).map(|_| Command::PushMask).collect()));
    assert!(forced((0..128).map(|_| Command::PushMask).collect()));
    let mut popped: Vec<Command> = (0..127).map(|_| Command::PushMask).collect();
    popped.push(Command::PopMask);
    popped.push(Command::PushMask);
    assert!(!forced(popped));
}

const FORMAT: TextureFormat = TextureFormat { id: 18 };

fn frame(
    state: &mut DirtyTileState<TextureDescriptor>,
    commands: Vec<Command>,
) -> DirtyDecision<TextureDescriptor> {
    state.prepare(
        |descriptor| descriptor,
        &list(commands),
        PixelRegion::for_whole_size(128, 128),
        FORMAT,
        4,
        BLACK,
    )
}

#[test]
fn first_frame_makes_textures_and_is_drawn_in_full() {
    let mut state = DirtyTileState::new();
    let decision = frame(&mut state, vec![rect(0, 0, 8, 8)]);
    assert!(decision.rects.is_none());
    let size = Extent3d {
        width: 128,
        height: 128,
        depth_or_array_layers: 1,
    };
    assert_eq!(
        decision.multisampled,
        TextureDescriptor {
            size,
            sample_count: 4,
            format: FORMAT,
            usage: 16
        }
    );
    assert_eq!(
        decision.resolved,
        TextureDescriptor {
            size,
            sample_count: 1,
            format: FORMAT,
            usage: 21
        }
    );
}

#[test]
fn textures_are_made_once() {
    let mut state: DirtyTileState<u32> = DirtyTileState::new();
    let made = std::cell::Cell::new(0);
    for _ in 0..3 {
        let decision = state.prepare(
            |_| {
                made.set(made.get() + 1);
                made.get()
            },
            &list(vec![]),
            PixelRegion::for_whole_size(32, 32),
            FORMAT,
            4,
            BLACK,
        );
        assert_eq!((decision.multisampled, decision.resolved), (1, 2));
    }
    assert_eq!(made.get(), 2);
}

#[test]
fn unchanged_frame_has_no_regions() {
    let mut state = DirtyTileState::new();
    frame(&mut state, vec![rect(0, 0, 8, 8)]);
    let decision = frame(&mut state, vec![rect(0, 0, 8, 8)]);
    assert_eq!(decision.rects, Some(vec![]));
}

#[test]
fn small_change_is_drawn_in_part() {
    let mut state = DirtyTileState::new();
    frame(&mut state, vec![rect(0, 0, 8, 8)]);
    let decision = frame(&mut state, vec![rect(64, 64, 8, 8)]);
    // The margin of the rectangle reaches into the tiles before it.
    assert_eq!(
        decision.rects,
        None,
        "five of sixteen tiles are too many to draw in part"
    );
    let mut state = DirtyTileState::new();
    frame(&mut state, vec![rect(4, 4, 8, 8)]);
    let decision = frame(&mut state, vec![rect(68, 68, 8, 8)]);
    assert_eq!(
        decision.rects,
        Some(vec![
            PixelRegion::for_region(0, 0, 32, 32),
            PixelRegion::for_region(64, 64, 32, 32),
        ])
    );
}

#[test]
fn one_quarter_of_the_tiles_is_the_most() {
    let rows = |tiles: i64| vec![rect(2, 2, tiles * 32 - 4, 28)];
    let mut state = DirtyTileState::new();
    frame(&mut state, vec![]);
    assert!(frame(&mut state, rows(4)).rects.is_some());
    let mut state = DirtyTileState::new();
    frame(&mut state, vec![]);
    let mut five = rows(4);
    five.push(rect(4, 36, 8, 8));
    assert!(frame(&mut state, five).rects.is_none());
}

#[test]
fn busy_frames_give_tracking_up() {
    let full = |x| vec![rect(x, 0, 128, 128)];
    let mut state = DirtyTileState::new();
    frame(&mut state, full(0));
    assert_eq!(HIGH_CHANGE_STREAK_LIMIT, 3);
    for x in 1..=3 {
        assert_eq!(state.tracking_cooldown, 0);
        assert!(frame(&mut state, full(x)).rects.is_none());
    }
    assert_eq!(state.tracking_cooldown, TRACKING_COOLDOWN_FRAMES);
    // While tracking is given up, even unchanged frames are drawn in full.
    for left in (0..10).rev() {
        assert!(frame(&mut state, full(3)).rects.is_none());
        assert_eq!(state.tracking_cooldown, left);
    }
    assert!(frame(&mut state, full(3)).rects.is_none());
    assert_eq!(frame(&mut state, full(3)).rects, Some(vec![]));
}

#[test]
fn partial_frame_ends_a_streak() {
    let full = |x| vec![rect(x, 0, 128, 128)];
    let mut state = DirtyTileState::new();
    for x in 0..3 {
        frame(&mut state, full(x));
    }
    assert_eq!(state.high_change_streak, 2);
    frame(&mut state, full(2));
    assert_eq!(state.high_change_streak, 0);
}

#[test]
fn forced_frame_gives_tracking_up() {
    let mut state = DirtyTileState::new();
    frame(&mut state, vec![]);
    let decision = frame(&mut state, vec![Command::RenderStage3D]);
    assert!(decision.rects.is_none());
    assert_eq!(state.tracking_cooldown, TRACKING_COOLDOWN_FRAMES);
    assert!(state.previous.is_empty());
    assert_eq!(TRACKING_COOLDOWN_FRAMES, 10);
}

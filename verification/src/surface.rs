//! A surface that frames are drawn to.

use crate::bounded_cache::{pack, MapKey};
use crate::command::CommandList;
use crate::dirty;
use crate::dirty::{DirtyDecision, DirtyTileState};
use crate::fingerprint;
use crate::gpu::{Extent3d, TextureDescriptor, TextureFormat};
use crate::passes;
use crate::passes::{Chunk, FrameDrawing, LayerRef, MaskState};
use crate::region::PixelRegion;
use std::collections::HashMap;
use vstd::prelude::*;

verus! {

broadcast use vstd::std_specs::hash::group_hash_axioms;

/// How a frame gets onto the screen.
#[derive(Debug)]
pub enum FrameAction<Texture> {
    /// Draw all of it onto a fresh, cleared target, with nothing kept of it.
    Direct,
    /// Nothing has changed: copy the frame that was kept.
    CopyRetained { resolved: Texture },
    /// Draw to the kept textures, in the given regions only or, without any
    /// given, in full and onto a cleared target. Then copy the frame.
    Redraw {
        multisampled: Texture,
        resolved: Texture,
        clear: bool,
        rects: Option<Vec<PixelRegion>>,
    },
}

/// What a decision comes to.
pub open spec fn frame_action<Texture>(decision: DirtyDecision<Texture>) -> FrameAction<Texture> {
    if decision.rects matches Some(rects) && rects@.len() == 0 {
        FrameAction::CopyRetained { resolved: decision.resolved }
    } else {
        FrameAction::Redraw {
            multisampled: decision.multisampled,
            resolved: decision.resolved,
            clear: decision.rects is None,
            rects: decision.rects,
        }
    }
}

/// A surface, with what is kept from frame to frame.
pub struct Surface<Texture, Quality, Pipelines, Binding> {
    viewport: PixelRegion,
    size: Extent3d,
    quality: Quality,
    sample_count: u32,
    pipelines: Pipelines,
    format: TextureFormat,
    dirty_tiles: DirtyTileState<Texture>,
    /// Small cache of region bind groups, keyed by viewport. They are pure
    /// functions of the viewport and are needed once per complex blend per
    /// frame; caching avoids making a buffer and a bind group per blend.
    region_bind_groups: HashMap<u128, Binding>,
}

/// The size of a flat texture that covers a region.
pub open spec fn extent_of(viewport: PixelRegion) -> Extent3d {
    Extent3d {
        width: viewport.spec_width() as u32,
        height: viewport.spec_height() as u32,
        depth_or_array_layers: 1,
    }
}

/// The number that stands for a region.
pub open spec fn region_word(region: PixelRegion) -> u128 {
    region.spec_words().0
}

impl<Texture, Quality: Copy, Pipelines, Binding> Surface<Texture, Quality, Pipelines, Binding> {
    pub closed spec fn spec_viewport(&self) -> PixelRegion {
        self.viewport
    }

    pub closed spec fn spec_size(&self) -> Extent3d {
        self.size
    }

    pub closed spec fn spec_quality(&self) -> Quality {
        self.quality
    }

    pub closed spec fn spec_sample_count(&self) -> u32 {
        self.sample_count
    }

    pub closed spec fn spec_pipelines(&self) -> Pipelines {
        self.pipelines
    }

    pub closed spec fn spec_format(&self) -> TextureFormat {
        self.format
    }

    /// What is kept of the frames before.
    pub closed spec fn dirty_tiles(&self) -> DirtyTileState<Texture> {
        self.dirty_tiles
    }

    /// The kept region bind groups, by the numbers of their viewports.
    pub closed spec fn region_bind_groups(&self) -> Map<u128, Binding> {
        self.region_bind_groups@
    }

    pub open spec fn wf(&self) -> bool {
        &&& self.spec_viewport().wf()
        &&& self.spec_size() == extent_of(self.spec_viewport())
        &&& self.dirty_tiles().wf()
    }

    /// Whether all but what is kept from frame to frame is the same.
    pub open spec fn same_setup(&self, other: &Self) -> bool {
        &&& self.spec_viewport() == other.spec_viewport()
        &&& self.spec_size() == other.spec_size()
        &&& self.spec_quality() == other.spec_quality()
        &&& self.spec_sample_count() == other.spec_sample_count()
        &&& self.spec_pipelines() == other.spec_pipelines()
        &&& self.spec_format() == other.spec_format()
    }

    /// A surface of the given size at the origin.
    pub fn new(
        quality: Quality,
        width: u32,
        height: u32,
        frame_buffer_format: TextureFormat,
        quality_sample_count: impl FnOnce(Quality) -> u32,
        supported_sample_count: impl FnOnce(u32, TextureFormat) -> u32,
        create_pipelines: impl FnOnce(u32, TextureFormat) -> Pipelines,
    ) -> (surface: Self)
        requires
            call_requires(quality_sample_count, (quality,)),
            forall|wanted: u32| #[trigger]
                call_requires(supported_sample_count, (wanted, frame_buffer_format)),
            forall|count: u32| #[trigger]
                call_requires(create_pipelines, (count, frame_buffer_format)),
        ensures
            surface.wf(),
            surface.spec_viewport() == (PixelRegion {
                x_min: 0,
                y_min: 0,
                x_max: width,
                y_max: height,
            }),
            surface.spec_quality() == quality,
            surface.spec_format() == frame_buffer_format,
            exists|wanted: u32|
                {
                    &&& #[trigger] call_ensures(quality_sample_count, (quality,), wanted)
                    &&& call_ensures(
                        supported_sample_count,
                        (wanted, frame_buffer_format),
                        surface.spec_sample_count(),
                    )
                },
            call_ensures(
                create_pipelines,
                (surface.spec_sample_count(), frame_buffer_format),
                surface.spec_pipelines(),
            ),
            surface.is_fresh(),
    {
        Self::for_viewport(
            quality,
            PixelRegion::for_whole_size(width, height),
            frame_buffer_format,
            quality_sample_count,
            supported_sample_count,
            create_pipelines,
        )
    }

    /// Whether nothing is kept yet.
    pub open spec fn is_fresh(&self) -> bool {
        &&& self.dirty_tiles().retained is None
        &&& self.dirty_tiles().tracking() == (dirty::Tracking {
            previous: Seq::empty(),
            high_change_streak: 0,
            tracking_cooldown: 0,
        })
        &&& self.region_bind_groups() == Map::<u128, Binding>::empty()
    }

    /// A surface for the given part of the screen, with as many samples for
    /// each pixel as the quality asks for.
    pub fn for_viewport(
        quality: Quality,
        viewport: PixelRegion,
        frame_buffer_format: TextureFormat,
        quality_sample_count: impl FnOnce(Quality) -> u32,
        supported_sample_count: impl FnOnce(u32, TextureFormat) -> u32,
        create_pipelines: impl FnOnce(u32, TextureFormat) -> Pipelines,
    ) -> (surface: Self)
        requires
            viewport.wf(),
            call_requires(quality_sample_count, (quality,)),
            forall|wanted: u32| #[trigger]
                call_requires(supported_sample_count, (wanted, frame_buffer_format)),
            forall|count: u32| #[trigger]
                call_requires(create_pipelines, (count, frame_buffer_format)),
        ensures
            surface.wf(),
            surface.spec_viewport() == viewport,
            surface.spec_quality() == quality,
            surface.spec_format() == frame_buffer_format,
            exists|wanted: u32|
                {
                    &&& #[trigger] call_ensures(quality_sample_count, (quality,), wanted)
                    &&& call_ensures(
                        supported_sample_count,
                        (wanted, frame_buffer_format),
                        surface.spec_sample_count(),
                    )
                },
            call_ensures(
                create_pipelines,
                (surface.spec_sample_count(), frame_buffer_format),
                surface.spec_pipelines(),
            ),
            surface.is_fresh(),
    {
        let wanted = quality_sample_count(quality);
        Self::for_viewport_with_sample_count(
            quality,
            viewport,
            frame_buffer_format,
            wanted,
            supported_sample_count,
            create_pipelines,
        )
    }

    /// A surface for the given part of the screen, with as many samples for
    /// each pixel as are asked for, as far as the device supports that.
    pub fn for_viewport_with_sample_count(
        quality: Quality,
        viewport: PixelRegion,
        frame_buffer_format: TextureFormat,
        sample_count: u32,
        supported_sample_count: impl FnOnce(u32, TextureFormat) -> u32,
        create_pipelines: impl FnOnce(u32, TextureFormat) -> Pipelines,
    ) -> (surface: Self)
        requires
            viewport.wf(),
            call_requires(supported_sample_count, (sample_count, frame_buffer_format)),
            forall|count: u32| #[trigger]
                call_requires(create_pipelines, (count, frame_buffer_format)),
        ensures
            surface.wf(),
            surface.spec_viewport() == viewport,
            surface.spec_quality() == quality,
            surface.spec_format() == frame_buffer_format,
            call_ensures(
                supported_sample_count,
                (sample_count, frame_buffer_format),
                surface.spec_sample_count(),
            ),
            call_ensures(
                create_pipelines,
                (surface.spec_sample_count(), frame_buffer_format),
                surface.spec_pipelines(),
            ),
            surface.is_fresh(),
    {
        let size = Extent3d {
            width: viewport.width(),
            height: viewport.height(),
            depth_or_array_layers: 1,
        };
        let sample_count: u32 = supported_sample_count(sample_count, frame_buffer_format);
        let pipelines = create_pipelines(sample_count, frame_buffer_format);
        Surface {
            viewport,
            size,
            quality,
            sample_count,
            pipelines,
            format: frame_buffer_format,
            dirty_tiles: DirtyTileState::new(),
            region_bind_groups: HashMap::new(),
        }
    }

    pub fn viewport(&self) -> (viewport: PixelRegion)
        ensures
            viewport == self.spec_viewport(),
    {
        self.viewport
    }

    pub fn quality(&self) -> (quality: Quality)
        ensures
            quality == self.spec_quality(),
    {
        self.quality
    }

    pub fn sample_count(&self) -> (sample_count: u32)
        ensures
            sample_count == self.spec_sample_count(),
    {
        self.sample_count
    }

    pub fn size(&self) -> (size: Extent3d)
        ensures
            size == self.spec_size(),
    {
        self.size
    }

    pub fn format(&self) -> (format: TextureFormat)
        ensures
            format == self.spec_format(),
    {
        self.format
    }

    pub fn pipelines(&self) -> (pipelines: &Pipelines)
        ensures
            *pipelines == self.spec_pipelines(),
    {
        &self.pipelines
    }

    /// Begins to draw chunks, all of them.
    pub fn draw_commands(&self, chunks: &Vec<Chunk>, nearest_layer: LayerRef) -> (frame:
        FrameDrawing)
        requires
            passes::shaders_are_unmasked(chunks@),
        ensures
            frame.wf(),
            frame.steps() == passes::steps_from(chunks@, 0, nearest_layer, false),
            frame.done() == 0,
            !frame.dirty_tiles(),
            frame.num_masks() == 0,
            frame.mask_state() == MaskState::NoMask,
    {
        self.draw_commands_impl(chunks, nearest_layer, None)
    }

    /// Begins to draw chunks, in the given regions only where some are given.
    pub fn draw_commands_impl(
        &self,
        chunks: &Vec<Chunk>,
        nearest_layer: LayerRef,
        dirty_rects: Option<&Vec<PixelRegion>>,
    ) -> (frame: FrameDrawing)
        requires
            passes::shaders_are_unmasked(chunks@),
        ensures
            frame.wf(),
            frame.steps() == passes::steps_from(chunks@, 0, nearest_layer, dirty_rects is Some),
            frame.done() == 0,
            frame.dirty_tiles() == (dirty_rects is Some),
            frame.num_masks() == 0,
            frame.mask_state() == MaskState::NoMask,
    {
        FrameDrawing::new(chunks, nearest_layer, dirty_rects.is_some())
    }

    /// Returns the region bind group for `viewport`, creating it on first use
    /// and caching it for subsequent blends with the same viewport.
    pub fn cached_region_bind_group(
        &mut self,
        viewport: PixelRegion,
        create: impl FnOnce(PixelRegion) -> Binding,
    ) -> (binding: Binding) where Binding: Clone
        requires
            old(self).wf(),
            !old(self).region_bind_groups().contains_key(region_word(viewport)) ==> call_requires(
                create,
                (viewport,),
            ),
        ensures
            final(self).wf(),
            final(self).same_setup(old(self)),
            final(self).dirty_tiles() == old(self).dirty_tiles(),
            if old(self).region_bind_groups().contains_key(region_word(viewport)) {
                &&& final(self).region_bind_groups() == old(self).region_bind_groups()
                &&& cloned(old(self).region_bind_groups()[region_word(viewport)], binding)
            } else {
                &&& call_ensures(create, (viewport,), binding)
                &&& final(self).region_bind_groups().contains_key(region_word(viewport))
                &&& cloned(binding, final(self).region_bind_groups()[region_word(viewport)])
                &&& final(self).region_bind_groups() == old(self).region_bind_groups().insert(
                    region_word(viewport),
                    final(self).region_bind_groups()[region_word(viewport)],
                )
            },
    {
        let word: u128 = viewport.words().0;
        if let Some(cached) = self.region_bind_groups.get(&word) {
            return cached.clone();
        }
        let created = create(viewport);
        self.region_bind_groups.insert(word, created.clone());
        created
    }
}

impl<Texture: Clone, Quality: Copy, Pipelines, Binding> Surface<
    Texture,
    Quality,
    Pipelines,
    Binding,
> {
    /// Decides how a frame gets onto the screen. A surface with one sample for
    /// each pixel is drawn directly; otherwise the frame is drawn over the last
    /// one, as far as it changed.
    pub fn draw_frame_commands_and_copy_to<Create: Fn(TextureDescriptor) -> Texture>(
        &mut self,
        create_texture: Create,
        commands: &CommandList,
        clear: [u64; 4],
    ) -> (action: FrameAction<Texture>)
        requires
            old(self).wf(),
            old(self).spec_sample_count() > 0,
            old(self).spec_sample_count() > 1 ==> {
                &&& dirty::viewport_fits(old(self).spec_viewport())
                &&& fingerprint::list_masks_fit(*commands)
                &&& old(self).dirty_tiles().retained is None ==> {
                    &&& call_requires(
                        create_texture,
                        (dirty::multisampled_descriptor(
                            old(self).spec_viewport(),
                            old(self).spec_format(),
                            old(self).spec_sample_count(),
                        ),),
                    )
                    &&& call_requires(
                        create_texture,
                        (dirty::resolved_descriptor(
                            old(self).spec_viewport(),
                            old(self).spec_format(),
                        ),),
                    )
                }
            },
        ensures
            final(self).wf(),
            final(self).same_setup(old(self)),
            final(self).region_bind_groups() == old(self).region_bind_groups(),
            old(self).spec_sample_count() == 1 ==> {
                &&& action is Direct
                &&& final(self).dirty_tiles() == old(self).dirty_tiles()
            },
            old(self).spec_sample_count() > 1 ==> exists|decision: DirtyDecision<Texture>|
                {
                    &&& #[trigger] dirty::is_prepared(
                        old(self).dirty_tiles(),
                        final(self).dirty_tiles(),
                        create_texture,
                        *commands,
                        old(self).spec_viewport(),
                        old(self).spec_format(),
                        old(self).spec_sample_count(),
                        clear@,
                        decision,
                    )
                    &&& action == frame_action(decision)
                },
    {
        if self.sample_count == 1 {
            return FrameAction::Direct;
        }
        let decision = self.dirty_tiles.prepare(
            create_texture,
            commands,
            self.viewport,
            self.format,
            self.sample_count,
            clear,
        );
        let ghost decided = decision;
        let unchanged = match &decision.rects {
            Some(rects) => rects.len() == 0,
            None => false,
        };
        let action = if unchanged {
            FrameAction::CopyRetained { resolved: decision.resolved }
        } else {
            FrameAction::Redraw {
                multisampled: decision.multisampled,
                resolved: decision.resolved,
                clear: decision.rects.is_none(),
                rects: decision.rects,
            }
        };
        assert(action == frame_action(decided));
        action
    }
}

impl<Texture, Quality: Copy, Pipelines, Binding> Surface<Texture, Quality, Pipelines, Binding> {
    /// What frames leave alone: the viewport, the size, the quality, the number of samples, the
    /// pipelines and the format of a surface.
    pub proof fn setup_is_everything_but_what_is_kept(&self, other: &Self)
        ensures
            self.same_setup(other) <==> {
                &&& self.spec_viewport() == other.spec_viewport()
                &&& self.spec_size() == other.spec_size()
                &&& self.spec_quality() == other.spec_quality()
                &&& self.spec_sample_count() == other.spec_sample_count()
                &&& self.spec_pipelines() == other.spec_pipelines()
                &&& self.spec_format() == other.spec_format()
            },
    {
    }

    /// A fresh surface has no textures, remembers no tiles, is in no streak, does not wait and
    /// keeps no bind groups.
    pub proof fn fresh_surface_keeps_nothing(&self)
        ensures
            self.is_fresh() ==> {
                &&& self.dirty_tiles().retained is None
                &&& self.dirty_tiles().previous@.len() == 0
                &&& self.dirty_tiles().high_change_streak == 0
                &&& self.dirty_tiles().tracking_cooldown == 0
                &&& forall|word: u128| !(#[trigger] self.region_bind_groups().contains_key(word))
            },
    {
    }
}

/// Every viewport has a number of its own.
pub proof fn regions_have_own_words(a: PixelRegion, b: PixelRegion)
    ensures
        region_word(a) == region_word(b) <==> a == b,
{
    PixelRegion::words_identify(a, b);
}

/// Blends with different viewports never share a region bind group: if each
/// kept one was `made` for its viewport, then so it is once one more is kept.
pub proof fn bindings_match_their_viewports<Binding>(
    before: Map<u128, Binding>,
    viewport: PixelRegion,
    binding: Binding,
    made: spec_fn(PixelRegion, Binding) -> bool,
)
    requires
        forall|region: PixelRegion|
            before.contains_key(#[trigger] region_word(region)) ==> made(
                region,
                before[region_word(region)],
            ),
        made(viewport, binding),
    ensures
        forall|region: PixelRegion|
            before.insert(region_word(viewport), binding).contains_key(
                #[trigger] region_word(region),
            ) ==> made(
                region,
                before.insert(region_word(viewport), binding)[region_word(region)],
            ),
{
    assert forall|region: PixelRegion|
        before.insert(region_word(viewport), binding).contains_key(
            #[trigger] region_word(region),
        ) implies made(
        region,
        before.insert(region_word(viewport), binding)[region_word(region)],
    ) by {
        regions_have_own_words(region, viewport);
    }
}

/// A frame that is drawn like the one before is not drawn again: while frames
/// are compared, and where no command forces a full frame, the second of two
/// equal frames is a copy of what was kept.
pub proof fn repeated_frame_is_copied<Texture: Clone, Create: Fn(TextureDescriptor) -> Texture>(
    first: DirtyTileState<Texture>,
    second: DirtyTileState<Texture>,
    third: DirtyTileState<Texture>,
    create_texture: Create,
    commands: CommandList,
    viewport: PixelRegion,
    format: TextureFormat,
    sample_count: u32,
    clear: Seq<u64>,
    earlier: DirtyDecision<Texture>,
    later: DirtyDecision<Texture>,
)
    requires
        viewport.wf(),
        !fingerprint::list_forces_full(commands),
        first.tracking_cooldown == 0,
        second.tracking_cooldown == 0,
        dirty::is_prepared(
            first,
            second,
            create_texture,
            commands,
            viewport,
            format,
            sample_count,
            clear,
            earlier,
        ),
        dirty::is_prepared(
            second,
            third,
            create_texture,
            commands,
            viewport,
            format,
            sample_count,
            clear,
            later,
        ),
    ensures
        frame_action(later) == (FrameAction::CopyRetained { resolved: later.resolved }),
        second.retained is Some,
        third.retained == second.retained,
        cloned(second.retained.unwrap().resolved, later.resolved),
{
    let tiles_x = fingerprint::tiles_along(viewport.spec_width());
    let tiles_y = fingerprint::tiles_along(viewport.spec_height());
    let hashes = fingerprint::frame_hashes(viewport, clear, commands);
    assert(tiles_x * tiles_y >= 0) by (nonlinear_arith)
        requires
            tiles_x >= 0,
            tiles_y >= 0,
    ;
    dirty::unchanged_frame_redraws_nothing(
        second.tracking(),
        hashes,
        tiles_x,
        tiles_y,
        viewport,
        later.rects,
    );
}

/// A frame that is drawn in full begins with a cleared target, and one that is
/// drawn in part does not: what lies outside its regions stays.
pub proof fn only_full_frames_are_cleared<Texture>(decision: DirtyDecision<Texture>)
    ensures
        frame_action(decision) matches FrameAction::Redraw { clear, rects, .. } ==> {
            &&& clear == (rects is None)
            &&& rects == decision.rects
            &&& rects matches Some(rects) ==> rects@.len() > 0
        },
{
}

/// What a decision comes to: without regions all is drawn onto a cleared target, with some only
/// those are drawn and nothing is cleared, and with an empty list the kept frame is copied. The
/// textures are those that were decided on.
pub proof fn action_follows_the_regions<Texture>(decision: DirtyDecision<Texture>)
    ensures
        decision.rects is None ==> frame_action(decision) == (FrameAction::Redraw {
            multisampled: decision.multisampled,
            resolved: decision.resolved,
            clear: true,
            rects: None,
        }),
        decision.rects is Some && decision.rects->0@.len() == 0 ==> frame_action(decision) == (
        FrameAction::CopyRetained { resolved: decision.resolved }),
        decision.rects is Some && decision.rects->0@.len() > 0 ==> frame_action(decision) == (
        FrameAction::Redraw {
            multisampled: decision.multisampled,
            resolved: decision.resolved,
            clear: false,
            rects: decision.rects,
        }),
{
}

/// A surface has the width and the height of its viewport, and a single layer.
pub proof fn surface_fills_its_viewport(viewport: PixelRegion)
    requires
        viewport.wf(),
    ensures
        extent_of(viewport).width == viewport.x_max - viewport.x_min,
        extent_of(viewport).height == viewport.y_max - viewport.y_min,
        extent_of(viewport).depth_or_array_layers == 1,
{
}

} // verus!

//! The steps in which the chunks of a frame are drawn.
//!
//! A frame is cut into chunks: runs of plain draws, and layers that are blended
//! onto what was drawn before. Blends that read the pixels below them are
//! collected into batches, so that a whole batch needs one render pass.

use crate::command::ComplexBlend;
use crate::region::PixelRegion;
use vstd::prelude::*;

verus! {

/// What is being done to the mask of the content that is drawn.
#[derive(Clone, Copy, Debug, PartialEq, Eq, Structural)]
pub enum MaskState {
    NoMask,
    DrawMaskStencil,
    DrawMaskedContent,
    ClearMaskStencil,
}

/// The nearest layer that `Alpha` and `Erase` blends act on.
#[derive(Clone, Copy, Debug, PartialEq, Eq, Structural)]
pub enum LayerRef {
    Absent,
    Current,
    Parent,
}

impl LayerRef {
    /// The nearest layer, seen from a layer that is blended onto the target.
    pub fn for_children(self) -> (layer: LayerRef)
        ensures
            layer == (if self == LayerRef::Current {
                LayerRef::Parent
            } else {
                self
            }),
    {
        match self {
            LayerRef::Current => LayerRef::Parent,
            layer => layer,
        }
    }
}

/// One chunk of a frame.
#[derive(Clone, Copy, Debug, PartialEq, Eq, Structural)]
pub enum Chunk {
    /// Plain draws.
    Draw { needs_stencil: bool },
    /// A layer that a shader blends onto `viewport`.
    Shader { needs_stencil: bool, viewport: PixelRegion },
    /// A layer that is blended onto `viewport` with the pixels below it.
    Complex { blend_mode: ComplexBlend, needs_stencil: bool, viewport: PixelRegion },
}

/// The surface whose pixels a blend reads.
#[derive(Clone, Copy, Debug, PartialEq, Eq, Structural)]
pub enum BlendSource {
    /// The surface that is drawn to.
    Target,
    /// The nearest layer.
    Layer,
}

/// One step of drawing a frame. `chunk` is the place of a chunk in the frame.
#[derive(Clone, Copy, Debug, PartialEq, Eq, Structural)]
pub enum Step {
    /// Draw the chunk in a pass of its own.
    Draw { chunk: usize, with_stencil: bool },
    /// Run the shader of the chunk over `viewport`.
    Shade { chunk: usize, viewport: PixelRegion },
    /// Copy what lies below the chunk, before the pass that blends it begins.
    Prepare { chunk: usize, source: BlendSource, viewport: PixelRegion },
    /// Begin the pass in which a batch is blended.
    BeginBlends { with_stencil: bool },
    /// Blend the chunk onto what lies below it.
    Composite { chunk: usize, blend_mode: ComplexBlend, needs_stencil: bool },
}

/// Whether two regions overlap by more than an edge.
pub open spec fn overlap(a: PixelRegion, b: PixelRegion) -> bool {
    &&& a.x_min < b.x_max
    &&& b.x_min < a.x_max
    &&& a.y_min < b.y_max
    &&& b.y_min < a.y_max
}

/// Whether two regions overlap by more than an edge.
pub fn regions_strictly_intersect(a: PixelRegion, b: PixelRegion) -> (overlaps: bool)
    ensures
        overlaps == overlap(a, b),
{
    a.x_min < b.x_max && b.x_min < a.x_max && a.y_min < b.y_max && b.y_min < a.y_max
}

/// Whether the chunks `start..end` can be blended in one pass: all of them read
/// the pixels below, all need a stencil or none does, and no two of them
/// overlap.
pub open spec fn is_batch(chunks: Seq<Chunk>, start: int, end: int) -> bool {
    &&& 0 <= start < end <= chunks.len()
    &&& forall|i: int|
        start <= i < end ==> (#[trigger] chunks[i]) is Complex && chunks[i]->Complex_needs_stencil
            == chunks[start]->Complex_needs_stencil
    &&& forall|i: int, j: int|
        start <= i < j < end ==> !overlap(
            (#[trigger] chunks[i])->Complex_viewport,
            (#[trigger] chunks[j])->Complex_viewport,
        )
}

/// Where the batch that begins at `start` and reaches at least up to `end`
/// ends: it takes in as many chunks as it can.
pub open spec fn batch_end(chunks: Seq<Chunk>, start: int, end: int) -> int
    decreases chunks.len() - end,
{
    if is_batch(chunks, start, end + 1) {
        batch_end(chunks, start, end + 1)
    } else {
        end
    }
}

/// The surface that a blend reads. `Alpha` and `Erase` act on the nearest
/// layer; without one they do nothing.
pub open spec fn source_of(blend_mode: ComplexBlend, nearest_layer: LayerRef) -> Option<BlendSource> {
    if blend_mode == ComplexBlend::Alpha || blend_mode == ComplexBlend::Erase {
        match nearest_layer {
            LayerRef::Absent => None,
            LayerRef::Current => Some(BlendSource::Target),
            LayerRef::Parent => Some(BlendSource::Layer),
        }
    } else {
        Some(BlendSource::Target)
    }
}

/// The copies that the chunks `start..end` of a batch need.
pub open spec fn preparations(
    chunks: Seq<Chunk>,
    start: int,
    end: int,
    nearest_layer: LayerRef,
) -> Seq<Step>
    decreases end - start,
{
    if start >= end {
        Seq::empty()
    } else {
        let rest = preparations(chunks, start, end - 1, nearest_layer);
        let chunk = chunks[end - 1];
        match source_of(chunk->Complex_blend_mode, nearest_layer) {
            Some(source) => rest.push(
                Step::Prepare {
                    chunk: (end - 1) as usize,
                    source,
                    viewport: chunk->Complex_viewport,
                },
            ),
            None => rest,
        }
    }
}

/// The blends of the chunks `start..end` of a batch.
pub open spec fn compositions(
    chunks: Seq<Chunk>,
    start: int,
    end: int,
    nearest_layer: LayerRef,
) -> Seq<Step>
    decreases end - start,
{
    if start >= end {
        Seq::empty()
    } else {
        let rest = compositions(chunks, start, end - 1, nearest_layer);
        let chunk = chunks[end - 1];
        match source_of(chunk->Complex_blend_mode, nearest_layer) {
            Some(source) => rest.push(
                Step::Composite {
                    chunk: (end - 1) as usize,
                    blend_mode: chunk->Complex_blend_mode,
                    needs_stencil: chunk->Complex_needs_stencil,
                },
            ),
            None => rest,
        }
    }
}

/// The steps for a batch. A blend that has nothing to act on is left out; where
/// that leaves none, there is no pass.
pub open spec fn batch_steps(
    chunks: Seq<Chunk>,
    start: int,
    end: int,
    nearest_layer: LayerRef,
    dirty_tiles: bool,
) -> Seq<Step> {
    if compositions(chunks, start, end, nearest_layer).len() == 0 {
        Seq::empty()
    } else {
        preparations(chunks, start, end, nearest_layer) + seq![
            Step::BeginBlends {
                with_stencil: chunks[start]->Complex_needs_stencil || dirty_tiles,
            },
        ] + compositions(chunks, start, end, nearest_layer)
    }
}

/// The steps for the chunk at `start` or, where that begins a batch, for the
/// batch.
pub open spec fn steps_at(
    chunks: Seq<Chunk>,
    start: int,
    nearest_layer: LayerRef,
    dirty_tiles: bool,
) -> Seq<Step> {
    match chunks[start] {
        Chunk::Draw { needs_stencil } => seq![
            Step::Draw { chunk: start as usize, with_stencil: needs_stencil || dirty_tiles },
        ],
        Chunk::Shader { viewport, .. } => seq![Step::Shade { chunk: start as usize, viewport }],
        Chunk::Complex { .. } => batch_steps(
            chunks,
            start,
            batch_end(chunks, start, start + 1),
            nearest_layer,
            dirty_tiles,
        ),
    }
}

/// Where the chunks that [`steps_at`] covers end.
pub open spec fn covered_end(chunks: Seq<Chunk>, start: int) -> int {
    if chunks[start] is Complex {
        batch_end(chunks, start, start + 1)
    } else {
        start + 1
    }
}

/// The steps for the chunks from `start` on.
pub open spec fn steps_from(
    chunks: Seq<Chunk>,
    start: int,
    nearest_layer: LayerRef,
    dirty_tiles: bool,
) -> Seq<Step>
    decreases chunks.len() - start,
{
    if start < 0 || start >= chunks.len() {
        Seq::empty()
    } else {
        proof {
            cut_moves_on(chunks, start);
        }
        steps_at(chunks, start, nearest_layer, dirty_tiles) + steps_from(
            chunks,
            covered_end(chunks, start),
            nearest_layer,
            dirty_tiles,
        )
    }
}

/// A batch is as long as it can be: what is collected from a batch on is one,
/// and with one chunk more it would not be.
pub proof fn batch_takes_all_it_can(chunks: Seq<Chunk>, start: int, end: int)
    requires
        is_batch(chunks, start, end),
    ensures
        end <= batch_end(chunks, start, end) <= chunks.len(),
        is_batch(chunks, start, batch_end(chunks, start, end)),
        !is_batch(chunks, start, batch_end(chunks, start, end) + 1),
    decreases chunks.len() - end,
{
    if is_batch(chunks, start, end + 1) {
        batch_takes_all_it_can(chunks, start, end + 1);
    }
}

/// The cut of a frame into single chunks and batches moves on with each of them
/// and stays within the frame.
pub proof fn cut_moves_on(chunks: Seq<Chunk>, start: int)
    requires
        0 <= start < chunks.len(),
    ensures
        start < covered_end(chunks, start) <= chunks.len(),
{
    if chunks[start] is Complex {
        batch_takes_all_it_can(chunks, start, start + 1);
    }
}

/// Finds the end of the batch that begins at `start`.
fn find_batch_end(chunks: &Vec<Chunk>, start: usize) -> (end: usize)
    requires
        start < chunks@.len(),
        chunks@[start as int] is Complex,
    ensures
        end == batch_end(chunks@, start as int, start + 1),
        start < end <= chunks@.len(),
        is_batch(chunks@, start as int, end as int),
{
    let count: usize = chunks.len();
    let batch_needs_stencil = match chunks[start] {
        Chunk::Complex { needs_stencil, .. } => needs_stencil,
        _ => false,
    };
    let mut end: usize = start + 1;
    while end < count
        invariant
            count == chunks@.len(),
            start < end <= count,
            chunks@[start as int] is Complex,
            batch_needs_stencil == chunks@[start as int]->Complex_needs_stencil,
            is_batch(chunks@, start as int, end as int),
            batch_end(chunks@, start as int, start + 1) == batch_end(
                chunks@,
                start as int,
                end as int,
            ),
        ensures
            !is_batch(chunks@, start as int, end + 1),
        decreases count - end,
    {
        let joins = match chunks[end] {
            Chunk::Complex { needs_stencil, viewport, .. } => needs_stencil == batch_needs_stencil
                && !overlaps_any(chunks, start, end, viewport),
            _ => false,
        };
        assert(joins == is_batch(chunks@, start as int, end + 1));
        if !joins {
            break;
        }
        end += 1;
    }
    end
}

/// Whether `viewport` overlaps the viewport of one of the chunks `start..end`.
fn overlaps_any(chunks: &Vec<Chunk>, start: usize, end: usize, viewport: PixelRegion) -> (overlaps:
    bool)
    requires
        is_batch(chunks@, start as int, end as int),
    ensures
        overlaps == exists|i: int|
            start <= i < end && overlap((#[trigger] chunks@[i])->Complex_viewport, viewport),
{
    let mut i: usize = start;
    while i < end
        invariant
            start <= i <= end <= chunks@.len(),
            is_batch(chunks@, start as int, end as int),
            forall|j: int|
                start <= j < i ==> !overlap((#[trigger] chunks@[j])->Complex_viewport, viewport),
        decreases end - i,
    {
        assert(chunks@[i as int] is Complex);
        if let Chunk::Complex { viewport: other, .. } = chunks[i] {
            if regions_strictly_intersect(other, viewport) {
                return true;
            }
        }
        i += 1;
    }
    false
}

/// The surface that a blend reads, if it has one.
fn blend_source(blend_mode: ComplexBlend, nearest_layer: LayerRef) -> (source: Option<BlendSource>)
    ensures
        source == source_of(blend_mode, nearest_layer),
{
    match blend_mode {
        ComplexBlend::Alpha | ComplexBlend::Erase => match nearest_layer {
            LayerRef::Absent => None,
            LayerRef::Current => Some(BlendSource::Target),
            LayerRef::Parent => Some(BlendSource::Layer),
        },
        _ => Some(BlendSource::Target),
    }
}

/// Appends the steps for the batch `start..end`.
fn push_batch(
    steps: &mut Vec<Step>,
    chunks: &Vec<Chunk>,
    start: usize,
    end: usize,
    nearest_layer: LayerRef,
    dirty_tiles: bool,
)
    requires
        is_batch(chunks@, start as int, end as int),
    ensures
        final(steps)@ == old(steps)@ + batch_steps(
            chunks@,
            start as int,
            end as int,
            nearest_layer,
            dirty_tiles,
        ),
{
    let ghost before = steps@;
    let held: usize = steps.len();
    let mut with_stencil = dirty_tiles;
    if let Chunk::Complex { needs_stencil, .. } = chunks[start] {
        with_stencil = needs_stencil || dirty_tiles;
    }
    let mut i: usize = start;
    while i < end
        invariant
            start <= i <= end <= chunks@.len(),
            is_batch(chunks@, start as int, end as int),
            steps@ == before + preparations(chunks@, start as int, i as int, nearest_layer),
        decreases end - i,
    {
        assert(chunks@[i as int] is Complex);
        if let Chunk::Complex { blend_mode, viewport, .. } = chunks[i] {
            if let Some(source) = blend_source(blend_mode, nearest_layer) {
                steps.push(Step::Prepare { chunk: i, source, viewport });
            }
        }
        i += 1;
        assert(steps@ =~= before + preparations(chunks@, start as int, i as int, nearest_layer));
    }
    proof {
        lemma_batch_is_paired(chunks@, start as int, end as int, nearest_layer);
    }
    if steps.len() == held {
        assert(steps@ =~= before);
        return ;
    }
    steps.push(Step::BeginBlends { with_stencil });
    let ghost prepared = steps@;
    let mut i: usize = start;
    while i < end
        invariant
            start <= i <= end <= chunks@.len(),
            is_batch(chunks@, start as int, end as int),
            steps@ == prepared + compositions(chunks@, start as int, i as int, nearest_layer),
        decreases end - i,
    {
        assert(chunks@[i as int] is Complex);
        if let Chunk::Complex { blend_mode, needs_stencil, .. } = chunks[i] {
            if blend_source(blend_mode, nearest_layer).is_some() {
                steps.push(Step::Composite { chunk: i, blend_mode, needs_stencil });
            }
        }
        i += 1;
        assert(steps@ =~= prepared + compositions(chunks@, start as int, i as int, nearest_layer));
    }
    assert(steps@ =~= before + batch_steps(
        chunks@,
        start as int,
        end as int,
        nearest_layer,
        dirty_tiles,
    ));
}

/// Whether the chunks can be drawn: no shader blends inside a mask.
pub open spec fn shaders_are_unmasked(chunks: Seq<Chunk>) -> bool {
    forall|i: int|
        0 <= i < chunks.len() && (#[trigger] chunks[i]) is Shader
            ==> !chunks[i]->Shader_needs_stencil
}

/// The steps in which the chunks are drawn. With `dirty_tiles`, only part of
/// the frame is drawn, and a stencil keeps every pass inside that part.
pub fn frame_steps(chunks: &Vec<Chunk>, nearest_layer: LayerRef, dirty_tiles: bool) -> (steps: Vec<
    Step,
>)
    requires
        shaders_are_unmasked(chunks@),
    ensures
        steps@ == steps_from(chunks@, 0, nearest_layer, dirty_tiles),
{
    let mut steps: Vec<Step> = Vec::new();
    let mut i: usize = 0;
    while i < chunks.len()
        invariant
            i <= chunks@.len(),
            steps@ + steps_from(chunks@, i as int, nearest_layer, dirty_tiles) == steps_from(
                chunks@,
                0,
                nearest_layer,
                dirty_tiles,
            ),
        decreases chunks.len() - i,
    {
        let ghost before = steps@;
        let ghost start = i as int;
        match chunks[i] {
            Chunk::Draw { needs_stencil } => {
                steps.push(Step::Draw { chunk: i, with_stencil: needs_stencil || dirty_tiles });
                i += 1;
            },
            Chunk::Shader { viewport, .. } => {
                steps.push(Step::Shade { chunk: i, viewport });
                i += 1;
            },
            Chunk::Complex { .. } => {
                let end = find_batch_end(chunks, i);
                push_batch(&mut steps, chunks, i, end, nearest_layer, dirty_tiles);
                i = end;
            },
        }
        proof {
            let done = steps_at(chunks@, start, nearest_layer, dirty_tiles);
            let rest = steps_from(chunks@, i as int, nearest_layer, dirty_tiles);
            assert(steps@ =~= before + done);
            assert(i == covered_end(chunks@, start));
            assert(steps_from(chunks@, start, nearest_layer, dirty_tiles) == done + rest);
            assert(before + (done + rest) =~= (before + done) + rest);
        }
    }
    assert(steps@ + steps_from(chunks@, i as int, nearest_layer, dirty_tiles) =~= steps@);
    steps
}

/// The pipeline that a blend is drawn with.
#[derive(Clone, Copy, Debug, PartialEq, Eq, Structural)]
pub enum BlendPipeline {
    /// For a frame of which only part is drawn.
    Dirty { mask_state: MaskState },
    /// For a pass with a stencil.
    Masked { mask_state: MaskState },
    /// For a pass without a stencil.
    Stencilless,
}

/// How a pass is set up for a blend. Without a reference, the stencil reference
/// stays what it was.
#[derive(Clone, Copy, Debug, PartialEq, Eq, Structural)]
pub struct CompositeState {
    pub stencil_reference: Option<u32>,
    pub pipeline: BlendPipeline,
}

/// The bit of a stencil value that marks the part of a frame that is drawn.
pub const DIRTY_STENCIL_BIT: u32 = 0x80;

/// The stencil value of the content that is visible: inside all masks or, while
/// a mask is drawn, inside all masks but that one.
pub open spec fn visible_reference(num_masks: u32, mask_state: MaskState) -> int {
    if mask_state == MaskState::DrawMaskStencil {
        num_masks - 1
    } else {
        num_masks as int
    }
}

/// How a pass is set up for a blend.
pub open spec fn composite_state(
    num_masks: u32,
    mask_state: MaskState,
    dirty_tiles: bool,
    needs_stencil: bool,
) -> CompositeState {
    let reference = visible_reference(num_masks, mask_state) as u32;
    if dirty_tiles {
        CompositeState {
            stencil_reference: Some(DIRTY_STENCIL_BIT | reference),
            pipeline: BlendPipeline::Dirty { mask_state },
        }
    } else if needs_stencil {
        CompositeState {
            stencil_reference: if mask_state == MaskState::NoMask {
                None
            } else {
                Some(reference)
            },
            pipeline: BlendPipeline::Masked { mask_state },
        }
    } else {
        CompositeState { stencil_reference: None, pipeline: BlendPipeline::Stencilless }
    }
}

/// Whether a blend that looks at the stencil finds the mask that is drawn
/// counted.
pub open spec fn can_composite(
    num_masks: u32,
    mask_state: MaskState,
    dirty_tiles: bool,
    needs_stencil: bool,
) -> bool {
    (dirty_tiles || needs_stencil) && mask_state == MaskState::DrawMaskStencil ==> num_masks > 0
}

/// Decides the pipeline and stencil state for one complex blend.
pub fn composite_blend(
    num_masks: u32,
    mask_state: MaskState,
    dirty_tiles: bool,
    needs_stencil: bool,
) -> (state: CompositeState)
    requires
        can_composite(num_masks, mask_state, dirty_tiles, needs_stencil),
    ensures
        state == composite_state(num_masks, mask_state, dirty_tiles, needs_stencil),
{
    if dirty_tiles {
        let reference: u32 = match mask_state {
            MaskState::NoMask => num_masks,
            MaskState::DrawMaskStencil => num_masks - 1,
            MaskState::DrawMaskedContent | MaskState::ClearMaskStencil => num_masks,
        };
        CompositeState {
            stencil_reference: Some(DIRTY_STENCIL_BIT | reference),
            pipeline: BlendPipeline::Dirty { mask_state },
        }
    } else if needs_stencil {
        let stencil_reference: Option<u32> = match mask_state {
            MaskState::NoMask => None,
            MaskState::DrawMaskStencil => Some(num_masks - 1),
            MaskState::DrawMaskedContent => Some(num_masks),
            MaskState::ClearMaskStencil => Some(num_masks),
        };
        CompositeState { stencil_reference, pipeline: BlendPipeline::Masked { mask_state } }
    } else {
        CompositeState { stencil_reference: None, pipeline: BlendPipeline::Stencilless }
    }
}

/// What is to be done next to draw a frame.
#[derive(Clone, Copy, Debug, PartialEq, Eq, Structural)]
pub enum PassAction {
    /// Draw the chunk in a pass of its own, beginning with the given masks, and
    /// report the masks that it leaves.
    Draw {
        chunk: usize,
        with_stencil: bool,
        dirty_tiles: bool,
        num_masks: u32,
        mask_state: MaskState,
    },
    /// Run the shader of the chunk over `viewport`.
    Shade { chunk: usize, viewport: PixelRegion },
    /// Copy what lies below the chunk.
    Prepare { chunk: usize, source: BlendSource, viewport: PixelRegion },
    /// Begin the pass in which a batch is blended.
    BeginBlends { with_stencil: bool },
    /// Blend the chunk onto what lies below it.
    Composite { chunk: usize, blend_mode: ComplexBlend, state: CompositeState },
    /// Nothing is left but to clear the target where nothing was drawn to it.
    Finish,
}

/// What a step comes to with the masks that the draws before it left.
pub open spec fn action_for(
    step: Step,
    dirty_tiles: bool,
    num_masks: u32,
    mask_state: MaskState,
) -> PassAction {
    match step {
        Step::Draw { chunk, with_stencil } => PassAction::Draw {
            chunk,
            with_stencil,
            dirty_tiles,
            num_masks,
            mask_state,
        },
        Step::Shade { chunk, viewport } => PassAction::Shade { chunk, viewport },
        Step::Prepare { chunk, source, viewport } => PassAction::Prepare { chunk, source, viewport },
        Step::BeginBlends { with_stencil } => PassAction::BeginBlends { with_stencil },
        Step::Composite { chunk, blend_mode, needs_stencil } => PassAction::Composite {
            chunk,
            blend_mode,
            state: composite_state(num_masks, mask_state, dirty_tiles, needs_stencil),
        },
    }
}

/// A frame on its way to the screen: the steps, how many of them are done, and
/// the masks that the draws so far have left.
pub struct FrameDrawing {
    steps: Vec<Step>,
    next: usize,
    dirty_tiles: bool,
    num_masks: u32,
    mask_state: MaskState,
}

impl FrameDrawing {
    pub closed spec fn steps(&self) -> Seq<Step> {
        self.steps@
    }

    /// How many steps are done.
    pub closed spec fn done(&self) -> int {
        self.next as int
    }

    pub closed spec fn dirty_tiles(&self) -> bool {
        self.dirty_tiles
    }

    pub closed spec fn num_masks(&self) -> u32 {
        self.num_masks
    }

    pub closed spec fn mask_state(&self) -> MaskState {
        self.mask_state
    }

    pub open spec fn wf(&self) -> bool {
        0 <= self.done() <= self.steps().len()
    }

    /// Whether the next step can be done with the masks as they are.
    pub open spec fn spec_can_advance(&self) -> bool {
        if self.done() < self.steps().len() && self.steps()[self.done()] is Composite {
            can_composite(
                self.num_masks(),
                self.mask_state(),
                self.dirty_tiles(),
                self.steps()[self.done()]->Composite_needs_stencil,
            )
        } else {
            true
        }
    }

    /// Begins a frame without any mask. With `dirty_tiles`, only part of it is
    /// drawn.
    pub fn new(chunks: &Vec<Chunk>, nearest_layer: LayerRef, dirty_tiles: bool) -> (frame: Self)
        requires
            shaders_are_unmasked(chunks@),
        ensures
            frame.wf(),
            frame.steps() == steps_from(chunks@, 0, nearest_layer, dirty_tiles),
            frame.done() == 0,
            frame.dirty_tiles() == dirty_tiles,
            frame.num_masks() == 0,
            frame.mask_state() == MaskState::NoMask,
    {
        FrameDrawing {
            steps: frame_steps(chunks, nearest_layer, dirty_tiles),
            next: 0,
            dirty_tiles,
            num_masks: 0,
            mask_state: MaskState::NoMask,
        }
    }

    /// Whether the next step can be done: a blend that looks at the stencil
    /// while a mask is drawn needs that mask to be counted.
    pub fn can_advance(&self) -> (can: bool)
        requires
            self.wf(),
        ensures
            can == self.spec_can_advance(),
    {
        if self.next < self.steps.len() {
            if let Step::Composite { needs_stencil, .. } = self.steps[self.next] {
                return !(self.dirty_tiles || needs_stencil) || self.mask_state
                    != MaskState::DrawMaskStencil || self.num_masks > 0;
            }
        }
        true
    }

    /// Goes on to the next step, and says what it is.
    pub fn advance(&mut self) -> (action: PassAction)
        requires
            old(self).wf(),
            old(self).spec_can_advance(),
        ensures
            final(self).wf(),
            final(self).steps() == old(self).steps(),
            final(self).dirty_tiles() == old(self).dirty_tiles(),
            final(self).num_masks() == old(self).num_masks(),
            final(self).mask_state() == old(self).mask_state(),
            if old(self).done() < old(self).steps().len() {
                &&& final(self).done() == old(self).done() + 1
                &&& action == action_for(
                    old(self).steps()[old(self).done()],
                    old(self).dirty_tiles(),
                    old(self).num_masks(),
                    old(self).mask_state(),
                )
            } else {
                &&& final(self).done() == old(self).done()
                &&& action == PassAction::Finish
            },
    {
        if self.next >= self.steps.len() {
            return PassAction::Finish;
        }
        let step = self.steps[self.next];
        self.next += 1;
        match step {
            Step::Draw { chunk, with_stencil } => PassAction::Draw {
                chunk,
                with_stencil,
                dirty_tiles: self.dirty_tiles,
                num_masks: self.num_masks,
                mask_state: self.mask_state,
            },
            Step::Shade { chunk, viewport } => PassAction::Shade { chunk, viewport },
            Step::Prepare { chunk, source, viewport } => PassAction::Prepare {
                chunk,
                source,
                viewport,
            },
            Step::BeginBlends { with_stencil } => PassAction::BeginBlends { with_stencil },
            Step::Composite { chunk, blend_mode, needs_stencil } => PassAction::Composite {
                chunk,
                blend_mode,
                state: composite_blend(
                    self.num_masks,
                    self.mask_state,
                    self.dirty_tiles,
                    needs_stencil,
                ),
            },
        }
    }

    /// Reports the masks that the draws of a chunk have left.
    pub fn drawn(&mut self, num_masks: u32, mask_state: MaskState)
        requires
            old(self).wf(),
        ensures
            final(self).wf(),
            final(self).steps() == old(self).steps(),
            final(self).done() == old(self).done(),
            final(self).dirty_tiles() == old(self).dirty_tiles(),
            final(self).num_masks() == num_masks,
            final(self).mask_state() == mask_state,
    {
        self.num_masks = num_masks;
        self.mask_state = mask_state;
    }
}

/// Blends of one batch share no pixel, so that none of them covers what another
/// one has read.
pub proof fn batched_blends_share_no_pixel(
    chunks: Seq<Chunk>,
    start: int,
    end: int,
    i: int,
    j: int,
    x: int,
    y: int,
)
    requires
        is_batch(chunks, start, end),
        start <= i < j < end,
    ensures
        !(chunks[i]->Complex_viewport.contains(x, y) && chunks[j]->Complex_viewport.contains(x, y)),
{
    assert(!overlap(chunks[i]->Complex_viewport, chunks[j]->Complex_viewport));
}

/// The chunks that steps put on the screen, in their order.
pub open spec fn performed(steps: Seq<Step>) -> Seq<int>
    decreases steps.len(),
{
    if steps.len() == 0 {
        Seq::empty()
    } else {
        let rest = performed(steps.drop_last());
        match steps.last() {
            Step::Draw { chunk, .. } => rest.push(chunk as int),
            Step::Shade { chunk, .. } => rest.push(chunk as int),
            Step::Composite { chunk, .. } => rest.push(chunk as int),
            Step::Prepare { .. } => rest,
            Step::BeginBlends { .. } => rest,
        }
    }
}

/// Whether the numbers grow, from `low` on and below `high`.
pub open spec fn grows_within(numbers: Seq<int>, low: int, high: int) -> bool {
    &&& forall|i: int| 0 <= i < numbers.len() ==> low <= #[trigger] numbers[i] < high
    &&& forall|i: int, j: int|
        0 <= i < j < numbers.len() ==> #[trigger] numbers[i] < #[trigger] numbers[j]
}

proof fn lemma_performed_append(a: Seq<Step>, b: Seq<Step>)
    ensures
        performed(a + b) == performed(a) + performed(b),
    decreases b.len(),
{
    if b.len() == 0 {
        assert(a + b =~= a);
        assert(performed(a) + performed(b) =~= performed(a));
    } else {
        lemma_performed_append(a, b.drop_last());
        assert((a + b).drop_last() =~= a + b.drop_last());
        assert((a + b).last() == b.last());
        assert(performed(a + b) =~= performed(a) + performed(b));
    }
}

proof fn lemma_performed_single(step: Step)
    ensures
        performed(seq![step]) == match step {
            Step::Draw { chunk, .. } => seq![chunk as int],
            Step::Shade { chunk, .. } => seq![chunk as int],
            Step::Composite { chunk, .. } => seq![chunk as int],
            _ => Seq::empty(),
        },
{
    assert(seq![step].drop_last() =~= Seq::<Step>::empty());
    assert(performed(seq![step].drop_last()) =~= Seq::<int>::empty());
    assert(Seq::<int>::empty().push(0) =~= seq![0int]);
}

proof fn lemma_preparations_performed(
    chunks: Seq<Chunk>,
    start: int,
    end: int,
    nearest_layer: LayerRef,
)
    ensures
        performed(preparations(chunks, start, end, nearest_layer)) == Seq::<int>::empty(),
    decreases end - start,
{
    if start < end {
        lemma_preparations_performed(chunks, start, end - 1, nearest_layer);
        let rest = preparations(chunks, start, end - 1, nearest_layer);
        let all = preparations(chunks, start, end, nearest_layer);
        if all != rest {
            assert(all.drop_last() =~= rest);
        }
    }
}

/// Whether a chunk is drawn: all are but blends that have nothing to act on.
pub open spec fn is_drawn(chunk: Chunk, nearest_layer: LayerRef) -> bool {
    chunk is Complex ==> source_of(chunk->Complex_blend_mode, nearest_layer) is Some
}

/// Whether the numbers are those of the chunks `low..high` that are drawn, each
/// once and in order.
pub open spec fn lists_drawn(
    numbers: Seq<int>,
    chunks: Seq<Chunk>,
    low: int,
    high: int,
    nearest_layer: LayerRef,
) -> bool {
    &&& grows_within(numbers, low, high)
    &&& forall|i: int|
        low <= i < high ==> (numbers.contains(i) <==> is_drawn(#[trigger] chunks[i], nearest_layer))
}

proof fn lemma_lists_append(
    a: Seq<int>,
    b: Seq<int>,
    chunks: Seq<Chunk>,
    low: int,
    middle: int,
    high: int,
    nearest_layer: LayerRef,
)
    requires
        low <= middle <= high,
        lists_drawn(a, chunks, low, middle, nearest_layer),
        lists_drawn(b, chunks, middle, high, nearest_layer),
    ensures
        lists_drawn(a + b, chunks, low, high, nearest_layer),
{
    let all = a + b;
    assert forall|i: int| low <= i < high implies (all.contains(i) <==> is_drawn(
        #[trigger] chunks[i],
        nearest_layer,
    )) by {
        if a.contains(i) {
            assert(all[a.index_of(i)] == i);
        }
        if b.contains(i) {
            assert(all[a.len() + b.index_of(i)] == i);
        }
        if all.contains(i) {
            let place = all.index_of(i);
            if place < a.len() {
                assert(a[place] == i);
            } else {
                assert(b[place - a.len()] == i);
            }
        }
    }
}

proof fn lemma_compositions_performed(
    chunks: Seq<Chunk>,
    start: int,
    end: int,
    nearest_layer: LayerRef,
)
    requires
        0 <= start <= end <= chunks.len() <= usize::MAX,
        forall|i: int| start <= i < end ==> (#[trigger] chunks[i]) is Complex,
    ensures
        lists_drawn(
            performed(compositions(chunks, start, end, nearest_layer)),
            chunks,
            start,
            end,
            nearest_layer,
        ),
    decreases end - start,
{
    if start < end {
        let all = compositions(chunks, start, end, nearest_layer);
        let rest = compositions(chunks, start, end - 1, nearest_layer);
        let last = end - 1;
        lemma_compositions_performed(chunks, start, last, nearest_layer);
        assert(chunks[last] is Complex);
        if is_drawn(chunks[last], nearest_layer) {
            assert(all.drop_last() =~= rest);
            assert(performed(all) =~= performed(rest) + seq![last]);
            assert(seq![last][0] == last);
            lemma_lists_append(
                performed(rest),
                seq![last],
                chunks,
                start,
                last,
                end,
                nearest_layer,
            );
        } else {
            assert(!performed(all).contains(last));
        }
    }
}

proof fn lemma_performed_at(
    chunks: Seq<Chunk>,
    start: int,
    nearest_layer: LayerRef,
    dirty_tiles: bool,
)
    requires
        0 <= start < chunks.len() <= usize::MAX,
    ensures
        lists_drawn(
            performed(steps_at(chunks, start, nearest_layer, dirty_tiles)),
            chunks,
            start,
            covered_end(chunks, start),
            nearest_layer,
        ),
{
    cut_moves_on(chunks, start);
    let steps = steps_at(chunks, start, nearest_layer, dirty_tiles);
    let end = covered_end(chunks, start);
    if chunks[start] is Complex {
        batch_takes_all_it_can(chunks, start, start + 1);
        lemma_preparations_performed(chunks, start, end, nearest_layer);
        lemma_compositions_performed(chunks, start, end, nearest_layer);
        let prepared = preparations(chunks, start, end, nearest_layer);
        let begin = Step::BeginBlends {
            with_stencil: chunks[start]->Complex_needs_stencil || dirty_tiles,
        };
        let composed = compositions(chunks, start, end, nearest_layer);
        lemma_performed_single(begin);
        lemma_performed_append(prepared, seq![begin]);
        lemma_performed_append(prepared + seq![begin], composed);
        assert(performed(prepared + seq![begin] + composed) =~= performed(composed));
    } else {
        lemma_performed_single(steps[0]);
        assert(steps =~= seq![steps[0]]);
        assert(performed(steps) =~= seq![start]);
        assert(seq![start][0] == start);
    }
}

/// Nothing is drawn twice, nothing is left out and the order of the chunks is
/// kept: the steps put exactly the chunks other than blends with nothing to act
/// on onto the screen, in growing order.
pub proof fn chunks_are_drawn_in_order(
    chunks: Seq<Chunk>,
    start: int,
    nearest_layer: LayerRef,
    dirty_tiles: bool,
)
    requires
        0 <= start <= chunks.len() <= usize::MAX,
    ensures
        lists_drawn(
            performed(steps_from(chunks, start, nearest_layer, dirty_tiles)),
            chunks,
            start,
            chunks.len() as int,
            nearest_layer,
        ),
    decreases chunks.len() - start,
{
    if start < chunks.len() {
        cut_moves_on(chunks, start);
        let end = covered_end(chunks, start);
        chunks_are_drawn_in_order(chunks, end, nearest_layer, dirty_tiles);
        lemma_performed_at(chunks, start, nearest_layer, dirty_tiles);
        let first = steps_at(chunks, start, nearest_layer, dirty_tiles);
        let rest = steps_from(chunks, end, nearest_layer, dirty_tiles);
        lemma_performed_append(first, rest);
        lemma_lists_append(
            performed(first),
            performed(rest),
            chunks,
            start,
            end,
            chunks.len() as int,
            nearest_layer,
        );
    }
}

/// Whether a step keeps a partial frame inside its part, and blends nothing
/// that has nothing to act on.
pub open spec fn step_is_sound(step: Step, nearest_layer: LayerRef, dirty_tiles: bool) -> bool {
    match step {
        Step::Draw { with_stencil, .. } => dirty_tiles ==> with_stencil,
        Step::BeginBlends { with_stencil } => dirty_tiles ==> with_stencil,
        Step::Composite { blend_mode, .. } => source_of(blend_mode, nearest_layer) is Some,
        _ => true,
    }
}

/// Whether all steps are sound.
pub open spec fn all_sound(steps: Seq<Step>, nearest_layer: LayerRef, dirty_tiles: bool) -> bool {
    forall|k: int|
        0 <= k < steps.len() ==> step_is_sound(#[trigger] steps[k], nearest_layer, dirty_tiles)
}

proof fn lemma_batch_is_sound(
    chunks: Seq<Chunk>,
    start: int,
    end: int,
    nearest_layer: LayerRef,
    dirty_tiles: bool,
)
    ensures
        all_sound(preparations(chunks, start, end, nearest_layer), nearest_layer, dirty_tiles),
        all_sound(compositions(chunks, start, end, nearest_layer), nearest_layer, dirty_tiles),
    decreases end - start,
{
    if start < end {
        lemma_batch_is_sound(chunks, start, end - 1, nearest_layer, dirty_tiles);
    }
}

/// With only part of the frame to draw, every pass has the stencil that keeps
/// it inside that part; and a blend that has nothing to act on is never drawn.
pub proof fn steps_are_sound(
    chunks: Seq<Chunk>,
    start: int,
    nearest_layer: LayerRef,
    dirty_tiles: bool,
)
    requires
        0 <= start <= chunks.len(),
    ensures
        all_sound(
            steps_from(chunks, start, nearest_layer, dirty_tiles),
            nearest_layer,
            dirty_tiles,
        ),
    decreases chunks.len() - start,
{
    if start < chunks.len() {
        cut_moves_on(chunks, start);
        let end = covered_end(chunks, start);
        steps_are_sound(chunks, end, nearest_layer, dirty_tiles);
        if chunks[start] is Complex {
            lemma_batch_is_sound(chunks, start, end, nearest_layer, dirty_tiles);
        }
    }
}

/// Whether every blended chunk was prepared before.
pub open spec fn prepared_first(steps: Seq<Step>) -> bool {
    forall|k: int|
        0 <= k < steps.len() && (#[trigger] steps[k]) is Composite ==> exists|j: int|
            0 <= j < k && (#[trigger] steps[j]) is Prepare && steps[j]->Prepare_chunk
                == steps[k]->Composite_chunk
}

proof fn lemma_prepared_append(a: Seq<Step>, b: Seq<Step>)
    requires
        prepared_first(a),
        prepared_first(b),
    ensures
        prepared_first(a + b),
{
    let steps = a + b;
    assert forall|k: int|
        0 <= k < steps.len() && (#[trigger] steps[k]) is Composite implies exists|j: int|
        0 <= j < k && (#[trigger] steps[j]) is Prepare && steps[j]->Prepare_chunk
            == steps[k]->Composite_chunk by {
        if k < a.len() {
            let j = choose|j: int|
                0 <= j < k && (#[trigger] a[j]) is Prepare && a[j]->Prepare_chunk
                    == a[k]->Composite_chunk;
            assert(steps[j] == a[j]);
        } else {
            let j = choose|j: int|
                0 <= j < k - a.len() && (#[trigger] b[j]) is Prepare && b[j]->Prepare_chunk == b[k
                    - a.len()]->Composite_chunk;
            assert(steps[a.len() + j] == b[j]);
        }
    }
}

proof fn lemma_batch_is_paired(chunks: Seq<Chunk>, start: int, end: int, nearest_layer: LayerRef)
    ensures
        preparations(chunks, start, end, nearest_layer).len() == compositions(
            chunks,
            start,
            end,
            nearest_layer,
        ).len(),
        forall|k: int|
            #![trigger compositions(chunks, start, end, nearest_layer)[k]]
            0 <= k < compositions(chunks, start, end, nearest_layer).len() ==> {
                let prepared = preparations(chunks, start, end, nearest_layer)[k];
                let composed = compositions(chunks, start, end, nearest_layer)[k];
                &&& prepared is Prepare
                &&& composed is Composite
                &&& prepared->Prepare_chunk == composed->Composite_chunk
            },
        forall|k: int|
            #![trigger preparations(chunks, start, end, nearest_layer)[k]]
            0 <= k < preparations(chunks, start, end, nearest_layer).len()
                ==> preparations(chunks, start, end, nearest_layer)[k] is Prepare,
    decreases end - start,
{
    if start < end {
        lemma_batch_is_paired(chunks, start, end - 1, nearest_layer);
    }
}

/// A blend is drawn only after what lies below it was copied.
pub proof fn blends_are_prepared_first(
    chunks: Seq<Chunk>,
    start: int,
    nearest_layer: LayerRef,
    dirty_tiles: bool,
)
    requires
        0 <= start <= chunks.len(),
    ensures
        prepared_first(steps_from(chunks, start, nearest_layer, dirty_tiles)),
    decreases chunks.len() - start,
{
    if start < chunks.len() {
        cut_moves_on(chunks, start);
        let end = covered_end(chunks, start);
        let first = steps_at(chunks, start, nearest_layer, dirty_tiles);
        blends_are_prepared_first(chunks, end, nearest_layer, dirty_tiles);
        if chunks[start] is Complex && first.len() > 0 {
            let prepared = preparations(chunks, start, end, nearest_layer);
            let composed = compositions(chunks, start, end, nearest_layer);
            lemma_batch_is_paired(chunks, start, end, nearest_layer);
            assert forall|k: int|
                0 <= k < first.len() && (#[trigger] first[k]) is Composite implies exists|j: int|
                0 <= j < k && (#[trigger] first[j]) is Prepare && first[j]->Prepare_chunk
                    == first[k]->Composite_chunk by {
                if k < prepared.len() {
                    assert(first[k] == prepared[k]);
                } else {
                    let j = k - prepared.len() - 1;
                    assert(first[k] == composed[j]);
                    assert(first[j] == prepared[j]);
                }
            }
        }
        lemma_prepared_append(
            first,
            steps_from(chunks, end, nearest_layer, dirty_tiles),
        );
    }
}

/// While fewer masks are nested than the stencil can count, the reference for a
/// partial frame is the count with the bit for the drawn part on top.
pub proof fn dirty_reference_keeps_mask_count(
    num_masks: u32,
    mask_state: MaskState,
    needs_stencil: bool,
)
    requires
        num_masks < DIRTY_STENCIL_BIT,
        can_composite(num_masks, mask_state, true, needs_stencil),
    ensures
        composite_state(num_masks, mask_state, true, needs_stencil).stencil_reference == Some(
            (DIRTY_STENCIL_BIT + visible_reference(num_masks, mask_state)) as u32,
        ),
{
    let reference = visible_reference(num_masks, mask_state) as u32;
    assert(0x80u32 | reference == 0x80 + reference) by (bit_vector)
        requires
            reference < 0x80u32,
    ;
}

/// Two regions with pixels in them overlap if and only if they share one.
pub proof fn overlapping_regions_share_a_pixel(a: PixelRegion, b: PixelRegion)
    requires
        a.x_min < a.x_max && a.y_min < a.y_max,
        b.x_min < b.x_max && b.y_min < b.y_max,
    ensures
        overlap(a, b) <==> exists|x: int, y: int| #[trigger] a.contains(x, y) && b.contains(x, y),
{
    if overlap(a, b) {
        let x = if a.x_min <= b.x_min {
            b.x_min as int
        } else {
            a.x_min as int
        };
        let y = if a.y_min <= b.y_min {
            b.y_min as int
        } else {
            a.y_min as int
        };
        assert(a.contains(x, y) && b.contains(x, y));
    }
}

/// Whether a step does to its chunk what the chunk asks for: it is drawn with a stencil if it
/// needs one or only part of the frame is drawn, and a blend reads and covers the very viewport of
/// its chunk, in the chunk's own mode. What a blend reads is the target; only `Alpha` and `Erase`
/// read the nearest layer, which is the target again where that is the current one.
pub open spec fn serves_its_chunk(
    step: Step,
    chunks: Seq<Chunk>,
    nearest_layer: LayerRef,
    dirty_tiles: bool,
) -> bool {
    match step {
        Step::Draw { chunk, with_stencil } => {
            &&& chunk < chunks.len()
            &&& chunks[chunk as int] matches Chunk::Draw { needs_stencil } && with_stencil == (
            needs_stencil || dirty_tiles)
        },
        Step::Shade { chunk, viewport } => {
            &&& chunk < chunks.len()
            &&& chunks[chunk as int] is Shader
            &&& chunks[chunk as int]->Shader_viewport == viewport
        },
        Step::Prepare { chunk, source, viewport } => {
            &&& chunk < chunks.len()
            &&& chunks[chunk as int] is Complex
            &&& chunks[chunk as int]->Complex_viewport == viewport
            &&& if (chunks[chunk as int]->Complex_blend_mode is Alpha
                || chunks[chunk as int]->Complex_blend_mode is Erase) {
                &&& !(nearest_layer is Absent)
                &&& source == if nearest_layer is Parent {
                    BlendSource::Layer
                } else {
                    BlendSource::Target
                }
            } else {
                source == BlendSource::Target
            }
        },
        Step::BeginBlends { .. } => true,
        Step::Composite { chunk, blend_mode, needs_stencil } => {
            &&& chunk < chunks.len()
            &&& chunks[chunk as int] is Complex
            &&& chunks[chunk as int]->Complex_blend_mode == blend_mode
            &&& chunks[chunk as int]->Complex_needs_stencil == needs_stencil
            &&& blend_mode is Alpha || blend_mode is Erase ==> !(nearest_layer is Absent)
        },
    }
}

/// Whether all steps do to their chunks what those ask for.
pub open spec fn all_serve(
    steps: Seq<Step>,
    chunks: Seq<Chunk>,
    nearest_layer: LayerRef,
    dirty_tiles: bool,
) -> bool {
    forall|k: int|
        0 <= k < steps.len() ==> serves_its_chunk(
            #[trigger] steps[k],
            chunks,
            nearest_layer,
            dirty_tiles,
        )
}

proof fn lemma_batch_serves(
    chunks: Seq<Chunk>,
    start: int,
    end: int,
    nearest_layer: LayerRef,
    dirty_tiles: bool,
)
    requires
        0 <= start <= end <= chunks.len() <= usize::MAX,
        forall|i: int| start <= i < end ==> (#[trigger] chunks[i]) is Complex,
    ensures
        all_serve(
            preparations(chunks, start, end, nearest_layer),
            chunks,
            nearest_layer,
            dirty_tiles,
        ),
        all_serve(
            compositions(chunks, start, end, nearest_layer),
            chunks,
            nearest_layer,
            dirty_tiles,
        ),
    decreases end - start,
{
    if start < end {
        lemma_batch_serves(chunks, start, end - 1, nearest_layer, dirty_tiles);
        assert(chunks[end - 1] is Complex);
    }
}

/// Every step does to its chunk what the chunk asks for.
pub proof fn steps_serve_their_chunks(
    chunks: Seq<Chunk>,
    start: int,
    nearest_layer: LayerRef,
    dirty_tiles: bool,
)
    requires
        0 <= start <= chunks.len() <= usize::MAX,
    ensures
        all_serve(
            steps_from(chunks, start, nearest_layer, dirty_tiles),
            chunks,
            nearest_layer,
            dirty_tiles,
        ),
    decreases chunks.len() - start,
{
    if start < chunks.len() {
        cut_moves_on(chunks, start);
        let end = covered_end(chunks, start);
        steps_serve_their_chunks(chunks, end, nearest_layer, dirty_tiles);
        if chunks[start] is Complex {
            batch_takes_all_it_can(chunks, start, start + 1);
            lemma_batch_serves(chunks, start, end, nearest_layer, dirty_tiles);
        }
    }
}

/// Whether the passes of blends are sound: each begins with the stencil that its blends need, or
/// that keeps a partial frame inside its part, and what is blended in one pass needs a stencil
/// alike and shares no pixel.
pub open spec fn passes_are_sound(
    steps: Seq<Step>,
    chunks: Seq<Chunk>,
    dirty_tiles: bool,
) -> bool {
    &&& forall|k: int|
        0 <= k < steps.len() && (#[trigger] steps[k]) is BeginBlends ==> {
            &&& k + 1 < steps.len()
            &&& steps[k + 1] is Composite
            &&& steps[k]->BeginBlends_with_stencil == (steps[k + 1]->Composite_needs_stencil
                || dirty_tiles)
        }
    &&& forall|k: int|
        0 <= k < steps.len() && (#[trigger] steps[k]) is Composite ==> k > 0 && (steps[k
            - 1] is Composite || steps[k - 1] is BeginBlends)
    &&& forall|k: int, l: int|
        #![trigger steps[k], steps[l]]
        0 <= k < l < steps.len() && (forall|m: int|
            k <= m <= l ==> (#[trigger] steps[m]) is Composite) ==> {
            let a = chunks[steps[k]->Composite_chunk as int]->Complex_viewport;
            let b = chunks[steps[l]->Composite_chunk as int]->Complex_viewport;
            &&& steps[k]->Composite_needs_stencil == steps[l]->Composite_needs_stencil
            &&& forall|x: int, y: int| !(#[trigger] a.contains(x, y) && b.contains(x, y))
        }
}

proof fn lemma_compositions_spread(
    chunks: Seq<Chunk>,
    start: int,
    end: int,
    nearest_layer: LayerRef,
)
    requires
        0 <= start <= end <= chunks.len() <= usize::MAX,
    ensures
        forall|k: int|
            #![trigger compositions(chunks, start, end, nearest_layer)[k]]
            0 <= k < compositions(chunks, start, end, nearest_layer).len() ==> {
                let step = compositions(chunks, start, end, nearest_layer)[k];
                &&& step is Composite
                &&& start <= step->Composite_chunk < end
                &&& step->Composite_needs_stencil
                    == chunks[step->Composite_chunk as int]->Complex_needs_stencil
            },
        forall|k: int, l: int|
            #![trigger compositions(chunks, start, end, nearest_layer)[k], compositions(chunks, start, end, nearest_layer)[l]]
            0 <= k < l < compositions(chunks, start, end, nearest_layer).len() ==> compositions(
                chunks,
                start,
                end,
                nearest_layer,
            )[k]->Composite_chunk < compositions(
                chunks,
                start,
                end,
                nearest_layer,
            )[l]->Composite_chunk,
    decreases end - start,
{
    if start < end {
        lemma_compositions_spread(chunks, start, end - 1, nearest_layer);
    }
}

proof fn lemma_batch_is_one_pass(
    chunks: Seq<Chunk>,
    start: int,
    end: int,
    nearest_layer: LayerRef,
    dirty_tiles: bool,
)
    requires
        is_batch(chunks, start, end),
        chunks.len() <= usize::MAX,
    ensures
        passes_are_sound(
            batch_steps(chunks, start, end, nearest_layer, dirty_tiles),
            chunks,
            dirty_tiles,
        ),
{
    let steps = batch_steps(chunks, start, end, nearest_layer, dirty_tiles);
    let prepared = preparations(chunks, start, end, nearest_layer);
    let composed = compositions(chunks, start, end, nearest_layer);
    if composed.len() > 0 {
        lemma_compositions_spread(chunks, start, end, nearest_layer);
        lemma_batch_is_paired(chunks, start, end, nearest_layer);
        let place = prepared.len() as int;
        assert forall|k: int| 0 <= k < steps.len() implies (#[trigger] steps[k] == if k < place {
            prepared[k]
        } else if k == place {
            Step::BeginBlends {
                with_stencil: chunks[start]->Complex_needs_stencil || dirty_tiles,
            }
        } else {
            composed[k - place - 1]
        }) by {}
        assert(chunks[start] is Complex);
        let head = composed[0];
        assert(chunks[head->Composite_chunk as int] is Complex);
        assert forall|k: int, l: int|
            #![trigger steps[k], steps[l]]
            0 <= k < l < steps.len() && (forall|m: int|
                k <= m <= l ==> (#[trigger] steps[m]) is Composite) implies {
            let a = chunks[steps[k]->Composite_chunk as int]->Complex_viewport;
            let b = chunks[steps[l]->Composite_chunk as int]->Complex_viewport;
            &&& steps[k]->Composite_needs_stencil == steps[l]->Composite_needs_stencil
            &&& forall|x: int, y: int| !(#[trigger] a.contains(x, y) && b.contains(x, y))
        } by {
            assert(steps[k] is Composite);
            let first = composed[k - place - 1]->Composite_chunk as int;
            let second = composed[l - place - 1]->Composite_chunk as int;
            assert(first < second);
            assert(chunks[first] is Complex && chunks[second] is Complex);
            assert forall|x: int, y: int| !(
            #[trigger] chunks[first]->Complex_viewport.contains(x, y)
                && chunks[second]->Complex_viewport.contains(x, y)) by {
                batched_blends_share_no_pixel(chunks, start, end, first, second, x, y);
            }
        }
    }
}

proof fn lemma_passes_append(
    first: Seq<Step>,
    rest: Seq<Step>,
    chunks: Seq<Chunk>,
    dirty_tiles: bool,
)
    requires
        passes_are_sound(first, chunks, dirty_tiles),
        passes_are_sound(rest, chunks, dirty_tiles),
    ensures
        passes_are_sound(first + rest, chunks, dirty_tiles),
{
    let steps = first + rest;
    let size = first.len() as int;
    assert forall|k: int| 0 <= k < steps.len() implies (#[trigger] steps[k] == if k < size {
        first[k]
    } else {
        rest[k - size]
    }) by {}
    assert forall|k: int| 0 <= k < steps.len() && (#[trigger] steps[k]) is BeginBlends implies {
        &&& k + 1 < steps.len()
        &&& steps[k + 1] is Composite
        &&& steps[k]->BeginBlends_with_stencil == (steps[k + 1]->Composite_needs_stencil
            || dirty_tiles)
    } by {
        if k < size {
            assert(first[k] is BeginBlends);
            assert(steps[k + 1] == first[k + 1]);
        } else {
            assert(rest[k - size] is BeginBlends);
            assert(steps[k + 1] == rest[k - size + 1]);
        }
    }
    assert forall|k: int| 0 <= k < steps.len() && (#[trigger] steps[k]) is Composite implies k > 0
        && (steps[k - 1] is Composite || steps[k - 1] is BeginBlends) by {
        if k < size {
            assert(first[k] is Composite);
            assert(steps[k - 1] == first[k - 1]);
        } else {
            assert(rest[k - size] is Composite);
            assert(steps[k - 1] == rest[k - size - 1]);
        }
    }
    assert forall|k: int, l: int|
        #![trigger steps[k], steps[l]]
        0 <= k < l < steps.len() && (forall|m: int|
            k <= m <= l ==> (#[trigger] steps[m]) is Composite) implies {
        let a = chunks[steps[k]->Composite_chunk as int]->Complex_viewport;
        let b = chunks[steps[l]->Composite_chunk as int]->Complex_viewport;
        &&& steps[k]->Composite_needs_stencil == steps[l]->Composite_needs_stencil
        &&& forall|x: int, y: int| !(#[trigger] a.contains(x, y) && b.contains(x, y))
    } by {
        if l < size {
            assert forall|m: int| k <= m <= l implies (#[trigger] first[m]) is Composite by {
                assert(steps[m] is Composite);
            }
            assert(first[k] == steps[k] && first[l] == steps[l]);
        } else if k >= size {
            assert forall|m: int| k - size <= m <= l - size implies (
            #[trigger] rest[m]) is Composite by {
                assert(steps[m + size] is Composite);
            }
            assert(rest[k - size] == steps[k] && rest[l - size] == steps[l]);
        } else {
            // A run of blends does not reach from one part into the next.
            assert(steps[size] is Composite);
            assert(rest[0] is Composite);
        }
    }
}

/// Every pass of blends begins with the stencil that it needs, and what is blended in one pass
/// shares no pixel: none of its blends covers what another one of them has read.
pub proof fn blends_of_a_pass_share_no_pixel(
    chunks: Seq<Chunk>,
    start: int,
    nearest_layer: LayerRef,
    dirty_tiles: bool,
)
    requires
        0 <= start <= chunks.len() <= usize::MAX,
    ensures
        passes_are_sound(
            steps_from(chunks, start, nearest_layer, dirty_tiles),
            chunks,
            dirty_tiles,
        ),
    decreases chunks.len() - start,
{
    if start < chunks.len() {
        cut_moves_on(chunks, start);
        let end = covered_end(chunks, start);
        blends_of_a_pass_share_no_pixel(chunks, end, nearest_layer, dirty_tiles);
        if chunks[start] is Complex {
            batch_takes_all_it_can(chunks, start, start + 1);
            lemma_batch_is_one_pass(chunks, start, end, nearest_layer, dirty_tiles);
        }
        lemma_passes_append(
            steps_at(chunks, start, nearest_layer, dirty_tiles),
            steps_from(chunks, end, nearest_layer, dirty_tiles),
            chunks,
            dirty_tiles,
        );
    }
}

/// Whether the chunks `start..end` are blends that read the pixels below them, need a stencil
/// alike, and lie side by side: of any two, one ends where the other begins or before.
pub open spec fn lie_apart(chunks: Seq<Chunk>, start: int, end: int) -> bool {
    &&& 0 <= start < end <= chunks.len()
    &&& forall|i: int, j: int|
        #![trigger chunks[i], chunks[j]]
        start <= i < end && start <= j < end ==> {
            &&& chunks[i] is Complex
            &&& chunks[i]->Complex_needs_stencil == chunks[j]->Complex_needs_stencil
            &&& i != j ==> {
                let a = chunks[i]->Complex_viewport;
                let b = chunks[j]->Complex_viewport;
                a.x_max <= b.x_min || b.x_max <= a.x_min || a.y_max <= b.y_min || b.y_max
                    <= a.y_min
            }
        }
}

proof fn lemma_batch_reaches(chunks: Seq<Chunk>, start: int, middle: int, end: int)
    requires
        lie_apart(chunks, start, end),
        start < middle <= end,
    ensures
        batch_end(chunks, start, middle) >= end,
    decreases end - middle,
{
    if middle < end {
        assert(is_batch(chunks, start, middle + 1)) by {
            assert forall|i: int| start <= i < middle + 1 implies (#[trigger] chunks[i]) is Complex
                && chunks[i]->Complex_needs_stencil == chunks[start]->Complex_needs_stencil by {
                let first = chunks[start];
            }
        }
        lemma_batch_reaches(chunks, start, middle + 1, end);
    } else {
        lemma_batch_end_grows(chunks, start, middle);
    }
}

proof fn lemma_batch_end_grows(chunks: Seq<Chunk>, start: int, end: int)
    ensures
        batch_end(chunks, start, end) >= end,
    decreases chunks.len() - end,
{
    if is_batch(chunks, start, end + 1) {
        lemma_batch_end_grows(chunks, start, end + 1);
    }
}

/// Blends that lie apart from each other share one pass, however many they are: from where a run
/// of them begins, the frame is drawn with one batch that takes them all in.
pub proof fn blends_apart_share_a_pass(chunks: Seq<Chunk>, start: int, end: int)
    requires
        lie_apart(chunks, start, end),
    ensures
        covered_end(chunks, start) >= end,
{
    let first = chunks[start];
    lemma_batch_reaches(chunks, start, start + 1, end);
}

/// How many passes begin in which blends are drawn.
pub open spec fn blend_passes(steps: Seq<Step>) -> nat
    decreases steps.len(),
{
    if steps.len() == 0 {
        0
    } else if steps.last() is BeginBlends {
        blend_passes(steps.drop_last()) + 1
    } else {
        blend_passes(steps.drop_last())
    }
}

proof fn lemma_no_passes(steps: Seq<Step>)
    requires
        forall|k: int| 0 <= k < steps.len() ==> !((#[trigger] steps[k]) is BeginBlends),
    ensures
        blend_passes(steps) == 0,
    decreases steps.len(),
{
    if steps.len() > 0 {
        let rest = steps.drop_last();
        assert forall|k: int| 0 <= k < rest.len() implies !(
        (#[trigger] rest[k]) is BeginBlends) by {
            assert(rest[k] == steps[k]);
        }
        lemma_no_passes(rest);
        assert(!(steps[steps.len() - 1] is BeginBlends));
    }
}

proof fn lemma_passes_add(a: Seq<Step>, b: Seq<Step>)
    ensures
        blend_passes(a + b) == blend_passes(a) + blend_passes(b),
    decreases b.len(),
{
    if b.len() == 0 {
        assert(a + b =~= a);
    } else {
        lemma_passes_add(a, b.drop_last());
        assert((a + b).drop_last() =~= a + b.drop_last());
        assert((a + b).last() == b.last());
    }
}

/// A frame that is nothing but blends apart from each other needs one pass for them, or none where
/// none of them has something to act on.
pub proof fn frame_of_blends_apart_needs_one_pass(
    chunks: Seq<Chunk>,
    nearest_layer: LayerRef,
    dirty_tiles: bool,
)
    requires
        lie_apart(chunks, 0, chunks.len() as int),
        chunks.len() <= usize::MAX,
    ensures
        blend_passes(steps_from(chunks, 0, nearest_layer, dirty_tiles)) <= 1,
        blend_passes(steps_from(chunks, 0, nearest_layer, dirty_tiles)) == 0
            <==> forall|i: int| #![trigger chunks[i]] 0 <= i < chunks.len() ==> !is_drawn(
            chunks[i],
            nearest_layer,
        ),
{
    let count = chunks.len() as int;
    let first = chunks[0];
    blends_apart_share_a_pass(chunks, 0, count);
    cut_moves_on(chunks, 0);
    assert(covered_end(chunks, 0) == count);
    let steps = steps_from(chunks, 0, nearest_layer, dirty_tiles);
    assert(first is Complex);
    assert(steps_from(chunks, count, nearest_layer, dirty_tiles).len() == 0);
    assert(steps =~= batch_steps(chunks, 0, count, nearest_layer, dirty_tiles));
    let prepared = preparations(chunks, 0, count, nearest_layer);
    let composed = compositions(chunks, 0, count, nearest_layer);
    lemma_batch_is_paired(chunks, 0, count, nearest_layer);
    lemma_compositions_spread(chunks, 0, count, nearest_layer);
    lemma_no_passes(prepared);
    lemma_no_passes(composed);
    lemma_no_passes(Seq::<Step>::empty());
    assert forall|i: int| #![trigger chunks[i]] 0 <= i < count implies chunks[i] is Complex by {
        let first = chunks[0];
    }
    lemma_compositions_performed(chunks, 0, count, nearest_layer);
    let numbers = performed(composed);
    if composed.len() == 0 {
        assert(numbers.len() == 0);
        assert forall|i: int| #![trigger chunks[i]] 0 <= i < count implies !is_drawn(
            chunks[i],
            nearest_layer,
        ) by {
            assert(!numbers.contains(i));
        }
    } else {
        let begin = Step::BeginBlends {
            with_stencil: chunks[0]->Complex_needs_stencil || dirty_tiles,
        };
        let one = seq![begin];
        assert(one.drop_last() =~= Seq::<Step>::empty());
        assert(blend_passes(one) == 1);
        lemma_passes_add(prepared, one);
        lemma_passes_add(prepared + one, composed);
        let i = composed[0]->Composite_chunk as int;
        lemma_batch_serves(chunks, 0, count, nearest_layer, dirty_tiles);
        assert(serves_its_chunk(composed[0], chunks, nearest_layer, dirty_tiles));
        assert(is_drawn(chunks[i], nearest_layer));
    }
}

/// How a pass is set up for a blend, for each state of the mask. A partial frame has pipelines of
/// its own and marks the reference with the top bit of a byte; a full frame has others for passes
/// with a stencil; and without a stencil there is one pipeline, and the reference stays. The
/// reference is the number of masks around the content, less the one that is being drawn.
pub proof fn pipeline_follows_the_mask(
    num_masks: u32,
    mask_state: MaskState,
    dirty_tiles: bool,
    needs_stencil: bool,
)
    requires
        mask_state is DrawMaskStencil ==> num_masks > 0,
    ensures
        ({
            let state = composite_state(num_masks, mask_state, dirty_tiles, needs_stencil);
            let around = if mask_state is DrawMaskStencil {
                (num_masks - 1) as u32
            } else {
                num_masks
            };
            &&& dirty_tiles ==> {
                &&& state.pipeline == (BlendPipeline::Dirty { mask_state })
                &&& state.stencil_reference == Some(around | 0x80)
                &&& num_masks < 128 ==> state.stencil_reference == Some((around + 128) as u32)
            }
            &&& !dirty_tiles && needs_stencil ==> {
                &&& state.pipeline == (BlendPipeline::Masked { mask_state })
                &&& mask_state is NoMask ==> state.stencil_reference is None
                &&& !(mask_state is NoMask) ==> state.stencil_reference == Some(around)
            }
            &&& !dirty_tiles && !needs_stencil ==> {
                &&& state.pipeline == BlendPipeline::Stencilless
                &&& state.stencil_reference is None
            }
        }),
{
    let around = if mask_state is DrawMaskStencil {
        (num_masks - 1) as u32
    } else {
        num_masks
    };
    assert(around | 0x80 == 0x80u32 | around && (around < 0x80u32 ==> around | 0x80 == around
        + 0x80)) by (bit_vector);
}

/// An action is its step, with the masks as they are: a draw begins with them, a blend is set up
/// for them, and the rest carries on what the step says.
pub proof fn actions_carry_their_steps(
    step: Step,
    dirty_tiles: bool,
    num_masks: u32,
    mask_state: MaskState,
)
    ensures
        match action_for(step, dirty_tiles, num_masks, mask_state) {
            PassAction::Draw {
                chunk,
                with_stencil,
                dirty_tiles: partial,
                num_masks: count,
                mask_state: state,
            } => step == (Step::Draw { chunk, with_stencil }) && partial == dirty_tiles && count
                == num_masks && state == mask_state,
            PassAction::Shade { chunk, viewport } => step == (Step::Shade { chunk, viewport }),
            PassAction::Prepare { chunk, source, viewport } => step == (Step::Prepare {
                chunk,
                source,
                viewport,
            }),
            PassAction::BeginBlends { with_stencil } => step == (Step::BeginBlends { with_stencil }),
            PassAction::Composite { chunk, blend_mode, state } => {
                &&& step is Composite
                &&& step->Composite_chunk == chunk
                &&& step->Composite_blend_mode == blend_mode
                &&& state == composite_state(
                    num_masks,
                    mask_state,
                    dirty_tiles,
                    step->Composite_needs_stencil,
                )
            },
            PassAction::Finish => false,
        },
{
}

/// A blend can be drawn unless it looks at the stencil while a mask is drawn that is not counted.
pub proof fn only_uncounted_masks_stop_a_blend(
    num_masks: u32,
    mask_state: MaskState,
    dirty_tiles: bool,
    needs_stencil: bool,
)
    ensures
        !can_composite(num_masks, mask_state, dirty_tiles, needs_stencil) <==> num_masks == 0
            && mask_state is DrawMaskStencil && (dirty_tiles || needs_stencil),
{
}

/// Chunks can be drawn unless one is blended by a shader inside a mask.
pub proof fn only_masked_shaders_stop_a_frame(chunks: Seq<Chunk>)
    ensures
        !shaders_are_unmasked(chunks) <==> exists|i: int|
            0 <= i < chunks.len() && (#[trigger] chunks[i]) is Shader
                && chunks[i]->Shader_needs_stencil,
{
}

} // verus!

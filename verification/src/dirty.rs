//! Which part of a frame has to be drawn again.

use crate::coalesce;
use crate::coalesce::{coalesce_tiles, TileRect};
use crate::command::CommandList;
use crate::fingerprint;
use crate::fingerprint::frame_fingerprint;
use crate::gpu::{
    Extent3d, TextureDescriptor, TextureFormat, TEXTURE_BINDING, TEXTURE_COPY_SRC,
    TEXTURE_RENDER_ATTACHMENT,
};
use crate::region::PixelRegion;
use vstd::prelude::*;

verus! {

/// A frame is drawn in part where at most one tile of so many is dirty.
pub const MAX_DIRTY_TILE_FRACTION_DENOMINATOR: usize = 4;

/// After so many frames in a row with too many dirty tiles, tracking is given up for a while.
pub const HIGH_CHANGE_STREAK_LIMIT: u8 = 3;

/// For so many frames tracking is given up.
pub const TRACKING_COOLDOWN_FRAMES: u8 = 10;

/// The pixels of the last frame, which the next one is drawn over.
#[derive(Debug)]
pub struct RetainedFrame<Texture> {
    pub multisampled: Texture,
    pub resolved: Texture,
}

/// What is remembered from frame to frame.
#[derive(Debug)]
pub struct DirtyTileState<Texture> {
    pub previous: Vec<u64>,
    pub retained: Option<RetainedFrame<Texture>>,
    pub high_change_streak: u8,
    pub tracking_cooldown: u8,
}

/// How the next frame is to be drawn: over the textures of the last one, in the given regions
/// only or, without any given, in full.
#[derive(Debug)]
pub struct DirtyDecision<Texture> {
    pub multisampled: Texture,
    pub resolved: Texture,
    pub rects: Option<Vec<PixelRegion>>,
}

/// The part of the state that decides what is drawn again.
pub struct Tracking {
    pub previous: Seq<u64>,
    pub high_change_streak: int,
    pub tracking_cooldown: int,
}

/// The tiles can be compared with those of the last frame.
pub open spec fn can_reuse(previous: Seq<u64>, hashes: Seq<u64>, force_full: bool) -> bool {
    !force_full && previous.len() == hashes.len()
}

/// The tiles whose hash has changed.
pub open spec fn changed_tiles(previous: Seq<u64>, hashes: Seq<u64>) -> Seq<bool> {
    Seq::new(hashes.len(), |i: int| hashes[i] != previous[i])
}

/// How many of the first `n` tiles are dirty.
pub open spec fn dirty_count(dirty: Seq<bool>, n: int) -> int
    decreases n,
{
    if n <= 0 {
        0
    } else if dirty[n - 1] {
        dirty_count(dirty, n - 1) + 1
    } else {
        dirty_count(dirty, n - 1)
    }
}

/// The frame is drawn in part: there is a frame to compare it with, and few tiles have changed.
pub open spec fn use_partial(previous: Seq<u64>, hashes: Seq<u64>, force_full: bool) -> bool {
    &&& can_reuse(previous, hashes, force_full)
    &&& dirty_count(changed_tiles(previous, hashes), hashes.len() as int)
        * MAX_DIRTY_TILE_FRACTION_DENOMINATOR <= hashes.len()
}

/// What is remembered after a frame with the given hashes.
pub open spec fn remembered(before: Tracking, hashes: Seq<u64>, force_full: bool) -> Tracking {
    if before.tracking_cooldown > 0 {
        Tracking {
            previous: Seq::empty(),
            tracking_cooldown: before.tracking_cooldown - 1,
            ..before
        }
    } else if use_partial(before.previous, hashes, force_full) {
        Tracking { previous: hashes, high_change_streak: 0, ..before }
    } else if force_full {
        Tracking {
            previous: Seq::empty(),
            high_change_streak: 0,
            tracking_cooldown: TRACKING_COOLDOWN_FRAMES as int,
        }
    } else if can_reuse(before.previous, hashes, force_full) {
        if before.high_change_streak + 1 >= HIGH_CHANGE_STREAK_LIMIT {
            Tracking {
                previous: hashes,
                high_change_streak: 0,
                tracking_cooldown: TRACKING_COOLDOWN_FRAMES as int,
            }
        } else {
            Tracking {
                previous: hashes,
                high_change_streak: before.high_change_streak + 1,
                ..before
            }
        }
    } else {
        Tracking { previous: hashes, ..before }
    }
}

/// The regions are those of the coalesced dirty tiles of a frame that is drawn in part; there are
/// none for a frame that is drawn in full.
pub open spec fn redrawn(
    before: Tracking,
    hashes: Seq<u64>,
    force_full: bool,
    tiles_x: int,
    tiles_y: int,
    viewport: PixelRegion,
    rects: Option<Vec<PixelRegion>>,
) -> bool {
    if before.tracking_cooldown <= 0 && use_partial(before.previous, hashes, force_full) {
        &&& rects is Some
        &&& exists|tiles: Seq<TileRect>| #[trigger]
            coalesce::is_coalescing(
                changed_tiles(before.previous, hashes),
                tiles_x,
                tiles_y,
                tiles,
            ) && rects->0@ == coalesce::regions_of(tiles, viewport)
    } else {
        rects is None
    }
}

/// The texture that a frame is drawn to.
pub open spec fn multisampled_descriptor(
    viewport: PixelRegion,
    format: TextureFormat,
    sample_count: u32,
) -> TextureDescriptor {
    TextureDescriptor {
        size: Extent3d {
            width: viewport.spec_width() as u32,
            height: viewport.spec_height() as u32,
            depth_or_array_layers: 1,
        },
        sample_count,
        format,
        usage: TEXTURE_RENDER_ATTACHMENT,
    }
}

/// The texture with one sample for each pixel of a frame.
pub open spec fn resolved_descriptor(
    viewport: PixelRegion,
    format: TextureFormat,
) -> TextureDescriptor {
    TextureDescriptor {
        sample_count: 1,
        usage: TEXTURE_RENDER_ATTACHMENT | TEXTURE_COPY_SRC | TEXTURE_BINDING,
        ..multisampled_descriptor(viewport, format, 1)
    }
}

/// The tiles of a viewport, and the pixels up to the end of the last of them, can be counted in
/// 32 bits.
pub open spec fn viewport_fits(viewport: PixelRegion) -> bool {
    &&& fingerprint::tiles_fit(viewport)
    &&& fingerprint::tiles_along(viewport.spec_width()) * coalesce::TILE_SIZE <= u32::MAX
    &&& fingerprint::tiles_along(viewport.spec_height()) * coalesce::TILE_SIZE <= u32::MAX
}

/// Marks the tiles whose hash has changed.
fn compare_tiles(previous: &Vec<u64>, hashes: &Vec<u64>) -> (dirty: Vec<bool>)
    requires
        previous@.len() == hashes@.len(),
    ensures
        dirty@ == changed_tiles(previous@, hashes@),
{
    let mut dirty: Vec<bool> = Vec::new();
    let mut i: usize = 0;
    while i < hashes.len()
        invariant
            i <= hashes.len(),
            previous@.len() == hashes@.len(),
            dirty@ == changed_tiles(previous@, hashes@).take(i as int),
        decreases hashes.len() - i,
    {
        dirty.push(hashes[i] != previous[i]);
        i = i + 1;
    }
    dirty
}

/// Counts the dirty tiles.
fn count_dirty(dirty: &Vec<bool>) -> (count: usize)
    ensures
        count == dirty_count(dirty@, dirty@.len() as int),
        count <= dirty@.len(),
{
    let mut count: usize = 0;
    let mut i: usize = 0;
    while i < dirty.len()
        invariant
            i <= dirty.len(),
            count <= i,
            count == dirty_count(dirty@, i as int),
        decreases dirty.len() - i,
    {
        if dirty[i] {
            count = count + 1;
        }
        i = i + 1;
    }
    count
}

impl<Texture> DirtyTileState<Texture> {
    pub open spec fn wf(self) -> bool {
        &&& self.high_change_streak < HIGH_CHANGE_STREAK_LIMIT
        &&& self.tracking_cooldown <= TRACKING_COOLDOWN_FRAMES
    }

    /// What is remembered of the frames before.
    pub open spec fn tracking(self) -> Tracking {
        Tracking {
            previous: self.previous@,
            high_change_streak: self.high_change_streak as int,
            tracking_cooldown: self.tracking_cooldown as int,
        }
    }

    /// Nothing was drawn yet.
    pub fn new() -> (state: DirtyTileState<Texture>)
        ensures
            state.wf(),
            state.retained is None,
            state.tracking() == (Tracking {
                previous: Seq::empty(),
                high_change_streak: 0,
                tracking_cooldown: 0,
            }),
    {
        DirtyTileState {
            previous: Vec::new(),
            retained: None,
            high_change_streak: 0,
            tracking_cooldown: 0,
        }
    }

    /// Compares a frame with the one before, while tracking is not given up: decides what of it
    /// is drawn, and remembers it.
    pub fn track(
        &mut self,
        hashes: Vec<u64>,
        force_full: bool,
        tiles_x: u32,
        tiles_y: u32,
        viewport: PixelRegion,
    ) -> (rects: Option<Vec<PixelRegion>>)
        requires
            old(self).wf(),
            old(self).tracking_cooldown == 0,
            coalesce::grid_fits(tiles_x, tiles_y, viewport),
            hashes@.len() == tiles_x * tiles_y,
        ensures
            final(self).wf(),
            final(self).retained == old(self).retained,
            final(self).tracking() == remembered(old(self).tracking(), hashes@, force_full),
            redrawn(
                old(self).tracking(),
                hashes@,
                force_full,
                tiles_x as int,
                tiles_y as int,
                viewport,
                rects,
            ),
    {
        let reuse: bool = !force_full && self.previous.len() == hashes.len();
        let mut rects: Option<Vec<PixelRegion>> = None;
        if reuse {
            let dirty = compare_tiles(&self.previous, &hashes);
            let count = count_dirty(&dirty);
            if count <= dirty.len() / MAX_DIRTY_TILE_FRACTION_DENOMINATOR {
                rects = Some(coalesce_tiles(dirty.as_slice(), tiles_x, tiles_y, viewport));
            }
        }
        self.previous = if force_full {
            Vec::new()
        } else {
            hashes
        };
        if rects.is_some() {
            self.high_change_streak = 0;
        } else if force_full {
            self.high_change_streak = 0;
            self.tracking_cooldown = TRACKING_COOLDOWN_FRAMES;
        } else if reuse {
            self.high_change_streak = self.high_change_streak + 1;
            if self.high_change_streak >= HIGH_CHANGE_STREAK_LIMIT {
                self.high_change_streak = 0;
                self.tracking_cooldown = TRACKING_COOLDOWN_FRAMES;
            }
        }
        rects
    }
}

/// Whether `decision` says how a frame is drawn after those that left the state `before`, and
/// `after` is the state that it leaves: the textures are those kept or, for the first frame, those
/// made; the regions are those of the tiles that changed.
pub open spec fn is_prepared<Texture: Clone, Create: Fn(TextureDescriptor) -> Texture>(
    before: DirtyTileState<Texture>,
    after: DirtyTileState<Texture>,
    create_texture: Create,
    commands: CommandList,
    viewport: PixelRegion,
    format: TextureFormat,
    sample_count: u32,
    clear: Seq<u64>,
    decision: DirtyDecision<Texture>,
) -> bool {
    let hashes = fingerprint::frame_hashes(viewport, clear, commands);
    let force_full = fingerprint::list_forces_full(commands);
    &&& after.retained is Some
    &&& before.retained is Some ==> after.retained == before.retained
    &&& before.retained is None ==> {
        &&& call_ensures(
            create_texture,
            (multisampled_descriptor(viewport, format, sample_count),),
            after.retained.unwrap().multisampled,
        )
        &&& call_ensures(
            create_texture,
            (resolved_descriptor(viewport, format),),
            after.retained.unwrap().resolved,
        )
    }
    &&& cloned(after.retained.unwrap().multisampled, decision.multisampled)
    &&& cloned(after.retained.unwrap().resolved, decision.resolved)
    &&& after.tracking() == remembered(before.tracking(), hashes, force_full)
    &&& redrawn(
        before.tracking(),
        hashes,
        force_full,
        fingerprint::tiles_along(viewport.spec_width()),
        fingerprint::tiles_along(viewport.spec_height()),
        viewport,
        decision.rects,
    )
}

impl<Texture: Clone> DirtyTileState<Texture> {
    /// Decides how a frame is drawn. The textures that frames are drawn to are made for the first
    /// of them, and kept.
    pub fn prepare<Create: Fn(TextureDescriptor) -> Texture>(
        &mut self,
        create_texture: Create,
        commands: &CommandList,
        viewport: PixelRegion,
        format: TextureFormat,
        sample_count: u32,
        clear: [u64; 4],
    ) -> (decision: DirtyDecision<Texture>)
        requires
            old(self).wf(),
            sample_count > 1,
            viewport_fits(viewport),
            fingerprint::list_masks_fit(*commands),
            old(self).retained is None ==> {
                &&& call_requires(
                    create_texture,
                    (multisampled_descriptor(viewport, format, sample_count),),
                )
                &&& call_requires(create_texture, (resolved_descriptor(viewport, format),))
            },
        ensures
            final(self).wf(),
            is_prepared(
                *old(self),
                *final(self),
                create_texture,
                *commands,
                viewport,
                format,
                sample_count,
                clear@,
                decision,
            ),
    {
        if self.retained.is_none() {
            let size = Extent3d {
                width: viewport.width(),
                height: viewport.height(),
                depth_or_array_layers: 1,
            };
            let multisampled = create_texture(
                TextureDescriptor {
                    size,
                    sample_count,
                    format,
                    usage: TEXTURE_RENDER_ATTACHMENT,
                },
            );
            let resolved = create_texture(
                TextureDescriptor {
                    size,
                    sample_count: 1,
                    format,
                    usage: TEXTURE_RENDER_ATTACHMENT | TEXTURE_COPY_SRC | TEXTURE_BINDING,
                },
            );
            self.retained = Some(RetainedFrame { multisampled, resolved });
        }
        let rects = if self.tracking_cooldown > 0 {
            self.tracking_cooldown = self.tracking_cooldown - 1;
            self.previous.clear();
            None
        } else {
            let frame = frame_fingerprint(viewport, clear, commands);
            assert(frame.tiles_x * frame.tiles_y <= (frame.tiles_x + 1) * (frame.tiles_y + 1))
                by (nonlinear_arith)
                requires
                    0 <= frame.tiles_x,
                    0 <= frame.tiles_y,
            ;
            self.track(frame.hashes, frame.force_full, frame.tiles_x, frame.tiles_y, viewport)
        };
        let retained = self.retained.as_ref().unwrap();
        DirtyDecision {
            multisampled: retained.multisampled.clone(),
            resolved: retained.resolved.clone(),
            rects,
        }
    }
}

proof fn lemma_none_dirty(dirty: Seq<bool>, n: int)
    requires
        n <= dirty.len(),
        forall|i: int| 0 <= i < dirty.len() ==> !dirty[i],
    ensures
        dirty_count(dirty, n) == 0,
    decreases n,
{
    if n > 0 {
        lemma_none_dirty(dirty, n - 1);
    }
}

/// A frame with the hashes of the last one is drawn over it in no region at all.
pub proof fn unchanged_frame_redraws_nothing(
    before: Tracking,
    hashes: Seq<u64>,
    tiles_x: int,
    tiles_y: int,
    viewport: PixelRegion,
    rects: Option<Vec<PixelRegion>>,
)
    requires
        before.tracking_cooldown <= 0,
        before.previous == hashes,
        hashes.len() == tiles_x * tiles_y,
        redrawn(before, hashes, false, tiles_x, tiles_y, viewport, rects),
    ensures
        rects is Some,
        rects->0@.len() == 0,
{
    let dirty = changed_tiles(before.previous, hashes);
    lemma_none_dirty(dirty, hashes.len() as int);
    let tiles = choose|tiles: Seq<TileRect>| #[trigger]
        coalesce::is_coalescing(dirty, tiles_x, tiles_y, tiles) && rects->0@
            == coalesce::regions_of(tiles, viewport);
    if tiles.len() > 0 {
        let first = tiles[0];
        assert(coalesce::is_next(dirty, tiles_x, tiles_y, tiles.take(0), first));
        assert(first.holds(first.x, first.y));
        assert(coalesce::pending(dirty, tiles_x, tiles.take(0), first.x, first.y));
        coalesce::lemma_tile_in_grid(tiles_x, tiles_y, first.x, first.y);
    }
}

/// Where a frame is drawn in part, a pixel outside the regions lies on a tile whose hash is that
/// of the last frame, and a pixel inside them on one whose hash is not.
pub proof fn kept_pixels_are_unchanged(
    before: Tracking,
    hashes: Seq<u64>,
    force_full: bool,
    tiles_x: u32,
    tiles_y: u32,
    viewport: PixelRegion,
    rects: Option<Vec<PixelRegion>>,
    px: int,
    py: int,
)
    requires
        redrawn(before, hashes, force_full, tiles_x as int, tiles_y as int, viewport, rects),
        rects is Some,
        coalesce::grid_fits(tiles_x, tiles_y, viewport),
        hashes.len() == tiles_x * tiles_y,
        0 <= px < viewport.spec_width(),
        0 <= py < viewport.spec_height(),
        px < tiles_x * coalesce::TILE_SIZE,
        py < tiles_y * coalesce::TILE_SIZE,
    ensures
        ({
            let tile = coalesce::tile_at(tiles_x as int, px / 32, py / 32);
            (exists|k: int|
                0 <= k < rects->0@.len() && (#[trigger] rects->0@[k]).contains(px, py))
                <==> hashes[tile] != before.previous[tile]
        }),
{
    let dirty = changed_tiles(before.previous, hashes);
    let tiles = choose|tiles: Seq<TileRect>| #[trigger]
        coalesce::is_coalescing(dirty, tiles_x as int, tiles_y as int, tiles) && rects->0@
            == coalesce::regions_of(tiles, viewport);
    coalesce::regions_hold_dirty_pixels(dirty, tiles_x, tiles_y, viewport, tiles, px, py);
    coalesce::lemma_tile_in_grid(tiles_x as int, tiles_y as int, px / 32, py / 32);
    assert(rects->0@.len() == tiles.len());
}

/// A frame, as far as tracking sees it.
pub struct Frame {
    pub hashes: Seq<u64>,
    pub force_full: bool,
}

/// What is remembered after some frames.
pub open spec fn remembered_after(before: Tracking, frames: Seq<Frame>) -> Tracking
    decreases frames.len(),
{
    if frames.len() == 0 {
        before
    } else {
        remembered(
            remembered_after(before, frames.drop_last()),
            frames.last().hashes,
            frames.last().force_full,
        )
    }
}

/// While tracking is given up, frames only count the time down, whatever they are; each of them
/// is drawn in full, and none is compared with later.
pub proof fn cooldown_counts_down(before: Tracking, frames: Seq<Frame>)
    requires
        0 < frames.len() <= before.tracking_cooldown,
    ensures
        remembered_after(before, frames) == (Tracking {
            previous: Seq::empty(),
            high_change_streak: before.high_change_streak,
            tracking_cooldown: before.tracking_cooldown - frames.len(),
        }),
    decreases frames.len(),
{
    if frames.len() > 1 {
        cooldown_counts_down(before, frames.drop_last());
    } else {
        assert(remembered_after(before, frames.drop_last()) == before);
    }
}

/// A frame that has to be drawn in full gives tracking up.
pub proof fn forced_frame_stops_tracking(before: Tracking, hashes: Seq<u64>)
    requires
        before.tracking_cooldown <= 0,
    ensures
        remembered(before, hashes, true) == (Tracking {
            previous: Seq::empty(),
            high_change_streak: 0,
            tracking_cooldown: TRACKING_COOLDOWN_FRAMES as int,
        }),
{
}

/// Three frames in a row with too many changes give tracking up; two do not.
pub proof fn busy_frames_stop_tracking(
    before: Tracking,
    first: Seq<u64>,
    second: Seq<u64>,
    third: Seq<u64>,
)
    requires
        before.tracking_cooldown == 0,
        before.high_change_streak == 0,
        can_reuse(before.previous, first, false) && !use_partial(before.previous, first, false),
        can_reuse(first, second, false) && !use_partial(first, second, false),
        can_reuse(second, third, false) && !use_partial(second, third, false),
    ensures
        ({
            let two = remembered(remembered(before, first, false), second, false);
            &&& two.tracking_cooldown == 0
            &&& remembered(two, third, false) == (Tracking {
                previous: third,
                high_change_streak: 0,
                tracking_cooldown: TRACKING_COOLDOWN_FRAMES as int,
            })
        }),
{
}

/// The places of the tiles whose hash has changed.
pub open spec fn changed_places(previous: Seq<u64>, hashes: Seq<u64>) -> Set<int> {
    Set::new(|i: int| 0 <= i < hashes.len() && hashes[i] != previous[i])
}

proof fn lemma_dirty_count_is_size(previous: Seq<u64>, hashes: Seq<u64>, n: int)
    requires
        0 <= n <= hashes.len(),
    ensures
        Set::new(|i: int| 0 <= i < n && hashes[i] != previous[i]).finite(),
        dirty_count(changed_tiles(previous, hashes), n) == Set::new(
            |i: int| 0 <= i < n && hashes[i] != previous[i],
        ).len(),
    decreases n,
{
    let places = Set::new(|i: int| 0 <= i < n && hashes[i] != previous[i]);
    if n == 0 {
        assert(places =~= Set::<int>::empty());
    } else {
        lemma_dirty_count_is_size(previous, hashes, n - 1);
        let rest = Set::new(|i: int| 0 <= i < n - 1 && hashes[i] != previous[i]);
        if hashes[n - 1] != previous[n - 1] {
            assert(places =~= rest.insert(n - 1));
        } else {
            assert(places =~= rest);
        }
    }
}

/// When a frame is drawn in part: tracking is not given up, no command forces a full frame, the
/// frame before has as many tiles, and at most a quarter of all tiles have changed. In every other
/// case it is drawn in full.
pub proof fn few_changes_are_drawn_in_part(
    before: Tracking,
    hashes: Seq<u64>,
    force_full: bool,
    tiles_x: int,
    tiles_y: int,
    viewport: PixelRegion,
    rects: Option<Vec<PixelRegion>>,
)
    requires
        redrawn(before, hashes, force_full, tiles_x, tiles_y, viewport, rects),
    ensures
        changed_places(before.previous, hashes).finite(),
        rects is Some <==> {
            &&& before.tracking_cooldown <= 0
            &&& !force_full
            &&& before.previous.len() == hashes.len()
            &&& 4 * changed_places(before.previous, hashes).len() <= hashes.len()
        },
{
    lemma_dirty_count_is_size(before.previous, hashes, hashes.len() as int);
    assert(changed_places(before.previous, hashes) =~= Set::new(
        |i: int| 0 <= i < hashes.len() && hashes[i] != before.previous[i],
    ));
}

/// What a frame leaves behind while tracking is not given up. It is remembered for the next one,
/// unless it was forced. A frame with few changes ends a streak of busy ones. A busy frame makes
/// the streak longer, and the third in a row gives tracking up for ten frames. A forced frame does
/// so at once. A frame that cannot be compared changes neither.
pub proof fn frames_are_remembered(before: Tracking, hashes: Seq<u64>, force_full: bool)
    requires
        before.tracking_cooldown == 0,
        0 <= before.high_change_streak < 3,
    ensures
        ({
            let after = remembered(before, hashes, force_full);
            let comparable = !force_full && before.previous.len() == hashes.len();
            let few = 4 * changed_places(before.previous, hashes).len() <= hashes.len();
            &&& force_full ==> after.previous.len() == 0 && after.high_change_streak == 0
                && after.tracking_cooldown == 10
            &&& !force_full ==> after.previous == hashes
            &&& comparable && few ==> after.high_change_streak == 0 && after.tracking_cooldown == 0
            &&& comparable && !few && before.high_change_streak < 2 ==> after.high_change_streak
                == before.high_change_streak + 1 && after.tracking_cooldown == 0
            &&& comparable && !few && before.high_change_streak == 2 ==> after.high_change_streak
                == 0 && after.tracking_cooldown == 10
            &&& !force_full && !comparable ==> after.high_change_streak
                == before.high_change_streak && after.tracking_cooldown == 0
        }),
{
    lemma_dirty_count_is_size(before.previous, hashes, hashes.len() as int);
    assert(changed_places(before.previous, hashes) =~= Set::new(
        |i: int| 0 <= i < hashes.len() && hashes[i] != before.previous[i],
    ));
}

/// While tracking is given up, a frame is drawn in full, forgets the one before and brings the end
/// one frame nearer.
pub proof fn frames_wait_while_tracking_is_given_up(
    before: Tracking,
    hashes: Seq<u64>,
    force_full: bool,
    tiles_x: int,
    tiles_y: int,
    viewport: PixelRegion,
    rects: Option<Vec<PixelRegion>>,
)
    requires
        before.tracking_cooldown > 0,
        redrawn(before, hashes, force_full, tiles_x, tiles_y, viewport, rects),
    ensures
        rects is None,
        remembered(before, hashes, force_full).previous.len() == 0,
        remembered(before, hashes, force_full).tracking_cooldown == before.tracking_cooldown - 1,
        remembered(before, hashes, force_full).high_change_streak == before.high_change_streak,
{
}

/// Where a frame is drawn in part, its regions are exactly over the changed tiles: a pixel of the
/// viewport lies in one of them if and only if the hash of its tile of 32 by 32 pixels changed.
pub proof fn regions_cover_changed_tiles(
    before: Tracking,
    hashes: Seq<u64>,
    tiles_x: u32,
    tiles_y: u32,
    viewport: PixelRegion,
    rects: Option<Vec<PixelRegion>>,
    px: int,
    py: int,
)
    requires
        redrawn(before, hashes, false, tiles_x as int, tiles_y as int, viewport, rects),
        rects is Some,
        coalesce::grid_fits(tiles_x, tiles_y, viewport),
        hashes.len() == tiles_x * tiles_y,
        0 <= px < viewport.x_max - viewport.x_min,
        0 <= py < viewport.y_max - viewport.y_min,
        px < tiles_x * 32,
        py < tiles_y * 32,
    ensures
        (exists|k: int|
            #![trigger rects->0@[k]]
            0 <= k < rects->0@.len() && rects->0@[k].x_min <= px && px < rects->0@[k].x_max
                && rects->0@[k].y_min <= py && py < rects->0@[k].y_max) <==> changed_places(
            before.previous,
            hashes,
        ).contains(py / 32 * tiles_x + px / 32),
{
    kept_pixels_are_unchanged(
        before,
        hashes,
        false,
        tiles_x,
        tiles_y,
        viewport,
        rects,
        px,
        py,
    );
    coalesce::lemma_tile_in_grid(tiles_x as int, tiles_y as int, px / 32, py / 32);
    assert forall|k: int| 0 <= k < rects->0@.len() implies (
    #[trigger] rects->0@[k]).contains(px, py) == (rects->0@[k].x_min <= px && px
        < rects->0@[k].x_max && rects->0@[k].y_min <= py && py < rects->0@[k].y_max) by {}
}

/// The textures that frames are drawn to have the size of the viewport and its format. One has
/// all samples and is only drawn to; the other has one sample for each pixel and can also be
/// copied from and sampled. They are made for the first frame and kept for all others, and every
/// frame gets them.
pub proof fn textures_fit_the_viewport<Texture: Clone, Create: Fn(TextureDescriptor) -> Texture>(
    before: DirtyTileState<Texture>,
    after: DirtyTileState<Texture>,
    create_texture: Create,
    commands: CommandList,
    viewport: PixelRegion,
    format: TextureFormat,
    sample_count: u32,
    clear: Seq<u64>,
    decision: DirtyDecision<Texture>,
)
    requires
        viewport.wf(),
        is_prepared(
            before,
            after,
            create_texture,
            commands,
            viewport,
            format,
            sample_count,
            clear,
            decision,
        ),
    ensures
        after.retained is Some,
        cloned(after.retained.unwrap().multisampled, decision.multisampled),
        cloned(after.retained.unwrap().resolved, decision.resolved),
        before.retained is Some ==> after.retained == before.retained,
        before.retained is None ==> {
            let size = Extent3d {
                width: (viewport.x_max - viewport.x_min) as u32,
                height: (viewport.y_max - viewport.y_min) as u32,
                depth_or_array_layers: 1,
            };
            &&& call_ensures(
                create_texture,
                (TextureDescriptor { size, sample_count, format, usage: 16 },),
                after.retained.unwrap().multisampled,
            )
            &&& call_ensures(
                create_texture,
                (TextureDescriptor { size, sample_count: 1, format, usage: 21 },),
                after.retained.unwrap().resolved,
            )
        },
{
    assert(16u32 | 1 | 4 == 21) by (bit_vector);
}

/// A frame is compared with the one before tile by tile, over the hashes of its commands.
pub proof fn frames_are_compared_by_their_hashes<
    Texture: Clone,
    Create: Fn(TextureDescriptor) -> Texture,
>(
    before: DirtyTileState<Texture>,
    after: DirtyTileState<Texture>,
    create_texture: Create,
    commands: CommandList,
    viewport: PixelRegion,
    format: TextureFormat,
    sample_count: u32,
    clear: Seq<u64>,
    decision: DirtyDecision<Texture>,
)
    requires
        viewport.wf(),
        is_prepared(
            before,
            after,
            create_texture,
            commands,
            viewport,
            format,
            sample_count,
            clear,
            decision,
        ),
    ensures
        ({
            let hashes = fingerprint::frame_hashes(viewport, clear, commands);
            let force_full = fingerprint::forces_full(
                0,
                commands.commands@,
                commands.commands@.len(),
            );
            let few = 4 * changed_places(before.previous@, hashes).len() <= hashes.len();
            &&& decision.rects is Some <==> before.tracking_cooldown == 0 && !force_full
                && before.previous@.len() == hashes.len() && few
            &&& before.tracking_cooldown == 0 && !force_full ==> after.previous@ == hashes
            &&& before.tracking_cooldown == 0 && force_full ==> after.tracking_cooldown == 10
                && after.previous@.len() == 0
            &&& decision.rects is Some ==> after.tracking_cooldown == 0
                && after.high_change_streak == 0
            &&& before.tracking_cooldown == 0 && !force_full && before.previous@.len()
                == hashes.len() && !few ==> if before.high_change_streak < 2 {
                after.tracking_cooldown == 0 && after.high_change_streak
                    == before.high_change_streak + 1
            } else {
                after.tracking_cooldown == 10 && after.high_change_streak == 0
            }
            &&& before.tracking_cooldown > 0 ==> after.tracking_cooldown
                == before.tracking_cooldown - 1 && after.previous@.len() == 0
        }),
{
    let hashes = fingerprint::frame_hashes(viewport, clear, commands);
    fingerprint::frame_is_forced_by_its_commands(commands);
    few_changes_are_drawn_in_part(
        before.tracking(),
        hashes,
        fingerprint::list_forces_full(commands),
        fingerprint::tiles_along(viewport.spec_width()),
        fingerprint::tiles_along(viewport.spec_height()),
        viewport,
        decision.rects,
    );
}

/// Viewports of up to two million pixels along each edge have few enough tiles.
pub proof fn large_viewports_fit(viewport: PixelRegion)
    requires
        viewport.wf(),
        viewport.x_max - viewport.x_min <= 2_000_000,
        viewport.y_max - viewport.y_min <= 2_000_000,
    ensures
        viewport_fits(viewport),
{
    let x = fingerprint::tiles_along(viewport.spec_width());
    let y = fingerprint::tiles_along(viewport.spec_height());
    assert((x + 1) * (y + 1) <= 62501 * 62501) by (nonlinear_arith)
        requires
            0 <= x <= 62500,
            0 <= y <= 62500,
    ;
}

} // verus!

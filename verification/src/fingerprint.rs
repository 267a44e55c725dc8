//! Fingerprints of a frame: one hash for each tile, made of the commands that touch the tile.

use crate::coalesce;
use crate::coalesce::TILE_SIZE;
use crate::command;
use crate::command::{
    blend_tag, snapping_id, BitmapRef, BlendType, Command, CommandList, PixelSnapping, Placement,
};
use crate::region;
use crate::region::{pixel_bounds, viewport_bounds, Bounds, PixelRegion};
use crate::signature;
use crate::signature::{command_signature, mix, HASH_SEED};
use vstd::prelude::*;

verus! {

/// A rectangle of tiles, with its last column and row.
pub struct TileRange {
    pub x0: int,
    pub y0: int,
    pub x1: int,
    pub y1: int,
}

impl TileRange {
    pub open spec fn covers(self, x: int, y: int) -> bool {
        &&& self.x0 <= x <= self.x1
        &&& self.y0 <= y <= self.y1
    }
}

/// What a command leaves on the tiles that it touches.
pub struct Stamp {
    pub range: TileRange,
    pub signature: u64,
}

pub open spec fn lesser(a: int, b: int) -> int {
    if a <= b {
        a
    } else {
        b
    }
}

pub open spec fn greater(a: int, b: int) -> int {
    if a <= b {
        b
    } else {
        a
    }
}

/// Some pixel of the viewport lies inside the bounds.
pub open spec fn visible(viewport: PixelRegion, bounds: Bounds) -> bool {
    &&& greater(bounds.left as int, viewport.x_min as int) < lesser(
        bounds.right as int,
        viewport.x_max as int,
    )
    &&& greater(bounds.top as int, viewport.y_min as int) < lesser(
        bounds.bottom as int,
        viewport.y_max as int,
    )
}

/// The tiles with a pixel inside both the bounds and the viewport. A grid too small for the
/// viewport keeps what lies beyond it in its last column and row.
pub open spec fn range_of(
    viewport: PixelRegion,
    tiles_x: int,
    tiles_y: int,
    bounds: Bounds,
) -> TileRange {
    let left = greater(bounds.left as int, viewport.x_min as int);
    let top = greater(bounds.top as int, viewport.y_min as int);
    let right = lesser(bounds.right as int, viewport.x_max as int);
    let bottom = lesser(bounds.bottom as int, viewport.y_max as int);
    TileRange {
        x0: lesser((left - viewport.x_min) / TILE_SIZE as int, tiles_x - 1),
        y0: lesser((top - viewport.y_min) / TILE_SIZE as int, tiles_y - 1),
        x1: lesser((right - 1 - viewport.x_min) / TILE_SIZE as int, tiles_x - 1),
        y1: lesser((bottom - 1 - viewport.y_min) / TILE_SIZE as int, tiles_y - 1),
    }
}

/// The exclusive or of the signatures of those of the first `n` stamps that cover a tile.
pub open spec fn cover_xor(stamps: Seq<Stamp>, n: int, x: int, y: int) -> u64
    decreases n,
{
    if n <= 0 {
        0
    } else if stamps[n - 1].range.covers(x, y) {
        cover_xor(stamps, n - 1, x, y) ^ stamps[n - 1].signature
    } else {
        cover_xor(stamps, n - 1, x, y)
    }
}

/// The exclusive or of row `y` of a grid, up to column `x`.
pub open spec fn row_xor(grid: Seq<u64>, stride: int, x: int, y: int) -> u64
    decreases x + 1,
{
    if x < 0 {
        0
    } else {
        row_xor(grid, stride, x - 1, y) ^ grid[coalesce::tile_at(stride, x, y)]
    }
}

/// The exclusive or of a grid up to column `x` and row `y`.
pub open spec fn area_xor(grid: Seq<u64>, stride: int, x: int, y: int) -> u64
    decreases y + 1,
{
    if y < 0 {
        0
    } else {
        area_xor(grid, stride, x, y - 1) ^ row_xor(grid, stride, x, y)
    }
}

/// The hash with the bitmaps that a shape is filled with, after the first `n` of them.
pub open spec fn mixed_bitmaps(hash: u64, bitmaps: Seq<BitmapRef>, n: int) -> u64
    decreases n,
{
    if n <= 0 {
        hash
    } else {
        signature::mixed(
            signature::mixed(mixed_bitmaps(hash, bitmaps, n - 1), bitmaps[n - 1].id),
            bitmaps[n - 1].generation,
        )
    }
}

/// What a command draws: its signature, and the bounds of it. Nothing for a command that leaves
/// no stamp.
pub open spec fn drawn(viewport: PixelRegion, command: Command) -> Option<(u64, Bounds)>
    decreases command, 0nat,
{
    match command {
        Command::RenderBitmap { bitmap, placement, smoothing, pixel_snapping, bounds } => {
            let plain = signature::signature_of(1, placement.matrix@, placement.color@);
            let filled = signature::mixed(signature::mixed(plain, bitmap.id), bitmap.generation);
            let smooth = signature::mixed(
                filled,
                if smoothing {
                    1
                } else {
                    0
                },
            );
            Some((signature::mixed(smooth, command::spec_snapping_id(pixel_snapping)), bounds))
        },
        Command::RenderStage3D => None,
        Command::RenderShape { shape, placement, bitmaps, bounds } => match bounds {
            Some(bounds) => {
                let plain = signature::signature_of(2, placement.matrix@, placement.color@);
                Some((mixed_bitmaps(signature::mixed(plain, shape), bitmaps@, bitmaps@.len() as int), bounds))
            },
            None => None,
        },
        Command::DrawRect { placement, bounds } => Some(
            (signature::signature_of(3, placement.matrix@, placement.color@), bounds),
        ),
        Command::DrawLine { placement, bounds } => Some(
            (signature::signature_of(4, placement.matrix@, placement.color@), bounds),
        ),
        Command::DrawLineRect { placement, bounds } => Some(
            (signature::signature_of(5, placement.matrix@, placement.color@), bounds),
        ),
        Command::PushMask => Some((6, region::bounds_of(viewport))),
        Command::ActivateMask => Some((7, region::bounds_of(viewport))),
        Command::DeactivateMask => Some((8, region::bounds_of(viewport))),
        Command::PopMask => Some((9, region::bounds_of(viewport))),
        Command::Blend { commands, blend_mode, bounds } => Some(
            (layer_signature(viewport, commands, command::spec_blend_tag(blend_mode)), region::bounds_of(bounds)),
        ),
        Command::RenderAlphaMask { maskee_commands, mask_commands, bounds } => Some(
            (
                signature::mixed(
                    layer_signature(viewport, maskee_commands, 24),
                    layer_signature(viewport, mask_commands, 25),
                ),
                region::bounds_of(bounds),
            ),
        ),
    }
}

/// The signature of a layer: that of all its commands together, wherever in it they draw.
pub open spec fn layer_signature(viewport: PixelRegion, list: CommandList, seed: u64) -> u64
    decreases list, 0nat,
{
    let layer = stamps(viewport, 1, 1, 0, list.commands@, list.commands@.len());
    signature::mixed(seed, cover_xor(layer, layer.len() as int, 0, 0))
}

/// The stamps that the first `n` commands leave on a grid, in order. Each signature is mixed with
/// the number of the stamp, counted from `first`.
pub open spec fn stamps(
    viewport: PixelRegion,
    tiles_x: int,
    tiles_y: int,
    first: int,
    commands: Seq<Command>,
    n: nat,
) -> Seq<Stamp>
    decreases commands, n,
{
    if n == 0 {
        Seq::empty()
    } else {
        let before = stamps(viewport, tiles_x, tiles_y, first, commands, (n - 1) as nat);
        if n > commands.len() {
            before
        } else {
            match drawn(viewport, commands[n - 1]) {
                Some((signature, bounds)) => if visible(viewport, bounds) {
                    before.push(
                        Stamp {
                            range: range_of(viewport, tiles_x, tiles_y, bounds),
                            signature: signature::mixed(signature, (first + before.len()) as u64),
                        },
                    )
                } else {
                    before
                },
                None => before,
            }
        }
    }
}

/// How many masks are pushed after the first `n` commands, where `depth` are before them.
pub open spec fn mask_depth(depth: int, commands: Seq<Command>, n: int) -> int
    decreases n,
{
    if n <= 0 {
        depth
    } else {
        let before = mask_depth(depth, commands, n - 1);
        match commands[n - 1] {
            Command::PushMask => before + 1,
            Command::PopMask => if before > 0 {
                before - 1
            } else {
                0
            },
            _ => before,
        }
    }
}

/// The number of pushed masks that the stencil cannot hold.
pub const MASK_LIMIT: u32 = 0x80;

/// A command, at the given mask depth after it, has to be drawn in full whatever it was before.
pub open spec fn command_forces_full(command: Command, depth: int) -> bool
    decreases command, 0nat,
{
    match command {
        Command::RenderStage3D => true,
        Command::PushMask => depth >= MASK_LIMIT,
        Command::Blend { commands, blend_mode, bounds } => blend_mode == BlendType::Shader
            || list_forces_full(commands),
        Command::RenderAlphaMask { maskee_commands, mask_commands, bounds } => list_forces_full(
            maskee_commands,
        ) || list_forces_full(mask_commands),
        _ => false,
    }
}

/// The commands of a layer force a full draw.
pub open spec fn list_forces_full(list: CommandList) -> bool
    decreases list, 0nat,
{
    forces_full(0, list.commands@, list.commands@.len())
}

/// One of the first `n` commands forces a full draw.
pub open spec fn forces_full(depth: int, commands: Seq<Command>, n: nat) -> bool
    decreases commands, n,
{
    if n == 0 {
        false
    } else if n > commands.len() {
        forces_full(depth, commands, (n - 1) as nat)
    } else {
        forces_full(depth, commands, (n - 1) as nat) || command_forces_full(
            commands[n - 1],
            mask_depth(depth, commands, n as int),
        )
    }
}

/// The masks of the first `n` commands, and of the layers among them, can be counted in 32 bits.
pub open spec fn masks_fit(depth: int, commands: Seq<Command>, n: nat) -> bool
    decreases commands, n,
{
    if n == 0 {
        true
    } else if n > commands.len() {
        masks_fit(depth, commands, (n - 1) as nat)
    } else {
        &&& masks_fit(depth, commands, (n - 1) as nat)
        &&& mask_depth(depth, commands, n as int) <= u32::MAX
        &&& command_masks_fit(commands[n - 1])
    }
}

pub open spec fn command_masks_fit(command: Command) -> bool
    decreases command, 0nat,
{
    match command {
        Command::Blend { commands, blend_mode, bounds } => list_masks_fit(commands),
        Command::RenderAlphaMask { maskee_commands, mask_commands, bounds } => list_masks_fit(
            maskee_commands,
        ) && list_masks_fit(mask_commands),
        _ => true,
    }
}

/// The masks of a list, and of its layers, can be counted in 32 bits.
pub open spec fn list_masks_fit(list: CommandList) -> bool
    decreases list, 0nat,
{
    masks_fit(0, list.commands@, list.commands@.len())
}

/// The tiles, each with a hash of what touches it, while commands are added one by one.
///
/// A stamp is not written onto each of its tiles. It is noted at the four corners of its
/// rectangle in `range_xor`, so that the exclusive or of all that is noted above and to the left
/// of a tile is the exclusive or of the stamps that cover it.
#[derive(Debug)]
pub struct Fingerprint {
    pub viewport: PixelRegion,
    pub tiles_x: u32,
    pub tiles_y: u32,
    pub hashes: Vec<u64>,
    pub range_xor: Vec<u64>,
    pub command_index: u64,
    pub force_full: bool,
    pub mask_depth: u32,
}

/// How many tiles lie along an edge of the given length.
pub open spec fn tiles_along(length: int) -> int {
    (length + TILE_SIZE - 1) / TILE_SIZE as int
}

/// The tiles of a viewport, and one more along each edge, can be counted in 32 bits.
pub open spec fn tiles_fit(viewport: PixelRegion) -> bool {
    &&& viewport.wf()
    &&& (tiles_along(viewport.spec_width()) + 1) * (tiles_along(viewport.spec_height()) + 1)
        <= u32::MAX
}

/// The hash of an empty tile, over the bits of the four components of the clear color.
pub open spec fn clear_hash(clear: Seq<u64>) -> u64 {
    signature::mixed(signature::mixed(signature::mixed(signature::mixed(HASH_SEED, clear[0]), clear[1]), clear[2]), clear[3])
}

impl Fingerprint {
    pub open spec fn wf(self) -> bool {
        &&& self.viewport.wf()
        &&& self.viewport.spec_width() > 0 ==> self.tiles_x > 0
        &&& self.viewport.spec_height() > 0 ==> self.tiles_y > 0
        &&& self.hashes@.len() == self.tiles_x * self.tiles_y
        &&& self.range_xor@.len() == (self.tiles_x + 1) * (self.tiles_y + 1)
        &&& (self.tiles_x + 1) * (self.tiles_y + 1) <= u32::MAX
    }

    /// The exclusive or of the stamps that cover a tile.
    pub open spec fn tile_value(self, x: int, y: int) -> u64 {
        area_xor(self.range_xor@, self.tiles_x + 1, x, y)
    }

    /// The hash of a tile.
    pub open spec fn tile_hash(self, x: int, y: int) -> u64 {
        self.hashes@[coalesce::tile_at(self.tiles_x as int, x, y)]
    }
}

proof fn lemma_grid_index(stride: int, rows: int, x: int, y: int)
    requires
        0 <= x < stride,
        0 <= y < rows,
    ensures
        0 <= y * stride <= coalesce::tile_at(stride, x, y) < stride * rows,
        y > 0 ==> stride <= y * stride,
{
    assert(0 <= y * stride && y * stride + stride <= stride * rows) by (nonlinear_arith)
        requires
            0 <= y < rows,
            0 < stride,
    ;
    if y > 0 {
        assert(stride <= y * stride) by (nonlinear_arith)
            requires
                0 < y,
                0 < stride,
        ;
    }
}

proof fn lemma_grid_injective(stride: int, x: int, y: int, x1: int, y1: int)
    requires
        0 <= x < stride,
        0 <= x1 < stride,
        coalesce::tile_at(stride, x, y) == coalesce::tile_at(stride, x1, y1),
    ensures
        x == x1,
        y == y1,
{
    assert(y == y1) by (nonlinear_arith)
        requires
            0 <= x < stride,
            0 <= x1 < stride,
            y * stride + x == y1 * stride + x1,
    ;
}

/// What a value noted at a point adds to a row.
proof fn lemma_row_note(
    grid: Seq<u64>,
    stride: int,
    rows: int,
    px: int,
    py: int,
    value: u64,
    x: int,
    y: int,
)
    requires
        grid.len() == stride * rows,
        0 <= px < stride,
        0 <= py < rows,
        x < stride,
        0 <= y < rows,
    ensures
        ({
            let at = coalesce::tile_at(stride, px, py);
            row_xor(grid.update(at, grid[at] ^ value), stride, x, y) == row_xor(grid, stride, x, y)
                ^ (if px <= x && py == y {
                value
            } else {
                0
            })
        }),
    decreases x + 1,
{
    let at = coalesce::tile_at(stride, px, py);
    let noted = grid.update(at, grid[at] ^ value);
    lemma_grid_index(stride, rows, px, py);
    if x < 0 {
        assert(0u64 ^ 0 == 0) by (bit_vector);
    } else {
        lemma_row_note(grid, stride, rows, px, py, value, x - 1, y);
        lemma_grid_index(stride, rows, x, y);
        let row = row_xor(grid, stride, x - 1, y);
        let cell = grid[coalesce::tile_at(stride, x, y)];
        if coalesce::tile_at(stride, x, y) == at {
            lemma_grid_injective(stride, x, y, px, py);
            assert((row ^ 0) ^ (cell ^ value) == (row ^ cell) ^ value) by (bit_vector);
        } else {
            assert(noted[coalesce::tile_at(stride, x, y)] == cell);
            assert((row ^ value) ^ cell == (row ^ cell) ^ value) by (bit_vector);
            assert((row ^ 0) ^ cell == (row ^ cell) ^ 0) by (bit_vector);
            assert(!(px == x && py == y));
        }
    }
}

/// What a value noted at a point adds to an area.
proof fn lemma_area_note(
    grid: Seq<u64>,
    stride: int,
    rows: int,
    px: int,
    py: int,
    value: u64,
    x: int,
    y: int,
)
    requires
        grid.len() == stride * rows,
        0 <= px < stride,
        0 <= py < rows,
        x < stride,
        y < rows,
    ensures
        ({
            let at = coalesce::tile_at(stride, px, py);
            area_xor(grid.update(at, grid[at] ^ value), stride, x, y) == area_xor(
                grid,
                stride,
                x,
                y,
            ) ^ (if px <= x && py <= y {
                value
            } else {
                0
            })
        }),
    decreases y + 1,
{
    if y < 0 {
        assert(0u64 ^ 0 == 0) by (bit_vector);
    } else {
        lemma_area_note(grid, stride, rows, px, py, value, x, y - 1);
        lemma_row_note(grid, stride, rows, px, py, value, x, y);
        let area = area_xor(grid, stride, x, y - 1);
        let row = row_xor(grid, stride, x, y);
        assert((area ^ value) ^ (row ^ 0) == (area ^ row) ^ value) by (bit_vector);
        assert((area ^ 0) ^ (row ^ value) == (area ^ row) ^ value) by (bit_vector);
        assert((area ^ 0) ^ (row ^ 0) == (area ^ row) ^ 0) by (bit_vector);
    }
}

/// A grid of zeros has no value anywhere.
proof fn lemma_area_of_zeros(grid: Seq<u64>, stride: int, rows: int, x: int, y: int)
    requires
        grid.len() == stride * rows,
        forall|i: int| 0 <= i < grid.len() ==> grid[i] == 0,
        x < stride,
        y < rows,
    ensures
        area_xor(grid, stride, x, y) == 0,
    decreases y + 1,
{
    assert(0u64 ^ 0 == 0) by (bit_vector);
    if y >= 0 {
        lemma_area_of_zeros(grid, stride, rows, x, y - 1);
        lemma_row_of_zeros(grid, stride, rows, x, y);
    }
}

proof fn lemma_row_of_zeros(grid: Seq<u64>, stride: int, rows: int, x: int, y: int)
    requires
        grid.len() == stride * rows,
        forall|i: int| 0 <= i < grid.len() ==> grid[i] == 0,
        x < stride,
        0 <= y < rows,
    ensures
        row_xor(grid, stride, x, y) == 0,
    decreases x + 1,
{
    assert(0u64 ^ 0 == 0) by (bit_vector);
    if x >= 0 {
        lemma_row_of_zeros(grid, stride, rows, x - 1, y);
        lemma_grid_index(stride, rows, x, y);
    }
}

/// An area, from the areas one column and one row less.
proof fn lemma_area_step(grid: Seq<u64>, stride: int, x: int, y: int)
    requires
        0 <= x,
        0 <= y,
    ensures
        area_xor(grid, stride, x, y) == grid[coalesce::tile_at(stride, x, y)] ^ area_xor(
            grid,
            stride,
            x - 1,
            y,
        ) ^ area_xor(grid, stride, x, y - 1) ^ area_xor(grid, stride, x - 1, y - 1),
{
    let cell = grid[coalesce::tile_at(stride, x, y)];
    let row = row_xor(grid, stride, x - 1, y);
    let above = area_xor(grid, stride, x, y - 1);
    let corner = area_xor(grid, stride, x - 1, y - 1);
    assert(above ^ (row ^ cell) == cell ^ (corner ^ row) ^ above ^ corner) by (bit_vector);
}

/// An area without a column or without a row is empty.
proof fn lemma_area_edge(grid: Seq<u64>, stride: int, x: int, y: int)
    requires
        x < 0 || y < 0,
    ensures
        area_xor(grid, stride, x, y) == 0,
    decreases y + 1,
{
    assert(0u64 ^ 0 == 0) by (bit_vector);
    if y >= 0 {
        lemma_area_edge(grid, stride, x, y - 1);
    }
}

/// The corners of a rectangle, each noted once, change exactly the areas of its tiles.
proof fn lemma_corner_parity(area: u64, value: u64, range: TileRange, x: int, y: int)
    requires
        range.x0 <= range.x1,
        range.y0 <= range.y1,
    ensures
        ({
            let at = |px: int, py: int|
                if px <= x && py <= y {
                    value
                } else {
                    0
                };
            area ^ at(range.x0, range.y0) ^ at(range.x1 + 1, range.y0) ^ at(
                range.x0,
                range.y1 + 1,
            ) ^ at(range.x1 + 1, range.y1 + 1) == area ^ (if range.covers(x, y) {
                value
            } else {
                0
            })
        }),
{
    assert(area ^ 0 ^ 0 ^ 0 ^ 0 == area ^ 0) by (bit_vector);
    assert(area ^ value ^ 0 ^ 0 ^ 0 == area ^ value) by (bit_vector);
    assert(area ^ value ^ value ^ 0 ^ 0 == area ^ 0) by (bit_vector);
    assert(area ^ value ^ 0 ^ value ^ 0 == area ^ 0) by (bit_vector);
    assert(area ^ value ^ value ^ value ^ value == area ^ 0) by (bit_vector);
}

impl Fingerprint {
    /// No commands on a clear viewport.
    pub fn new(viewport: PixelRegion, clear: [u64; 4]) -> (fingerprint: Fingerprint)
        requires
            tiles_fit(viewport),
        ensures
            fingerprint.wf(),
            fingerprint.viewport == viewport,
            fingerprint.tiles_x == tiles_along(viewport.spec_width()),
            fingerprint.tiles_y == tiles_along(viewport.spec_height()),
            fingerprint.hashes@ == Seq::new(
                (fingerprint.tiles_x * fingerprint.tiles_y) as nat,
                |i: int| clear_hash(clear@),
            ),
            forall|x: int, y: int|
                x <= fingerprint.tiles_x && y <= fingerprint.tiles_y
                    ==> #[trigger] fingerprint.tile_value(x, y) == 0,
            fingerprint.command_index == 0,
            !fingerprint.force_full,
            fingerprint.mask_depth == 0,
    {
        let tiles_x: u32 = tile_count(viewport.width());
        let tiles_y: u32 = tile_count(viewport.height());
        let mut hash: u64 = HASH_SEED;
        mix(&mut hash, clear[0]);
        mix(&mut hash, clear[1]);
        mix(&mut hash, clear[2]);
        mix(&mut hash, clear[3]);
        assert(tiles_x * tiles_y <= (tiles_x + 1) * (tiles_y + 1)
            && tiles_x < u32::MAX && tiles_y < u32::MAX) by (nonlinear_arith)
            requires
                (tiles_x + 1) * (tiles_y + 1) <= u32::MAX,
                0 <= tiles_x,
                0 <= tiles_y,
        ;
        let fingerprint = Fingerprint {
            viewport,
            tiles_x,
            tiles_y,
            hashes: vec![hash; (tiles_x * tiles_y) as usize],
            range_xor: vec![0; ((tiles_x + 1) * (tiles_y + 1)) as usize],
            command_index: 0,
            force_full: false,
            mask_depth: 0,
        };
        assert forall|x: int, y: int|
            x <= fingerprint.tiles_x && y <= fingerprint.tiles_y implies #[trigger] fingerprint.tile_value(
            x,
            y,
        ) == 0 by {
            lemma_area_of_zeros(fingerprint.range_xor@, tiles_x + 1, tiles_y + 1, x, y);
        }
        fingerprint
    }

    /// Notes a value at a point of the grid.
    fn note(&mut self, x: u32, y: u32, value: u64)
        requires
            old(self).wf(),
            x <= old(self).tiles_x,
            y <= old(self).tiles_y,
        ensures
            final(self).wf(),
            final(self).viewport == old(self).viewport,
            final(self).tiles_x == old(self).tiles_x,
            final(self).tiles_y == old(self).tiles_y,
            final(self).hashes@ == old(self).hashes@,
            final(self).command_index == old(self).command_index,
            final(self).force_full == old(self).force_full,
            final(self).mask_depth == old(self).mask_depth,
            forall|i: int, j: int|
                i <= old(self).tiles_x && j <= old(self).tiles_y ==> #[trigger] final(self).tile_value(i, j) == old(self).tile_value(i, j) ^ (if x <= i && y <= j {
                    value
                } else {
                    0
                }),
    {
        let ghost stride = self.tiles_x + 1;
        let ghost rows = self.tiles_y + 1;
        let ghost grid = self.range_xor@;
        proof {
            lemma_grid_index(stride, rows, x as int, y as int);
            assert(self.tiles_x + 1 <= u32::MAX) by (nonlinear_arith)
                requires
                    (self.tiles_x + 1) * (self.tiles_y + 1) <= u32::MAX,
                    0 <= self.tiles_x,
                    0 <= self.tiles_y,
            ;
        }
        let index: usize = (y * (self.tiles_x + 1) + x) as usize;
        let noted: u64 = self.range_xor[index] ^ value;
        self.range_xor.set(index, noted);
        assert forall|i: int, j: int|
            i <= old(self).tiles_x && j <= old(self).tiles_y implies #[trigger] self.tile_value(i, j)
            == old(self).tile_value(i, j) ^ (if x <= i && y <= j {
            value
        } else {
            0
        }) by {
            lemma_area_note(grid, stride, rows, x as int, y as int, value, i, j);
        }
    }

    /// Adds a stamp with the given signature, where the bounds meet the viewport. Bounds outside
    /// the viewport leave everything as it is, and are not counted.
    pub fn add_region(&mut self, signature: u64, bounds: Bounds)
        requires
            old(self).wf(),
            old(self).command_index < u64::MAX,
        ensures
            final(self).wf(),
            final(self).viewport == old(self).viewport,
            final(self).tiles_x == old(self).tiles_x,
            final(self).tiles_y == old(self).tiles_y,
            final(self).hashes@ == old(self).hashes@,
            final(self).force_full == old(self).force_full,
            final(self).mask_depth == old(self).mask_depth,
            !visible(old(self).viewport, bounds) ==> *final(self) == *old(self),
            visible(old(self).viewport, bounds) ==> {
                &&& final(self).command_index == old(self).command_index + 1
                &&& forall|x: int, y: int|
                    x <= old(self).tiles_x && y <= old(self).tiles_y ==> #[trigger] final(self).tile_value(x, y) == old(self).tile_value(x, y) ^ (if range_of(
                        old(self).viewport,
                        old(self).tiles_x as int,
                        old(self).tiles_y as int,
                        bounds,
                    ).covers(x, y) {
                        signature::mixed(signature, old(self).command_index)
                    } else {
                        0
                    })
            },
    {
        let left: i64 = if bounds.left <= self.viewport.x_min as i64 {
            self.viewport.x_min as i64
        } else {
            bounds.left
        };
        let top: i64 = if bounds.top <= self.viewport.y_min as i64 {
            self.viewport.y_min as i64
        } else {
            bounds.top
        };
        let right: i64 = if bounds.right <= self.viewport.x_max as i64 {
            bounds.right
        } else {
            self.viewport.x_max as i64
        };
        let bottom: i64 = if bounds.bottom <= self.viewport.y_max as i64 {
            bounds.bottom
        } else {
            self.viewport.y_max as i64
        };
        if !(left < right && top < bottom) {
            return ;
        }
        let x0: u32 = clamp_tile(left as u32 - self.viewport.x_min, self.tiles_x);
        let y0: u32 = clamp_tile(top as u32 - self.viewport.y_min, self.tiles_y);
        let x1: u32 = clamp_tile((right as u32 - 1) - self.viewport.x_min, self.tiles_x);
        let y1: u32 = clamp_tile((bottom as u32 - 1) - self.viewport.y_min, self.tiles_y);
        let ghost range = range_of(
            self.viewport,
            self.tiles_x as int,
            self.tiles_y as int,
            bounds,
        );
        assert(range == (TileRange { x0: x0 as int, y0: y0 as int, x1: x1 as int, y1: y1 as int }));
        let mut signature = signature;
        mix(&mut signature, self.command_index);
        self.command_index = self.command_index + 1;
        self.note(x0, y0, signature);
        self.note(x1 + 1, y0, signature);
        self.note(x0, y1 + 1, signature);
        self.note(x1 + 1, y1 + 1, signature);
        assert forall|x: int, y: int|
            x <= old(self).tiles_x && y <= old(self).tiles_y implies #[trigger] self.tile_value(x, y)
            == old(self).tile_value(x, y) ^ (if range.covers(x, y) {
            signature
        } else {
            0
        }) by {
            lemma_corner_parity(old(self).tile_value(x, y), signature, range, x, y);
        }
    }

    /// Mixes into the hash of each tile the stamps that cover it.
    pub fn materialize_ranges(&mut self)
        requires
            old(self).wf(),
        ensures
            final(self).wf(),
            final(self).viewport == old(self).viewport,
            final(self).tiles_x == old(self).tiles_x,
            final(self).tiles_y == old(self).tiles_y,
            final(self).command_index == old(self).command_index,
            final(self).force_full == old(self).force_full,
            final(self).mask_depth == old(self).mask_depth,
            forall|x: int, y: int|
                0 <= x < old(self).tiles_x && 0 <= y < old(self).tiles_y ==> #[trigger] final(self).tile_hash(x, y) == signature::mixed(old(self).tile_hash(x, y), old(self).tile_value(x, y)),
            forall|x: int, y: int|
                0 <= x <= old(self).tiles_x && 0 <= y <= old(self).tiles_y
                    ==> #[trigger] final(self).range_xor@[coalesce::tile_at(old(self).tiles_x + 1, x, y)]
                    == (if x < old(self).tiles_x && y < old(self).tiles_y {
                    old(self).tile_value(x, y)
                } else {
                    old(self).range_xor@[coalesce::tile_at(old(self).tiles_x + 1, x, y)]
                }),
    {
        let ghost tx = self.tiles_x as int;
        let ghost ty = self.tiles_y as int;
        let ghost grid = self.range_xor@;
        let ghost hashes = self.hashes@;
        proof {
            assert(self.tiles_x + 1 <= u32::MAX && self.tiles_x * self.tiles_y <= u32::MAX)
                by (nonlinear_arith)
                requires
                    (self.tiles_x + 1) * (self.tiles_y + 1) <= u32::MAX,
                    0 <= self.tiles_x,
                    0 <= self.tiles_y,
            ;
        }
        let stride: u32 = self.tiles_x + 1;
        let mut y: u32 = 0;
        while y < self.tiles_y
            invariant
                y <= self.tiles_y,
                self.wf(),
                tx == self.tiles_x,
                ty == self.tiles_y,
                stride == tx + 1,
                tx * ty <= u32::MAX,
                self.viewport == old(self).viewport,
                self.tiles_x == old(self).tiles_x,
                self.tiles_y == old(self).tiles_y,
                self.command_index == old(self).command_index,
                self.force_full == old(self).force_full,
                self.mask_depth == old(self).mask_depth,
                grid == old(self).range_xor@,
                hashes == old(self).hashes@,
                forall|i: int, j: int|
                    0 <= i < tx && 0 <= j < ty ==> #[trigger] self.hashes@[coalesce::tile_at(tx, i, j)] == (
                    if j < y {
                        signature::mixed(hashes[coalesce::tile_at(tx, i, j)], area_xor(grid, tx + 1, i, j))
                    } else {
                        hashes[coalesce::tile_at(tx, i, j)]
                    }),
                forall|i: int, j: int|
                    0 <= i <= tx && 0 <= j <= ty ==> #[trigger] self.range_xor@[coalesce::tile_at(
                        tx + 1,
                        i,
                        j,
                    )] == (if i < tx && j < y {
                        area_xor(grid, tx + 1, i, j)
                    } else {
                        grid[coalesce::tile_at(tx + 1, i, j)]
                    }),
            decreases self.tiles_y - y,
        {
            let mut x: u32 = 0;
            while x < self.tiles_x
                invariant
                    x <= self.tiles_x,
                    y < self.tiles_y,
                    self.wf(),
                    tx == self.tiles_x,
                    ty == self.tiles_y,
                    stride == tx + 1,
                    tx * ty <= u32::MAX,
                    self.viewport == old(self).viewport,
                    self.tiles_x == old(self).tiles_x,
                    self.tiles_y == old(self).tiles_y,
                    self.command_index == old(self).command_index,
                    self.force_full == old(self).force_full,
                    self.mask_depth == old(self).mask_depth,
                    grid == old(self).range_xor@,
                    hashes == old(self).hashes@,
                    forall|i: int, j: int|
                        0 <= i < tx && 0 <= j < ty ==> #[trigger] self.hashes@[coalesce::tile_at(tx, i, j)]
                            == (if j < y || (j == y && i < x) {
                            signature::mixed(hashes[coalesce::tile_at(tx, i, j)], area_xor(grid, tx + 1, i, j))
                        } else {
                            hashes[coalesce::tile_at(tx, i, j)]
                        }),
                    forall|i: int, j: int|
                        0 <= i <= tx && 0 <= j <= ty ==> #[trigger] self.range_xor@[coalesce::tile_at(
                            tx + 1,
                            i,
                            j,
                        )] == (if i < tx && (j < y || (j == y && i < x)) {
                            area_xor(grid, tx + 1, i, j)
                        } else {
                            grid[coalesce::tile_at(tx + 1, i, j)]
                        }),
                decreases self.tiles_x - x,
            {
                let ghost gx = x as int;
                let ghost gy = y as int;
                proof {
                    lemma_grid_index(tx + 1, ty + 1, gx, gy);
                    lemma_grid_index(tx, ty, gx, gy);
                    lemma_area_step(grid, tx + 1, gx, gy);
                    lemma_area_edge(grid, tx + 1, -1, gy);
                    lemma_area_edge(grid, tx + 1, gx, -1);
                    lemma_area_edge(grid, tx + 1, -1, gy - 1);
                    lemma_area_edge(grid, tx + 1, gx - 1, -1);
                    assert(coalesce::tile_at(tx + 1, gx - 1, gy) == coalesce::tile_at(tx + 1, gx, gy) - 1);
                    assert(coalesce::tile_at(tx + 1, gx, gy - 1) == coalesce::tile_at(tx + 1, gx, gy) - (tx + 1))
                        by (nonlinear_arith);
                    assert(coalesce::tile_at(tx + 1, gx - 1, gy - 1) == coalesce::tile_at(tx + 1, gx, gy) - (tx + 1)
                        - 1) by (nonlinear_arith);
                    assert(forall|a: u64| #[trigger] (a ^ 0) == a) by (bit_vector);
                }
                let index: usize = (y * stride + x) as usize;
                let mut value: u64 = self.range_xor[index];
                if x > 0 {
                    value = value ^ self.range_xor[index - 1];
                }
                if y > 0 {
                    value = value ^ self.range_xor[index - stride as usize];
                }
                if x > 0 && y > 0 {
                    value = value ^ self.range_xor[index - stride as usize - 1];
                }
                assert(value == area_xor(grid, tx + 1, gx, gy));
                let ghost range_before = self.range_xor@;
                let ghost hashes_before = self.hashes@;
                self.range_xor.set(index, value);
                let tile: usize = (y * self.tiles_x + x) as usize;
                let mut hash: u64 = self.hashes[tile];
                mix(&mut hash, value);
                self.hashes.set(tile, hash);
                assert forall|i: int, j: int| 0 <= i < tx && 0 <= j < ty implies #[trigger] self.hashes@[coalesce::tile_at(
                    tx,
                    i,
                    j,
                )] == (if j < y || (j == y && i < x + 1) {
                    signature::mixed(hashes[coalesce::tile_at(tx, i, j)], area_xor(grid, tx + 1, i, j))
                } else {
                    hashes[coalesce::tile_at(tx, i, j)]
                }) by {
                    lemma_grid_index(tx, ty, i, j);
                    assert(hashes_before[coalesce::tile_at(tx, i, j)] == (if j < y || (j == y && i < x) {
                        signature::mixed(hashes[coalesce::tile_at(tx, i, j)], area_xor(grid, tx + 1, i, j))
                    } else {
                        hashes[coalesce::tile_at(tx, i, j)]
                    }));
                    if coalesce::tile_at(tx, i, j) == tile {
                        lemma_grid_injective(tx, i, j, gx, gy);
                    }
                }
                assert forall|i: int, j: int| 0 <= i <= tx && 0 <= j <= ty implies #[trigger] self.range_xor@[coalesce::tile_at(
                    tx + 1,
                    i,
                    j,
                )] == (if i < tx && (j < y || (j == y && i < x + 1)) {
                    area_xor(grid, tx + 1, i, j)
                } else {
                    grid[coalesce::tile_at(tx + 1, i, j)]
                }) by {
                    lemma_grid_index(tx + 1, ty + 1, i, j);
                    assert(range_before[coalesce::tile_at(tx + 1, i, j)] == (if i < tx && (j < y || (j == y
                        && i < x)) {
                        area_xor(grid, tx + 1, i, j)
                    } else {
                        grid[coalesce::tile_at(tx + 1, i, j)]
                    }));
                    if coalesce::tile_at(tx + 1, i, j) == index {
                        lemma_grid_injective(tx + 1, i, j, gx, gy);
                    }
                }
                x = x + 1;
            }
            y = y + 1;
        }
    }
}

/// `after` is `before` with a stamp more, where the bounds meet the viewport. Nothing is said of
/// the masks and of forced draws.
spec fn stamped(before: Fingerprint, after: Fingerprint, signature: u64, bounds: Bounds) -> bool {
    let range = range_of(
        before.viewport,
        before.tiles_x as int,
        before.tiles_y as int,
        bounds,
    );
    &&& after.wf()
    &&& after.viewport == before.viewport
    &&& after.tiles_x == before.tiles_x
    &&& after.tiles_y == before.tiles_y
    &&& after.hashes@ == before.hashes@
    &&& if visible(before.viewport, bounds) {
        &&& after.command_index == before.command_index + 1
        &&& forall|x: int, y: int|
            x <= before.tiles_x && y <= before.tiles_y ==> #[trigger] after.tile_value(x, y)
                == before.tile_value(x, y) ^ (if range.covers(x, y) {
                signature::mixed(signature, before.command_index)
            } else {
                0
            })
    } else {
        &&& after.command_index == before.command_index
        &&& after.range_xor@ == before.range_xor@
    }
}

/// `after` is `before`, up to the masks and forced draws.
spec fn unstamped(before: Fingerprint, after: Fingerprint) -> bool {
    &&& after.wf()
    &&& after.viewport == before.viewport
    &&& after.tiles_x == before.tiles_x
    &&& after.tiles_y == before.tiles_y
    &&& after.hashes@ == before.hashes@
    &&& after.command_index == before.command_index
    &&& after.range_xor@ == before.range_xor@
}

proof fn lemma_cover_prefix(a: Seq<Stamp>, b: Seq<Stamp>, n: int, x: int, y: int)
    requires
        n <= a.len(),
        n <= b.len(),
        forall|i: int| 0 <= i < n ==> a[i] == b[i],
    ensures
        cover_xor(a, n, x, y) == cover_xor(b, n, x, y),
    decreases n,
{
    if n > 0 {
        lemma_cover_prefix(a, b, n - 1, x, y);
    }
}

proof fn lemma_stamp_count(
    viewport: PixelRegion,
    tiles_x: int,
    tiles_y: int,
    first: int,
    commands: Seq<Command>,
    n: nat,
)
    ensures
        stamps(viewport, tiles_x, tiles_y, first, commands, n).len() <= n,
    decreases n,
{
    if n > 0 {
        lemma_stamp_count(viewport, tiles_x, tiles_y, first, commands, (n - 1) as nat);
    }
}

proof fn lemma_masks_fit_each(depth: int, commands: Seq<Command>, n: nat, i: int)
    requires
        masks_fit(depth, commands, n),
        0 <= i < n <= commands.len(),
    ensures
        mask_depth(depth, commands, i + 1) <= u32::MAX,
        command_masks_fit(commands[i]),
    decreases n,
{
    if i < n - 1 {
        lemma_masks_fit_each(depth, commands, (n - 1) as nat, i);
    }
}

/// One command more, on the grid `before` and `after` it.
proof fn lemma_command_step(
    start: Fingerprint,
    before: Fingerprint,
    after: Fingerprint,
    commands: Seq<Command>,
    i: int,
)
    requires
        0 <= i < commands.len(),
        start.command_index + commands.len() <= u64::MAX,
        before.viewport == start.viewport,
        before.tiles_x == start.tiles_x,
        before.tiles_y == start.tiles_y,
        ({
            let done = stamps(
                start.viewport,
                start.tiles_x as int,
                start.tiles_y as int,
                start.command_index as int,
                commands,
                i as nat,
            );
            &&& before.command_index == start.command_index + done.len()
            &&& forall|x: int, y: int|
                x <= start.tiles_x && y <= start.tiles_y ==> #[trigger] before.tile_value(x, y)
                    == start.tile_value(x, y) ^ cover_xor(done, done.len() as int, x, y)
        }),
        match drawn(start.viewport, commands[i]) {
            Some((signature, bounds)) => stamped(before, after, signature, bounds),
            None => unstamped(before, after),
        },
    ensures
        ({
            let done = stamps(
                start.viewport,
                start.tiles_x as int,
                start.tiles_y as int,
                start.command_index as int,
                commands,
                (i + 1) as nat,
            );
            &&& after.command_index == start.command_index + done.len()
            &&& forall|x: int, y: int|
                x <= start.tiles_x && y <= start.tiles_y ==> #[trigger] after.tile_value(x, y)
                    == start.tile_value(x, y) ^ cover_xor(done, done.len() as int, x, y)
        }),
{
    let tx = start.tiles_x as int;
    let ty = start.tiles_y as int;
    let first = start.command_index as int;
    let prior = stamps(start.viewport, tx, ty, first, commands, i as nat);
    let done = stamps(start.viewport, tx, ty, first, commands, (i + 1) as nat);
    lemma_stamp_count(start.viewport, tx, ty, first, commands, i as nat);
    assert forall|x: int, y: int|
        x <= start.tiles_x && y <= start.tiles_y implies #[trigger] after.tile_value(x, y)
        == start.tile_value(x, y) ^ cover_xor(done, done.len() as int, x, y) by {
        let start_value = start.tile_value(x, y);
        let prior_value = cover_xor(prior, prior.len() as int, x, y);
        assert(before.tile_value(x, y) == start_value ^ prior_value);
        if let Some((signature, bounds)) = drawn(start.viewport, commands[i]) {
            if visible(start.viewport, bounds) {
                let stamp = done[prior.len() as int];
                let value = stamp.signature;
                lemma_cover_prefix(done, prior, prior.len() as int, x, y);
                assert((start_value ^ prior_value) ^ value == start_value ^ (prior_value ^ value))
                    by (bit_vector);
                assert((start_value ^ prior_value) ^ 0 == start_value ^ prior_value)
                    by (bit_vector);
            } else {
                assert(after.tile_value(x, y) == before.tile_value(x, y));
            }
        } else {
            assert(after.tile_value(x, y) == before.tile_value(x, y));
        }
    }
}

impl Fingerprint {
    /// The stamps that a list of commands leaves on the grid.
    pub open spec fn stamps_of(self, list: CommandList) -> Seq<Stamp> {
        stamps(
            self.viewport,
            self.tiles_x as int,
            self.tiles_y as int,
            self.command_index as int,
            list.commands@,
            list.commands@.len(),
        )
    }

    /// Adds the commands in order. Each leaves a stamp where it draws; a layer leaves one stamp
    /// over its whole extent, with a signature of all that is in it.
    pub fn commands(&mut self, commands: &CommandList)
        requires
            old(self).wf(),
            old(self).command_index + commands.commands@.len() <= u64::MAX,
            masks_fit(
                old(self).mask_depth as int,
                commands.commands@,
                commands.commands@.len(),
            ),
        ensures
            final(self).wf(),
            final(self).viewport == old(self).viewport,
            final(self).tiles_x == old(self).tiles_x,
            final(self).tiles_y == old(self).tiles_y,
            final(self).hashes@ == old(self).hashes@,
            final(self).command_index == old(self).command_index + old(self).stamps_of(
                *commands,
            ).len(),
            final(self).mask_depth == mask_depth(
                old(self).mask_depth as int,
                commands.commands@,
                commands.commands@.len() as int,
            ),
            final(self).force_full == (old(self).force_full || forces_full(
                old(self).mask_depth as int,
                commands.commands@,
                commands.commands@.len(),
            )),
            forall|x: int, y: int|
                x <= old(self).tiles_x && y <= old(self).tiles_y ==> #[trigger] final(self).tile_value(
                    x,
                    y,
                ) == old(self).tile_value(x, y) ^ cover_xor(
                    old(self).stamps_of(*commands),
                    old(self).stamps_of(*commands).len() as int,
                    x,
                    y,
                ),
        decreases commands, 0nat,
    {
        let ghost start = *self;
        let ghost all = commands.commands@;
        let mut i: usize = 0;
        assert(forall|a: u64| #[trigger] (a ^ 0) == a) by (bit_vector);
        while i < commands.commands.len()
            invariant
                i <= commands.commands.len(),
                all == commands.commands@,
                start == *old(self),
                self.wf(),
                start.command_index + all.len() <= u64::MAX,
                masks_fit(start.mask_depth as int, all, all.len()),
                self.viewport == start.viewport,
                self.tiles_x == start.tiles_x,
                self.tiles_y == start.tiles_y,
                self.hashes@ == start.hashes@,
                self.mask_depth == mask_depth(start.mask_depth as int, all, i as int),
                self.force_full == (start.force_full || forces_full(
                    start.mask_depth as int,
                    all,
                    i as nat,
                )),
                ({
                    let done = stamps(
                        start.viewport,
                        start.tiles_x as int,
                        start.tiles_y as int,
                        start.command_index as int,
                        all,
                        i as nat,
                    );
                    &&& self.command_index == start.command_index + done.len()
                    &&& forall|x: int, y: int|
                        x <= start.tiles_x && y <= start.tiles_y ==> #[trigger] self.tile_value(
                            x,
                            y,
                        ) == start.tile_value(x, y) ^ cover_xor(done, done.len() as int, x, y)
                }),
            decreases commands.commands.len() - i,
        {
            let ghost before = *self;
            proof {
                lemma_masks_fit_each(start.mask_depth as int, all, all.len(), i as int);
                lemma_stamp_count(
                    start.viewport,
                    start.tiles_x as int,
                    start.tiles_y as int,
                    start.command_index as int,
                    all,
                    i as nat,
                );
            }
            match &commands.commands[i] {
                Command::RenderBitmap { bitmap, placement, smoothing, pixel_snapping, bounds } => {
                    let mut signature = command_signature(1, &placement.matrix, &placement.color);
                    mix(&mut signature, bitmap.id);
                    mix(&mut signature, bitmap.generation);
                    mix(
                        &mut signature,
                        if *smoothing {
                            1
                        } else {
                            0
                        },
                    );
                    mix(&mut signature, snapping_id(*pixel_snapping));
                    self.add_region(signature, *bounds);
                },
                Command::RenderStage3D => {
                    self.force_full = true;
                },
                Command::RenderShape { shape, placement, bitmaps, bounds } => {
                    if let Some(bounds) = bounds {
                        let mut signature = command_signature(
                            2,
                            &placement.matrix,
                            &placement.color,
                        );
                        mix(&mut signature, *shape);
                        mix_bitmaps(&mut signature, bitmaps);
                        self.add_region(signature, *bounds);
                    }
                },
                Command::DrawRect { placement, bounds } => {
                    let signature = command_signature(3, &placement.matrix, &placement.color);
                    self.add_region(signature, *bounds);
                },
                Command::DrawLine { placement, bounds } => {
                    let signature = command_signature(4, &placement.matrix, &placement.color);
                    self.add_region(signature, *bounds);
                },
                Command::DrawLineRect { placement, bounds } => {
                    let signature = command_signature(5, &placement.matrix, &placement.color);
                    self.add_region(signature, *bounds);
                },
                Command::PushMask => {
                    self.mask_depth = self.mask_depth + 1;
                    self.force_full = self.force_full || self.mask_depth >= MASK_LIMIT;
                    self.add_region(6, viewport_bounds(self.viewport));
                },
                Command::ActivateMask => {
                    self.add_region(7, viewport_bounds(self.viewport));
                },
                Command::DeactivateMask => {
                    self.add_region(8, viewport_bounds(self.viewport));
                },
                Command::PopMask => {
                    self.add_region(9, viewport_bounds(self.viewport));
                    let ghost drawn_over = *self;
                    self.mask_depth = self.mask_depth.saturating_sub(1);
                    assert(forall|x: int, y: int| #[trigger] self.tile_value(x, y)
                        == drawn_over.tile_value(x, y));
                },
                Command::Blend { commands: layer, blend_mode, bounds } => {
                    let tag = blend_tag(*blend_mode);
                    if let BlendType::Shader = blend_mode {
                        self.force_full = true;
                    }
                    let signature = self.nested_signature(layer, tag);
                    self.add_region(signature, pixel_bounds(*bounds));
                },
                Command::RenderAlphaMask { maskee_commands, mask_commands, bounds } => {
                    let mut signature = self.nested_signature(maskee_commands, 24);
                    let mask_signature = self.nested_signature(mask_commands, 25);
                    mix(&mut signature, mask_signature);
                    self.add_region(signature, pixel_bounds(*bounds));
                },
            }
            assert(self.force_full == (before.force_full || command_forces_full(
                all[i as int],
                self.mask_depth as int,
            )));
            proof {
                lemma_command_step(start, before, *self, all, i as int);
            }
            i = i + 1;
        }
    }

    /// The signature of a layer. A layer that has to be drawn in full forces it for the frame.
    pub fn nested_signature(&mut self, commands: &CommandList, seed: u64) -> (signature: u64)
        requires
            old(self).wf(),
            list_masks_fit(*commands),
        ensures
            signature == layer_signature(old(self).viewport, *commands, seed),
            final(self).viewport == old(self).viewport,
            final(self).tiles_x == old(self).tiles_x,
            final(self).tiles_y == old(self).tiles_y,
            final(self).hashes == old(self).hashes,
            final(self).range_xor == old(self).range_xor,
            final(self).command_index == old(self).command_index,
            final(self).mask_depth == old(self).mask_depth,
            final(self).force_full == (old(self).force_full || list_forces_full(*commands)),
        decreases commands, 1nat,
    {
        let mut nested = Fingerprint {
            viewport: self.viewport,
            tiles_x: 1,
            tiles_y: 1,
            hashes: vec![seed; 1],
            range_xor: vec![0; 4],
            command_index: 0,
            force_full: false,
            mask_depth: 0,
        };
        proof {
            lemma_area_of_zeros(nested.range_xor@, 2, 2, 0, 0);
            assert(forall|a: u64| #[trigger] (0 ^ a) == a) by (bit_vector);
            assert(commands.commands.len() == commands.commands@.len());
        }
        nested.commands(commands);
        nested.materialize_ranges();
        self.force_full = self.force_full || nested.force_full;
        assert(nested.tile_hash(0, 0) == nested.hashes@[0]);
        nested.hashes[0]
    }

    /// Adds the commands and mixes what they leave into the hashes of the tiles.
    pub fn build(self, commands: &CommandList) -> (built: Fingerprint)
        requires
            self.wf(),
            self.command_index + commands.commands@.len() <= u64::MAX,
            masks_fit(self.mask_depth as int, commands.commands@, commands.commands@.len()),
        ensures
            built.wf(),
            built.viewport == self.viewport,
            built.tiles_x == self.tiles_x,
            built.tiles_y == self.tiles_y,
            built.command_index == self.command_index + self.stamps_of(*commands).len(),
            built.mask_depth == mask_depth(
                self.mask_depth as int,
                commands.commands@,
                commands.commands@.len() as int,
            ),
            built.force_full == (self.force_full || forces_full(
                self.mask_depth as int,
                commands.commands@,
                commands.commands@.len(),
            )),
            forall|x: int, y: int|
                0 <= x < self.tiles_x && 0 <= y < self.tiles_y ==> #[trigger] built.tile_hash(x, y)
                    == signature::mixed(
                    self.tile_hash(x, y),
                    self.tile_value(x, y) ^ cover_xor(
                        self.stamps_of(*commands),
                        self.stamps_of(*commands).len() as int,
                        x,
                        y,
                    ),
                ),
    {
        let mut built = self;
        built.commands(commands);
        built.materialize_ranges();
        built
    }
}

/// Mixes the bitmaps that a shape is filled with into its signature.
fn mix_bitmaps(hash: &mut u64, bitmaps: &Vec<BitmapRef>)
    ensures
        *final(hash) == mixed_bitmaps(*old(hash), bitmaps@, bitmaps@.len() as int),
{
    let mut i: usize = 0;
    while i < bitmaps.len()
        invariant
            i <= bitmaps.len(),
            *hash == mixed_bitmaps(*old(hash), bitmaps@, i as int),
        decreases bitmaps.len() - i,
    {
        mix(hash, bitmaps[i].id);
        mix(hash, bitmaps[i].generation);
        i = i + 1;
    }
}

/// How many tiles lie along an edge.
fn tile_count(length: u32) -> (count: u32)
    ensures
        count == tiles_along(length as int),
{
    if length % TILE_SIZE == 0 {
        length / TILE_SIZE
    } else {
        length / TILE_SIZE + 1
    }
}

/// The tile of a pixel, or the last tile.
fn clamp_tile(pixel: u32, tiles: u32) -> (tile: u32)
    requires
        0 < tiles,
    ensures
        tile == lesser(pixel as int / TILE_SIZE as int, tiles - 1),
{
    let tile: u32 = pixel / TILE_SIZE;
    if tile <= tiles - 1 {
        tile
    } else {
        tiles - 1
    }
}

/// What a stamp adds to a tile.
pub open spec fn share(stamp: Stamp, x: int, y: int) -> u64 {
    if stamp.range.covers(x, y) {
        stamp.signature
    } else {
        0
    }
}

proof fn lemma_cover_difference(
    a: Seq<Stamp>,
    b: Seq<Stamp>,
    k: int,
    n: int,
    x: int,
    y: int,
)
    requires
        a.len() == b.len(),
        0 <= k < a.len(),
        n <= a.len(),
        forall|i: int| 0 <= i < a.len() && i != k ==> a[i] == b[i],
    ensures
        cover_xor(a, n, x, y) ^ cover_xor(b, n, x, y) == (if k < n {
            share(a[k], x, y) ^ share(b[k], x, y)
        } else {
            0
        }),
    decreases n,
{
    if n <= 0 {
        assert(0u64 ^ 0 == 0) by (bit_vector);
    } else {
        lemma_cover_difference(a, b, k, n - 1, x, y);
        let rest_a = cover_xor(a, n - 1, x, y);
        let rest_b = cover_xor(b, n - 1, x, y);
        let last_a = share(a[n - 1], x, y);
        let last_b = share(b[n - 1], x, y);
        assert(rest_a ^ 0 == rest_a && rest_b ^ 0 == rest_b) by (bit_vector);
        assert((rest_a ^ last_a) ^ (rest_b ^ last_b) == (rest_a ^ rest_b) ^ (last_a ^ last_b))
            by (bit_vector);
        assert(last_a ^ last_a == 0) by (bit_vector);
        assert((rest_a ^ rest_b) ^ 0 == rest_a ^ rest_b) by (bit_vector);
        assert(0 ^ (last_a ^ last_b) == last_a ^ last_b) by (bit_vector);
    }
}

/// Where one stamp of a frame is replaced, the hashes of those tiles change to which the new one
/// adds something else, and no others.
pub proof fn changed_stamp_changes_its_tiles(
    hash: u64,
    a: Seq<Stamp>,
    b: Seq<Stamp>,
    k: int,
    x: int,
    y: int,
)
    requires
        a.len() == b.len(),
        0 <= k < a.len(),
        forall|i: int| 0 <= i < a.len() && i != k ==> a[i] == b[i],
    ensures
        signature::mixed(hash, cover_xor(a, a.len() as int, x, y)) != signature::mixed(
            hash,
            cover_xor(b, b.len() as int, x, y),
        ) <==> share(a[k], x, y) != share(b[k], x, y),
{
    let value_a = cover_xor(a, a.len() as int, x, y);
    let value_b = cover_xor(b, b.len() as int, x, y);
    lemma_cover_difference(a, b, k, a.len() as int, x, y);
    let share_a = share(a[k], x, y);
    let share_b = share(b[k], x, y);
    assert(value_a ^ value_b == 0 <==> value_a == value_b) by (bit_vector);
    assert(share_a ^ share_b == 0 <==> share_a == share_b) by (bit_vector);
    if signature::mixed(hash, value_a) == signature::mixed(hash, value_b) {
        signature::mixing_is_injective(hash, value_a, hash, value_b);
    }
}

/// Two frames that differ in one command, which draws something in both.
pub open spec fn differ_in_one(
    viewport: PixelRegion,
    a: Seq<Command>,
    b: Seq<Command>,
    k: int,
) -> bool {
    &&& a.len() == b.len() <= u64::MAX
    &&& 0 <= k < a.len()
    &&& forall|i: int| 0 <= i < a.len() && i != k ==> a[i] == b[i]
    &&& drawn(viewport, a[k]) is Some
    &&& drawn(viewport, b[k]) is Some
    &&& visible(viewport, drawn(viewport, a[k]).unwrap().1) == visible(
        viewport,
        drawn(viewport, b[k]).unwrap().1,
    )
}

/// The stamp of the command `k`, where it draws something visible.
pub open spec fn stamp_of(
    viewport: PixelRegion,
    tiles_x: int,
    tiles_y: int,
    commands: Seq<Command>,
    k: int,
) -> Stamp {
    let (signature, bounds) = drawn(viewport, commands[k]).unwrap();
    let number = stamps(viewport, tiles_x, tiles_y, 0, commands, k as nat).len();
    Stamp {
        range: range_of(viewport, tiles_x, tiles_y, bounds),
        signature: signature::mixed(signature, number as u64),
    }
}

proof fn lemma_stamps_of_changed_command(
    viewport: PixelRegion,
    tiles_x: int,
    tiles_y: int,
    a: Seq<Command>,
    b: Seq<Command>,
    k: int,
    n: nat,
)
    requires
        differ_in_one(viewport, a, b, k),
        n <= a.len(),
    ensures
        ({
            let of_a = stamps(viewport, tiles_x, tiles_y, 0, a, n);
            let of_b = stamps(viewport, tiles_x, tiles_y, 0, b, n);
            let p = stamps(viewport, tiles_x, tiles_y, 0, a, k as nat).len() as int;
            &&& of_a.len() == of_b.len() <= n
            &&& forall|i: int| 0 <= i < of_a.len() && i != p ==> of_a[i] == of_b[i]
            &&& n <= k ==> of_a == of_b
            &&& if k < n && visible(viewport, drawn(viewport, a[k]).unwrap().1) {
                &&& p < of_a.len()
                &&& of_a[p] == stamp_of(viewport, tiles_x, tiles_y, a, k)
                &&& of_b[p] == stamp_of(viewport, tiles_x, tiles_y, b, k)
            } else {
                of_a == of_b
            }
        }),
    decreases n,
{
    if n > 0 {
        let m = (n - 1) as nat;
        lemma_stamps_of_changed_command(viewport, tiles_x, tiles_y, a, b, k, m);
        if m == k {
            assert(stamps(viewport, tiles_x, tiles_y, 0, a, m) == stamps(
                viewport,
                tiles_x,
                tiles_y,
                0,
                b,
                m,
            ));
        } else if m > k {
            lemma_stamps_of_changed_command(viewport, tiles_x, tiles_y, a, b, k, k as nat);
        }
    }
}

/// Where one command of a frame is replaced, wherever the new one draws, the hashes of those tiles
/// change to which its stamp adds something else, and no others: none outside both the old and the
/// new range.
pub proof fn replaced_command_changes_its_tiles(
    viewport: PixelRegion,
    tiles_x: int,
    tiles_y: int,
    hash: u64,
    a: Seq<Command>,
    b: Seq<Command>,
    k: int,
    x: int,
    y: int,
)
    requires
        differ_in_one(viewport, a, b, k),
    ensures
        ({
            let of_a = stamps(viewport, tiles_x, tiles_y, 0, a, a.len());
            let of_b = stamps(viewport, tiles_x, tiles_y, 0, b, b.len());
            let old_stamp = stamp_of(viewport, tiles_x, tiles_y, a, k);
            let new_stamp = stamp_of(viewport, tiles_x, tiles_y, b, k);
            let changes = signature::mixed(hash, cover_xor(of_a, of_a.len() as int, x, y))
                != signature::mixed(hash, cover_xor(of_b, of_b.len() as int, x, y));
            &&& changes <==> visible(viewport, drawn(viewport, a[k]).unwrap().1) && share(
                old_stamp,
                x,
                y,
            ) != share(new_stamp, x, y)
            &&& changes ==> old_stamp.range.covers(x, y) || new_stamp.range.covers(x, y)
        }),
{
    let of_a = stamps(viewport, tiles_x, tiles_y, 0, a, a.len());
    let of_b = stamps(viewport, tiles_x, tiles_y, 0, b, b.len());
    lemma_stamps_of_changed_command(viewport, tiles_x, tiles_y, a, b, k, a.len());
    if visible(viewport, drawn(viewport, a[k]).unwrap().1) {
        let p = stamps(viewport, tiles_x, tiles_y, 0, a, k as nat).len() as int;
        changed_stamp_changes_its_tiles(hash, of_a, of_b, p, x, y);
    }
}

proof fn lemma_stamps_differ(
    viewport: PixelRegion,
    tiles_x: int,
    tiles_y: int,
    a: Seq<Command>,
    b: Seq<Command>,
    k: int,
)
    requires
        differ_in_one(viewport, a, b, k),
        drawn(viewport, a[k]).unwrap().0 != drawn(viewport, b[k]).unwrap().0,
    ensures
        stamp_of(viewport, tiles_x, tiles_y, a, k).signature != stamp_of(
            viewport,
            tiles_x,
            tiles_y,
            b,
            k,
        ).signature,
{
    lemma_stamps_of_changed_command(viewport, tiles_x, tiles_y, a, b, k, k as nat);
    let number = stamps(viewport, tiles_x, tiles_y, 0, a, k as nat).len() as u64;
    let old_signature = drawn(viewport, a[k]).unwrap().0;
    let new_signature = drawn(viewport, b[k]).unwrap().0;
    if signature::mixed(old_signature, number) == signature::mixed(new_signature, number) {
        signature::mixing_is_injective(old_signature, number, new_signature, number);
    }
}

/// A command that changes where it stands changes the hashes of all tiles that it touches, and
/// of no others.
pub proof fn changed_command_changes_its_tiles(
    viewport: PixelRegion,
    tiles_x: int,
    tiles_y: int,
    hash: u64,
    a: Seq<Command>,
    b: Seq<Command>,
    k: int,
    x: int,
    y: int,
)
    requires
        differ_in_one(viewport, a, b, k),
        drawn(viewport, a[k]).unwrap().0 != drawn(viewport, b[k]).unwrap().0,
        drawn(viewport, a[k]).unwrap().1 == drawn(viewport, b[k]).unwrap().1,
    ensures
        ({
            let of_a = stamps(viewport, tiles_x, tiles_y, 0, a, a.len());
            let of_b = stamps(viewport, tiles_x, tiles_y, 0, b, b.len());
            let bounds = drawn(viewport, a[k]).unwrap().1;
            signature::mixed(hash, cover_xor(of_a, of_a.len() as int, x, y)) != signature::mixed(
                hash,
                cover_xor(of_b, of_b.len() as int, x, y),
            ) <==> visible(viewport, bounds) && range_of(
                viewport,
                tiles_x,
                tiles_y,
                bounds,
            ).covers(x, y)
        }),
{
    replaced_command_changes_its_tiles(viewport, tiles_x, tiles_y, hash, a, b, k, x, y);
    lemma_stamps_differ(viewport, tiles_x, tiles_y, a, b, k);
}

/// A layer shows every change of one of its visible commands in its own signature, wherever in it
/// the command draws. By [`changed_command_changes_its_tiles`] the change then marks the whole
/// extent of the layer.
pub proof fn changed_command_changes_its_layer(
    viewport: PixelRegion,
    a: CommandList,
    b: CommandList,
    seed: u64,
    k: int,
)
    requires
        differ_in_one(viewport, a.commands@, b.commands@, k),
        visible(viewport, drawn(viewport, a.commands@[k]).unwrap().1),
        drawn(viewport, a.commands@[k]).unwrap().0 != drawn(viewport, b.commands@[k]).unwrap().0,
    ensures
        layer_signature(viewport, a, seed) != layer_signature(viewport, b, seed),
{
    replaced_command_changes_its_tiles(viewport, 1, 1, seed, a.commands@, b.commands@, k, 0, 0);
    lemma_stamps_differ(viewport, 1, 1, a.commands@, b.commands@, k);
    assert(stamp_of(viewport, 1, 1, a.commands@, k).range.covers(0, 0));
    assert(stamp_of(viewport, 1, 1, b.commands@, k).range.covers(0, 0));
}

/// The pixel `(px, py)` lies inside the bounds.
pub open spec fn inside(bounds: Bounds, px: int, py: int) -> bool {
    &&& bounds.left <= px < bounds.right
    &&& bounds.top <= py < bounds.bottom
}

/// On the grid of a viewport, the range of some bounds is made of the tiles with a pixel inside
/// the bounds: those of each such pixel, and none besides.
pub proof fn range_holds_touched_tiles(viewport: PixelRegion, bounds: Bounds, x: int, y: int)
    requires
        viewport.wf(),
        visible(viewport, bounds),
    ensures
        range_of(
            viewport,
            tiles_along(viewport.spec_width()),
            tiles_along(viewport.spec_height()),
            bounds,
        ).covers(x, y) <==> exists|px: int, py: int| #[trigger]
            viewport.contains(px, py) && inside(bounds, px, py) && (px - viewport.x_min)
                / TILE_SIZE as int == x && (py - viewport.y_min) / TILE_SIZE as int == y,
{
    let tiles_x = tiles_along(viewport.spec_width());
    let tiles_y = tiles_along(viewport.spec_height());
    let range = range_of(viewport, tiles_x, tiles_y, bounds);
    let left = greater(bounds.left as int, viewport.x_min as int);
    let top = greater(bounds.top as int, viewport.y_min as int);
    if range.covers(x, y) {
        let px = greater(left, viewport.x_min + x * TILE_SIZE);
        let py = greater(top, viewport.y_min + y * TILE_SIZE);
        assert(viewport.contains(px, py));
    }
}

/// Bounds that no pixel of the viewport lies inside are not visible, and all others are.
pub proof fn visible_means_some_pixel(viewport: PixelRegion, bounds: Bounds)
    ensures
        visible(viewport, bounds) <==> exists|px: int, py: int| #[trigger]
            viewport.contains(px, py) && inside(bounds, px, py),
{
    if visible(viewport, bounds) {
        let px = greater(bounds.left as int, viewport.x_min as int);
        let py = greater(bounds.top as int, viewport.y_min as int);
        assert(viewport.contains(px, py) && inside(bounds, px, py));
    }
}

/// The hashes of the tiles of a frame, row by row.
pub open spec fn frame_hashes(
    viewport: PixelRegion,
    clear: Seq<u64>,
    list: CommandList,
) -> Seq<u64> {
    let tiles_x = tiles_along(viewport.spec_width());
    let tiles_y = tiles_along(viewport.spec_height());
    let frame = stamps(viewport, tiles_x, tiles_y, 0, list.commands@, list.commands@.len());
    Seq::new(
        (tiles_x * tiles_y) as nat,
        |i: int|
            signature::mixed(
                clear_hash(clear),
                cover_xor(frame, frame.len() as int, i % tiles_x, i / tiles_x),
            ),
    )
}

/// The fingerprint of a frame.
pub fn frame_fingerprint(
    viewport: PixelRegion,
    clear: [u64; 4],
    commands: &CommandList,
) -> (fingerprint: Fingerprint)
    requires
        tiles_fit(viewport),
        list_masks_fit(*commands),
    ensures
        fingerprint.wf(),
        fingerprint.viewport == viewport,
        fingerprint.tiles_x == tiles_along(viewport.spec_width()),
        fingerprint.tiles_y == tiles_along(viewport.spec_height()),
        fingerprint.hashes@ == frame_hashes(viewport, clear@, *commands),
        fingerprint.force_full == list_forces_full(*commands),
{
    assert(commands.commands.len() == commands.commands@.len());
    let empty = Fingerprint::new(viewport, clear);
    let ghost plain = empty;
    let fingerprint = empty.build(commands);
    proof {
        let tx = fingerprint.tiles_x as int;
        let ty = fingerprint.tiles_y as int;
        let hashes = frame_hashes(viewport, clear@, *commands);
        assert(forall|a: u64| #[trigger] (0 ^ a) == a) by (bit_vector);
        assert forall|i: int| 0 <= i < hashes.len() implies fingerprint.hashes@[i] == hashes[i] by {
            let x = i % tx;
            let y = i / tx;
            assert(0 <= x < tx && 0 <= y < ty && i == y * tx + x) by (nonlinear_arith)
                requires
                    0 <= i < tx * ty,
                    0 <= tx,
                    x == i % tx,
                    y == i / tx,
            ;
            lemma_grid_index(tx, ty, x, y);
            assert(fingerprint.tile_hash(x, y) == fingerprint.hashes@[i]);
            assert(plain.tile_value(x, y) == 0);
        }
        assert(fingerprint.hashes@ =~= hashes);
    }
    fingerprint
}

proof fn lemma_mixed_differs(hash: u64, value: u64, other_hash: u64, other_value: u64)
    requires
        hash == other_hash <==> value != other_value,
    ensures
        signature::mixed(hash, value) != signature::mixed(other_hash, other_value),
{
    if signature::mixed(hash, value) == signature::mixed(other_hash, other_value) {
        signature::mixing_is_injective(hash, value, other_hash, other_value);
    }
}

proof fn lemma_bitmaps_keep_difference(hash: u64, other: u64, bitmaps: Seq<BitmapRef>, n: int)
    requires
        hash != other,
    ensures
        mixed_bitmaps(hash, bitmaps, n) != mixed_bitmaps(other, bitmaps, n),
    decreases n,
{
    if n > 0 {
        lemma_bitmaps_keep_difference(hash, other, bitmaps, n - 1);
        let a = mixed_bitmaps(hash, bitmaps, n - 1);
        let b = mixed_bitmaps(other, bitmaps, n - 1);
        let bitmap = bitmaps[n - 1];
        lemma_mixed_differs(a, bitmap.id, b, bitmap.id);
        lemma_mixed_differs(
            signature::mixed(a, bitmap.id),
            bitmap.generation,
            signature::mixed(b, bitmap.id),
            bitmap.generation,
        );
    }
}

proof fn lemma_changed_bitmap(
    hash: u64,
    a: Seq<BitmapRef>,
    b: Seq<BitmapRef>,
    k: int,
    n: int,
)
    requires
        a.len() == b.len(),
        0 <= k < a.len(),
        n <= a.len(),
        forall|i: int| 0 <= i < a.len() && i != k ==> a[i] == b[i],
        a[k].id == b[k].id <==> a[k].generation != b[k].generation,
    ensures
        k < n <==> mixed_bitmaps(hash, a, n) != mixed_bitmaps(hash, b, n),
    decreases n,
{
    if n > 0 {
        lemma_changed_bitmap(hash, a, b, k, n - 1);
        let rest_a = mixed_bitmaps(hash, a, n - 1);
        let rest_b = mixed_bitmaps(hash, b, n - 1);
        let last_a = a[n - 1];
        let last_b = b[n - 1];
        if k < n - 1 {
            lemma_mixed_differs(rest_a, last_a.id, rest_b, last_b.id);
        } else if k == n - 1 && last_a.id != last_b.id {
            lemma_mixed_differs(rest_a, last_a.id, rest_b, last_b.id);
        }
        if k <= n - 1 {
            lemma_mixed_differs(
                signature::mixed(rest_a, last_a.id),
                last_a.generation,
                signature::mixed(rest_b, last_b.id),
                last_b.generation,
            );
        }
    }
}

/// A bitmap shows which bitmap it is, how often that was written, whether it is smoothed and how
/// it is snapped: where one of the four changes, so does the signature.
pub proof fn changed_bitmap_changes_signature(
    viewport: PixelRegion,
    placement: Placement,
    bounds: Bounds,
    bitmap: BitmapRef,
    other_bitmap: BitmapRef,
    smoothing: bool,
    other_smoothing: bool,
    pixel_snapping: PixelSnapping,
    other_snapping: PixelSnapping,
)
    requires
        ({
            let id = bitmap.id != other_bitmap.id;
            let generation = bitmap.generation != other_bitmap.generation;
            let smooth = smoothing != other_smoothing;
            let snapped = pixel_snapping != other_snapping;
            ||| id && !generation && !smooth && !snapped
            ||| !id && generation && !smooth && !snapped
            ||| !id && !generation && smooth && !snapped
            ||| !id && !generation && !smooth && snapped
        }),
    ensures
        drawn(
            viewport,
            (Command::RenderBitmap { bitmap, placement, smoothing, pixel_snapping, bounds }),
        ).unwrap().0 != drawn(
            viewport,
            (Command::RenderBitmap {
                bitmap: other_bitmap,
                placement,
                smoothing: other_smoothing,
                pixel_snapping: other_snapping,
                bounds,
            }),
        ).unwrap().0,
{
    let plain = signature::signature_of(1, placement.matrix@, placement.color@);
    let id_a = signature::mixed(plain, bitmap.id);
    let id_b = signature::mixed(plain, other_bitmap.id);
    let written_a = signature::mixed(id_a, bitmap.generation);
    let written_b = signature::mixed(id_b, other_bitmap.generation);
    let smooth_a: u64 = if smoothing {
        1
    } else {
        0
    };
    let smooth_b: u64 = if other_smoothing {
        1
    } else {
        0
    };
    let snap_a = command::spec_snapping_id(pixel_snapping);
    let snap_b = command::spec_snapping_id(other_snapping);
    command::snapping_ids_differ(pixel_snapping, other_snapping);
    if bitmap.id != other_bitmap.id {
        lemma_mixed_differs(plain, bitmap.id, plain, other_bitmap.id);
    }
    if bitmap != other_bitmap {
        lemma_mixed_differs(id_a, bitmap.generation, id_b, other_bitmap.generation);
    }
    if bitmap != other_bitmap || smoothing != other_smoothing {
        lemma_mixed_differs(written_a, smooth_a, written_b, smooth_b);
    }
    lemma_mixed_differs(
        signature::mixed(written_a, smooth_a),
        snap_a,
        signature::mixed(written_b, smooth_b),
        snap_b,
    );
}

/// A shape shows which shape it is: where another one is drawn in its place, the signature
/// changes.
pub proof fn changed_shape_changes_signature(
    viewport: PixelRegion,
    placement: Placement,
    bitmaps: Vec<BitmapRef>,
    bounds: Bounds,
    shape: u64,
    other: u64,
)
    requires
        shape != other,
    ensures
        drawn(
            viewport,
            (Command::RenderShape { shape, placement, bitmaps, bounds: Some(bounds) }),
        ).unwrap().0 != drawn(
            viewport,
            (Command::RenderShape { shape: other, placement, bitmaps, bounds: Some(bounds) }),
        ).unwrap().0,
{
    let plain = signature::signature_of(2, placement.matrix@, placement.color@);
    lemma_mixed_differs(plain, shape, plain, other);
    lemma_bitmaps_keep_difference(
        signature::mixed(plain, shape),
        signature::mixed(plain, other),
        bitmaps@,
        bitmaps@.len() as int,
    );
}

/// A shape shows the bitmaps that fill it: where one of them is replaced or written again, the
/// signature changes.
pub proof fn changed_filling_changes_signature(
    viewport: PixelRegion,
    placement: Placement,
    bounds: Bounds,
    shape: u64,
    a: Vec<BitmapRef>,
    b: Vec<BitmapRef>,
    k: int,
)
    requires
        a@.len() == b@.len(),
        0 <= k < a@.len(),
        forall|i: int| 0 <= i < a@.len() && i != k ==> a@[i] == b@[i],
        a@[k].id == b@[k].id <==> a@[k].generation != b@[k].generation,
    ensures
        drawn(
            viewport,
            (Command::RenderShape { shape, placement, bitmaps: a, bounds: Some(bounds) }),
        ).unwrap().0 != drawn(
            viewport,
            (Command::RenderShape { shape, placement, bitmaps: b, bounds: Some(bounds) }),
        ).unwrap().0,
{
    let plain = signature::signature_of(2, placement.matrix@, placement.color@);
    lemma_changed_bitmap(signature::mixed(plain, shape), a@, b@, k, a@.len() as int);
}

/// Whether two placements differ in one of the six numbers of their matrices or one of the eight
/// of their color transforms.
pub open spec fn differ_in_one_number(a: Placement, b: Placement) -> bool {
    ||| a.color@ == b.color@ && exists|k: int|
        #![trigger a.matrix@[k]]
        0 <= k < 6 && a.matrix@[k] != b.matrix@[k] && forall|i: int|
            0 <= i < 6 && i != k ==> a.matrix@[i] == b.matrix@[i]
    ||| a.matrix@ == b.matrix@ && exists|k: int|
        #![trigger a.color@[k]]
        0 <= k < 8 && a.color@[k] != b.color@[k] && forall|i: int|
            0 <= i < 8 && i != k ==> a.color@[i] == b.color@[i]
}

proof fn lemma_placement_shows(tag: u64, a: Placement, b: Placement)
    requires
        differ_in_one_number(a, b),
    ensures
        signature::signature_of(tag, a.matrix@, a.color@) != signature::signature_of(
            tag,
            b.matrix@,
            b.color@,
        ),
{
    if a.color@ == b.color@ && exists|k: int|
        #![trigger a.matrix@[k]]
        0 <= k < 6 && a.matrix@[k] != b.matrix@[k] && forall|i: int|
            0 <= i < 6 && i != k ==> a.matrix@[i] == b.matrix@[i] {
        let k = choose|k: int|
            #![trigger a.matrix@[k]]
            0 <= k < 6 && a.matrix@[k] != b.matrix@[k] && forall|i: int|
                0 <= i < 6 && i != k ==> a.matrix@[i] == b.matrix@[i];
        signature::changed_matrix_changes_signature(tag, a.matrix@, b.matrix@, a.color@, k);
    } else {
        let k = choose|k: int|
            #![trigger a.color@[k]]
            0 <= k < 8 && a.color@[k] != b.color@[k] && forall|i: int|
                0 <= i < 8 && i != k ==> a.color@[i] == b.color@[i];
        signature::changed_color_changes_signature(tag, a.matrix@, a.color@, b.color@, k);
    }
}

/// The command, placed otherwise.
pub open spec fn placed_at(command: Command, placement: Placement) -> Command {
    match command {
        Command::RenderBitmap { bitmap, smoothing, pixel_snapping, bounds, .. } =>
            Command::RenderBitmap { bitmap, placement, smoothing, pixel_snapping, bounds },
        Command::RenderShape { shape, bitmaps, bounds, .. } => Command::RenderShape {
            shape,
            placement,
            bitmaps,
            bounds,
        },
        Command::DrawRect { bounds, .. } => Command::DrawRect { placement, bounds },
        Command::DrawLine { bounds, .. } => Command::DrawLine { placement, bounds },
        Command::DrawLineRect { bounds, .. } => Command::DrawLineRect { placement, bounds },
        other => other,
    }
}

/// Every command that is placed shows how: where one number of its matrix or of its color changes,
/// so does the signature.
pub proof fn changed_placement_changes_signature(
    viewport: PixelRegion,
    command: Command,
    a: Placement,
    b: Placement,
)
    requires
        command is RenderBitmap || command is RenderShape || command is DrawRect
            || command is DrawLine || command is DrawLineRect,
        drawn(viewport, command) is Some,
        differ_in_one_number(a, b),
    ensures
        drawn(viewport, placed_at(command, a)).unwrap().0 != drawn(
            viewport,
            placed_at(command, b),
        ).unwrap().0,
{
    match command {
        Command::RenderBitmap { bitmap, smoothing, pixel_snapping, .. } => {
            lemma_placement_shows(1, a, b);
            let plain_a = signature::signature_of(1, a.matrix@, a.color@);
            let plain_b = signature::signature_of(1, b.matrix@, b.color@);
            lemma_mixed_differs(plain_a, bitmap.id, plain_b, bitmap.id);
            let id_a = signature::mixed(plain_a, bitmap.id);
            let id_b = signature::mixed(plain_b, bitmap.id);
            lemma_mixed_differs(id_a, bitmap.generation, id_b, bitmap.generation);
            let written_a = signature::mixed(id_a, bitmap.generation);
            let written_b = signature::mixed(id_b, bitmap.generation);
            let smooth: u64 = if smoothing {
                1
            } else {
                0
            };
            lemma_mixed_differs(written_a, smooth, written_b, smooth);
            let snap = command::spec_snapping_id(pixel_snapping);
            lemma_mixed_differs(
                signature::mixed(written_a, smooth),
                snap,
                signature::mixed(written_b, smooth),
                snap,
            );
        },
        Command::RenderShape { shape, bitmaps, .. } => {
            lemma_placement_shows(2, a, b);
            let plain_a = signature::signature_of(2, a.matrix@, a.color@);
            let plain_b = signature::signature_of(2, b.matrix@, b.color@);
            lemma_mixed_differs(plain_a, shape, plain_b, shape);
            lemma_bitmaps_keep_difference(
                signature::mixed(plain_a, shape),
                signature::mixed(plain_b, shape),
                bitmaps@,
                bitmaps@.len() as int,
            );
        },
        Command::DrawRect { .. } => {
            lemma_placement_shows(3, a, b);
        },
        Command::DrawLine { .. } => {
            lemma_placement_shows(4, a, b);
        },
        Command::DrawLineRect { .. } => {
            lemma_placement_shows(5, a, b);
        },
        _ => {},
    }
}

/// A rectangle, a line and the outline of a rectangle are told apart however alike they are
/// placed, and so are the four commands for masks.
pub proof fn kinds_of_commands_differ(
    viewport: PixelRegion,
    placement: Placement,
    bounds: Bounds,
)
    ensures
        ({
            let rect = drawn(viewport, (Command::DrawRect { placement, bounds })).unwrap().0;
            let line = drawn(viewport, (Command::DrawLine { placement, bounds })).unwrap().0;
            let outline = drawn(
                viewport,
                (Command::DrawLineRect { placement, bounds }),
            ).unwrap().0;
            rect != line && rect != outline && line != outline
        }),
        ({
            let push = drawn(viewport, Command::PushMask).unwrap().0;
            let activate = drawn(viewport, Command::ActivateMask).unwrap().0;
            let deactivate = drawn(viewport, Command::DeactivateMask).unwrap().0;
            let pop = drawn(viewport, Command::PopMask).unwrap().0;
            &&& push != activate && push != deactivate && push != pop
            &&& activate != deactivate && activate != pop && deactivate != pop
        }),
{
    signature::changed_tag_changes_signature(3, 4, placement.matrix@, placement.color@);
    signature::changed_tag_changes_signature(3, 5, placement.matrix@, placement.color@);
    signature::changed_tag_changes_signature(4, 5, placement.matrix@, placement.color@);
}

/// A layer shows how it is blended: another way of blending changes the signature.
pub proof fn changed_blending_changes_signature(
    viewport: PixelRegion,
    commands: CommandList,
    bounds: PixelRegion,
    a: BlendType,
    b: BlendType,
)
    requires
        a != b,
    ensures
        drawn(viewport, (Command::Blend { commands, blend_mode: a, bounds })).unwrap().0 != drawn(
            viewport,
            (Command::Blend { commands, blend_mode: b, bounds }),
        ).unwrap().0,
{
    command::blend_tags_differ(a, b);
    let layer = stamps(viewport, 1, 1, 0, commands.commands@, commands.commands@.len());
    let value = cover_xor(layer, layer.len() as int, 0, 0);
    lemma_mixed_differs(
        command::spec_blend_tag(a),
        value,
        command::spec_blend_tag(b),
        value,
    );
}

/// A layer shows what is drawn in it, and an alpha mask what is drawn in each of its two layers:
/// where one visible command in there changes, so does the signature of the whole.
pub proof fn changed_content_changes_signature(
    viewport: PixelRegion,
    a: CommandList,
    b: CommandList,
    k: int,
    other: CommandList,
    blend_mode: BlendType,
    bounds: PixelRegion,
)
    requires
        differ_in_one(viewport, a.commands@, b.commands@, k),
        visible(viewport, drawn(viewport, a.commands@[k]).unwrap().1),
        drawn(viewport, a.commands@[k]).unwrap().0 != drawn(viewport, b.commands@[k]).unwrap().0,
    ensures
        drawn(viewport, (Command::Blend { commands: a, blend_mode, bounds })).unwrap().0 != drawn(
            viewport,
            (Command::Blend { commands: b, blend_mode, bounds }),
        ).unwrap().0,
        drawn(
            viewport,
            (Command::RenderAlphaMask { maskee_commands: a, mask_commands: other, bounds }),
        ).unwrap().0 != drawn(
            viewport,
            (Command::RenderAlphaMask { maskee_commands: b, mask_commands: other, bounds }),
        ).unwrap().0,
        drawn(
            viewport,
            (Command::RenderAlphaMask { maskee_commands: other, mask_commands: a, bounds }),
        ).unwrap().0 != drawn(
            viewport,
            (Command::RenderAlphaMask { maskee_commands: other, mask_commands: b, bounds }),
        ).unwrap().0,
{
    changed_command_changes_its_layer(viewport, a, b, command::spec_blend_tag(blend_mode), k);
    changed_command_changes_its_layer(viewport, a, b, 24, k);
    changed_command_changes_its_layer(viewport, a, b, 25, k);
    let mask = layer_signature(viewport, other, 25);
    lemma_mixed_differs(
        layer_signature(viewport, a, 24),
        mask,
        layer_signature(viewport, b, 24),
        mask,
    );
    let maskee = layer_signature(viewport, other, 24);
    lemma_mixed_differs(
        maskee,
        layer_signature(viewport, a, 25),
        maskee,
        layer_signature(viewport, b, 25),
    );
}

/// A command marks what it can draw to and nothing else: its own bounds, the extent of a layer, or
/// the whole viewport for what changes the mask. Scenes in three dimensions and shapes without
/// bounds mark nothing.
pub proof fn command_marks_its_bounds(viewport: PixelRegion, command: Command)
    ensures
        drawn(viewport, command) is None <==> command is RenderStage3D || (
        command matches Command::RenderShape { bounds, .. } && bounds is None),
        command matches Command::RenderBitmap { bounds, .. } ==> drawn(
            viewport,
            command,
        ).unwrap().1 == bounds,
        command matches Command::RenderShape { bounds, .. } ==> bounds matches Some(bounds)
            ==> drawn(viewport, command).unwrap().1 == bounds,
        command matches Command::DrawRect { bounds, .. } ==> drawn(viewport, command).unwrap().1
            == bounds,
        command matches Command::DrawLine { bounds, .. } ==> drawn(viewport, command).unwrap().1
            == bounds,
        command matches Command::DrawLineRect { bounds, .. } ==> drawn(
            viewport,
            command,
        ).unwrap().1 == bounds,
        command matches Command::Blend { bounds, .. } ==> drawn(viewport, command).unwrap().1 == (
        Bounds {
            left: bounds.x_min as i64,
            top: bounds.y_min as i64,
            right: bounds.x_max as i64,
            bottom: bounds.y_max as i64,
        }),
        command matches Command::RenderAlphaMask { bounds, .. } ==> drawn(
            viewport,
            command,
        ).unwrap().1 == (Bounds {
            left: bounds.x_min as i64,
            top: bounds.y_min as i64,
            right: bounds.x_max as i64,
            bottom: bounds.y_max as i64,
        }),
        command is PushMask || command is ActivateMask || command is DeactivateMask
            || command is PopMask ==> drawn(viewport, command).unwrap().1 == (Bounds {
            left: viewport.x_min as i64,
            top: viewport.y_min as i64,
            right: viewport.x_max as i64,
            bottom: viewport.y_max as i64,
        }),
{
}

/// Tiles of 32 pixels lie along an edge: as many as it takes, and none besides.
pub proof fn tiles_cover_an_edge(length: int)
    requires
        0 <= length,
    ensures
        tiles_along(length) * 32 >= length,
        (tiles_along(length) - 1) * 32 < length,
        tiles_along(length) >= 0,
{
}

/// Whether some pixel of the viewport lies inside the bounds and on the tile in column `x` and row
/// `y`, where tiles of 32 by 32 pixels are counted from the corner of the viewport.
pub open spec fn touches_tile(viewport: PixelRegion, bounds: Bounds, x: int, y: int) -> bool {
    exists|px: int, py: int| #[trigger]
        viewport.contains(px, py) && bounds.left <= px && px < bounds.right && bounds.top <= py
            && py < bounds.bottom && (px - viewport.x_min) / 32 == x && (py - viewport.y_min) / 32
            == y
}

proof fn lemma_touches_tile(viewport: PixelRegion, bounds: Bounds, x: int, y: int)
    requires
        viewport.wf(),
    ensures
        touches_tile(viewport, bounds, x, y) <==> visible(viewport, bounds) && range_of(
            viewport,
            tiles_along(viewport.spec_width()),
            tiles_along(viewport.spec_height()),
            bounds,
        ).covers(x, y),
{
    visible_means_some_pixel(viewport, bounds);
    if touches_tile(viewport, bounds, x, y) {
        let (px, py) = choose|px: int, py: int| #[trigger]
            viewport.contains(px, py) && bounds.left <= px && px < bounds.right && bounds.top <= py
                && py < bounds.bottom && (px - viewport.x_min) / 32 == x && (py - viewport.y_min)
                / 32 == y;
        assert(viewport.contains(px, py) && inside(bounds, px, py));
        range_holds_touched_tiles(viewport, bounds, x, y);
    }
    if visible(viewport, bounds) {
        range_holds_touched_tiles(viewport, bounds, x, y);
        if range_of(
            viewport,
            tiles_along(viewport.spec_width()),
            tiles_along(viewport.spec_height()),
            bounds,
        ).covers(x, y) {
            let (px, py) = choose|px: int, py: int| #[trigger]
                viewport.contains(px, py) && inside(bounds, px, py) && (px - viewport.x_min)
                    / TILE_SIZE as int == x && (py - viewport.y_min) / TILE_SIZE as int == y;
            assert(viewport.contains(px, py) && bounds.left <= px && px < bounds.right);
        }
    }
}

proof fn lemma_tile_place(tiles_x: int, tiles_y: int, x: int, y: int)
    requires
        0 <= x < tiles_x,
        0 <= y < tiles_y,
    ensures
        0 <= y * tiles_x + x < tiles_x * tiles_y,
        (y * tiles_x + x) % tiles_x == x,
        (y * tiles_x + x) / tiles_x == y,
{
    lemma_grid_index(tiles_x, tiles_y, x, y);
    vstd::arithmetic::div_mod::lemma_fundamental_div_mod_converse(
        y * tiles_x + x,
        tiles_x,
        y,
        x,
    );
}

/// A frame has one hash for each tile of 32 by 32 pixels, row by row. Where one command of the
/// frame changes what it draws but not where, the hashes of the tiles change on which it has a
/// pixel, and of no others.
pub proof fn changed_command_shows_in_frame(
    viewport: PixelRegion,
    clear: Seq<u64>,
    a: CommandList,
    b: CommandList,
    k: int,
    x: int,
    y: int,
)
    requires
        viewport.wf(),
        differ_in_one(viewport, a.commands@, b.commands@, k),
        drawn(viewport, a.commands@[k]).unwrap().0 != drawn(viewport, b.commands@[k]).unwrap().0,
        drawn(viewport, a.commands@[k]).unwrap().1 == drawn(viewport, b.commands@[k]).unwrap().1,
        0 <= x,
        x * 32 < viewport.x_max - viewport.x_min,
        0 <= y,
        y * 32 < viewport.y_max - viewport.y_min,
    ensures
        ({
            let columns = (viewport.x_max - viewport.x_min + 31) / 32;
            let rows = (viewport.y_max - viewport.y_min + 31) / 32;
            let of_a = frame_hashes(viewport, clear, a);
            let of_b = frame_hashes(viewport, clear, b);
            &&& of_a.len() == columns * rows
            &&& of_b.len() == columns * rows
            &&& of_a[y * columns + x] != of_b[y * columns + x] <==> touches_tile(
                viewport,
                drawn(viewport, a.commands@[k]).unwrap().1,
                x,
                y,
            )
        }),
{
    let tiles_x = tiles_along(viewport.spec_width());
    let tiles_y = tiles_along(viewport.spec_height());
    lemma_tile_place(tiles_x, tiles_y, x, y);
    lemma_touches_tile(viewport, drawn(viewport, a.commands@[k]).unwrap().1, x, y);
    changed_command_changes_its_tiles(
        viewport,
        tiles_x,
        tiles_y,
        clear_hash(clear),
        a.commands@,
        b.commands@,
        k,
        x,
        y,
    );
}

/// Where a shape takes the place of another one, exactly the tiles on which it has a pixel change.
pub proof fn changed_shape_shows_in_frame(
    viewport: PixelRegion,
    clear: Seq<u64>,
    a: CommandList,
    b: CommandList,
    k: int,
    x: int,
    y: int,
)
    requires
        viewport.wf(),
        a.commands@.len() == b.commands@.len() <= u64::MAX,
        0 <= k < a.commands@.len(),
        forall|i: int| 0 <= i < a.commands@.len() && i != k ==> a.commands@[i] == b.commands@[i],
        a.commands@[k] is RenderShape,
        b.commands@[k] is RenderShape,
        a.commands@[k]->RenderShape_shape != b.commands@[k]->RenderShape_shape,
        a.commands@[k]->RenderShape_placement == b.commands@[k]->RenderShape_placement,
        a.commands@[k]->RenderShape_bitmaps == b.commands@[k]->RenderShape_bitmaps,
        a.commands@[k]->RenderShape_bounds is Some,
        a.commands@[k]->RenderShape_bounds == b.commands@[k]->RenderShape_bounds,
        0 <= x,
        x * 32 < viewport.x_max - viewport.x_min,
        0 <= y,
        y * 32 < viewport.y_max - viewport.y_min,
    ensures
        ({
            let columns = (viewport.x_max - viewport.x_min + 31) / 32;
            frame_hashes(viewport, clear, a)[y * columns + x] != frame_hashes(viewport, clear, b)[y
                * columns + x] <==> touches_tile(
                viewport,
                a.commands@[k]->RenderShape_bounds.unwrap(),
                x,
                y,
            )
        }),
{
    let old_command = a.commands@[k];
    let new_command = b.commands@[k];
    let bounds = old_command->RenderShape_bounds.unwrap();
    command_marks_its_bounds(viewport, old_command);
    command_marks_its_bounds(viewport, new_command);
    changed_shape_changes_signature(
        viewport,
        old_command->RenderShape_placement,
        old_command->RenderShape_bitmaps,
        bounds,
        old_command->RenderShape_shape,
        new_command->RenderShape_shape,
    );
    assert(old_command == (Command::RenderShape {
        shape: old_command->RenderShape_shape,
        placement: old_command->RenderShape_placement,
        bitmaps: old_command->RenderShape_bitmaps,
        bounds: Some(bounds),
    }));
    assert(new_command == (Command::RenderShape {
        shape: new_command->RenderShape_shape,
        placement: old_command->RenderShape_placement,
        bitmaps: old_command->RenderShape_bitmaps,
        bounds: Some(bounds),
    }));
    changed_command_shows_in_frame(viewport, clear, a, b, k, x, y);
}

/// Another clear color shows everywhere: where one of its four components changes, so do the
/// hashes of all tiles.
pub proof fn changed_clear_color_changes_every_tile(
    viewport: PixelRegion,
    a: Seq<u64>,
    b: Seq<u64>,
    list: CommandList,
    k: int,
    i: int,
)
    requires
        a.len() == 4,
        b.len() == 4,
        0 <= k < 4,
        a[k] != b[k],
        forall|j: int| 0 <= j < 4 && j != k ==> a[j] == b[j],
        0 <= i < frame_hashes(viewport, a, list).len(),
    ensures
        frame_hashes(viewport, a, list)[i] != frame_hashes(viewport, b, list)[i],
{
    let a0 = signature::mixed(HASH_SEED, a[0]);
    let b0 = signature::mixed(HASH_SEED, b[0]);
    let a1 = signature::mixed(a0, a[1]);
    let b1 = signature::mixed(b0, b[1]);
    let a2 = signature::mixed(a1, a[2]);
    let b2 = signature::mixed(b1, b[2]);
    if k == 0 {
        lemma_mixed_differs(HASH_SEED, a[0], HASH_SEED, b[0]);
    }
    if k <= 1 {
        lemma_mixed_differs(a0, a[1], b0, b[1]);
    }
    if k <= 2 {
        lemma_mixed_differs(a1, a[2], b1, b[2]);
    }
    lemma_mixed_differs(a2, a[3], b2, b[3]);
    let tiles_x = tiles_along(viewport.spec_width());
    let tiles_y = tiles_along(viewport.spec_height());
    let frame = stamps(viewport, tiles_x, tiles_y, 0, list.commands@, list.commands@.len());
    let value = cover_xor(frame, frame.len() as int, i % tiles_x, i / tiles_x);
    lemma_mixed_differs(clear_hash(a), value, clear_hash(b), value);
}

/// How many of the first `n` commands draw something visible.
pub open spec fn visible_count(viewport: PixelRegion, commands: Seq<Command>, n: nat) -> nat
    decreases n,
{
    if n == 0 {
        0
    } else {
        let rest = visible_count(viewport, commands, (n - 1) as nat);
        if n <= commands.len() && drawn(viewport, commands[n - 1]) is Some && visible(
            viewport,
            drawn(viewport, commands[n - 1]).unwrap().1,
        ) {
            rest + 1
        } else {
            rest
        }
    }
}

proof fn lemma_stamps_are_counted(
    viewport: PixelRegion,
    tiles_x: int,
    tiles_y: int,
    first: int,
    commands: Seq<Command>,
    n: nat,
)
    ensures
        stamps(viewport, tiles_x, tiles_y, first, commands, n).len() == visible_count(
            viewport,
            commands,
            n,
        ),
    decreases n,
{
    if n > 0 {
        lemma_stamps_are_counted(viewport, tiles_x, tiles_y, first, commands, (n - 1) as nat);
    }
}

proof fn lemma_same_stamps(
    viewport: PixelRegion,
    tiles_x: int,
    tiles_y: int,
    first: int,
    a: Seq<Command>,
    b: Seq<Command>,
    n: nat,
)
    requires
        n <= a.len(),
        n <= b.len(),
        forall|i: int| 0 <= i < n ==> a[i] == b[i],
    ensures
        stamps(viewport, tiles_x, tiles_y, first, a, n) == stamps(
            viewport,
            tiles_x,
            tiles_y,
            first,
            b,
            n,
        ),
        visible_count(viewport, a, n) == visible_count(viewport, b, n),
    decreases n,
{
    if n > 0 {
        lemma_same_stamps(viewport, tiles_x, tiles_y, first, a, b, (n - 1) as nat);
    }
}

proof fn lemma_stamps_push(
    viewport: PixelRegion,
    tiles_x: int,
    tiles_y: int,
    commands: Seq<Command>,
    command: Command,
)
    requires
        drawn(viewport, command) is Some,
        visible(viewport, drawn(viewport, command).unwrap().1),
    ensures
        stamps(viewport, tiles_x, tiles_y, 0, commands.push(command), commands.len() + 1) == stamps(
            viewport,
            tiles_x,
            tiles_y,
            0,
            commands,
            commands.len(),
        ).push(
            Stamp {
                range: range_of(
                    viewport,
                    tiles_x,
                    tiles_y,
                    drawn(viewport, command).unwrap().1,
                ),
                signature: signature::mixed(
                    drawn(viewport, command).unwrap().0,
                    visible_count(viewport, commands, commands.len()) as u64,
                ),
            },
        ),
{
    let grown = commands.push(command);
    lemma_same_stamps(viewport, tiles_x, tiles_y, 0, commands, grown, commands.len());
    lemma_stamps_are_counted(viewport, tiles_x, tiles_y, 0, commands, commands.len());
}

proof fn lemma_cover_push(frame: Seq<Stamp>, stamp: Stamp, x: int, y: int)
    ensures
        cover_xor(frame.push(stamp), frame.len() as int + 1, x, y) == (if stamp.range.covers(x, y) {
            cover_xor(frame, frame.len() as int, x, y) ^ stamp.signature
        } else {
            cover_xor(frame, frame.len() as int, x, y)
        }),
{
    lemma_same_cover(frame, frame.push(stamp), frame.len() as int, x, y);
}

proof fn lemma_same_cover(a: Seq<Stamp>, b: Seq<Stamp>, n: int, x: int, y: int)
    requires
        n <= a.len(),
        n <= b.len(),
        forall|i: int| 0 <= i < n ==> a[i] == b[i],
    ensures
        cover_xor(a, n, x, y) == cover_xor(b, n, x, y),
    decreases n,
{
    if n > 0 {
        lemma_same_cover(a, b, n - 1, x, y);
    }
}

/// A command that is added at the end of a frame changes the tiles on which it has a pixel, and no
/// others. The one exception is a command whose signature happens to be the number of visible
/// commands before it: it changes nothing.
pub proof fn added_command_shows_in_frame(
    viewport: PixelRegion,
    clear: Seq<u64>,
    list: CommandList,
    grown: CommandList,
    command: Command,
    x: int,
    y: int,
)
    requires
        viewport.wf(),
        grown.commands@ == list.commands@.push(command),
        drawn(viewport, command) is Some,
        0 <= x,
        x * 32 < viewport.x_max - viewport.x_min,
        0 <= y,
        y * 32 < viewport.y_max - viewport.y_min,
    ensures
        ({
            let columns = (viewport.x_max - viewport.x_min + 31) / 32;
            let number = visible_count(viewport, list.commands@, list.commands@.len());
            frame_hashes(viewport, clear, list)[y * columns + x] != frame_hashes(
                viewport,
                clear,
                grown,
            )[y * columns + x] <==> touches_tile(
                viewport,
                drawn(viewport, command).unwrap().1,
                x,
                y,
            ) && drawn(viewport, command).unwrap().0 != number as u64
        }),
{
    let tiles_x = tiles_along(viewport.spec_width());
    let tiles_y = tiles_along(viewport.spec_height());
    let (own, bounds) = drawn(viewport, command).unwrap();
    let number = visible_count(viewport, list.commands@, list.commands@.len()) as u64;
    lemma_tile_place(tiles_x, tiles_y, x, y);
    lemma_touches_tile(viewport, bounds, x, y);
    let before = stamps(viewport, tiles_x, tiles_y, 0, list.commands@, list.commands@.len());
    let after = stamps(viewport, tiles_x, tiles_y, 0, grown.commands@, grown.commands@.len());
    let value = cover_xor(before, before.len() as int, x, y);
    if visible(viewport, bounds) {
        lemma_stamps_push(viewport, tiles_x, tiles_y, list.commands@, command);
        let stamp = after.last();
        lemma_cover_push(before, stamp, x, y);
        let added = stamp.signature;
        lemma_mixed_zero(own, number);
        assert(value ^ added == value <==> added == 0) by (bit_vector);
        if added != 0 {
            lemma_mixed_differs(clear_hash(clear), value, clear_hash(clear), value ^ added);
        }
    } else {
        lemma_same_stamps(
            viewport,
            tiles_x,
            tiles_y,
            0,
            list.commands@,
            grown.commands@,
            list.commands@.len(),
        );
    }
}

proof fn lemma_mixed_zero(hash: u64, value: u64)
    ensures
        signature::mixed(hash, value) == 0 <==> hash == value,
{
    assert(value ^ value == 0) by (bit_vector);
    assert(0u64.wrapping_mul(signature::HASH_FACTOR) == 0);
    if signature::mixed(hash, value) == 0 {
        signature::mixing_is_injective(hash, value, value, value);
    }
}

/// Drawing the same again does not take it back: a frame with a command twice at its end differs
/// on the tiles of the command from the frame without either.
pub proof fn repeated_command_does_not_cancel_out(
    viewport: PixelRegion,
    clear: Seq<u64>,
    list: CommandList,
    twice: CommandList,
    command: Command,
    x: int,
    y: int,
)
    requires
        viewport.wf(),
        twice.commands@ == list.commands@.push(command).push(command),
        list.commands@.len() < u64::MAX,
        drawn(viewport, command) is Some,
        0 <= x,
        x * 32 < viewport.x_max - viewport.x_min,
        0 <= y,
        y * 32 < viewport.y_max - viewport.y_min,
    ensures
        ({
            let columns = (viewport.x_max - viewport.x_min + 31) / 32;
            frame_hashes(viewport, clear, list)[y * columns + x] != frame_hashes(
                viewport,
                clear,
                twice,
            )[y * columns + x] <==> touches_tile(
                viewport,
                drawn(viewport, command).unwrap().1,
                x,
                y,
            )
        }),
{
    let tiles_x = tiles_along(viewport.spec_width());
    let tiles_y = tiles_along(viewport.spec_height());
    let (own, bounds) = drawn(viewport, command).unwrap();
    let commands = list.commands@;
    let once = commands.push(command);
    lemma_tile_place(tiles_x, tiles_y, x, y);
    lemma_touches_tile(viewport, bounds, x, y);
    let before = stamps(viewport, tiles_x, tiles_y, 0, commands, commands.len());
    let middle = stamps(viewport, tiles_x, tiles_y, 0, once, once.len());
    let after = stamps(viewport, tiles_x, tiles_y, 0, twice.commands@, twice.commands@.len());
    if visible(viewport, bounds) {
        lemma_stamps_push(viewport, tiles_x, tiles_y, commands, command);
        lemma_stamps_push(viewport, tiles_x, tiles_y, once, command);
        lemma_same_stamps(viewport, tiles_x, tiles_y, 0, commands, once, commands.len());
        lemma_visible_count_bound(viewport, commands, commands.len());
        let number = visible_count(viewport, commands, commands.len()) as u64;
        assert(visible_count(viewport, once, once.len()) == number + 1);
        let first = signature::mixed(own, number);
        let second = signature::mixed(own, (number + 1) as u64);
        lemma_mixed_differs(own, number, own, (number + 1) as u64);
        let value = cover_xor(before, before.len() as int, x, y);
        lemma_cover_push(before, middle.last(), x, y);
        lemma_cover_push(middle, after.last(), x, y);
        assert(value ^ first ^ second == value <==> first == second) by (bit_vector);
        if range_of(viewport, tiles_x, tiles_y, bounds).covers(x, y) {
            lemma_mixed_differs(
                clear_hash(clear),
                value,
                clear_hash(clear),
                value ^ first ^ second,
            );
        }
    } else {
        lemma_same_stamps(
            viewport,
            tiles_x,
            tiles_y,
            0,
            commands,
            twice.commands@,
            commands.len(),
        );
        reveal_with_fuel(stamps, 3);
    }
}

proof fn lemma_visible_count_bound(viewport: PixelRegion, commands: Seq<Command>, n: nat)
    ensures
        visible_count(viewport, commands, n) <= n,
    decreases n,
{
    if n > 0 {
        lemma_visible_count_bound(viewport, commands, (n - 1) as nat);
    }
}

proof fn lemma_stamps_without(
    viewport: PixelRegion,
    tiles_x: int,
    tiles_y: int,
    first: int,
    commands: Seq<Command>,
    k: int,
    n: nat,
)
    requires
        0 <= k < n <= commands.len(),
        drawn(viewport, commands[k]) is Some ==> !visible(
            viewport,
            drawn(viewport, commands[k]).unwrap().1,
        ),
    ensures
        stamps(viewport, tiles_x, tiles_y, first, commands, n) == stamps(
            viewport,
            tiles_x,
            tiles_y,
            first,
            commands.remove(k),
            (n - 1) as nat,
        ),
    decreases n,
{
    let rest = commands.remove(k);
    if n - 1 == k {
        lemma_same_stamps(viewport, tiles_x, tiles_y, first, commands, rest, k as nat);
    } else {
        lemma_stamps_without(viewport, tiles_x, tiles_y, first, commands, k, (n - 1) as nat);
        assert(commands[n - 1] == rest[n - 2]);
    }
}

/// What draws nothing visible leaves no trace: without it, all hashes are the same.
pub proof fn invisible_command_leaves_no_trace(
    viewport: PixelRegion,
    clear: Seq<u64>,
    list: CommandList,
    rest: CommandList,
    k: int,
)
    requires
        0 <= k < list.commands@.len(),
        rest.commands@ == list.commands@.remove(k),
        drawn(viewport, list.commands@[k]) is Some ==> forall|px: int, py: int| #[trigger]
            viewport.contains(px, py) ==> !inside(
                drawn(viewport, list.commands@[k]).unwrap().1,
                px,
                py,
            ),
    ensures
        frame_hashes(viewport, clear, list) == frame_hashes(viewport, clear, rest),
{
    if drawn(viewport, list.commands@[k]) is Some {
        visible_means_some_pixel(viewport, drawn(viewport, list.commands@[k]).unwrap().1);
    }
    let tiles_x = tiles_along(viewport.spec_width());
    let tiles_y = tiles_along(viewport.spec_height());
    lemma_stamps_without(
        viewport,
        tiles_x,
        tiles_y,
        0,
        list.commands@,
        k,
        list.commands@.len(),
    );
}

/// Masks are counted: each push is one more, each pop one less but never fewer than none, and
/// nothing else changes the count.
pub proof fn masks_are_counted(depth: int, commands: Seq<Command>, n: int)
    requires
        0 < n <= commands.len(),
        0 <= depth,
    ensures
        mask_depth(depth, commands, 0) == depth,
        mask_depth(depth, commands, n) >= 0,
        ({
            let before = mask_depth(depth, commands, n - 1);
            let after = mask_depth(depth, commands, n);
            &&& commands[n - 1] is PushMask ==> after == before + 1
            &&& commands[n - 1] is PopMask && before == 0 ==> after == 0
            &&& commands[n - 1] is PopMask && before > 0 ==> after == before - 1
            &&& !(commands[n - 1] is PushMask || commands[n - 1] is PopMask) ==> after == before
        }),
    decreases n,
{
    if n > 1 {
        masks_are_counted(depth, commands, n - 1);
    }
}

/// Whether the command `i` is a reason to draw a frame in full.
pub open spec fn is_reason(depth: int, commands: Seq<Command>, i: int) -> bool {
    match commands[i] {
        Command::RenderStage3D => true,
        Command::PushMask => mask_depth(depth, commands, i + 1) > 127,
        Command::Blend { commands: layer, blend_mode, .. } => blend_mode is Shader || forces_full(
            0,
            layer.commands@,
            layer.commands@.len(),
        ),
        Command::RenderAlphaMask { maskee_commands, mask_commands, .. } => forces_full(
            0,
            maskee_commands.commands@,
            maskee_commands.commands@.len(),
        ) || forces_full(0, mask_commands.commands@, mask_commands.commands@.len()),
        _ => false,
    }
}

/// What forces a frame to be drawn in full: a scene in three dimensions, a layer that a shader
/// blends, more nested masks than 127, or one of these inside a layer; and nothing else.
pub proof fn full_frames_have_a_reason(depth: int, commands: Seq<Command>, n: nat)
    requires
        n <= commands.len(),
    ensures
        forces_full(depth, commands, n) <==> exists|i: int|
            0 <= i < n && #[trigger] is_reason(depth, commands, i),
    decreases n,
{
    if n > 0 {
        full_frames_have_a_reason(depth, commands, (n - 1) as nat);
        let last = n - 1;
        assert(command_forces_full(commands[last], mask_depth(depth, commands, n as int))
            == is_reason(depth, commands, last));
    }
}

/// A frame is forced to be drawn in full as its commands are.
pub proof fn frame_is_forced_by_its_commands(list: CommandList)
    ensures
        list_forces_full(list) <==> forces_full(0, list.commands@, list.commands@.len()),
{
}

/// The words that identify bitmaps: of each in turn, which one it is and how often it was written.
pub open spec fn bitmap_words(bitmaps: Seq<BitmapRef>) -> Seq<u64>
    decreases bitmaps.len(),
{
    if bitmaps.len() == 0 {
        Seq::empty()
    } else {
        bitmap_words(bitmaps.drop_last()) + seq![bitmaps.last().id, bitmaps.last().generation]
    }
}

proof fn lemma_bitmaps_are_mixed(before: Seq<u64>, bitmaps: Seq<BitmapRef>, n: int)
    requires
        0 <= n <= bitmaps.len(),
    ensures
        mixed_bitmaps(signature::hash_of(before), bitmaps, n) == signature::hash_of(
            before + bitmap_words(bitmaps.take(n)),
        ),
    decreases n,
{
    if n == 0 {
        assert(before + bitmap_words(bitmaps.take(0)) =~= before);
    } else {
        lemma_bitmaps_are_mixed(before, bitmaps, n - 1);
        let shorter = before + bitmap_words(bitmaps.take(n - 1));
        let bitmap = bitmaps[n - 1];
        signature::mixing_adds_a_word(shorter, bitmap.id);
        signature::mixing_adds_a_word(shorter.push(bitmap.id), bitmap.generation);
        assert(bitmaps.take(n).drop_last() =~= bitmaps.take(n - 1));
        assert(shorter.push(bitmap.id).push(bitmap.generation) =~= before + bitmap_words(
            bitmaps.take(n),
        ));
    }
}

/// What a bitmap shows: its signature is the rolling hash of its placement and of which bitmap it
/// is, how often that was written, whether it is smoothed and how it is snapped, each a word of its
/// own.
pub proof fn bitmap_signature_hashes_all_words(
    viewport: PixelRegion,
    bitmap: BitmapRef,
    placement: Placement,
    smoothing: bool,
    pixel_snapping: PixelSnapping,
    bounds: Bounds,
)
    ensures
        drawn(
            viewport,
            (Command::RenderBitmap { bitmap, placement, smoothing, pixel_snapping, bounds }),
        ) == Some(
            (
                signature::hash_of(
                    seq![1u64] + signature::widened(placement.matrix@) + signature::widened(
                        placement.color@,
                    ) + seq![
                        bitmap.id,
                        bitmap.generation,
                        if smoothing {
                            1
                        } else {
                            0
                        },
                        match pixel_snapping {
                            PixelSnapping::Always => 1,
                            PixelSnapping::Auto => 2,
                            PixelSnapping::Never => 3,
                        },
                    ],
                ),
                bounds,
            ),
        ),
{
    let smooth: u64 = if smoothing {
        1
    } else {
        0
    };
    let snap: u64 = match pixel_snapping {
        PixelSnapping::Always => 1,
        PixelSnapping::Auto => 2,
        PixelSnapping::Never => 3,
    };
    let placed = seq![1u64] + signature::widened(placement.matrix@) + signature::widened(
        placement.color@,
    );
    signature::signature_hashes_all_words(1, placement.matrix@, placement.color@);
    let first = placed.push(bitmap.id);
    let second = first.push(bitmap.generation);
    let third = second.push(smooth);
    signature::mixing_adds_a_word(placed, bitmap.id);
    signature::mixing_adds_a_word(first, bitmap.generation);
    signature::mixing_adds_a_word(second, smooth);
    signature::mixing_adds_a_word(third, snap);
    assert(third.push(snap) =~= placed + seq![bitmap.id, bitmap.generation, smooth, snap]);
}

/// What a shape shows: its signature is the rolling hash of its placement, of which shape it is and
/// of the bitmaps that fill it, each a word of its own.
pub proof fn shape_signature_hashes_all_words(
    viewport: PixelRegion,
    shape: u64,
    placement: Placement,
    bitmaps: Vec<BitmapRef>,
    bounds: Bounds,
)
    ensures
        drawn(
            viewport,
            (Command::RenderShape { shape, placement, bitmaps, bounds: Some(bounds) }),
        ) == Some(
            (
                signature::hash_of(
                    seq![2u64] + signature::widened(placement.matrix@) + signature::widened(
                        placement.color@,
                    ) + seq![shape] + bitmap_words(bitmaps@),
                ),
                bounds,
            ),
        ),
{
    let placed = seq![2u64] + signature::widened(placement.matrix@) + signature::widened(
        placement.color@,
    );
    signature::signature_hashes_all_words(2, placement.matrix@, placement.color@);
    signature::mixing_adds_a_word(placed, shape);
    assert(placed.push(shape) =~= placed + seq![shape]);
    lemma_bitmaps_are_mixed(placed + seq![shape], bitmaps@, bitmaps@.len() as int);
    assert(bitmaps@.take(bitmaps@.len() as int) =~= bitmaps@);
}

/// What rectangles, lines and outlines show: the rolling hash of their placements.
pub proof fn plain_signatures_hash_all_words(
    viewport: PixelRegion,
    placement: Placement,
    bounds: Bounds,
)
    ensures
        ({
            let words = signature::widened(placement.matrix@) + signature::widened(
                placement.color@,
            );
            &&& drawn(viewport, (Command::DrawRect { placement, bounds })) == Some(
                (signature::hash_of(seq![3u64] + words), bounds),
            )
            &&& drawn(viewport, (Command::DrawLine { placement, bounds })) == Some(
                (signature::hash_of(seq![4u64] + words), bounds),
            )
            &&& drawn(viewport, (Command::DrawLineRect { placement, bounds })) == Some(
                (signature::hash_of(seq![5u64] + words), bounds),
            )
        }),
{
    let matrix = signature::widened(placement.matrix@);
    let color = signature::widened(placement.color@);
    signature::signature_hashes_all_words(3, placement.matrix@, placement.color@);
    signature::signature_hashes_all_words(4, placement.matrix@, placement.color@);
    signature::signature_hashes_all_words(5, placement.matrix@, placement.color@);
    assert(seq![3u64] + (matrix + color) =~= seq![3u64] + matrix + color);
    assert(seq![4u64] + (matrix + color) =~= seq![4u64] + matrix + color);
    assert(seq![5u64] + (matrix + color) =~= seq![5u64] + matrix + color);
}

/// The hash of a tile under which nothing is drawn is that of the four components of the clear
/// color and a zero, in every place of the frame.
pub proof fn empty_frame_shows_the_clear_color(
    viewport: PixelRegion,
    clear: Seq<u64>,
    list: CommandList,
    i: int,
)
    requires
        clear.len() == 4,
        list.commands@.len() == 0,
        0 <= i < frame_hashes(viewport, clear, list).len(),
    ensures
        frame_hashes(viewport, clear, list)[i] == signature::hash_of(
            clear + seq![0u64],
        ),
{
    let none = Seq::<u64>::empty();
    let one = none.push(clear[0]);
    let two = one.push(clear[1]);
    let three = two.push(clear[2]);
    let four = three.push(clear[3]);
    signature::mixing_adds_a_word(none, clear[0]);
    signature::mixing_adds_a_word(one, clear[1]);
    signature::mixing_adds_a_word(two, clear[2]);
    signature::mixing_adds_a_word(three, clear[3]);
    signature::mixing_adds_a_word(four, 0);
    assert(four.push(0) =~= clear + seq![0u64]);
}

/// What layers show: that of a blended layer is one step of the hash from the number of its blend
/// mode, with all that is visible in it together; that of an alpha mask is one step from its content
/// to its mask.
pub proof fn layers_show_all_they_hold(
    viewport: PixelRegion,
    a: CommandList,
    b: CommandList,
    blend_mode: BlendType,
    bounds: PixelRegion,
)
    ensures
        ({
            let of_a = stamps(viewport, 1, 1, 0, a.commands@, a.commands@.len());
            let of_b = stamps(viewport, 1, 1, 0, b.commands@, b.commands@.len());
            let all_a = cover_xor(of_a, of_a.len() as int, 0, 0);
            let all_b = cover_xor(of_b, of_b.len() as int, 0, 0);
            &&& drawn(viewport, (Command::Blend { commands: a, blend_mode, bounds })).unwrap().0
                == signature::mixed(command::spec_blend_tag(blend_mode), all_a)
            &&& drawn(
                viewport,
                (Command::RenderAlphaMask { maskee_commands: a, mask_commands: b, bounds }),
            ).unwrap().0 == signature::mixed(
                signature::mixed(24, all_a),
                signature::mixed(25, all_b),
            )
        }),
{
}

proof fn lemma_depth_bound(depth: int, commands: Seq<Command>, n: int)
    requires
        0 <= depth,
        0 <= n <= commands.len(),
    ensures
        0 <= mask_depth(depth, commands, n) <= depth + n,
    decreases n,
{
    if n > 0 {
        lemma_depth_bound(depth, commands, n - 1);
    }
}

/// Masks can be counted in any list of fewer than 2^32 commands whose layers are such lists too.
pub proof fn masks_of_short_lists_fit(commands: Seq<Command>, n: nat)
    requires
        n <= commands.len(),
        n <= u32::MAX,
        forall|i: int|
            0 <= i < n ==> match #[trigger] commands[i] {
                Command::Blend { commands: layer, .. } => list_masks_fit(layer),
                Command::RenderAlphaMask { maskee_commands, mask_commands, .. } => list_masks_fit(
                    maskee_commands,
                ) && list_masks_fit(mask_commands),
                _ => true,
            },
    ensures
        masks_fit(0, commands, n),
    decreases n,
{
    if n > 0 {
        masks_of_short_lists_fit(commands, (n - 1) as nat);
        lemma_depth_bound(0, commands, n as int);
        assert(command_masks_fit(commands[n - 1]));
    }
}

} // verus!

//! Grouping dirty tiles of a grid into few rectangles.

use crate::region::PixelRegion;
use vstd::prelude::*;

verus! {

/// The edge of a square tile, in pixels.
pub const TILE_SIZE: u32 = 32;

/// A rectangle of tiles.
pub struct TileRect {
    pub x: int,
    pub y: int,
    pub width: int,
    pub height: int,
}

impl TileRect {
    pub open spec fn holds(self, x: int, y: int) -> bool {
        &&& self.x <= x < self.x + self.width
        &&& self.y <= y < self.y + self.height
    }

    /// The pixels of the rectangle, cut off at the size of the viewport. They are counted from
    /// the corner of the viewport.
    pub open spec fn region(self, viewport: PixelRegion) -> PixelRegion {
        let right = (self.x + self.width) * TILE_SIZE;
        let bottom = (self.y + self.height) * TILE_SIZE;
        PixelRegion {
            x_min: (self.x * TILE_SIZE) as u32,
            y_min: (self.y * TILE_SIZE) as u32,
            x_max: (if right <= viewport.spec_width() {
                right
            } else {
                viewport.spec_width()
            }) as u32,
            y_max: (if bottom <= viewport.spec_height() {
                bottom
            } else {
                viewport.spec_height()
            }) as u32,
        }
    }
}

/// Where the tile `(x, y)` stands in a list of all tiles, row by row.
pub open spec fn tile_at(tiles_x: int, x: int, y: int) -> int {
    y * tiles_x + x
}

/// The tile `(x, y)` lies in one of the rectangles.
pub open spec fn taken(rects: Seq<TileRect>, x: int, y: int) -> bool {
    exists|k: int| 0 <= k < rects.len() && (#[trigger] rects[k]).holds(x, y)
}

/// The tile `(x, y)` is dirty and lies in none of the rectangles.
pub open spec fn pending(
    dirty: Seq<bool>,
    tiles_x: int,
    rects: Seq<TileRect>,
    x: int,
    y: int,
) -> bool {
    dirty[tile_at(tiles_x, x, y)] && !taken(rects, x, y)
}

/// The tile `(x, y)` comes before the tile `(x1, y1)`, row by row.
pub open spec fn earlier(x: int, y: int, x1: int, y1: int) -> bool {
    y < y1 || (y == y1 && x < x1)
}

/// `next` is the rectangle that follows `rects`: its corner is the first tile still pending, from
/// there it goes right over pending tiles as far as they reach, then down over as many rows as
/// are pending over its whole width.
pub open spec fn is_next(
    dirty: Seq<bool>,
    tiles_x: int,
    tiles_y: int,
    rects: Seq<TileRect>,
    next: TileRect,
) -> bool {
    &&& 0 <= next.x && 0 < next.width && next.x + next.width <= tiles_x
    &&& 0 <= next.y && 0 < next.height && next.y + next.height <= tiles_y
    &&& forall|x: int, y: int|
        0 <= x < tiles_x && 0 <= y < tiles_y && earlier(x, y, next.x, next.y)
            ==> !#[trigger] pending(dirty, tiles_x, rects, x, y)
    &&& forall|x: int, y: int|
        next.holds(x, y) ==> #[trigger] pending(dirty, tiles_x, rects, x, y)
    &&& next.x + next.width < tiles_x ==> !pending(
        dirty,
        tiles_x,
        rects,
        next.x + next.width,
        next.y,
    )
    &&& next.y + next.height < tiles_y ==> exists|x: int|
        next.x <= x < next.x + next.width && !#[trigger] pending(
            dirty,
            tiles_x,
            rects,
            x,
            next.y + next.height,
        )
}

/// Each rectangle is the one that follows those before it.
pub open spec fn in_sequence(
    dirty: Seq<bool>,
    tiles_x: int,
    tiles_y: int,
    rects: Seq<TileRect>,
) -> bool {
    forall|k: int|
        0 <= k < rects.len() ==> is_next(
            dirty,
            tiles_x,
            tiles_y,
            rects.take(k),
            #[trigger] rects[k],
        )
}

/// The rectangles follow each other until no tile is pending.
pub open spec fn is_coalescing(
    dirty: Seq<bool>,
    tiles_x: int,
    tiles_y: int,
    rects: Seq<TileRect>,
) -> bool {
    &&& in_sequence(dirty, tiles_x, tiles_y, rects)
    &&& forall|x: int, y: int|
        0 <= x < tiles_x && 0 <= y < tiles_y ==> !#[trigger] pending(dirty, tiles_x, rects, x, y)
}

/// The pixels of each rectangle.
pub open spec fn regions_of(rects: Seq<TileRect>, viewport: PixelRegion) -> Seq<PixelRegion> {
    rects.map_values(|rect: TileRect| rect.region(viewport))
}

/// A grid of `tiles_x` by `tiles_y` tiles lies over the viewport, and its numbers fit their
/// types: each tile begins inside the viewport or at its edge.
pub open spec fn grid_fits(tiles_x: u32, tiles_y: u32, viewport: PixelRegion) -> bool {
    &&& viewport.wf()
    &&& tiles_x * tiles_y <= u32::MAX
    &&& tiles_x * TILE_SIZE <= u32::MAX
    &&& tiles_y * TILE_SIZE <= u32::MAX
    &&& (tiles_x - 1) * TILE_SIZE <= viewport.spec_width()
    &&& (tiles_y - 1) * TILE_SIZE <= viewport.spec_height()
}

pub(crate) proof fn lemma_tile_in_grid(tiles_x: int, tiles_y: int, x: int, y: int)
    requires
        0 <= x < tiles_x,
        0 <= y < tiles_y,
    ensures
        0 <= tile_at(tiles_x, x, y) < tiles_x * tiles_y,
        0 <= y * tiles_x <= tile_at(tiles_x, x, y),
{
    assert(0 <= y * tiles_x && y * tiles_x + tiles_x <= tiles_x * tiles_y) by (nonlinear_arith)
        requires
            0 <= y < tiles_y,
            0 < tiles_x,
    ;
}

proof fn lemma_tiles_differ(tiles_x: int, x: int, y: int, x1: int, y1: int)
    requires
        0 <= x < tiles_x,
        0 <= x1 < tiles_x,
        tile_at(tiles_x, x, y) == tile_at(tiles_x, x1, y1),
    ensures
        x == x1,
        y == y1,
{
    assert(y == y1) by (nonlinear_arith)
        requires
            0 <= x < tiles_x,
            0 <= x1 < tiles_x,
            y * tiles_x + x == y1 * tiles_x + x1,
    ;
}

/// `used` marks the tiles that lie in one of the rectangles.
spec fn marks(
    used: Seq<bool>,
    tiles_x: int,
    tiles_y: int,
    rects: Seq<TileRect>,
) -> bool {
    forall|x: int, y: int|
        0 <= x < tiles_x && 0 <= y < tiles_y ==> #[trigger] used[tile_at(tiles_x, x, y)] == taken(
            rects,
            x,
            y,
        )
}

/// Whether the tile is dirty and not yet used.
fn is_pending(
    dirty: &[bool],
    used: &Vec<bool>,
    tiles_x: u32,
    tiles_y: u32,
    x: u32,
    y: u32,
    Ghost(rects): Ghost<Seq<TileRect>>,
) -> (result: bool)
    requires
        x < tiles_x,
        y < tiles_y,
        tiles_x * tiles_y <= u32::MAX,
        tiles_x * tiles_y <= dirty@.len(),
        used@.len() == dirty@.len(),
        marks(used@, tiles_x as int, tiles_y as int, rects),
    ensures
        result == pending(dirty@, tiles_x as int, rects, x as int, y as int),
{
    proof {
        lemma_tile_in_grid(tiles_x as int, tiles_y as int, x as int, y as int);
    }
    let index: usize = (y * tiles_x + x) as usize;
    assert(index == tile_at(tiles_x as int, x as int, y as int));
    dirty[index] && !used[index]
}

/// How many tiles from `(x, y)` to the right are pending, without a gap.
fn run_width(
    dirty: &[bool],
    used: &Vec<bool>,
    tiles_x: u32,
    tiles_y: u32,
    x: u32,
    y: u32,
    Ghost(rects): Ghost<Seq<TileRect>>,
) -> (width: u32)
    requires
        x < tiles_x,
        y < tiles_y,
        tiles_x * tiles_y <= u32::MAX,
        tiles_x * tiles_y <= dirty@.len(),
        used@.len() == dirty@.len(),
        marks(used@, tiles_x as int, tiles_y as int, rects),
        pending(dirty@, tiles_x as int, rects, x as int, y as int),
    ensures
        0 < width,
        x + width <= tiles_x,
        forall|i: int|
            x <= i < x + width ==> #[trigger] pending(dirty@, tiles_x as int, rects, i, y as int),
        x + width < tiles_x ==> !pending(dirty@, tiles_x as int, rects, x + width, y as int),
{
    let mut width: u32 = 1;
    while x + width < tiles_x
        invariant_except_break
            0 < width,
            x + width <= tiles_x,
            y < tiles_y,
            tiles_x * tiles_y <= u32::MAX,
            tiles_x * tiles_y <= dirty@.len(),
            used@.len() == dirty@.len(),
            marks(used@, tiles_x as int, tiles_y as int, rects),
            forall|i: int|
                x <= i < x + width ==> #[trigger] pending(
                    dirty@,
                    tiles_x as int,
                    rects,
                    i,
                    y as int,
                ),
        ensures
            0 < width,
            x + width <= tiles_x,
            forall|i: int|
                x <= i < x + width ==> #[trigger] pending(
                    dirty@,
                    tiles_x as int,
                    rects,
                    i,
                    y as int,
                ),
            x + width < tiles_x ==> !pending(dirty@, tiles_x as int, rects, x + width, y as int),
        decreases tiles_x - width,
    {
        if !is_pending(dirty, used, tiles_x, tiles_y, x + width, y, Ghost(rects)) {
            break;
        }
        width = width + 1;
    }
    width
}

/// Whether the `width` tiles from `(x, y)` to the right are all pending.
fn row_is_pending(
    dirty: &[bool],
    used: &Vec<bool>,
    tiles_x: u32,
    tiles_y: u32,
    x: u32,
    y: u32,
    width: u32,
    Ghost(rects): Ghost<Seq<TileRect>>,
) -> (result: bool)
    requires
        x + width <= tiles_x,
        y < tiles_y,
        tiles_x * tiles_y <= u32::MAX,
        tiles_x * tiles_y <= dirty@.len(),
        used@.len() == dirty@.len(),
        marks(used@, tiles_x as int, tiles_y as int, rects),
    ensures
        result == forall|i: int|
            x <= i < x + width ==> #[trigger] pending(dirty@, tiles_x as int, rects, i, y as int),
{
    let mut offset: u32 = 0;
    while offset < width
        invariant
            offset <= width,
            x + width <= tiles_x,
            y < tiles_y,
            tiles_x * tiles_y <= u32::MAX,
            tiles_x * tiles_y <= dirty@.len(),
            used@.len() == dirty@.len(),
            marks(used@, tiles_x as int, tiles_y as int, rects),
            forall|i: int|
                x <= i < x + offset ==> #[trigger] pending(
                    dirty@,
                    tiles_x as int,
                    rects,
                    i,
                    y as int,
                ),
        decreases width - offset,
    {
        if !is_pending(dirty, used, tiles_x, tiles_y, x + offset, y, Ghost(rects)) {
            assert(!pending(dirty@, tiles_x as int, rects, x + offset, y as int));
            return false;
        }
        offset = offset + 1;
    }
    true
}

/// Over how many rows, from `y` down, the `width` tiles from column `x` to the right are pending.
fn run_height(
    dirty: &[bool],
    used: &Vec<bool>,
    tiles_x: u32,
    tiles_y: u32,
    x: u32,
    y: u32,
    width: u32,
    Ghost(rects): Ghost<Seq<TileRect>>,
) -> (height: u32)
    requires
        0 < width,
        x + width <= tiles_x,
        y < tiles_y,
        tiles_x * tiles_y <= u32::MAX,
        tiles_x * tiles_y <= dirty@.len(),
        used@.len() == dirty@.len(),
        marks(used@, tiles_x as int, tiles_y as int, rects),
        forall|i: int|
            x <= i < x + width ==> #[trigger] pending(dirty@, tiles_x as int, rects, i, y as int),
    ensures
        0 < height,
        y + height <= tiles_y,
        forall|i: int, j: int|
            x <= i < x + width && y <= j < y + height ==> #[trigger] pending(
                dirty@,
                tiles_x as int,
                rects,
                i,
                j,
            ),
        y + height < tiles_y ==> exists|i: int|
            x <= i < x + width && !#[trigger] pending(
                dirty@,
                tiles_x as int,
                rects,
                i,
                y + height,
            ),
{
    let mut height: u32 = 1;
    while y + height < tiles_y
        invariant_except_break
            0 < height,
            y + height <= tiles_y,
            x + width <= tiles_x,
            tiles_x * tiles_y <= u32::MAX,
            tiles_x * tiles_y <= dirty@.len(),
            used@.len() == dirty@.len(),
            marks(used@, tiles_x as int, tiles_y as int, rects),
            forall|i: int, j: int|
                x <= i < x + width && y <= j < y + height ==> #[trigger] pending(
                    dirty@,
                    tiles_x as int,
                    rects,
                    i,
                    j,
                ),
        ensures
            0 < height,
            y + height <= tiles_y,
            forall|i: int, j: int|
                x <= i < x + width && y <= j < y + height ==> #[trigger] pending(
                    dirty@,
                    tiles_x as int,
                    rects,
                    i,
                    j,
                ),
            y + height < tiles_y ==> exists|i: int|
                x <= i < x + width && !#[trigger] pending(
                    dirty@,
                    tiles_x as int,
                    rects,
                    i,
                    y + height,
                ),
        decreases tiles_y - height,
    {
        if !row_is_pending(dirty, used, tiles_x, tiles_y, x, y + height, width, Ghost(rects)) {
            break;
        }
        height = height + 1;
    }
    height
}

/// Marks the tiles of a rectangle as used.
fn mark_rect(
    used: &mut Vec<bool>,
    tiles_x: u32,
    tiles_y: u32,
    x: u32,
    y: u32,
    width: u32,
    height: u32,
    Ghost(rects): Ghost<Seq<TileRect>>,
)
    requires
        x + width <= tiles_x,
        y + height <= tiles_y,
        tiles_x * tiles_y <= u32::MAX,
        tiles_x * tiles_y <= old(used)@.len(),
        marks(old(used)@, tiles_x as int, tiles_y as int, rects),
    ensures
        final(used)@.len() == old(used)@.len(),
        marks(
            final(used)@,
            tiles_x as int,
            tiles_y as int,
            rects.push(
                TileRect {
                    x: x as int,
                    y: y as int,
                    width: width as int,
                    height: height as int,
                },
            ),
        ),
{
    let ghost rect = TileRect {
        x: x as int,
        y: y as int,
        width: width as int,
        height: height as int,
    };
    let ghost tx = tiles_x as int;
    let ghost ty = tiles_y as int;
    let mut row: u32 = y;
    while row < y + height
        invariant
            y <= row <= y + height,
            x + width <= tiles_x,
            y + height <= tiles_y,
            tiles_x * tiles_y <= u32::MAX,
            tiles_x * tiles_y <= used@.len(),
            used@.len() == old(used)@.len(),
            tx == tiles_x,
            ty == tiles_y,
            rect == (TileRect {
                x: x as int,
                y: y as int,
                width: width as int,
                height: height as int,
            }),
            forall|i: int, j: int|
                0 <= i < tx && 0 <= j < ty ==> #[trigger] used@[tile_at(tx, i, j)] == (taken(
                    rects,
                    i,
                    j,
                ) || (rect.holds(i, j) && j < row)),
        decreases y + height - row,
    {
        let mut column: u32 = x;
        while column < x + width
            invariant
                x <= column <= x + width,
                y <= row < y + height,
                x + width <= tiles_x,
                y + height <= tiles_y,
                tiles_x * tiles_y <= u32::MAX,
                tiles_x * tiles_y <= used@.len(),
                used@.len() == old(used)@.len(),
                tx == tiles_x,
                ty == tiles_y,
                rect == (TileRect {
                    x: x as int,
                    y: y as int,
                    width: width as int,
                    height: height as int,
                }),
                forall|i: int, j: int|
                    0 <= i < tx && 0 <= j < ty ==> #[trigger] used@[tile_at(tx, i, j)] == (taken(
                        rects,
                        i,
                        j,
                    ) || (rect.holds(i, j) && earlier(i, j, column as int, row as int))),
            decreases x + width - column,
        {
            proof {
                lemma_tile_in_grid(tx, ty, column as int, row as int);
            }
            let index: usize = (row * tiles_x + column) as usize;
            let ghost before = used@;
            used.set(index, true);
            column = column + 1;
            assert forall|i: int, j: int| 0 <= i < tx && 0 <= j < ty implies #[trigger] used@[tile_at(
                tx,
                i,
                j,
            )] == (taken(rects, i, j) || (rect.holds(i, j) && earlier(
                i,
                j,
                column as int,
                row as int,
            ))) by {
                lemma_tile_in_grid(tx, ty, i, j);
                assert(before[tile_at(tx, i, j)] == (taken(rects, i, j) || (rect.holds(i, j)
                    && earlier(i, j, column - 1, row as int))));
                if tile_at(tx, i, j) == index {
                    lemma_tiles_differ(tx, i, j, column - 1, row as int);
                }
            }
        }
        row = row + 1;
    }
    let ghost grown = rects.push(rect);
    assert forall|i: int, j: int| 0 <= i < tx && 0 <= j < ty implies #[trigger] used@[tile_at(
        tx,
        i,
        j,
    )] == taken(grown, i, j) by {
        lemma_taken_push(rects, rect, i, j);
    }
}

/// A rectangle more takes exactly its own tiles more.
proof fn lemma_taken_push(rects: Seq<TileRect>, rect: TileRect, x: int, y: int)
    ensures
        taken(rects.push(rect), x, y) == (taken(rects, x, y) || rect.holds(x, y)),
{
    let grown = rects.push(rect);
    if taken(rects, x, y) {
        let k = choose|k: int| 0 <= k < rects.len() && (#[trigger] rects[k]).holds(x, y);
        assert(grown[k].holds(x, y));
    }
    if rect.holds(x, y) {
        assert(grown[rects.len() as int].holds(x, y));
    }
    if taken(grown, x, y) {
        let k = choose|k: int| 0 <= k < grown.len() && (#[trigger] grown[k]).holds(x, y);
        if k < rects.len() {
            assert(rects[k].holds(x, y));
        }
    }
}

/// Groups the dirty tiles into rectangles, and gives the pixels of each. The rectangles hold
/// every dirty tile and no other.
pub fn coalesce_tiles(
    dirty: &[bool],
    tiles_x: u32,
    tiles_y: u32,
    viewport: PixelRegion,
) -> (regions: Vec<PixelRegion>)
    requires
        grid_fits(tiles_x, tiles_y, viewport),
        tiles_x * tiles_y <= dirty@.len(),
    ensures
        exists|rects: Seq<TileRect>| #[trigger]
            is_coalescing(dirty@, tiles_x as int, tiles_y as int, rects) && regions@
                == regions_of(rects, viewport),
{
    let ghost tx = tiles_x as int;
    let ghost ty = tiles_y as int;
    let mut used: Vec<bool> = vec![false; dirty.len()];
    let mut regions: Vec<PixelRegion> = Vec::new();
    let ghost mut rects: Seq<TileRect> = Seq::empty();
    let mut y: u32 = 0;
    assert(marks(used@, tx, ty, rects)) by {
        assert forall|i: int, j: int| 0 <= i < tx && 0 <= j < ty implies #[trigger] used@[tile_at(
            tx,
            i,
            j,
        )] == taken(rects, i, j) by {
            lemma_tile_in_grid(tx, ty, i, j);
        }
    }
    assert(regions@ =~= regions_of(rects, viewport));
    while y < tiles_y
        invariant
            y <= tiles_y,
            tx == tiles_x,
            ty == tiles_y,
            grid_fits(tiles_x, tiles_y, viewport),
            tiles_x * tiles_y <= dirty@.len(),
            used@.len() == dirty@.len(),
            marks(used@, tx, ty, rects),
            in_sequence(dirty@, tx, ty, rects),
            regions@ == regions_of(rects, viewport),
            forall|i: int, j: int|
                0 <= i < tx && 0 <= j < y ==> !#[trigger] pending(dirty@, tx, rects, i, j),
        decreases tiles_y - y,
    {
        let mut x: u32 = 0;
        while x < tiles_x
            invariant
                x <= tiles_x,
                y < tiles_y,
                tx == tiles_x,
                ty == tiles_y,
                grid_fits(tiles_x, tiles_y, viewport),
                tiles_x * tiles_y <= dirty@.len(),
                used@.len() == dirty@.len(),
                marks(used@, tx, ty, rects),
                in_sequence(dirty@, tx, ty, rects),
                regions@ == regions_of(rects, viewport),
                forall|i: int, j: int|
                    0 <= i < tx && 0 <= j < ty && earlier(i, j, x as int, y as int)
                        ==> !#[trigger] pending(dirty@, tx, rects, i, j),
            decreases tiles_x - x,
        {
            if is_pending(dirty, &used, tiles_x, tiles_y, x, y, Ghost(rects)) {
                let width = run_width(dirty, &used, tiles_x, tiles_y, x, y, Ghost(rects));
                let height = run_height(
                    dirty,
                    &used,
                    tiles_x,
                    tiles_y,
                    x,
                    y,
                    width,
                    Ghost(rects),
                );
                mark_rect(&mut used, tiles_x, tiles_y, x, y, width, height, Ghost(rects));
                let ghost rect = TileRect {
                    x: x as int,
                    y: y as int,
                    width: width as int,
                    height: height as int,
                };
                let px: u32 = x * TILE_SIZE;
                let py: u32 = y * TILE_SIZE;
                let across: u32 = width * TILE_SIZE;
                let down: u32 = height * TILE_SIZE;
                let room_x: u32 = viewport.width() - px;
                let room_y: u32 = viewport.height() - py;
                let region = PixelRegion::for_region(
                    px,
                    py,
                    if across <= room_x {
                        across
                    } else {
                        room_x
                    },
                    if down <= room_y {
                        down
                    } else {
                        room_y
                    },
                );
                assert(region == rect.region(viewport));
                regions.push(region);
                proof {
                    let grown = rects.push(rect);
                    assert(is_next(dirty@, tx, ty, rects, rect));
                    assert forall|k: int| 0 <= k < grown.len() implies is_next(
                        dirty@,
                        tx,
                        ty,
                        grown.take(k),
                        #[trigger] grown[k],
                    ) by {
                        assert(grown.take(k) =~= rects.take(k));
                        if k == rects.len() {
                            assert(rects.take(k) =~= rects);
                        } else {
                            assert(grown[k] == rects[k]);
                        }
                    }
                    assert forall|i: int, j: int|
                        0 <= i < tx && 0 <= j < ty && earlier(i, j, x + 1, y as int) implies !#[trigger] pending(
                        dirty@,
                        tx,
                        grown,
                        i,
                        j,
                    ) by {
                        lemma_taken_push(rects, rect, i, j);
                        assert(!pending(dirty@, tx, rects, i, j) || rect.holds(i, j));
                    }
                    assert(regions@ =~= regions_of(grown, viewport));
                    rects = grown;
                }
            }
            x = x + 1;
        }
        y = y + 1;
    }
    assert(is_coalescing(dirty@, tx, ty, rects));
    regions
}

/// A tile of the grid lies in a rectangle of the coalescing if and only if it is dirty.
pub proof fn coalescing_holds_dirty_tiles(
    dirty: Seq<bool>,
    tiles_x: int,
    tiles_y: int,
    rects: Seq<TileRect>,
    x: int,
    y: int,
)
    requires
        is_coalescing(dirty, tiles_x, tiles_y, rects),
        0 <= x < tiles_x,
        0 <= y < tiles_y,
    ensures
        taken(rects, x, y) <==> dirty[tile_at(tiles_x, x, y)],
{
    assert(!pending(dirty, tiles_x, rects, x, y));
    if taken(rects, x, y) {
        let k = choose|k: int| 0 <= k < rects.len() && (#[trigger] rects[k]).holds(x, y);
        assert(is_next(dirty, tiles_x, tiles_y, rects.take(k), rects[k]));
        assert(pending(dirty, tiles_x, rects.take(k), x, y));
    }
}

/// No tile lies in two rectangles of a coalescing.
pub proof fn coalescing_is_disjoint(
    dirty: Seq<bool>,
    tiles_x: int,
    tiles_y: int,
    rects: Seq<TileRect>,
    i: int,
    j: int,
    x: int,
    y: int,
)
    requires
        is_coalescing(dirty, tiles_x, tiles_y, rects),
        0 <= i < rects.len(),
        0 <= j < rects.len(),
        rects[i].holds(x, y),
        rects[j].holds(x, y),
    ensures
        i == j,
{
    if i < j {
        assert(is_next(dirty, tiles_x, tiles_y, rects.take(j), rects[j]));
        assert(pending(dirty, tiles_x, rects.take(j), x, y));
        assert(rects.take(j)[i].holds(x, y));
    } else if j < i {
        assert(is_next(dirty, tiles_x, tiles_y, rects.take(i), rects[i]));
        assert(pending(dirty, tiles_x, rects.take(i), x, y));
        assert(rects.take(i)[j].holds(x, y));
    }
}

/// After the same rectangles there is only one that can follow.
proof fn lemma_next_is_unique(
    dirty: Seq<bool>,
    tiles_x: int,
    tiles_y: int,
    rects: Seq<TileRect>,
    a: TileRect,
    b: TileRect,
)
    requires
        is_next(dirty, tiles_x, tiles_y, rects, a),
        is_next(dirty, tiles_x, tiles_y, rects, b),
    ensures
        a == b,
{
    assert(a.holds(a.x, a.y) && b.holds(b.x, b.y));
    assert(pending(dirty, tiles_x, rects, a.x, a.y));
    assert(pending(dirty, tiles_x, rects, b.x, b.y));
    assert(a.x == b.x && a.y == b.y);
    if a.width < b.width {
        assert(b.holds(a.x + a.width, a.y));
        assert(pending(dirty, tiles_x, rects, a.x + a.width, a.y));
    }
    if b.width < a.width {
        assert(a.holds(b.x + b.width, b.y));
        assert(pending(dirty, tiles_x, rects, b.x + b.width, b.y));
    }
    if a.height < b.height {
        let x = choose|x: int|
            a.x <= x < a.x + a.width && !#[trigger] pending(
                dirty,
                tiles_x,
                rects,
                x,
                a.y + a.height,
            );
        assert(b.holds(x, a.y + a.height));
    }
    if b.height < a.height {
        let x = choose|x: int|
            b.x <= x < b.x + b.width && !#[trigger] pending(
                dirty,
                tiles_x,
                rects,
                x,
                b.y + b.height,
            );
        assert(a.holds(x, b.y + b.height));
    }
}

proof fn lemma_same_start(
    dirty: Seq<bool>,
    tiles_x: int,
    tiles_y: int,
    a: Seq<TileRect>,
    b: Seq<TileRect>,
    n: int,
)
    requires
        is_coalescing(dirty, tiles_x, tiles_y, a),
        is_coalescing(dirty, tiles_x, tiles_y, b),
        0 <= n <= a.len(),
    ensures
        n <= b.len(),
        a.take(n) == b.take(n),
    decreases n,
{
    if n > 0 {
        lemma_same_start(dirty, tiles_x, tiles_y, a, b, n - 1);
        let k = n - 1;
        assert(is_next(dirty, tiles_x, tiles_y, a.take(k), a[k]));
        if b.len() == k {
            assert(b.take(k) =~= b);
            assert(a[k].holds(a[k].x, a[k].y));
            assert(pending(dirty, tiles_x, b, a[k].x, a[k].y));
        } else {
            assert(is_next(dirty, tiles_x, tiles_y, b.take(k), b[k]));
            lemma_next_is_unique(dirty, tiles_x, tiles_y, a.take(k), a[k], b[k]);
            assert(a.take(n) =~= a.take(k).push(a[k]));
            assert(b.take(n) =~= b.take(k).push(b[k]));
        }
    }
}

/// The dirty tiles determine the rectangles: there is only one coalescing of them.
pub proof fn coalescing_is_unique(
    dirty: Seq<bool>,
    tiles_x: int,
    tiles_y: int,
    a: Seq<TileRect>,
    b: Seq<TileRect>,
)
    requires
        is_coalescing(dirty, tiles_x, tiles_y, a),
        is_coalescing(dirty, tiles_x, tiles_y, b),
    ensures
        a == b,
{
    lemma_same_start(dirty, tiles_x, tiles_y, a, b, a.len() as int);
    lemma_same_start(dirty, tiles_x, tiles_y, b, a, b.len() as int);
    assert(a.take(a.len() as int) =~= a);
    assert(b.take(b.len() as int) =~= b);
}

/// A pixel of the viewport lies in a region of the coalescing if and only if its tile is dirty,
/// and no region reaches beyond the viewport.
pub proof fn regions_hold_dirty_pixels(
    dirty: Seq<bool>,
    tiles_x: u32,
    tiles_y: u32,
    viewport: PixelRegion,
    rects: Seq<TileRect>,
    px: int,
    py: int,
)
    requires
        is_coalescing(dirty, tiles_x as int, tiles_y as int, rects),
        grid_fits(tiles_x, tiles_y, viewport),
        0 <= px < viewport.spec_width(),
        0 <= py < viewport.spec_height(),
        px < tiles_x * TILE_SIZE,
        py < tiles_y * TILE_SIZE,
    ensures
        (exists|k: int|
            0 <= k < rects.len() && (#[trigger] regions_of(rects, viewport)[k]).contains(px, py))
            <==> dirty[tile_at(tiles_x as int, px / 32, py / 32)],
        forall|k: int|
            0 <= k < rects.len() ==> {
                let region = #[trigger] regions_of(rects, viewport)[k];
                region.wf() && region.x_max <= viewport.spec_width() && region.y_max
                    <= viewport.spec_height()
            },
{
    let tx = tiles_x as int;
    let ty = tiles_y as int;
    let regions = regions_of(rects, viewport);
    let x = px / 32;
    let y = py / 32;
    coalescing_holds_dirty_tiles(dirty, tx, ty, rects, x, y);
    assert forall|k: int| 0 <= k < rects.len() implies {
        let region = #[trigger] regions[k];
        &&& region.wf()
        &&& region.x_max <= viewport.spec_width()
        &&& region.y_max <= viewport.spec_height()
        &&& region.contains(px, py) == rects[k].holds(x, y)
    } by {
        assert(is_next(dirty, tx, ty, rects.take(k), rects[k]));
        assert(regions[k] == rects[k].region(viewport));
    }
    if taken(rects, x, y) {
        let k = choose|k: int| 0 <= k < rects.len() && (#[trigger] rects[k]).holds(x, y);
        assert(regions[k].contains(px, py));
    }
}

/// Every rectangle is as large as it can be at its turn. It cannot go on to the right: there is the
/// edge of the grid, a clean tile or an earlier rectangle beside its first row. It cannot go on
/// downwards: somewhere below it there is one of these. And rectangles come in the order in which
/// their corners are read.
pub proof fn rectangles_are_as_large_as_can_be(
    dirty: Seq<bool>,
    tiles_x: int,
    tiles_y: int,
    rects: Seq<TileRect>,
    k: int,
)
    requires
        is_coalescing(dirty, tiles_x, tiles_y, rects),
        0 <= k < rects.len(),
    ensures
        ({
            let rect = rects[k];
            let right = rect.x + rect.width;
            let below = rect.y + rect.height;
            &&& 0 <= rect.x < right <= tiles_x
            &&& 0 <= rect.y < below <= tiles_y
            &&& right == tiles_x || !dirty[rect.y * tiles_x + right] || exists|j: int|
                0 <= j < k && (#[trigger] rects[j]).holds(right, rect.y)
            &&& below == tiles_y || exists|x: int|
                rect.x <= x < right && (!(#[trigger] dirty[below * tiles_x + x]) || exists|j: int|
                    0 <= j < k && (#[trigger] rects[j]).holds(x, below))
            &&& forall|j: int|
                0 <= j < k ==> (#[trigger] rects[j]).y < rect.y || (rects[j].y == rect.y
                    && rects[j].x < rect.x)
        }),
{
    let rect = rects[k];
    let right = rect.x + rect.width;
    let below = rect.y + rect.height;
    let earlier_ones = rects.take(k);
    assert(is_next(dirty, tiles_x, tiles_y, earlier_ones, rect));
    if right < tiles_x && dirty[rect.y * tiles_x + right] {
        assert(!pending(dirty, tiles_x, earlier_ones, right, rect.y));
        let j = choose|j: int|
            0 <= j < earlier_ones.len() && (#[trigger] earlier_ones[j]).holds(right, rect.y);
        assert(rects[j].holds(right, rect.y));
    }
    if below < tiles_y {
        let x = choose|x: int|
            rect.x <= x < right && !#[trigger] pending(dirty, tiles_x, earlier_ones, x, below);
        if dirty[below * tiles_x + x] {
            let j = choose|j: int|
                0 <= j < earlier_ones.len() && (#[trigger] earlier_ones[j]).holds(x, below);
            assert(rects[j].holds(x, below));
        }
    }
    assert forall|j: int| 0 <= j < k implies (#[trigger] rects[j]).y < rect.y || (rects[j].y
        == rect.y && rects[j].x < rect.x) by {
        let former = rects[j];
        assert(is_next(dirty, tiles_x, tiles_y, rects.take(j), former));
        assert(rect.holds(rect.x, rect.y));
        assert(pending(dirty, tiles_x, earlier_ones, rect.x, rect.y));
        if taken(rects.take(j), rect.x, rect.y) {
            let i = choose|i: int|
                0 <= i < j && (#[trigger] rects.take(j)[i]).holds(rect.x, rect.y);
            assert(earlier_ones[i].holds(rect.x, rect.y));
        }
        assert(pending(dirty, tiles_x, rects.take(j), rect.x, rect.y));
        if former.x == rect.x && former.y == rect.y {
            assert(earlier_ones[j].holds(rect.x, rect.y));
        }
        assert(!earlier(rect.x, rect.y, former.x, former.y));
    }
}

/// Where every tile is dirty, one rectangle is the whole grid.
pub proof fn dirty_grid_is_one_rectangle(
    dirty: Seq<bool>,
    tiles_x: int,
    tiles_y: int,
    rects: Seq<TileRect>,
)
    requires
        is_coalescing(dirty, tiles_x, tiles_y, rects),
        0 < tiles_x,
        0 < tiles_y,
        dirty.len() == tiles_x * tiles_y,
        forall|i: int| 0 <= i < dirty.len() ==> dirty[i],
    ensures
        rects == seq![TileRect { x: 0, y: 0, width: tiles_x, height: tiles_y }],
{
    let whole = TileRect { x: 0, y: 0, width: tiles_x, height: tiles_y };
    let one = seq![whole];
    let none = one.take(0);
    assert forall|x: int, y: int| whole.holds(x, y) implies #[trigger] pending(
        dirty,
        tiles_x,
        none,
        x,
        y,
    ) by {
        lemma_tile_in_grid(tiles_x, tiles_y, x, y);
    }
    assert(is_next(dirty, tiles_x, tiles_y, none, whole));
    assert forall|x: int, y: int|
        0 <= x < tiles_x && 0 <= y < tiles_y implies !#[trigger] pending(
        dirty,
        tiles_x,
        one,
        x,
        y,
    ) by {
        assert(one[0].holds(x, y));
    }
    assert(is_coalescing(dirty, tiles_x, tiles_y, one));
    coalescing_is_unique(dirty, tiles_x, tiles_y, rects, one);
}

/// The region of a rectangle of tiles holds those pixels of the viewport that lie on its tiles of
/// 32 by 32 pixels.
pub proof fn region_holds_the_pixels_of_its_tiles(
    rect: TileRect,
    viewport: PixelRegion,
    px: int,
    py: int,
)
    requires
        viewport.wf(),
        0 <= rect.x && 0 < rect.width && (rect.x + rect.width) * 32 <= u32::MAX,
        0 <= rect.y && 0 < rect.height && (rect.y + rect.height) * 32 <= u32::MAX,
        0 <= px < viewport.x_max - viewport.x_min,
        0 <= py < viewport.y_max - viewport.y_min,
    ensures
        rect.region(viewport).contains(px, py) <==> rect.x <= px / 32 && px / 32 < rect.x
            + rect.width && rect.y <= py / 32 && py / 32 < rect.y + rect.height,
        rect.holds(px / 32, py / 32) <==> rect.x <= px / 32 && px / 32 < rect.x + rect.width
            && rect.y <= py / 32 && py / 32 < rect.y + rect.height,
        rect.region(viewport).x_max <= viewport.x_max - viewport.x_min,
        rect.region(viewport).y_max <= viewport.y_max - viewport.y_min,
{
}

} // verus!

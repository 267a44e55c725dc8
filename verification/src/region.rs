//! Rectangles of pixels, and rectangles of the plane that may reach outside the screen.

use vstd::prelude::*;

verus! {

/// A rectangle of whole pixels: `x_min..x_max` by `y_min..y_max`.
#[derive(Clone, Copy, Debug, PartialEq, Eq, Hash, Structural)]
pub struct PixelRegion {
    pub x_min: u32,
    pub y_min: u32,
    pub x_max: u32,
    pub y_max: u32,
}

impl PixelRegion {
    /// The edges are in order, so that the region has a width and a height.
    pub open spec fn wf(self) -> bool {
        &&& self.x_min <= self.x_max
        &&& self.y_min <= self.y_max
    }

    pub open spec fn spec_width(self) -> int {
        self.x_max - self.x_min
    }

    pub open spec fn spec_height(self) -> int {
        self.y_max - self.y_min
    }

    /// The pixel `(x, y)` lies inside the region.
    pub open spec fn contains(self, x: int, y: int) -> bool {
        &&& self.x_min <= x < self.x_max
        &&& self.y_min <= y < self.y_max
    }

    /// The region of the given size whose top left pixel is `(x, y)`.
    pub fn for_region(x: u32, y: u32, width: u32, height: u32) -> (region: PixelRegion)
        requires
            x + width <= u32::MAX,
            y + height <= u32::MAX,
        ensures
            region == (PixelRegion {
                x_min: x,
                y_min: y,
                x_max: (x + width) as u32,
                y_max: (y + height) as u32,
            }),
            region.wf(),
    {
        PixelRegion { x_min: x, y_min: y, x_max: x + width, y_max: y + height }
    }

    /// The region of the given size at the origin.
    pub fn for_whole_size(width: u32, height: u32) -> (region: PixelRegion)
        ensures
            region == (PixelRegion { x_min: 0, y_min: 0, x_max: width, y_max: height }),
            region.wf(),
    {
        PixelRegion { x_min: 0, y_min: 0, x_max: width, y_max: height }
    }

    pub fn width(&self) -> (width: u32)
        requires
            self.wf(),
        ensures
            width == self.spec_width(),
    {
        self.x_max - self.x_min
    }

    pub fn height(&self) -> (height: u32)
        requires
            self.wf(),
        ensures
            height == self.spec_height(),
    {
        self.y_max - self.y_min
    }
}

/// A rectangle of the plane with whole edges, `left..right` by `top..bottom`. It may reach
/// outside any screen, and it may be empty.
#[derive(Clone, Copy, Debug, PartialEq, Eq, Structural)]
pub struct Bounds {
    pub left: i64,
    pub top: i64,
    pub right: i64,
    pub bottom: i64,
}

/// The edges of a region as a rectangle of the plane.
pub open spec fn bounds_of(region: PixelRegion) -> Bounds {
    Bounds {
        left: region.x_min as i64,
        top: region.y_min as i64,
        right: region.x_max as i64,
        bottom: region.y_max as i64,
    }
}

/// The rectangle that a mask command touches: the whole viewport.
pub fn viewport_bounds(viewport: PixelRegion) -> (bounds: Bounds)
    ensures
        bounds == bounds_of(viewport),
{
    Bounds {
        left: viewport.x_min as i64,
        top: viewport.y_min as i64,
        right: viewport.x_max as i64,
        bottom: viewport.y_max as i64,
    }
}

/// The rectangle that a layer with the given extent touches.
pub fn pixel_bounds(region: PixelRegion) -> (bounds: Bounds)
    ensures
        bounds == bounds_of(region),
{
    Bounds {
        left: region.x_min as i64,
        top: region.y_min as i64,
        right: region.x_max as i64,
        bottom: region.y_max as i64,
    }
}

/// A region is as wide and as high as the pixels that it contains, counted from its corner.
pub proof fn region_is_filled(region: PixelRegion, x: int, y: int)
    requires
        region.wf(),
    ensures
        region.contains(region.x_min + x, region.y_min + y) <==> 0 <= x < region.spec_width() && 0
            <= y < region.spec_height(),
        region.contains(x, y) <==> region.x_min <= x && x < region.x_max && region.y_min <= y && y
            < region.y_max,
{
}

/// The bounds of a region reach exactly over its pixels.
pub proof fn bounds_hold_the_pixels(region: PixelRegion, x: int, y: int)
    ensures
        bounds_of(region).left <= x < bounds_of(region).right && bounds_of(region).top <= y
            < bounds_of(region).bottom <==> region.contains(x, y),
        region.x_min == bounds_of(region).left && region.y_min == bounds_of(region).top,
        region.x_max == bounds_of(region).right && region.y_max == bounds_of(region).bottom,
{
}

} // verus!

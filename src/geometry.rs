use vstd::prelude::*;

verus! {

/// A length in device pixels.
#[derive(Clone, Copy, Debug, PartialEq, Eq, Hash)]
pub struct DevicePixels(pub i32);

impl DevicePixels {
    /// The number of bytes a row of this many pixels takes.
    pub fn to_bytes(self, bytes_per_pixel: u8) -> (r: u32)
        requires
            0 <= self.0,
            self.0 * bytes_per_pixel <= u32::MAX,
        ensures
            r == self.0 * bytes_per_pixel,
    {
        proof {
            assert(0 <= self.0 as u32 * bytes_per_pixel as u32 <= u32::MAX) by (nonlinear_arith)
                requires
                    0 <= self.0,
                    self.0 * bytes_per_pixel <= u32::MAX,
            ;
        }
        self.0 as u32 * bytes_per_pixel as u32
    }
}

/// A width and a height.
#[derive(Clone, Copy, Debug, PartialEq, Eq, Hash)]
pub struct Size {
    pub width: DevicePixels,
    pub height: DevicePixels,
}

/// A position: `x` grows to the right, `y` downwards.
#[derive(Clone, Copy, Debug, PartialEq, Eq, Hash)]
pub struct Point {
    pub x: DevicePixels,
    pub y: DevicePixels,
}

/// An axis-aligned rectangle given by its top-left corner and its size.
#[derive(Clone, Copy, Debug, PartialEq, Eq, Hash)]
pub struct Bounds {
    pub origin: Point,
    pub size: Size,
}

/// The size of a texture as the GPU takes it.
#[derive(Clone, Copy, Debug, PartialEq, Eq, Hash)]
pub struct Extent {
    pub width: u32,
    pub height: u32,
    pub depth: u32,
}

impl Size {
    /// Both sides are positive.
    pub open spec fn is_positive(self) -> bool {
        self.width.0 > 0 && self.height.0 > 0
    }

    /// This size fits inside `other`, side by side.
    pub open spec fn fits_in(self, other: Size) -> bool {
        self.width.0 <= other.width.0 && self.height.0 <= other.height.0
    }

    /// The side-wise maximum of two sizes.
    pub open spec fn spec_max(self, other: Size) -> Size {
        Size {
            width: DevicePixels(if self.width.0 >= other.width.0 { self.width.0 } else { other.width.0 }),
            height: DevicePixels(if self.height.0 >= other.height.0 { self.height.0 } else { other.height.0 }),
        }
    }

    /// The side-wise maximum of two sizes.
    pub fn max(&self, other: &Size) -> (r: Size)
        ensures
            r == self.spec_max(*other),
    {
        Size {
            width: DevicePixels(if self.width.0 >= other.width.0 { self.width.0 } else { other.width.0 }),
            height: DevicePixels(if self.height.0 >= other.height.0 { self.height.0 } else { other.height.0 }),
        }
    }
}

impl Bounds {
    pub open spec fn left(self) -> int {
        self.origin.x.0 as int
    }

    pub open spec fn top(self) -> int {
        self.origin.y.0 as int
    }

    /// One past the last column.
    pub open spec fn right(self) -> int {
        self.origin.x.0 + self.size.width.0
    }

    /// One past the last row.
    pub open spec fn bottom(self) -> int {
        self.origin.y.0 + self.size.height.0
    }

    /// The two rectangles share at least one pixel.
    pub open spec fn intersects(self, other: Bounds) -> bool {
        &&& self.left() < other.right()
        &&& other.left() < self.right()
        &&& self.top() < other.bottom()
        &&& other.top() < self.bottom()
    }

    /// Every pixel of the rectangle lies in `[0, width) x [0, height)`.
    pub open spec fn lies_within(self, width: int, height: int) -> bool {
        &&& 0 <= self.left()
        &&& 0 <= self.top()
        &&& self.right() <= width
        &&& self.bottom() <= height
    }
}

} // verus!

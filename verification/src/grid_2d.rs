//! A fixed-size, row-major, bounds-checked 2D container together with a
//! signed integer coordinate type supporting componentwise arithmetic.
//!
//! The grid stores its cells in one contiguous buffer whose length is
//! always `width * height`.  A coordinate is a valid cell exactly when
//! both components lie inside `[0, width) x [0, height)`; in particular a
//! coordinate whose `x` equals the width is rejected even though its raw
//! linear index may still fall inside the buffer (it would silently alias
//! the next row otherwise).

use vstd::arithmetic::div_mod::lemma_fundamental_div_mod;
use vstd::prelude::*;

verus! {

/// An ordered pair of signed integers: a position (or displacement) in
/// 2D integer space.
#[derive(Clone, Copy, Debug, PartialEq, Eq, Structural)]
pub struct Coordinates {
    pub x: i64,
    pub y: i64,
}

impl Coordinates {
    /// Componentwise sum, truncated to the representable range.
    pub open spec fn spec_add(self, other: Coordinates) -> Coordinates {
        Coordinates { x: (self.x + other.x) as i64, y: (self.y + other.y) as i64 }
    }

    /// Componentwise difference, truncated to the representable range.
    pub open spec fn spec_subtract(self, other: Coordinates) -> Coordinates {
        Coordinates { x: (self.x - other.x) as i64, y: (self.y - other.y) as i64 }
    }

    /// Both components multiplied by a scalar, truncated to the
    /// representable range.
    pub open spec fn spec_scale(self, multiplier: i64) -> Coordinates {
        Coordinates { x: (self.x * multiplier) as i64, y: (self.y * multiplier) as i64 }
    }

    /// Componentwise sum.
    pub fn add(self, other: Coordinates) -> (r: Coordinates)
        requires
            i64::MIN <= self.x + other.x <= i64::MAX,
            i64::MIN <= self.y + other.y <= i64::MAX,
        ensures
            r == self.spec_add(other),
            r.x == self.x + other.x,
            r.y == self.y + other.y,
    {
        Coordinates { x: self.x + other.x, y: self.y + other.y }
    }

    /// Componentwise difference.
    pub fn subtract(self, other: Coordinates) -> (r: Coordinates)
        requires
            i64::MIN <= self.x - other.x <= i64::MAX,
            i64::MIN <= self.y - other.y <= i64::MAX,
        ensures
            r == self.spec_subtract(other),
            r.x == self.x - other.x,
            r.y == self.y - other.y,
    {
        Coordinates { x: self.x - other.x, y: self.y - other.y }
    }

    /// Both components multiplied by an integer scalar.
    pub fn scale(self, multiplier: i64) -> (r: Coordinates)
        requires
            i64::MIN <= self.x * multiplier <= i64::MAX,
            i64::MIN <= self.y * multiplier <= i64::MAX,
        ensures
            r == self.spec_scale(multiplier),
            r.x == self.x * multiplier,
            r.y == self.y * multiplier,
    {
        Coordinates { x: self.x * multiplier, y: self.y * multiplier }
    }

    /// In-place componentwise sum; equivalent to reassigning `add`.
    pub fn add_assign(&mut self, other: Coordinates)
        requires
            i64::MIN <= old(self).x + other.x <= i64::MAX,
            i64::MIN <= old(self).y + other.y <= i64::MAX,
        ensures
            *final(self) == old(self).spec_add(other),
            final(self).x == old(self).x + other.x,
            final(self).y == old(self).y + other.y,
    {
        *self = self.add(other);
    }

    /// In-place componentwise difference; equivalent to reassigning
    /// `subtract`.
    pub fn subtract_assign(&mut self, other: Coordinates)
        requires
            i64::MIN <= old(self).x - other.x <= i64::MAX,
            i64::MIN <= old(self).y - other.y <= i64::MAX,
        ensures
            *final(self) == old(self).spec_subtract(other),
            final(self).x == old(self).x - other.x,
            final(self).y == old(self).y - other.y,
    {
        *self = self.subtract(other);
    }
}

/// Subtracting a coordinate and adding it back returns the original
/// value, for every pair whose difference stays representable.
pub proof fn lemma_subtract_then_add(a: Coordinates, b: Coordinates)
    requires
        i64::MIN <= a.x - b.x <= i64::MAX,
        i64::MIN <= a.y - b.y <= i64::MAX,
    ensures
        a.spec_subtract(b).spec_add(b) == a,
{
}

/// Scaling by one is the identity.
pub proof fn lemma_scale_one(a: Coordinates)
    ensures
        a.spec_scale(1) == a,
{
}

/// Scaling by zero yields the zero vector.
pub proof fn lemma_scale_zero(a: Coordinates)
    ensures
        a.spec_scale(0) == (Coordinates { x: 0, y: 0 }),
{
}

/// A dense, fixed-width rectangular array of elements, stored as one
/// contiguous buffer in row-major order (`index = y * width + x`).
/// The width is fixed at construction; the height is derived from the
/// buffer length and is never stored independently.
#[derive(Debug, Clone)]
pub struct Grid<ElementType> {
    buffer: Vec<ElementType>,
    width: usize,
}

impl<ElementType> View for Grid<ElementType> {
    type V = Seq<ElementType>;

    closed spec fn view(&self) -> Seq<ElementType> {
        self.buffer@
    }
}

impl<ElementType: Copy> Grid<ElementType> {
    /// The stored width, as a mathematical integer.
    pub closed spec fn spec_width(&self) -> nat {
        self.width as nat
    }

    /// The structural invariant: the buffer holds exactly
    /// `width * height` cells for some (derived) height.
    pub open spec fn wf(&self) -> bool {
        if self.spec_width() == 0 {
            self@.len() == 0
        } else {
            self@.len() as int % self.spec_width() as int == 0
        }
    }

    /// The derived height: buffer length divided by width.
    pub open spec fn spec_height(&self) -> nat {
        if self.spec_width() == 0 {
            0
        } else {
            (self@.len() as int / self.spec_width() as int) as nat
        }
    }

    /// Whether a coordinate denotes a cell: both components must lie in
    /// `[0, width) x [0, height)`.
    pub open spec fn in_bounds(&self, coordinates: Coordinates) -> bool {
        &&& 0 <= coordinates.x < self.spec_width()
        &&& 0 <= coordinates.y < self.spec_height()
    }

    /// The row-major buffer position of a coordinate.
    pub open spec fn index_of(&self, coordinates: Coordinates) -> int {
        coordinates.y * self.spec_width() + coordinates.x
    }

    /// The element at a coordinate, or `None` outside the rectangle.
    pub open spec fn spec_get(&self, coordinates: Coordinates) -> Option<ElementType> {
        if self.in_bounds(coordinates) {
            Some(self@[self.index_of(coordinates)])
        } else {
            None
        }
    }

    /// Builds a `width` by `height` grid with every cell holding
    /// `default_value`.  A width or height of zero produces a degenerate
    /// grid with an empty buffer.
    pub fn new(width: usize, height: usize, default_value: ElementType) -> (g: Grid<ElementType>)
        requires
            width * height <= usize::MAX,
        ensures
            g.wf(),
            g.spec_width() == width,
            g@.len() == width * height,
            width > 0 ==> g.spec_height() == height,
            forall|k: int| 0 <= k < g@.len() ==> g@[k] == default_value,
    {
        let buffer_size = width * height;
        let mut buffer: Vec<ElementType> = Vec::with_capacity(buffer_size);
        let mut filled: usize = 0;
        while filled < buffer_size
            invariant
                filled <= buffer_size,
                buffer@.len() == filled,
                forall|k: int| 0 <= k < filled ==> buffer@[k] == default_value,
            decreases buffer_size - filled,
        {
            buffer.push(default_value);
            filled = filled + 1;
        }
        proof {
            if width > 0 {
                lemma_fundamental_div_mod(buffer@.len() as int, width as int);
                assert(width * height == height * width) by (nonlinear_arith);
                assert(buffer@.len() as int % width as int == 0) by (nonlinear_arith)
                    requires
                        buffer@.len() == (width as int) * (height as int),
                        width > 0,
                ;
                assert(buffer@.len() as int / width as int == height) by (nonlinear_arith)
                    requires
                        buffer@.len() == (width as int) * (height as int),
                        width > 0,
                ;
            }
        }
        Grid { buffer, width }
    }

    /// The element at `coordinates`, if the coordinate lies inside the
    /// rectangle; `None` otherwise.  Never fails, whatever integers the
    /// caller probes with.
    pub fn get_value(&self, coordinates: Coordinates) -> (r: Option<&ElementType>)
        requires
            self.wf(),
        ensures
            r.is_some() == self.in_bounds(coordinates),
            r matches Some(v) ==> Some(*v) == self.spec_get(coordinates),
    {
        if coordinates.x < 0 || coordinates.y < 0 {
            return None;
        }
        // An x at or past the width would wrap around to the next row if
        // only the raw buffer index were tested, so it is rejected here.
        if coordinates.x as u64 >= self.width as u64 {
            return None;
        }
        let height = self.buffer.len() / self.width;
        if coordinates.y as u64 >= height as u64 {
            return None;
        }
        let x = coordinates.x as usize;
        let y = coordinates.y as usize;
        proof {
            lemma_row_major_index_in_range(x as int, y as int, self.width as int, self@.len() as int);
        }
        let index = y * self.width + x;
        Some(&self.buffer[index])
    }

    /// Overwrites the cell at `coordinates` and reports success, or
    /// leaves the grid unchanged and reports failure when the coordinate
    /// lies outside the rectangle.  Out-of-range writes are a normal
    /// outcome — callers use the `false` return as a loop-termination
    /// signal when marching along a ray.
    pub fn set_value(&mut self, coordinates: Coordinates, new_value: ElementType) -> (r: bool)
        requires
            old(self).wf(),
        ensures
            final(self).wf(),
            final(self).spec_width() == old(self).spec_width(),
            final(self)@.len() == old(self)@.len(),
            r == old(self).in_bounds(coordinates),
            r ==> final(self)@ == old(self)@.update(old(self).index_of(coordinates), new_value),
            !r ==> final(self)@ == old(self)@,
    {
        if coordinates.x < 0 || coordinates.y < 0 {
            return false;
        }
        if coordinates.x as u64 >= self.width as u64 {
            return false;
        }
        let height = self.buffer.len() / self.width;
        if coordinates.y as u64 >= height as u64 {
            return false;
        }
        let x = coordinates.x as usize;
        let y = coordinates.y as usize;
        proof {
            lemma_row_major_index_in_range(x as int, y as int, self.width as int, self@.len() as int);
        }
        let index = y * self.width + x;
        self.buffer[index] = new_value;
        true
    }

    /// The number of rows: buffer length divided by width (zero for a
    /// degenerate grid of width zero).
    pub fn num_rows(&self) -> (r: usize)
        requires
            self.wf(),
        ensures
            r == self.spec_height(),
    {
        if self.width == 0 {
            0
        } else {
            self.buffer.len() / self.width
        }
    }

    /// The stored width.
    pub fn num_columns(&self) -> (r: usize)
        ensures
            r == self.spec_width(),
    {
        self.width
    }

    /// The raw buffer length.
    pub fn num_cells(&self) -> (r: usize)
        ensures
            r == self@.len(),
    {
        self.buffer.len()
    }

    /// The stored elements in row-major order, not paired with their
    /// coordinates; the caller reconstructs coordinates by dividing the
    /// positional index by the width when needed.
    pub fn iter(&self) -> (r: &Vec<ElementType>)
        ensures
            r@ == self@,
    {
        &self.buffer
    }
}

/// A coordinate inside the `w` by `len / w` rectangle has a row-major
/// index inside the buffer.
proof fn lemma_row_major_index_in_range(x: int, y: int, w: int, len: int)
    requires
        0 < w,
        len % w == 0,
        0 <= len,
        0 <= x < w,
        0 <= y < len / w,
    ensures
        0 <= y * w + x < len,
{
    lemma_fundamental_div_mod(len, w);
    assert(y * w + x < len) by (nonlinear_arith)
        requires
            len == w * (len / w),
            0 <= x < w,
            0 <= y < len / w,
    ;
    assert(0 <= y * w) by (nonlinear_arith)
        requires
            0 <= y,
            0 < w,
    ;
}

/// Writing a cell and reading it back returns the written value: any
/// grid whose buffer is the written-to buffer yields the new value at
/// the written coordinate.
pub proof fn lemma_get_after_set<ElementType: Copy>(
    g: Grid<ElementType>,
    g2: Grid<ElementType>,
    c: Coordinates,
    v: ElementType,
)
    requires
        g.wf(),
        g.in_bounds(c),
        g2.spec_width() == g.spec_width(),
        g2@ == g@.update(g.index_of(c), v),
    ensures
        g2.wf(),
        g2.spec_get(c) == Some(v),
{
    lemma_row_major_index_in_range(c.x as int, c.y as int, g.spec_width() as int, g@.len() as int);
}

/// Every coordinate outside the rectangle — negative components
/// included — reads as absent.
pub proof fn lemma_get_out_of_bounds<ElementType: Copy>(g: Grid<ElementType>, c: Coordinates)
    requires
        g.wf(),
        !g.in_bounds(c),
    ensures
        g.spec_get(c) == None::<ElementType>,
{
}

/// The row-wrap regression: a coordinate whose `x` equals the width is
/// absent even when its raw linear index still lands inside the buffer
/// (that index belongs to the next row).
pub proof fn lemma_row_wrap_rejected<ElementType: Copy>(g: Grid<ElementType>, c: Coordinates)
    requires
        g.wf(),
        c.x == g.spec_width(),
        c.y == 0,
        g.spec_height() >= 2,
    ensures
        0 <= g.index_of(c) < g@.len(),
        g.spec_get(c) == None::<ElementType>,
{
    lemma_fundamental_div_mod(g@.len() as int, g.spec_width() as int);
    assert(g.index_of(c) < g@.len()) by (nonlinear_arith)
        requires
            g@.len() == g.spec_width() * g.spec_height(),
            g.index_of(c) == g.spec_width(),
            g.spec_height() >= 2,
            g.spec_width() > 0,
    ;
}

/// Shape consistency: rows times columns equals cells, for every
/// well-formed grid — after construction and after any number of
/// in-place writes, both of which preserve `wf`.
pub proof fn lemma_shape_consistent<ElementType: Copy>(g: Grid<ElementType>)
    requires
        g.wf(),
    ensures
        g.spec_height() * g.spec_width() == g@.len(),
{
    if g.spec_width() > 0 {
        let w = g.spec_width() as int;
        let len = g@.len() as int;
        lemma_fundamental_div_mod(len, w);
        assert(g.spec_height() * g.spec_width() == g@.len()) by (nonlinear_arith)
            requires
                g.spec_height() == len / w,
                g.spec_width() == w,
                g@.len() == len,
                len == w * (len / w),
        ;
    } else {
        assert(g.spec_height() * g.spec_width() == 0) by (nonlinear_arith)
            requires
                g.spec_width() == 0,
        ;
    }
}

} // verus!


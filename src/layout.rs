//! Rectangles of terminal cells and how a container cuts its rectangle into
//! slices for its children.

use vstd::prelude::*;

verus! {

/// The axis along which a container divides its rectangle: `Vertical` puts
/// its children side by side, `Horizontal` stacks them.
#[derive(Debug, Clone, Copy, PartialEq, Eq, Structural)]
pub enum Layout {
    Vertical,
    Horizontal,
}

/// A rectangle of terminal cells.
#[derive(Debug, Clone, Copy, PartialEq, Eq, Structural)]
pub struct Rect {
    pub x: u16,
    pub y: u16,
    pub width: u16,
    pub height: u16,
}

impl Rect {
    /// The rectangle lies inside the addressable cell space.
    pub open spec fn fits(self) -> bool {
        self.x + self.width <= 0xffff && self.y + self.height <= 0xffff
    }

    /// The rectangle cut short where it runs past the last addressable cell.
    pub open spec fn clamp(self) -> Rect {
        Rect {
            x: self.x,
            y: self.y,
            width: (if self.x + self.width <= 0xffff { self.width as int } else { 0xffff - self.x }) as u16,
            height: (if self.y + self.height <= 0xffff { self.height as int } else { 0xffff - self.y }) as u16,
        }
    }

    /// A rectangle at the given place; a size that would run past the last
    /// addressable cell is cut short there.
    pub fn new(x: u16, y: u16, width: u16, height: u16) -> (r: Rect)
        ensures
            r == (Rect { x, y, width, height }).clamp(),
            r.fits(),
    {
        let w = if width <= 0xffff - x { width } else { 0xffff - x };
        let h = if height <= 0xffff - y { height } else { 0xffff - y };
        Rect { x, y, width: w, height: h }
    }
}

/// The length of a rectangle along the axis a layout divides.
pub open spec fn extent(r: Rect, layout: Layout) -> int {
    match layout {
        Layout::Vertical => r.width as int,
        Layout::Horizontal => r.height as int,
    }
}

/// The length of slice `i` when `total` cells are cut into `n` slices: each
/// gets `total / n`, and the last one also takes the remainder.
pub open spec fn slice_len(total: int, n: int, i: int) -> int {
    if i == n - 1 {
        total - (n - 1) * (total / n)
    } else {
        total / n
    }
}

/// Slice `i` of `n` of a container's rectangle along its layout's axis.
pub open spec fn slice(area: Rect, layout: Layout, n: int, i: int) -> Rect {
    match layout {
        Layout::Vertical => Rect {
            x: (area.x + i * (area.width as int / n)) as u16,
            y: area.y,
            width: slice_len(area.width as int, n, i) as u16,
            height: area.height,
        },
        Layout::Horizontal => Rect {
            x: area.x,
            y: (area.y + i * (area.height as int / n)) as u16,
            width: area.width,
            height: slice_len(area.height as int, n, i) as u16,
        },
    }
}

pub proof fn lemma_slice_bounds(total: int, n: int, i: int)
    requires
        0 <= total,
        0 < n,
        0 <= i < n,
    ensures
        0 <= i * (total / n) <= total,
        0 <= slice_len(total, n, i),
        i * (total / n) + slice_len(total, n, i) <= total,
{
    let q = total / n;
    assert(0 <= q) by (nonlinear_arith)
        requires
            0 <= total,
            0 < n,
            q == total / n,
    ;
    assert(n * q <= total) by (nonlinear_arith)
        requires
            0 <= total,
            0 < n,
            q == total / n,
    ;
    assert(0 <= i * q <= (n - 1) * q) by (nonlinear_arith)
        requires
            0 <= i < n,
            0 <= q,
    ;
    assert((n - 1) * q + q == n * q) by (nonlinear_arith);
}

/// Computes slice `i` of `n` of `area`.
pub fn slice_rect(area: Rect, layout: Layout, n: usize, i: usize) -> (r: Rect)
    requires
        area.fits(),
        0 < n,
        i < n,
    ensures
        r == slice(area, layout, n as int, i as int),
        r.fits(),
{
    match layout {
        Layout::Vertical => {
            proof {
                lemma_slice_bounds(area.width as int, n as int, i as int);
            }
            let q: usize = area.width as usize / n;
            let off: usize = i * q;
            let len: usize = if i == n - 1 {
                area.width as usize - (n - 1) * q
            } else {
                q
            };
            Rect { x: area.x + off as u16, y: area.y, width: len as u16, height: area.height }
        },
        Layout::Horizontal => {
            proof {
                lemma_slice_bounds(area.height as int, n as int, i as int);
            }
            let q: usize = area.height as usize / n;
            let off: usize = i * q;
            let len: usize = if i == n - 1 {
                area.height as usize - (n - 1) * q
            } else {
                q
            };
            Rect { x: area.x, y: area.y + off as u16, width: area.width, height: len as u16 }
        },
    }
}

/// A slice of a rectangle that lies in the cell space lies there too.
pub proof fn lemma_slice_fits(area: Rect, layout: Layout, n: int, i: int)
    requires
        area.fits(),
        0 < n,
        0 <= i < n,
    ensures
        slice(area, layout, n, i).fits(),
{
    lemma_slice_bounds(area.width as int, n, i);
    lemma_slice_bounds(area.height as int, n, i);
}

pub proof fn lemma_slice_extent(area: Rect, layout: Layout, n: int, i: int)
    requires
        0 < n,
        0 <= i < n,
    ensures
        extent(slice(area, layout, n, i), layout) == slice_len(extent(area, layout), n, i),
{
    lemma_slice_bounds(extent(area, layout), n, i);
    match layout {
        Layout::Vertical => {},
        Layout::Horizontal => {},
    }
}

/// The slices of a rectangle follow one another: the first starts where the
/// rectangle does, each next one starts where the one before ends, the last
/// ends where the rectangle does, and across the axis every slice spans the
/// whole rectangle.
pub proof fn lemma_slices_contiguous(area: Rect, layout: Layout, n: int, i: int)
    requires
        area.fits(),
        0 < n,
        0 <= i < n,
    ensures
        i == 0 ==> (match layout {
            Layout::Vertical => slice(area, layout, n, i).x == area.x,
            Layout::Horizontal => slice(area, layout, n, i).y == area.y,
        }),
        i + 1 < n ==> (match layout {
            Layout::Vertical => slice(area, layout, n, i + 1).x == slice(area, layout, n, i).x + slice(
                area,
                layout,
                n,
                i,
            ).width,
            Layout::Horizontal => slice(area, layout, n, i + 1).y == slice(area, layout, n, i).y + slice(
                area,
                layout,
                n,
                i,
            ).height,
        }),
        i == n - 1 ==> (match layout {
            Layout::Vertical => slice(area, layout, n, i).x + slice(area, layout, n, i).width == area.x
                + area.width,
            Layout::Horizontal => slice(area, layout, n, i).y + slice(area, layout, n, i).height == area.y
                + area.height,
        }),
        match layout {
            Layout::Vertical => slice(area, layout, n, i).y == area.y && slice(area, layout, n, i).height
                == area.height,
            Layout::Horizontal => slice(area, layout, n, i).x == area.x && slice(area, layout, n, i).width
                == area.width,
        },
{
    let total = extent(area, layout);
    let q = total / n;
    lemma_slice_bounds(total, n, i);
    if i + 1 < n {
        lemma_slice_bounds(total, n, i + 1);
        assert((i + 1) * q == i * q + q) by (nonlinear_arith);
    }
    if i == 0 {
        assert(0 * q == 0) by (nonlinear_arith);
    }
}

} // verus!

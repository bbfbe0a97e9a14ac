//! The pixel grid from which a maze is built.

use vstd::prelude::*;

verus! {

/// A rectangle of pixels, each passable or wall, stored row by row.
#[derive(Debug, Clone)]
pub struct Grid {
    width: u32,
    height: u32,
    cells: Vec<bool>,
}

impl Grid {
    pub closed spec fn spec_width(&self) -> u32 {
        self.width
    }

    pub closed spec fn spec_height(&self) -> u32 {
        self.height
    }

    /// The passability flags, row by row.
    pub closed spec fn cells(&self) -> Seq<bool> {
        self.cells@
    }

    /// Whether the pixel at `(col, row)` is passable.  Everything outside the
    /// rectangle counts as wall.
    pub open spec fn open(&self, col: int, row: int) -> bool {
        &&& 0 <= col < self.spec_width()
        &&& 0 <= row < self.spec_height()
        &&& self.cells()[row * self.spec_width() + col]
    }

    /// The sizes for which every counter of a search stays within its machine
    /// integer: four times the pixel count fits a `usize`, and the longest
    /// conceivable route, pixel count times side lengths, fits an `i64`.
    pub open spec fn fits(width: int, height: int) -> bool {
        &&& 4 * (width * height) < usize::MAX
        &&& (width * height) * (width + height) <= i64::MAX
    }

    pub open spec fn wf(&self) -> bool {
        &&& self.spec_width() >= 1
        &&& self.spec_height() >= 1
        &&& self.cells().len() == self.spec_width() * self.spec_height()
        &&& Self::fits(self.spec_width() as int, self.spec_height() as int)
    }

    /// A grid of `width` by `height` pixels; `cells[row * width + col]` says
    /// whether the pixel at `(col, row)` is passable.  `None` when a side is
    /// zero, when `cells` has another length than `width * height`, or when
    /// the grid is larger than `fits` allows.
    pub fn new(width: u32, height: u32, cells: Vec<bool>) -> (g: Option<Grid>)
        ensures
            g is Some <==> width >= 1 && height >= 1 && cells.len() == width * height && Self::fits(
                width as int,
                height as int,
            ),
            g matches Some(grid) ==> grid.wf() && grid.spec_width() == width && grid.spec_height()
                == height && grid.cells() == cells@,
    {
        if width == 0 || height == 0 {
            return None;
        }
        assert(width * height <= 0xffff_ffff * 0xffff_ffff) by (nonlinear_arith)
            requires
                width <= 0xffff_ffff,
                height <= 0xffff_ffff,
        ;
        let area: u64 = width as u64 * height as u64;
        let sides: u64 = width as u64 + height as u64;
        assert(area * sides <= 0xffff_ffff_ffff_ffff * 0x2_0000_0000) by (nonlinear_arith)
            requires
                area <= 0xffff_ffff_ffff_ffff,
                sides <= 0x2_0000_0000,
        ;
        if cells.len() as u64 != area {
            return None;
        }
        if 4 * (area as u128) >= usize::MAX as u128 {
            return None;
        }
        if area as u128 * sides as u128 > i64::MAX as u128 {
            return None;
        }
        Some(Grid { width, height, cells })
    }

    #[verifier::when_used_as_spec(spec_width)]
    pub fn width(&self) -> (w: u32)
        ensures
            w == self.spec_width(),
    {
        self.width
    }

    #[verifier::when_used_as_spec(spec_height)]
    pub fn height(&self) -> (h: u32)
        ensures
            h == self.spec_height(),
    {
        self.height
    }

    /// Whether the pixel at `(col, row)` is passable.
    pub fn is_open(&self, col: u32, row: u32) -> (b: bool)
        requires
            self.wf(),
            col < self.spec_width(),
            row < self.spec_height(),
        ensures
            b == self.open(col as int, row as int),
    {
        assert(row * self.width + col < self.width * self.height) by (nonlinear_arith)
            requires
                col < self.width,
                row < self.height,
        ;
        assert(0 <= row * self.width) by (nonlinear_arith);
        self.cells[row as usize * self.width as usize + col as usize]
    }
}

} // verus!

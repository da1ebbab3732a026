//! Rasters: rectangular grids of cells stored row by row.
//!
//! [`Grid`] is the mathematical model that every contract of this crate speaks
//! of; [`Raster`] is the executable container whose view is a well-formed grid.
use vstd::prelude::*;

verus! {

/// A pixel or colour: red, green, blue and alpha.
pub type Rgba = [u8; 4];

/// A raster of RGBA pixels.
pub type RgbaImage = Raster<Rgba>;

/// A raster of single-channel luma values.
pub type GrayImage = Raster<u8>;

/// The mathematical model of a raster: `cells` lists the rows from top to
/// bottom, each row from left to right.
pub struct Grid<T> {
    pub width: nat,
    pub height: nat,
    pub cells: Seq<T>,
}

impl<T> Grid<T> {
    /// There is exactly one cell for every position.
    pub open spec fn wf(self) -> bool {
        self.cells.len() == self.width * self.height
    }

    /// Whether `(x, y)` is a position of the grid.
    pub open spec fn contains(self, x: int, y: int) -> bool {
        0 <= x < self.width && 0 <= y < self.height
    }

    /// The cell in column `x` of row `y`.
    pub open spec fn at(self, x: int, y: int) -> T {
        self.cells[y * self.width + x]
    }

    /// The grid of the given size whose cell at `(x, y)` is `f(x, y)`.
    pub open spec fn tabulate(width: nat, height: nat, f: spec_fn(int, int) -> T) -> Grid<T> {
        Grid {
            width,
            height,
            cells: Seq::new(width * height, |i: int| f(i % (width as int), i / (width as int))),
        }
    }

    /// Whether every cell equals `value`.
    pub open spec fn all(self, value: T) -> bool {
        forall|i: int| 0 <= i < self.cells.len() ==> self.cells[i] == value
    }
}

/// Facts about the row-major index `y * width + x` of an in-range position.
pub proof fn lemma_cell_index(width: int, height: int, x: int, y: int)
    requires
        0 <= x < width,
        0 <= y < height,
    ensures
        0 <= y * width + x < width * height,
        (y * width + x) % width == x,
        (y * width + x) / width == y,
        (y + 1) * width == y * width + width,
{
    assert((y + 1) * width == y * width + width) by (nonlinear_arith);
    assert(y * width >= 0) by (nonlinear_arith)
        requires
            y >= 0,
            width > 0,
    ;
    assert((y + 1) * width <= height * width) by (nonlinear_arith)
        requires
            y + 1 <= height,
            width > 0,
    ;
    assert(height * width == width * height) by (nonlinear_arith);
    vstd::arithmetic::div_mod::lemma_fundamental_div_mod_converse(y * width + x, width, y, x);
}

/// The area of a raster fits in 64 bits.
pub proof fn lemma_area_fits(width: u32, height: u32)
    ensures
        0 <= width * height <= u64::MAX,
{
    assert(0 <= width * height <= 0xFFFF_FFFF * 0xFFFF_FFFF) by (nonlinear_arith)
        requires
            0 <= width <= 0xFFFF_FFFF,
            0 <= height <= 0xFFFF_FFFF,
    ;
}

/// A `width` by `height` raster. Its cells are stored row by row, and there is
/// always exactly one cell per position.
pub struct Raster<T> {
    width: u32,
    height: u32,
    cells: Vec<T>,
}

impl<T> View for Raster<T> {
    type V = Grid<T>;

    closed spec fn view(&self) -> Grid<T> {
        Grid { width: self.width as nat, height: self.height as nat, cells: self.cells@ }
    }
}

impl<T> Raster<T> {
    #[verifier::type_invariant]
    spec fn well_formed(self) -> bool {
        self.cells.len() == self.width * self.height
    }

    /// Wraps `cells`, given row by row, as a raster; `None` when their number
    /// is not `width * height`.
    pub fn from_cells(width: u32, height: u32, cells: Vec<T>) -> (out: Option<Raster<T>>)
        ensures
            out is Some <==> cells.len() == width * height,
            out is Some ==> out->0@ == (Grid {
                width: width as nat,
                height: height as nat,
                cells: cells@,
            }),
    {
        proof {
            lemma_area_fits(width, height);
        }
        let area: u64 = (width as u64) * (height as u64);
        if cells.len() as u64 == area {
            Some(Raster { width, height, cells })
        } else {
            None
        }
    }

    /// Wraps cells whose number is known to fit the size.
    pub(crate) fn from_parts(width: u32, height: u32, cells: Vec<T>) -> (out: Raster<T>)
        requires
            cells.len() == width * height,
        ensures
            out@ == (Grid { width: width as nat, height: height as nat, cells: cells@ }),
            out@.wf(),
    {
        Raster { width, height, cells }
    }

    /// The number of columns.
    pub fn width(&self) -> (w: u32)
        ensures
            w == self@.width,
            self@.wf(),
    {
        proof {
            use_type_invariant(self);
        }
        self.width
    }

    /// The number of rows.
    pub fn height(&self) -> (h: u32)
        ensures
            h == self@.height,
            self@.wf(),
    {
        proof {
            use_type_invariant(self);
        }
        self.height
    }

    /// Width and height, in that order.
    pub fn dimensions(&self) -> (d: (u32, u32))
        ensures
            d.0 == self@.width,
            d.1 == self@.height,
            self@.wf(),
    {
        proof {
            use_type_invariant(self);
        }
        (self.width, self.height)
    }

    /// The cells, row by row.
    pub fn cells(&self) -> (cells: &Vec<T>)
        ensures
            cells@ == self@.cells,
            self@.wf(),
    {
        proof {
            use_type_invariant(self);
        }
        &self.cells
    }

    /// Gives up the raster for its cells, row by row.
    pub fn into_cells(self) -> (cells: Vec<T>)
        ensures
            cells@ == self@.cells,
            self@.wf(),
    {
        proof {
            use_type_invariant(&self);
        }
        self.cells
    }
}

impl<T: Copy> Raster<T> {
    /// A raster whose every cell is `value`.
    pub fn filled(width: u32, height: u32, value: T) -> (out: Raster<T>)
        requires
            width * height <= usize::MAX,
        ensures
            out@.width == width,
            out@.height == height,
            out@.wf(),
            out@.all(value),
    {
        proof {
            lemma_area_fits(width, height);
        }
        let area: usize = ((width as u64) * (height as u64)) as usize;
        let mut cells: Vec<T> = Vec::new();
        let mut i: usize = 0;
        while i < area
            invariant
                i <= area,
                cells.len() == i,
                forall|j: int| 0 <= j < i ==> cells[j] == value,
            decreases area - i,
        {
            cells.push(value);
            i += 1;
        }
        Raster { width, height, cells }
    }

    /// The cell in column `x` of row `y`.
    pub fn get_pixel(&self, x: u32, y: u32) -> (value: T)
        requires
            x < self@.width,
            y < self@.height,
        ensures
            value == self@.at(x as int, y as int),
    {
        proof {
            use_type_invariant(self);
            lemma_cell_index(self.width as int, self.height as int, x as int, y as int);
        }
        self.cells[(y as usize) * (self.width as usize) + (x as usize)]
    }

    /// Replaces the cell in column `x` of row `y` and leaves the others alone.
    pub fn put_pixel(&mut self, x: u32, y: u32, value: T)
        requires
            x < old(self)@.width,
            y < old(self)@.height,
        ensures
            final(self)@.width == old(self)@.width,
            final(self)@.height == old(self)@.height,
            final(self)@.cells == old(self)@.cells.update(y * old(self)@.width + x, value),
            final(self)@.wf(),
    {
        proof {
            use_type_invariant(&*self);
            lemma_cell_index(self.width as int, self.height as int, x as int, y as int);
        }
        let i: usize = (y as usize) * (self.width as usize) + (x as usize);
        let mut taken = Raster { width: 0, height: 0, cells: Vec::new() };
        std::mem::swap(self, &mut taken);
        let Raster { width, height, mut cells } = taken;
        cells.set(i, value);
        *self = Raster { width, height, cells };
    }
}

} // verus!

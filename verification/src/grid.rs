//! A fixed-size, two-dimensional buffer of packed colour values.

use crate::plan::{cell_at, lemma_cell_in_range};
use vstd::prelude::*;

verus! {

/// Why a buffer operation was refused.
#[derive(Clone, Copy, Debug, PartialEq, Eq, Structural)]
pub enum GridError {
    /// A side is zero, or the number of cells does not fit in `usize`.
    InvalidDimension,
    /// A coordinate lies outside the buffer.
    OutOfRange,
}

/// A `width` by `height` buffer of 32-bit colour values, stored row by row.
#[derive(Clone, Debug, PartialEq, Eq)]
pub struct GridBuffer {
    width: usize,
    height: usize,
    cells: Vec<u32>,
}

impl View for GridBuffer {
    type V = Seq<u32>;

    /// The cells, row by row: the cell at `(x, y)` is entry `y * width + x`,
    /// which `cell_at` names.
    closed spec fn view(&self) -> Seq<u32> {
        self.cells@
    }
}

impl GridBuffer {
    /// Both sides are at least one, and there is one cell per coordinate.
    pub closed spec fn wf(&self) -> bool {
        &&& self.width >= 1
        &&& self.height >= 1
        &&& self.width * self.height <= usize::MAX
        &&& self.cells@.len() == self.width * self.height
    }

    /// The number of columns.
    pub closed spec fn spec_width(&self) -> nat {
        self.width as nat
    }

    /// The number of rows.
    pub closed spec fn spec_height(&self) -> nat {
        self.height as nat
    }

    /// The colour at column `x`, row `y`.
    pub open spec fn at(&self, x: int, y: int) -> u32 {
        self@[cell_at(self.spec_width() as int, x, y)]
    }

    /// A buffer of `width` by `height` cells, all zero.
    pub fn new(width: usize, height: usize) -> (r: Result<GridBuffer, GridError>)
        ensures
            r is Ok <==> width >= 1 && height >= 1 && width * height <= usize::MAX,
            r is Err ==> r == Err::<GridBuffer, GridError>(GridError::InvalidDimension),
            r matches Ok(g) ==> g.wf() && g.spec_width() == width && g.spec_height() == height
                && g@ == Seq::new((width * height) as nat, |i: int| 0u32),
    {
        if width == 0 || height == 0 {
            return Err(GridError::InvalidDimension);
        }
        match width.checked_mul(height) {
            None => Err(GridError::InvalidDimension),
            Some(n) => {
                let cells = filled(n, 0u32);
                Ok(GridBuffer { width, height, cells })
            },
        }
    }

    /// The number of columns. Every buffer has at least one, and holds
    /// exactly `width * height` cells.
    pub fn width(&self) -> (w: usize)
        requires
            self.wf(),
        ensures
            w == self.spec_width(),
            w >= 1,
            self@.len() == self.spec_width() * self.spec_height(),
            self@.len() <= usize::MAX,
    {
        self.width
    }

    /// The number of rows. Every buffer has at least one, and holds exactly
    /// `width * height` cells.
    pub fn height(&self) -> (h: usize)
        requires
            self.wf(),
        ensures
            h == self.spec_height(),
            h >= 1,
            self@.len() == self.spec_width() * self.spec_height(),
            self@.len() <= usize::MAX,
    {
        self.height
    }

    /// The colour at `(x, y)`, or `OutOfRange` when the coordinate is outside.
    pub fn get(&self, x: usize, y: usize) -> (r: Result<u32, GridError>)
        requires
            self.wf(),
        ensures
            x < self.spec_width() && y < self.spec_height() ==> r == Ok::<u32, GridError>(
                self.at(x as int, y as int),
            ),
            !(x < self.spec_width() && y < self.spec_height()) ==> r == Err::<u32, GridError>(
                GridError::OutOfRange,
            ),
    {
        if x >= self.width || y >= self.height {
            return Err(GridError::OutOfRange);
        }
        proof {
            lemma_cell_in_range(self.width as int, self.height as int, x as int, y as int);
        }
        Ok(self.cells[y * self.width + x])
    }

    /// Stores `value` at `(x, y)`; outside the buffer nothing changes and
    /// `OutOfRange` is returned.
    pub fn set(&mut self, x: usize, y: usize, value: u32) -> (r: Result<(), GridError>)
        requires
            old(self).wf(),
        ensures
            final(self).wf(),
            final(self).spec_width() == old(self).spec_width(),
            final(self).spec_height() == old(self).spec_height(),
            x < old(self).spec_width() && y < old(self).spec_height() ==> r is Ok && final(self)@
                == old(self)@.update(cell_at(old(self).spec_width() as int, x as int, y as int), value),
            !(x < old(self).spec_width() && y < old(self).spec_height()) ==> r == Err::<
                (),
                GridError,
            >(GridError::OutOfRange) && final(self)@ == old(self)@,
    {
        if x >= self.width || y >= self.height {
            return Err(GridError::OutOfRange);
        }
        proof {
            lemma_cell_in_range(self.width as int, self.height as int, x as int, y as int);
        }
        let i: usize = y * self.width + x;
        self.cells.set(i, value);
        Ok(())
    }

    /// Colours every cell after a layout with one flag per cell: `on` where
    /// the flag is set, `off` elsewhere.
    pub fn paint(&mut self, flags: &Vec<bool>, off: u32, on: u32)
        requires
            old(self).wf(),
            flags@.len() == old(self)@.len(),
        ensures
            final(self).wf(),
            final(self).spec_width() == old(self).spec_width(),
            final(self).spec_height() == old(self).spec_height(),
            final(self)@ == painted(flags@, off, on),
    {
        let n = self.cells.len();
        let mut i: usize = 0;
        while i < n
            invariant
                i <= n,
                n == flags@.len(),
                self.cells@.len() == n,
                self.width == old(self).width,
                self.height == old(self).height,
                forall|k: int| 0 <= k < i ==> self.cells@[k] == painted(flags@, off, on)[k],
            decreases n - i,
        {
            let colour = if flags[i] {
                on
            } else {
                off
            };
            self.cells.set(i, colour);
            i += 1;
        }
        assert(self.cells@ =~= painted(flags@, off, on));
    }
}

/// The colours of a layout: `on` where the flag is set, `off` elsewhere.
pub open spec fn painted(flags: Seq<bool>, off: u32, on: u32) -> Seq<u32> {
    Seq::new(
        flags.len(),
        |i: int|
            if flags[i] {
                on
            } else {
                off
            },
    )
}

/// A vector of `n` copies of `value`.
pub fn filled<T: Copy>(n: usize, value: T) -> (v: Vec<T>)
    ensures
        v@ == Seq::new(n as nat, |i: int| value),
{
    let mut v: Vec<T> = Vec::new();
    let mut i: usize = 0;
    while i < n
        invariant
            i <= n,
            v@ == Seq::new(i as nat, |k: int| value),
        decreases n - i,
    {
        v.push(value);
        i += 1;
        assert(v@ =~= Seq::new(i as nat, |k: int| value));
    }
    v
}

} // verus!

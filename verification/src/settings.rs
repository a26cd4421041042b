//! The settings of a maze on show, and the maze that they describe.

use crate::dice::{chance_below, seeded, seeded_state};
use crate::grid::{GridBuffer, GridError};
use crate::maze::{maze_buffer, maze_cells, side_for, MazeConfig};
use vstd::prelude::*;

verus! {

/// New seeds are drawn below this bound: small numbers are easy to read
/// and to type again.
pub const SEED_BOUND: u64 = 9999;

/// The four bytes of a colour as one number: red in the lowest byte, then
/// green, blue and alpha.
pub open spec fn packed(r: u8, g: u8, b: u8, a: u8) -> u32 {
    (r + 256 * g + 65536 * b + 16777216 * a) as u32
}

/// Packs the four bytes of a colour.
pub fn pack_rgba(r: u8, g: u8, b: u8, a: u8) -> (c: u32)
    ensures
        c == packed(r, g, b, a),
{
    r as u32 + 256 * (g as u32) + 65536 * (b as u32) + 16777216 * (a as u32)
}

/// The four bytes of a packed colour.
pub open spec fn unpacked(c: u32) -> (u8, u8, u8, u8) {
    ((c % 256) as u8, ((c / 256) % 256) as u8, ((c / 65536) % 256) as u8, (c / 16777216) as u8)
}

/// Unpacks a colour into its four bytes.
pub fn unpack_rgba(c: u32) -> (rgba: (u8, u8, u8, u8))
    ensures
        rgba == unpacked(c),
{
    ((c % 256) as u8, ((c / 256) % 256) as u8, ((c / 65536) % 256) as u8, (c / 16777216) as u8)
}

/// Unpacking a packed colour gives back its four bytes.
pub proof fn lemma_pack_unpack(r: u8, g: u8, b: u8, a: u8)
    ensures
        unpacked(packed(r, g, b, a)) == (r, g, b, a),
{
    let c = packed(r, g, b, a);
    assert(c == r + 256 * g + 65536 * b + 16777216 * a);
    assert(c % 256 == r);
    assert(c / 256 == g + 256 * b + 65536 * a);
    assert((c / 256) % 256 == g);
    assert(c / 65536 == b + 256 * a);
    assert((c / 65536) % 256 == b);
    assert(c / 16777216 == a);
}

/// Packing the four bytes of a colour gives back the colour.
pub proof fn lemma_unpack_pack(c: u32)
    ensures
        packed(unpacked(c).0, unpacked(c).1, unpacked(c).2, unpacked(c).3) == c,
{
    let q1 = c / 256;
    let q2 = c / 65536;
    let q3 = c / 16777216;
    assert(c == 256 * q1 + c % 256);
    assert(q2 == q1 / 256);
    assert(q1 == 256 * q2 + q1 % 256);
    assert(q3 == q2 / 256);
    assert(q2 == 256 * q3 + q2 % 256);
}

/// What the user has chosen: the seed, the look and the size of the maze.
#[derive(Clone, Copy, Debug, PartialEq, Eq)]
pub struct Maze {
    /// The seed from which the maze is generated.
    pub seed: u64,
    /// The number of walls opened after carving.
    pub opened_walls: usize,
    /// The colour of the walls, packed.
    pub wall_color: u32,
    /// The colour of the paths, packed.
    pub path_color: u32,
    /// The number of rooms across and down.
    pub dimensions: (usize, usize),
    /// The side of the square drawn for each cell.
    pub size: usize,
}

impl Maze {
    /// The settings to start with: a perfect maze of 15 by 15 rooms with
    /// golden walls and clear paths, each cell drawn 30 wide, from a seed
    /// drawn by chance below `SEED_BOUND`.
    pub fn new() -> (m: Maze)
        ensures
            m.seed < SEED_BOUND,
            m == (Maze { seed: m.seed, ..Maze::spec_with_seed(0) }),
    {
        Maze::with_seed(chance_below(SEED_BOUND))
    }

    /// The settings to start with, for a given seed.
    pub open spec fn spec_with_seed(seed: u64) -> Maze {
        Maze {
            seed,
            opened_walls: 0,
            wall_color: packed(255, 215, 0, 255),
            path_color: packed(0, 0, 0, 0),
            dimensions: (15, 15),
            size: 30,
        }
    }

    /// The settings to start with, for a given seed.
    pub fn with_seed(seed: u64) -> (m: Maze)
        ensures
            m == Maze::spec_with_seed(seed),
    {
        Maze {
            seed,
            opened_walls: 0,
            wall_color: pack_rgba(255, 215, 0, 255),
            path_color: pack_rgba(0, 0, 0, 0),
            dimensions: (15, 15),
            size: 30,
        }
    }

    /// Replaces the seed by one drawn by chance below `SEED_BOUND`, and
    /// leaves the rest as it is.
    pub fn regenerate(&mut self)
        ensures
            final(self).seed < SEED_BOUND,
            *final(self) == (Maze { seed: final(self).seed, ..*old(self) }),
    {
        self.seed = chance_below(SEED_BOUND);
    }

    /// How the generator is to draw the maze.
    pub open spec fn spec_config(&self) -> MazeConfig {
        MazeConfig {
            wall_color: self.wall_color,
            path_color: self.path_color,
            open_walls: self.opened_walls,
        }
    }

    /// How the generator is to draw the maze.
    pub fn config(&self) -> (c: MazeConfig)
        ensures
            c == self.spec_config(),
    {
        MazeConfig {
            wall_color: self.wall_color,
            path_color: self.path_color,
            open_walls: self.opened_walls,
        }
    }

    /// A zeroed buffer of the size that the maze needs: for `n` rooms along
    /// a side, `2 * n + 1` cells. A dimension of zero, and a buffer whose
    /// number of cells does not fit in `usize`, are refused.
    pub fn window(&self) -> (r: Result<GridBuffer, GridError>)
        ensures
            r is Ok <==> self.dimensions.0 >= 1 && self.dimensions.1 >= 1 && side_for(
                self.dimensions.0 as int,
            ) * side_for(self.dimensions.1 as int) <= usize::MAX,
            r is Err ==> r == Err::<GridBuffer, GridError>(GridError::InvalidDimension),
            r matches Ok(g) ==> {
                &&& g.wf()
                &&& g.spec_width() == side_for(self.dimensions.0 as int)
                &&& g.spec_height() == side_for(self.dimensions.1 as int)
                &&& g@ == Seq::new(
                    (side_for(self.dimensions.0 as int) * side_for(self.dimensions.1 as int)) as nat,
                    |i: int| 0u32,
                )
            },
    {
        maze_buffer(self.dimensions)
    }

    /// Draws the maze that the seed gives on `window`, over all of it.
    pub fn draw_on(&self, window: &mut GridBuffer)
        requires
            old(window).wf(),
        ensures
            final(window).wf(),
            final(window).spec_width() == old(window).spec_width(),
            final(window).spec_height() == old(window).spec_height(),
            final(window)@ == maze_cells(
                self.spec_config(),
                old(window).spec_width() as int,
                old(window).spec_height() as int,
                seeded_state(self.seed),
            ),
    {
        let mut rng = seeded(self.seed);
        self.config().generate(window, &mut rng);
    }

    /// The width and the height of the picture of `window`, with a square
    /// of side `size` for each cell; `None` if either does not fit in
    /// `usize`.
    pub fn canvas(&self, window: &GridBuffer) -> (r: Option<(usize, usize)>)
        requires
            window.wf(),
        ensures
            r is Some <==> self.size * window.spec_width() <= usize::MAX && self.size
                * window.spec_height() <= usize::MAX,
            r matches Some(c) ==> c.0 == self.size * window.spec_width() && c.1 == self.size
                * window.spec_height(),
    {
        match (self.size.checked_mul(window.width()), self.size.checked_mul(window.height())) {
            (Some(across), Some(down)) => Some((across, down)),
            _ => None,
        }
    }
}

} // verus!

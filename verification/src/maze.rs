//! The maze generator: a carved maze, with further walls opened on request,
//! painted on a buffer.

use crate::breach::{
    breach_inv, breach_start, breached, lemma_breach_start, lemma_breach_walk, open_more,
    openings, shut_slots, Breach,
};
use crate::carve::{carve_rooms, carved, fit, lemma_carved};
use crate::dice::{rng_state, seeded, seeded_state};
use crate::grid::{filled, painted, GridBuffer, GridError};
use rand::rngs::StdRng;
use vstd::prelude::*;

verus! {

/// How a maze is drawn, and how many walls are opened once it is carved.
#[derive(Clone, Copy, Debug, PartialEq, Eq, Structural)]
pub struct MazeConfig {
    /// The colour of the closed cells, as four packed bytes.
    pub wall_color: u32,
    /// The colour of the open cells, as four packed bytes.
    pub path_color: u32,
    /// The number of walls to open after carving. With none the maze is
    /// perfect: one route, and only one, joins any two rooms.
    pub open_walls: usize,
}

/// Generation on a grid of `w` by `h` cells from a random source in state
/// `dice`, with `walls` further walls to open: the state it ends in. A grid
/// too small to hold a room stays closed, and the source is not used.
pub open spec fn maze_end(w: int, h: int, walls: nat, dice: Seq<u32>) -> Breach {
    if w >= 3 && h >= 3 {
        let walk = carved(w, h, dice);
        breached(walk.open, w, h, walk.dice, walls)
    } else {
        Breach { open: Seq::new((w * h) as nat, |c: int| false), slots: Seq::empty(), dice }
    }
}

/// Which cells of the generated maze are open, row by row.
pub open spec fn maze_layout(w: int, h: int, walls: nat, dice: Seq<u32>) -> Seq<bool> {
    maze_end(w, h, walls, dice).open
}

/// The state in which generation leaves the random source.
pub open spec fn maze_dice(w: int, h: int, walls: nat, dice: Seq<u32>) -> Seq<u32> {
    maze_end(w, h, walls, dice).dice
}

/// The colours of the generated maze, row by row.
pub open spec fn maze_cells(config: MazeConfig, w: int, h: int, dice: Seq<u32>) -> Seq<u32> {
    painted(
        maze_layout(w, h, config.open_walls as nat, dice),
        config.wall_color,
        config.path_color,
    )
}

/// The side of the grid that holds `rooms` rooms along it.
pub open spec fn side_for(rooms: int) -> int {
    2 * rooms + 1
}

/// Where the grid holds a room, generation ends in order: the carved maze
/// is the base, and the openings made are those asked for, or all there
/// were to make.
pub proof fn lemma_maze_end(w: int, h: int, walls: nat, dice: Seq<u32>)
    requires
        fit(w, h),
    ensures
        breach_inv(
            w,
            h,
            carved(w, h, dice).open,
            maze_end(w, h, walls, dice),
            openings(carved(w, h, dice).open, w, h, walls) as int,
        ),
        maze_end(w, h, walls, dice).slots.len() == shut_slots(carved(w, h, dice).open, w, h, h).len(),
{
    let walk = carved(w, h, dice);
    lemma_carved(w, h, dice);
    lemma_breach_start(walk.open, w, h, walk.dice);
    lemma_breach_walk(
        w,
        h,
        walk.open,
        breach_start(walk.open, w, h, walk.dice),
        openings(walk.open, w, h, walls),
    );
}

/// A layout has one flag for each cell of the grid.
pub proof fn lemma_layout_len(w: int, h: int, walls: nat, dice: Seq<u32>)
    requires
        0 <= w,
        0 <= h,
        w * h <= usize::MAX,
    ensures
        maze_layout(w, h, walls, dice).len() == w * h,
{
    assert(0 <= w * h) by (nonlinear_arith)
        requires
            0 <= w,
            0 <= h,
    ;
    if w >= 3 && h >= 3 {
        lemma_maze_end(w, h, walls, dice);
    }
}

/// Generates the layout of a maze on a grid of `width` by `height` cells.
pub fn lay_out(width: usize, height: usize, open_walls: usize, rng: &mut StdRng) -> (open: Vec<bool>)
    requires
        width * height <= usize::MAX,
    ensures
        open@.len() == width * height,
        open@ == maze_layout(
            width as int,
            height as int,
            open_walls as nat,
            rng_state(*old(rng)),
        ),
        rng_state(*final(rng)) == maze_dice(
            width as int,
            height as int,
            open_walls as nat,
            rng_state(*old(rng)),
        ),
{
    proof {
        lemma_layout_len(width as int, height as int, open_walls as nat, rng_state(*rng));
    }
    if width >= 3 && height >= 3 {
        proof {
            lemma_carved(width as int, height as int, rng_state(*rng));
        }
        let rooms = carve_rooms(width, height, rng);
        open_more(rooms, width, height, open_walls, rng)
    } else {
        filled(width * height, false)
    }
}

impl MazeConfig {
    /// Fills `buffer` with a maze. The buffer holds `(width - 1) / 2` by
    /// `(height - 1) / 2` rooms; its size does not change.
    pub fn generate(&self, buffer: &mut GridBuffer, rng: &mut StdRng)
        requires
            old(buffer).wf(),
        ensures
            final(buffer).wf(),
            final(buffer).spec_width() == old(buffer).spec_width(),
            final(buffer).spec_height() == old(buffer).spec_height(),
            final(buffer)@ == maze_cells(
                *self,
                old(buffer).spec_width() as int,
                old(buffer).spec_height() as int,
                rng_state(*old(rng)),
            ),
            rng_state(*final(rng)) == maze_dice(
                old(buffer).spec_width() as int,
                old(buffer).spec_height() as int,
                self.open_walls as nat,
                rng_state(*old(rng)),
            ),
    {
        let width = buffer.width();
        let height = buffer.height();
        let open = lay_out(width, height, self.open_walls, rng);
        buffer.paint(&open, self.wall_color, self.path_color);
    }

    /// The maze of `dimensions.0` by `dimensions.1` rooms that the seed
    /// gives, on a new buffer of `2 * dimensions.0 + 1` by
    /// `2 * dimensions.1 + 1` cells. A dimension of zero, and a buffer whose
    /// number of cells does not fit in `usize`, are refused.
    pub fn build(&self, dimensions: (usize, usize), seed: u64) -> (r: Result<GridBuffer, GridError>)
        ensures
            r is Ok <==> dimensions.0 >= 1 && dimensions.1 >= 1 && side_for(dimensions.0 as int)
                * side_for(dimensions.1 as int) <= usize::MAX,
            r is Err ==> r == Err::<GridBuffer, GridError>(GridError::InvalidDimension),
            r matches Ok(g) ==> {
                &&& g.wf()
                &&& g.spec_width() == side_for(dimensions.0 as int)
                &&& g.spec_height() == side_for(dimensions.1 as int)
                &&& g@ == maze_cells(
                    *self,
                    side_for(dimensions.0 as int),
                    side_for(dimensions.1 as int),
                    seeded_state(seed),
                )
            },
    {
        let mut buffer = match maze_buffer(dimensions) {
            Ok(b) => b,
            Err(e) => {
                return Err(e);
            },
        };
        let mut rng = seeded(seed);
        self.generate(&mut buffer, &mut rng);
        Ok(buffer)
    }
}

/// A zeroed buffer for a maze of `dimensions.0` by `dimensions.1` rooms.
pub fn maze_buffer(dimensions: (usize, usize)) -> (r: Result<GridBuffer, GridError>)
    ensures
        r is Ok <==> dimensions.0 >= 1 && dimensions.1 >= 1 && side_for(dimensions.0 as int)
            * side_for(dimensions.1 as int) <= usize::MAX,
        r is Err ==> r == Err::<GridBuffer, GridError>(GridError::InvalidDimension),
        r matches Ok(g) ==> {
            &&& g.wf()
            &&& g.spec_width() == side_for(dimensions.0 as int)
            &&& g.spec_height() == side_for(dimensions.1 as int)
            &&& g@ == Seq::new(
                (side_for(dimensions.0 as int) * side_for(dimensions.1 as int)) as nat,
                |i: int| 0u32,
            )
        },
{
    if dimensions.0 == 0 || dimensions.1 == 0 {
        return Err(GridError::InvalidDimension);
    }
    if dimensions.0 > (usize::MAX - 1) / 2 || dimensions.1 > (usize::MAX - 1) / 2 {
        proof {
            let a = side_for(dimensions.0 as int);
            let b = side_for(dimensions.1 as int);
            assert(a * b > usize::MAX) by (nonlinear_arith)
                requires
                    a >= 3,
                    b >= 3,
                    a > usize::MAX || b > usize::MAX,
            ;
        }
        return Err(GridError::InvalidDimension);
    }
    GridBuffer::new(2 * dimensions.0 + 1, 2 * dimensions.1 + 1)
}

} // verus!

//! What holds of every generated maze.

use crate::breach::{
    breach_start, lemma_breach_grows, lemma_breach_start, listed, openings, shut_slot, shut_slots,
};
use crate::carve::{all_rooms_open, carved, fit, lemma_carved, lemma_fit, tidy};
use crate::census::{all_walls, lemma_shut_count};
use crate::count::{count_true, lemma_count_monotone};
use crate::grid::painted;
use crate::maze::{lemma_layout_len, lemma_maze_end, maze_cells, maze_end, maze_layout, MazeConfig};
use crate::plan::{
    cell_at, extends, is_wall_slot, lemma_cell_in_range, on_border, open_at, rooms_along,
    walls_open,
};
use crate::walk::{connected, lemma_rooted_connected};
use vstd::prelude::*;

verus! {

/// The grid is one that a buffer can have: its number of cells fits in
/// `usize`.
pub open spec fn grid_size(w: int, h: int) -> bool {
    0 <= w && 0 <= h && w * h <= usize::MAX
}

/// The number of walls that are still closed once the maze is carved: as
/// many as can be opened. Of the walls between neighbouring rooms, carving
/// opens one fewer than there are rooms.
pub open spec fn spare_walls(w: int, h: int) -> nat {
    if w >= 3 && h >= 3 {
        ((rooms_along(w) - 1) * (rooms_along(h) - 1)) as nat
    } else {
        0
    }
}

/// The number of walls opened when `walls` are asked for.
pub open spec fn walls_opened(w: int, h: int, walls: nat) -> nat {
    if walls <= spare_walls(w, h) {
        walls
    } else {
        spare_walls(w, h)
    }
}

/// However the maze is carved, the walls that it leaves closed are as many
/// as `spare_walls` says.
pub proof fn lemma_spare_walls(w: int, h: int, dice: Seq<u32>)
    requires
        fit(w, h),
    ensures
        shut_slots(carved(w, h, dice).open, w, h, h).len() == spare_walls(w, h),
        openings(carved(w, h, dice).open, w, h, spare_walls(w, h)) == spare_walls(w, h),
        forall|walls: nat|
            #[trigger] openings(carved(w, h, dice).open, w, h, walls) == walls_opened(w, h, walls),
{
    lemma_fit(w, h);
    lemma_carved(w, h, dice);
    lemma_shut_count(carved(w, h, dice).open, w, h);
    let across = rooms_along(w);
    let down = rooms_along(h);
    assert(all_walls(w, h) - (across * down - 1) == (across - 1) * (down - 1))
        by (nonlinear_arith)
        requires
            all_walls(w, h) == down * (across - 1) + (down - 1) * across,
    ;
    assert(0 <= (across - 1) * (down - 1)) by (nonlinear_arith)
        requires
            1 <= across,
            1 <= down,
    ;
}

/// A cell of the maze has the path colour where the layout is open and the
/// wall colour where it is closed.
pub proof fn lemma_cells_follow_layout(config: MazeConfig, w: int, h: int, dice: Seq<u32>)
    requires
        grid_size(w, h),
    ensures
        maze_cells(config, w, h, dice).len() == w * h,
        forall|i: int|
            0 <= i < w * h ==> #[trigger] maze_cells(config, w, h, dice)[i] == if maze_layout(
                w,
                h,
                config.open_walls as nat,
                dice,
            )[i] {
                config.path_color
            } else {
                config.wall_color
            },
{
    lemma_layout_len(w, h, config.open_walls as nat, dice);
}

/// Generation is repeatable, and the colours play no part in it. Two mazes
/// made on grids of one size, from random sources in one state (as two
/// sources seeded alike are), with one number of walls to open, follow one
/// layout, which depends on no colour: each has its path colour where the
/// layout is open and its wall colour elsewhere. So where the two colours
/// of each differ, the paths of both are in the same places, and where the
/// two mazes have the same colours they are equal.
pub proof fn lemma_same_layout(a: MazeConfig, b: MazeConfig, w: int, h: int, dice: Seq<u32>)
    requires
        grid_size(w, h),
        a.open_walls == b.open_walls,
    ensures
        maze_cells(a, w, h, dice) == painted(
            maze_layout(w, h, a.open_walls as nat, dice),
            a.wall_color,
            a.path_color,
        ),
        maze_cells(b, w, h, dice) == painted(
            maze_layout(w, h, a.open_walls as nat, dice),
            b.wall_color,
            b.path_color,
        ),
        maze_cells(a, w, h, dice).len() == w * h,
        maze_cells(b, w, h, dice).len() == w * h,
        a.wall_color != a.path_color && b.wall_color != b.path_color ==> forall|i: int|
            0 <= i < w * h ==> (#[trigger] maze_cells(a, w, h, dice)[i] == a.path_color) == (
            maze_cells(b, w, h, dice)[i] == b.path_color),
        a.path_color == b.path_color && a.wall_color == b.wall_color ==> maze_cells(a, w, h, dice)
            == maze_cells(b, w, h, dice),
{
    lemma_cells_follow_layout(a, w, h, dice);
    lemma_cells_follow_layout(b, w, h, dice);
}

/// With the two colours exchanged, every cell has the other colour, and
/// nothing else changes.
pub proof fn lemma_swapped_colours(a: MazeConfig, w: int, h: int, dice: Seq<u32>)
    requires
        grid_size(w, h),
    ensures
        forall|i: int|
            0 <= i < w * h ==> #[trigger] maze_cells(
                (MazeConfig {
                    wall_color: a.path_color,
                    path_color: a.wall_color,
                    open_walls: a.open_walls,
                }),
                w,
                h,
                dice,
            )[i] == if maze_cells(a, w, h, dice)[i] == a.path_color {
                a.wall_color
            } else {
                a.path_color
            },
{
    let b = MazeConfig {
        wall_color: a.path_color,
        path_color: a.wall_color,
        open_walls: a.open_walls,
    };
    lemma_cells_follow_layout(a, w, h, dice);
    lemma_cells_follow_layout(b, w, h, dice);
}

/// In every maze all rooms are open, nothing but rooms and wall slots is
/// open, and the open cells form a single component. Carving leaves one
/// wall slot fewer open than there are rooms; the walls opened afterwards
/// are as many as were asked for, or all that were closed.
pub proof fn lemma_maze_shape(w: int, h: int, walls: nat, dice: Seq<u32>)
    requires
        fit(w, h),
    ensures
        all_rooms_open(maze_layout(w, h, walls, dice), w, h),
        tidy(maze_layout(w, h, walls, dice), w, h),
        connected(maze_layout(w, h, walls, dice), w, h),
        walls_open(maze_layout(w, h, walls, dice), w, h) == rooms_along(w) * rooms_along(h) - 1
            + walls_opened(w, h, walls),
        count_true(maze_layout(w, h, walls, dice)) == 2 * (rooms_along(w) * rooms_along(h)) - 1
            + walls_opened(w, h, walls),
{
    lemma_spare_walls(w, h, dice);
    lemma_carved(w, h, dice);
    lemma_maze_end(w, h, walls, dice);
    lemma_rooted_connected(maze_layout(w, h, walls, dice), w, h, (1, 1));
}

/// A maze with no further wall opened is perfect: its open cells form a
/// single component, and the open wall slots, each of which joins two
/// neighbouring rooms, are one fewer than the rooms, so that no route
/// closes a circle.
pub proof fn lemma_perfect_maze(w: int, h: int, dice: Seq<u32>)
    requires
        fit(w, h),
    ensures
        connected(maze_layout(w, h, 0, dice), w, h),
        all_rooms_open(maze_layout(w, h, 0, dice), w, h),
        tidy(maze_layout(w, h, 0, dice), w, h),
        walls_open(maze_layout(w, h, 0, dice), w, h) == rooms_along(w) * rooms_along(h) - 1,
{
    lemma_maze_shape(w, h, 0, dice);
}

/// Asking for more walls to be opened closes nothing: every cell that is
/// open with `fewer` is open with `more`, so the open cells are at least
/// as many.
pub proof fn lemma_more_walls(w: int, h: int, dice: Seq<u32>, fewer: nat, more: nat)
    requires
        grid_size(w, h),
        fewer <= more,
    ensures
        extends(maze_layout(w, h, fewer, dice), maze_layout(w, h, more, dice)),
        count_true(maze_layout(w, h, fewer, dice)) <= count_true(maze_layout(w, h, more, dice)),
{
    lemma_layout_len(w, h, fewer, dice);
    lemma_layout_len(w, h, more, dice);
    if w >= 3 && h >= 3 {
        let walk = carved(w, h, dice);
        lemma_carved(w, h, dice);
        lemma_breach_start(walk.open, w, h, walk.dice);
        lemma_breach_grows(
            w,
            h,
            walk.open,
            breach_start(walk.open, w, h, walk.dice),
            openings(walk.open, w, h, fewer),
            openings(walk.open, w, h, more),
        );
    }
    lemma_count_monotone(maze_layout(w, h, fewer, dice), maze_layout(w, h, more, dice));
}

/// Asking for more walls than are closed gives the same maze as asking
/// for exactly as many as are closed.
pub proof fn lemma_saturation(w: int, h: int, dice: Seq<u32>, walls: nat)
    requires
        grid_size(w, h),
        walls >= spare_walls(w, h),
    ensures
        maze_end(w, h, walls, dice) == maze_end(w, h, spare_walls(w, h), dice),
        maze_layout(w, h, walls, dice) == maze_layout(w, h, spare_walls(w, h), dice),
{
    if w >= 3 && h >= 3 {
        lemma_spare_walls(w, h, dice);
    }
}

/// When at least as many walls are asked for as are closed, every wall
/// slot of the maze is open: only the pillars stand inside the outer ring.
pub proof fn lemma_all_walls_open(w: int, h: int, dice: Seq<u32>, walls: nat)
    requires
        fit(w, h),
        walls >= spare_walls(w, h),
    ensures
        forall|x: int, y: int|
            is_wall_slot(w, h, x, y) ==> #[trigger] open_at(maze_layout(w, h, walls, dice), w, x, y),
{
    lemma_fit(w, h);
    lemma_spare_walls(w, h, dice);
    lemma_maze_end(w, h, walls, dice);
    let base = carved(w, h, dice).open;
    let end = maze_end(w, h, walls, dice);
    assert forall|x: int, y: int| is_wall_slot(w, h, x, y) implies #[trigger] open_at(
        end.open,
        w,
        x,
        y,
    ) by {
        lemma_cell_in_range(w, h, x, y);
        if open_at(base, w, x, y) {
            assert(end.open[cell_at(w, x, y)]);
        } else {
            assert(shut_slot(base, w, h, x, y));
            assert(listed(end.slots, x, y));
            let k = choose|k: int|
                0 <= k < end.slots.len() && (#[trigger] end.slots[k]).0 == x && end.slots[k].1 == y;
            assert(open_at(end.open, w, end.slots[k].0 as int, end.slots[k].1 as int));
        }
    }
}

/// The outer ring of the grid is closed.
pub proof fn lemma_border_closed(w: int, h: int, walls: nat, dice: Seq<u32>)
    requires
        grid_size(w, h),
    ensures
        forall|x: int, y: int|
            on_border(w, h, x, y) ==> !#[trigger] open_at(maze_layout(w, h, walls, dice), w, x, y),
{
    let open = maze_layout(w, h, walls, dice);
    assert forall|x: int, y: int| on_border(w, h, x, y) implies !#[trigger] open_at(
        open,
        w,
        x,
        y,
    ) by {
        lemma_cell_in_range(w, h, x, y);
        if w >= 3 && h >= 3 {
            lemma_fit(w, h);
            lemma_maze_end(w, h, walls, dice);
        }
    }
}

/// Every cell on the outer ring of a generated maze has the wall colour.
pub proof fn lemma_border_is_wall(config: MazeConfig, w: int, h: int, dice: Seq<u32>)
    requires
        grid_size(w, h),
    ensures
        forall|x: int, y: int|
            on_border(w, h, x, y) ==> maze_cells(config, w, h, dice)[#[trigger] cell_at(w, x, y)]
                == config.wall_color,
{
    lemma_border_closed(w, h, config.open_walls as nat, dice);
    lemma_cells_follow_layout(config, w, h, dice);
    assert forall|x: int, y: int| on_border(w, h, x, y) implies maze_cells(config, w, h, dice)[
    #[trigger] cell_at(w, x, y)] == config.wall_color by {
        lemma_cell_in_range(w, h, x, y);
        assert(!open_at(maze_layout(w, h, config.open_walls as nat, dice), w, x, y));
    }
}

} // verus!

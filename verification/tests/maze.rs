use labyrinth::grid::{GridBuffer, GridError};
use labyrinth::maze::{lay_out, maze_buffer, MazeConfig};
use rand::rngs::StdRng;
use rand::{RngCore, SeedableRng};

const WALL: u32 = 0xFF00_D7FF;
const PATH: u32 = 0;

fn config(open_walls: usize) -> MazeConfig {
    MazeConfig { wall_color: WALL, path_color: PATH, open_walls }
}

fn picture(g: &GridBuffer) -> Vec<String> {
    let mut rows = Vec::new();
    for y in 0..g.height() {
        let mut row = String::new();
        for x in 0..g.width() {
            row.push(if g.get(x, y) == Ok(PATH) { '.' } else { '#' });
        }
        rows.push(row);
    }
    rows
}

fn paths(g: &GridBuffer) -> Vec<(usize, usize)> {
    let mut cells = Vec::new();
    for y in 0..g.height() {
        for x in 0..g.width() {
            if g.get(x, y) == Ok(PATH) {
                cells.push((x, y));
            }
        }
    }
    cells
}

/// The number of path cells that can be reached from `(1, 1)`.
fn reachable(g: &GridBuffer) -> usize {
    let mut seen = vec![vec![false; g.width()]; g.height()];
    let mut todo = vec![(1usize, 1usize)];
    seen[1][1] = true;
    let mut count = 0;
    while let Some((x, y)) = todo.pop() {
        count += 1;
        let around = [(x + 1, y), (x - 1, y), (x, y + 1), (x, y - 1)];
        for (nx, ny) in around {
            if g.get(nx, ny) == Ok(PATH) && !seen[ny][nx] {
                seen[ny][nx] = true;
                todo.push((nx, ny));
            }
        }
    }
    count
}

fn open_rooms(g: &GridBuffer) -> usize {
    paths(g).iter().filter(|(x, y)| x % 2 == 1 && y % 2 == 1).count()
}

fn open_slots(g: &GridBuffer) -> usize {
    paths(g).iter().filter(|(x, y)| (x + y) % 2 == 1).count()
}

fn border_is_wall(g: &GridBuffer) -> bool {
    let (w, h) = (g.width(), g.height());
    (0..w).all(|x| g.get(x, 0) == Ok(WALL) && g.get(x, h - 1) == Ok(WALL))
        && (0..h).all(|y| g.get(0, y) == Ok(WALL) && g.get(w - 1, y) == Ok(WALL))
}

#[test]
fn single_room_maze() {
    let g = config(0).build((1, 1), 42).unwrap();
    assert_eq!((g.width(), g.height()), (3, 3));
    assert_eq!(picture(&g), vec!["###", "#.#", "###"]);
    assert_eq!(g.get(1, 1), Ok(PATH));
    assert_eq!(paths(&g), vec![(1, 1)]);
}

#[test]
fn three_by_three_is_a_spanning_tree() {
    let g = config(0).build((3, 3), 7).unwrap();
    assert_eq!((g.width(), g.height()), (7, 7));
    assert_eq!(open_rooms(&g), 9);
    assert_eq!(open_slots(&g), 8);
    assert_eq!(paths(&g).len(), 17);
    assert_eq!(reachable(&g), 17);
    assert!(border_is_wall(&g));
    let again = config(0).build((3, 3), 7).unwrap();
    assert_eq!(again, g);
}

#[test]
fn seed_seven_layout() {
    let g = config(0).build((3, 3), 7).unwrap();
    assert_eq!(
        picture(&g),
        vec!["#######", "#.....#", "#####.#", "#...#.#", "#.#.#.#", "#.#...#", "#######"]
    );
}

#[test]
fn seed_seven_with_two_walls_opened() {
    let g = config(2).build((3, 3), 7).unwrap();
    assert_eq!(
        picture(&g),
        vec!["#######", "#.....#", "###.#.#", "#...#.#", "#.#.#.#", "#.....#", "#######"]
    );
}

#[test]
fn wide_maze_layout() {
    let g = config(0).build((4, 2), 1).unwrap();
    assert_eq!((g.width(), g.height()), (9, 5));
    assert_eq!(
        picture(&g),
        vec!["#########", "#.#...#.#", "#.#.#.#.#", "#...#...#", "#########"]
    );
}

#[test]
fn same_seed_same_maze() {
    for seed in [0u64, 1, 7, 42, 9998, u64::MAX] {
        for walls in [0usize, 3, 50] {
            let a = config(walls).build((6, 5), seed).unwrap();
            let b = config(walls).build((6, 5), seed).unwrap();
            assert_eq!(a, b);
        }
    }
}

#[test]
fn layout_does_not_depend_on_colours() {
    let plain = config(3).build((5, 4), 11).unwrap();
    let other = MazeConfig { wall_color: 1, path_color: 2, open_walls: 3 }.build((5, 4), 11).unwrap();
    for y in 0..plain.height() {
        for x in 0..plain.width() {
            let here = plain.get(x, y).unwrap();
            let there = other.get(x, y).unwrap();
            assert!(here == WALL || here == PATH);
            assert!(there == 1 || there == 2);
            assert_eq!(here == PATH, there == 2);
        }
    }
}

#[test]
fn swapped_colours_invert_cells() {
    let plain = config(2).build((4, 4), 5).unwrap();
    let swapped =
        MazeConfig { wall_color: PATH, path_color: WALL, open_walls: 2 }.build((4, 4), 5).unwrap();
    for y in 0..plain.height() {
        for x in 0..plain.width() {
            let here = plain.get(x, y).unwrap();
            let expected = if here == PATH { WALL } else { PATH };
            assert_eq!(swapped.get(x, y), Ok(expected));
        }
    }
}

#[test]
fn equal_colours_are_accepted() {
    let g = MazeConfig { wall_color: 9, path_color: 9, open_walls: 1 }.build((2, 2), 3).unwrap();
    for y in 0..5 {
        for x in 0..5 {
            assert_eq!(g.get(x, y), Ok(9));
        }
    }
}

#[test]
fn more_walls_keep_paths() {
    for seed in [7u64, 8, 9] {
        let mut before = config(0).build((3, 3), seed).unwrap();
        assert_eq!(paths(&before).len(), 17);
        for walls in 1..8usize {
            let after = config(walls).build((3, 3), seed).unwrap();
            for cell in paths(&before) {
                assert_eq!(after.get(cell.0, cell.1), Ok(PATH));
            }
            assert!(paths(&after).len() >= paths(&before).len());
            assert_eq!(paths(&after).len(), 17 + walls.min(4));
            assert_eq!(reachable(&after), paths(&after).len());
            assert!(border_is_wall(&after));
            before = after;
        }
    }
}

#[test]
fn too_many_walls_open_them_all() {
    let all = config(4).build((3, 3), 7).unwrap();
    let more = config(5).build((3, 3), 7).unwrap();
    let most = config(usize::MAX).build((3, 3), 7).unwrap();
    assert_eq!(more, all);
    assert_eq!(most, all);
    assert_eq!(open_slots(&all), 12);
    assert_eq!(
        picture(&all),
        vec!["#######", "#.....#", "#.#.#.#", "#.....#", "#.#.#.#", "#.....#", "#######"]
    );
}

#[test]
fn single_room_has_no_wall_to_open() {
    let g = config(10).build((1, 1), 42).unwrap();
    assert_eq!(picture(&g), vec!["###", "#.#", "###"]);
}

#[test]
fn row_of_rooms_is_a_corridor() {
    let g = config(0).build((4, 1), 3).unwrap();
    assert_eq!(picture(&g), vec!["#########", "#.......#", "#########"]);
    let down = config(0).build((1, 3), 3).unwrap();
    assert_eq!(picture(&down), vec!["###", "#.#", "#.#", "#.#", "#.#", "#.#", "###"]);
}

#[test]
fn perfect_mazes_are_trees() {
    for (across, down) in [(1usize, 1usize), (2, 2), (5, 3), (3, 8), (15, 15), (20, 11)] {
        for seed in [0u64, 1, 2, 1234] {
            let g = config(0).build((across, down), seed).unwrap();
            let rooms = across * down;
            assert_eq!((g.width(), g.height()), (2 * across + 1, 2 * down + 1));
            assert_eq!(open_rooms(&g), rooms);
            assert_eq!(open_slots(&g), rooms - 1);
            assert_eq!(paths(&g).len(), 2 * rooms - 1);
            assert_eq!(reachable(&g), 2 * rooms - 1);
            assert!(border_is_wall(&g));
        }
    }
}

#[test]
fn pillars_stay_closed() {
    let g = config(usize::MAX).build((4, 3), 9).unwrap();
    for y in 0..g.height() {
        for x in 0..g.width() {
            let inside = x >= 1 && y >= 1 && x + 1 < g.width() && y + 1 < g.height();
            let pillar = x % 2 == 0 && y % 2 == 0;
            let expected = if inside && !pillar { PATH } else { WALL };
            assert_eq!(g.get(x, y), Ok(expected));
        }
    }
}

#[test]
fn different_seeds_give_different_mazes() {
    let a = config(0).build((15, 15), 1).unwrap();
    let b = config(0).build((15, 15), 2).unwrap();
    assert_ne!(a, b);
}

#[test]
fn zero_dimension_is_refused() {
    assert_eq!(config(0).build((0, 3), 1), Err(GridError::InvalidDimension));
    assert_eq!(config(0).build((3, 0), 1), Err(GridError::InvalidDimension));
    assert_eq!(config(0).build((0, 0), 1), Err(GridError::InvalidDimension));
    assert_eq!(maze_buffer((0, 1)), Err(GridError::InvalidDimension));
}

#[test]
fn oversized_dimension_is_refused() {
    assert_eq!(config(0).build((usize::MAX, 1), 1), Err(GridError::InvalidDimension));
    assert_eq!(config(0).build((1, usize::MAX / 2), 1), Err(GridError::InvalidDimension));
    assert_eq!(config(0).build((usize::MAX / 4, usize::MAX / 4), 1), Err(GridError::InvalidDimension));
}

#[test]
fn maze_buffer_has_encoded_size() {
    let g = maze_buffer((15, 15)).unwrap();
    assert_eq!((g.width(), g.height()), (31, 31));
    assert_eq!(g.get(30, 30), Ok(0));
    let g = maze_buffer((2, 7)).unwrap();
    assert_eq!((g.width(), g.height()), (5, 15));
}

#[test]
fn generate_fills_in_place() {
    let mut g = GridBuffer::new(7, 7).unwrap();
    g.set(0, 0, 123).unwrap();
    let mut rng = StdRng::seed_from_u64(7);
    config(0).generate(&mut g, &mut rng);
    assert_eq!((g.width(), g.height()), (7, 7));
    assert_eq!(g, config(0).build((3, 3), 7).unwrap());
}

#[test]
fn buffers_without_room_stay_closed() {
    for (w, h) in [(1usize, 1usize), (2, 2), (1, 9), (9, 2), (2, 3)] {
        let mut g = GridBuffer::new(w, h).unwrap();
        let mut rng = StdRng::seed_from_u64(5);
        config(3).generate(&mut g, &mut rng);
        assert_eq!(paths(&g), vec![]);
        assert_eq!((g.width(), g.height()), (w, h));
        let mut untouched = StdRng::seed_from_u64(5);
        assert_eq!(rng.next_u64(), untouched.next_u64());
    }
}

#[test]
fn even_sides_leave_a_spare_row_and_column() {
    let mut g = GridBuffer::new(8, 6).unwrap();
    let mut rng = StdRng::seed_from_u64(12);
    config(0).generate(&mut g, &mut rng);
    assert_eq!(open_rooms(&g), 6);
    assert_eq!(open_slots(&g), 5);
    assert_eq!(reachable(&g), 11);
    assert!(border_is_wall(&g));
    for y in 0..6 {
        assert_eq!(g.get(6, y), Ok(WALL));
        assert_eq!(g.get(7, y), Ok(WALL));
    }
    for x in 0..8 {
        assert_eq!(g.get(x, 4), Ok(WALL));
        assert_eq!(g.get(x, 5), Ok(WALL));
    }
    let mut odd = GridBuffer::new(7, 5).unwrap();
    let mut rng = StdRng::seed_from_u64(12);
    config(0).generate(&mut odd, &mut rng);
    for y in 0..5 {
        for x in 0..7 {
            assert_eq!(g.get(x, y), odd.get(x, y));
        }
    }
}

#[test]
fn lay_out_marks_the_open_cells() {
    let mut rng = StdRng::seed_from_u64(7);
    let open = lay_out(7, 7, 0, &mut rng);
    let g = config(0).build((3, 3), 7).unwrap();
    assert_eq!(open.len(), 49);
    for y in 0..7 {
        for x in 0..7 {
            assert_eq!(open[y * 7 + x], g.get(x, y) == Ok(PATH));
        }
    }
    let mut rng = StdRng::seed_from_u64(7);
    assert_eq!(lay_out(0, 5, 2, &mut rng), Vec::<bool>::new());
}

#[test]
fn generator_draws_advance_the_source() {
    let mut rng = StdRng::seed_from_u64(7);
    let first = lay_out(7, 7, 0, &mut rng);
    let second = lay_out(7, 7, 0, &mut rng);
    let mut fresh = StdRng::seed_from_u64(7);
    assert_eq!(lay_out(7, 7, 0, &mut fresh), first);
    assert_ne!(first, second);
}

#[test]
fn spare_walls_are_one_per_inner_corner() {
    for (across, down) in [(1usize, 1usize), (1, 6), (2, 2), (3, 3), (5, 4), (9, 2)] {
        let rooms = across * down;
        let spare = (across - 1) * (down - 1);
        for walls in [0usize, 1, spare, spare + 1, 1000] {
            let g = config(walls).build((across, down), 21).unwrap();
            let opened = walls.min(spare);
            assert_eq!(open_rooms(&g), rooms);
            assert_eq!(open_slots(&g), rooms - 1 + opened);
            assert_eq!(paths(&g).len(), 2 * rooms - 1 + opened);
            assert_eq!(reachable(&g), 2 * rooms - 1 + opened);
        }
        let full = config(spare).build((across, down), 21).unwrap();
        assert_eq!(open_slots(&full), down * (across - 1) + (down - 1) * across);
        assert_eq!(full, config(spare + 7).build((across, down), 21).unwrap());
    }
}

#[test]
fn five_by_four_with_five_walls() {
    let g = config(5).build((5, 4), 3).unwrap();
    assert_eq!((g.width(), g.height()), (11, 9));
    assert_eq!(paths(&g).len(), 44);
    assert_eq!(open_slots(&g), 24);
}

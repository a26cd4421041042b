use labyrinth::grid::{GridBuffer, GridError};
use labyrinth::settings::{pack_rgba, unpack_rgba, Maze, SEED_BOUND};

#[test]
fn new_settings_have_the_defaults() {
    for _ in 0..50 {
        let m = Maze::new();
        assert!(m.seed < 9999);
        assert_eq!(m.opened_walls, 0);
        assert_eq!(m.wall_color, 0xFF00_D7FF);
        assert_eq!(m.path_color, 0);
        assert_eq!(m.dimensions, (15, 15));
        assert_eq!(m.size, 30);
        assert_eq!(m, Maze { seed: m.seed, ..Maze::with_seed(0) });
    }
    assert_eq!(SEED_BOUND, 9999);
}

#[test]
fn regenerate_changes_the_seed_only() {
    let mut m = Maze {
        seed: 123_456,
        opened_walls: 4,
        wall_color: 1,
        path_color: 2,
        dimensions: (3, 9),
        size: 11,
    };
    let before = m;
    m.regenerate();
    assert!(m.seed < 9999);
    assert_eq!(m, Maze { seed: m.seed, ..before });
}

#[test]
fn colours_pack_red_first() {
    assert_eq!(pack_rgba(255, 215, 0, 255), 0xFF00_D7FF);
    assert_eq!(pack_rgba(0, 0, 0, 0), 0);
    assert_eq!(pack_rgba(1, 2, 3, 4), 0x0403_0201);
    assert_eq!(pack_rgba(255, 255, 255, 255), u32::MAX);
    assert_eq!(unpack_rgba(0x0403_0201), (1, 2, 3, 4));
    assert_eq!(unpack_rgba(u32::MAX), (255, 255, 255, 255));
    assert_eq!(unpack_rgba(0), (0, 0, 0, 0));
}

#[test]
fn packing_and_unpacking_undo_each_other() {
    for c in [0u32, 1, 255, 256, 65_535, 65_536, 0x00FF_FFFF, 0x0100_0000, 0xDEAD_BEEF, u32::MAX] {
        let (r, g, b, a) = unpack_rgba(c);
        assert_eq!(pack_rgba(r, g, b, a), c);
    }
    for bytes in [(0u8, 0u8, 0u8, 0u8), (9, 8, 7, 6), (255, 0, 255, 0), (0, 255, 0, 255)] {
        assert_eq!(unpack_rgba(pack_rgba(bytes.0, bytes.1, bytes.2, bytes.3)), bytes);
    }
}

#[test]
fn config_copies_the_settings() {
    let m = Maze { opened_walls: 6, wall_color: 77, path_color: 88, ..Maze::with_seed(5) };
    let c = m.config();
    assert_eq!((c.wall_color, c.path_color, c.open_walls), (77, 88, 6));
}

#[test]
fn window_has_room_for_the_walls() {
    let g = Maze::with_seed(1).window().unwrap();
    assert_eq!((g.width(), g.height()), (31, 31));
    let m = Maze { dimensions: (0, 5), ..Maze::with_seed(1) };
    assert_eq!(m.window(), Err(GridError::InvalidDimension));
    let m = Maze { dimensions: (usize::MAX, usize::MAX), ..Maze::with_seed(1) };
    assert_eq!(m.window(), Err(GridError::InvalidDimension));
}

#[test]
fn draw_on_draws_the_maze_of_the_seed() {
    let m = Maze { dimensions: (3, 3), ..Maze::with_seed(7) };
    let mut window = m.window().unwrap();
    m.draw_on(&mut window);
    assert_eq!(window, m.config().build((3, 3), 7).unwrap());
    assert_eq!(window.get(1, 1), Ok(0));
    assert_eq!(window.get(0, 0), Ok(0xFF00_D7FF));
    let mut again = GridBuffer::new(7, 7).unwrap();
    m.draw_on(&mut again);
    assert_eq!(again, window);
}

#[test]
fn canvas_scales_the_window() {
    let m = Maze::with_seed(1);
    let window = m.window().unwrap();
    assert_eq!(m.canvas(&window), Some((930, 930)));
    let small = GridBuffer::new(3, 5).unwrap();
    assert_eq!(Maze { size: 4, ..m }.canvas(&small), Some((12, 20)));
    assert_eq!(Maze { size: 0, ..m }.canvas(&small), Some((0, 0)));
    assert_eq!(Maze { size: usize::MAX, ..m }.canvas(&small), None);
    assert_eq!(Maze { size: usize::MAX / 4, ..m }.canvas(&small), None);
    assert_eq!(Maze { size: usize::MAX / 5, ..m }.canvas(&small), Some((usize::MAX / 5 * 3, usize::MAX / 5 * 5)));
}

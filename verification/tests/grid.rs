use labyrinth::grid::{filled, GridBuffer, GridError};

#[test]
fn new_buffer_is_zeroed() {
    let g = GridBuffer::new(3, 2).unwrap();
    assert_eq!(g.width(), 3);
    assert_eq!(g.height(), 2);
    for y in 0..2 {
        for x in 0..3 {
            assert_eq!(g.get(x, y), Ok(0));
        }
    }
}

#[test]
fn zero_sides_are_refused() {
    assert_eq!(GridBuffer::new(0, 4), Err(GridError::InvalidDimension));
    assert_eq!(GridBuffer::new(4, 0), Err(GridError::InvalidDimension));
    assert_eq!(GridBuffer::new(0, 0), Err(GridError::InvalidDimension));
}

#[test]
fn too_many_cells_are_refused() {
    assert_eq!(GridBuffer::new(usize::MAX, 2), Err(GridError::InvalidDimension));
    assert_eq!(GridBuffer::new(usize::MAX / 2 + 1, 2), Err(GridError::InvalidDimension));
}

#[test]
fn smallest_buffer_has_one_cell() {
    let g = GridBuffer::new(1, 1).unwrap();
    assert_eq!((g.width(), g.height()), (1, 1));
    assert_eq!(g.get(0, 0), Ok(0));
    assert_eq!(g.get(1, 0), Err(GridError::OutOfRange));
    assert_eq!(g.get(0, 1), Err(GridError::OutOfRange));
}

#[test]
fn set_changes_one_cell() {
    let mut g = GridBuffer::new(4, 3).unwrap();
    assert_eq!(g.set(2, 1, 0xDEAD_BEEF), Ok(()));
    for y in 0..3 {
        for x in 0..4 {
            let expected = if (x, y) == (2, 1) { 0xDEAD_BEEF } else { 0 };
            assert_eq!(g.get(x, y), Ok(expected));
        }
    }
    assert_eq!((g.width(), g.height()), (4, 3));
}

#[test]
fn cells_are_addressed_by_column_then_row() {
    let mut g = GridBuffer::new(3, 2).unwrap();
    g.set(2, 0, 7).unwrap();
    g.set(0, 1, 9).unwrap();
    assert_eq!(g.get(2, 0), Ok(7));
    assert_eq!(g.get(0, 1), Ok(9));
    assert_eq!(g.get(1, 1), Ok(0));
}

#[test]
fn access_outside_fails_and_changes_nothing() {
    let mut g = GridBuffer::new(2, 5).unwrap();
    let before = g.clone();
    assert_eq!(g.get(2, 0), Err(GridError::OutOfRange));
    assert_eq!(g.get(0, 5), Err(GridError::OutOfRange));
    assert_eq!(g.get(usize::MAX, usize::MAX), Err(GridError::OutOfRange));
    assert_eq!(g.set(2, 0, 1), Err(GridError::OutOfRange));
    assert_eq!(g.set(0, 5, 1), Err(GridError::OutOfRange));
    assert_eq!(g.set(1, usize::MAX, 1), Err(GridError::OutOfRange));
    assert_eq!(g, before);
}

#[test]
fn paint_colours_every_cell() {
    let mut g = GridBuffer::new(2, 2).unwrap();
    g.paint(&vec![true, false, false, true], 5, 6);
    assert_eq!(g.get(0, 0), Ok(6));
    assert_eq!(g.get(1, 0), Ok(5));
    assert_eq!(g.get(0, 1), Ok(5));
    assert_eq!(g.get(1, 1), Ok(6));
}

#[test]
fn filled_repeats_the_value() {
    assert_eq!(filled(3, 7u8), vec![7u8, 7, 7]);
    assert_eq!(filled(0, true), Vec::<bool>::new());
}

use labyrinth::breach::{list_shut_slots, open_more, open_slot};
use labyrinth::carve::{carve_rooms, enter_room, room_is_open, ways_around};
use labyrinth::dice::roll;
use labyrinth::plan::cell_index;
use rand::rngs::StdRng;
use rand::SeedableRng;

fn closed(w: usize, h: usize) -> Vec<bool> {
    vec![false; w * h]
}

fn open_cells(open: &[bool], w: usize) -> Vec<(usize, usize)> {
    (0..open.len()).filter(|c| open[*c]).map(|c| (c % w, c / w)).collect()
}

#[test]
fn cell_index_counts_row_by_row() {
    assert_eq!(cell_index(7, 5, 0, 0), 0);
    assert_eq!(cell_index(7, 5, 6, 0), 6);
    assert_eq!(cell_index(7, 5, 0, 1), 7);
    assert_eq!(cell_index(7, 5, 3, 2), 17);
    assert_eq!(cell_index(7, 5, 6, 4), 34);
}

#[test]
fn rooms_sit_on_odd_cells() {
    let mut open = closed(7, 5);
    open[cell_index(7, 5, 3, 1)] = true;
    assert!(room_is_open(&open, 7, 5, 1, 0));
    assert!(!room_is_open(&open, 7, 5, 0, 0));
    assert!(!room_is_open(&open, 7, 5, 1, 1));
    assert!(!room_is_open(&open, 7, 5, 2, 1));
}

#[test]
fn ways_are_listed_up_right_down_left() {
    let open = closed(7, 7);
    assert_eq!(ways_around(&open, 7, 7, 1, 1), vec![(1, 0), (2, 1), (1, 2), (0, 1)]);
    assert_eq!(ways_around(&open, 7, 7, 0, 0), vec![(1, 0), (0, 1)]);
    assert_eq!(ways_around(&open, 7, 7, 2, 2), vec![(2, 1), (1, 2)]);
    assert_eq!(ways_around(&open, 7, 7, 2, 0), vec![(2, 1), (1, 0)]);
    assert_eq!(ways_around(&closed(3, 3), 3, 3, 0, 0), vec![]);
}

#[test]
fn open_rooms_are_no_way() {
    let mut open = closed(7, 7);
    open[cell_index(7, 7, 3, 1)] = true;
    open[cell_index(7, 7, 1, 3)] = true;
    assert_eq!(ways_around(&open, 7, 7, 1, 1), vec![(2, 1), (1, 2)]);
    open[cell_index(7, 7, 5, 3)] = true;
    open[cell_index(7, 7, 3, 5)] = true;
    assert_eq!(ways_around(&open, 7, 7, 1, 1), vec![]);
}

#[test]
fn entering_a_room_opens_the_wall_between() {
    let mut open = closed(7, 5);
    open[cell_index(7, 5, 1, 1)] = true;
    let mut trail = vec![(0, 0)];
    enter_room(&mut open, &mut trail, 7, 5, (1, 0));
    assert_eq!(trail, vec![(0, 0), (1, 0)]);
    assert_eq!(open_cells(&open, 7), vec![(1, 1), (2, 1), (3, 1)]);
    enter_room(&mut open, &mut trail, 7, 5, (1, 1));
    assert_eq!(trail, vec![(0, 0), (1, 0), (1, 1)]);
    assert_eq!(open_cells(&open, 7), vec![(1, 1), (2, 1), (3, 1), (3, 2), (3, 3)]);
    enter_room(&mut open, &mut trail, 7, 5, (0, 1));
    assert_eq!(open_cells(&open, 7), vec![(1, 1), (2, 1), (3, 1), (3, 2), (1, 3), (2, 3), (3, 3)]);
    assert_eq!(trail.len(), 4);
}

#[test]
fn carving_opens_every_room() {
    let mut rng = StdRng::seed_from_u64(99);
    let open = carve_rooms(9, 7, &mut rng);
    assert_eq!(open.len(), 63);
    for j in 0..3 {
        for i in 0..4 {
            assert!(room_is_open(&open, 9, 7, i, j));
        }
    }
    assert_eq!(open.iter().filter(|b| **b).count(), 23);
}

#[test]
fn closed_slots_are_listed_row_by_row() {
    let mut rng = StdRng::seed_from_u64(7);
    let open = carve_rooms(7, 7, &mut rng);
    assert_eq!(list_shut_slots(&open, 7, 7), vec![(1, 2), (3, 2), (4, 3), (2, 5)]);
    let mut all = closed(5, 5);
    for (x, y) in [(1, 1), (3, 1), (1, 3), (3, 3)] {
        all[cell_index(5, 5, x, y)] = true;
    }
    assert_eq!(list_shut_slots(&all, 5, 5), vec![(2, 1), (1, 2), (3, 2), (2, 3)]);
}

#[test]
fn opening_a_slot_moves_it_forward() {
    let mut open = closed(5, 5);
    let mut slots = vec![(2, 1), (1, 2), (3, 2), (2, 3)];
    open_slot(&mut open, &mut slots, 5, 5, 0, 2);
    assert_eq!(slots, vec![(3, 2), (1, 2), (2, 1), (2, 3)]);
    assert_eq!(open_cells(&open, 5), vec![(3, 2)]);
    open_slot(&mut open, &mut slots, 5, 5, 1, 1);
    assert_eq!(slots, vec![(3, 2), (1, 2), (2, 1), (2, 3)]);
    assert_eq!(open_cells(&open, 5), vec![(1, 2), (3, 2)]);
    open_slot(&mut open, &mut slots, 5, 5, 2, 3);
    assert_eq!(slots, vec![(3, 2), (1, 2), (2, 3), (2, 1)]);
    assert_eq!(open_cells(&open, 5), vec![(1, 2), (3, 2), (2, 3)]);
}

#[test]
fn open_more_opens_as_many_as_asked() {
    for walls in 0..7usize {
        let mut rng = StdRng::seed_from_u64(7);
        let carved = carve_rooms(7, 7, &mut rng);
        let more = open_more(carved.clone(), 7, 7, walls, &mut rng);
        assert_eq!(more.iter().filter(|b| **b).count(), 17 + walls.min(4));
        for c in 0..49 {
            assert!(!carved[c] || more[c]);
        }
    }
}

#[test]
fn rolls_stay_below_the_bound() {
    let mut rng = StdRng::seed_from_u64(3);
    let mut seen = [false; 4];
    for _ in 0..200 {
        let r = roll(&mut rng, 4);
        assert!(r < 4);
        seen[r] = true;
    }
    assert_eq!(seen, [true; 4]);
    for _ in 0..20 {
        assert_eq!(roll(&mut rng, 1), 0);
    }
}

#[test]
fn rolls_repeat_for_a_seed() {
    let mut a = StdRng::seed_from_u64(3);
    let mut b = StdRng::seed_from_u64(3);
    let mut other = StdRng::seed_from_u64(4);
    let first: Vec<usize> = (0..40).map(|_| roll(&mut a, 1000)).collect();
    let second: Vec<usize> = (0..40).map(|_| roll(&mut b, 1000)).collect();
    let third: Vec<usize> = (0..40).map(|_| roll(&mut other, 1000)).collect();
    assert_eq!(first, second);
    assert_ne!(first, third);
}

use minesweeper::{random_range, Minesweeper, OpenResult, Position};

#[test]
fn test_new() {
    let width = random_range(1, 10);
    let height = random_range(1, 10);
    let mine_count = random_range(1, width * height);
    let minesweeper = Minesweeper::new(width, height, mine_count);

    assert_eq!(minesweeper.width(), width);
    assert_eq!(minesweeper.height(), height);
    assert_eq!(minesweeper.mine_count(), mine_count);
}

#[test]
fn check_mine_number() {
    let width = random_range(1, 20);
    let height = random_range(1, 20);
    let mine_count: usize = random_range(0, width / 2);

    let ms = Minesweeper::new(width, height, mine_count);

    assert_eq!(ms.mine_count(), mine_count);
}

#[test]
fn check_open() {
    let width = random_range(1, 20);
    let height = random_range(1, 20);
    let mine_count: usize = random_range(0, width / 2);

    let opened_position: Position = (random_range(0, width), random_range(0, height));

    let mut ms = Minesweeper::new(width, height, mine_count);

    ms.open(opened_position);

    if ms.is_mine(opened_position) {
        assert!(ms.is_lost());
    } else {
        assert!(ms.is_open(opened_position));
    }
}

#[test]
fn check_flag_exists() {
    let width = random_range(1, 20);
    let height = random_range(1, 20);
    let mine_count: usize = random_range(0, width);

    let flag_pos: Position = (random_range(0, width), random_range(0, height));

    let mut ms = Minesweeper::new(width, height, mine_count);

    ms.toggle_flag(flag_pos);

    assert_eq!(ms.flag_count() == 0, false);
    assert!(ms.is_flagged(flag_pos));
}

fn count_open(ms: &Minesweeper) -> usize {
    let mut n = 0;
    for y in 0..ms.height() {
        for x in 0..ms.width() {
            if ms.is_open((x, y)) {
                n += 1;
            }
        }
    }
    n
}

#[test]
fn new_board_is_fresh() {
    let ms = Minesweeper::new(4, 3, 5);
    assert_eq!(ms.mine_count(), 5);
    assert_eq!(ms.flag_count(), 0);
    assert_eq!(count_open(&ms), 0);
    assert!(!ms.is_lost());
}

#[test]
fn new_board_can_be_full_of_mines() {
    let ms = Minesweeper::new(3, 2, 6);
    assert_eq!(ms.mine_count(), 6);
    for y in 0..2 {
        for x in 0..3 {
            assert!(ms.is_mine((x, y)));
        }
    }
}

#[test]
fn single_cell_without_mine() {
    let mut ms = Minesweeper::with_mines(1, 1, &vec![]);
    assert_eq!(ms.open((0, 0)), Some(OpenResult::NoMine(0)));
    assert!(ms.is_open((0, 0)));
    assert_eq!(count_open(&ms), 1);
    assert!(ms.is_won());
}

#[test]
fn corner_next_to_center_mine() {
    let mut ms = Minesweeper::with_mines(3, 3, &vec![(1, 1)]);
    assert_eq!(ms.open((0, 0)), Some(OpenResult::NoMine(1)));
    assert!(ms.is_open((0, 0)));
    assert_eq!(count_open(&ms), 1);
    assert!(!ms.is_won());
}

#[test]
fn opening_mine_loses_and_freezes() {
    let mut ms = Minesweeper::with_mines(3, 3, &vec![(1, 1)]);
    assert_eq!(ms.open((1, 1)), Some(OpenResult::Mine));
    assert!(ms.is_lost());
    assert!(ms.is_open((1, 1)));
    assert_eq!(ms.open((0, 0)), None);
    assert!(!ms.is_open((0, 0)));
    ms.toggle_flag((2, 2));
    assert!(!ms.is_flagged((2, 2)));
    assert_eq!(ms.flag_count(), 0);
    assert_eq!(count_open(&ms), 1);
    assert!(!ms.is_won());
}

#[test]
fn flood_opens_zero_region() {
    let mut ms = Minesweeper::with_mines(3, 3, &vec![(2, 2)]);
    assert_eq!(ms.open((0, 0)), Some(OpenResult::NoMine(0)));
    assert_eq!(count_open(&ms), 8);
    assert!(!ms.is_open((2, 2)));
    assert!(!ms.is_lost());
    assert!(ms.is_won());
}

#[test]
fn flood_stops_at_flags() {
    let mut ms = Minesweeper::with_mines(4, 1, &vec![(3, 0)]);
    ms.toggle_flag((1, 0));
    assert_eq!(ms.open((0, 0)), Some(OpenResult::NoMine(0)));
    assert!(ms.is_open((0, 0)));
    assert!(!ms.is_open((1, 0)));
    assert!(!ms.is_open((2, 0)));
    assert!(ms.is_flagged((1, 0)));
}

#[test]
fn flagged_cell_does_not_open() {
    let mut ms = Minesweeper::with_mines(2, 2, &vec![(1, 1)]);
    ms.toggle_flag((1, 1));
    assert_eq!(ms.open((1, 1)), None);
    assert!(!ms.is_lost());
    assert!(!ms.is_open((1, 1)));
}

#[test]
fn toggle_twice_restores_flags() {
    let mut ms = Minesweeper::with_mines(3, 3, &vec![(1, 1)]);
    ms.toggle_flag((2, 0));
    assert!(ms.is_flagged((2, 0)));
    assert_eq!(ms.flag_count(), 1);
    ms.toggle_flag((2, 0));
    assert!(!ms.is_flagged((2, 0)));
    assert_eq!(ms.flag_count(), 0);
}

#[test]
fn toggle_on_open_cell_does_nothing() {
    let mut ms = Minesweeper::with_mines(3, 3, &vec![(1, 1)]);
    ms.open((0, 0));
    ms.toggle_flag((0, 0));
    assert!(!ms.is_flagged((0, 0)));
    assert_eq!(ms.flag_count(), 0);
}

#[test]
fn chord_opens_unflagged_neighbours() {
    let mut ms = Minesweeper::with_mines(3, 3, &vec![(1, 1)]);
    assert_eq!(ms.open((0, 0)), Some(OpenResult::NoMine(1)));
    ms.toggle_flag((1, 1));
    assert_eq!(ms.open((0, 0)), None);
    assert!(ms.is_open((1, 0)));
    assert!(ms.is_open((0, 1)));
    assert!(!ms.is_open((1, 1)));
    assert!(!ms.is_lost());
    assert_eq!(count_open(&ms), 3);
}

#[test]
fn chord_with_wrong_flag_loses() {
    let mut ms = Minesweeper::with_mines(3, 3, &vec![(1, 1)]);
    ms.open((0, 0));
    ms.toggle_flag((1, 0));
    assert_eq!(ms.open((0, 0)), None);
    assert!(ms.is_lost());
    assert!(ms.is_open((1, 1)));
}

#[test]
fn chord_needs_matching_flags() {
    let mut ms = Minesweeper::with_mines(3, 3, &vec![(1, 1)]);
    ms.open((0, 0));
    assert_eq!(ms.open((0, 0)), None);
    assert_eq!(count_open(&ms), 1);
    assert!(!ms.is_lost());
}

#[test]
fn neighbours_of_corner_edge_and_inner_cells() {
    let ms = Minesweeper::with_mines(3, 3, &vec![]);
    let corner = ms.iter_neighbors((0, 0));
    assert_eq!(corner.len(), 3);
    assert!(!corner.contains(&(0, 0)));
    assert!(corner.contains(&(1, 1)));
    assert_eq!(ms.iter_neighbors((1, 0)).len(), 5);
    assert_eq!(ms.iter_neighbors((2, 1)).len(), 5);
    let inner = ms.iter_neighbors((1, 1));
    assert_eq!(inner.len(), 8);
    assert!(!inner.contains(&(1, 1)));
    assert_eq!(Minesweeper::with_mines(1, 1, &vec![]).iter_neighbors((0, 0)).len(), 0);
}

#[test]
fn neighbouring_mine_counts() {
    let ms = Minesweeper::with_mines(3, 3, &vec![(0, 0), (2, 2), (2, 0)]);
    assert_eq!(ms.neighboring_mines((1, 1)), 3);
    assert_eq!(ms.neighboring_mines((1, 0)), 2);
    assert_eq!(ms.neighboring_mines((0, 2)), 0);
    assert_eq!(ms.neighboring_mines((0, 0)), 0);
}

#[test]
fn duplicate_mine_positions_count_once() {
    let ms = Minesweeper::with_mines(2, 2, &vec![(0, 1), (0, 1)]);
    assert_eq!(ms.mine_count(), 1);
    assert!(ms.is_mine((0, 1)));
    assert!(!ms.is_mine((1, 1)));
}

#[test]
fn off_board_positions_change_nothing() {
    let mut ms = Minesweeper::with_mines(2, 2, &vec![]);
    assert_eq!(ms.open((2, 0)), None);
    ms.toggle_flag((0, 5));
    assert_eq!(ms.flag_count(), 0);
    assert_eq!(count_open(&ms), 0);
    assert!(!ms.is_open((2, 0)));
}

#[test]
fn random_range_stays_in_range() {
    let mut seen_other = false;
    for _ in 0..200 {
        let r = random_range(5, 1005);
        assert!(r >= 5 && r < 1005);
        if r != 5 {
            seen_other = true;
        }
    }
    assert!(seen_other);
    assert_eq!(random_range(7, 7), 7);
    assert_eq!(random_range(3, 4), 3);
}

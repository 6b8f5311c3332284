use game_of_life::grid::{Grid, Point};

#[test]
fn point_new_holds_coordinates() {
    let p = Point::new(3, -7);
    assert_eq!(p.x, 3);
    assert_eq!(p.y, -7);
}

#[test]
fn point_neighbors_follow_compass_order() {
    let p = Point::new(5, 5);
    let n = p.get_neighbors(8);
    let expected = vec![
        Point::new(5, 6),
        Point::new(6, 6),
        Point::new(6, 5),
        Point::new(6, 4),
        Point::new(5, 4),
        Point::new(4, 4),
        Point::new(4, 5),
        Point::new(4, 6),
    ];
    assert_eq!(n.len(), 8);
    for i in 0..8 {
        assert!(n[i] == expected[i]);
    }
}

#[test]
fn point_neighbors_clamped_to_eight() {
    let p = Point::new(0, 0);
    assert_eq!(p.get_neighbors(100).len(), 8);
    assert_eq!(p.get_neighbors(2).len(), 2);
    assert_eq!(p.get_neighbors(0).len(), 0);
}

#[test]
fn new_grid_is_empty() {
    let g = Grid::new(10);
    assert_eq!(g.num_live(), 0);
    for x in 0..10 {
        for y in 0..10 {
            assert!(!g.is_live(x, y));
        }
    }
}

#[test]
fn is_printable_matches_bounds() {
    let g = Grid::new(4);
    assert!(g.is_printable(&Point::new(0, 0)));
    assert!(g.is_printable(&Point::new(3, 3)));
    assert!(!g.is_printable(&Point::new(4, 0)));
    assert!(!g.is_printable(&Point::new(0, 4)));
    assert!(!g.is_printable(&Point::new(-1, 2)));
}

#[test]
fn tracked_dead_cells_are_observable() {
    let mut g = Grid::new(5);
    g.set_live(2, 2);
    assert_eq!(g.cell(2, 2), Some(true));
    assert_eq!(g.cell(1, 1), Some(false));
    assert_eq!(g.cell(3, 2), Some(false));
    assert_eq!(g.cell(4, 4), None);
    assert_eq!(g.cell(-1, 0), None);
    assert_eq!(g.cell(0, 5), None);
}

#[test]
fn set_live_ignores_points_off_the_board() {
    let mut g = Grid::new(5);
    g.set_live(-1, 2);
    g.set_live(5, 0);
    assert_eq!(g.num_live(), 0);
}

#[test]
fn block_is_a_still_life() {
    let mut g = Grid::new(5);
    g.set_live(1, 1);
    g.set_live(1, 2);
    g.set_live(2, 1);
    g.set_live(2, 2);
    assert_eq!(g.num_live(), 4);
    g.next();
    assert_eq!(g.num_live(), 4);
    assert!(g.is_live(1, 1));
    assert!(g.is_live(1, 2));
    assert!(g.is_live(2, 1));
    assert!(g.is_live(2, 2));
}

#[test]
fn blinker_oscillates_with_period_two() {
    let mut g = Grid::new(5);
    g.set_live(1, 2);
    g.set_live(2, 2);
    g.set_live(3, 2);
    g.next();
    assert_eq!(g.num_live(), 3);
    assert!(g.is_live(2, 1));
    assert!(g.is_live(2, 2));
    assert!(g.is_live(2, 3));
    assert!(!g.is_live(1, 2));
    assert!(!g.is_live(3, 2));
    g.next();
    assert_eq!(g.num_live(), 3);
    assert!(g.is_live(1, 2));
    assert!(g.is_live(2, 2));
    assert!(g.is_live(3, 2));
    assert!(!g.is_live(2, 1));
    assert!(!g.is_live(2, 3));
}

#[test]
fn lone_cell_goes_extinct() {
    let mut g = Grid::new(5);
    g.set_live(2, 2);
    assert_eq!(g.num_live(), 1);
    g.next();
    assert_eq!(g.num_live(), 0);
    assert!(!g.is_live(2, 2));
}

#[test]
fn dead_cell_born_only_with_three_neighbors() {
    for n in 0..=8usize {
        let mut g = Grid::new(7);
        let offsets = [
            (0, 1),
            (1, 1),
            (1, 0),
            (1, -1),
            (0, -1),
            (-1, -1),
            (-1, 0),
            (-1, 1),
        ];
        for i in 0..n {
            let (dx, dy): (i32, i32) = offsets[i];
            g.set_live(3 + dx, 3 + dy);
        }
        assert!(!g.is_live(3, 3));
        g.next();
        assert_eq!(g.is_live(3, 3), n == 3, "neighbor count {n}");
    }
}

#[test]
fn seed_stays_inside_the_window() {
    let mut g = Grid::new(60);
    g.seed(35, 2);
    let live = g.num_live();
    assert!(live >= 1);
    assert!(live <= 35 * 3);
    // The window divisor is at most 11, so seeds lie in [60/11, 60 - 60/11)
    // and even their neighbors keep a margin of at least 4 cells.
    let mut counted: i32 = 0;
    for x in 0..60 {
        for y in 0..60 {
            if g.is_live(x, y) {
                counted += 1;
                assert!((4..56).contains(&x), "live cell at column {x}");
                assert!((4..56).contains(&y), "live cell at row {y}");
            }
        }
    }
    assert_eq!(counted, live);
}

#[test]
fn seed_accumulates_without_clearing() {
    let mut g = Grid::new(30);
    g.set_live(15, 15);
    g.seed(5, 0);
    assert!(g.is_live(15, 15));
    assert!(g.num_live() >= 1);
    assert!(g.num_live() <= 1 + 8 + 5);
}

#[test]
fn glider_shifts_diagonally_in_four_steps() {
    let mut g = Grid::new(5);
    g.set_live(1, 0);
    g.set_live(2, 1);
    g.set_live(0, 2);
    g.set_live(1, 2);
    g.set_live(2, 2);
    for _ in 0..4 {
        g.next();
    }
    assert_eq!(g.num_live(), 5);
    assert!(g.is_live(2, 1));
    assert!(g.is_live(3, 2));
    assert!(g.is_live(1, 3));
    assert!(g.is_live(2, 3));
    assert!(g.is_live(3, 3));
}

#[test]
fn render_draws_the_full_board() {
    let mut g = Grid::new(2);
    g.set_live(0, 0);
    assert_eq!(g.render(), "# .\n. .\n");
    let mut h = Grid::new(3);
    h.set_live(1, 1);
    h.set_live(2, 0);
    assert_eq!(h.render(), ". . #\n. # .\n. . .\n");
    let e = Grid::new(0);
    assert_eq!(e.render(), "");
}

#[test]
fn births_outside_the_board_are_suppressed() {
    // A blinker against the border: its vertical phase would need row -1.
    let mut g = Grid::new(5);
    g.set_live(1, 0);
    g.set_live(2, 0);
    g.set_live(3, 0);
    g.next();
    assert_eq!(g.num_live(), 2);
    assert!(g.is_live(2, 0));
    assert!(g.is_live(2, 1));
    for x in -2..7 {
        for y in -2..7 {
            if !(0..5).contains(&x) || !(0..5).contains(&y) {
                assert!(!g.is_live(x, y));
            }
        }
    }
}

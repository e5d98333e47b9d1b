use life_viewport::lattice::{Universe, Window, MAX_DEPTH};

const HALF: i64 = 1 << 61;

fn session() -> Universe {
    Universe::new(MAX_DEPTH).unwrap()
}

#[test]
fn a_universe_is_between_one_and_the_limit_deep() {
    assert!(Universe::new(0).is_none());
    assert!(Universe::new(1).is_some());
    assert!(Universe::new(62).is_some());
    assert!(Universe::new(63).is_none());
    assert!(Universe::new(usize::MAX).is_none());
}

#[test]
fn the_bias_is_half_the_side() {
    let u = session();
    assert_eq!(u.depth(), 62);
    assert_eq!(u.bias(), HALF);
    assert_eq!(u.side(), 2 * HALF);
    let small = Universe::new(1).unwrap();
    assert_eq!(small.bias(), 1);
    assert_eq!(small.side(), 2);
    let eight = Universe::new(3).unwrap();
    assert_eq!(eight.bias(), 4);
    assert_eq!(eight.side(), 8);
}

#[test]
fn the_universe_holds_its_corners_and_no_more() {
    let u = Universe::new(3).unwrap();
    assert!(u.contains((0, 0)));
    assert!(u.contains((7, 7)));
    assert!(!u.contains((8, 0)));
    assert!(!u.contains((0, 8)));
    assert!(!u.contains((-1, 0)));
    assert!(!u.contains((0, -1)));
}

#[test]
fn the_origin_of_the_view_is_the_middle_of_the_universe() {
    let u = session();
    assert_eq!(u.to_absolute((0, 0)), Some((HALF, HALF)));
    assert_eq!(u.to_absolute((1, -2)), Some((HALF + 1, HALF - 2)));
    assert_eq!(u.to_absolute((-HALF, -HALF)), Some((0, 0)));
    assert_eq!(u.to_absolute((HALF - 1, HALF - 1)), Some((2 * HALF - 1, 2 * HALF - 1)));
}

#[test]
fn cells_outside_the_universe_have_no_absolute_coordinate() {
    let u = session();
    assert_eq!(u.to_absolute((HALF, 0)), None);
    assert_eq!(u.to_absolute((0, HALF)), None);
    assert_eq!(u.to_absolute((-HALF - 1, 0)), None);
    assert_eq!(u.to_absolute((i64::MAX, i64::MAX)), None);
    assert_eq!(u.to_absolute((i64::MIN, i64::MIN)), None);
}

#[test]
fn a_cell_has_an_absolute_coordinate_exactly_inside_the_universe() {
    let u = Universe::new(5).unwrap();
    for x in -20..20i64 {
        for y in -20..20i64 {
            match u.to_absolute((x, y)) {
                Some(abs) => {
                    assert!(u.contains(abs));
                    assert_eq!(abs, (x + 16, y + 16));
                }
                None => assert!(x < -16 || x >= 16 || y < -16 || y >= 16),
            }
        }
    }
}

#[test]
fn a_box_holds_its_edges() {
    let w = Window { min: (-2, 3), max: (4, 5) };
    assert!(w.contains((-2, 3)));
    assert!(w.contains((4, 5)));
    assert!(w.contains((0, 4)));
    assert!(!w.contains((-3, 4)));
    assert!(!w.contains((5, 4)));
    assert!(!w.contains((0, 2)));
    assert!(!w.contains((0, 6)));
}

#[test]
fn the_query_window_is_the_view_moved_by_the_bias() {
    let u = session();
    let view = Window { min: (-18, -12), max: (18, 12) };
    assert_eq!(
        u.query_window(view),
        Some(Window { min: (HALF - 18, HALF - 12), max: (HALF + 18, HALF + 12) })
    );
}

#[test]
fn the_query_window_is_cut_to_the_universe() {
    let u = Universe::new(3).unwrap();
    let view = Window { min: (-10, -10), max: (1, 1) };
    assert_eq!(u.query_window(view), Some(Window { min: (0, 0), max: (5, 5) }));
    let view = Window { min: (2, -1), max: (100, 100) };
    assert_eq!(u.query_window(view), Some(Window { min: (6, 3), max: (7, 7) }));
    let all = Window { min: (i64::MIN, i64::MIN), max: (i64::MAX, i64::MAX) };
    assert_eq!(u.query_window(all), Some(Window { min: (0, 0), max: (7, 7) }));
}

#[test]
fn a_view_beside_the_universe_gives_no_query() {
    let u = Universe::new(3).unwrap();
    assert_eq!(u.query_window(Window { min: (4, 0), max: (9, 1) }), None);
    assert_eq!(u.query_window(Window { min: (-9, 0), max: (-5, 1) }), None);
    assert_eq!(u.query_window(Window { min: (0, 4), max: (1, 9) }), None);
    assert_eq!(u.query_window(Window { min: (3, 0), max: (9, 1) }), Some(Window { min: (7, 4), max: (7, 5) }));
}

#[test]
fn a_malformed_view_gives_no_query() {
    let u = session();
    assert_eq!(u.query_window(Window { min: (5, 0), max: (4, 1) }), None);
    assert_eq!(u.query_window(Window { min: (0, 2), max: (4, 1) }), None);
}

#[test]
fn the_query_window_holds_exactly_the_cells_in_view() {
    let u = Universe::new(3).unwrap();
    let view = Window { min: (-6, -1), max: (2, 9) };
    let w = u.query_window(view).unwrap();
    for x in 0..8i64 {
        for y in 0..8i64 {
            assert_eq!(w.contains((x, y)), view.contains((x - 4, y - 4)));
        }
    }
}

#[test]
fn a_pattern_is_centred_in_the_universe() {
    let u = session();
    assert_eq!(u.place_pattern(12, 4), Some((HALF - 2, HALF - 1)));
    assert_eq!(u.place_pattern(1, 1), Some((HALF, HALF)));
    assert_eq!(u.place_pattern(35, 7), Some((HALF - 3, HALF - 2)));
    assert_eq!(u.place_pattern(0, 3), Some((HALF - 1, HALF)));
}

#[test]
fn a_pattern_without_width_cannot_be_placed() {
    assert_eq!(session().place_pattern(12, 0), None);
    assert_eq!(session().place_pattern(0, 0), None);
}

#[test]
fn a_pattern_larger_than_the_universe_cannot_be_placed() {
    let u = Universe::new(2).unwrap();
    assert_eq!(u.place_pattern(16, 4), Some((0, 0)));
    assert_eq!(u.place_pattern(5, 5), None);
    assert_eq!(u.place_pattern(20, 4), None);
    assert_eq!(u.place_pattern(19, 4), Some((0, 0)));
    assert_eq!(session().place_pattern(usize::MAX, usize::MAX), None);
}

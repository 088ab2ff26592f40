use chalkydri::utils::{orientation, px, Color, Orientation, PresentWrapper};

#[test]
fn color_predicates() {
    assert!(Color::Black.is_black());
    assert!(!Color::White.is_black());
    assert!(Color::White.is_white());
    assert!(!Color::Other.is_white());
    assert!(Color::Black.is_good());
    assert!(Color::White.is_good());
    assert!(!Color::Other.is_good());
}

#[test]
fn pixel_index_is_row_major() {
    assert_eq!(px(3, 2, 10), 23);
    assert_eq!(px(0, 0, 10), 0);
}

#[test]
fn orientation_of_triples() {
    assert_eq!(orientation((0, 0), (1, 1), (2, 2)), Orientation::Collinear);
    assert_eq!(orientation((0, 0), (4, 4), (1, 2)), Orientation::Counterclockwise);
    assert_eq!(orientation((0, 0), (4, 4), (2, 1)), Orientation::Clockwise);
}

#[test]
fn hull_of_square_with_inner_point() {
    let pts = [(0, 0), (10, 0), (10, 10), (0, 10), (5, 5)];
    assert_eq!(
        PresentWrapper::find_convex_hull(&pts),
        vec![(0, 0), (10, 0), (10, 10), (0, 10)]
    );
}

#[test]
fn hull_starts_at_first_leftmost_point() {
    let pts = [(5, 5), (5, 14), (14, 5), (14, 14)];
    assert_eq!(
        PresentWrapper::find_convex_hull(&pts),
        vec![(5, 5), (14, 5), (14, 14), (5, 14)]
    );
}

#[test]
fn hull_of_single_point() {
    assert_eq!(PresentWrapper::find_convex_hull(&[(3, 4)]), vec![(3, 4)]);
}

#[test]
fn hull_of_collinear_points() {
    let pts = [(0, 0), (1, 0), (2, 0)];
    assert_eq!(PresentWrapper::find_convex_hull(&pts), vec![(0, 0), (1, 0), (2, 0)]);
}

#[test]
fn checked_hull_matches_hull() {
    let pts = [(0, 0), (10, 0), (10, 10), (0, 10), (5, 5)];
    assert_eq!(
        PresentWrapper::try_find_convex_hull(&pts),
        Some(vec![(0, 0), (10, 0), (10, 10), (0, 10)])
    );
}

#[test]
fn checked_hull_refuses_empty_input() {
    assert_eq!(PresentWrapper::try_find_convex_hull(&[]), None);
}

#[test]
fn checked_hull_refuses_large_coordinates() {
    assert_eq!(PresentWrapper::try_find_convex_hull(&[(0, 0), (0x8000, 1)]), None);
    assert_eq!(PresentWrapper::try_find_convex_hull(&[(0x7fff, 0x7fff)]), Some(vec![(0x7fff, 0x7fff)]));
}

#[test]
fn checked_hull_detects_a_walk_that_never_returns() {
    // From (0, 1) the walk goes to (0, 0), (5, 1), (0, 2) and then round those three forever.
    let pts = [(0, 1), (5, 1), (0, 2), (0, 0)];
    assert_eq!(PresentWrapper::try_find_convex_hull(&pts), None);
}

#[test]
fn hull_edges_leave_no_point_counterclockwise() {
    // pairwise distinct, no three on a line
    let pts = [(3, 1), (9, 2), (12, 8), (7, 13), (1, 9), (6, 6), (8, 4), (4, 7)];
    let hull = PresentWrapper::find_convex_hull(&pts);
    for j in 0..hull.len() {
        let (a, b) = (hull[j], hull[(j + 1) % hull.len()]);
        for &k in pts.iter() {
            assert_ne!(orientation(a, k, b), Orientation::Counterclockwise);
        }
        for i in 0..j {
            assert_ne!(hull[i], hull[j]);
        }
    }
    assert_eq!(hull, vec![(1, 9), (3, 1), (9, 2), (12, 8), (7, 13)]);
}

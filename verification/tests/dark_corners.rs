use chalkydri::dark_corners::{myalgo, FRAME_HEIGHT, FRAME_WIDTH};

/// A bright frame with the square `[x0, x0 + n) x [y0, y0 + n)` at gray level `level`.
fn frame_with_square(x0: usize, y0: usize, n: usize, level: u8) -> Vec<u8> {
    let mut gray = vec![200u8; FRAME_WIDTH * FRAME_HEIGHT];
    for y in y0..y0 + n {
        for x in x0..x0 + n {
            gray[y * FRAME_WIDTH + x] = level;
        }
    }
    gray
}

/// The 3x3 clusters found inside each corner of a square, listed in scan order.
fn clusters(xs: [usize; 2], ys: [usize; 2]) -> Vec<(usize, usize)> {
    let mut out = Vec::new();
    for &xb in xs.iter() {
        for x in xb..xb + 3 {
            for &yb in ys.iter() {
                for y in yb..yb + 3 {
                    out.push((x, y));
                }
            }
        }
    }
    out
}

#[test]
fn dark_square_gives_corner_clusters() {
    let gray = frame_with_square(100, 100, 10, 10);
    assert_eq!(myalgo(&gray), clusters([100, 107], [100, 107]));
}

#[test]
fn near_top_left_edge() {
    let gray = frame_with_square(0, 0, 10, 0);
    let expected: Vec<(usize, usize)> =
        vec![(7, 7), (7, 8), (7, 9), (8, 7), (8, 8), (8, 9), (9, 7), (9, 8), (9, 9)];
    assert_eq!(myalgo(&gray), expected);
}

#[test]
fn bottom_right_reads_wrap_and_stop_at_the_end() {
    let gray = frame_with_square(1070, 710, 10, 59);
    let expected: Vec<(usize, usize)> = vec![
        (1070, 710), (1070, 711), (1070, 712), (1070, 717),
        (1071, 710), (1071, 711), (1071, 712), (1071, 717),
        (1072, 710), (1072, 711), (1072, 712), (1072, 717),
        (1077, 710), (1077, 711), (1077, 712), (1077, 717),
    ];
    assert_eq!(myalgo(&gray), expected);
}

#[test]
fn uniform_frames_have_no_corners() {
    assert!(myalgo(&vec![0u8; FRAME_WIDTH * FRAME_HEIGHT]).is_empty());
    assert!(myalgo(&vec![200u8; FRAME_WIDTH * FRAME_HEIGHT]).is_empty());
}

#[test]
fn level_sixty_is_not_dark() {
    let gray = frame_with_square(100, 100, 10, 60);
    assert!(myalgo(&gray).is_empty());
}

#[test]
fn every_corner_is_a_dark_pixel() {
    let gray = frame_with_square(300, 200, 25, 30);
    let corners = myalgo(&gray);
    assert!(!corners.is_empty());
    for (x, y) in corners {
        assert!(gray[y * FRAME_WIDTH + x] < 60);
    }
}

use chalkydri::detector::{u64hash_2, Detector};
use chalkydri::utils::Color;

const B: Color = Color::Black;
const W: Color = Color::White;
const O: Color = Color::Other;

/// A 20x20 gray frame: white, with a black square from (5,5) to (14,14).
fn square_frame() -> Vec<u8> {
    let (w, h) = (20usize, 20usize);
    let mut gray = vec![255u8; w * h];
    for y in 5..15 {
        for x in 5..15 {
            gray[y * w + x] = 0;
        }
    }
    gray
}

#[test]
fn hash_folds_high_half_onto_low_half() {
    assert_eq!(u64hash_2(0x1234_5678_9abc_def0), 0x1234_5678 ^ 0x9abc_def0);
    assert_eq!(u64hash_2(0), 0);
    assert_eq!(u64hash_2(0xffff_ffff_0000_0000), 0xffff_ffff);
}

#[test]
fn new_detector_is_empty() {
    let d = Detector::new(4, 3, &[1, 2]);
    assert_eq!(d.width(), 4);
    assert_eq!(d.height(), 3);
    assert_eq!(d.buffer().len(), 12);
    assert!(d.corners().is_empty());
    assert!(d.lines().is_empty());
}

#[test]
fn fixed_threshold_classifies_by_60_and_160() {
    let mut d = Detector::new(3, 2, &[]);
    d.thresh(&[0, 59, 60, 160, 161, 255]);
    assert_eq!(d.buffer(), &vec![B, B, O, O, W, W]);
}

#[test]
fn window_is_clipped_to_the_frame() {
    let d = Detector::new(6, 5, &[]);
    let gray: Vec<u8> = (0..30u8).collect();
    // column by column: x 0..=2, y 0..=2
    assert_eq!(d.window_values(&gray, 0, 0), vec![0, 6, 12, 1, 7, 13, 2, 8, 14]);
    assert_eq!(d.window_values(&gray, 2, 2).len(), 25);
    assert_eq!(d.window_values(&gray, 5, 4), vec![15, 21, 27, 16, 22, 28, 17, 23, 29]);
}

#[test]
fn adaptive_threshold_uses_quartiles_off_flat_windows() {
    let (w, h) = (6usize, 5usize);
    let gray: Vec<u8> = vec![
        0, 100, 100, 100, 160, 200, 7, 100, 101, 100, 167, 207, 14, 99, 100, 100, 174, 214, 21,
        100, 102, 101, 181, 221, 28, 68, 108, 148, 188, 228,
    ];
    let qs = vec![(50u8, 200u8); w * h];
    let mut d = Detector::new(w, h, &[]);
    d.calc_otsu(&gray, &qs);
    // between the quartiles a pixel takes the class of the nearer one
    let expected = vec![
        vec![B, B, B, B, W, W],
        vec![B, B, B, B, W, W],
        vec![B, B, B, B, W, W],
        vec![B, B, B, B, W, W],
        vec![B, B, B, W, W, W],
    ];
    let expected: Vec<Color> = expected.into_iter().flatten().collect();
    assert_eq!(d.buffer(), &expected);
}

#[test]
fn adaptive_threshold_uses_median_on_flat_windows() {
    let (w, h) = (7usize, 7usize);
    let mut gray = vec![0u8; w * h];
    for y in 0..h {
        for x in 0..w {
            gray[y * w + x] = if (x + y) % 2 == 0 { 120 } else { 123 };
        }
    }
    let qs = vec![(0u8, 255u8); w * h];
    let mut d = Detector::new(w, h, &[]);
    d.calc_otsu(&gray, &qs);
    // row 0 and column 0 compare with the quartiles (nearer the lower one: black); inside,
    // the flat windows have a median of at least 110: white
    let mut expected = vec![W; w * h];
    for k in 0..w {
        expected[k] = B;
        expected[k * w] = B;
    }
    assert_eq!(d.buffer(), &expected);
}

#[test]
fn adaptive_threshold_is_binary() {
    let mut d = Detector::new(2, 2, &[]);
    d.calc_otsu(&[100, 100, 100, 100], &[(100, 100); 4]);
    assert_eq!(d.buffer(), &vec![W, W, W, B]);
    let gray: Vec<u8> = (0..64u8).map(|v| v.wrapping_mul(37)).collect();
    let qs: Vec<(u8, u8)> = (0..64u8).map(|v| (v, v.wrapping_add(90))).collect();
    let mut d = Detector::new(8, 8, &[]);
    d.calc_otsu(&gray, &qs);
    assert!(d.buffer().iter().all(|c| *c != O));
}

#[test]
fn corners_of_a_square() {
    let mut d = Detector::new(20, 20, &[]);
    d.thresh(&square_frame());
    d.detect_corners();
    assert_eq!(d.corners(), &vec![(5, 5), (5, 14), (14, 5), (14, 14)]);
}

#[test]
fn edges_of_a_square() {
    let mut d = Detector::new(20, 20, &[]);
    d.thresh(&square_frame());
    d.detect_corners();
    d.check_edges();
    let expected = vec![
        (5, 5, 14, 5),
        (5, 5, 5, 14),
        (5, 5, 5, 5),
        (5, 5, 5, 5),
        (5, 14, 14, 14),
        (5, 14, 5, 14),
        (5, 14, 5, 14),
        (5, 14, 5, 5),
        (14, 5, 14, 14),
        (14, 5, 14, 5),
        (14, 5, 14, 5),
        (14, 5, 5, 5),
        (14, 14, 14, 14),
        (14, 14, 14, 14),
        (14, 14, 14, 5),
        (14, 14, 5, 14),
    ];
    assert_eq!(d.lines(), &expected);
}

#[test]
fn process_frame_thresholds_and_finds_the_square() {
    let gray = square_frame();
    // quartiles that split black from white
    let qs = vec![(0u8, 255u8); 400];
    let mut d = Detector::new(20, 20, &[]);
    d.process_frame(&gray, &qs);
    // inside the square the windows are flat and dark, outside flat and bright
    assert_eq!(d.buffer()[10 * 20 + 10], B);
    assert_eq!(d.buffer()[2 * 20 + 10], W);
    // borders of row 0 and column 0 are compared with the quartiles
    assert_eq!(d.buffer()[3], W);
    assert_eq!(d.corners().len(), d.corners().iter().filter(|p| p.0 >= 3 && p.1 >= 3).count());
    for (x1, y1, x2, y2) in d.lines().iter() {
        assert!(d.corners().contains(&(*x1, *y1)));
        assert!(d.corners().contains(&(*x2, *y2)));
    }
}

#[test]
fn checked_processing_of_the_square() {
    let gray = square_frame();
    let qs = vec![(0u8, 255u8); 400];
    let mut d = Detector::new(20, 20, &[]);
    assert!(d.try_process_frame(&gray, &qs));
    assert_eq!(d.corners(), &vec![(5, 5), (5, 14), (14, 5), (14, 14)]);
    assert_eq!(d.lines().len(), 16);
}

#[test]
fn checked_processing_refuses_checks_below_zero() {
    // a square whose top-left corner (3, 3) is too near the border for its edge checks
    let (w, h) = (20usize, 20usize);
    let mut gray = vec![255u8; w * h];
    for y in 3..10 {
        for x in 3..10 {
            gray[y * w + x] = 0;
        }
    }
    let qs = vec![(0u8, 255u8); w * h];
    let mut d = Detector::new(w, h, &[]);
    assert!(!d.try_process_frame(&gray, &qs));
    assert!(d.corners().contains(&(3, 3)));
    assert!(d.lines().is_empty());
}

#[test]
fn corner_scan_on_too_small_frames_is_empty() {
    let mut d = Detector::new(5, 2, &[]);
    d.thresh(&[0; 10]);
    d.detect_corners();
    assert!(d.corners().is_empty());
}

#[test]
fn connected_components_join_same_colored_neighbours() {
    // 4x3 frame:
    // B B W W
    // O B W O
    // W W B W
    let mut d = Detector::new(4, 3, &[]);
    d.thresh(&[0, 0, 255, 255, 100, 0, 255, 100, 255, 255, 0, 255]);
    let mut uf = d.connected_components();
    // only columns 1..width-1 are scanned: (1,0)-(0,0) joined leftwards
    assert_eq!(uf.find(1), uf.find(0));
    // (1,1) black joins (1,0) above
    assert_eq!(uf.find(5), uf.find(1));
    // (2,1) white joins (2,0) above and (3,0) top-right
    assert_eq!(uf.find(6), uf.find(2));
    assert_eq!(uf.find(3), uf.find(2));
    assert_ne!(uf.find(2), uf.find(0));
    // (1,2) white joins (0,2) left and (2,1) top-right
    assert_eq!(uf.find(9), uf.find(8));
    assert_eq!(uf.find(9), uf.find(6));
    // (2,2) black joins (1,1) top-left? no: black pixels do not join diagonally
    assert_ne!(uf.find(10), uf.find(5));
    // other pixels stay alone
    assert_eq!(uf.find(4), 4);
    assert_eq!(uf.find(7), 7);
    assert_eq!(uf.find(11), 11);
    assert_eq!({ let r = uf.find(0); uf.get_size(r) }, 3);
    assert_eq!({ let r = uf.find(2); uf.get_size(r) }, 5);
}

#[test]
fn shown_lines_of_a_square_are_all_its_lines() {
    let mut d = Detector::new(20, 20, &[]);
    d.thresh(&square_frame());
    d.detect_corners();
    d.check_edges();
    assert_eq!(d.lines().len(), 16);
    assert_eq!(&d.shown_lines(), d.lines());
}

#[test]
fn no_lines_no_shown_lines() {
    let d = Detector::new(4, 4, &[]);
    assert!(d.shown_lines().is_empty());
}

#[test]
fn edge_checks_are_symmetric() {
    let mut d = Detector::new(20, 20, &[]);
    d.thresh(&square_frame());
    d.detect_corners();
    d.check_edges();
    let lines = d.lines();
    for &(x1, y1, x2, y2) in lines.iter() {
        let there = lines.iter().filter(|&&l| l == (x1, y1, x2, y2)).count();
        let back = lines.iter().filter(|&&l| l == (x2, y2, x1, y1)).count();
        assert_eq!(there, back);
    }
}

#[test]
fn fixed_threshold_is_monotone() {
    let gray: Vec<u8> = (0..=255u8).collect();
    let mut d = Detector::new(256, 1, &[]);
    d.thresh(&gray);
    let rank = |c: &Color| match c {
        Color::Black => 0,
        Color::Other => 1,
        Color::White => 2,
    };
    let ranks: Vec<i32> = d.buffer().iter().map(rank).collect();
    for k in 1..ranks.len() {
        assert!(ranks[k - 1] <= ranks[k]);
    }
}

#[test]
fn hull_is_no_longer_than_its_input() {
    let pts = [(0usize, 0usize), (4, 0), (4, 4), (0, 4), (1, 1), (2, 3)];
    let hull = chalkydri::utils::PresentWrapper::find_convex_hull(&pts);
    assert!(hull.len() >= 1 && hull.len() <= pts.len());
    assert_eq!(hull, vec![(0, 0), (4, 0), (4, 4), (0, 4)]);
}

#[test]
fn corners_stay_inside_the_padding() {
    // 7x8 checkerboard: only x == 3 lies inside the padding
    let (w, h) = (7usize, 8usize);
    let gray: Vec<u8> = (0..w * h).map(|i| if (i % w + i / w) % 2 == 0 { 0 } else { 255 }).collect();
    let mut d = Detector::new(w, h, &[]);
    d.thresh(&gray);
    d.detect_corners();
    for &(x, y) in d.corners().iter() {
        assert!(3 <= x && x < w - 3 && 3 <= y && y < h - 3);
    }
}

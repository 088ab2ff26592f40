use chalkydri::myalgo::{Color, Detector};

#[test]
fn myalgo_color_predicates() {
    assert!(Color::Black.is_black());
    assert!(Color::White.is_white());
    assert!(!Color::Other.is_good());
    assert!(Color::White.is_good());
}

#[test]
fn myalgo_marks_hull_of_square_corners() {
    let (w, h) = (20usize, 20usize);
    let mut gray = vec![255u8; w * h];
    for y in 5..15 {
        for x in 5..15 {
            gray[y * w + x] = 0;
        }
    }
    let mut d = Detector::new(w, h);
    d.process_frame(&gray);
    assert_eq!(d.corners(), &vec![(5, 5), (5, 14), (14, 5), (14, 14)]);
    assert_eq!(
        d.lines(),
        &vec![(5, 5, 5, 5), (14, 5, 14, 5), (14, 14, 14, 14), (5, 14, 5, 14)]
    );
    assert_eq!(d.buffer()[0], Color::White);
    assert_eq!(d.buffer()[10 * w + 10], Color::Black);
}

#[test]
fn myalgo_histogram_leaves_detector_unchanged() {
    let mut d = Detector::new(2, 2);
    d.calc_otsu(&[1u8; 12]);
    assert_eq!(d.width(), 2);
    assert!(d.corners().is_empty());
}

#[test]
fn myalgo_checked_frame_marks_hull() {
    let (w, h) = (20usize, 20usize);
    let mut gray = vec![255u8; w * h];
    for y in 5..15 {
        for x in 5..15 {
            gray[y * w + x] = 0;
        }
    }
    let mut d = Detector::new(w, h);
    assert!(d.try_process_frame(&gray));
    assert_eq!(
        d.lines(),
        &vec![(5, 5, 5, 5), (14, 5, 14, 5), (14, 14, 14, 14), (5, 14, 5, 14)]
    );
}

#[test]
fn myalgo_checked_frame_without_corners() {
    let mut d = Detector::new(10, 10);
    assert!(!d.try_process_frame(&vec![255u8; 100]));
    assert!(d.corners().is_empty());
    assert!(d.lines().is_empty());
}

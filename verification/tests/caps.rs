use chalkydri::caps::{best_resolution, pixel_format, CapsStructure};

fn caps(name: &str, format: Option<&str>, width: i32, height: i32) -> CapsStructure {
    CapsStructure {
        name: name.to_string(),
        format: format.map(|f| f.to_string()),
        width,
        height,
    }
}

#[test]
fn pixel_formats_of_video_caps() {
    assert_eq!(pixel_format("image/jpeg", None), Some("MJPEG".to_string()));
    assert_eq!(pixel_format("video/x-h264", Some("avc")), Some("H264".to_string()));
    assert_eq!(pixel_format("video/x-raw", Some("YUY2")), Some("YUY2".to_string()));
    assert_eq!(pixel_format("video/x-raw", None), Some("RAW".to_string()));
    assert_eq!(pixel_format("audio/x-raw", None), None);
}

#[test]
fn best_resolution_is_the_first_widest_video_size() {
    let list = vec![
        caps("audio/x-raw", None, 4000, 1),
        caps("image/jpeg", None, 640, 480),
        caps("video/x-raw", Some("YUY2"), 0, 0),
        caps("video/x-h264", None, 1280, 720),
        caps("video/x-raw", Some("NV12"), 1280, 960),
        caps("video/x-raw", None, 1920, 0),
    ];
    assert_eq!(best_resolution(&list), (1280, 720));
}

#[test]
fn best_resolution_without_usable_caps() {
    assert_eq!(best_resolution(&[]), (0, 0));
    assert_eq!(best_resolution(&[caps("audio/x-raw", None, 10, 10)]), (0, 0));
}

use chalkydri::publisher::{announcement, camera_topic, stream_url};

#[test]
fn camera_topics_live_under_the_publisher_table() {
    assert_eq!(camera_topic("usb-1.2", "source"), "/CameraPublisher/usb-1.2/source");
    assert_eq!(camera_topic("cam", "modes"), "/CameraPublisher/cam/modes");
}

#[test]
fn stream_url_points_at_the_mjpeg_server() {
    assert_eq!(
        stream_url("chalkydri", "usb-1.2"),
        "mjpeg:http://chalkydri.local:6942/stream/usb-1.2"
    );
}

#[test]
fn announcement_values() {
    let a = announcement("host", "front");
    assert_eq!(a.source, "usb:0");
    assert_eq!(a.streams, vec!["mjpeg:http://host.local:6942/stream/front".to_string()]);
    assert_eq!(a.description, "Chalkydri");
    assert!(a.connected);
    assert_eq!(a.modes, vec!["On".to_string(), "Off".to_string()]);
}

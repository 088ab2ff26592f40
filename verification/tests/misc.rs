use chalkydri::config::{CAprilTagsSubsys, CameraSettings, CameraSubsystems, MjpegSubsys};
use chalkydri::mjpeg::{decimal_bytes, multipart_frame};
use chalkydri::sink::{
    april_step, comm_step, empty_frame_step, tag_count, usable_detections, AprilAction, CommAction,
};
use chalkydri::tfledge::{
    tensor_chunk_count, tensor_num_dims, CoralDevice, CoralDeviceKind, CoralDeviceList,
    EdgeTpuDeviceType, Error, TfLiteStatus,
};

#[test]
fn status_maps_to_result() {
    assert_eq!(Error::from(TfLiteStatus::kTfLiteOk), Ok(()));
    assert_eq!(Error::from(TfLiteStatus::kTfLiteCancelled), Err(Error::Cancelled));
    assert_eq!(Error::from(TfLiteStatus::kTfLiteError), Err(Error::Error));
    assert_eq!(Error::from(TfLiteStatus::kTfLiteDelegateError), Err(Error::DelegateError));
    assert_eq!(Error::from(TfLiteStatus::kTfLiteUnresolvedOps), Err(Error::UnresolvedOps));
    assert_eq!(
        Error::from(TfLiteStatus::kTfLiteApplicationError),
        Err(Error::ApplicationError)
    );
    assert_eq!(
        Error::from(TfLiteStatus::kTfLiteDelegateDataNotFound),
        Err(Error::DelegateDataNotFound)
    );
    assert_eq!(
        Error::from(TfLiteStatus::kTfLiteDelegateDataReadError),
        Err(Error::DelegateDataReadError)
    );
    assert_eq!(
        Error::from(TfLiteStatus::kTfLiteDelegateDataWriteError),
        Err(Error::DelegateDataWriteError)
    );
}

#[test]
fn device_kind_and_path() {
    let usb = CoralDevice::new(EdgeTpuDeviceType::EDGETPU_APEX_USB, "/sys/usb0".to_string());
    let pci = CoralDevice::new(EdgeTpuDeviceType::EDGETPU_APEX_PCI, "/dev/apex_0".to_string());
    assert_eq!(usb.kind(), CoralDeviceKind::Usb);
    assert_eq!(pci.kind(), CoralDeviceKind::Pci);
    assert_eq!(usb.path(), "/sys/usb0");
    assert_eq!(pci.path(), "/dev/apex_0");
}

#[test]
fn device_list_hands_out_each_device_once() {
    let devs = vec![
        CoralDevice::new(EdgeTpuDeviceType::EDGETPU_APEX_USB, "a".to_string()),
        CoralDevice::new(EdgeTpuDeviceType::EDGETPU_APEX_PCI, "b".to_string()),
    ];
    let mut list = CoralDeviceList::new(devs);
    let first = list.next().unwrap();
    assert_eq!(first.path(), "a");
    assert_eq!(first.kind(), CoralDeviceKind::Usb);
    let second = list.next().unwrap();
    assert_eq!(second.path(), "b");
    assert!(list.next().is_none());
    assert!(list.next().is_none());
    assert_eq!(list.count(), 0);
}

#[test]
fn device_list_counts_what_is_left() {
    let devs = vec![
        CoralDevice::new(EdgeTpuDeviceType::EDGETPU_APEX_USB, "a".to_string()),
        CoralDevice::new(EdgeTpuDeviceType::EDGETPU_APEX_PCI, "b".to_string()),
    ];
    let mut list = CoralDeviceList::new(devs);
    assert!(list.next().is_some());
    assert_eq!(list.count(), 1);
}

#[test]
fn empty_device_list() {
    let mut list = CoralDeviceList::new(Vec::new());
    assert!(list.next().is_none());
    assert_eq!(list.count(), 0);
}

#[test]
fn tensor_dims_and_chunks() {
    assert_eq!(tensor_num_dims(-1), None);
    assert_eq!(tensor_num_dims(4), Some(4));
    assert_eq!(tensor_num_dims(0), Some(0));
    assert_eq!(tensor_chunk_count(64, 16), 4);
    assert_eq!(tensor_chunk_count(70, 16), 4);
    assert_eq!(tensor_chunk_count(0, 4), 0);
}

#[test]
fn decimal_lengths() {
    assert_eq!(decimal_bytes(0), b"0".to_vec());
    assert_eq!(decimal_bytes(7), b"7".to_vec());
    assert_eq!(decimal_bytes(1234), b"1234".to_vec());
    assert_eq!(decimal_bytes(usize::MAX), usize::MAX.to_string().into_bytes());
}

#[test]
fn multipart_frame_bytes() {
    assert_eq!(
        multipart_frame(Some(b"abc".as_slice())),
        b"--frame\r\nContent-Length: 3\r\nContent-Type: image/jpeg\r\n\r\nabc".to_vec()
    );
    assert_eq!(multipart_frame(None), Vec::<u8>::new());
    let big = vec![7u8; 1500];
    let part = multipart_frame(Some(big.as_slice()));
    assert!(part.starts_with(b"--frame\r\nContent-Length: 1500\r\n"));
    assert!(part.ends_with(&big));
}

#[test]
fn empty_frames_are_throttled() {
    assert_eq!(empty_frame_step(None, 10), (true, Some(10)));
    assert_eq!(empty_frame_step(Some(10), 15), (false, Some(10)));
    assert_eq!(empty_frame_step(Some(10), 16), (true, Some(16)));
}

#[test]
fn tag_count_saturates() {
    assert_eq!(tag_count(0), 0);
    assert_eq!(tag_count(3), 3);
    assert_eq!(tag_count(255), 255);
    assert_eq!(tag_count(300), 255);
}

#[test]
fn comm_decisions() {
    assert_eq!(comm_step(true, true), CommAction::Send);
    assert_eq!(comm_step(true, false), CommAction::Register);
    assert_eq!(comm_step(false, true), CommAction::Skip);
    assert_eq!(comm_step(false, false), CommAction::Skip);
}

#[test]
fn config_defaults() {
    let s = CameraSettings::default();
    assert_eq!((s.width, s.height), (0, 0));
    assert!(s.frame_rate.is_none());
    assert!(s.format.is_none());
    let subs = CameraSubsystems::camera_default();
    assert_eq!(subs.mjpeg, Some(MjpegSubsys { width: 1280, height: 720 }));
    assert_eq!(subs.capriltags, Some(CAprilTagsSubsys { max_frame_rate: 40 }));
    assert!(subs.ml.is_none());
    assert!(subs.custom.is_empty());
}

#[test]
fn detections_need_a_known_tag_and_four_corners() {
    let known = [true, false, true, true];
    let unprojected = [4, 4, 3, 4];
    assert_eq!(usable_detections(&known, &unprojected), vec![0, 3]);
    assert!(usable_detections(&[], &[]).is_empty());
}


#[test]
fn april_step_decisions() {
    // no time stamp or no image: nothing
    assert_eq!(april_step(None, true, 3, Some(1), 10, 10_000), (AprilAction::Idle, Some(1)));
    assert_eq!(april_step(Some(5), false, 3, None, 10, 10_000), (AprilAction::Idle, None));
    // detections: solve, with the saturated tag count and the frame age
    assert_eq!(
        april_step(Some(9_000), true, 300, Some(1), 10, 10_000),
        (AprilAction::Solve { tag_count: 255, age_us: 1_000 }, Some(1))
    );
    // no detections: empty report at most every 5 ms
    assert_eq!(
        april_step(Some(9_500), true, 0, None, 10, 10_000),
        (AprilAction::ReportEmpty { age_us: 500 }, Some(10))
    );
    assert_eq!(april_step(Some(9_500), true, 0, Some(7), 10, 10_000), (AprilAction::Skip, Some(7)));
    assert_eq!(
        april_step(Some(9_500), true, 0, Some(4), 10, 10_000),
        (AprilAction::ReportEmpty { age_us: 500 }, Some(10))
    );
}

use chalkydri::config::{camera_position, cameras_to_add};
use chalkydri::error::{select_field_layout, Error};
use chalkydri::providers::DeviceCache;
use chalkydri::tfledge::TensorData;

fn strings(v: &[&str]) -> Vec<String> {
    v.iter().map(|s| s.to_string()).collect()
}

#[test]
fn merge_adds_unknown_cameras_once() {
    let existing = strings(&["a", "b"]);
    let discovered = strings(&["b", "c", "c", "d"]);
    assert_eq!(cameras_to_add(Some(&existing), &discovered), Some(vec![1, 3]));
}

#[test]
fn merge_without_list_or_discoveries_keeps_list_absent() {
    assert_eq!(cameras_to_add(None, &[]), None);
    assert_eq!(cameras_to_add(Some(&[]), &[]), Some(vec![]));
}

#[test]
fn merge_without_list_starts_one() {
    let discovered = strings(&["x", "x", "y"]);
    assert_eq!(cameras_to_add(None, &discovered), Some(vec![0, 2]));
}

#[test]
fn merge_keeps_all_when_known() {
    let existing = strings(&["a", "b"]);
    let discovered = strings(&["b", "a"]);
    assert_eq!(cameras_to_add(Some(&existing), &discovered), Some(vec![]));
}

#[test]
fn camera_position_finds_first() {
    let ids = strings(&["a", "b", "b"]);
    assert_eq!(camera_position(&ids, &"b".to_string()), Some(1));
    assert_eq!(camera_position(&ids, &"c".to_string()), None);
}

#[test]
fn device_cache_add_remove_lookup() {
    let mut cache: DeviceCache<u32> = DeviceCache::new();
    cache.device_added("usb-1".to_string(), 10);
    cache.device_added("usb-2".to_string(), 20);
    cache.device_added("usb-1".to_string(), 30);
    assert_eq!(cache.get_by_id(&"usb-1".to_string()), Some(&10));
    assert_eq!(cache.get_by_id(&"usb-2".to_string()), Some(&20));
    assert_eq!(cache.devices(), strings(&["usb-1", "usb-2", "usb-1"]));
    cache.device_removed(&"usb-1".to_string());
    assert_eq!(cache.get_by_id(&"usb-1".to_string()), None);
    assert_eq!(cache.devices(), strings(&["usb-2"]));
    cache.device_removed(&"usb-9".to_string());
    assert_eq!(cache.devices(), strings(&["usb-2"]));
}

#[test]
fn field_layout_selection() {
    let names = strings(&["2024", "2025"]);
    assert!(matches!(select_field_layout(None, Some(&"2024".to_string())), Err(Error::NoFieldLayouts)));
    assert!(matches!(select_field_layout(Some(&names), None), Err(Error::FieldLayoutNotSelected)));
    assert_eq!(select_field_layout(Some(&names), Some(&"2025".to_string())).ok(), Some(1));
    match select_field_layout(Some(&names), Some(&"2023".to_string())) {
        Err(Error::FieldLayoutDoesNotExist { id }) => assert_eq!(id, "2023"),
        other => panic!("unexpected {:?}", other),
    }
}

#[test]
fn tensor_data_starts_zeroed() {
    let t: TensorData<u8> = TensorData::new(4);
    assert_eq!(t.as_slice(), &[0u8, 0, 0, 0]);
    let e: TensorData<i32> = TensorData::new(0);
    assert!(e.as_slice().is_empty());
    // the size is in bytes: 8 bytes hold two i32 elements
    let t: TensorData<i32> = TensorData::new(8);
    assert_eq!(t.as_slice(), &[0i32, 0]);
    let t: TensorData<u16> = TensorData::new(6);
    assert_eq!(t.as_slice().len() * std::mem::size_of::<u16>(), 6);
}

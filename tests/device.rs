use slight::{Brightness, Class, Device, Error, Id, ToggleState};

fn dev(id: &str, class: Class, current: usize, max: usize) -> Device {
    Device::new(Id::from(id.to_string()), class, Brightness::new(current, max))
}

#[test]
fn toggle_flips_binary_device() {
    assert_eq!(dev("kbd", Class::Led, 0, 1).toggle(None).unwrap(), 1);
    assert_eq!(dev("kbd", Class::Led, 1, 1).toggle(None).unwrap(), 0);
}

#[test]
fn toggle_to_requested_state() {
    assert_eq!(dev("kbd", Class::Led, 1, 1).toggle(Some(ToggleState::Off)).unwrap(), 0);
    assert_eq!(dev("kbd", Class::Led, 0, 1).toggle(Some(ToggleState::On)).unwrap(), 1);
    assert_eq!(dev("kbd", Class::Led, 1, 1).toggle(Some(ToggleState::On)).unwrap(), 1);
}

#[test]
fn toggle_refused_on_ranged_device() {
    match dev("intel", Class::Backlight, 5, 100).toggle(None) {
        Err(Error::CannotToggle { id, brightness }) => {
            assert_eq!(id.as_str(), "intel");
            assert_eq!(brightness, Brightness::new(5, 100));
        }
        other => panic!("unexpected {other:?}"),
    }
}

#[test]
fn binary_device_check() {
    assert!(Brightness::new(0, 1).is_binary());
    assert!(!Brightness::new(0, 2).is_binary());
    assert!(dev("a", Class::Led, 1, 1).is_toggleable());
}

#[test]
fn toggle_state_names() {
    assert_eq!(ToggleState::parse("on"), Some(ToggleState::On));
    assert_eq!(ToggleState::parse("ON"), Some(ToggleState::On));
    assert_eq!(ToggleState::parse("Off"), Some(ToggleState::Off));
    assert_eq!(ToggleState::parse("onn"), None);
    assert_eq!(ToggleState::from_lowercase("OFF"), None);
}

#[test]
fn class_directory_names() {
    assert_eq!(Class::Backlight.filename(), "backlight");
    assert_eq!(Class::Led.filename(), "leds");
    assert_eq!(Class::from_filename("backlight"), Some(Class::Backlight));
    assert_eq!(Class::from_filename("leds"), Some(Class::Led));
    assert_eq!(Class::from_filename("led"), None);
    assert_eq!(Class::Led.name(), "Led");
}

#[test]
fn select_named_or_first_backlight() {
    let devices = vec![
        dev("input0::capslock", Class::Led, 0, 1),
        dev("intel_backlight", Class::Backlight, 50, 100),
        dev("acpi_video0", Class::Backlight, 3, 10),
    ];
    assert_eq!(Device::select(&devices, &None).unwrap(), 1);
    let id = Some(Id::from("acpi_video0".to_string()));
    assert_eq!(Device::select(&devices, &id).unwrap(), 2);
    let missing = Some(Id::from("nope".to_string()));
    assert!(matches!(Device::select(&devices, &missing), Err(Error::SpecifiedDeviceNotFound)));
    let leds = vec![dev("input0::capslock", Class::Led, 0, 1)];
    assert!(matches!(Device::select(&leds, &None), Err(Error::SuitableDeviceNotFound)));
}

#[test]
fn listing_filters_by_name() {
    let devices = vec![
        dev("a", Class::Led, 0, 1),
        dev("b", Class::Backlight, 1, 2),
        dev("c", Class::Backlight, 1, 2),
    ];
    assert_eq!(Device::listed(&devices, &vec![]).unwrap(), vec![0, 1, 2]);
    let ids = vec![Id::from("c".to_string()), Id::from("a".to_string())];
    assert_eq!(Device::listed(&devices, &ids).unwrap(), vec![0, 2]);
    assert!(matches!(Device::listed(&vec![], &ids), Err(Error::NoDevices)));
}

#[test]
fn level_file_text() {
    assert_eq!(slight::parse_level("42\n"), Some(42));
    assert_eq!(slight::parse_level("42"), Some(42));
    assert_eq!(slight::parse_level("007"), Some(7));
    assert_eq!(slight::parse_level("0\n"), Some(0));
    assert_eq!(slight::parse_level(""), None);
    assert_eq!(slight::parse_level("\n"), None);
    assert_eq!(slight::parse_level("4 2"), None);
    assert_eq!(slight::parse_level("-1"), None);
    assert_eq!(slight::parse_level("42\n\n"), None);
    let too_big = format!("{}0", usize::MAX);
    assert_eq!(slight::parse_level(&too_big), None);
    assert_eq!(slight::parse_level(&usize::MAX.to_string()), Some(usize::MAX));
}

#[test]
fn device_names_compare_by_text() {
    let a = Id::from("intel_backlight".to_string());
    assert_eq!(a.cloned(), a);
    assert_ne!(a, Id::from("intel".to_string()));
    assert!(slight::device::same_text("leds", "leds"));
    assert!(!slight::device::same_text("leds", "led"));
    let d = dev("x", Class::Backlight, 3, 9);
    assert_eq!(d.id().as_str(), "x");
    assert_eq!(d.class(), Class::Backlight);
    assert_eq!(d.brightness(), Brightness::new(3, 9));
}

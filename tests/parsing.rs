use usb_monitor::device::{devices_from_listing, is_bootloader_name, parse_lsusb_line, UsbDevice};
use usb_monitor::text::parse_trimmed_u32;
use usb_monitor::tty::TtyMap;

fn line(text: &str) -> UsbDevice {
    parse_lsusb_line(text, &TtyMap::new()).expect("a device line")
}

#[test]
fn dfu_device_line_end_to_end() {
    let d = parse_lsusb_line(
        "Bus 001 Device 004: ID 0483:df11 STM Device in DFU Mode",
        &TtyMap::new(),
    )
    .unwrap();
    assert_eq!(d.bus, "001");
    assert_eq!(d.device, "004");
    assert_eq!(d.vendor_id, "0483");
    assert_eq!(d.product_id, "df11");
    assert_eq!(d.name, "STM Device in DFU Mode");
    assert!(d.is_dfu);
    assert_eq!(d.tty_path, None);
    assert_eq!(d.dev_path, "/dev/bus/usb/001/004");
}

#[test]
fn ordinary_device_is_not_bootloader() {
    let d = line("Bus 002 Device 003: ID 046d:c52b Logitech, Inc. Unifying Receiver");
    assert!(!d.is_dfu);
    assert_eq!(d.name, "Logitech, Inc. Unifying Receiver");
    assert_eq!(d.key(), "002:003");
    assert_eq!(d.id(), "046d:c52b");
    assert_eq!(d.display_path(), "/dev/bus/usb/002/003");
}

#[test]
fn bootloader_markers_any_case() {
    assert!(line("Bus 001 Device 005: ID 2e8a:0003 Raspberry Pi RP2 Boot").is_dfu);
    assert!(line("Bus 001 Device 006: ID 1234:5678 Firmware DOWNLOAD interface").is_dfu);
    assert!(line("Bus 001 Device 007: ID 1234:5679 dfu").is_dfu);
    assert!(!line("Bus 001 Device 008: ID 1234:5670 Keyboard").is_dfu);
}

#[test]
fn lower_cased_marker_test() {
    assert!(is_bootloader_name("stm device in dfu mode"));
    assert!(is_bootloader_name("bootloader"));
    assert!(!is_bootloader_name("STM DEVICE IN DFU MODE"));
    assert!(!is_bootloader_name(""));
}

#[test]
fn missing_name_is_unknown() {
    let d = line("Bus 003 Device 001: ID 1d6b:0002");
    assert_eq!(d.name, "Unknown");
    assert_eq!(d.vendor_id, "1d6b");
    assert_eq!(d.product_id, "0002");
}

#[test]
fn empty_name_after_space_is_kept() {
    let d = line("Bus 003 Device 001: ID 1d6b:0002 ");
    assert_eq!(d.name, "");
}

#[test]
fn malformed_lines_are_rejected() {
    let m = TtyMap::new();
    assert!(parse_lsusb_line("", &m).is_none());
    assert!(parse_lsusb_line("Bus 001 Device 004 ID 0483:df11 x", &m).is_none());
    assert!(parse_lsusb_line("Bus 001: ID 0483:df11 x", &m).is_none());
    assert!(parse_lsusb_line("Bus 001 Device 004: ID 0483df11 x", &m).is_none());
    assert!(parse_lsusb_line("Bus 001 Device 004: ID 04:83:df11 x", &m).is_none());
}

#[test]
fn terminal_path_is_attached_by_number() {
    let mut m = TtyMap::new();
    m.insert_first(1, 4, "/dev/ttyACM0".to_string());
    let d = parse_lsusb_line("Bus 001 Device 004: ID 0483:5740 Virtual COM Port", &m).unwrap();
    assert_eq!(d.tty_path.as_deref(), Some("/dev/ttyACM0"));
    assert_eq!(d.display_path(), "/dev/ttyACM0");
    let other = parse_lsusb_line("Bus 001 Device 005: ID 0483:5740 Virtual COM Port", &m).unwrap();
    assert_eq!(other.tty_path, None);
}

#[test]
fn unparsable_numbers_look_up_zero() {
    let mut m = TtyMap::new();
    m.insert_first(0, 0, "/dev/ttyUSB9".to_string());
    let d = parse_lsusb_line("Bus x Device y: ID 0483:5740 Odd", &m).unwrap();
    assert_eq!(d.tty_path.as_deref(), Some("/dev/ttyUSB9"));
}

#[test]
fn listing_skips_bad_lines_and_keeps_order() {
    let text = "Bus 001 Device 001: ID 1d6b:0002 Linux Foundation 2.0 root hub\r\n\
                garbage line\n\
                Bus 001 Device 004: ID 0483:df11 STM Device in DFU Mode\n\
                \n\
                Bus 002 Device 002: ID 8087:0024 Hub\n";
    let devices = devices_from_listing(Some(text), &TtyMap::new());
    assert_eq!(devices.len(), 3);
    assert_eq!(devices[0].name, "Linux Foundation 2.0 root hub");
    assert_eq!(devices[1].key(), "001:004");
    assert_eq!(devices[2].key(), "002:002");
}

#[test]
fn listing_unavailable_gives_no_devices() {
    assert!(devices_from_listing(None, &TtyMap::new()).is_empty());
    assert!(devices_from_listing(Some(""), &TtyMap::new()).is_empty());
}

#[test]
fn snapshot_is_repeatable() {
    let mut m = TtyMap::new();
    m.insert_first(1, 4, "/dev/ttyACM0".to_string());
    let text = "Bus 001 Device 004: ID 0483:df11 STM Device in DFU Mode\nBus 001 Device 002: ID aaaa:bbbb Thing";
    let a = devices_from_listing(Some(text), &m);
    let b = devices_from_listing(Some(text), &m);
    assert_eq!(a, b);
}

#[test]
fn listing_round_trip_fields() {
    let d = line("Bus 004 Device 012: ID 10c4:ea60 Silicon Labs CP210x UART Bridge");
    let again = line(&format!(
        "Bus {} Device {}: ID {}:{} {}",
        d.bus, d.device, d.vendor_id, d.product_id, d.name
    ));
    assert_eq!(d, again);
}

#[test]
fn numbers_in_metadata_files() {
    assert_eq!(parse_trimmed_u32(" 3\n"), Some(3));
    assert_eq!(parse_trimmed_u32("+12"), Some(12));
    assert_eq!(parse_trimmed_u32("4294967295"), Some(4294967295));
    assert_eq!(parse_trimmed_u32("4294967296"), None);
    assert_eq!(parse_trimmed_u32("-1"), None);
    assert_eq!(parse_trimmed_u32("+"), None);
    assert_eq!(parse_trimmed_u32(""), None);
    assert_eq!(parse_trimmed_u32("1 2"), None);
}

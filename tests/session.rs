use usb_monitor::device::{parse_lsusb_line, UsbDevice};
use usb_monitor::session::{format_clock, Session, Stats};
use usb_monitor::tty::TtyMap;

fn dev(bus: &str, addr: &str, id: &str, name: &str) -> UsbDevice {
    parse_lsusb_line(&format!("Bus {} Device {}: ID {} {}", bus, addr, id, name), &TtyMap::new())
        .unwrap()
}

fn keys(s: &Session) -> Vec<String> {
    s.devices.iter().map(|d| d.key()).collect()
}

#[test]
fn connects_and_disconnects_by_key() {
    let mut s = Session::new();
    s.update_devices(vec![dev("1", "2", "aaaa:0001", "A"), dev("1", "3", "aaaa:0002", "B")], 10);
    assert_eq!((s.stats.connects, s.stats.disconnects), (0, 0));
    s.update_devices(vec![dev("1", "3", "aaaa:0002", "B"), dev("1", "4", "aaaa:0003", "C")], 20);
    assert_eq!(s.stats.connects, 1);
    assert_eq!(s.stats.disconnects, 1);
    assert_eq!(s.stats.refresh_count, 2);
    assert_eq!(s.stats.last_refresh_micros, 20);
}

#[test]
fn first_snapshot_counts_no_events() {
    let mut s = Session::new();
    s.update_devices(
        vec![dev("1", "2", "aaaa:0001", "A"), dev("1", "5", "aaaa:0002", "B"), dev("2", "2", "aaaa:0003", "C")],
        5,
    );
    assert_eq!(s.stats.connects, 0);
    assert_eq!(s.stats.disconnects, 0);
    assert_eq!(s.stats.peak_devices, 3);
}

#[test]
fn empty_first_snapshot_then_arrivals() {
    let mut s = Session::new();
    s.update_devices(vec![], 1);
    assert_eq!(s.selected, None);
    s.update_devices(vec![dev("1", "2", "aaaa:0001", "A")], 1);
    assert_eq!(s.stats.connects, 1);
    assert_eq!(s.selected, Some(0));
}

#[test]
fn selection_follows_key_to_new_position() {
    let mut s = Session::new();
    s.update_devices(vec![dev("1", "2", "aaaa:0001", "A"), dev("1", "3", "aaaa:0002", "B")], 1);
    assert_eq!(s.selected, Some(0));
    s.next();
    assert_eq!(s.selected, Some(1));
    s.update_devices(
        vec![dev("1", "9", "aaaa:0009", "Z"), dev("1", "8", "aaaa:0008", "Y"), dev("1", "3", "aaaa:0002", "B")],
        1,
    );
    assert_eq!(s.selected, Some(2));
    assert_eq!(s.selected_device().unwrap().key(), "1:3");
}

#[test]
fn selection_clamps_when_last_device_leaves() {
    let mut s = Session::new();
    s.update_devices(
        vec![dev("1", "2", "aaaa:0001", "A"), dev("1", "3", "aaaa:0002", "B"), dev("1", "4", "aaaa:0003", "C")],
        1,
    );
    s.previous();
    assert_eq!(s.selected, Some(2));
    s.update_devices(vec![dev("1", "2", "aaaa:0001", "A"), dev("1", "3", "aaaa:0002", "B")], 1);
    assert_eq!(s.selected, Some(1));
    assert_eq!(s.selected_device().unwrap().key(), "1:3");
}

#[test]
fn selection_keeps_index_when_device_leaves_from_middle() {
    let mut s = Session::new();
    s.update_devices(
        vec![dev("1", "2", "aaaa:0001", "A"), dev("1", "3", "aaaa:0002", "B"), dev("1", "4", "aaaa:0003", "C")],
        1,
    );
    s.next();
    s.update_devices(vec![dev("1", "2", "aaaa:0001", "A"), dev("1", "4", "aaaa:0003", "C")], 1);
    assert_eq!(s.selected, Some(1));
    assert_eq!(s.selected_device().unwrap().key(), "1:4");
}

#[test]
fn selection_absent_on_empty_snapshot() {
    let mut s = Session::new();
    s.update_devices(vec![dev("1", "2", "aaaa:0001", "A")], 1);
    s.update_devices(vec![], 1);
    assert_eq!(s.selected, None);
    assert!(s.selected_device().is_none());
    assert_eq!(s.stats.disconnects, 1);
}

#[test]
fn replugged_model_counted_once() {
    let mut s = Session::new();
    s.update_devices(vec![dev("1", "5", "0483:df11", "STM Device in DFU Mode")], 1);
    s.update_devices(vec![dev("1", "6", "0483:df11", "STM Device in DFU Mode")], 1);
    assert_eq!(s.stats.devices_ever_seen.len(), 1);
    assert_eq!(s.stats.dfu_devices_ever_seen.len(), 1);
    assert_eq!((s.stats.connects, s.stats.disconnects), (1, 1));
}

#[test]
fn ever_seen_only_grows() {
    let mut s = Session::new();
    s.update_devices(vec![dev("1", "2", "aaaa:0001", "A"), dev("1", "3", "bbbb:0001", "Boot mode")], 1);
    s.update_devices(vec![], 1);
    assert_eq!(s.stats.devices_ever_seen.len(), 2);
    assert_eq!(s.stats.dfu_devices_ever_seen.len(), 1);
    assert_eq!(s.stats.peak_devices, 2);
}

#[test]
fn navigation_wraps() {
    let mut s = Session::new();
    s.next();
    assert_eq!(s.selected, None);
    s.update_devices(vec![dev("1", "2", "aaaa:0001", "A"), dev("1", "3", "aaaa:0002", "B")], 1);
    s.next();
    s.next();
    assert_eq!(s.selected, Some(0));
    s.previous();
    assert_eq!(s.selected, Some(1));
    assert_eq!(keys(&s), vec!["1:2".to_string(), "1:3".to_string()]);
}

#[test]
fn counts_bootloader_devices() {
    let mut s = Session::new();
    assert_eq!(s.dfu_count(), 0);
    s.update_devices(
        vec![dev("1", "2", "aaaa:0001", "DFU"), dev("1", "3", "aaaa:0002", "Mouse"), dev("1", "4", "aaaa:0003", "Bootloader")],
        1,
    );
    assert_eq!(s.dfu_count(), 2);
}

#[test]
fn clock_readings() {
    assert_eq!(format_clock(0), "00:00");
    assert_eq!(format_clock(59), "00:59");
    assert_eq!(format_clock(61), "01:01");
    assert_eq!(format_clock(3599), "59:59");
    assert_eq!(format_clock(3600), "01:00:00");
    assert_eq!(format_clock(3661), "01:01:01");
    assert_eq!(format_clock(360000), "100:00:00");
}

#[test]
fn fresh_stats() {
    let st = Stats::new();
    assert_eq!(st.refresh_count, 0);
    assert!(st.devices_ever_seen.is_empty());
    let text = st.format_uptime();
    assert!(text.len() >= 5);
}

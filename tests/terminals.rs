use usb_monitor::tty::{
    build_tty_map, first_metadata_level, parse_bus_dev, probe_names, terminal_name_from_link,
    terminal_path, TtyEntry, TtyMap,
};

#[test]
fn link_targets_name_serial_terminals() {
    assert_eq!(terminal_name_from_link("../../ttyUSB0").as_deref(), Some("ttyUSB0"));
    assert_eq!(terminal_name_from_link("../../ttyACM12").as_deref(), Some("ttyACM12"));
    assert_eq!(terminal_name_from_link("../../sda1"), None);
    assert_eq!(terminal_name_from_link("ttyUSB0"), None);
    assert_eq!(terminal_name_from_link("../ttyUSB0"), None);
}

#[test]
fn terminal_nodes_live_in_dev() {
    assert_eq!(terminal_path("ttyUSB3"), "/dev/ttyUSB3");
    let e = TtyEntry::for_terminal(2, 7, "ttyACM1");
    assert_eq!((e.bus, e.dev, e.path.as_str()), (2, 7, "/dev/ttyACM1"));
}

#[test]
fn probed_names_cover_both_families() {
    let names = probe_names();
    assert_eq!(names.len(), 32);
    assert_eq!(names[0], "ttyUSB0");
    assert_eq!(names[10], "ttyUSB10");
    assert_eq!(names[15], "ttyUSB15");
    assert_eq!(names[16], "ttyACM0");
    assert_eq!(names[31], "ttyACM15");
}

#[test]
fn metadata_search_is_bounded() {
    assert_eq!(first_metadata_level(&vec![false, false, true, true]), Some(2));
    assert_eq!(first_metadata_level(&vec![true]), Some(0));
    assert_eq!(first_metadata_level(&vec![false; 5]), None);
    assert_eq!(first_metadata_level(&vec![false, false, false, false, false, true]), None);
    assert_eq!(first_metadata_level(&vec![]), None);
}

#[test]
fn bus_and_device_files() {
    assert_eq!(parse_bus_dev("1\n", "4\n"), Some((1, 4)));
    assert_eq!(parse_bus_dev("1\n", "x\n"), None);
    assert_eq!(parse_bus_dev("", "4"), None);
}

#[test]
fn first_found_path_wins() {
    let mut m = TtyMap::new();
    m.insert_first(1, 2, "/dev/ttyUSB0".to_string());
    m.insert_first(1, 2, "/dev/ttyUSB1".to_string());
    assert_eq!(m.get(1, 2).map(|s| s.as_str()), Some("/dev/ttyUSB0"));
    assert_eq!(m.get(2, 1), None);
}

#[test]
fn strategies_combine_additively() {
    let by_id = vec![TtyEntry::for_terminal(1, 2, "ttyUSB0")];
    let probed = vec![
        TtyEntry::for_terminal(1, 2, "ttyUSB7"),
        TtyEntry::for_terminal(1, 3, "ttyACM0"),
    ];
    let m = build_tty_map(&by_id, &probed);
    assert_eq!(m.get(1, 2).map(|s| s.as_str()), Some("/dev/ttyUSB0"));
    assert_eq!(m.get(1, 3).map(|s| s.as_str()), Some("/dev/ttyACM0"));
    let swapped = build_tty_map(&probed, &by_id);
    assert_eq!(swapped.get(1, 3).map(|s| s.as_str()), Some("/dev/ttyACM0"));
    assert_eq!(m.get(9, 9), None);
}

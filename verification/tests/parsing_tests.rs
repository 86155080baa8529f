use adb_explorer::adb::{Adb, Device};
use adb_explorer::file_operations::{format_entry, Local};
use adb_explorer::text::split_lines;

#[test]
fn format_entry_marks_directories_with_a_slash() {
    assert_eq!(format_entry("music", true), "music/");
    assert_eq!(format_entry("notes.txt", false), "notes.txt");
    assert_eq!(format_entry("", true), "/");
}

#[test]
fn device_line_with_one_tab_parses() {
    let d = Device::new("emulator-5554\tdevice").unwrap();
    assert_eq!(d.name, "emulator-5554");
    assert!(d.authorized);
    assert_eq!(d.working_directory, "/");
}

#[test]
fn device_line_with_other_state_is_unauthorized() {
    let d = Device::new("R58M123ABC\tunauthorized").unwrap();
    assert_eq!(d.name, "R58M123ABC");
    assert!(!d.authorized);
}

#[test]
fn device_line_without_tab_is_rejected() {
    assert!(Device::new("List of devices attached").is_none());
    assert!(Device::new("").is_none());
}

#[test]
fn device_line_with_two_tabs_is_rejected() {
    assert!(Device::new("serial\tdevice\textra").is_none());
}

#[test]
fn device_line_with_empty_name_still_parses() {
    let d = Device::new("\tdevice").unwrap();
    assert_eq!(d.name, "");
    assert!(d.authorized);
}

#[test]
fn split_lines_keeps_empty_pieces() {
    let lines = split_lines("a\nb\n");
    assert_eq!(lines, vec!["a".to_string(), "b".to_string(), "".to_string()]);
}

#[test]
fn split_lines_of_empty_input_is_one_empty_line() {
    assert_eq!(split_lines(""), vec!["".to_string()]);
}

#[test]
fn split_lines_without_newline_is_the_whole_input() {
    assert_eq!(split_lines("one line"), vec!["one line".to_string()]);
}

#[test]
fn populate_devices_skips_header_and_junk() {
    let mut adb = Adb::new();
    adb.populate_devices(
        "List of devices attached\nserial1\tdevice\njunk line\nserial2\tunauthorized\n",
    );
    assert_eq!(adb.devices.len(), 2);
    assert_eq!(adb.devices[0].name, "serial1");
    assert!(adb.devices[0].authorized);
    assert_eq!(adb.devices[1].name, "serial2");
    assert!(!adb.devices[1].authorized);
}

#[test]
fn populate_devices_appends_to_existing_devices() {
    let mut adb = Adb::new();
    adb.populate_devices("header\na\tdevice\n");
    adb.populate_devices("header\nb\tdevice\n");
    assert_eq!(adb.devices.len(), 2);
    assert_eq!(adb.devices[0].name, "a");
    assert_eq!(adb.devices[1].name, "b");
}

#[test]
fn device_change_directory_appends_verbatim() {
    let mut d = Device::new("serial\tdevice").unwrap();
    d.change_directory_rel("sdcard/");
    assert_eq!(d.working_directory, "/sdcard/");
    d.change_directory_rel("DCIM/");
    assert_eq!(d.working_directory, "/sdcard/DCIM/");
}

#[test]
fn device_level_up_cuts_at_the_last_slash() {
    let mut d = Device::new("serial\tdevice").unwrap();
    d.change_directory_rel("a/b");
    assert_eq!(d.working_directory, "/a/b");
    d.level_up();
    assert_eq!(d.working_directory, "/a");
    d.level_up();
    assert_eq!(d.working_directory, "");
    d.level_up();
    assert_eq!(d.working_directory, "");
}

#[test]
fn device_is_directory_means_trailing_slash() {
    let d = Device::new("serial\tdevice").unwrap();
    assert!(d.is_directory("Music/".to_string()));
    assert!(!d.is_directory("notes.txt".to_string()));
    assert!(!d.is_directory("".to_string()));
}

#[test]
fn device_get_working_directory_starts_at_root() {
    let d = Device::new("serial\tdevice").unwrap();
    assert_eq!(d.get_working_directory(), "/");
}

#[test]
fn local_changes_directory_only_into_directories() {
    let mut local = Local::new("/home/user".to_string());
    assert_eq!(local.candidate_path("docs"), "/home/user/docs");
    local.change_directory_rel("docs", true);
    assert_eq!(local.get_working_directory(), "/home/user/docs");
    local.change_directory_rel("notes.txt", false);
    assert_eq!(local.get_working_directory(), "/home/user/docs");
}

#[test]
fn local_level_up_stops_at_the_root() {
    let mut local = Local::new("/home/user".to_string());
    local.level_up();
    assert_eq!(local.get_working_directory(), "/home");
    local.level_up();
    assert_eq!(local.get_working_directory(), "/");
    local.level_up();
    assert_eq!(local.get_working_directory(), "/");
}

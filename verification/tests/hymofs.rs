use hymo_core::hymofs::{
    digit_text, parse_version, strip_text_prefix, tag_text, take_first_line, EntryKind, HymoFs,
    HymoFsStatus, ModuleEntry, EXPECTED_PROTOCOL_VERSION,
};

fn entry(path: &str, kind: EntryKind, rdev: u64) -> ModuleEntry {
    ModuleEntry { path: path.to_string(), kind, rdev }
}

fn sample_listing() -> Vec<ModuleEntry> {
    vec![
        entry("/data/adb/modules/foo/system/bin/tool", EntryKind::File, 0),
        entry("/data/adb/modules/foo/system/bin/link", EntryKind::Symlink, 0),
        entry("/data/adb/modules/foo/system/app/Bloat", EntryKind::CharDevice, 0),
    ]
}

#[test]
fn expected_version_is_three() {
    assert_eq!(EXPECTED_PROTOCOL_VERSION, 3);
}

#[test]
fn absent_channel_is_not_present() {
    assert_eq!(HymoFs::check_status(None), HymoFsStatus::NotPresent);
    assert!(!HymoFs::is_available(None));
}

#[test]
fn matching_version_is_available() {
    assert_eq!(HymoFs::check_status(Some("HymoFS Protocol: 3\n")), HymoFsStatus::Available);
    assert_eq!(HymoFs::check_status(Some("HymoFS Protocol: 3")), HymoFsStatus::Available);
    assert_eq!(
        HymoFs::check_status(Some("HymoFS Protocol: 3\r\nrules: 0\n")),
        HymoFsStatus::Available
    );
    assert!(HymoFs::is_available(Some("HymoFS Protocol: 3\n")));
}

#[test]
fn lower_version_means_kernel_too_old() {
    assert_eq!(HymoFs::check_status(Some("HymoFS Protocol: 2\n")), HymoFsStatus::KernelTooOld);
    assert_eq!(HymoFs::check_status(Some("HymoFS Protocol: -1\n")), HymoFsStatus::KernelTooOld);
    assert!(!HymoFs::is_available(Some("HymoFS Protocol: 2\n")));
}

#[test]
fn higher_version_means_module_too_old() {
    assert_eq!(HymoFs::check_status(Some("HymoFS Protocol: 4\n")), HymoFsStatus::ModuleTooOld);
    assert_eq!(
        HymoFs::check_status(Some("HymoFS Protocol: 2147483647\n")),
        HymoFsStatus::ModuleTooOld
    );
    assert!(!HymoFs::is_available(Some("HymoFS Protocol: 4\n")));
}

#[test]
fn malformed_banner_is_not_present() {
    assert_eq!(HymoFs::check_status(Some("")), HymoFsStatus::NotPresent);
    assert_eq!(HymoFs::check_status(Some("\nHymoFS Protocol: 3\n")), HymoFsStatus::NotPresent);
    assert_eq!(HymoFs::check_status(Some("HymoFS Protocol: \n")), HymoFsStatus::NotPresent);
    assert_eq!(HymoFs::check_status(Some("HymoFS Protocol: three\n")), HymoFsStatus::NotPresent);
    assert_eq!(HymoFs::check_status(Some("HymoFS Protocol:3\n")), HymoFsStatus::NotPresent);
    assert_eq!(HymoFs::check_status(Some("HymoFS Protocol: 3 \n")), HymoFsStatus::NotPresent);
    assert_eq!(HymoFs::check_status(Some("hymofs protocol: 3\n")), HymoFsStatus::NotPresent);
    assert_eq!(
        HymoFs::check_status(Some("HymoFS Protocol: 2147483648\n")),
        HymoFsStatus::NotPresent
    );
}

#[test]
fn protocol_version_is_read_from_the_first_line() {
    assert_eq!(HymoFs::get_protocol_version("HymoFS Protocol: 3\n"), Some(3));
    assert_eq!(HymoFs::get_protocol_version("HymoFS Protocol: 12\nHymoFS Protocol: 3\n"), Some(12));
    assert_eq!(HymoFs::get_protocol_version("HymoFS Protocol: +7"), Some(7));
    assert_eq!(HymoFs::get_protocol_version("Protocol: 3"), None);
    assert_eq!(HymoFs::get_protocol_version(""), None);
}

#[test]
fn status_for_each_version() {
    assert_eq!(HymoFs::status_for_version(None), HymoFsStatus::NotPresent);
    assert_eq!(HymoFs::status_for_version(Some(3)), HymoFsStatus::Available);
    assert_eq!(HymoFs::status_for_version(Some(2)), HymoFsStatus::KernelTooOld);
    assert_eq!(HymoFs::status_for_version(Some(i32::MIN)), HymoFsStatus::KernelTooOld);
    assert_eq!(HymoFs::status_for_version(Some(4)), HymoFsStatus::ModuleTooOld);
    assert_eq!(HymoFs::status_for_version(Some(i32::MAX)), HymoFsStatus::ModuleTooOld);
}

#[test]
fn primitive_commands() {
    assert_eq!(HymoFs::clear(), "clear");
    assert_eq!(HymoFs::add_rule("/system/a", "/mod/system/a", Some(8)), "add /system/a /mod/system/a 8");
    assert_eq!(HymoFs::add_rule("/system/a", "/mod/system/a", Some(10)), "add /system/a /mod/system/a 10");
    assert_eq!(HymoFs::add_rule("/system/a", "/mod/system/a", None), "add /system/a /mod/system/a 0");
    assert_eq!(HymoFs::add_rule("/t", "/s", Some(u32::MAX)), "add /t /s 4294967295");
    assert_eq!(HymoFs::delete_rule("/system/a"), "delete /system/a");
    assert_eq!(HymoFs::hide_path("/system/app/Bloat"), "hide /system/app/Bloat");
    assert_eq!(HymoFs::inject_dir("/system"), "inject /system");
}

#[test]
fn retarget_moves_an_entry_under_the_target_base() {
    assert_eq!(
        HymoFs::retarget("/system", "/data/adb/modules/foo/system", "/data/adb/modules/foo/system/bin/tool"),
        Some("/system/bin/tool".to_string())
    );
    assert_eq!(
        HymoFs::retarget("/system", "/data/adb/modules/foo/system", "/data/adb/modules/bar/system/bin/tool"),
        None
    );
    assert_eq!(HymoFs::retarget("/system", "/mod", "/module/x"), None);
}

#[test]
fn entry_rule_by_kind() {
    let t = "/system/x";
    assert_eq!(
        HymoFs::entry_rule(&entry("/m/x", EntryKind::File, 0), t),
        Some("add /system/x /m/x 8".to_string())
    );
    assert_eq!(
        HymoFs::entry_rule(&entry("/m/x", EntryKind::Symlink, 0), t),
        Some("add /system/x /m/x 10".to_string())
    );
    assert_eq!(
        HymoFs::entry_rule(&entry("/m/x", EntryKind::CharDevice, 0), t),
        Some("hide /system/x".to_string())
    );
    assert_eq!(HymoFs::entry_rule(&entry("/m/x", EntryKind::CharDevice, 259), t), None);
    assert_eq!(
        HymoFs::entry_rule(&entry("/m/x", EntryKind::Directory, 0), t),
        Some("inject /system/x".to_string())
    );
    assert_eq!(HymoFs::entry_rule(&entry("/m/x", EntryKind::Other, 0), t), None);
}

#[test]
fn projecting_file_symlink_and_whiteout() {
    let listing = sample_listing();
    let r = HymoFs::inject_directory("/system", "/data/adb/modules/foo/system", Some(&listing));
    assert_eq!(r.stopped_at, None);
    let mut got = r.commands.clone();
    got.sort();
    let mut expected = vec![
        "inject /system".to_string(),
        "add /system/bin/tool /data/adb/modules/foo/system/bin/tool 8".to_string(),
        "add /system/bin/link /data/adb/modules/foo/system/bin/link 10".to_string(),
        "hide /system/app/Bloat".to_string(),
    ];
    expected.sort();
    assert_eq!(got, expected);
    assert_eq!(r.commands[0], "inject /system");
    assert!(!r.commands.iter().any(|c| c.starts_with("add /system/app/Bloat")));
}

#[test]
fn projecting_directories_and_real_devices() {
    let listing = vec![
        entry("/m/system/bin", EntryKind::Directory, 0),
        entry("/m/system/bin/tool", EntryKind::File, 0),
        entry("/m/system/dev0", EntryKind::CharDevice, 1281),
        entry("/m/system/pipe", EntryKind::Other, 0),
    ];
    let r = HymoFs::inject_directory("/system", "/m/system", Some(&listing));
    assert_eq!(r.stopped_at, None);
    assert_eq!(
        r.commands,
        vec![
            "inject /system".to_string(),
            "inject /system/bin".to_string(),
            "add /system/bin/tool /m/system/bin/tool 8".to_string(),
        ]
    );
}

#[test]
fn unprojecting_emits_one_delete_per_entry() {
    let listing = sample_listing();
    let r = HymoFs::delete_directory_rules("/system", "/data/adb/modules/foo/system", Some(&listing));
    assert_eq!(r.stopped_at, None);
    assert_eq!(
        r.commands,
        vec![
            "delete /system/bin/tool".to_string(),
            "delete /system/bin/link".to_string(),
            "delete /system/app/Bloat".to_string(),
        ]
    );
}

#[test]
fn missing_module_directory_is_a_no_op() {
    let r = HymoFs::inject_directory("/system", "/data/adb/modules/none/system", None);
    assert!(r.commands.is_empty());
    assert_eq!(r.stopped_at, None);
    let r = HymoFs::delete_directory_rules("/system", "/data/adb/modules/none/system", None);
    assert!(r.commands.is_empty());
    assert_eq!(r.stopped_at, None);
}

#[test]
fn empty_module_directory_marks_only_the_base() {
    let listing: Vec<ModuleEntry> = Vec::new();
    let r = HymoFs::inject_directory("/system", "/m/system", Some(&listing));
    assert_eq!(r.commands, vec!["inject /system".to_string()]);
    assert_eq!(r.stopped_at, None);
    let r = HymoFs::delete_directory_rules("/system", "/m/system", Some(&listing));
    assert!(r.commands.is_empty());
    assert_eq!(r.stopped_at, None);
}

#[test]
fn projection_stops_at_an_entry_outside_the_module_directory() {
    let listing = vec![
        entry("/m/system/a", EntryKind::File, 0),
        entry("/elsewhere/b", EntryKind::File, 0),
        entry("/m/system/c", EntryKind::File, 0),
    ];
    let r = HymoFs::inject_directory("/system", "/m/system", Some(&listing));
    assert_eq!(r.stopped_at, Some(1));
    assert_eq!(
        r.commands,
        vec!["inject /system".to_string(), "add /system/a /m/system/a 8".to_string()]
    );
    let r = HymoFs::delete_directory_rules("/system", "/m/system", Some(&listing));
    assert_eq!(r.stopped_at, Some(1));
    assert_eq!(r.commands, vec!["delete /system/a".to_string()]);
}

#[test]
fn first_line_agrees_with_std_lines() {
    let samples = [
        "",
        "\n",
        "\r\n",
        "\r",
        "a",
        "a\n",
        "a\r\n",
        "a\r",
        "a\r\r\n",
        "a\rb\n",
        "HymoFS Protocol: 3\nrest",
        "HymoFS Protocol: 3\r\nrest\r\n",
        "HymoFS Protocol: 3\r",
        "é\nü",
        "\n\n",
    ];
    for text in samples {
        assert_eq!(take_first_line(text), text.lines().next());
    }
}

#[test]
fn first_line_edge_cases() {
    assert_eq!(take_first_line(""), None);
    assert_eq!(take_first_line("\n"), Some(""));
    assert_eq!(take_first_line("one\ntwo"), Some("one"));
    assert_eq!(take_first_line("one\r\ntwo"), Some("one"));
    assert_eq!(take_first_line("one\r"), Some("one\r"));
}

#[test]
fn carriage_return_without_line_feed_spoils_the_banner() {
    assert_eq!(HymoFs::check_status(Some("HymoFS Protocol: 3\r")), HymoFsStatus::NotPresent);
}

#[test]
fn strip_text_prefix_agrees_with_std() {
    let lines = ["", "a", "ab", "abc", "HymoFS Protocol: 3", "HymoFS Protocol:", "é1", "x"];
    let prefixes = ["", "a", "ab", "HymoFS Protocol: ", "é", "abcd"];
    for line in lines {
        for prefix in prefixes {
            assert_eq!(strip_text_prefix(line, prefix), line.strip_prefix(prefix));
        }
    }
    assert_eq!(strip_text_prefix("HymoFS Protocol: 3", "HymoFS Protocol: "), Some("3"));
    assert_eq!(strip_text_prefix("HymoFS Protocol: ", "HymoFS Protocol: "), Some(""));
    assert_eq!(strip_text_prefix("HymoFS", "HymoFS Protocol: "), None);
}

#[test]
fn parse_version_agrees_with_std_parse() {
    let samples = [
        "", "+", "-", "0", "-0", "+0", "3", "03", "0003", "+3", "-3", "2147483647", "2147483648",
        "-2147483648", "-2147483649", "+2147483647", "99999999999999999999", "3 ", " 3", "3a",
        "a3", "--3", "+-3", "3.0", "1_000", "٣", "0x10", "00000000000000000000002",
        "-00000000000000000000002", "21474836470",
    ];
    for text in samples {
        assert_eq!(parse_version(text), text.parse::<i32>().ok());
    }
}

#[test]
fn parse_version_values() {
    assert_eq!(parse_version("3"), Some(3));
    assert_eq!(parse_version("-17"), Some(-17));
    assert_eq!(parse_version("+42"), Some(42));
    assert_eq!(parse_version("2147483647"), Some(i32::MAX));
    assert_eq!(parse_version("-2147483648"), Some(i32::MIN));
    assert_eq!(parse_version("2147483648"), None);
    assert_eq!(parse_version("-2147483649"), None);
    assert_eq!(parse_version(""), None);
    assert_eq!(parse_version("-"), None);
    assert_eq!(parse_version("12x"), None);
}

#[test]
fn tag_text_agrees_with_std_to_string() {
    for tag in [0u32, 1, 8, 9, 10, 11, 99, 100, 101, 1000, 65535, 4294967295, 1234567890] {
        assert_eq!(tag_text(tag), tag.to_string());
    }
    assert_eq!(tag_text(8), "8");
    assert_eq!(tag_text(10), "10");
    assert_eq!(tag_text(4294967295), "4294967295");
}

#[test]
fn digit_text_values() {
    let digits = ["0", "1", "2", "3", "4", "5", "6", "7", "8", "9"];
    for d in 0u32..10 {
        assert_eq!(digit_text(d), digits[d as usize]);
    }
}

//! Field formatter and classifier behavior on concrete values.

use fls::file_info::{
    format_permission_group, get_file_type, get_group_permissions, get_other_permissions,
    get_owner_info, get_user_permissions, is_executable, EntryMeta, FileInfo,
};
use fls::formatting::{format_octal_permissions, format_size, format_time};

fn meta(mode: u32, size: u64, is_dir: bool, is_symlink: bool) -> EntryMeta {
    EntryMeta { mode, size, is_dir, is_symlink, uid: 999999, gid: 999999, modified: None }
}

#[test]
fn size_bytes_band() {
    assert_eq!(format_size(0), "0B");
    assert_eq!(format_size(1), "1B");
    assert_eq!(format_size(256), "256B");
    assert_eq!(format_size(1023), "1023B");
}

#[test]
fn size_kib_band() {
    assert_eq!(format_size(1024), "1.0K");
    assert_eq!(format_size(1536), "1.5K");
    assert_eq!(format_size(10240), "10.0K");
}

#[test]
fn size_band_boundaries_exact() {
    assert_eq!(format_size(1023), "1023B");
    assert_eq!(format_size(1024), "1.0K");
    assert_eq!(format_size(1048575), "1023.9K");
    assert_eq!(format_size(1048576), "1.0M");
    assert_eq!(format_size(1073741823), "1023.9M");
    assert_eq!(format_size(1073741824), "1.0G");
}

#[test]
fn size_gib_band_large() {
    assert_eq!(format_size(1610612736), "1.5G");
    assert_eq!(format_size(u64::MAX), "17179869183.9G");
}

#[test]
fn size_never_shows_next_unit_value() {
    // just below each boundary the displayed magnitude stays under 1024.0
    assert_eq!(format_size(1048575), "1023.9K");
    assert_ne!(format_size(1048575), "1024.0K");
}

#[test]
fn octal_is_zero_padded() {
    assert_eq!(format_octal_permissions(0), "000");
    assert_eq!(format_octal_permissions(0o7), "007");
    assert_eq!(format_octal_permissions(0o640), "640");
    assert_eq!(format_octal_permissions(0o755), "755");
    assert_eq!(format_octal_permissions(0o4755), "4755");
}

#[test]
fn octal_masks_file_type_bits() {
    assert_eq!(format_octal_permissions(0o100644), "644");
    assert_eq!(format_octal_permissions(0o040755), "755");
}

#[test]
fn permission_group_words() {
    assert_eq!(format_permission_group(0), "None");
    assert_eq!(format_permission_group(1), "Execute");
    assert_eq!(format_permission_group(2), "Write");
    assert_eq!(format_permission_group(3), "Write, Execute");
    assert_eq!(format_permission_group(4), "Read");
    assert_eq!(format_permission_group(5), "Read, Execute");
    assert_eq!(format_permission_group(6), "Read, Write");
    assert_eq!(format_permission_group(7), "Read, Write, Execute");
}

#[test]
fn triads_agree_with_octal_low_digits() {
    let mode: u32 = 0o640;
    assert_eq!(get_user_permissions(mode), "Read, Write");
    assert_eq!(get_group_permissions(mode), "Read");
    assert_eq!(get_other_permissions(mode), "None");
    // the triads spell 6, 4 and 0: exactly the octal text's digits
    assert_eq!(format_octal_permissions(mode), "640");
}

#[test]
fn file_type_precedence() {
    assert_eq!(get_file_type(&meta(0o755, 0, true, false)), "Directory");
    assert_eq!(get_file_type(&meta(0o755, 0, true, true)), "Directory");
    assert_eq!(get_file_type(&meta(0o755, 0, false, true)), "Symlink");
    assert_eq!(get_file_type(&meta(0o755, 0, false, false)), "Executable");
    assert_eq!(get_file_type(&meta(0o644, 0, false, false)), "File");
}

#[test]
fn executable_bit_any_of_three() {
    assert!(is_executable(0o100));
    assert!(is_executable(0o010));
    assert!(is_executable(0o001));
    assert!(!is_executable(0o644));
}

#[test]
fn owner_falls_back_to_numeric_ids() {
    assert_eq!(get_owner_info(999999, 999999), "999999/999999");
}

#[test]
fn time_unknown_when_absent() {
    assert_eq!(format_time(&None), "Unknown");
}

#[test]
fn time_short_form_is_twelve_chars() {
    let t = format_time(&Some(0));
    assert_eq!(t.chars().count(), 12);
    assert_eq!(t.as_bytes()[9], b':');
}

#[test]
fn file_info_from_metadata_fields() {
    let m = meta(0o640, 10, false, false);
    let info = FileInfo::from_metadata(String::from("a.txt"), &m);
    assert_eq!(info.name, "a.txt");
    assert_eq!(info.file_type, "File");
    assert_eq!(info.user_perms, "Read, Write");
    assert_eq!(info.group_perms, "Read");
    assert_eq!(info.other_perms, "None");
    assert_eq!(info.octal, "640");
    assert_eq!(info.owner, "999999/999999");
    assert_eq!(info.size, "10B");
    assert_eq!(info.modified, "Unknown");
    assert!(!info.is_directory());
    assert!(!info.is_executable());
    assert!(!info.is_hidden());
}

#[test]
fn file_info_kind_checks() {
    let d = FileInfo::from_metadata(String::from(".git"), &meta(0o755, 0, true, false));
    assert!(d.is_directory());
    assert!(!d.is_executable());
    assert!(d.is_hidden());
    let x = FileInfo::from_metadata(String::from("run.sh"), &meta(0o755, 0, false, false));
    assert!(x.is_executable());
}

#[test]
fn file_info_default_is_degraded_file() {
    let info = FileInfo::default();
    assert_eq!(info.name, "");
    assert_eq!(info.file_type, "File");
    assert_eq!(info.user_perms, "None");
    assert_eq!(info.group_perms, "None");
    assert_eq!(info.other_perms, "None");
    assert_eq!(info.octal, "000");
    assert_eq!(info.owner, "unknown/unknown");
    assert_eq!(info.size, "0B");
    assert_eq!(info.modified, "Unknown");
}

use metacache::stats::{get_drive_stats, parse_nr_requests, parse_rotational,
    resolve_device_name_from_content, read_drive_stats, disk_usage_from_statfs, get_fs_type,
    parent_component, DriveStatsError, UsageError};
use std::path::PathBuf;

// --- Tests for resolve_device_name_from_content ---

#[test]
fn test_parse_diskstats_nvme() {
    let content = "\
 259       0 nvme0n1 1234 0 5678 100 0 0 0 0 0 100 100
 259       1 nvme0n1p1 500 0 2000 50 0 0 0 0 0 50 50
 259       2 nvme0n1p2 734 0 3678 50 0 0 0 0 0 50 50";
    assert_eq!(resolve_device_name_from_content(content, 259, 0), Some("nvme0n1".to_string()));
    assert_eq!(resolve_device_name_from_content(content, 259, 1), Some("nvme0n1p1".to_string()));
}

#[test]
fn test_parse_diskstats_sata() {
    let content = "\
   8       0 sda 1000 0 5000 100 0 0 0 0 0 100 100
   8       1 sda1 500 0 2000 50 0 0 0 0 0 50 50
   8      16 sdb 2000 0 10000 200 0 0 0 0 0 200 200";
    assert_eq!(resolve_device_name_from_content(content, 8, 0), Some("sda".to_string()));
    assert_eq!(resolve_device_name_from_content(content, 8, 16), Some("sdb".to_string()));
}

#[test]
fn test_parse_diskstats_virtio() {
    let content = " 252       0 vda 500 0 2000 50 0 0 0 0 0 50 50";
    assert_eq!(resolve_device_name_from_content(content, 252, 0), Some("vda".to_string()));
}

#[test]
fn test_parse_diskstats_not_found() {
    let content = "   8       0 sda 1000 0 5000 100 0 0 0 0 0 100 100";
    assert_eq!(resolve_device_name_from_content(content, 9, 0), None);
    assert_eq!(resolve_device_name_from_content(content, 8, 99), None);
}

#[test]
fn test_parse_diskstats_empty() {
    assert_eq!(resolve_device_name_from_content("", 8, 0), None);
}

// --- Tests for sysfs symlink-target parsing ---

#[test]
fn test_parent_device_nvme_partition() {
    // nvme0n1p1 is a partition of nvme0n1
    let target = PathBuf::from("../../devices/pci0000:00/0000:00:06.0/nvme/nvme0/nvme0n1/nvme0n1p1");
    let parent = target.parent().unwrap();
    let parent_name = parent.file_name().unwrap().to_string_lossy();
    assert_eq!(parent_name, "nvme0n1");
}

#[test]
fn test_parent_device_sata_partition() {
    let target = PathBuf::from("../../devices/pci0000:00/0000:00:1f.2/ata1/host0/target0:0:0/0:0:0:0/block/sda/sda1");
    let parent = target.parent().unwrap();
    let parent_name = parent.file_name().unwrap().to_string_lossy();
    assert_eq!(parent_name, "sda");
}

#[test]
fn parent_component_of_partition_target() {
    let r = parent_component("../../devices/pci0000:00/0000:00:06.0/nvme/nvme0/nvme0n1/nvme0n1p1");
    assert_eq!(r, Some("nvme0n1".to_string()));
}

#[test]
fn parent_component_of_bare_name() {
    assert_eq!(parent_component("sda"), None);
}

// --- Tests for parse_rotational ---

#[test]
fn test_parse_rotational_hdd() {
    assert_eq!(parse_rotational("1\n"), Some(true));
    assert_eq!(parse_rotational("1"), Some(true));
}

#[test]
fn test_parse_rotational_ssd() {
    assert_eq!(parse_rotational("0\n"), Some(false));
    assert_eq!(parse_rotational("0"), Some(false));
}

#[test]
fn test_parse_rotational_unknown() {
    assert_eq!(parse_rotational(""), None);
    assert_eq!(parse_rotational("garbage"), None);
    assert_eq!(parse_rotational("2"), None);
}

// --- Tests for parse_nr_requests ---

#[test]
fn test_parse_nr_requests_valid() {
    assert_eq!(parse_nr_requests("256\n"), Some(256));
    assert_eq!(parse_nr_requests("128"), Some(128));
    assert_eq!(parse_nr_requests("  64  \n"), Some(64));
}

#[test]
fn test_parse_nr_requests_invalid() {
    assert_eq!(parse_nr_requests(""), None);
    assert_eq!(parse_nr_requests("garbage"), None);
}

#[test]
fn parse_nr_requests_overflow_is_rejected() {
    assert_eq!(parse_nr_requests("18446744073709551615"), Some(u64::MAX));
    assert_eq!(parse_nr_requests("18446744073709551616"), None);
}

// --- Tests for drive stats parsing ---

#[test]
fn drive_stats_eleven_fields() {
    let r = get_drive_stats("1 2 3 4 5 6 7 8 9 10 11\n").unwrap();
    assert_eq!(r.read_ios, 1);
    assert_eq!(r.read_merges, 2);
    assert_eq!(r.read_sectors, 3);
    assert_eq!(r.read_ticks, 4);
    assert_eq!(r.write_ios, 5);
    assert_eq!(r.write_merges, 6);
    assert_eq!(r.write_sectors, 7);
    assert_eq!(r.write_ticks, 8);
    assert_eq!(r.current_ios, 9);
    assert_eq!(r.total_ticks, 10);
    assert_eq!(r.req_ticks, 11);
    assert_eq!(r.discard_ios, 0);
    assert_eq!(r.discard_ticks, 0);
}

#[test]
fn drive_stats_with_discard_fields() {
    let r = get_drive_stats("1 2 3 4 5 6 7 8 9 10 11 12 13 14 15").unwrap();
    assert_eq!(r.req_ticks, 11);
    assert_eq!(r.discard_ios, 12);
    assert_eq!(r.discard_merges, 13);
    assert_eq!(r.discard_sectors, 14);
    assert_eq!(r.discard_ticks, 15);
}

#[test]
fn drive_stats_too_few_fields() {
    assert_eq!(get_drive_stats("1 2 3"), Err(DriveStatsError::InvalidFormat));
}

#[test]
fn drive_stats_bad_token() {
    assert_eq!(get_drive_stats("1 2 x 4 5 6 7 8 9 10 11"), Err(DriveStatsError::InvalidToken));
}

#[test]
fn drive_stats_only_first_line_counts() {
    let r = get_drive_stats("1 2 3 4 5 6 7 8 9 10 11\n99 99 99").unwrap();
    assert_eq!(r.read_ios, 1);
    assert_eq!(r.discard_ios, 0);
}

#[test]
fn read_drive_stats_from_values() {
    let vals: Vec<u64> = (1..=11).collect();
    let r = read_drive_stats(&vals).unwrap();
    assert_eq!(r.read_ios, 1);
    assert_eq!(r.req_ticks, 11);
    assert_eq!(read_drive_stats(&vec![1, 2]), Err(DriveStatsError::InvalidFormat));
}

// --- Tests for filesystem usage arithmetic ---

#[test]
fn disk_usage_ordinary_report() {
    // 1000 blocks of 4096 bytes, 200 free of which 150 available.
    let r = disk_usage_from_statfs(4096, 512, 1000, 200, 150).unwrap();
    let total = (1000 - (200 - 150)) * 4096;
    let free = 150 * 4096;
    assert_eq!(r, (total, free, total - free));
}

#[test]
fn disk_usage_falls_back_to_bsize() {
    let r = disk_usage_from_statfs(0, 512, 100, 10, 10).unwrap();
    assert_eq!(r.0, 100 * 512);
}

#[test]
fn disk_usage_corruption_cases() {
    assert_eq!(disk_usage_from_statfs(4096, 512, 1000, 100, 200), Err(UsageError::AvailExceedsFree));
    assert_eq!(disk_usage_from_statfs(4096, 512, 10, 500, 100), Err(UsageError::ReservedExceedsBlocks));
    assert_eq!(disk_usage_from_statfs(4096, 512, 50, 60, 60), Err(UsageError::FreeExceedsTotal));
}

#[test]
fn fs_type_names() {
    assert_eq!(get_fs_type(0x01021994), "TMPFS");
    assert_eq!(get_fs_type(0xEF53), "EXT4");
    assert_eq!(get_fs_type(0x6969), "NFS");
    assert_eq!(get_fs_type(0xdeadbeef), "UNKNOWN");
}

use sysmon::disk::{
    device_model_paths, is_physical_device, make_display_name, nvme_controller_of,
    parse_diskstats, physical_devices, DiskMonitor, DiskSample, MAX_DISKS, SECTOR_BYTES,
};

const DISKSTATS: &str = "\
   7       0 loop0 10 0 20 0 0 0 0 0 0 0 0 0 0 0 0 0 0
 259       0 nvme0n1 1000 5 2000 300 4000 7 8000 900 0 100 200 0 0 0 0 0 0
 259       1 nvme0n1p1 100 0 200 3 400 0 800 9 0 1 2 0 0 0 0 0 0
   8       0 sda 50 0 60 1 70 0 80 2 0 3 4
   8      16 sdb short line
   8      32 sdc x 0 y 0 0 0 z 0 0 0
";

fn stats_of(content: &str) -> Vec<(String, (u64, u64))> {
    parse_diskstats(content)
}

fn lookup(stats: &[(String, (u64, u64))], name: &str) -> Option<(u64, u64)> {
    stats.iter().find(|(n, _)| n == name).map(|(_, v)| *v)
}

fn names(v: &[&str]) -> Vec<String> {
    v.iter().map(|s| s.to_string()).collect()
}

fn sample(s: &DiskSample) -> (String, u128, u128) {
    (s.name.clone(), s.read_bytes, s.write_bytes)
}

fn devices_of(s: &[DiskSample]) -> Vec<String> {
    s.iter().map(|x| x.device.clone()).collect()
}

#[test]
fn diskstats_fields() {
    let stats = stats_of(DISKSTATS);
    assert_eq!(lookup(&stats, "loop0"), Some((20, 0)));
    assert_eq!(lookup(&stats, "nvme0n1"), Some((2000, 8000)));
    assert_eq!(lookup(&stats, "nvme0n1p1"), Some((200, 800)));
    assert_eq!(lookup(&stats, "sda"), Some((60, 80)));
    assert_eq!(lookup(&stats, "sdb"), None);
    assert_eq!(lookup(&stats, "sdc"), None);
    assert_eq!(stats.len(), 4);
}

#[test]
fn diskstats_later_line_wins() {
    let stats = stats_of("8 0 sda 0 0 1 0 0 0 2 0\n8 0 sda 0 0 3 0 0 0 4 0\n");
    assert_eq!(stats.len(), 1);
    assert_eq!(lookup(&stats, "sda"), Some((3, 4)));
}

#[test]
fn diskstats_empty() {
    assert!(stats_of("").is_empty());
}

#[test]
fn physical_filter_and_order() {
    assert!(!is_physical_device("loop3"));
    assert!(!is_physical_device("ram0"));
    assert!(!is_physical_device("dm-1"));
    assert!(!is_physical_device("zram0"));
    assert!(is_physical_device("sda"));
    assert!(is_physical_device("nvme0n1"));
    assert!(is_physical_device("dm"));
    let got = physical_devices(&names(&["sdb", "loop0", "nvme1n1", "zram0", "sda", "nvme0n1", "dm-0", "ram1"]));
    assert_eq!(got, names(&["nvme0n1", "nvme1n1", "sda", "sdb"]));
    assert!(physical_devices(&Vec::new()).is_empty());
}

#[test]
fn nvme_controllers() {
    let c = |d: &str| nvme_controller_of(d).map(|v| v.iter().collect::<String>());
    assert_eq!(c("nvme0n1"), Some("nvme0".to_string()));
    assert_eq!(c("nvme12n3"), Some("nvme12".to_string()));
    assert_eq!(c("nvme0n1p2"), None);
    assert_eq!(c("nvme"), None);
    assert_eq!(c("nvme0n"), None);
    assert_eq!(c("sda"), None);
}

#[test]
fn model_file_candidates() {
    assert_eq!(
        device_model_paths(&"nvme0n1".to_string()),
        names(&["/sys/class/nvme/nvme0/model", "/sys/block/nvme0n1/device/model"])
    );
    assert_eq!(device_model_paths(&"sda".to_string()), names(&["/sys/block/sda/device/model"]));
}

#[test]
fn display_names() {
    let dev = "nvme0n1".to_string();
    let model = "WD_BLACK SN770 1TB".to_string();
    assert_eq!(make_display_name(&dev, Some(&model)), "nvme0n1 · WD_BLACK SN770 1TB");
    assert_eq!(make_display_name(&dev, None), "nvme0n1");
}

#[test]
fn first_update_reports_zero_then_deltas() {
    let listing = names(&["sda", "loop0", "nvme0n1"]);
    let models = vec![("nvme0n1".to_string(), "WD_BLACK SN770 1TB".to_string())];
    let mut m = DiskMonitor::new(&listing);
    assert_eq!(m.devices(), names(&["nvme0n1", "sda"]));
    assert!(m.needs_model(&"nvme0n1".to_string()));
    let first = m.update(&stats_of(DISKSTATS), &models);
    assert_eq!(devices_of(&first), names(&["nvme0n1", "sda"]));
    assert_eq!(
        first.iter().map(sample).collect::<Vec<_>>(),
        vec![
            ("nvme0n1 · WD_BLACK SN770 1TB".to_string(), 0, 0),
            ("sda".to_string(), 0, 0),
        ]
    );
    assert!(!m.needs_model(&"nvme0n1".to_string()));
    assert!(!m.needs_model(&"sda".to_string()));

    let later = "259 0 nvme0n1 0 0 2010 0 0 0 8100 0\n8 0 sda 0 0 50 0 0 0 81 0\n";
    // The cached label is kept even when another model is offered.
    let other = vec![("nvme0n1".to_string(), "Other".to_string())];
    let second = m.update(&stats_of(later), &other);
    assert_eq!(
        second.iter().map(sample).collect::<Vec<_>>(),
        vec![
            ("nvme0n1 · WD_BLACK SN770 1TB".to_string(), 10 * SECTOR_BYTES, 100 * SECTOR_BYTES),
            // sectors read went backwards: saturates at zero.
            ("sda".to_string(), 0, SECTOR_BYTES),
        ]
    );
}

#[test]
fn at_most_three_drives_and_missing_ones_skipped() {
    let listing = names(&["sdd", "sdx", "sdc", "sda", "sdb"]);
    let content = "8 0 sda 0 0 1 0 0 0 0 1\n8 16 sdb 0 0 1 0 0 0 0 1\n8 32 sdc 0 0 1 0 0 0 0 1\n8 48 sdd 0 0 1 0 0 0 0 1\n";
    let mut m = DiskMonitor::new(&listing);
    let out = m.update(&stats_of(content), &Vec::new());
    assert_eq!(out.len(), MAX_DISKS);
    assert_eq!(
        out.iter().map(|s| s.name.clone()).collect::<Vec<_>>(),
        names(&["sda", "sdb", "sdc"])
    );
    // sdd was not reached, so it still has no label.
    assert!(m.needs_model(&"sdd".to_string()));
}

#[test]
fn only_the_drives_found_at_start_are_sampled() {
    let mut m = DiskMonitor::new(&names(&["sda"]));
    let content = "8 0 sda 0 0 1 0 0 0 2 0\n8 16 sdb 0 0 1 0 0 0 2 0\n";
    let out = m.update(&stats_of(content), &Vec::new());
    assert_eq!(devices_of(&out), names(&["sda"]));
    assert!(DiskMonitor::new(&Vec::new()).devices().is_empty());
}

#[test]
fn successive_updates_measure_counter_deltas() {
    let mut m = DiskMonitor::new(&names(&["sda"]));
    let _ = m.update(&stats_of("8 0 sda 0 0 100 0 0 0 200 0\n"), &Vec::new());
    let s = m.update(&stats_of("8 0 sda 0 0 130 0 0 0 150 0\n"), &Vec::new());
    assert_eq!(sample(&s[0]), ("sda".to_string(), 30 * SECTOR_BYTES, 0));
}

use sysmon::gpu::{
    card_drm_dir, dri_device_path, drm_memory_bytes, fd_dir_path, fdinfo_path, idle_residency_path,
    is_pid_name, parse_counter, parse_drm_memory, parse_fdinfo, render_device, split_nvidia_output,
    FdInfo, IntelXeCounter, VramTally, MAX_DRM_CARDS,
};

#[test]
fn drm_memory_units() {
    assert_eq!(parse_drm_memory("1234 KiB"), 1234 * 1024);
    assert_eq!(parse_drm_memory("5 MiB"), 5 * 1024 * 1024);
    assert_eq!(parse_drm_memory("2 GiB"), 2 * 1024 * 1024 * 1024);
    assert_eq!(parse_drm_memory("4096"), 4096);
    assert_eq!(parse_drm_memory("  77   TiB "), 77);
    assert_eq!(parse_drm_memory(""), 0);
    assert_eq!(parse_drm_memory("abc KiB"), 0);
    assert_eq!(parse_drm_memory("-3 KiB"), 0);
}

#[test]
fn drm_memory_overflow_is_reported() {
    assert_eq!(drm_memory_bytes("18446744073709551615 KiB"), None);
    assert_eq!(drm_memory_bytes("18446744073709551615"), Some(u64::MAX));
    assert_eq!(drm_memory_bytes("17179869184 GiB"), None);
    assert_eq!(drm_memory_bytes("17179869183 GiB"), Some(17179869183 * 1024 * 1024 * 1024));
}

#[test]
fn fdinfo_fields() {
    let text = "pos:\t0\nflags:\t02100002\ndrm-driver:\txe\ndrm-client-id:\t 42 \ndrm-total-vram0:\t1024 KiB\ndrm-total-gtt:\t8 MiB\n";
    let info = parse_fdinfo(text).unwrap();
    assert_eq!(info.client_id, Some(42));
    assert_eq!(info.vram_bytes, 1024 * 1024);
    let none = parse_fdinfo("pos:\t0\n").unwrap();
    assert_eq!(none.client_id, None);
    assert_eq!(none.vram_bytes, 0);
    let bad = parse_fdinfo("drm-client-id:\tx\ndrm-total-vram0:\t7\n").unwrap();
    assert_eq!(bad.client_id, None);
    assert_eq!(bad.vram_bytes, 7);
    // A later field replaces an earlier one.
    let twice = parse_fdinfo("drm-client-id:\t1\ndrm-client-id:\t2\ndrm-total-vram0:\t3\ndrm-total-vram0:\t4 KiB\n").unwrap();
    assert_eq!(twice.client_id, Some(2));
    assert_eq!(twice.vram_bytes, 4096);
    assert!(parse_fdinfo("drm-total-vram0:\t18446744073709551615 GiB\n").is_none());
}

#[test]
fn vram_counts_each_client_once() {
    let mut t = VramTally::new();
    assert_eq!(t.total_bytes(), Some(0));
    t.record(&FdInfo { client_id: Some(1), vram_bytes: 100 });
    t.record(&FdInfo { client_id: Some(2), vram_bytes: 50 });
    t.record(&FdInfo { client_id: Some(1), vram_bytes: 999 });
    t.record(&FdInfo { client_id: None, vram_bytes: 7 });
    assert_eq!(t.total_bytes(), Some(150));
    t.record(&FdInfo { client_id: Some(3), vram_bytes: u64::MAX });
    assert_eq!(t.total_bytes(), None);
}

#[test]
fn pid_names() {
    assert!(is_pid_name("1234"));
    assert!(!is_pid_name("self"));
    assert!(!is_pid_name("12a"));
    assert!(is_pid_name(""));
}

#[test]
fn render_nodes() {
    let v = |s: &[&str]| s.iter().map(|x| x.to_string()).collect::<Vec<String>>();
    assert_eq!(render_device(&v(&["card1", "renderD129", "renderD130"])), "renderD129");
    assert_eq!(render_device(&v(&["card0"])), "renderD128");
    assert_eq!(render_device(&Vec::new()), "renderD128");
}

#[test]
fn counters() {
    assert_eq!(parse_counter("12345\n"), Some(12345));
    assert_eq!(parse_counter(" 7 "), Some(7));
    assert_eq!(parse_counter("x"), None);
    assert_eq!(parse_counter(""), None);
}

#[test]
fn paths() {
    assert_eq!(MAX_DRM_CARDS, 8);
    assert_eq!(
        idle_residency_path(0),
        "/sys/class/drm/card0/device/tile0/gt0/gtidle/idle_residency_ms"
    );
    assert_eq!(card_drm_dir(12), "/sys/class/drm/card12/device/drm");
    assert_eq!(dri_device_path(&"renderD128".to_string()), "/dev/dri/renderD128");
    assert_eq!(fd_dir_path(&"42".to_string()), "/proc/42/fd");
    assert_eq!(fdinfo_path(&"42".to_string(), &"7".to_string()), "/proc/42/fdinfo/7");
}

#[test]
fn intel_counter() {
    let mut c = IntelXeCounter::new(1000);
    assert_eq!(c.advance(1400, 1000), None);
    assert!(!c.first);
    assert_eq!(c.last_idle_ms, 1400);
    assert_eq!(c.advance(1650, 1000), Some(250));
    assert_eq!(c.advance(1700, 0), None);
    assert_eq!(c.last_idle_ms, 1700);
    // A counter that went backwards gives zero idle time.
    assert_eq!(c.advance(10, 500), Some(0));
}

#[test]
fn nvidia_output() {
    assert_eq!(
        split_nvidia_output("45, 4096\n"),
        Some(("45".to_string(), "4096".to_string()))
    );
    assert_eq!(
        split_nvidia_output(" 3 ,  12 , 9\nsecond, line\n"),
        Some(("3".to_string(), "12 , 9".to_string()))
    );
    assert_eq!(split_nvidia_output(""), None);
    assert_eq!(split_nvidia_output("no comma\n1, 2"), None);
}

#[test]
fn intel_card_choice() {
    assert_eq!(sysmon::gpu::first_intel_card(&vec![false, false, true, true]), Some(2));
    assert_eq!(sysmon::gpu::first_intel_card(&vec![false; 8]), None);
    assert_eq!(sysmon::gpu::first_intel_card(&[vec![false; 9], vec![true]].concat()), None);
    assert_eq!(sysmon::gpu::first_intel_card(&Vec::new()), None);
}

#[test]
fn vram_total_is_first_entry_per_client() {
    let entries = [(Some(7), 10u64), (None, 99), (Some(3), 5), (Some(7), 1000), (Some(3), 1)];
    let mut t = VramTally::new();
    for (id, b) in entries {
        t.record(&FdInfo { client_id: id, vram_bytes: b });
    }
    assert_eq!(t.total_bytes(), Some(15));
}

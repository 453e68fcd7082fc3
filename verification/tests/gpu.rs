use sys_monitor::metrics::gpu::group_instances_by_luid;
use sys_monitor::platform::gpu::{classify_luid, extract_luid_from_name, GpuClass, VendorMap};
use sys_monitor::platform::wmi::{build_gpu_vendor_map, gpu_engine_kind, EngineKind};

fn strings(v: &[&str]) -> Vec<String> {
    v.iter().map(|s| s.to_string()).collect()
}

#[test]
fn luid_from_pid_form() {
    assert_eq!(
        extract_luid_from_name("pid_1234_luid_0x00000000_0x00017D0F_phys_0_eng_0_engtype_3D"),
        Some("0x00017D0F".to_string())
    );
}

#[test]
fn luid_from_legacy_form() {
    assert_eq!(
        extract_luid_from_name("luid_0x00000000_0x00017A19_phys_0_eng_0_engtype_3D"),
        Some("0x00017A19".to_string())
    );
}

#[test]
fn luid_without_marker() {
    assert_eq!(extract_luid_from_name("pid_1234_phys_0_eng_0_engtype_3D"), None);
    assert_eq!(extract_luid_from_name(""), None);
}

#[test]
fn luid_second_field_must_be_hex() {
    assert_eq!(extract_luid_from_name("luid_0x0_phys_0"), None);
    assert_eq!(extract_luid_from_name("luid_0x00000000"), None);
}

#[test]
fn luid_second_field_runs_to_end() {
    assert_eq!(extract_luid_from_name("luid_0x0_0xABC"), Some("0xABC".to_string()));
    assert_eq!(extract_luid_from_name("x_luid_a_0x1_b_c"), Some("0x1".to_string()));
}

#[test]
fn luid_first_marker_wins() {
    assert_eq!(
        extract_luid_from_name("pid_1_luid_0x0_0x11_luid_0x0_0x22"),
        Some("0x11".to_string())
    );
}

#[test]
fn classify_by_vendor_caption() {
    let mut map = VendorMap::new();
    map.insert("0x1".to_string(), "Intel(R) UHD Graphics".to_string());
    map.insert("0x2".to_string(), "NVIDIA GeForce RTX 3060".to_string());
    map.insert("0x3".to_string(), "AMD Radeon RX 6600".to_string());
    map.insert("0x4".to_string(), "Radeon Pro".to_string());
    map.insert("0x5".to_string(), "Microsoft Basic Display Adapter".to_string());
    assert_eq!(classify_luid("0x1", &map), GpuClass::IGpu);
    assert_eq!(classify_luid("0x2", &map), GpuClass::DGpu);
    assert_eq!(classify_luid("0x3", &map), GpuClass::DGpu);
    assert_eq!(classify_luid("0x4", &map), GpuClass::DGpu);
    assert_eq!(classify_luid("0x5", &map), GpuClass::Unknown);
    assert_eq!(classify_luid("0x6", &map), GpuClass::Unknown);
}

#[test]
fn classify_falls_back_to_known_luids() {
    let mut map = VendorMap::new();
    map.insert("0x00017D0F".to_string(), "Generic Adapter".to_string());
    assert_eq!(classify_luid("0x00017A19", &map), GpuClass::IGpu);
    assert_eq!(classify_luid("0x00017C9F", &map), GpuClass::IGpu);
    assert_eq!(classify_luid("0x00017D0F", &map), GpuClass::DGpu);
    assert_eq!(classify_luid("0x00017d0f", &map), GpuClass::Unknown);
}

#[test]
fn vendor_caption_beats_fallback() {
    let mut map = VendorMap::new();
    map.insert("0x00017D0F".to_string(), "Intel Arc".to_string());
    assert_eq!(classify_luid("0x00017D0F", &map), GpuClass::IGpu);
}

#[test]
fn vendor_map_insert_replaces() {
    let mut map = VendorMap::new();
    assert_eq!(map.len(), 0);
    map.insert("0x1".to_string(), "a".to_string());
    map.insert("0x2".to_string(), "b".to_string());
    map.insert("0x1".to_string(), "c".to_string());
    assert_eq!(map.len(), 2);
    assert_eq!(map.get("0x1"), Some(&"c".to_string()));
    assert_eq!(map.get("0x2"), Some(&"b".to_string()));
    assert_eq!(map.get("0x3"), None);
}

#[test]
fn vendor_map_pairs_sorted_luids_with_controllers() {
    let names = strings(&[
        "pid_9_luid_0x00000000_0x00017D0F_phys_0_eng_0_engtype_3D",
        "pid_1_luid_0x00000000_0x00017A19_phys_0_eng_0_engtype_3D",
        "pid_2_luid_0x00000000_0x00017D0F_phys_0_eng_1_engtype_Copy",
        "no luid here",
        "luid_0x00000000_0x00017C9F_phys_0_eng_0_engtype_3D",
    ]);
    let captions = strings(&["Intel(R) UHD Graphics", "Intel(R) Xe", "NVIDIA GeForce"]);
    let map = build_gpu_vendor_map(&names, &captions);
    assert_eq!(map.len(), 3);
    assert_eq!(map.get("0x00017A19"), Some(&"Intel(R) UHD Graphics".to_string()));
    assert_eq!(map.get("0x00017C9F"), Some(&"Intel(R) Xe".to_string()));
    assert_eq!(map.get("0x00017D0F"), Some(&"NVIDIA GeForce".to_string()));
}

#[test]
fn vendor_map_stops_at_the_shorter_list() {
    let names = strings(&["luid_0x0_0xB_x", "luid_0x0_0xA_x", "luid_0x0_0xC_x"]);
    let captions = strings(&["first", ""]);
    let map = build_gpu_vendor_map(&names, &captions);
    assert_eq!(map.len(), 2);
    assert_eq!(map.get("0xA"), Some(&"first".to_string()));
    assert_eq!(map.get("0xB"), Some(&"".to_string()));
    assert_eq!(map.get("0xC"), None);
}

#[test]
fn vendor_map_ignores_row_order_and_repeats() {
    let captions = strings(&["one", "two"]);
    let a = build_gpu_vendor_map(&strings(&["luid_0x0_0x2_a", "luid_0x0_0x1_a"]), &captions);
    let b = build_gpu_vendor_map(
        &strings(&["luid_0x0_0x1_a", "luid_0x0_0x1_b", "luid_0x0_0x2_a"]),
        &captions,
    );
    assert_eq!(a.get("0x1"), b.get("0x1"));
    assert_eq!(a.get("0x2"), b.get("0x2"));
    assert_eq!(a.get("0x1"), Some(&"one".to_string()));
}

#[test]
fn vendor_map_empty_without_engines() {
    let map = build_gpu_vendor_map(&Vec::new(), &strings(&["Intel"]));
    assert_eq!(map.len(), 0);
}

#[test]
fn engine_kinds() {
    assert_eq!(gpu_engine_kind("pid_1_luid_0x0_0x1_phys_0_eng_0_engtype_3D"), Some(EngineKind::ThreeD));
    assert_eq!(
        gpu_engine_kind("pid_1_luid_0x0_0x1_phys_0_eng_3_engtype_VideoDecode"),
        Some(EngineKind::VideoDecode)
    );
    assert_eq!(gpu_engine_kind("pid_1_luid_0x0_0x1_phys_0_eng_1_engtype_Copy"), None);
}

#[test]
fn grouping_by_luid() {
    let names = strings(&[
        "pid_1_luid_0x0_0xB_phys_0_eng_0_engtype_3D",
        "pid_2_luid_0x0_0xA_phys_0_eng_0_engtype_3D",
        "garbage",
        "pid_3_luid_0x0_0xB_phys_0_eng_0_engtype_3D",
    ]);
    let (groups, member) = group_instances_by_luid(&names);
    assert_eq!(groups, strings(&["0xB", "0xA"]));
    assert_eq!(member, vec![Some(0), Some(1), None, Some(0)]);
}

#[test]
fn vendor_caption_is_matched_case_insensitively() {
    let mut map = VendorMap::new();
    map.insert("0x9".to_string(), "INTEL(R) ARC".to_string());
    map.insert("0x8".to_string(), "Nvidia Quadro".to_string());
    assert_eq!(classify_luid("0x9", &map), GpuClass::IGpu);
    assert_eq!(classify_luid("0x8", &map), GpuClass::DGpu);
}

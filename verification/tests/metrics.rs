use std::collections::VecDeque;
use sys_monitor::metrics::cpu::refresh_cpu;
use sys_monitor::metrics::disk::{
    is_disk_total_instance, pdh_instance_to_drive_letters, refresh_disk, DiskSample,
};
use sys_monitor::platform::pdh::pdh_status_usable;
use sys_monitor::metrics::memory::refresh_memory;
use sys_monitor::metrics::network::{
    is_loopback_interface, network_traffic_totals, refresh_network, InterfaceTraffic,
};
use sys_monitor::monitor::SystemMonitor;

fn strings(v: &[&str]) -> Vec<String> {
    v.iter().map(|s| s.to_string()).collect()
}

fn samples(v: &[(&str, f64)]) -> Vec<DiskSample<f64>> {
    v.iter()
        .map(|(n, p)| DiskSample { instance: n.to_string(), active_pct: *p })
        .collect()
}

#[test]
fn new_monitor_defaults() {
    let m: SystemMonitor<f64> = SystemMonitor::new();
    assert_eq!(m.max_history, 3600);
    assert_eq!(m.history_length, 60);
    assert_eq!(m.selected_duration, 60);
    assert!(m.cpu_history.is_empty());
    assert!(m.disk_active_histories.is_empty());
}

#[test]
fn push_history_caps_length() {
    let mut d: VecDeque<f64> = VecDeque::new();
    for v in [1.0, 2.0, 3.0, 4.0, 5.0] {
        SystemMonitor::push_history(&mut d, v, 3);
    }
    assert_eq!(d, VecDeque::from(vec![3.0, 4.0, 5.0]));
}

#[test]
fn push_history_below_cap_keeps_everything() {
    let mut d: VecDeque<u32> = VecDeque::new();
    SystemMonitor::push_history(&mut d, 7, 3);
    SystemMonitor::push_history(&mut d, 8, 3);
    assert_eq!(d, VecDeque::from(vec![7, 8]));
}

#[test]
fn push_history_zero_cap() {
    let mut d: VecDeque<u32> = VecDeque::new();
    SystemMonitor::push_history(&mut d, 7, 0);
    assert!(d.is_empty());
}

#[test]
fn cpu_and_memory_samples_are_capped() {
    let mut m: SystemMonitor<f64> = SystemMonitor::new();
    m.max_history = 2;
    refresh_cpu(&mut m, 10.0);
    refresh_cpu(&mut m, 20.0);
    refresh_cpu(&mut m, 30.0);
    refresh_memory(&mut m, 55.5);
    assert_eq!(m.cpu_history, VecDeque::from(vec![20.0, 30.0]));
    assert_eq!(m.mem_history, VecDeque::from(vec![55.5]));
    assert!(m.net_recv_history.is_empty());
}

#[test]
fn network_samples_are_pushed() {
    let mut m: SystemMonitor<f64> = SystemMonitor::new();
    refresh_network(&mut m, 1.5, 0.25);
    assert_eq!(m.net_recv_history, VecDeque::from(vec![1.5]));
    assert_eq!(m.net_sent_history, VecDeque::from(vec![0.25]));
}

#[test]
fn loopback_detection() {
    assert!(is_loopback_interface("Loopback Pseudo-Interface 1"));
    assert!(is_loopback_interface("lo"));
    assert!(is_loopback_interface("LO"));
    assert!(is_loopback_interface("my loopback"));
    assert!(!is_loopback_interface("Ethernet"));
    assert!(!is_loopback_interface("lo0"));
    assert!(!is_loopback_interface("Wi-Fi"));
}

#[test]
fn traffic_totals_skip_loopback() {
    let ifaces = vec![
        InterfaceTraffic { name: "Ethernet".to_string(), received: 1000, transmitted: 10 },
        InterfaceTraffic { name: "Loopback Pseudo-Interface 1".to_string(), received: 99999, transmitted: 99999 },
        InterfaceTraffic { name: "Wi-Fi".to_string(), received: 24, transmitted: 5 },
    ];
    assert_eq!(network_traffic_totals(&ifaces), Some((1024, 15)));
    assert_eq!(network_traffic_totals(&Vec::new()), Some((0, 0)));
}

#[test]
fn traffic_totals_overflow() {
    let ifaces = vec![
        InterfaceTraffic { name: "a".to_string(), received: u64::MAX, transmitted: 0 },
        InterfaceTraffic { name: "b".to_string(), received: 1, transmitted: 0 },
    ];
    assert_eq!(network_traffic_totals(&ifaces), None);
    let fits = vec![
        InterfaceTraffic { name: "a".to_string(), received: u64::MAX, transmitted: 0 },
        InterfaceTraffic { name: "lo".to_string(), received: 1, transmitted: 0 },
    ];
    assert_eq!(network_traffic_totals(&fits), Some((u64::MAX, 0)));
}

#[test]
fn drive_letters_of_instances() {
    assert_eq!(pdh_instance_to_drive_letters("0 C: D:"), strings(&["C:", "D:"]));
    assert_eq!(pdh_instance_to_drive_letters("1 e:"), strings(&["E:"]));
    assert_eq!(pdh_instance_to_drive_letters("2"), Vec::<String>::new());
    assert_eq!(pdh_instance_to_drive_letters("_Total"), Vec::<String>::new());
    assert_eq!(pdh_instance_to_drive_letters("  0\tC:  X  D:\n"), strings(&["C:", "D:"]));
    assert_eq!(pdh_instance_to_drive_letters(""), Vec::<String>::new());
    assert_eq!(pdh_instance_to_drive_letters("C: D:"), strings(&["D:"]));
}

#[test]
fn disk_samples_map_to_mounted_letters() {
    let mut m: SystemMonitor<f64> = SystemMonitor::new();
    let mounts = strings(&["C:\\", "d:\\", "/mnt/data"]);
    refresh_disk(
        &mut m,
        &mounts,
        &samples(&[("0 C: D:", 12.5), ("1 E:", 3.0), ("_Total", 50.0), ("2 D:", 7.0)]),
    );
    let keys: Vec<&str> = m.disk_active_histories.iter().map(|d| d.key.as_str()).collect();
    assert_eq!(keys, vec!["C: D:", "D:"]);
    assert_eq!(m.disk_active_histories[0].history, VecDeque::from(vec![12.5]));
    assert_eq!(m.disk_active_histories[1].history, VecDeque::from(vec![7.0]));

    refresh_disk(&mut m, &mounts, &samples(&[("2 D:", 8.0), ("0 C: D:", 13.0), ("3 C:", 1.0)]));
    let keys: Vec<&str> = m.disk_active_histories.iter().map(|d| d.key.as_str()).collect();
    assert_eq!(keys, vec!["C: D:", "D:", "C:"]);
    assert_eq!(m.disk_active_histories[0].history, VecDeque::from(vec![12.5, 13.0]));
    assert_eq!(m.disk_active_histories[1].history, VecDeque::from(vec![7.0, 8.0]));
    assert_eq!(m.disk_active_histories[2].history, VecDeque::from(vec![1.0]));
}

#[test]
fn disk_histories_are_capped() {
    let mut m: SystemMonitor<f64> = SystemMonitor::new();
    m.max_history = 2;
    let mounts = strings(&["C:\\"]);
    for v in [1.0, 2.0, 3.0] {
        refresh_disk(&mut m, &mounts, &samples(&[("0 C:", v)]));
    }
    assert_eq!(m.disk_active_histories.len(), 1);
    assert_eq!(m.disk_active_histories[0].history, VecDeque::from(vec![2.0, 3.0]));
}

#[test]
fn disk_without_mounts_records_nothing() {
    let mut m: SystemMonitor<f64> = SystemMonitor::new();
    refresh_disk(&mut m, &Vec::new(), &samples(&[("0 C:", 5.0)]));
    assert!(m.disk_active_histories.is_empty());
    let short = strings(&["C", "\u{e9}:x"]);
    refresh_disk(&mut m, &short, &samples(&[("0 C:", 5.0)]));
    assert!(m.disk_active_histories.is_empty());
}

#[test]
fn traffic_totals_ignore_order_and_loopback() {
    let a = vec![
        InterfaceTraffic { name: "Ethernet".to_string(), received: 7, transmitted: 1 },
        InterfaceTraffic { name: "Wi-Fi".to_string(), received: 5, transmitted: 2 },
    ];
    let mut b: Vec<InterfaceTraffic> = a
        .iter()
        .rev()
        .map(|i| InterfaceTraffic { name: i.name.clone(), received: i.received, transmitted: i.transmitted })
        .collect();
    assert_eq!(network_traffic_totals(&a), network_traffic_totals(&b));
    b.push(InterfaceTraffic { name: "Loopback Pseudo-Interface 1".to_string(), received: 9, transmitted: 9 });
    assert_eq!(network_traffic_totals(&b), Some((12, 3)));
}

#[test]
fn history_keeps_latest_samples() {
    let mut m: SystemMonitor<u32> = SystemMonitor::new();
    m.max_history = 4;
    for v in 0..10u32 {
        refresh_cpu(&mut m, v);
    }
    assert_eq!(m.cpu_history, VecDeque::from(vec![6, 7, 8, 9]));
}

#[test]
fn total_instance_and_counter_status() {
    assert!(is_disk_total_instance("_Total"));
    assert!(!is_disk_total_instance("_total"));
    assert!(!is_disk_total_instance("0 C:"));
    assert!(pdh_status_usable(0));
    assert!(pdh_status_usable(1));
    assert!(!pdh_status_usable(2));
}

use std::collections::VecDeque;
use sys_monitor::metrics::cpu::refresh_cpu;
use sys_monitor::monitor::SystemMonitor;
use sys_monitor::render::{sync_history_length, time_range_options, visible_window, x_axis_label};

#[test]
fn axis_labels() {
    assert_eq!(x_axis_label(30), "Last 30 seconds");
    assert_eq!(x_axis_label(60), "Last 1 minute");
    assert_eq!(x_axis_label(300), "Last 5 minutes");
    assert_eq!(x_axis_label(600), "Last 10 minutes");
    assert_eq!(x_axis_label(1800), "Last 30 minutes");
    assert_eq!(x_axis_label(3600), "Last 1 hour");
    assert_eq!(x_axis_label(45), "Time");
}

#[test]
fn time_ranges() {
    let opts = time_range_options();
    assert_eq!(
        opts,
        vec![("30s", 30), ("1m", 60), ("5m", 300), ("10m", 600), ("30m", 1800), ("1h", 3600)]
    );
    assert!(opts.iter().all(|(_, d)| *d <= 3600));
}

#[test]
fn window_takes_latest_samples() {
    let h: VecDeque<f64> = VecDeque::from(vec![1.0, 2.0, 3.0, 4.0]);
    assert_eq!(visible_window(&h, 2), vec![3.0, 4.0]);
    assert_eq!(visible_window(&h, 10), vec![1.0, 2.0, 3.0, 4.0]);
    assert_eq!(visible_window(&h, 0), Vec::<f64>::new());
}

#[test]
fn history_length_follows_selection() {
    let mut m: SystemMonitor<f64> = SystemMonitor::new();
    m.selected_duration = 1800;
    sync_history_length(&mut m);
    assert_eq!(m.history_length, 1800);
}

#[test]
fn window_of_capped_history() {
    let mut m: SystemMonitor<u32> = SystemMonitor::new();
    m.max_history = 5;
    m.history_length = 3;
    for v in 0..8u32 {
        refresh_cpu(&mut m, v);
    }
    assert_eq!(visible_window(&m.cpu_history, m.history_length), vec![5, 6, 7]);
    m.history_length = 30;
    assert_eq!(visible_window(&m.cpu_history, m.history_length), vec![3, 4, 5, 6, 7]);
}

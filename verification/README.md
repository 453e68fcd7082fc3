# sys_monitor

A system-resource monitor for Windows (CPU, memory, per-disk active time,
network throughput, integrated and discrete GPU utilization), split into a
verified library and a thin program around it.

- `src/` is the library, verified with Verus:
  - `monitor.rs`: the sample histories (`SystemMonitor<T>`), the capped push
    and the laws that a history keeps exactly the most recent samples;
  - `metrics/`: recording CPU, memory, network and disk samples, the
    non-loopback traffic totals, the drive-letter parsing of physical-disk
    counter instances and the grouping of GPU engine instances by adapter;
  - `platform/`: LUID extraction from GPU engine names, the LUID-to-vendor
    map and the iGPU/dGPU classification, and PDH status checks;
  - `render.rs`: the time-range selector, axis labels and the visible window
    of a history;
  - `text.rs`: character-level string utilities (whitespace splitting,
    substring search, code-point order) with their specifications.
- `app/` is the program: it opens the PDH, WMI and sysinfo handles, reads the
  counters once per second (including the floating-point conversions), and
  draws the cards with egui.
- `tests/` runs the library on concrete values.

# sysmon

A lightweight system monitor for Linux: CPU, memory, per-drive disk
throughput and GPU utilisation/VRAM, each with a scrolling two-minute graph
in a GTK4 window.

The logic is a Verus library under `src/`, with contracts proved by Verus:

- `text` — lines, whitespace-separated words, trimming, prefixes and
  unsigned decimal numbers, each specified over `Seq<char>` with the
  meaning that `str` gives them;
- `table` — small name-keyed tables read as maps;
- `disk` — parsing `/proc/diskstats`, choosing and ordering the physical
  drives (found once, when the monitor is made), model-file lookup, and
  the throughput bookkeeping of `DiskMonitor`, with its laws (only its own
  drives, at most three, zero throughput on first sight, labels made once
  and carried by every sample, counters carried to the next sample);
- `gpu` — DRM memory sizes, fdinfo parsing, the per-client VRAM tally,
  the Intel xe idle-counter state, the `nvidia-smi` output fields and the
  sysfs/procfs paths;
- `history` — the sample histories behind the graphs: two minutes of
  samples at the chosen polling interval (240, 120 or 60 samples);
- `poll` — the polling schedule driven by a 500 ms timer;
- `memory` — the memory figures shown in the memory panel.

`app/` is the program around it: reading the files, running `nvidia-smi`,
sysinfo for CPU and memory, the floating-point conversions and the GTK4 user
interface. It needs the GTK4 development libraries to build.

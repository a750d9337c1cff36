# rwatch

A resident host monitor: every five seconds it samples CPU, memory, disk and
network use and appends one JSON line to `server.jsonl`
(`rwatch --once` measures one round and exits; SIGTERM/SIGINT end it cleanly).

Layout:

- `src/` — the verified library (Verus):
  - `text` — Unicode whitespace, `split_whitespace`/`trim`/`lines` on spans,
    `u64` parsing, each proved against a spec of what it computes;
  - `network` — the `/proc/net/dev` counters (`TrafficBytes::parse`), the
    growth of counters between two readings, the per-interval sum over
    interfaces;
  - `load` — the three load-average fields of `/proc/loadavg`;
  - `disk` — which mount point is `/`;
  - `notify` — what the systemd watchdog ping sends and where;
  - `monitor` — the measuring loop as a state machine (sample, wait, write,
    then ping the systemd watchdog after a record was written);
  - `health` — the memory basis of a sample.
- `app/` — the program: argument handling, logging, reading `/proc` and
  sysinfo, NTP time, signals, sockets, and all floating-point arithmetic.
- `tests/` — tests of the library.

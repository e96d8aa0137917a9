# openprofiler

A terminal profiler for local JVMs: it lists the running JVMs, attaches an in-process agent,
records CPU, SQL and allocation hot spots over a length-prefixed protobuf/TCP protocol, and
shows telemetry, live memory and thread dumps.

## Layout

- `src/` is the verified library (Verus). Every function there carries a contract, and the
  laws that span functions are public proof functions next to them.
  - `text` – string helpers over character sequences (trimming, splitting, lines, number
    parsing and printing).
  - `model` – the shared data model: views and categories, JVM targets, rows and dumps.
  - `jvm` – parsing of `jps`, `jcmd` and `jfr` output: JVM lines, stack frames, thread dumps,
    class histograms, GC counters, JFR samples.
  - `format` – counts, byte sizes and durations as the UI prints them.
  - `protocol` – the 4-byte big-endian frame codec, and the conversion of agent data into
    rows (allocation tree depth, method graph ids, hot spot ordering).
  - `order` – the stable descending order used by every "largest first" listing.
  - `call_tree` – the call tree and hot spots built from sampled stacks.
  - `memory` – class histogram deltas, filtered rows, and the expandable allocation tree.
  - `app` – navigation between views, selection movement and scrolling, JVM stepping, CPU and
    database hot spot rows with their expandable children.
  - `event` – key handling and key debouncing.
  - `session` – the operation log, thread state counts, recording state changes and the
    periodic refresh plan.
  - `attach` – agent port discovery and selection, agent options, native library names.
  - `agent` – the counting done inside the JVM: JDBC probe timing, allocation paths and their
    export, sample counts.
- `app/` is the program around the library: the terminal UI (crossterm, ratatui), processes
  and sockets, the protobuf messages, the clipboard, the benchmark, and the JNI/JVMTI entry
  points of the agent.
- `tests/` runs the library on concrete inputs.

# saccade

Saccade is a profiler that rotates hardware performance counters: it estimates the rates of more
events than the hardware can count at once, by deciding in every quantum which events to count next.

`src/` is a library of its rules and data structures, written in Verus: every function carries a
contract and is proved against it. It does no input or output and no floating-point arithmetic.
Rates travel as exact ratios or as bit patterns of double-precision numbers.

| Module | What it holds |
| --- | --- |
| `event`, `event_library`, `perf` | events, the grammar of `perf list --details`, lookup by name |
| `sample`, `quantum`, `state` | records, samples, what a quantum adds up to, estimates |
| `source`, `hardware_counters` | where samples come from and how counter slots are changed |
| `scheduler` | which events to count next, by seven policies and more |
| `llm` | prompts, replies and retries for policies that ask a language model |
| `profiler`, `oculomotor`, `counter_backend` | one step of profiling |
| `perfetto`, `perfetto_trace` | writing and reading Perfetto traces |
| `sink`, `buffered_output` | CSV rows, trace snapshots, matrices, logs of raw records |
| `commands` | sweeping, replaying, evaluating and reporting |
| `config`, `workload` | settings and synthetic load |
| `text`, `order`, `bins` | decimal text, stable sorting, time bins |

Laws that span functions are public proof functions next to the functions they speak of: that a
written trace is read back, that a sweep measures every event, that a rotation reaches every event,
and so on.

`tests/` runs the library on concrete values. `app/` is the program around it: the command line,
files, HTTP, the eBPF sampler, and all floating-point arithmetic.

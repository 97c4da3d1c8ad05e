# pprofessor

A sampling CPU profiler that writes pprof profiles, streams live updates to
a viewer, and analyses pprof files for hotspots. Its core is written in
Verus: the functions in `src/` carry contracts that Verus proves.

## Layout

- `src/` — the verified library.
  - `wire.rs`, `pprof.rs`, `roundtrip.rs`: the protobuf wire format and the
    pprof profile model, its encoder and decoder, and the proof that
    decoding an encoded canonical profile gives it back.
  - `stream.rs`: the framing of the live session protocol.
  - `sampler.rs` and `sampler/`: raw sample bookkeeping, publishing cursors,
    the sampling loop's decisions, `/proc/<pid>/maps` and perf record parsing,
    and the macOS image-list rules.
  - `symbolicate.rs`, `symbolicate/native.rs`: which image holds an address,
    the native slice of a universal binary, DWARF and symbol-table lookups,
    and the chain of symbolizers.
  - `symbolicated.rs`, `encode.rs`: symbolicated profiles, their call trees,
    and their encoding as pprof.
  - `report.rs`, `report/call_tree.rs`: hotspot analysis of a pprof profile
    (top frames, top stacks, the hot call tree, key observations).
  - `processes.rs`, `session.rs`, `builder.rs`: process listing rules,
    command-line checks, and profiler configuration.
- `tests/` — tests of the library.
- `app/` — the program around the library: the command line, system calls
  (ptrace, perf events, procfs, Mach), file and socket I/O, and text
  rendering with floating-point percentages.

## Checking

The library is verified with Verus; `tests/` runs with the outside crates
linked.

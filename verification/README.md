# dfajit

DFA transition tables and the scanners built from them, verified with Verus.

A `TransitionTable` describes a DFA over byte classes: one row of targets per
state, accept entries naming the pattern of an accepting state, and the fixed
length of each pattern. The library can minimize a table by partition
refinement, serialize it to a little-endian byte format and decode it again,
summarize its rows as runs of equal targets, and compile it into a `JitDfa`
whose scanner reports a match, with the pattern's start and end, each time it
enters an accepting state. `JitDfa::from_patterns` builds such a scanner for a
set of literal byte patterns (a trie completed by failure links).

`compile_x86_64` lays out the native code image for small tables: the scan
loop followed by the flagged transitions, the pattern of each state, the
pattern lengths and the output links. Mapping that image into executable
memory and calling it is left to the caller.

## Layout

- `src/table/`: the table (`mod.rs`), its analyses (`analysis.rs`),
  minimization (`minimize.rs`) and byte format (`serialize.rs`).
- `src/scan.rs`: the scanner model (`run`, `scan_events`) and the scanner. A
  scan follows output links, so it needs links without a cycle; compiling
  accepts any links.
- `src/dfa.rs`: `JitDfa`, compiled from a table or from literal patterns.
- `src/aho.rs`: the literal-pattern scanner, with the proofs that it reports
  only real occurrences and every occurrence since its last restart.
- `src/codegen.rs`: the native code image.
- `src/laws.rs`: minimizing a valid table gives a valid, smaller table with the
  same classes and pattern lengths; on tables that meet `minimize_law_ok`
  (at least 256 classes, a full array of in-range targets, one accept entry
  per state) it keeps what a scan reports. Its partition is the coarsest
  stable one that separates the accepted patterns, and a minimized table
  minimizes to nothing further (both shown for tables whose targets are all
  states).
- `tests/`: executable tests of the library.
- `app/`: the parts outside the verified library: executable memory for the
  native image, and conversions to the `thiserror` and `matchkit` types.

# safety-profiler

Profiles a gate-level Verilog optimisation pipeline (parse with `sv-parser`,
compile the top module with `nl-compiler`, then the `safety-pass` passes
Clean, FoldAllPatterns, Clean and PrintVerilog), timing each stage, and
preprocesses ISCAS-85 netlists so that the compiler can read them.

Layout:

- `src/text.rs` — whitespace, trimming, searching, splitting and line
  breaking over character sequences.
- `src/nets.rs` — lexicographic order of net names, sorted sets, joining.
- `src/gates.rs` — gate primitive names, cell type names, port labels.
- `src/convert.rs` — classification and conversion of one line.
- `src/preprocess.rs` — `process`, the whole-file conversion.
- `src/guarantees.rs` — properties of the converted text as a whole.
- `src/stable.rs` — converting the converted text again changes nothing.
- `src/compilable.rs` — `pipeline_accepts`: a reading of the source that
  keeps comments, strings and escaped identifiers apart from the code and
  refuses, in the code, every number literal on which the netlist compiler
  panics, every macro use and every directive that brings in text; it
  refuses a few harmless spellings too (listed in the module's doc).
- `src/pipeline.rs` — stage functions, timings, `run_passes` and
  `run_pipeline`; each netlist handle records which passes ran on it and
  what they returned, and a pipeline result carries that record.
- `app/` — the command line: profiling a file, preprocessing a directory,
  comparing against Yosys.

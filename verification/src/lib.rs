//! A profiler for a gate-level Verilog optimisation pipeline (parse,
//! compile, clean, fold, clean, emit), with the ISCAS-85 preprocessor that
//! turns gate primitives into the module instantiations the compiler reads.
pub mod compilable;
pub mod convert;
pub mod gates;
pub mod guarantees;
pub mod laws;
pub mod nets;
pub mod pipeline;
pub mod preprocess;
pub mod stable;
pub mod text;

pub use compilable::pipeline_accepts;
pub use gates::{cell_type_name, input_label, is_primitive_keyword};
pub use pipeline::{
    run_passes, run_pipeline, stage_clean, stage_compile, stage_emit, stage_fold, stage_parse,
    NetlistHandle, ParsedSource, PipelineError, PipelineResult, StageTiming,
};
pub use preprocess::{accepts, extract_ports, process, ProcessedFile};

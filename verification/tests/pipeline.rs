use safety_profiler::{
    pipeline_accepts, run_passes, run_pipeline, stage_clean, stage_compile, stage_emit,
    stage_fold, stage_parse, PipelineError, PipelineResult, StageTiming,
};
use std::path::PathBuf;

// c17 with the port names of this cell library (A1, A2 in, ZN out).
const C17: &str = "\
module c17 (N1, N2, N3, N6, N7, N22, N23);
input N1, N2, N3, N6, N7;
output N22, N23;
wire N10, N11, N16, N19;
NAND2 g_N10 (.A1(N1), .A2(N3), .ZN(N10));
NAND2 g_N11 (.A1(N3), .A2(N6), .ZN(N11));
NAND2 g_N16 (.A1(N2), .A2(N11), .ZN(N16));
NAND2 g_N19 (.A1(N11), .A2(N7), .ZN(N19));
NAND2 g_N22 (.A1(N10), .A2(N16), .ZN(N22));
NAND2 g_N23 (.A1(N16), .A2(N19), .ZN(N23));
endmodule
";

fn ok<T>(r: Result<T, PipelineError>, what: &str) -> T {
    match r {
        Ok(v) => v,
        Err(_) => panic!("{what} failed"),
    }
}

fn timing(name: &'static str, secs: u64, nanos: u32) -> StageTiming {
    StageTiming { name, elapsed_secs: secs, elapsed_subsec_nanos: nanos, note: None }
}

#[test]
fn micros_truncates_to_whole_microseconds() {
    assert_eq!(timing("parse", 0, 0).micros(), 0);
    assert_eq!(timing("parse", 0, 999).micros(), 0);
    assert_eq!(timing("parse", 0, 1_999).micros(), 1);
    assert_eq!(timing("parse", 2, 345_678).micros(), 2_000_345);
}

#[test]
fn total_is_the_sum_of_the_stages() {
    let r = PipelineResult::new(
        vec![timing("parse", 1, 5_000), timing("compile", 0, 7_500), timing("emit", 0, 0)],
        String::new(),
    );
    assert_eq!(r.total_micros(), 1_000_005 + 7);
    let empty = PipelineResult::new(vec![], String::new());
    assert_eq!(empty.total_micros(), 0);
}

#[test]
fn stage_finds_the_first_stage_of_that_name() {
    let r = PipelineResult::new(
        vec![timing("parse", 0, 1_000), timing("clean1", 0, 2_000), timing("clean1", 0, 3_000)],
        String::new(),
    );
    assert_eq!(r.stage("parse").micros(), 1);
    assert_eq!(r.stage("clean1").micros(), 2);
}

#[test]
fn full_pipeline_on_c17() {
    let src = C17.to_string();
    assert!(pipeline_accepts(&src));
    let path = PathBuf::from("c17.v");
    let res = ok(run_pipeline(&src, &path), "pipeline failed");
    let names: Vec<&str> = res.stages.iter().map(|s| s.name).collect();
    assert_eq!(names, vec!["parse", "compile", "clean1", "fold", "clean2", "emit"]);
    let notes: Vec<bool> = res.stages.iter().map(|s| s.note.is_some()).collect();
    assert_eq!(notes, vec![false, false, true, true, true, false]);
    assert!(res.stages.iter().all(|s| s.elapsed_subsec_nanos < 1_000_000_000));
    assert!(res.verilog.contains("module"));
    let sum: u128 = res.stages.iter().map(|s| s.micros()).sum();
    assert_eq!(res.total_micros(), sum);
    assert_eq!(res.stage("fold").name, "fold");
}

#[test]
fn stages_one_by_one() {
    let src = C17.to_string();
    let ast = ok(stage_parse(&src, &PathBuf::from("c17.v")), "parse");
    let mut netlist = ok(stage_compile(&ast), "compile");
    let note = ok(stage_clean(&mut netlist), "clean");
    assert!(note.contains("Cleaned"));
    assert!(ok(stage_fold(&mut netlist), "fold").contains("Folded"));
    assert!(stage_clean(&mut netlist).is_ok());
    let v = ok(stage_emit(&mut netlist), "emit");
    assert!(v.contains("endmodule"));
}

#[test]
fn unparsable_source_is_a_parse_error() {
    let r = run_pipeline("module (((;", &PathBuf::from("bad.v"));
    assert!(matches!(r, Err(PipelineError::Parse(_))));
}

#[test]
fn source_without_modules_is_refused() {
    let ast = stage_parse("", &PathBuf::from("empty.v"));
    match ast {
        Ok(ast) => assert!(matches!(stage_compile(&ast), Err(PipelineError::NoModules))),
        Err(e) => assert!(matches!(e, PipelineError::Parse(_))),
    }
}

#[test]
fn pipeline_result_carries_the_pass_notes_and_the_emitted_text() {
    let src = C17.to_string();
    let res = ok(run_pipeline(&src, &PathBuf::from("c17.v")), "pipeline failed");
    let ast = ok(stage_parse(&src, &PathBuf::from("c17.v")), "parse");
    let mut netlist = ok(stage_compile(&ast), "compile");
    let c1 = ok(stage_clean(&mut netlist), "clean");
    let f = ok(stage_fold(&mut netlist), "fold");
    let c2 = ok(stage_clean(&mut netlist), "clean");
    let v = ok(stage_emit(&mut netlist), "emit");
    assert_eq!(res.stages[2].note.as_deref(), Some(c1.as_str()));
    assert_eq!(res.stages[3].note.as_deref(), Some(f.as_str()));
    assert_eq!(res.stages[4].note.as_deref(), Some(c2.as_str()));
    assert_eq!(res.verilog, v);
}

#[test]
fn passes_run_in_order_and_add_their_timings() {
    let src = C17.to_string();
    let ast = ok(stage_parse(&src, &PathBuf::from("c17.v")), "parse");
    let mut netlist = ok(stage_compile(&ast), "compile");
    let mut stages = vec![timing("parse", 0, 0)];
    let v = ok(run_passes(&mut netlist, &mut stages), "passes");
    let names: Vec<&str> = stages.iter().map(|s| s.name).collect();
    assert_eq!(names, vec!["parse", "clean1", "fold", "clean2", "emit"]);
    assert!(stages[1].note.as_deref().unwrap_or("").contains("Cleaned"));
    assert!(stages[2].note.as_deref().unwrap_or("").contains("Folded"));
    assert!(stages[4].note.is_none());
    assert!(v.contains("endmodule"));
}

#[test]
fn sources_the_compiler_cannot_take_are_refused() {
    assert!(pipeline_accepts(C17));
    assert!(pipeline_accepts(""));
    assert!(pipeline_accepts("`timescale 1ns/1ps\nmodule m(a);\nendmodule\n"));
    assert!(pipeline_accepts("`define W 8\n`ifdef W\n`endif\n"));
    assert!(pipeline_accepts("wire a1_000, b$2;"));
    assert!(pipeline_accepts("x = 1234567890123456789;"));
    assert!(pipeline_accepts("assign y = 1'b0;"));
    assert!(pipeline_accepts("assign y = 4'b1010;"));
    assert!(pipeline_accepts("assign y = 1'bx;"));
    assert!(!pipeline_accepts("p #(.W(64'hffff_ffff)) u (a);"));
    assert!(pipeline_accepts("p #(.W(64'hffffffff)) u (a);"));
    assert!(pipeline_accepts("p #(.W(8'd200)) u (a);"));
    assert!(pipeline_accepts("p #(.W(4'dx)) u (a);"));
    assert!(pipeline_accepts("p #(.W(4'o17)) u (a);"));
    assert!(pipeline_accepts("// don't 1_000 `W 4'bx\nmodule m;"));
    assert!(pipeline_accepts("/* 1_000 '\n 4'bz */ module m;"));
    assert!(pipeline_accepts("$display(\"it's 1_000\");"));
    assert!(pipeline_accepts("wire \\a'b1_0 ;"));
    assert!(!pipeline_accepts("x = 12345678901234567890;"));
    assert!(!pipeline_accepts("foo #(.INIT(1_000)) u (a);"));
    assert!(!pipeline_accepts("assign y = 4'bx01z;"));
    assert!(!pipeline_accepts("assign y = 'bx;"));
    assert!(!pipeline_accepts("assign y = 100'b1;"));
    assert!(!pipeline_accepts("assign y = 65'b1;"));
    assert!(!pipeline_accepts("assign y = 4'd1_0;"));
    assert!(!pipeline_accepts("assign y = 8'hf_f;"));
    assert!(!pipeline_accepts("assign y = `W;"));
    assert!(!pipeline_accepts("`include \"a.v\"\n"));
    assert!(!pipeline_accepts("`timescal 1ns/1ps\n"));
    assert!(!pipeline_accepts("/* open"));
    assert!(!pipeline_accepts("$display(\"a\nb\");"));
}

#[test]
fn comments_and_directives_do_not_stop_the_pipeline() {
    let src = format!("`timescale 1ns/1ps\n`define UNUSED 1000\n// don't mind 4'bx here\n{C17}");
    assert!(pipeline_accepts(&src));
    let res = ok(run_pipeline(&src, &PathBuf::from("c17.v")), "pipeline failed");
    assert!(res.verilog.contains("endmodule"));
}

//! The profiled pipeline: parse Verilog, compile the top module to a
//! netlist, clean, fold, clean again and emit Verilog, timing each stage.
use vstd::prelude::*;
use std::path::PathBuf;
use std::rc::Rc;
use std::time::{Duration, Instant};
use safety_net::Netlist;
use safety_pass::Cell;
use sv_parser::SyntaxTree;
use crate::compilable::{compile_safe, lemma_safe_plain, plain_directives};

verus! {

#[verifier::external_type_specification]
#[verifier::external_body]
pub struct ExSyntaxTree(sv_parser::SyntaxTree);

#[verifier::external_type_specification]
#[verifier::external_body]
pub struct ExSvError(sv_parser::Error);

#[verifier::external_type_specification]
#[verifier::external_body]
pub struct ExVerilogError(nl_compiler::VerilogError);

#[verifier::external_type_specification]
#[verifier::external_body]
pub struct ExNetError(safety_net::Error);

/// A compiled netlist, shared by the passes that rewrite it in place.
/// `safety_net::Netlist` is generic over an outside trait that cannot be
/// declared here, so the reference is opaque.
#[verifier::external_body]
pub struct NetlistRef {
    netlist: Rc<Netlist<Cell>>,
}

/// The passes that the pipeline runs on a netlist.
pub enum PassKind {
    Clean,
    Fold,
    Emit,
}

/// One pass run on a netlist: which one, and what it returned (its text,
/// or the pass's error).
pub struct PassRun {
    pub kind: PassKind,
    pub outcome: Result<Seq<char>, safety_net::Error>,
}

/// The netlist of the top module, with the text it was compiled from and
/// the record of the passes run on it through this handle, in order.
pub struct NetlistHandle {
    inner: NetlistRef,
    source: Ghost<Seq<char>>,
    runs: Ghost<Seq<PassRun>>,
}

impl NetlistHandle {
    /// The netlist the handle holds.
    pub closed spec fn netlist(&self) -> NetlistRef {
        self.inner
    }

    /// The passes run on the netlist through this handle so far, in order.
    pub closed spec fn runs(&self) -> Seq<PassRun> {
        self.runs@
    }

    /// The source text whose top module the netlist is.
    pub closed spec fn source(&self) -> Seq<char> {
        self.source@
    }
}

/// A parsed source: its syntax tree, and the text it was parsed from (only
/// `stage_parse` makes one).
pub struct ParsedSource {
    tree: SyntaxTree,
    source: Ghost<Seq<char>>,
}

impl ParsedSource {
    /// The text the tree was parsed from.
    pub closed spec fn source(&self) -> Seq<char> {
        self.source@
    }
}

#[verifier::external_type_specification]
#[verifier::external_body]
pub struct ExInstant(std::time::Instant);

#[verifier::external_type_specification]
#[verifier::external_body]
pub struct ExPathBuf(std::path::PathBuf);

/// Why the pipeline stopped.
pub enum PipelineError {
    /// The Verilog source did not parse.
    Parse(sv_parser::Error),
    /// The syntax tree did not compile to netlists.
    Compile(nl_compiler::VerilogError),
    /// The source holds no module.
    NoModules,
    /// A pass on the netlist failed: its error, and the passes run on the
    /// netlist through its handle, the failing one last.
    Pass(safety_net::Error, Ghost<Seq<PassRun>>),
}

/// Whether `sv_parser::parse_sv_str` (no predefined macros, no include
/// paths, includes ignored, incomplete input refused) accepts `src`.
pub uninterp spec fn sv_parses(src: Seq<char>) -> bool;

/// `sv_parser::parse_sv_str` with no predefined macros, no include paths,
/// includes ignored and incomplete input refused; the macro definitions it
/// also returns are dropped. Whether it succeeds is named by `sv_parses`
/// where the source has no directive but `` `timescale``: the path enters
/// only through `` `__FILE__`` and the origins recorded in the tree. The
/// syntax tree is opaque here, so nothing is stated of it.
#[verifier::external_body]
fn parse_source(src: &str, path: &PathBuf) -> (r: Result<SyntaxTree, sv_parser::Error>)
    ensures
        plain_directives(src@) ==> (r is Ok <==> sv_parses(src@)),
{
    let defines: std::collections::HashMap<String, Option<sv_parser::Define>> = std::collections::HashMap::new();
    sv_parser::parse_sv_str(src, path.clone(), &defines, &[] as &[std::path::PathBuf], true, false).map(|(ast, _)| ast)
}


/// `nl_compiler::from_vast` with `safety_pass::Cell` cells: one netlist per
/// module of the syntax tree. It panics on some number literals, which
/// `compile_safe` leaves out. Nothing is stated of the netlists, which are
/// opaque here, nor of their number.
#[verifier::external_body]
fn compile_modules(ast: &ParsedSource) -> (r: Result<Vec<NetlistRef>, nl_compiler::VerilogError>)
    requires
        compile_safe(ast.source()),
{
    nl_compiler::from_vast::<Cell>(&ast.tree).map(|v| v.into_iter().map(|netlist| NetlistRef { netlist }).collect())
}

/// The record of pass `kind` having returned `r`.
pub open spec fn pass_run(kind: PassKind, r: Result<String, safety_net::Error>) -> PassRun {
    PassRun {
        kind,
        outcome: match r {
            Ok(s) => Ok(s@),
            Err(e) => Err(e),
        },
    }
}

/// `<Clean<Cell> as Pass>::run` on the handle's netlist: removes dead cells
/// and wires in place and reports what it did. The contract records that
/// this pass ran on that netlist and what it returned; what it returns
/// depends on the netlist's current contents, so nothing more is stated.
#[verifier::external_body]
fn run_clean(n: &mut NetlistHandle) -> (r: Result<String, safety_net::Error>)
    ensures
        final(n).netlist() == old(n).netlist(),
        final(n).source() == old(n).source(),
        final(n).runs() == old(n).runs().push(pass_run(PassKind::Clean, r)),
{
    safety_pass::Pass::run(&safety_pass::passes::Clean(std::marker::PhantomData::<Cell>), &n.inner.netlist)
}

/// `<FoldAllPatterns as Pass>::run` on the handle's netlist: folds constant
/// and pattern-matchable logic in place and reports what it did. The
/// contract records that this pass ran on that netlist and what it
/// returned, of which nothing more is stated.
#[verifier::external_body]
fn run_fold(n: &mut NetlistHandle) -> (r: Result<String, safety_net::Error>)
    ensures
        final(n).netlist() == old(n).netlist(),
        final(n).source() == old(n).source(),
        final(n).runs() == old(n).runs().push(pass_run(PassKind::Fold, r)),
{
    safety_pass::Pass::run(&safety_pass::passes::FoldAllPatterns, &n.inner.netlist)
}

/// `<PrintVerilog<Cell> as Pass>::run` on the handle's netlist: the Verilog
/// text of the netlist. The contract records that this pass ran on that
/// netlist and what it returned, of which nothing more is stated.
#[verifier::external_body]
fn run_print_verilog(n: &mut NetlistHandle) -> (r: Result<String, safety_net::Error>)
    ensures
        final(n).netlist() == old(n).netlist(),
        final(n).source() == old(n).source(),
        final(n).runs() == old(n).runs().push(pass_run(PassKind::Emit, r)),
{
    safety_pass::Pass::run(&safety_pass::passes::PrintVerilog(std::marker::PhantomData::<Cell>), &n.inner.netlist)
}

/// `Instant::now`: the current time, of which nothing is stated.
#[verifier::external_body]
fn now() -> (r: Instant) {
    Instant::now()
}

/// `Instant::elapsed`: the time since `start`, of which nothing is stated.
#[verifier::external_body]
fn elapsed_since(start: &Instant) -> (r: Duration) {
    start.elapsed()
}

/// `Duration::as_secs`: the whole seconds of `d`.
#[verifier::external_body]
fn whole_secs(d: &Duration) -> (r: u64) {
    d.as_secs()
}

/// `Duration::subsec_nanos`: the fractional part of `d` in nanoseconds,
/// which std documents to be less than one billion.
#[verifier::external_body]
fn fraction_nanos(d: &Duration) -> (r: u32)
    ensures
        r < 1_000_000_000,
{
    d.subsec_nanos()
}

/// Timing and optional diagnostic message for one pipeline stage.
#[derive(Debug, Clone)]
pub struct StageTiming {
    /// Short label, e.g. `"parse"`, `"clean1"`. Never changes between runs.
    pub name: &'static str,
    /// Whole seconds the stage took.
    pub elapsed_secs: u64,
    /// Nanoseconds the stage took beyond `elapsed_secs`.
    pub elapsed_subsec_nanos: u32,
    /// Human-readable note emitted by the pass, e.g. `"removed 4 dead cells"`.
    pub note: Option<String>,
}

/// The whole microseconds of a stage's duration (`Duration::as_micros`).
pub open spec fn micros_of(t: StageTiming) -> int {
    t.elapsed_secs * 1_000_000 + t.elapsed_subsec_nanos / 1000
}

/// The sum of the stages' microseconds.
pub open spec fn total_of(stages: Seq<StageTiming>) -> int
    decreases stages.len(),
{
    if stages.len() == 0 {
        0
    } else {
        total_of(stages.drop_last()) + micros_of(stages.last())
    }
}

/// Index of the first stage named `name`, searching from `i`.
pub open spec fn stage_index_from(stages: Seq<StageTiming>, name: Seq<char>, i: int) -> Option<int>
    decreases stages.len() - i,
{
    if i < 0 || i >= stages.len() {
        None
    } else if stages[i].name@ == name {
        Some(i)
    } else {
        stage_index_from(stages, name, i + 1)
    }
}

/// Index of the first stage named `name`.
pub open spec fn stage_index(stages: Seq<StageTiming>, name: Seq<char>) -> Option<int> {
    stage_index_from(stages, name, 0)
}

impl StageTiming {
    /// The stage's duration in whole microseconds.
    pub fn micros(&self) -> (r: u128)
        ensures
            r == micros_of(*self),
    {
        self.elapsed_secs as u128 * 1_000_000 + (self.elapsed_subsec_nanos / 1000) as u128
    }
}

/// The complete result of one pipeline execution.
pub struct PipelineResult {
    /// One entry per stage, in execution order.
    pub stages: Vec<StageTiming>,
    /// Emitted Verilog from the final `PrintVerilog` pass.
    pub verilog: String,
    /// The passes that ran on the netlist, in order, with their outcomes.
    pub passes: Ghost<Seq<PassRun>>,
    /// The source text the netlist was compiled from.
    pub source: Ghost<Seq<char>>,
}

impl PipelineResult {
    /// A result made of the given stages and text, with no pass recorded.
    pub fn new(stages: Vec<StageTiming>, verilog: String) -> (r: PipelineResult)
        ensures
            r.stages == stages,
            r.verilog == verilog,
            r.passes@ == Seq::<PassRun>::empty(),
            r.source@ == Seq::<char>::empty(),
    {
        PipelineResult { stages, verilog, passes: Ghost(Seq::empty()), source: Ghost(Seq::empty()) }
    }

    /// Sum of all stage timings in microseconds.
    pub fn total_micros(&self) -> (r: u128)
        requires
            total_of(self.stages@) <= u128::MAX,
        ensures
            r == total_of(self.stages@),
    {
        let mut sum: u128 = 0;
        let mut i: usize = 0;
        while i < self.stages.len()
            invariant
                i <= self.stages.len(),
                sum == total_of(self.stages@.take(i as int)),
                total_of(self.stages@) <= u128::MAX,
            decreases self.stages.len() - i,
        {
            proof {
                assert(self.stages@.take(i + 1).drop_last() =~= self.stages@.take(i as int));
                lemma_total_prefix(self.stages@, i + 1);
            }
            sum = sum + self.stages[i].micros();
            i += 1;
        }
        assert(self.stages@.take(i as int) =~= self.stages@);
        sum
    }

    /// Looks up a stage by name. Stages are static, so a missing name is a
    /// programming error: the name must be one of the stages.
    pub fn stage(&self, name: &str) -> (r: &StageTiming)
        requires
            stage_index(self.stages@, name@) is Some,
        ensures
            *r == self.stages@[stage_index(self.stages@, name@).unwrap()],
    {
        let wanted = crate::text::chars_of(name);
        let mut i: usize = 0;
        while i < self.stages.len()
            invariant
                i <= self.stages.len(),
                stage_index(self.stages@, name@) == stage_index_from(self.stages@, name@, i as int),
                wanted@ == name@,
            decreases self.stages.len() - i,
        {
            let label = crate::text::chars_of(self.stages[i].name);
            if crate::text::same_chars(&label, &wanted) {
                return &self.stages[i];
            }
            i += 1;
        }
        proof {
            assert(stage_index_from(self.stages@, name@, i as int) is None);
        }
        &self.stages[0]
    }
}

/// Every stage's microseconds are non-negative, so a prefix never sums to
/// more than the whole.
pub proof fn lemma_total_prefix(stages: Seq<StageTiming>, k: int)
    requires
        0 <= k <= stages.len(),
    ensures
        0 <= total_of(stages.take(k)) <= total_of(stages),
    decreases stages.len() - k,
{
    if k < stages.len() {
        lemma_total_prefix(stages, k + 1);
        assert(stages.take(k + 1).drop_last() =~= stages.take(k));
        assert(stages.take(k + 1).last() == stages[k]);
        lemma_total_nonneg(stages.take(k));
    } else {
        assert(stages.take(k) =~= stages);
        lemma_total_nonneg(stages);
    }
}

/// Each stage counts at most `u64::MAX` seconds and just under one more
/// second's worth of `u32` nanoseconds, so a run's total stays far below
/// `u128::MAX`.
proof fn lemma_total_bound(stages: Seq<StageTiming>)
    ensures
        total_of(stages) <= stages.len() * 18446744073709551615004294967int,
    decreases stages.len(),
{
    if stages.len() > 0 {
        lemma_total_bound(stages.drop_last());
        let t = stages.last();
        assert(t.elapsed_subsec_nanos / 1000 <= 4294967);
        assert(t.elapsed_secs * 1_000_000 <= 18446744073709551615000000int);
        assert(micros_of(t) <= 18446744073709551615004294967int);
        assert(stages.len() * 18446744073709551615004294967int == (stages.len() - 1)
            * 18446744073709551615004294967int + 18446744073709551615004294967int);
    }
}

proof fn lemma_total_nonneg(stages: Seq<StageTiming>)
    ensures
        total_of(stages) >= 0,
    decreases stages.len(),
{
    if stages.len() > 0 {
        lemma_total_nonneg(stages.drop_last());
    }
}


/// The outcome of a pass, its error carrying the record `log`.
fn pass_outcome(r: Result<String, safety_net::Error>, log: Ghost<Seq<PassRun>>) -> (out: Result<
    String,
    PipelineError,
>)
    ensures
        match r {
            Ok(s) => out == Ok::<String, PipelineError>(s),
            Err(e) => out == Err::<String, PipelineError>(PipelineError::Pass(e, log)),
        },
{
    match r {
        Ok(s) => Ok(s),
        Err(e) => Err(PipelineError::Pass(e, log)),
    }
}

/// `after` is `before` with pass `kind` recorded as having returned `r`;
/// a failure carries the whole record, itself last.
pub open spec fn pass_recorded(
    before: Seq<PassRun>,
    after: Seq<PassRun>,
    kind: PassKind,
    r: Result<String, PipelineError>,
) -> bool {
    match r {
        Ok(s) => after == before.push(PassRun { kind, outcome: Ok(s@) }),
        Err(e) => e matches PipelineError::Pass(inner, log) && after == before.push(
            PassRun { kind, outcome: Err(inner) },
        ) && log@ == after,
    }
}

/// The first (top) module among the netlists compiled from a file, with no
/// pass run on it yet.
pub fn first_module(r: Result<Vec<NetlistRef>, nl_compiler::VerilogError>) -> (out: Result<
    NetlistHandle,
    PipelineError,
>)
    ensures
        match r {
            Ok(v) => if v.len() > 0 {
                out matches Ok(h) && h.netlist() == v[0] && h.runs() == Seq::<PassRun>::empty()
            } else {
                out matches Err(PipelineError::NoModules)
            },
            Err(e) => out == Err::<NetlistHandle, PipelineError>(PipelineError::Compile(e)),
        },
{
    match r {
        Ok(v) => {
            let mut v = v;
            if v.len() > 0 {
                Ok(
                    NetlistHandle {
                        inner: v.swap_remove(0),
                        source: Ghost(Seq::empty()),
                        runs: Ghost(Seq::empty()),
                    },
                )
            } else {
                Err(PipelineError::NoModules)
            }
        },
        Err(e) => Err(PipelineError::Compile(e)),
    }
}

/// Stage 1: parse Verilog source into a syntax tree; `path` is used by the
/// parser for diagnostics only.
pub fn stage_parse(src: &str, path: &PathBuf) -> (r: Result<ParsedSource, PipelineError>)
    ensures
        plain_directives(src@) ==> (r is Ok <==> sv_parses(src@)),
        r matches Ok(p) ==> p.source() == src@,
        r matches Err(e) ==> e is Parse,
{
    match parse_source(src, path) {
        Ok(tree) => Ok(ParsedSource { tree, source: Ghost(src@) }),
        Err(e) => Err(PipelineError::Parse(e)),
    }
}

/// Stage 2: compile the syntax tree to a netlist of its first (top) module.
pub fn stage_compile(ast: &ParsedSource) -> (r: Result<NetlistHandle, PipelineError>)
    requires
        compile_safe(ast.source()),
    ensures
        r matches Ok(h) ==> h.runs() == Seq::<PassRun>::empty() && h.source() == ast.source(),
        r matches Err(e) ==> (e is Compile || e is NoModules),
{
    match first_module(compile_modules(ast)) {
        Ok(h) => {
            let mut h = h;
            h.source = Ghost(ast.source());
            Ok(h)
        },
        Err(e) => Err(e),
    }
}

/// Stage 3 / 5: clean pass (dead-cell and dead-wire removal).
pub fn stage_clean(netlist: &mut NetlistHandle) -> (r: Result<String, PipelineError>)
    ensures
        final(netlist).netlist() == old(netlist).netlist(),
        final(netlist).source() == old(netlist).source(),
        pass_recorded(old(netlist).runs(), final(netlist).runs(), PassKind::Clean, r),
{
    let raw = run_clean(netlist);
    pass_outcome(raw, Ghost(netlist.runs()))
}

/// Stage 4: fold constant and pattern-matchable expressions.
pub fn stage_fold(netlist: &mut NetlistHandle) -> (r: Result<String, PipelineError>)
    ensures
        final(netlist).netlist() == old(netlist).netlist(),
        final(netlist).source() == old(netlist).source(),
        pass_recorded(old(netlist).runs(), final(netlist).runs(), PassKind::Fold, r),
{
    let raw = run_fold(netlist);
    pass_outcome(raw, Ghost(netlist.runs()))
}

/// Stage 6: emit Verilog from the optimised netlist.
pub fn stage_emit(netlist: &mut NetlistHandle) -> (r: Result<String, PipelineError>)
    ensures
        final(netlist).netlist() == old(netlist).netlist(),
        final(netlist).source() == old(netlist).source(),
        pass_recorded(old(netlist).runs(), final(netlist).runs(), PassKind::Emit, r),
{
    let raw = run_print_verilog(netlist);
    pass_outcome(raw, Ghost(netlist.runs()))
}

/// The timing of a stage named `name` that started at `start`.
fn finish_stage(name: &'static str, start: &Instant, note: Option<String>) -> (t: StageTiming)
    ensures
        t.name == name,
        t.note == note,
        t.elapsed_subsec_nanos < 1_000_000_000,
{
    let d = elapsed_since(start);
    StageTiming { name, elapsed_secs: whole_secs(&d), elapsed_subsec_nanos: fraction_nanos(&d), note }
}

/// The passes in the order the pipeline runs them.
pub open spec fn pass_order() -> Seq<PassKind> {
    seq![PassKind::Clean, PassKind::Fold, PassKind::Clean, PassKind::Emit]
}

/// The stage names of the passes, in the same order.
pub open spec fn pass_stage_names() -> Seq<Seq<char>> {
    seq!["clean1"@, "fold"@, "clean2"@, "emit"@]
}

/// `runs` follow the pipeline's order of passes, and each but the last
/// succeeded.
pub open spec fn in_pass_order(runs: Seq<PassRun>) -> bool {
    &&& 1 <= runs.len() <= 4
    &&& forall|k: int| 0 <= k < runs.len() ==> (#[trigger] runs[k]).kind == pass_order()[k]
    &&& forall|k: int| 0 <= k < runs.len() - 1 ==> (#[trigger] runs[k]).outcome is Ok
}

/// `t` is the timing of the `k`-th pass, which had `run`: the clean and
/// fold passes carry the text they returned as the note, emit none.
pub open spec fn pass_timing(t: StageTiming, k: int, run: PassRun) -> bool {
    &&& t.name@ == pass_stage_names()[k]
    &&& t.elapsed_subsec_nanos < 1_000_000_000
    &&& if k < 3 {
        run.outcome matches Ok(s) && (t.note matches Some(n) && n@ == s)
    } else {
        t.note is None
    }
}

/// The passes ran in order until the first failure (`ran`), one timing was
/// added for each pass that succeeded (`ts`), and `r` is the emitted text
/// when all four succeeded, else the error of the pass that failed (a pass
/// error).
pub open spec fn passes_outcome(
    ran: Seq<PassRun>,
    ts: Seq<StageTiming>,
    r: Result<String, PipelineError>,
) -> bool {
    &&& in_pass_order(ran)
    &&& forall|k: int| 0 <= k < ts.len() ==> pass_timing(#[trigger] ts[k], k, ran[k])
    &&& match r {
        Ok(v) => ran.len() == 4 && ts.len() == 4 && ran[3].outcome == Ok::<
            Seq<char>,
            safety_net::Error,
        >(v@),
        Err(e) => {
            &&& e matches PipelineError::Pass(inner, _) && ran.last().outcome == Err::<
                Seq<char>,
                safety_net::Error,
            >(inner)
            &&& ts.len() == ran.len() - 1
        },
    }
}

/// The stages of a run, in order: parse, compile, clean1, fold, clean2,
/// emit; the passes (clean1, fold, clean2) carry their notes, the others
/// none; every sub-second part is below one second.
pub open spec fn pipeline_shape(stages: Seq<StageTiming>) -> bool {
    &&& stages.len() == 6
    &&& stages[0].name@ == "parse"@ && stages[0].note is None
    &&& stages[1].name@ == "compile"@ && stages[1].note is None
    &&& stages[2].name@ == "clean1"@ && stages[2].note is Some
    &&& stages[3].name@ == "fold"@ && stages[3].note is Some
    &&& stages[4].name@ == "clean2"@ && stages[4].note is Some
    &&& stages[5].name@ == "emit"@ && stages[5].note is None
    &&& forall|i: int| 0 <= i < 6 ==> (#[trigger] stages[i]).elapsed_subsec_nanos < 1_000_000_000
}

/// Every stage of a run can be looked up by its name, and the lookup finds
/// the stage that ran in that position.
pub proof fn law_stages_found_by_name(stages: Seq<StageTiming>)
    requires
        pipeline_shape(stages),
    ensures
        stage_index(stages, "parse"@) == Some(0int),
        stage_index(stages, "compile"@) == Some(1int),
        stage_index(stages, "clean1"@) == Some(2int),
        stage_index(stages, "fold"@) == Some(3int),
        stage_index(stages, "clean2"@) == Some(4int),
        stage_index(stages, "emit"@) == Some(5int),
{
    reveal_strlit("parse");
    reveal_strlit("compile");
    reveal_strlit("clean1");
    reveal_strlit("fold");
    reveal_strlit("clean2");
    reveal_strlit("emit");
    assert("parse"@ != "compile"@ && "parse"@ != "clean1"@ && "parse"@ != "fold"@ && "parse"@ != "clean2"@ && "parse"@ != "emit"@) by {
        assert("parse"@[0] != "compile"@[0]);
        assert("parse"@[0] != "clean1"@[0]);
        assert("parse"@[0] != "fold"@[0]);
        assert("parse"@[0] != "clean2"@[0]);
        assert("parse"@[0] != "emit"@[0]);
    }
    assert("compile"@ != "clean1"@ && "compile"@ != "fold"@ && "compile"@ != "clean2"@ && "compile"@ != "emit"@) by {
        assert("compile"@[1] != "clean1"@[1]);
        assert("compile"@[0] != "fold"@[0]);
        assert("compile"@[1] != "clean2"@[1]);
        assert("compile"@[0] != "emit"@[0]);
    }
    assert("clean1"@ != "fold"@ && "clean1"@ != "clean2"@ && "clean1"@ != "emit"@) by {
        assert("clean1"@[0] != "fold"@[0]);
        assert("clean1"@[5] != "clean2"@[5]);
        assert("clean1"@[0] != "emit"@[0]);
    }
    assert("fold"@ != "clean2"@ && "fold"@ != "emit"@) by {
        assert("fold"@[0] != "clean2"@[0]);
        assert("fold"@[0] != "emit"@[0]);
    }
    assert("clean2"@ != "emit"@) by {
        assert("clean2"@[0] != "emit"@[0]);
    }
    reveal_with_fuel(stage_index_from, 7);
}

/// Runs the passes on `netlist` in the pipeline's order (clean1, fold,
/// clean2, emit), adding a timing to `stages` for each that succeeds; the
/// first that fails ends the run with its error, and no later pass runs.
pub fn run_passes(netlist: &mut NetlistHandle, stages: &mut Vec<StageTiming>) -> (r: Result<
    String,
    PipelineError,
>)
    ensures
        final(netlist).netlist() == old(netlist).netlist(),
        final(netlist).source() == old(netlist).source(),
        final(netlist).runs().len() >= old(netlist).runs().len(),
        final(netlist).runs().take(old(netlist).runs().len() as int) == old(netlist).runs(),
        final(stages)@.len() >= old(stages)@.len(),
        final(stages)@.take(old(stages)@.len() as int) == old(stages)@,
        passes_outcome(
            final(netlist).runs().skip(old(netlist).runs().len() as int),
            final(stages)@.skip(old(stages)@.len() as int),
            r,
        ),
        r matches Err(PipelineError::Pass(_, log)) ==> log@ == final(netlist).runs(),
{
    let ghost runs0 = netlist.runs();
    let ghost st0 = stages@;
    let ghost n0 = runs0.len() as int;
    let ghost m0 = st0.len() as int;
    proof {
        reveal_strlit("clean1");
        reveal_strlit("fold");
        reveal_strlit("clean2");
        reveal_strlit("emit");
    }

    let t = now();
    let note = match stage_clean(netlist) {
        Ok(n) => n,
        Err(e) => {
            proof {
                assert(netlist.runs().skip(n0) =~= seq![netlist.runs().last()]);
                assert(stages@.skip(m0) =~= Seq::<StageTiming>::empty());
                assert(netlist.runs().take(n0) =~= runs0);
                assert(stages@.take(m0) =~= st0);
            }
            return Err(e);
        },
    };
    let ghost r1 = netlist.runs().last();
    stages.push(finish_stage("clean1", &t, Some(note)));

    let t = now();
    let note = match stage_fold(netlist) {
        Ok(n) => n,
        Err(e) => {
            proof {
                assert(netlist.runs().skip(n0) =~= seq![r1, netlist.runs().last()]);
                assert(netlist.runs().take(n0) =~= runs0);
                assert(stages@.take(m0) =~= st0);
            }
            return Err(e);
        },
    };
    let ghost r2 = netlist.runs().last();
    stages.push(finish_stage("fold", &t, Some(note)));

    let t = now();
    let note = match stage_clean(netlist) {
        Ok(n) => n,
        Err(e) => {
            proof {
                assert(netlist.runs().skip(n0) =~= seq![r1, r2, netlist.runs().last()]);
                assert(netlist.runs().take(n0) =~= runs0);
                assert(stages@.take(m0) =~= st0);
            }
            return Err(e);
        },
    };
    let ghost r3 = netlist.runs().last();
    stages.push(finish_stage("clean2", &t, Some(note)));

    let t = now();
    let verilog = match stage_emit(netlist) {
        Ok(v) => v,
        Err(e) => {
            proof {
                assert(netlist.runs().skip(n0) =~= seq![r1, r2, r3, netlist.runs().last()]);
                assert(netlist.runs().take(n0) =~= runs0);
                assert(stages@.take(m0) =~= st0);
            }
            return Err(e);
        },
    };
    stages.push(finish_stage("emit", &t, None));
    proof {
        assert(netlist.runs().skip(n0) =~= seq![r1, r2, r3, netlist.runs().last()]);
        assert(netlist.runs().take(n0) =~= runs0);
        assert(stages@.take(m0) =~= st0);
    }
    Ok(verilog)
}

/// Runs the complete pipeline and returns structured timing and output.
/// File I/O is the caller's responsibility: pass the already-loaded source
/// and the path (used by the parser for diagnostics only). The first stage
/// that fails ends the run with its error.
pub fn run_pipeline(src: &str, path: &PathBuf) -> (r: Result<PipelineResult, PipelineError>)
    requires
        compile_safe(src@),
    ensures
        r matches Err(PipelineError::Parse(_)) <==> !sv_parses(src@),
        r matches Err(PipelineError::Compile(_)) ==> sv_parses(src@),
        r matches Err(PipelineError::NoModules) ==> sv_parses(src@),
        r matches Err(PipelineError::Pass(e, log)) ==> {
            &&& sv_parses(src@)
            &&& in_pass_order(log@)
            &&& log@.last().outcome == Err::<Seq<char>, safety_net::Error>(e)
        },
        r matches Ok(res) ==> {
            &&& sv_parses(src@)
            &&& res.source@ == src@
            &&& pipeline_shape(res.stages@)
            &&& total_of(res.stages@) <= u128::MAX
            &&& passes_outcome(res.passes@, res.stages@.skip(2), Ok::<String, PipelineError>(res.verilog))
        },
{
    proof {
        lemma_safe_plain(src@);
    }
    let mut stages: Vec<StageTiming> = Vec::new();

    let t = now();
    let ast = match stage_parse(src, path) {
        Ok(a) => a,
        Err(e) => {
            return Err(e);
        },
    };
    stages.push(finish_stage("parse", &t, None));

    let t = now();
    let mut netlist = match stage_compile(&ast) {
        Ok(n) => n,
        Err(e) => {
            return Err(e);
        },
    };
    stages.push(finish_stage("compile", &t, None));

    let verilog = match run_passes(&mut netlist, &mut stages) {
        Ok(v) => v,
        Err(e) => {
            proof {
                assert(netlist.runs().skip(0) =~= netlist.runs());
            }
            return Err(e);
        },
    };

    proof {
        reveal_strlit("parse");
        reveal_strlit("compile");
        reveal_strlit("clean1");
        reveal_strlit("fold");
        reveal_strlit("clean2");
        reveal_strlit("emit");
        lemma_total_bound(stages@);
        assert(6 * 18446744073709551615004294967int <= u128::MAX);
        assert(netlist.runs().skip(0) =~= netlist.runs());
        let ts = stages@.skip(2);
        assert(stages@[0] == stages@.take(2)[0]);
        assert(stages@[1] == stages@.take(2)[1]);
        assert forall|i: int| 2 <= i < 6 implies #[trigger] stages@[i] == ts[i - 2] by {}
        assert(pass_timing(ts[0], 0, netlist.runs()[0]));
        assert(pass_timing(ts[1], 1, netlist.runs()[1]));
        assert(pass_timing(ts[2], 2, netlist.runs()[2]));
        assert(pass_timing(ts[3], 3, netlist.runs()[3]));
    }
    Ok(
        PipelineResult {
            stages,
            verilog,
            passes: Ghost(netlist.runs()),
            source: Ghost(netlist.source()),
        },
    )
}

} // verus!

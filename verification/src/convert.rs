//! One line of a gate-level Verilog file: how it is classified, what it
//! becomes, which net it drives and which names it declares.
use vstd::prelude::*;
use crate::gates::{cell_chars, cell_name_for, input_label, label, prim, prim_chars, N_PRIMITIVES};
use crate::text::{
    lead_ws, lemma_lead_ws_bound, append_chars, chars_of, find, find_char, has_prefix, lemma_split_nonempty, rfind, rfind_char,
    slice_of, split, split_on, starts_with, texts, trim, trim_bounds, trim_start, trimmed,
    trimmed_start,
};

verus! {

/// The indentation that a converted line keeps: its leading whitespace.
pub open spec fn indent(line: Seq<char>) -> Seq<char> {
    line.take(lead_ws(line) as int)
}

/// The characters of `line`'s indentation.
pub fn indent_of(line: &Vec<char>) -> (r: Vec<char>)
    ensures
        r@ == indent(line@),
{
    let (a, _b) = trim_bounds(line);
    proof {
        lemma_lead_ws_bound(line@);
    }
    slice_of(line, 0, a)
}

/// A `` `timescale`` directive, which the conversion drops.
pub open spec fn line_is_timescale(line: Seq<char>) -> bool {
    starts_with(trim(line), "`timescale"@)
}

/// A module header, whose ports are the module's declared names.
pub open spec fn line_is_module(line: Seq<char>) -> bool {
    !line_is_timescale(line) && starts_with(trim(line), "module "@)
}

/// An explicit wire declaration.
pub open spec fn line_is_wire(line: Seq<char>) -> bool {
    &&& !line_is_timescale(line)
    &&& !line_is_module(line)
    &&& starts_with(trim(line), "wire "@) || starts_with(trim(line), "wire\t"@)
}

/// Index of the first keyword, from `i` on, that `t` starts with.
pub open spec fn first_prim_from(t: Seq<char>, i: int) -> Option<int>
    decreases 8 - i,
{
    if i < 0 || i >= 8 {
        None
    } else if starts_with(t, prim(i)) {
        Some(i)
    } else {
        first_prim_from(t, i + 1)
    }
}

pub proof fn lemma_first_prim(t: Seq<char>, i: int)
    requires
        0 <= i,
    ensures
        first_prim_from(t, i) matches Some(j) ==> i <= j < 8 && starts_with(t, prim(j)),
    decreases 8 - i,
{
    if i < 8 {
        lemma_first_prim(t, i + 1);
    }
}

/// The keyword that a line of no other kind starts with, if any.
pub open spec fn line_prim(line: Seq<char>) -> Option<int> {
    if line_is_timescale(line) || line_is_module(line) || line_is_wire(line) {
        None
    } else {
        first_prim_from(trim(line), 0)
    }
}

/// What follows keyword `j`, without leading whitespace.
pub open spec fn after_keyword(line: Seq<char>, j: int) -> Seq<char> {
    trim_start(trim(line).skip(prim(j).len() as int))
}

/// Where the argument list of `rt` ends: its last `)`, or its end.
pub open spec fn close_of(rt: Seq<char>) -> int {
    match rfind(rt, ')') {
        Some(b) => b,
        None => rt.len() as int,
    }
}

/// An anonymous gate primitive: a keyword followed directly by `(`.
pub open spec fn line_is_gate(line: Seq<char>) -> bool {
    line_prim(line) matches Some(j) && after_keyword(line, j).len() > 0 && after_keyword(
        line,
        j,
    )[0] == '('
}

/// Each piece trimmed.
pub open spec fn trim_all(ps: Seq<Seq<char>>) -> Seq<Seq<char>> {
    ps.map_values(|p: Seq<char>| trim(p))
}

/// The nets of a gate primitive, output first.
pub open spec fn gate_args(line: Seq<char>) -> Seq<Seq<char>> {
    let rt = after_keyword(line, line_prim(line).unwrap());
    trim_all(split(rt.subrange(1, close_of(rt)), ','))
}

/// `.A(in0), .B(in1), ...` for the input nets `ins`.
pub open spec fn in_ports(ins: Seq<Seq<char>>) -> Seq<char>
    decreases ins.len(),
{
    if ins.len() == 0 {
        Seq::empty()
    } else {
        in_ports(ins.drop_last()) + (if ins.len() > 1 {
            seq![',', ' ']
        } else {
            Seq::empty()
        }) + seq!['.', label(ins.len() - 1), '('] + ins.last() + seq![')']
    }
}

/// The named port connections: inputs in order, then the output on `Y`.
pub open spec fn port_list(ins: Seq<Seq<char>>, out: Seq<char>) -> Seq<char> {
    in_ports(ins) + (if ins.len() > 0 {
        seq![',', ' ']
    } else {
        Seq::empty()
    }) + seq!['.', 'Y', '('] + out + seq![')']
}

/// The module instantiation that replaces a gate primitive:
/// `<indent><CELL> g_<out> (<ports>);`.
pub open spec fn gate_text(line: Seq<char>) -> Seq<char> {
    let args = gate_args(line);
    let out = args[0];
    let ins = args.drop_first();
    indent(line) + cell_name_for(line_prim(line).unwrap(), ins.len() as int) + seq![' ', 'g', '_']
        + out + seq![' ', '('] + port_list(ins, out) + seq![')', ';']
}

/// What a kept line becomes.
pub open spec fn out_line(line: Seq<char>) -> Seq<char> {
    if line_is_gate(line) {
        gate_text(line)
    } else {
        line
    }
}

/// The first argument of a named instance whose type starts with a keyword.
pub open spec fn named_driven(line: Seq<char>) -> Option<Seq<char>> {
    let rt = after_keyword(line, line_prim(line).unwrap());
    match find(rt, '(') {
        Some(a) => Some(trim(split(rt.subrange(a + 1, close_of(rt)), ',')[0])),
        None => None,
    }
}

/// The net that a line drives, if any.
pub open spec fn line_driven(line: Seq<char>) -> Option<Seq<char>> {
    if line_is_gate(line) {
        Some(gate_args(line)[0])
    } else if line_prim(line) is Some {
        named_driven(line)
    } else {
        None
    }
}

/// The line is one that the conversion handles without panicking: a gate
/// has at most 27 inputs
/// (labels `A` to `[`), and a named instance has its last `)` after its
/// first `(`.
pub open spec fn line_ok(line: Seq<char>) -> bool {
    &&& line_is_gate(line) ==> gate_args(line).len() <= 28
    &&& (line_prim(line) is Some && !line_is_gate(line)) ==> (find(
        after_keyword(line, line_prim(line).unwrap()),
        '(',
    ) matches Some(a) ==> a + 1 <= close_of(after_keyword(line, line_prim(line).unwrap())))
}

/// The port names of a module header `t`: the non-empty trimmed pieces
/// between its first `(` and last `)`.
pub open spec fn port_set(t: Seq<char>) -> Set<Seq<char>> {
    match (find(t, '('), rfind(t, ')')) {
        (Some(a), Some(b)) => if b > a {
            trim_all(split(t.subrange(a + 1, b), ',')).to_set().filter(|x: Seq<char>| x.len() > 0)
        } else {
            Set::empty()
        },
        _ => Set::empty(),
    }
}

/// `s` without its trailing semicolons.
pub open spec fn strip_semis(s: Seq<char>) -> Seq<char>
    decreases s.len(),
{
    if s.len() > 0 && s.last() == ';' {
        strip_semis(s.drop_last())
    } else {
        s
    }
}

/// The names declared by a wire declaration `t`.
pub open spec fn wire_set(t: Seq<char>) -> Set<Seq<char>> {
    trim_all(split(strip_semis(trim(t.skip(4))), ',')).to_set()
}

/// The text of an optional vector.
pub open spec fn opt_text(o: Option<Vec<char>>) -> Option<Seq<char>> {
    match o {
        Some(v) => Some(v@),
        None => None,
    }
}

/// Each piece of `ps`, trimmed.
fn trim_each(ps: &Vec<Vec<char>>) -> (r: Vec<Vec<char>>)
    ensures
        texts(r@) == trim_all(texts(ps@)),
{
    let mut r: Vec<Vec<char>> = Vec::new();
    let mut i: usize = 0;
    while i < ps.len()
        invariant
            i <= ps.len(),
            texts(r@) == trim_all(texts(ps@)).take(i as int),
        decreases ps.len() - i,
    {
        let t = trimmed(&ps[i]);
        proof {
            assert(texts(r@.push(t)) =~= texts(r@).push(t@));
            assert(trim_all(texts(ps@)).take(i + 1) =~= trim_all(texts(ps@)).take(i as int).push(
                trim(ps@[i as int]@),
            ));
        }
        r.push(t);
        i += 1;
    }
    assert(trim_all(texts(ps@)).take(ps.len() as int) =~= trim_all(texts(ps@)));
    r
}

/// Index of the first keyword that `t` starts with.
fn first_prim(t: &Vec<char>) -> (r: Option<usize>)
    ensures
        match r {
            Some(j) => j < N_PRIMITIVES && first_prim_from(t@, 0) == Some(j as int),
            None => first_prim_from(t@, 0) is None,
        },
{
    let mut i: usize = 0;
    while i < N_PRIMITIVES
        invariant
            i <= N_PRIMITIVES,
            first_prim_from(t@, 0) == first_prim_from(t@, i as int),
        decreases N_PRIMITIVES - i,
    {
        let k = prim_chars(i);
        if has_prefix(t, &k) {
            return Some(i);
        }
        i += 1;
    }
    None
}

/// `port_set(t)` as a vector of names.
pub fn port_names(t: &Vec<char>) -> (r: Vec<Vec<char>>)
    ensures
        texts(r@).to_set() == port_set(t@),
{
    let mut r: Vec<Vec<char>> = Vec::new();
    match (find_char(t, '('), rfind_char(t, ')')) {
        (Some(a), Some(b)) => {
            proof {
                crate::text::lemma_find_range(t@, '(');
                crate::text::lemma_rfind_range(t@, ')');
            }
            if b > a {
                let inner = slice_of(t, a + 1, b);
                let pieces = trim_each(&split_on(&inner, ','));
                let ghost all = trim_all(split(t@.subrange(a + 1, b as int), ','));
                let mut i: usize = 0;
                while i < pieces.len()
                    invariant
                        i <= pieces.len(),
                        texts(pieces@) == all,
                        texts(r@).to_set() == all.take(i as int).to_set().filter(
                            |x: Seq<char>| x.len() > 0,
                        ),
                    decreases pieces.len() - i,
                {
                    let ghost before = texts(r@);
                    proof {
                        assert(all.take(i + 1) =~= all.take(i as int).push(all[i as int]));
                        assert(all[i as int] == pieces@[i as int]@);
                    }
                    if pieces[i].len() > 0 {
                        let p = slice_of(&pieces[i], 0, pieces[i].len());
                        proof {
                            assert(p@ =~= pieces@[i as int]@);
                            assert(texts(r@.push(p)) =~= before.push(p@));
                            before.lemma_push_to_set_commute(p@);
                            all.take(i as int).lemma_push_to_set_commute(all[i as int]);
                            assert(all.take(i + 1).to_set().filter(|x: Seq<char>| x.len() > 0)
                                =~= all.take(i as int).to_set().filter(|x: Seq<char>| x.len() > 0).insert(
                                p@,
                            ));
                        }
                        r.push(p);
                    } else {
                        proof {
                            all.take(i as int).lemma_push_to_set_commute(all[i as int]);
                        }
                        assert(all.take(i + 1).to_set().filter(|x: Seq<char>| x.len() > 0)
                            =~= all.take(i as int).to_set().filter(|x: Seq<char>| x.len() > 0));
                    }
                    i += 1;
                }
                assert(all.take(pieces.len() as int) =~= all);
            } else {
                assert(texts(r@).to_set() =~= Set::<Seq<char>>::empty());
            }
        },
        _ => {
            assert(texts(r@).to_set() =~= Set::<Seq<char>>::empty());
        },
    }
    r
}

/// `strip_semis(s)` as a new vector.
fn without_semis(s: &Vec<char>) -> (r: Vec<char>)
    ensures
        r@ == strip_semis(s@),
{
    let mut e = s.len();
    assert(s@.take(s.len() as int) =~= s@);
    while e > 0 && s[e - 1] == ';'
        invariant
            e <= s.len(),
            strip_semis(s@) == strip_semis(s@.take(e as int)),
        decreases e,
    {
        assert(s@.take(e as int).drop_last() =~= s@.take(e - 1));
        e -= 1;
    }
    assert(s@.take(s.len() as int) =~= s@);
    slice_of(s, 0, e)
}

/// `wire_set(t)` as a vector of names.
pub fn wire_names(t: &Vec<char>) -> (r: Vec<Vec<char>>)
    requires
        t.len() >= 4,
    ensures
        texts(r@).to_set() == wire_set(t@),
{
    let decl = without_semis(&trimmed(&slice_of(t, 4, t.len())));
    assert(t@.subrange(4, t.len() as int) =~= t@.skip(4));
    trim_each(&split_on(&decl, ','))
}

/// Whether `line` is one that the conversion handles without panicking.
pub fn line_is_ok(line: &Vec<char>) -> (r: bool)
    ensures
        r == line_ok(line@),
{
    let t = trimmed(line);
    if has_prefix(&t, &chars_of("`timescale")) || has_prefix(&t, &chars_of("module ")) || has_prefix(
        &t,
        &chars_of("wire "),
    ) || has_prefix(&t, &chars_of("wire\t")) {
        return true;
    }
    let j = match first_prim(&t) {
        Some(j) => j,
        None => {
            return true;
        },
    };
    let k = prim_chars(j);
    proof {
        lemma_first_prim(t@, 0);
    }
    let rt = trimmed_start(&slice_of(&t, k.len(), t.len()));
    assert(t@.subrange(k.len() as int, t.len() as int) =~= t@.skip(prim(j as int).len() as int));
    let close = match rfind_char(&rt, ')') {
        Some(b) => b,
        None => rt.len(),
    };
    proof {
        crate::text::lemma_find_range(rt@, '(');
        crate::text::lemma_rfind_range(rt@, ')');
        if let Some(b) = rfind(rt@, ')') {
            if rt@.len() > 0 && rt@[0] == '(' {
                assert(b != 0);
            }
        }
    }
    if rt.len() == 0 || rt[0] != '(' {
        match find_char(&rt, '(') {
            Some(a) => a + 1 <= close,
            None => true,
        }
    } else {
        let args = split_on(&slice_of(&rt, 1, close), ',');
        assert(texts(args@).len() == args@.len());
        args.len() <= 28
    }
}

/// What one input line contributes to the conversion.
pub enum LineOutcome {
    /// A `` `timescale`` line, dropped.
    Dropped,
    /// A module header, kept, with its port names.
    Module(Vec<Vec<char>>),
    /// A wire declaration, kept, with the names it declares.
    Wire(Vec<Vec<char>>),
    /// Any other line that is kept as it is, with the net it drives.
    Kept(Option<Vec<char>>),
    /// A gate primitive: its replacement and the net it drives.
    Gate(Vec<char>, Vec<char>),
}

/// The port connections of a gate, appended to `out`.
fn push_ports(out: &mut Vec<char>, ins: &Vec<Vec<char>>, net: &Vec<char>)
    requires
        ins.len() <= 27,
    ensures
        final(out)@ == old(out)@ + port_list(texts(ins@), net@),
{
    let ghost base = out@;
    let mut i: usize = 0;
    while i < ins.len()
        invariant
            i <= ins.len() <= 27,
            out@ == base + in_ports(texts(ins@).take(i as int)),
        decreases ins.len() - i,
    {
        let ghost before = out@;
        if i > 0 {
            out.push(',');
            out.push(' ');
        }
        out.push('.');
        out.push(input_label(i));
        out.push('(');
        append_chars(out, &ins[i]);
        out.push(')');
        proof {
            let t = texts(ins@).take(i + 1);
            assert(t.drop_last() =~= texts(ins@).take(i as int));
            assert(t.last() == ins@[i as int]@);
            assert(out@ =~= before + (if i > 0 {
                seq![',', ' ']
            } else {
                Seq::empty()
            }) + seq!['.', label(i as int), '('] + ins@[i as int]@ + seq![')']);
        }
        i += 1;
    }
    assert(texts(ins@).take(ins.len() as int) =~= texts(ins@));
    let ghost mid = out@;
    if ins.len() > 0 {
        out.push(',');
        out.push(' ');
    }
    out.push('.');
    out.push('Y');
    out.push('(');
    append_chars(out, net);
    out.push(')');
    assert(out@ =~= mid + (if ins.len() > 0 {
        seq![',', ' ']
    } else {
        Seq::empty()
    }) + seq!['.', 'Y', '('] + net@ + seq![')']);
}

/// Classifies one line and computes what it becomes.
pub fn convert_line(line: &Vec<char>) -> (r: LineOutcome)
    requires
        line_ok(line@),
    ensures
        match r {
            LineOutcome::Dropped => line_is_timescale(line@),
            LineOutcome::Module(ps) => line_is_module(line@) && texts(ps@).to_set() == port_set(
                trim(line@),
            ),
            LineOutcome::Wire(ns) => line_is_wire(line@) && texts(ns@).to_set() == wire_set(
                trim(line@),
            ),
            LineOutcome::Kept(d) => {
                &&& !line_is_timescale(line@)
                &&& !line_is_module(line@)
                &&& !line_is_wire(line@)
                &&& !line_is_gate(line@)
                &&& opt_text(d) == line_driven(line@)
            },
            LineOutcome::Gate(o, n) => {
                &&& line_is_gate(line@)
                &&& o@ == gate_text(line@)
                &&& Some(n@) == line_driven(line@)
            },
        },
{
    let t = trimmed(line);
    if has_prefix(&t, &chars_of("`timescale")) {
        return LineOutcome::Dropped;
    }
    if has_prefix(&t, &chars_of("module ")) {
        return LineOutcome::Module(port_names(&t));
    }
    if has_prefix(&t, &chars_of("wire ")) || has_prefix(&t, &chars_of("wire\t")) {
        proof {
            reveal_strlit("wire ");
            reveal_strlit("wire\t");
        }
        return LineOutcome::Wire(wire_names(&t));
    }
    let j = match first_prim(&t) {
        Some(j) => j,
        None => {
            return LineOutcome::Kept(None);
        },
    };
    let k = prim_chars(j);
    proof {
        lemma_first_prim(t@, 0);
    }
    let rt = trimmed_start(&slice_of(&t, k.len(), t.len()));
    assert(t@.subrange(k.len() as int, t.len() as int) =~= t@.skip(prim(j as int).len() as int));
    let close = match rfind_char(&rt, ')') {
        Some(b) => b,
        None => rt.len(),
    };
    if rt.len() == 0 || rt[0] != '(' {
        match find_char(&rt, '(') {
            Some(a) => {
                proof {
                    crate::text::lemma_find_range(rt@, '(');
                    crate::text::lemma_rfind_range(rt@, ')');
                }
                let pieces = split_on(&slice_of(&rt, a + 1, close), ',');
                proof {
                    lemma_split_nonempty(rt@.subrange(a + 1, close as int), ',');
                }
                let first = trimmed(&pieces[0]);
                return LineOutcome::Kept(Some(first));
            },
            None => {
                return LineOutcome::Kept(None);
            },
        }
    }
    proof {
        crate::text::lemma_rfind_range(rt@, ')');
        if let Some(b) = rfind(rt@, ')') {
            assert(b != 0);
        }
    }
    let args = trim_each(&split_on(&slice_of(&rt, 1, close), ','));
    proof {
        lemma_split_nonempty(rt@.subrange(1, close as int), ',');
    }
    let n_in = args.len() - 1;
    let mut ins: Vec<Vec<char>> = Vec::new();
    let mut i: usize = 1;
    while i < args.len()
        invariant
            1 <= i <= args.len(),
            texts(ins@) == texts(args@).subrange(1, i as int),
        decreases args.len() - i,
    {
        let a = slice_of(&args[i], 0, args[i].len());
        proof {
            assert(a@ =~= args@[i as int]@);
            assert(texts(ins@.push(a)) =~= texts(ins@).push(a@));
            assert(texts(args@).subrange(1, i + 1) =~= texts(args@).subrange(1, i as int).push(
                texts(args@)[i as int],
            ));
        }
        ins.push(a);
        i += 1;
    }
    assert(texts(ins@) =~= texts(args@).drop_first());
    let net = slice_of(&args[0], 0, args[0].len());
    assert(net@ =~= texts(args@)[0]);
    let mut out = indent_of(line);
    append_chars(&mut out, &cell_chars(j, n_in));
    out.push(' ');
    out.push('g');
    out.push('_');
    append_chars(&mut out, &net);
    out.push(' ');
    out.push('(');
    push_ports(&mut out, &ins, &net);
    out.push(')');
    out.push(';');
    let ghost g = gate_text(line@);
    assert(out@ =~= g);
    LineOutcome::Gate(out, net)
}

} // verus!

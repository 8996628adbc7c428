//! The ISCAS-85 preprocessor: rewrites anonymous Verilog gate primitives
//! (`nand (N10, N1, N3);`) as named module instantiations
//! (`NAND2 g_N10 (.A(N1), .B(N3), .Y(N10));`), declares the internal nets
//! they drive, and drops `` `timescale`` directives.
use vstd::prelude::*;
use crate::convert::{
    convert_line, line_driven, line_is_gate, line_is_module, line_is_timescale, line_is_wire,
    line_ok, out_line, port_names, port_set, wire_set, LineOutcome,
};
use crate::nets::{
    contains_text, insert_sorted, join, join_texts, lemma_sorted_len,
    lemma_sorted_unique, lex_lt, strictly_sorted,
};
use crate::text::{
    append_chars, chars_of, lines, same_chars, slice_of, split_lines, string_of, texts, trim,
    trimmed,
};

verus! {

/// The names declared once all of `ls` has been read: the ports of the
/// last module header, and the wires declared after it.
pub open spec fn declared_after(ls: Seq<Seq<char>>) -> Set<Seq<char>>
    decreases ls.len(),
{
    if ls.len() == 0 {
        Set::empty()
    } else {
        let d = declared_after(ls.drop_last());
        let l = ls.last();
        if line_is_module(l) {
            port_set(trim(l))
        } else if line_is_wire(l) {
            d.union(wire_set(trim(l)))
        } else {
            d
        }
    }
}

/// The nets that the gates and instances of `ls` drive.
pub open spec fn driven_after(ls: Seq<Seq<char>>) -> Set<Seq<char>>
    decreases ls.len(),
{
    if ls.len() == 0 {
        Set::empty()
    } else {
        let d = driven_after(ls.drop_last());
        match line_driven(ls.last()) {
            Some(n) => d.insert(n),
            None => d,
        }
    }
}

/// The lines written for `ls`: every line but the `` `timescale`` ones,
/// gate primitives rewritten.
pub open spec fn out_lines(ls: Seq<Seq<char>>) -> Seq<Seq<char>>
    decreases ls.len(),
{
    if ls.len() == 0 {
        Seq::empty()
    } else if line_is_timescale(ls.last()) {
        out_lines(ls.drop_last())
    } else {
        out_lines(ls.drop_last()).push(out_line(ls.last()))
    }
}

/// Number of gate primitives in `ls`.
pub open spec fn converted_count(ls: Seq<Seq<char>>) -> nat
    decreases ls.len(),
{
    if ls.len() == 0 {
        0
    } else {
        converted_count(ls.drop_last()) + (if line_is_gate(ls.last()) {
            1nat
        } else {
            0nat
        })
    }
}

/// Driven nets that nothing declares.
pub open spec fn undeclared(ls: Seq<Seq<char>>) -> Set<Seq<char>> {
    driven_after(ls).difference(declared_after(ls))
}

/// The undeclared nets in lexicographic order.
pub open spec fn sorted_undeclared(ls: Seq<Seq<char>>) -> Seq<Seq<char>> {
    choose|u: Seq<Seq<char>>| strictly_sorted(u) && u.to_set() == undeclared(ls)
}

/// The wire declaration for the nets `u`: `    wire a, b;`.
pub open spec fn wire_decl(u: Seq<Seq<char>>) -> Seq<char> {
    "    wire "@ + join(u, ", "@) + ";"@
}

/// The output text: each line followed by a newline, the wire declaration
/// (when `u` is not empty) on its own line before every `endmodule`.
pub open spec fn render(outs: Seq<Seq<char>>, u: Seq<Seq<char>>) -> Seq<char>
    decreases outs.len(),
{
    if outs.len() == 0 {
        Seq::empty()
    } else {
        let l = outs.last();
        render(outs.drop_last(), u) + (if trim(l) == "endmodule"@ && u.len() > 0 {
            wire_decl(u) + seq!['\n']
        } else {
            Seq::empty()
        }) + l + seq!['\n']
    }
}

/// The text that the preprocessor writes for `src`.
pub open spec fn processed_text(src: Seq<char>) -> Seq<char> {
    render(out_lines(lines(src)), sorted_undeclared(lines(src)))
}

/// Every line of `src` is one that the conversion handles.
pub open spec fn source_ok(src: Seq<char>) -> bool {
    forall|i: int| 0 <= i < lines(src).len() ==> line_ok(#[trigger] lines(src)[i])
}

/// The result of preprocessing one file.
pub struct ProcessedFile {
    /// The rewritten file.
    pub content: String,
    /// Lines converted from gate primitive to module instantiation.
    pub converted: usize,
    /// Wire declarations inserted.
    pub wires_added: usize,
}

/// The character sequences of a vector of strings.
pub open spec fn strings(v: Seq<String>) -> Seq<Seq<char>> {
    v.map_values(|x: String| x@)
}

/// Port names from a module header `module foo (A, B, Y);`: the distinct
/// non-empty trimmed names between the first `(` and the last `)`.
pub fn extract_ports(line: &str) -> (r: Vec<String>)
    ensures
        strings(r@).no_duplicates(),
        strings(r@).to_set() == port_set(line@),
{
    let names = port_names(&chars_of(line));
    let mut r: Vec<String> = Vec::new();
    let mut seen: Vec<Vec<char>> = Vec::new();
    let mut i: usize = 0;
    while i < names.len()
        invariant
            i <= names.len(),
            texts(seen@) == strings(r@),
            strings(r@).no_duplicates(),
            strings(r@).to_set() == texts(names@).take(i as int).to_set(),
        decreases names.len() - i,
    {
        let ghost before = strings(r@);
        proof {
            assert(texts(names@).take(i + 1) =~= texts(names@).take(i as int).push(names@[i as int]@));
            texts(names@).take(i as int).lemma_push_to_set_commute(names@[i as int]@);
        }
        if !contains_text(&seen, &names[i]) {
            let n = slice_of(&names[i], 0, names[i].len());
            let s = string_of(&n);
            proof {
                assert(n@ =~= names@[i as int]@);
                assert(strings(r@.push(s)) =~= before.push(n@));
                assert(texts(seen@.push(n)) =~= before.push(n@));
                before.lemma_push_to_set_commute(n@);
            }
            seen.push(n);
            r.push(s);
        } else {
            assert(before.to_set().insert(names@[i as int]@) =~= before.to_set());
        }
        i += 1;
    }
    assert(texts(names@).take(names.len() as int) =~= texts(names@));
    r
}

/// Whether every line of `src` can be converted without panicking.
pub fn accepts(src: &str) -> (r: bool)
    ensures
        r == source_ok(src@),
{
    let text = chars_of(src);
    let ls = split_lines(&text);
    let mut i: usize = 0;
    while i < ls.len()
        invariant
            i <= ls.len(),
            texts(ls@) == lines(src@),
            forall|k: int| 0 <= k < i ==> line_ok(#[trigger] lines(src@)[k]),
        decreases ls.len() - i,
    {
        assert(texts(ls@)[i as int] == ls@[i as int]@);
        if !crate::convert::line_is_ok(&ls[i]) {
            return false;
        }
        i += 1;
    }
    true
}

/// Adds the names of `names` to `declared`.
fn declare_all(declared: &mut Vec<Vec<char>>, names: Vec<Vec<char>>)
    ensures
        texts(final(declared)@).to_set() == texts(old(declared)@).to_set().union(
            texts(names@).to_set(),
        ),
{
    let ghost base = texts(declared@).to_set();
    let mut i: usize = 0;
    while i < names.len()
        invariant
            i <= names.len(),
            texts(declared@).to_set() == base.union(texts(names@).take(i as int).to_set()),
        decreases names.len() - i,
    {
        let n = slice_of(&names[i], 0, names[i].len());
        proof {
            let before = texts(declared@);
            assert(n@ =~= names@[i as int]@);
            assert(texts(declared@.push(n)) =~= before.push(n@));
            before.lemma_push_to_set_commute(n@);
            let t = texts(names@).take(i as int);
            assert(texts(names@).take(i + 1) =~= t.push(n@));
            t.lemma_push_to_set_commute(n@);
            assert(base.union(t.to_set()).insert(n@) =~= base.union(t.to_set().insert(n@)));
        }
        declared.push(n);
        i += 1;
    }
    assert(texts(names@).take(names.len() as int) =~= texts(names@));
}

/// The nets of the strictly sorted `driven` that `declared` does not hold,
/// in the same order.
fn not_declared(driven: &Vec<Vec<char>>, declared: &Vec<Vec<char>>) -> (u: Vec<Vec<char>>)
    requires
        strictly_sorted(texts(driven@)),
    ensures
        strictly_sorted(texts(u@)),
        texts(u@).to_set() == texts(driven@).to_set().difference(texts(declared@).to_set()),
{
    let ghost dv = texts(driven@);
    let ghost dc = texts(declared@).to_set();
    let mut u: Vec<Vec<char>> = Vec::new();
    let mut k: usize = 0;
    while k < driven.len()
        invariant
            k <= driven.len(),
            dv == texts(driven@),
            dc == texts(declared@).to_set(),
            strictly_sorted(dv),
            strictly_sorted(texts(u@)),
            texts(u@).to_set() == dv.take(k as int).to_set().difference(dc),
            forall|p: int|
                0 <= p < u.len() ==> exists|m: int| 0 <= m < k && #[trigger] texts(u@)[p] == dv[m],
        decreases driven.len() - k,
    {
        let ghost before = texts(u@);
        proof {
            dv.take(k as int).lemma_push_to_set_commute(dv[k as int]);
            assert(dv.take(k + 1) =~= dv.take(k as int).push(dv[k as int]));
        }
        if !contains_text(declared, &driven[k]) {
            let n = slice_of(&driven[k], 0, driven[k].len());
            proof {
                assert(n@ =~= dv[k as int]);
                assert(texts(u@.push(n)) =~= before.push(n@));
                before.lemma_push_to_set_commute(n@);
                assert(before.push(n@).to_set() =~= dv.take(k + 1).to_set().difference(dc));
                assert forall|p: int, q: int|
                    0 <= p < q < before.len() + 1 implies lex_lt(
                    #[trigger] before.push(n@)[p],
                    #[trigger] before.push(n@)[q],
                ) by {
                    if q == before.len() {
                        let m = choose|m: int| 0 <= m < k && #[trigger] before[p] == dv[m];
                        assert(lex_lt(dv[m], dv[k as int]));
                    }
                }
                assert forall|p: int| 0 <= p < before.len() + 1 implies exists|m: int|
                    0 <= m < k + 1 && #[trigger] before.push(n@)[p] == dv[m] by {
                    if p < before.len() {
                        let m = choose|m: int| 0 <= m < k && #[trigger] before[p] == dv[m];
                        assert(before.push(n@)[p] == dv[m]);
                    } else {
                        assert(before.push(n@)[p] == dv[k as int]);
                    }
                }
            }
            u.push(n);
        } else {
            assert(texts(u@).to_set() =~= dv.take(k + 1).to_set().difference(dc));
        }
        k += 1;
    }
    assert(dv.take(driven.len() as int) =~= dv);
    u
}

/// Appends the output for `outs[..]` to `acc`, the wire declaration `decl`
/// before every `endmodule` when `u` is not empty.
fn render_into(outs: &Vec<Vec<char>>, u: &Vec<Vec<char>>) -> (r: Vec<char>)
    ensures
        r@ == render(texts(outs@), texts(u@)),
{
    let mut decl = chars_of("    wire ");
    append_chars(&mut decl, &join_texts(u, &chars_of(", ")));
    append_chars(&mut decl, &chars_of(";"));
    decl.push('\n');
    let endm = chars_of("endmodule");
    let mut acc: Vec<char> = Vec::new();
    let mut i: usize = 0;
    while i < outs.len()
        invariant
            i <= outs.len(),
            decl@ == wire_decl(texts(u@)) + seq!['\n'],
            endm@ == "endmodule"@,
            acc@ == render(texts(outs@).take(i as int), texts(u@)),
        decreases outs.len() - i,
    {
        let ghost before = acc@;
        let l = &outs[i];
        if u.len() > 0 && same_chars(&trimmed(l), &endm) {
            append_chars(&mut acc, &decl);
        }
        append_chars(&mut acc, l);
        acc.push('\n');
        proof {
            let t = texts(outs@).take(i + 1);
            assert(t.drop_last() =~= texts(outs@).take(i as int));
            assert(t.last() == l@);
            assert(acc@ =~= render(t, texts(u@)));
        }
        i += 1;
    }
    assert(texts(outs@).take(outs.len() as int) =~= texts(outs@));
    acc
}

/// Preprocesses one gate-level Verilog file:
/// 1. every anonymous gate primitive `nand (N10, N1, N3);` becomes
///    `NAND2 g_N10 (.A(N1), .B(N3), .Y(N10));` (sized cell type where one
///    exists, instance `g_<out>`, inputs on `A`, `B`, ..., output on `Y`);
/// 2. the nets those gates drive that neither the ports of the module nor
///    a wire declaration name are declared before `endmodule`, in sorted
///    order;
/// 3. `` `timescale`` directives are removed.
pub fn process(src: &str) -> (r: ProcessedFile)
    requires
        source_ok(src@),
    ensures
        r.content@ == processed_text(src@),
        r.converted == converted_count(lines(src@)),
        r.wires_added == undeclared(lines(src@)).len(),
{
    let text = chars_of(src);
    let ls = split_lines(&text);
    let ghost all = lines(src@);
    let mut declared: Vec<Vec<char>> = Vec::new();
    let mut driven: Vec<Vec<char>> = Vec::new();
    let mut outs: Vec<Vec<char>> = Vec::new();
    let mut converted: usize = 0;
    let mut i: usize = 0;
    assert(all.take(0) =~= Seq::<Seq<char>>::empty());
    assert(texts(declared@).to_set() =~= Set::<Seq<char>>::empty());
    assert(texts(outs@) =~= Seq::<Seq<char>>::empty());
    while i < ls.len()
        invariant
            i <= ls.len(),
            texts(ls@) == all,
            all == lines(src@),
            source_ok(src@),
            texts(declared@).to_set() == declared_after(all.take(i as int)),
            strictly_sorted(texts(driven@)),
            texts(driven@).to_set() == driven_after(all.take(i as int)),
            texts(outs@) == out_lines(all.take(i as int)),
            converted == converted_count(all.take(i as int)),
            converted <= i,
        decreases ls.len() - i,
    {
        let line = &ls[i];
        let ghost l = all[i as int];
        let ghost pre = all.take(i as int);
        proof {
            assert(line@ == l);
            assert(all.take(i + 1).drop_last() =~= pre);
            assert(all.take(i + 1).last() == l);
        }
        match convert_line(line) {
            LineOutcome::Dropped => {
                assert(out_lines(all.take(i + 1)) == out_lines(pre));
            },
            LineOutcome::Module(ports) => {
                declared = ports;
                let kept = slice_of(line, 0, line.len());
                assert(texts(outs@.push(kept)) =~= texts(outs@).push(kept@));
                assert(kept@ =~= out_line(l));
                outs.push(kept);
            },
            LineOutcome::Wire(names) => {
                declare_all(&mut declared, names);
                let kept = slice_of(line, 0, line.len());
                assert(texts(outs@.push(kept)) =~= texts(outs@).push(kept@));
                assert(kept@ =~= out_line(l));
                outs.push(kept);
            },
            LineOutcome::Kept(d) => {
                match d {
                    Some(n) => {
                        insert_sorted(&mut driven, n);
                    },
                    None => {},
                }
                let kept = slice_of(line, 0, line.len());
                assert(texts(outs@.push(kept)) =~= texts(outs@).push(kept@));
                assert(kept@ =~= out_line(l));
                outs.push(kept);
            },
            LineOutcome::Gate(o, n) => {
                insert_sorted(&mut driven, n);
                assert(texts(outs@.push(o)) =~= texts(outs@).push(o@));
                outs.push(o);
                converted += 1;
            },
        }
        i += 1;
    }
    assert(all.take(ls.len() as int) =~= all);
    let u = not_declared(&driven, &declared);
    proof {
        assert(texts(u@).to_set() =~= undeclared(all));
        let c = sorted_undeclared(all);
        lemma_sorted_unique(c, texts(u@));
        lemma_sorted_len(texts(u@));
    }
    let content = string_of(&render_into(&outs, &u));
    ProcessedFile { content, converted, wires_added: u.len() }
}

} // verus!

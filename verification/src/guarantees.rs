//! Properties of the preprocessor's output as a whole, stated over the
//! lines of the text it writes.
use vstd::prelude::*;
use crate::convert::{
    after_keyword, first_prim_from, gate_args, gate_text, in_ports, indent, lemma_first_prim, line_driven, line_is_gate,
    line_is_timescale, line_ok, line_prim, out_line,
    port_list, close_of,
};
use crate::gates::{cell_name_for, label, prim};
use crate::nets::{join, lemma_sorted_exists, strictly_sorted};
use crate::preprocess::{
    declared_after, driven_after, out_lines, processed_text, render, sorted_undeclared,
    source_ok, undeclared, wire_decl,
};
use crate::text::{
    concat_nl, is_ws, lead_ws, lemma_first_non_ws, lemma_lead_ws, lemma_lead_ws_bound,
    lemma_lines_concat_nl, lemma_lines_no_nl, lemma_split_no_nl, lemma_trim_no_nl,
    lemma_trim_strip_cr, lemma_ws_prefix, lines, no_nl, split, starts_with, strip_cr, trim,
    trim_start, trail_ws, lemma_trail_stop,
};

verus! {

/// The lines of the output before they are joined: each written line, and
/// the wire declaration before every `endmodule` when `u` is not empty.
pub open spec fn out_pieces(outs: Seq<Seq<char>>, u: Seq<Seq<char>>) -> Seq<Seq<char>>
    decreases outs.len(),
{
    if outs.len() == 0 {
        Seq::empty()
    } else {
        let l = outs.last();
        out_pieces(outs.drop_last(), u) + (if trim(l) == "endmodule"@ && u.len() > 0 {
            seq![wire_decl(u)]
        } else {
            Seq::empty()
        }) + seq![l]
    }
}

proof fn lemma_concat_nl_push(ps: Seq<Seq<char>>, p: Seq<char>)
    ensures
        concat_nl(ps.push(p)) == concat_nl(ps) + p + seq!['\n'],
{
    assert(ps.push(p).drop_last() =~= ps);
}

pub proof fn lemma_render_pieces(outs: Seq<Seq<char>>, u: Seq<Seq<char>>)
    ensures
        render(outs, u) == concat_nl(out_pieces(outs, u)),
    decreases outs.len(),
{
    if outs.len() > 0 {
        lemma_render_pieces(outs.drop_last(), u);
        let l = outs.last();
        let p = out_pieces(outs.drop_last(), u);
        if trim(l) == "endmodule"@ && u.len() > 0 {
            lemma_concat_nl_push(p, wire_decl(u));
            assert(p + seq![wire_decl(u)] + seq![l] =~= p.push(wire_decl(u)).push(l));
            lemma_concat_nl_push(p.push(wire_decl(u)), l);
            assert(render(outs, u) =~= concat_nl(out_pieces(outs, u)));
        } else {
            assert(p + Seq::<Seq<char>>::empty() + seq![l] =~= p.push(l));
            lemma_concat_nl_push(p, l);
            assert(render(outs, u) =~= concat_nl(out_pieces(outs, u)));
        }
    }
}

/// Every piece is the wire declaration or one of the written lines.
pub proof fn lemma_piece_origin(outs: Seq<Seq<char>>, u: Seq<Seq<char>>)
    ensures
        forall|k: int|
            0 <= k < out_pieces(outs, u).len() ==> #[trigger] out_pieces(outs, u)[k] == wire_decl(u)
                || outs.contains(out_pieces(outs, u)[k]),
    decreases outs.len(),
{
    if outs.len() > 0 {
        lemma_piece_origin(outs.drop_last(), u);
        let p = out_pieces(outs.drop_last(), u);
        assert forall|k: int| 0 <= k < out_pieces(outs, u).len() implies #[trigger] out_pieces(
            outs,
            u,
        )[k] == wire_decl(u) || outs.contains(out_pieces(outs, u)[k]) by {
            let x = out_pieces(outs, u)[k];
            if k < p.len() {
                assert(x == p[k]);
                if outs.drop_last().contains(x) {
                    let i = choose|i: int| 0 <= i < outs.drop_last().len() && outs.drop_last()[i] == x;
                    assert(outs[i] == x);
                }
            } else if k == out_pieces(outs, u).len() - 1 {
                assert(x == outs.last());
                assert(outs[outs.len() - 1] == x);
            }
        }
    }
}

/// Every written line is what a kept input line becomes.
pub proof fn lemma_out_origin(ls: Seq<Seq<char>>)
    ensures
        forall|k: int|
            0 <= k < out_lines(ls).len() ==> exists|i: int|
                0 <= i < ls.len() && !line_is_timescale(#[trigger] ls[i]) && #[trigger] out_lines(ls)[k]
                    == out_line(ls[i]),
    decreases ls.len(),
{
    if ls.len() > 0 {
        lemma_out_origin(ls.drop_last());
        let o = out_lines(ls.drop_last());
        assert forall|k: int| 0 <= k < out_lines(ls).len() implies exists|i: int|
            0 <= i < ls.len() && !line_is_timescale(#[trigger] ls[i]) && #[trigger] out_lines(ls)[k]
                == out_line(ls[i]) by {
            if k < o.len() {
                assert(out_lines(ls)[k] == o[k]);
                let i = choose|i: int|
                    0 <= i < ls.drop_last().len() && !line_is_timescale(#[trigger] ls.drop_last()[i])
                        && #[trigger] o[k] == out_line(ls.drop_last()[i]);
                assert(ls[i] == ls.drop_last()[i]);
            } else {
                assert(out_lines(ls)[k] == out_line(ls[ls.len() - 1]));
            }
        }
    }
}


/// Facts about the table of gate primitives: each name has at least two
/// characters, all lower-case letters, and none is a prefix of another.
pub proof fn lemma_prim_table(i: int)
    requires
        0 <= i < 8,
    ensures
        prim(i).len() >= 2,
        forall|c: int| 0 <= c < prim(i).len() ==> 'a' <= #[trigger] prim(i)[c] <= 'z',
        forall|j: int| 0 <= j < 8 && starts_with(prim(j), prim(i)) ==> j == i,
{
    reveal_strlit("nand");
    reveal_strlit("and");
    reveal_strlit("nor");
    reveal_strlit("or");
    reveal_strlit("xor");
    reveal_strlit("xnor");
    reveal_strlit("not");
    reveal_strlit("buf");
    assert forall|j: int| 0 <= j < 8 && starts_with(prim(j), prim(i)) implies j == i by {
        if j != i {
            assert(prim(j).take(prim(i).len() as int)[0] == prim(i)[0]);
            assert(prim(j).take(prim(i).len() as int)[1] == prim(i)[1]);
            if prim(i).len() > 2 {
                assert(prim(j).take(prim(i).len() as int)[2] == prim(i)[2]);
            }
        }
    }
}

/// Facts about the cell type names: each starts with an upper-case
/// letter and holds only upper-case letters and digits.
pub proof fn lemma_cell_names(i: int, n: int)
    requires
        0 <= i < 8,
    ensures
        cell_name_for(i, n).len() > 0,
        'A' <= cell_name_for(i, n)[0] <= 'Z',
        forall|c: int|
            0 <= c < cell_name_for(i, n).len() ==> ('A' <= #[trigger] cell_name_for(i, n)[c] <= 'Z'
                || '0' <= cell_name_for(i, n)[c] <= '9'),
{
    reveal_strlit("NAND2");
    reveal_strlit("NAND3");
    reveal_strlit("NAND4");
    reveal_strlit("NAND");
    reveal_strlit("AND2");
    reveal_strlit("AND3");
    reveal_strlit("AND4");
    reveal_strlit("AND");
    reveal_strlit("NOR2");
    reveal_strlit("NOR3");
    reveal_strlit("NOR4");
    reveal_strlit("NOR");
    reveal_strlit("OR2");
    reveal_strlit("OR3");
    reveal_strlit("OR4");
    reveal_strlit("OR");
    reveal_strlit("XOR2");
    reveal_strlit("XOR");
    reveal_strlit("XNOR2");
    reveal_strlit("XNOR");
    reveal_strlit("NOT");
    reveal_strlit("BUF");
}

proof fn lemma_sub_no_nl(s: Seq<char>, a: int, b: int)
    requires
        no_nl(s),
        0 <= a <= b <= s.len(),
    ensures
        no_nl(s.subrange(a, b)),
        no_nl(s.take(b)),
        no_nl(s.skip(a)),
{
    assert forall|i: int| 0 <= i < b - a implies #[trigger] s.subrange(a, b)[i] != '\n' by {
        assert(s.subrange(a, b)[i] == s[a + i]);
    }
    assert forall|i: int| 0 <= i < b implies #[trigger] s.take(b)[i] != '\n' by {
        assert(s.take(b)[i] == s[i]);
    }
    assert forall|i: int| 0 <= i < s.len() - a implies #[trigger] s.skip(a)[i] != '\n' by {
        assert(s.skip(a)[i] == s[a + i]);
    }
}

proof fn lemma_concat_no_nl(a: Seq<char>, b: Seq<char>)
    requires
        no_nl(a),
        no_nl(b),
    ensures
        no_nl(a + b),
{
    assert forall|i: int| 0 <= i < (a + b).len() implies #[trigger] (a + b)[i] != '\n' by {
        if i < a.len() {
            assert((a + b)[i] == a[i]);
        } else {
            assert((a + b)[i] == b[i - a.len()]);
        }
    }
}

proof fn lemma_in_ports_no_nl(ins: Seq<Seq<char>>)
    requires
        ins.len() <= 27,
        forall|k: int| 0 <= k < ins.len() ==> no_nl(#[trigger] ins[k]),
    ensures
        no_nl(in_ports(ins)),
    decreases ins.len(),
{
    if ins.len() > 0 {
        let d = ins.drop_last();
        assert forall|k: int| 0 <= k < d.len() implies no_nl(#[trigger] d[k]) by {
            assert(d[k] == ins[k]);
        }
        lemma_in_ports_no_nl(d);
        assert(label(ins.len() - 1) != '\n');
        let sep: Seq<char> = if ins.len() > 1 {
            seq![',', ' ']
        } else {
            Seq::empty()
        };
        assert(no_nl(sep));
        assert(no_nl(seq!['.', label(ins.len() - 1), '(']));
        assert(no_nl(ins.last()));
        lemma_concat_no_nl(in_ports(d), sep);
        lemma_concat_no_nl(in_ports(d) + sep, seq!['.', label(ins.len() - 1), '(']);
        lemma_concat_no_nl(in_ports(d) + sep + seq!['.', label(ins.len() - 1), '('], ins.last());
        lemma_concat_no_nl(
            in_ports(d) + sep + seq!['.', label(ins.len() - 1), '('] + ins.last(),
            seq![')'],
        );
    }
}

/// The nets of a gate line hold no line feed.
proof fn lemma_gate_args_no_nl(l: Seq<char>)
    requires
        no_nl(l),
        line_is_gate(l),
    ensures
        no_nl(after_keyword(l, line_prim(l).unwrap())),
        forall|k: int| 0 <= k < gate_args(l).len() ==> no_nl(#[trigger] gate_args(l)[k]),
{
    let j = line_prim(l).unwrap();
    lemma_trim_no_nl(l);
    let t = trim(l);
    lemma_first_prim(t, 0);
    lemma_sub_no_nl(t, prim(j).len() as int, t.len() as int);
    lemma_trim_no_nl(t.skip(prim(j).len() as int));
    let rt = after_keyword(l, j);
    if rt.len() > 0 && rt[0] == '(' {
        crate::text::lemma_rfind_range(rt, ')');
        if let Some(b) = crate::text::rfind(rt, ')') {
            assert(b != 0);
        }
        lemma_sub_no_nl(rt, 1, close_of(rt));
        let sp = split(rt.subrange(1, close_of(rt)), ',');
        lemma_split_no_nl(rt.subrange(1, close_of(rt)), ',');
        assert forall|k: int| 0 <= k < gate_args(l).len() implies no_nl(#[trigger] gate_args(l)[k]) by {
            lemma_trim_no_nl(sp[k]);
        }
    }
}

/// A written line holds no line feed.
proof fn lemma_out_line_no_nl(l: Seq<char>)
    requires
        no_nl(l),
        line_ok(l),
    ensures
        no_nl(out_line(l)),
{
    if line_is_gate(l) {
        let j = line_prim(l).unwrap();
        lemma_first_prim(trim(l), 0);
        lemma_gate_args_no_nl(l);
        let args = gate_args(l);
        crate::text::lemma_split_nonempty(after_keyword(l, j).subrange(1, close_of(after_keyword(l, j))), ',');
        let out = args[0];
        let ins = args.drop_first();
        assert forall|k: int| 0 <= k < ins.len() implies no_nl(#[trigger] ins[k]) by {
            assert(ins[k] == args[k + 1]);
        }
        lemma_in_ports_no_nl(ins);
        lemma_lead_ws_bound(l);
        lemma_sub_no_nl(l, 0, lead_ws(l) as int);
        lemma_cell_names(j, ins.len() as int);
        let c = cell_name_for(j, ins.len() as int);
        assert(no_nl(c));
        let pl = port_list(ins, out);
        let sep: Seq<char> = if ins.len() > 0 {
            seq![',', ' ']
        } else {
            Seq::empty()
        };
        lemma_concat_no_nl(in_ports(ins), sep);
        lemma_concat_no_nl(in_ports(ins) + sep, seq!['.', 'Y', '(']);
        lemma_concat_no_nl(in_ports(ins) + sep + seq!['.', 'Y', '('], out);
        lemma_concat_no_nl(in_ports(ins) + sep + seq!['.', 'Y', '('] + out, seq![')']);
        let g1 = indent(l) + c;
        lemma_concat_no_nl(indent(l), c);
        lemma_concat_no_nl(g1, seq![' ', 'g', '_']);
        lemma_concat_no_nl(g1 + seq![' ', 'g', '_'], out);
        lemma_concat_no_nl(g1 + seq![' ', 'g', '_'] + out, seq![' ', '(']);
        lemma_concat_no_nl(g1 + seq![' ', 'g', '_'] + out + seq![' ', '('], pl);
        lemma_concat_no_nl(g1 + seq![' ', 'g', '_'] + out + seq![' ', '('] + pl, seq![')', ';']);
    }
}


proof fn lemma_after_keyword_no_nl(l: Seq<char>)
    requires
        no_nl(l),
        line_prim(l) is Some,
    ensures
        no_nl(after_keyword(l, line_prim(l).unwrap())),
{
    let j = line_prim(l).unwrap();
    lemma_trim_no_nl(l);
    let t = trim(l);
    lemma_first_prim(t, 0);
    lemma_sub_no_nl(t, prim(j).len() as int, t.len() as int);
    lemma_trim_no_nl(t.skip(prim(j).len() as int));
}

proof fn lemma_line_driven_no_nl(l: Seq<char>)
    requires
        no_nl(l),
        line_ok(l),
    ensures
        line_driven(l) matches Some(n) ==> no_nl(n),
{
    if line_is_gate(l) {
        lemma_gate_args_no_nl(l);
        let j = line_prim(l).unwrap();
        crate::text::lemma_split_nonempty(after_keyword(l, j).subrange(1, close_of(after_keyword(l, j))), ',');
    } else if line_prim(l) is Some {
        let j = line_prim(l).unwrap();
        lemma_after_keyword_no_nl(l);
        let rt = after_keyword(l, j);
        crate::text::lemma_find_range(rt, '(');
        crate::text::lemma_rfind_range(rt, ')');
        if let Some(a) = crate::text::find(rt, '(') {
            lemma_sub_no_nl(rt, a + 1, close_of(rt));
            lemma_split_no_nl(rt.subrange(a + 1, close_of(rt)), ',');
            crate::text::lemma_split_nonempty(rt.subrange(a + 1, close_of(rt)), ',');
            lemma_trim_no_nl(split(rt.subrange(a + 1, close_of(rt)), ',')[0]);
        }
    }
}

/// The driven nets form a finite set of line-feed-free names.
proof fn lemma_driven(ls: Seq<Seq<char>>)
    requires
        forall|k: int| 0 <= k < ls.len() ==> no_nl(#[trigger] ls[k]) && line_ok(ls[k]),
    ensures
        driven_after(ls).finite(),
        forall|x: Seq<char>| #[trigger] driven_after(ls).contains(x) ==> no_nl(x),
    decreases ls.len(),
{
    if ls.len() > 0 {
        let d = ls.drop_last();
        assert forall|k: int| 0 <= k < d.len() implies no_nl(#[trigger] d[k]) && line_ok(d[k]) by {
            assert(d[k] == ls[k]);
        }
        lemma_driven(d);
        assert(no_nl(ls.last()) && line_ok(ls.last())) by {
            assert(ls[ls.len() - 1] == ls.last());
        }
        lemma_line_driven_no_nl(ls.last());
    } else {
        assert(driven_after(ls) =~= Set::<Seq<char>>::empty());
    }
}

/// The undeclared nets, in order, are a strictly sorted enumeration of the
/// driven nets that nothing declares.
pub proof fn lemma_sorted_undeclared(ls: Seq<Seq<char>>)
    requires
        forall|k: int| 0 <= k < ls.len() ==> no_nl(#[trigger] ls[k]) && line_ok(ls[k]),
    ensures
        strictly_sorted(sorted_undeclared(ls)),
        sorted_undeclared(ls).to_set() == undeclared(ls),
        forall|k: int| 0 <= k < sorted_undeclared(ls).len() ==> no_nl(#[trigger] sorted_undeclared(ls)[k]),
{
    lemma_driven(ls);
    lemma_sorted_exists(undeclared(ls));
    let u = sorted_undeclared(ls);
    assert forall|k: int| 0 <= k < u.len() implies no_nl(#[trigger] u[k]) by {
        assert(u.to_set().contains(u[k]));
    }
}

proof fn lemma_join_no_nl(u: Seq<Seq<char>>, sep: Seq<char>)
    requires
        no_nl(sep),
        forall|k: int| 0 <= k < u.len() ==> no_nl(#[trigger] u[k]),
    ensures
        no_nl(join(u, sep)),
    decreases u.len(),
{
    if u.len() > 1 {
        let d = u.drop_last();
        assert forall|k: int| 0 <= k < d.len() implies no_nl(#[trigger] d[k]) by {
            assert(d[k] == u[k]);
        }
        lemma_join_no_nl(d, sep);
        assert(no_nl(u.last())) by {
            assert(u[u.len() - 1] == u.last());
        }
        lemma_concat_no_nl(join(d, sep), sep);
        lemma_concat_no_nl(join(d, sep) + sep, u.last());
    } else if u.len() == 1 {
        assert(no_nl(u[0]));
    }
}

/// The wire declaration holds no line feed and, trimmed, starts with `w`.
proof fn lemma_wire_decl(u: Seq<Seq<char>>)
    requires
        forall|k: int| 0 <= k < u.len() ==> no_nl(#[trigger] u[k]),
    ensures
        no_nl(wire_decl(u)),
        trim(wire_decl(u)).len() > 0,
        trim(wire_decl(u))[0] == 'w',
{
    reveal_strlit("    wire ");
    reveal_strlit(", ");
    reveal_strlit(";");
    lemma_join_no_nl(u, ", "@);
    let w = wire_decl(u);
    lemma_concat_no_nl("    wire "@, join(u, ", "@));
    lemma_concat_no_nl("    wire "@ + join(u, ", "@), ";"@);
    assert(w[0] == ' ' && w[1] == ' ' && w[2] == ' ' && w[3] == ' ' && w[4] == 'w');
    lemma_lead_ws(w, 4);
    lemma_trim_first(w);
}

/// Trimming keeps the first non-whitespace character in front.
pub proof fn lemma_trim_first(s: Seq<char>)
    requires
        lead_ws(s) < s.len(),
    ensures
        trim(s).len() > 0,
        trim(s)[0] == s[lead_ws(s) as int],
{
    lemma_first_non_ws(s);
    let t = trim_start(s);
    assert(t[0] == s[lead_ws(s) as int]);
    lemma_trail_stop(t);
    if trail_ws(t) == t.len() {
        crate::text::lemma_trailing_ws(t, 0);
    }
}

/// The lines of the output are the written lines, with the wire
/// declaration before every `endmodule`, each less a final `\r`.
pub proof fn lemma_output_lines(src: Seq<char>)
    requires
        source_ok(src),
    ensures
        lines(processed_text(src)) == out_pieces(out_lines(lines(src)), sorted_undeclared(lines(src))).map_values(
            |p: Seq<char>| strip_cr(p),
        ),
{
    let ls = lines(src);
    lemma_lines_no_nl(src);
    assert forall|k: int| 0 <= k < ls.len() implies no_nl(#[trigger] ls[k]) && line_ok(ls[k]) by {}
    lemma_sorted_undeclared(ls);
    let u = sorted_undeclared(ls);
    let outs = out_lines(ls);
    lemma_out_origin(ls);
    lemma_piece_origin(outs, u);
    lemma_render_pieces(outs, u);
    lemma_wire_decl(u);
    let ps = out_pieces(outs, u);
    assert forall|k: int| 0 <= k < ps.len() implies no_nl(#[trigger] ps[k]) by {
        if ps[k] != wire_decl(u) {
            let m = choose|m: int| 0 <= m < outs.len() && outs[m] == ps[k];
            let i = choose|i: int|
                0 <= i < ls.len() && !line_is_timescale(#[trigger] ls[i]) && #[trigger] outs[m]
                    == out_line(ls[i]);
            lemma_out_line_no_nl(ls[i]);
        }
    }
    lemma_lines_concat_nl(ps);
}


/// A rewritten gate keeps the leading whitespace of its line and, once
/// trimmed, starts with the first letter of its cell type.
pub proof fn lemma_gate_front(l: Seq<char>)
    requires
        line_ok(l),
        line_is_gate(l),
    ensures
        lead_ws(gate_text(l)) == lead_ws(l),
        lead_ws(gate_text(l)) < gate_text(l).len(),
        trim(gate_text(l)).len() > 0,
        trim(gate_text(l))[0] == cell_name_for(line_prim(l).unwrap(), gate_args(l).len() - 1)[0],
        !is_ws(trim(gate_text(l))[0]),
{
    let j = line_prim(l).unwrap();
    lemma_first_prim(trim(l), 0);
    let args = gate_args(l);
    let n = args.len() - 1;
    lemma_cell_names(j, n);
    let c = cell_name_for(j, n);
    let lead = lead_ws(l) as int;
    lemma_lead_ws_bound(l);
    let g = gate_text(l);
    assert(!is_ws(c[0]));
    assert forall|i: int| 0 <= i < lead implies is_ws(#[trigger] g[i]) by {
        assert(g[i] == l[i]);
        lemma_ws_prefix(l, i);
    }
    assert(g[lead] == c[0]);
    lemma_lead_ws(g, lead);
    lemma_trim_first(g);
}

/// Every `` `timescale`` directive is removed: no line of the output,
/// trimmed, starts with `` `timescale``.
pub proof fn law_timescale_removed(src: Seq<char>)
    requires
        source_ok(src),
    ensures
        forall|k: int|
            0 <= k < lines(processed_text(src)).len() ==> !starts_with(
                trim(#[trigger] lines(processed_text(src))[k]),
                "`timescale"@,
            ),
{
    reveal_strlit("`timescale");
    let ls = lines(src);
    let u = sorted_undeclared(ls);
    let outs = out_lines(ls);
    lemma_output_lines(src);
    lemma_lines_no_nl(src);
    lemma_sorted_undeclared(ls);
    lemma_wire_decl(u);
    lemma_out_origin(ls);
    lemma_piece_origin(outs, u);
    let ps = out_pieces(outs, u);
    assert forall|k: int| 0 <= k < lines(processed_text(src)).len() implies !starts_with(
        trim(#[trigger] lines(processed_text(src))[k]),
        "`timescale"@,
    ) by {
        let p = ps[k];
        assert(lines(processed_text(src))[k] == strip_cr(p));
        lemma_trim_strip_cr(p);
        if starts_with(trim(p), "`timescale"@) {
            assert(trim(p)[0] == '`') by {
                assert(trim(p).take(10)[0] == trim(p)[0]);
            }
            if p != wire_decl(u) {
                let m = choose|m: int| 0 <= m < outs.len() && outs[m] == p;
                let i = choose|i: int|
                    0 <= i < ls.len() && !line_is_timescale(#[trigger] ls[i]) && #[trigger] outs[m]
                        == out_line(ls[i]);
                if line_is_gate(ls[i]) {
                    lemma_gate_front(ls[i]);
                    let j = line_prim(ls[i]).unwrap();
                    lemma_first_prim(trim(ls[i]), 0);
                    lemma_prim_table(j);
                    lemma_cell_names(j, gate_args(ls[i]).len() - 1);
                }
            }
        }
    }
}


/// The classification of a line depends on its trimmed text alone.
proof fn lemma_gate_by_trim(a: Seq<char>, b: Seq<char>)
    requires
        trim(a) == trim(b),
    ensures
        line_is_gate(a) == line_is_gate(b),
{
}

/// A text whose first character starts no gate name starts with none.
pub proof fn lemma_no_prim(t: Seq<char>, i: int)
    requires
        0 <= i <= 8,
        t.len() > 0,
        forall|j: int| 0 <= j < 8 ==> #[trigger] prim(j)[0] != t[0],
    ensures
        first_prim_from(t, i) is None,
    decreases 8 - i,
{
    if i < 8 {
        lemma_prim_table(i);
        if starts_with(t, prim(i)) {
            assert(t.take(prim(i).len() as int)[0] == t[0]);
        }
        lemma_no_prim(t, i + 1);
    }
}

/// A rewritten gate is no gate primitive: trimmed, it starts with an
/// upper-case letter.
proof fn lemma_gate_text_not_gate(l: Seq<char>)
    requires
        line_ok(l),
        line_is_gate(l),
    ensures
        !line_is_gate(gate_text(l)),
{
    let j = line_prim(l).unwrap();
    lemma_first_prim(trim(l), 0);
    lemma_cell_names(j, gate_args(l).len() - 1);
    lemma_gate_front(l);
    let big_t = trim(gate_text(l));
    assert forall|i: int| 0 <= i < 8 implies #[trigger] prim(i)[0] != big_t[0] by {
        lemma_prim_table(i);
    }
    lemma_no_prim(big_t, 0);
}

/// No gate primitive survives: no line of the output is an anonymous
/// gate primitive.
pub proof fn law_no_gate_primitive_remains(src: Seq<char>)
    requires
        source_ok(src),
    ensures
        forall|k: int|
            0 <= k < lines(processed_text(src)).len() ==> !line_is_gate(
                #[trigger] lines(processed_text(src))[k],
            ),
{
    let ls = lines(src);
    let u = sorted_undeclared(ls);
    let outs = out_lines(ls);
    lemma_output_lines(src);
    lemma_lines_no_nl(src);
    lemma_sorted_undeclared(ls);
    lemma_wire_decl(u);
    lemma_out_origin(ls);
    lemma_piece_origin(outs, u);
    let ps = out_pieces(outs, u);
    assert forall|k: int| 0 <= k < lines(processed_text(src)).len() implies !line_is_gate(
        #[trigger] lines(processed_text(src))[k],
    ) by {
        let p = ps[k];
        assert(lines(processed_text(src))[k] == strip_cr(p));
        lemma_trim_strip_cr(p);
        lemma_gate_by_trim(strip_cr(p), p);
        if p == wire_decl(u) {
            reveal_strlit("nand");
            reveal_strlit("and");
            reveal_strlit("nor");
            reveal_strlit("or");
            reveal_strlit("xor");
            reveal_strlit("xnor");
            reveal_strlit("not");
            reveal_strlit("buf");
            lemma_no_prim(trim(p), 0);
        } else {
            let m = choose|m: int| 0 <= m < outs.len() && outs[m] == p;
            let i = choose|i: int|
                0 <= i < ls.len() && !line_is_timescale(#[trigger] ls[i]) && #[trigger] outs[m]
                    == out_line(ls[i]);
            if line_is_gate(ls[i]) {
                lemma_gate_text_not_gate(ls[i]);
            }
        }
    }
}


proof fn lemma_driven_finite(ls: Seq<Seq<char>>)
    ensures
        driven_after(ls).finite(),
    decreases ls.len(),
{
    if ls.len() > 0 {
        lemma_driven_finite(ls.drop_last());
    } else {
        assert(driven_after(ls) =~= Set::<Seq<char>>::empty());
    }
}

/// The wire declaration names every driven net that nothing declares,
/// each once, in sorted order, and no other: so every driven net ends up
/// declared, and no port or declared wire is declared again.
pub proof fn law_wire_declaration(ls: Seq<Seq<char>>)
    ensures
        strictly_sorted(sorted_undeclared(ls)),
        sorted_undeclared(ls).no_duplicates(),
        sorted_undeclared(ls).len() == undeclared(ls).len(),
        forall|x: Seq<char>|
            #[trigger] driven_after(ls).contains(x) ==> declared_after(ls).contains(x)
                || sorted_undeclared(ls).contains(x),
        forall|k: int|
            0 <= k < sorted_undeclared(ls).len() ==> driven_after(ls).contains(
                #[trigger] sorted_undeclared(ls)[k],
            ) && !declared_after(ls).contains(sorted_undeclared(ls)[k]),
{
    lemma_driven_finite(ls);
    lemma_sorted_exists(undeclared(ls));
    let u = sorted_undeclared(ls);
    crate::nets::lemma_sorted_len(u);
    u.lemma_no_dup_set_cardinality();
    assert forall|x: Seq<char>| #[trigger] driven_after(ls).contains(x) implies declared_after(
        ls,
    ).contains(x) || u.contains(x) by {
        if !declared_after(ls).contains(x) {
            assert(u.to_set().contains(x));
        }
    }
    assert forall|k: int| 0 <= k < u.len() implies driven_after(ls).contains(#[trigger] u[k])
        && !declared_after(ls).contains(u[k]) by {
        assert(u.to_set().contains(u[k]));
    }
}

pub proof fn lemma_out_lines_identity(ls: Seq<Seq<char>>)
    requires
        forall|k: int|
            0 <= k < ls.len() ==> !line_is_timescale(#[trigger] ls[k]) && !line_is_gate(ls[k]),
    ensures
        out_lines(ls) == ls,
    decreases ls.len(),
{
    if ls.len() > 0 {
        let d = ls.drop_last();
        assert forall|k: int| 0 <= k < d.len() implies !line_is_timescale(#[trigger] d[k])
            && !line_is_gate(d[k]) by {
            assert(d[k] == ls[k]);
        }
        lemma_out_lines_identity(d);
        assert(!line_is_timescale(ls.last()) && !line_is_gate(ls.last())) by {
            assert(ls[ls.len() - 1] == ls.last());
        }
        assert(ls =~= d.push(ls.last()));
    } else {
        assert(ls =~= Seq::<Seq<char>>::empty());
    }
}

proof fn lemma_render_plain(outs: Seq<Seq<char>>, u: Seq<Seq<char>>)
    requires
        u.len() == 0,
    ensures
        render(outs, u) == concat_nl(outs),
    decreases outs.len(),
{
    if outs.len() > 0 {
        lemma_render_plain(outs.drop_last(), u);
        assert(render(outs, u) =~= concat_nl(outs));
    }
}

/// A file with no gate primitive, no `` `timescale`` directive and no
/// driven net left undeclared comes out line for line as it went in, each
/// line ended by a newline.
pub proof fn law_plain_file_unchanged(src: Seq<char>)
    requires
        forall|k: int|
            0 <= k < lines(src).len() ==> !line_is_timescale(#[trigger] lines(src)[k])
                && !line_is_gate(lines(src)[k]),
        undeclared(lines(src)).is_empty(),
    ensures
        processed_text(src) == concat_nl(lines(src)),
{
    let ls = lines(src);
    law_wire_declaration(ls);
    let u = sorted_undeclared(ls);
    assert(u.len() == 0) by {
        if u.len() > 0 {
            assert(undeclared(ls).contains(u[0]));
        }
    }
    lemma_out_lines_identity(ls);
    lemma_render_plain(ls, u);
}

} // verus!

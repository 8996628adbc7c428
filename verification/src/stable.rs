//! Preprocessing a file's output again changes nothing: the rewritten
//! gates are instantiations, and the inserted wire line declares the nets
//! it lists.
use vstd::prelude::*;
use crate::convert::{
    after_keyword, close_of, gate_args, gate_text, lemma_first_prim, line_driven, line_is_gate,
    line_is_module, line_is_timescale, line_is_wire, line_ok, line_prim, out_line, strip_semis,
    trim_all, wire_set,
};
use crate::gates::prim;
use crate::guarantees::{
    law_wire_declaration, lemma_cell_names, lemma_gate_front, lemma_no_prim, lemma_out_lines_identity,
    lemma_out_origin, lemma_output_lines, lemma_piece_origin, lemma_prim_table, lemma_render_pieces,
    out_pieces,
};
use crate::nets::join;
use crate::preprocess::{
    converted_count, declared_after, driven_after, out_lines, processed_text, render,
    sorted_undeclared, source_ok, wire_decl,
};
use crate::text::{
    concat_nl, find, is_ws, lead_ws, lemma_find, lemma_find_range, lemma_first_non_ws,
    lemma_lead_ws, lemma_lines_no_nl, lemma_split_nonempty, lemma_trail_stop, lemma_trail_ws,
    lines, split, starts_with, strip_cr, trail_ws, trim, trim_start,
};

verus! {

/// `s` holds no `c`.
pub open spec fn has_no(s: Seq<char>, c: char) -> bool {
    forall|i: int| 0 <= i < s.len() ==> #[trigger] s[i] != c
}

/// `x` starts and ends with a character that is not whitespace, or is empty.
pub open spec fn is_trimmed(x: Seq<char>) -> bool {
    x.len() == 0 || (!is_ws(x[0]) && !is_ws(x.last()))
}

/// A trimmed text is its own trim, also behind one blank.
pub proof fn lemma_trimmed_trim(x: Seq<char>)
    requires
        is_trimmed(x),
    ensures
        trim(x) == x,
        trim(seq![' '] + x) == x,
{
    lemma_lead_ws(x, 0);
    assert(trim_start(x) =~= x);
    lemma_trail_ws(x, 0);
    assert(trim(x) =~= x);
    let y = seq![' '] + x;
    assert forall|i: int| 0 <= i < 1 implies is_ws(#[trigger] y[i]) by {
        assert(y[0] == ' ');
    }
    if x.len() > 0 {
        assert(y[1] == x[0]);
    }
    lemma_lead_ws(y, 1);
    assert(trim_start(y) =~= x);
}

/// A blank in front does not change the trim.
pub proof fn lemma_trim_blank(x: Seq<char>)
    ensures
        trim(seq![' '] + x) == trim(x),
{
    let y = seq![' '] + x;
    assert(y.drop_first() =~= x);
    assert(is_ws(y[0]));
    assert(lead_ws(y) == 1 + lead_ws(x));
    crate::text::lemma_lead_ws_bound(x);
    assert(trim_start(y) =~= trim_start(x));
}

/// What `trim` gives is trimmed, and holds no character that its argument
/// does not.
pub proof fn lemma_trim_trimmed(s: Seq<char>, c: char)
    ensures
        is_trimmed(trim(s)),
        has_no(s, c) ==> has_no(trim(s), c),
{
    lemma_first_non_ws(s);
    let ts = trim_start(s);
    lemma_trail_stop(ts);
    let t = trim(s);
    if t.len() > 0 {
        assert(t[0] == ts[0]);
        assert(ts[0] == s[lead_ws(s) as int]);
        assert(t.last() == ts[ts.len() - trail_ws(ts) - 1]);
    }
    if has_no(s, c) {
        assert forall|i: int| 0 <= i < t.len() implies #[trigger] t[i] != c by {
            assert(t[i] == s[lead_ws(s) + i]);
        }
    }
}

/// A text with no `c` is a single piece.
pub proof fn lemma_split_whole(s: Seq<char>, c: char)
    requires
        has_no(s, c),
    ensures
        split(s, c) == seq![s],
{
    lemma_find(s, c, s.len() as int);
}

/// Splitting at the first `c`.
pub proof fn lemma_split_cons(a: Seq<char>, b: Seq<char>, c: char)
    requires
        has_no(a, c),
    ensures
        split(a + seq![c] + b, c) == seq![a] + split(b, c),
{
    let s = a + seq![c] + b;
    assert forall|i: int| 0 <= i < a.len() implies #[trigger] s[i] != c by {
        assert(s[i] == a[i]);
    }
    lemma_find(s, c, a.len() as int);
    assert(s.take(a.len() as int) =~= a);
    assert(s.skip(a.len() as int + 1) =~= b);
}

/// No piece of a split holds the character split at.
pub proof fn lemma_split_pieces(s: Seq<char>, c: char)
    ensures
        forall|k: int| 0 <= k < split(s, c).len() ==> has_no(#[trigger] split(s, c)[k], c),
    decreases s.len(),
{
    lemma_find_range(s, c);
    match find(s, c) {
        Some(i) => {
            lemma_split_pieces(s.skip(i + 1), c);
            assert forall|k: int| 0 <= k < split(s, c).len() implies has_no(
                #[trigger] split(s, c)[k],
                c,
            ) by {
                if k > 0 {
                    assert(split(s, c)[k] == split(s.skip(i + 1), c)[k - 1]);
                } else {
                    assert(split(s, c)[0] == s.take(i));
                }
            }
        },
        None => {},
    }
}

/// `join` seen from the front.
pub proof fn lemma_join_front(u: Seq<Seq<char>>, sep: Seq<char>)
    requires
        u.len() >= 2,
    ensures
        join(u, sep) == u[0] + sep + join(u.drop_first(), sep),
    decreases u.len(),
{
    let d = u.drop_first();
    if u.len() > 2 {
        lemma_join_front(u.drop_last(), sep);
        assert(u.drop_last().drop_first() =~= d.drop_last());
        assert(d.last() == u.last());
        assert(u.drop_last()[0] == u[0]);
        assert(join(d, sep) == join(d.drop_last(), sep) + sep + d.last());
        assert(join(u, sep) =~= u[0] + sep + join(d, sep));
    } else {
        assert(d.len() == 1);
        assert(u.drop_last().len() == 1);
        assert(join(d, sep) == d[0]);
        assert(join(u.drop_last(), sep) == u[0]);
        assert(join(u, sep) =~= u[0] + sep + join(d, sep));
    }
}

/// Splitting names joined by `", "` at `,` and trimming the pieces gives
/// the names back, trimmed, when none holds a `,`.
pub proof fn lemma_split_join(u: Seq<Seq<char>>, p: Seq<char>)
    requires
        u.len() >= 1,
        p == Seq::<char>::empty() || p == seq![' '],
        forall|k: int| 0 <= k < u.len() ==> has_no(#[trigger] u[k], ','),
    ensures
        trim_all(split(p + join(u, ", "@), ',')) == trim_all(u),
    decreases u.len(),
{
    reveal_strlit(", ");
    lemma_trim_blank(u[0]);
    assert(trim(p + u[0]) == trim(u[0])) by {
        if p.len() == 0 {
            assert(p + u[0] =~= u[0]);
        }
    }
    assert(has_no(p + u[0], ',')) by {
        assert forall|i: int| 0 <= i < (p + u[0]).len() implies #[trigger] (p + u[0])[i] != ',' by {
            if i >= p.len() {
                assert((p + u[0])[i] == u[0][i - p.len()]);
            }
        }
    }
    if u.len() == 1 {
        lemma_split_whole(p + u[0], ',');
        assert(trim_all(split(p + join(u, ", "@), ',')) =~= trim_all(u));
    } else {
        let rest = u.drop_first();
        lemma_join_front(u, ", "@);
        assert(p + join(u, ", "@) =~= (p + u[0]) + seq![','] + (seq![' '] + join(rest, ", "@)));
        lemma_split_cons(p + u[0], seq![' '] + join(rest, ", "@), ',');
        assert forall|k: int| 0 <= k < rest.len() implies has_no(#[trigger] rest[k], ',') by {
            assert(rest[k] == u[k + 1]);
        }
        lemma_split_join(rest, seq![' ']);
        let tail = split(seq![' '] + join(rest, ", "@), ',');
        let whole = split(p + join(u, ", "@), ',');
        assert(whole == seq![p + u[0]] + tail);
        assert(trim_all(tail).len() == rest.len());
        assert forall|k: int| 0 <= k < u.len() implies #[trigger] trim_all(whole)[k] == trim_all(u)[k] by {
            if k > 0 {
                assert(whole[k] == tail[k - 1]);
                assert(trim_all(tail)[k - 1] == trim_all(rest)[k - 1]);
                assert(rest[k - 1] == u[k]);
            }
        }
        assert(trim_all(whole) =~= trim_all(u));
    }
}

/// A net name as the conversion finds it: trimmed, with no `,`.
pub open spec fn plain_net(x: Seq<char>) -> bool {
    is_trimmed(x) && has_no(x, ',')
}

/// `x` ends in `;`, which a wire line listing it last would drop.
pub open spec fn ends_in_semi(x: Seq<char>) -> bool {
    x.len() > 0 && x.last() == ';'
}

/// The first character of the joined names, with `;` behind them, is no
/// whitespace; and the joined names end in `;` only where the last name does.
proof fn lemma_join_ends(u: Seq<Seq<char>>)
    requires
        u.len() >= 1,
        forall|k: int| 0 <= k < u.len() ==> plain_net(#[trigger] u[k]),
    ensures
        !is_ws((join(u, ", "@) + seq![';'])[0]),
        ends_in_semi(join(u, ", "@)) ==> ends_in_semi(u.last()),
{
    reveal_strlit(", ");
    let j = join(u, ", "@);
    let js = j + seq![';'];
    assert(plain_net(u[0]));
    if u.len() == 1 {
        assert(j == u[0]);
        if u[0].len() > 0 {
            assert(js[0] == u[0][0]);
        }
    } else {
        lemma_join_front(u, ", "@);
        if u[0].len() > 0 {
            assert(js[0] == u[0][0]);
        } else {
            assert(js[0] == ',');
        }
        assert(j == join(u.drop_last(), ", "@) + ", "@ + u.last());
        if u.last().len() > 0 {
            assert(j.last() == u.last().last());
        } else {
            assert(j.last() == ' ');
        }
    }
}

/// Stripping final `;` from `a + w` strips them from `w`, when `a` does
/// not end in `;`.
proof fn lemma_strip_semis_after(a: Seq<char>, w: Seq<char>)
    requires
        !ends_in_semi(a),
    ensures
        strip_semis(a + w) == a + strip_semis(w),
        has_no(w, ',') ==> has_no(strip_semis(w), ','),
    decreases w.len(),
{
    if w.len() == 0 {
        assert(a + w =~= a);
        assert(a + strip_semis(w) =~= a);
    } else if w.last() == ';' {
        assert((a + w).drop_last() =~= a + w.drop_last());
        lemma_strip_semis_after(a, w.drop_last());
        if has_no(w, ',') {
            assert forall|i: int| 0 <= i < w.drop_last().len() implies #[trigger] w.drop_last()[i] != ',' by {
                assert(w.drop_last()[i] == w[i]);
            }
        }
    }
}

/// The inserted wire line, trimmed, is `wire <names>;`: a wire
/// declaration, and no line of another kind.
pub proof fn lemma_wire_line(u: Seq<Seq<char>>)
    requires
        u.len() >= 1,
        forall|k: int| 0 <= k < u.len() ==> plain_net(#[trigger] u[k]),
    ensures
        trim(wire_decl(u)) == "wire "@ + join(u, ", "@) + ";"@,
        line_is_wire(wire_decl(u)),
        !line_is_module(wire_decl(u)),
        !line_is_timescale(wire_decl(u)),
        trim(wire_decl(u)).len() > 0 && trim(wire_decl(u))[0] == 'w',
{
    reveal_strlit("    wire ");
    reveal_strlit("wire ");
    reveal_strlit(";");
    reveal_strlit("`timescale");
    reveal_strlit("module ");
    let j = join(u, ", "@);
    let wd = wire_decl(u);
    assert(wd =~= seq![' ', ' ', ' ', ' '] + (seq!['w', 'i', 'r', 'e', ' '] + j + seq![';']));
    assert forall|i: int| 0 <= i < 4 implies is_ws(#[trigger] wd[i]) by {}
    lemma_lead_ws(wd, 4);
    let ts = trim_start(wd);
    assert(ts =~= seq!['w', 'i', 'r', 'e', ' '] + j + seq![';']);
    lemma_trail_ws(ts, 0);
    let t = trim(wd);
    assert(t =~= ts);
    assert(t =~= "wire "@ + j + ";"@);
    assert(t.take(5) =~= "wire "@);
    assert(t[0] == 'w');
    if starts_with(t, "`timescale"@) {
        assert(t.take(10)[0] == t[0]);
    }
    if starts_with(t, "module "@) {
        assert(t.take(7)[0] == t[0]);
    }
}

/// The inserted wire line declares each net it lists, but for a last net
/// that ends in `;`.
pub proof fn lemma_wire_line_declares(u: Seq<Seq<char>>)
    requires
        u.len() >= 1,
        forall|k: int| 0 <= k < u.len() ==> plain_net(#[trigger] u[k]),
    ensures
        forall|x: Seq<char>|
            #[trigger] u.contains(x) && !ends_in_semi(x) ==> wire_set(trim(wire_decl(u))).contains(x),
{
    reveal_strlit("wire ");
    reveal_strlit(";");
    reveal_strlit(", ");
    lemma_wire_line(u);
    lemma_join_ends(u);
    let j = join(u, ", "@);
    let js = j + seq![';'];
    let t = trim(wire_decl(u));
    let y = t.skip(4);
    assert(y =~= seq![' '] + js);
    assert forall|i: int| 0 <= i < 1 implies is_ws(#[trigger] y[i]) by {}
    assert(y[1] == js[0]);
    lemma_lead_ws(y, 1);
    assert(trim_start(y) =~= js);
    lemma_trail_ws(js, 0);
    assert(trim(y) =~= js);
    assert(js.drop_last() =~= j);
    assert(strip_semis(js) == strip_semis(j));
    let n = u.len() - 1;
    let w = u[n];
    assert(plain_net(w));
    // the names as the wire line lists them, the last one less its final `;`
    let v = u.drop_last().push(strip_semis(w));
    assert forall|k: int| 0 <= k < u.len() implies has_no(#[trigger] u[k], ',') by {
        assert(plain_net(u[k]));
    }
    if n == 0 {
        assert(j == w);
        lemma_strip_semis_after(Seq::empty(), w);
        assert(Seq::<char>::empty() + w =~= w);
        assert(Seq::<char>::empty() + strip_semis(w) =~= strip_semis(w));
    } else {
        let a = join(u.drop_last(), ", "@) + ", "@;
        assert(j == a + w);
        assert(a.last() == ' ');
        lemma_strip_semis_after(a, w);
        assert(v.drop_last() =~= u.drop_last());
        assert(join(v, ", "@) == join(v.drop_last(), ", "@) + ", "@ + v.last());
    }
    assert(strip_semis(j) == join(v, ", "@));
    assert forall|k: int| 0 <= k < v.len() implies has_no(#[trigger] v[k], ',') by {
        if k < n {
            assert(v[k] == u[k]);
        }
    }
    lemma_split_join(v, Seq::empty());
    assert(Seq::<char>::empty() + join(v, ", "@) =~= join(v, ", "@));
    assert forall|x: Seq<char>| #[trigger] u.contains(x) && !ends_in_semi(x) implies wire_set(
        trim(wire_decl(u)),
    ).contains(x) by {
        let k = choose|k: int| 0 <= k < u.len() && u[k] == x;
        assert(plain_net(u[k]));
        lemma_trimmed_trim(x);
        if k < n {
            assert(trim_all(v)[k] == trim(v[k]));
            assert(v[k] == x);
        } else {
            assert(strip_semis(x) == x);
            assert(trim_all(v)[n] == trim(v[n]));
        }
        assert(trim_all(v).contains(x));
    }
}

/// A line whose trim starts with an upper-case letter is of no kind the
/// conversion looks at: no directive, header, wire line or `endmodule`,
/// and no gate primitive or instance of one.
pub proof fn lemma_upper_line(g: Seq<char>)
    requires
        trim(g).len() > 0,
        'A' <= trim(g)[0] <= 'Z',
    ensures
        !line_is_timescale(g),
        !line_is_module(g),
        !line_is_wire(g),
        trim(g) != "endmodule"@,
        line_prim(g) is None,
        !line_is_gate(g),
        line_driven(g) is None,
        line_ok(g),
{
    let t = trim(g);
    reveal_strlit("`timescale");
    reveal_strlit("module ");
    reveal_strlit("wire ");
    reveal_strlit("wire\t");
    reveal_strlit("endmodule");
    if starts_with(t, "`timescale"@) {
        assert(t.take(10)[0] == t[0]);
    }
    if starts_with(t, "module "@) {
        assert(t.take(7)[0] == t[0]);
    }
    if starts_with(t, "wire "@) {
        assert(t.take(5)[0] == t[0]);
    }
    if starts_with(t, "wire\t"@) {
        assert(t.take(5)[0] == t[0]);
    }
    assert forall|i: int| 0 <= i < 8 implies #[trigger] prim(i)[0] != t[0] by {
        lemma_prim_table(i);
    }
    lemma_no_prim(t, 0);
}

/// What a kept line becomes is of the same kind as the line, but that a
/// gate primitive becomes an instantiation, which drives no net the
/// conversion sees and is no gate primitive.
pub proof fn lemma_out_line_kind(l: Seq<char>)
    requires
        line_ok(l),
        !line_is_timescale(l),
    ensures
        !line_is_timescale(out_line(l)),
        line_is_module(out_line(l)) == line_is_module(l),
        line_is_wire(out_line(l)) == line_is_wire(l),
        (trim(out_line(l)) == "endmodule"@) == (trim(l) == "endmodule"@),
        line_driven(out_line(l)) == (if line_is_gate(l) {
            None::<Seq<char>>
        } else {
            line_driven(l)
        }),
        !line_is_gate(out_line(l)),
        line_ok(out_line(l)),
{
    if line_is_gate(l) {
        let j = line_prim(l).unwrap();
        lemma_first_prim(trim(l), 0);
        lemma_gate_front(l);
        lemma_cell_names(j, gate_args(l).len() - 1);
        lemma_upper_line(gate_text(l));
        reveal_strlit("endmodule");
        reveal_strlit("nand");
        reveal_strlit("and");
        reveal_strlit("nor");
        reveal_strlit("or");
        reveal_strlit("xor");
        reveal_strlit("xnor");
        reveal_strlit("not");
        reveal_strlit("buf");
        assert(trim(l).take(prim(j).len() as int)[0] == trim(l)[0]);
    }
}

/// The lines of a text without `\r` hold none.
pub proof fn lemma_lines_no_cr(s: Seq<char>)
    requires
        has_no(s, '\r'),
    ensures
        forall|k: int| 0 <= k < lines(s).len() ==> has_no(#[trigger] lines(s)[k], '\r'),
    decreases s.len(),
{
    if s.len() > 0 {
        lemma_find_range(s, '\n');
        match find(s, '\n') {
            Some(i) => {
                let rest = s.skip(i + 1);
                assert forall|j: int| 0 <= j < rest.len() implies #[trigger] rest[j] != '\r' by {
                    assert(rest[j] == s[i + 1 + j]);
                }
                lemma_lines_no_cr(rest);
                let first = strip_cr(s.take(i));
                assert forall|j: int| 0 <= j < first.len() implies #[trigger] first[j] != '\r' by {
                    assert(first[j] == s[j]);
                }
                assert forall|k: int| 0 <= k < lines(s).len() implies has_no(
                    #[trigger] lines(s)[k],
                    '\r',
                ) by {
                    if k > 0 {
                        assert(lines(s)[k] == lines(rest)[k - 1]);
                    }
                }
            },
            None => {},
        }
    }
}

/// The net a line drives is trimmed and holds no `,`.
pub proof fn lemma_line_driven_plain(l: Seq<char>)
    ensures
        line_driven(l) matches Some(x) ==> is_trimmed(x) && has_no(x, ','),
{
    if line_is_gate(l) {
        let rt = after_keyword(l, line_prim(l).unwrap());
        let ps = split(rt.subrange(1, close_of(rt)), ',');
        lemma_split_nonempty(rt.subrange(1, close_of(rt)), ',');
        lemma_split_pieces(rt.subrange(1, close_of(rt)), ',');
        assert(has_no(ps[0], ','));
        lemma_trim_trimmed(ps[0], ',');
        assert(gate_args(l)[0] == trim(ps[0]));
    } else if line_prim(l) is Some {
        let rt = after_keyword(l, line_prim(l).unwrap());
        match find(rt, '(') {
            Some(a) => {
                let ps = split(rt.subrange(a + 1, close_of(rt)), ',');
                lemma_split_nonempty(rt.subrange(a + 1, close_of(rt)), ',');
                lemma_split_pieces(rt.subrange(a + 1, close_of(rt)), ',');
                assert(has_no(ps[0], ','));
                lemma_trim_trimmed(ps[0], ',');
            },
            None => {},
        }
    }
}

/// A net that the lines drive is driven by one of them.
pub proof fn lemma_driven_by_a_line(ls: Seq<Seq<char>>, x: Seq<char>)
    requires
        driven_after(ls).contains(x),
    ensures
        exists|i: int| 0 <= i < ls.len() && line_driven(#[trigger] ls[i]) == Some(x),
    decreases ls.len(),
{
    let d = ls.drop_last();
    if line_driven(ls.last()) == Some(x) {
        assert(line_driven(ls[ls.len() - 1]) == Some(x));
    } else {
        lemma_driven_by_a_line(d, x);
        let i = choose|i: int| 0 <= i < d.len() && line_driven(#[trigger] d[i]) == Some(x);
        assert(ls[i] == d[i]);
    }
}

/// The net each line drives is among the driven nets.
pub proof fn lemma_line_is_driven(ls: Seq<Seq<char>>, i: int)
    requires
        0 <= i < ls.len(),
        line_driven(ls[i]) is Some,
    ensures
        driven_after(ls).contains(line_driven(ls[i]).unwrap()),
    decreases ls.len(),
{
    if i < ls.len() - 1 {
        let d = ls.drop_last();
        assert(d[i] == ls[i]);
        lemma_line_is_driven(d, i);
    }
}

/// Lines with no gate primitive convert nothing.
pub proof fn lemma_none_converted(ls: Seq<Seq<char>>)
    requires
        forall|k: int| 0 <= k < ls.len() ==> !line_is_gate(#[trigger] ls[k]),
    ensures
        converted_count(ls) == 0,
    decreases ls.len(),
{
    if ls.len() > 0 {
        let d = ls.drop_last();
        assert forall|k: int| 0 <= k < d.len() implies !line_is_gate(#[trigger] d[k]) by {
            assert(d[k] == ls[k]);
        }
        lemma_none_converted(d);
        assert(!line_is_gate(ls[ls.len() - 1]));
    }
}

/// Rendering adds nothing where there is no net to declare or no
/// `endmodule` to declare it before.
pub proof fn lemma_render_unchanged(outs: Seq<Seq<char>>, u: Seq<Seq<char>>)
    requires
        u.len() == 0 || forall|k: int| 0 <= k < outs.len() ==> trim(#[trigger] outs[k]) != "endmodule"@,
    ensures
        render(outs, u) == concat_nl(outs),
    decreases outs.len(),
{
    if outs.len() > 0 {
        let d = outs.drop_last();
        assert(u.len() == 0 || forall|k: int| 0 <= k < d.len() ==> trim(#[trigger] d[k]) != "endmodule"@) by {
            if u.len() > 0 {
                assert forall|k: int| 0 <= k < d.len() implies trim(#[trigger] d[k]) != "endmodule"@ by {
                    assert(d[k] == outs[k]);
                }
            }
        }
        lemma_render_unchanged(d, u);
        if u.len() > 0 {
            assert(trim(outs[outs.len() - 1]) != "endmodule"@);
        }
        assert(render(outs, u) =~= concat_nl(outs));
    }
}

/// At most one line of `ls` is a module header.
pub open spec fn one_module(ls: Seq<Seq<char>>) -> bool {
    forall|i: int, j: int|
        0 <= i < ls.len() && 0 <= j < ls.len() && line_is_module(#[trigger] ls[i]) && line_is_module(
            #[trigger] ls[j],
        ) ==> i == j
}

/// No `endmodule` line comes before a module header.
pub open spec fn header_first(ls: Seq<Seq<char>>) -> bool {
    forall|i: int, j: int|
        0 <= i < j < ls.len() && line_is_module(#[trigger] ls[j]) ==> trim(#[trigger] ls[i])
            != "endmodule"@
}

/// Some line of `ls` is `endmodule`.
pub open spec fn has_endmodule(ls: Seq<Seq<char>>) -> bool {
    exists|e: int| 0 <= e < ls.len() && trim(#[trigger] ls[e]) == "endmodule"@
}

/// Converting keeps every declaration, and once an `endmodule` has been
/// written, the nets `u` are declared too (but for one that ends in `;`).
proof fn lemma_declared_kept(ls: Seq<Seq<char>>, u: Seq<Seq<char>>)
    requires
        forall|k: int| 0 <= k < ls.len() ==> line_ok(#[trigger] ls[k]),
        one_module(ls),
        header_first(ls),
        u.len() >= 1 ==> {
            &&& line_is_wire(wire_decl(u))
            &&& !line_is_module(wire_decl(u))
            &&& forall|x: Seq<char>|
                #[trigger] u.contains(x) && !ends_in_semi(x) ==> wire_set(trim(wire_decl(u))).contains(x)
        },
    ensures
        declared_after(ls).subset_of(declared_after(out_pieces(out_lines(ls), u))),
        has_endmodule(ls) ==> forall|x: Seq<char>|
            #[trigger] u.contains(x) && !ends_in_semi(x) ==> declared_after(
                out_pieces(out_lines(ls), u),
            ).contains(x),
    decreases ls.len(),
{
    reveal_strlit("endmodule");
    reveal_strlit("`timescale");
    reveal_strlit("module ");
    reveal_strlit("wire ");
    reveal_strlit("wire\t");
    if ls.len() == 0 {
        return;
    }
    let d = ls.drop_last();
    let l = ls.last();
    let n = ls.len() - 1;
    assert(l == ls[n]);
    assert forall|k: int| 0 <= k < d.len() implies line_ok(#[trigger] d[k]) by {
        assert(d[k] == ls[k]);
    }
    assert forall|i: int, j: int|
        0 <= i < d.len() && 0 <= j < d.len() && line_is_module(#[trigger] d[i]) && line_is_module(
            #[trigger] d[j],
        ) implies i == j by {
        assert(d[i] == ls[i] && d[j] == ls[j]);
    }
    assert forall|i: int, j: int|
        0 <= i < j < d.len() && line_is_module(#[trigger] d[j]) implies trim(#[trigger] d[i])
            != "endmodule"@ by {
        assert(d[i] == ls[i] && d[j] == ls[j]);
    }
    lemma_declared_kept(d, u);
    let p = out_pieces(out_lines(d), u);
    // the last line is `endmodule` only if it is none of the other kinds
    let t = trim(l);
    if starts_with(t, "`timescale"@) && t == "endmodule"@ {
        assert(t.take(10)[0] == t[0]);
    }
    if starts_with(t, "module "@) && t == "endmodule"@ {
        assert(t.take(7)[0] == t[0]);
    }
    if (starts_with(t, "wire "@) || starts_with(t, "wire\t"@)) && t == "endmodule"@ {
        assert(t.take(5)[0] == t[0]);
    }
    // an `endmodule` before the last line is one of `d`
    if has_endmodule(ls) && t != "endmodule"@ {
        let e = choose|e: int| 0 <= e < ls.len() && trim(#[trigger] ls[e]) == "endmodule"@;
        assert(d[e] == ls[e]);
        assert(has_endmodule(d));
    }
    if line_is_timescale(l) {
        assert(out_lines(ls) == out_lines(d));
        assert(declared_after(ls) == declared_after(d));
    } else {
        lemma_out_line_kind(l);
        let o = out_line(l);
        assert(out_lines(ls) == out_lines(d).push(o));
        assert(out_lines(ls).drop_last() =~= out_lines(d));
        let ins: Seq<Seq<char>> = if trim(o) == "endmodule"@ && u.len() > 0 {
            seq![wire_decl(u)]
        } else {
            Seq::empty()
        };
        let q = out_pieces(out_lines(ls), u);
        assert(q == p + ins + seq![o]);
        assert(q.drop_last() =~= p + ins);
        assert(q.last() == o);
        if line_is_module(l) {
            if has_endmodule(ls) {
                let e = choose|e: int| 0 <= e < ls.len() && trim(#[trigger] ls[e]) == "endmodule"@;
                assert(e < n);
            }
        } else if ins.len() > 0 {
            assert(p + ins =~= p.push(wire_decl(u)));
            assert((p + ins).drop_last() =~= p);
            assert(declared_after(p + ins) == declared_after(p).union(wire_set(trim(wire_decl(u)))));
        } else {
            assert(p + ins =~= p);
        }
    }
}

/// With no net to declare, the pieces are the written lines.
proof fn lemma_pieces_plain(outs: Seq<Seq<char>>, u: Seq<Seq<char>>)
    requires
        u.len() == 0,
    ensures
        out_pieces(outs, u) == outs,
    decreases outs.len(),
{
    if outs.len() > 0 {
        lemma_pieces_plain(outs.drop_last(), u);
        assert(out_pieces(outs, u) =~= outs);
    }
}

/// Preprocessing the output of the preprocessor gives it back unchanged and
/// converts nothing, for a file without `\r` that has at most one module
/// header and no `endmodule` before it, where every net that an instance
/// (not a gate primitive) drives and that ends in `;` is declared (a wire
/// line listing it last would drop that `;`); the output is again a file
/// the conversion handles.
pub proof fn law_preprocessing_is_stable(src: Seq<char>)
    requires
        source_ok(src),
        has_no(src, '\r'),
        one_module(lines(src)),
        header_first(lines(src)),
        forall|i: int|
            0 <= i < lines(src).len() && !line_is_gate(#[trigger] lines(src)[i]) && line_driven(
                lines(src)[i],
            ) is Some && ends_in_semi(line_driven(lines(src)[i]).unwrap()) ==> declared_after(
                lines(src),
            ).contains(line_driven(lines(src)[i]).unwrap()),
    ensures
        source_ok(processed_text(src)),
        processed_text(processed_text(src)) == processed_text(src),
        converted_count(lines(processed_text(src))) == 0,
{
    let ls = lines(src);
    let u = sorted_undeclared(ls);
    let outs = out_lines(ls);
    let ps = out_pieces(outs, u);
    let out = processed_text(src);
    lemma_output_lines(src);
    lemma_render_pieces(outs, u);
    lemma_lines_no_cr(src);
    lemma_lines_no_nl(src);
    law_wire_declaration(ls);
    lemma_out_origin(ls);
    lemma_piece_origin(outs, u);
    // the undeclared nets are plain names
    assert forall|k: int| 0 <= k < u.len() implies plain_net(#[trigger] u[k]) by {
        lemma_driven_by_a_line(ls, u[k]);
        let i = choose|i: int| 0 <= i < ls.len() && line_driven(#[trigger] ls[i]) == Some(u[k]);
        lemma_line_driven_plain(ls[i]);
    }
    if u.len() > 0 {
        lemma_wire_line(u);
        lemma_wire_line_declares(u);
    } else {
        lemma_pieces_plain(outs, u);
    }
    // what each piece is
    assert forall|k: int| 0 <= k < ps.len() implies {
        &&& !line_is_timescale(#[trigger] ps[k])
        &&& !line_is_gate(ps[k])
        &&& line_ok(ps[k])
        &&& strip_cr(ps[k]) == ps[k]
        &&& (trim(ps[k]) == "endmodule"@ ==> has_endmodule(ls))
        &&& (line_driven(ps[k]) matches Some(x) ==> driven_after(ls).contains(x) && (ends_in_semi(x)
            ==> declared_after(ls).contains(x)))
    } by {
        let pk = ps[k];
        if u.len() > 0 && pk == wire_decl(u) {
            reveal_strlit(";");
            reveal_strlit("endmodule");
            assert(pk == "    wire "@ + join(u, ", "@) + ";"@);
            assert(pk[pk.len() - 1] == ';');
            assert(line_prim(pk) is None);
            assert(trim(pk)[0] != "endmodule"@[0]);
        } else {
            let m = choose|m: int| 0 <= m < outs.len() && outs[m] == pk;
            let i = choose|i: int|
                0 <= i < ls.len() && !line_is_timescale(#[trigger] ls[i]) && #[trigger] outs[m]
                    == out_line(ls[i]);
            let l = ls[i];
            assert(line_ok(l));
            lemma_out_line_kind(l);
            if line_is_gate(l) {
                assert(pk == gate_text(l));
                assert(pk[pk.len() - 1] == ';');
            } else {
                assert(has_no(l, '\r'));
                if l.len() > 0 {
                    assert(l.last() == l[l.len() - 1]);
                }
                if line_driven(l) is Some {
                    lemma_line_is_driven(ls, i);
                    let x = line_driven(ls[i]).unwrap();
                    assert(ends_in_semi(x) ==> declared_after(ls).contains(x));
                }
            }
        }
    }
    assert(lines(out) =~= ps);
    let u2 = sorted_undeclared(ps);
    // the second run rewrites no line and drops none
    lemma_out_lines_identity(ps);
    lemma_none_converted(ps);
    // and adds no wire line
    law_wire_declaration(ps);
    assert forall|k: int| 0 <= k < ls.len() implies line_ok(#[trigger] ls[k]) by {}
    lemma_declared_kept(ls, u);
    if has_endmodule(ls) {
        assert(u2.len() == 0) by {
            if u2.len() > 0 {
                let x = u2[0];
                assert(driven_after(ps).contains(x) && !declared_after(ps).contains(x));
                lemma_driven_by_a_line(ps, x);
                let k = choose|k: int| 0 <= k < ps.len() && line_driven(#[trigger] ps[k]) == Some(x);
                assert(driven_after(ls).contains(x));
                if !declared_after(ls).contains(x) {
                    assert(u.contains(x));
                }
            }
        }
    }
    lemma_render_unchanged(ps, u2);
}

} // verus!

//! What the conversion's pieces are for, stated over their inputs: cell
//! type names spell their keyword, a header's ports are every name between
//! its parentheses, a gate is refused only where it has too many inputs to
//! label, the converted count is the number of lines rewritten, and a
//! literal that the compiler would stop on is refused.
use vstd::prelude::*;
use crate::compilable::{
    compile_safe, directive_ok, hex_digit, is_digit, lex_ok, next_mode, number_fits, number_start,
    quote_ok, read_mode, run_len, word_char, LexMode,
};
use crate::convert::{gate_args, line_is_gate, line_ok, line_prim, out_line, port_set, trim_all};
use crate::gates::{cell_name_for, prim, prim_index, spec_cell_type_name, lemma_prim_index};
use crate::guarantees::{lemma_cell_names, lemma_gate_front, lemma_prim_table};
use crate::preprocess::converted_count;
use crate::stable::{has_no, is_trimmed, lemma_split_pieces, lemma_trim_trimmed};
use crate::text::{find, lemma_find, lemma_rfind, rfind, split, starts_with, trim};

verus! {

/// Primitive `i` has a cell sized for `n` inputs: two to four inputs for
/// nand, and, nor and or; two for xor and xnor; none for not and buf.
pub open spec fn has_sized_cell(i: int, n: int) -> bool {
    ||| 0 <= i <= 3 && 2 <= n <= 4
    ||| (i == 4 || i == 5) && n == 2
}

/// `u` is the ASCII upper case of the lower-case letter `l`.
pub open spec fn upper_of(u: char, l: char) -> bool {
    'a' <= l <= 'z' && (u as u32) + 32 == (l as u32)
}

/// The cell type of a gate primitive is its keyword in upper case,
/// followed by the number of inputs where the cell library has a cell of
/// that size: `and` with two inputs is `AND2`, with five `AND`.
pub proof fn law_cell_type_spells_keyword(p: Seq<char>, n: int)
    requires
        exists|i: int| 0 <= i < 8 && p == prim(i),
    ensures
        ({
            let i = prim_index(p).unwrap();
            let c = spec_cell_type_name(p, n);
            &&& 0 <= i < 8 && p == prim(i)
            &&& c.len() == p.len() + (if has_sized_cell(i, n) {
                1int
            } else {
                0int
            })
            &&& forall|k: int| 0 <= k < p.len() ==> upper_of(#[trigger] c[k], p[k])
            &&& has_sized_cell(i, n) ==> (c[p.len() as int] as u32) == ('0' as u32) + n
        }),
{
    lemma_prim_index(p, 0);
    let i = prim_index(p).unwrap();
    lemma_cell_spelling(i, n);
}

proof fn lemma_cell_spelling(i: int, n: int)
    requires
        0 <= i < 8,
    ensures
        ({
            let p = prim(i);
            let c = cell_name_for(i, n);
            &&& c.len() == p.len() + (if has_sized_cell(i, n) {
                1int
            } else {
                0int
            })
            &&& forall|k: int| 0 <= k < p.len() ==> upper_of(#[trigger] c[k], p[k])
            &&& has_sized_cell(i, n) ==> (c[p.len() as int] as u32) == ('0' as u32) + n
        }),
{
    reveal_strlit("nand");
    reveal_strlit("and");
    reveal_strlit("nor");
    reveal_strlit("or");
    reveal_strlit("xor");
    reveal_strlit("xnor");
    reveal_strlit("not");
    reveal_strlit("buf");
    if i == 0 {
        reveal_strlit("NAND2");
        reveal_strlit("NAND3");
        reveal_strlit("NAND4");
        reveal_strlit("NAND");
    } else if i == 1 {
        reveal_strlit("AND2");
        reveal_strlit("AND3");
        reveal_strlit("AND4");
        reveal_strlit("AND");
    } else if i == 2 {
        reveal_strlit("NOR2");
        reveal_strlit("NOR3");
        reveal_strlit("NOR4");
        reveal_strlit("NOR");
    } else if i == 3 {
        reveal_strlit("OR2");
        reveal_strlit("OR3");
        reveal_strlit("OR4");
        reveal_strlit("OR");
    } else if i == 4 {
        reveal_strlit("XOR2");
        reveal_strlit("XOR");
    } else if i == 5 {
        reveal_strlit("XNOR2");
        reveal_strlit("XNOR");
    } else if i == 6 {
        reveal_strlit("NOT");
    } else {
        reveal_strlit("BUF");
    }
}

/// A stretch of `s` between two occurrences of `ch` (or an end of `s`),
/// holding none, is one of the pieces of `split(s, ch)`.
proof fn lemma_stretch_is_piece(s: Seq<char>, c: int, d: int, ch: char)
    requires
        0 <= c <= d <= s.len(),
        c == 0 || s[c - 1] == ch,
        d == s.len() || s[d] == ch,
        forall|k: int| c <= k < d ==> #[trigger] s[k] != ch,
    ensures
        split(s, ch).contains(s.subrange(c, d)),
    decreases s.len(),
{
    if c == 0 {
        lemma_find(s, ch, d);
        if d < s.len() {
            assert(split(s, ch) == seq![s.take(d)] + split(s.skip(d + 1), ch));
            assert(split(s, ch)[0] == s.subrange(0, d));
        } else {
            assert(s.take(d) =~= s.subrange(0, d));
            assert(split(s, ch)[0] == s.subrange(0, d));
        }
    } else {
        crate::text::lemma_find_range(s, ch);
        let f = find(s, ch).unwrap();
        assert(f <= c - 1);
        let t = s.skip(f + 1);
        assert forall|k: int| c - f - 1 <= k < d - f - 1 implies #[trigger] t[k] != ch by {
            assert(t[k] == s[k + f + 1]);
        }
        if c - f - 1 > 0 {
            assert(t[c - f - 2] == s[c - 1]);
        }
        if d < s.len() {
            assert(t[d - f - 1] == s[d]);
        }
        lemma_stretch_is_piece(t, c - f - 1, d - f - 1, ch);
        assert(t.subrange(c - f - 1, d - f - 1) =~= s.subrange(c, d));
        let rest = split(t, ch);
        assert(split(s, ch) == seq![s.take(f)] + rest);
        let m = choose|m: int| 0 <= m < rest.len() && rest[m] == s.subrange(c, d);
        assert(split(s, ch)[m + 1] == rest[m]);
    }
}

/// Every name between the first `(` and the last `)` of a module header is
/// a port: each stretch between two commas (or a parenthesis and a comma),
/// trimmed, when not empty; the first name as much as the others.
pub proof fn law_every_listed_name_is_a_port(t: Seq<char>, a: int, b: int, c: int, d: int)
    requires
        0 <= a < b < t.len(),
        t[a] == '(',
        forall|k: int| 0 <= k < a ==> #[trigger] t[k] != '(',
        t[b] == ')',
        forall|k: int| b < k < t.len() ==> #[trigger] t[k] != ')',
        a + 1 <= c <= d <= b,
        c == a + 1 || t[c - 1] == ',',
        d == b || t[d] == ',',
        forall|k: int| c <= k < d ==> #[trigger] t[k] != ',',
        trim(t.subrange(c, d)).len() > 0,
    ensures
        port_set(t).contains(trim(t.subrange(c, d))),
{
    lemma_find(t, '(', a);
    lemma_rfind(t, ')', t.len() - 1 - b);
    let inner = t.subrange(a + 1, b);
    assert forall|k: int| c - a - 1 <= k < d - a - 1 implies #[trigger] inner[k] != ',' by {
        assert(inner[k] == t[k + a + 1]);
    }
    if c > a + 1 {
        assert(inner[c - a - 2] == t[c - 1]);
    }
    if d < b {
        assert(inner[d - a - 1] == t[d]);
    }
    lemma_stretch_is_piece(inner, c - a - 1, d - a - 1, ',');
    assert(inner.subrange(c - a - 1, d - a - 1) =~= t.subrange(c, d));
    let ps = split(inner, ',');
    let m = choose|m: int| 0 <= m < ps.len() && ps[m] == t.subrange(c, d);
    assert(trim_all(ps)[m] == trim(t.subrange(c, d)));
    assert(trim_all(ps).to_set().contains(trim(t.subrange(c, d))));
}

/// Every port is a non-empty trimmed name without a comma.
pub proof fn law_ports_are_plain_names(t: Seq<char>, x: Seq<char>)
    requires
        port_set(t).contains(x),
    ensures
        x.len() > 0,
        has_no(x, ','),
        is_trimmed(x),
{
    match (find(t, '('), rfind(t, ')')) {
        (Some(a), Some(b)) => {
            if b > a {
                let ps = split(t.subrange(a + 1, b), ',');
                lemma_split_pieces(t.subrange(a + 1, b), ',');
                assert(trim_all(ps).contains(x));
                let m = choose|m: int| 0 <= m < trim_all(ps).len() && trim_all(ps)[m] == x;
                assert(has_no(ps[m], ','));
                lemma_trim_trimmed(ps[m], ',');
            }
        },
        _ => {},
    }
}

/// Upper bound check, through `u32`, of a two-digit size.
pub open spec fn two_digit_value(hi: char, lo: char) -> int {
    ((hi as u32) - ('0' as u32)) * 10 + ((lo as u32) - ('0' as u32))
}

/// A binary or hex literal that the compiler would stop on is refused:
/// unless its size is a lone `1`, a binary value holds only `0` and `1`,
/// a hex value only hex digits, and neither is empty.
pub proof fn law_unclean_value_refused(s: Seq<char>, q: int)
    requires
        0 <= q,
        q + 1 < s.len(),
        s[q] == '\'',
        s[q + 1] == 'b' || s[q + 1] == 'B' || s[q + 1] == 'h' || s[q + 1] == 'H',
        !(q >= 1 && s[q - 1] == '1') || (q >= 2 && is_digit(s[q - 2])),
        quote_ok(s, q),
    ensures
        q + 2 < s.len(),
        forall|k: int|
            q + 2 <= k < s.len() && (forall|m: int| q + 2 <= m <= k ==> word_char(#[trigger] s[m]))
                ==> if s[q + 1] == 'b' || s[q + 1] == 'B' {
                #[trigger] s[k] == '0' || s[k] == '1'
            } else {
                hex_digit(s[k])
            },
{
    let v = q + 2;
    lemma_value_run(s, v);
    let n = run_len(s.skip(v), true) as int;
    assert forall|k: int|
        q + 2 <= k < s.len() && (forall|m: int| q + 2 <= m <= k ==> word_char(#[trigger] s[m]))
            implies if s[q + 1] == 'b' || s[q + 1] == 'B' {
        #[trigger] s[k] == '0' || s[k] == '1'
    } else {
        hex_digit(s[k])
    } by {
        if k >= v + n {
            assert(word_char(s[v + n]));
        }
    }
}

/// The value run at `v`: value characters up to its end, and none right
/// after it.
proof fn lemma_value_run(s: Seq<char>, v: int)
    requires
        0 <= v <= s.len(),
    ensures
        v + run_len(s.skip(v), true) <= s.len(),
        forall|m: int| v <= m < v + run_len(s.skip(v), true) ==> word_char(#[trigger] s[m]),
        v + run_len(s.skip(v), true) < s.len() ==> !word_char(s[v + run_len(s.skip(v), true)]),
    decreases s.len() - v,
{
    let t = s.skip(v);
    if v < s.len() {
        lemma_value_run(s, v + 1);
        assert(t.drop_first() =~= s.skip(v + 1));
        assert(t[0] == s[v]);
    }
}

/// A decimal value that starts with a digit is a run of at most 19 digits
/// (so it fits a `u64`) with no `_` in it.
pub proof fn law_decimal_value_fits(s: Seq<char>, q: int)
    requires
        0 <= q,
        q + 2 < s.len(),
        s[q] == '\'',
        s[q + 1] == 'd' || s[q + 1] == 'D',
        is_digit(s[q + 2]),
        quote_ok(s, q),
    ensures
        forall|k: int|
            q + 2 <= k < s.len() && (forall|m: int| q + 2 <= m <= k ==> word_char(#[trigger] s[m]))
                ==> #[trigger] is_digit(s[k]) && k < q + 2 + 19,
{
    let v = q + 2;
    lemma_value_run(s, v);
    let n = run_len(s.skip(v), true) as int;
    assert forall|k: int|
        q + 2 <= k < s.len() && (forall|m: int| q + 2 <= m <= k ==> word_char(#[trigger] s[m]))
            implies #[trigger] is_digit(s[k]) && k < q + 2 + 19 by {
        if k >= v + n {
            assert(word_char(s[v + n]));
        }
    }
}

/// A sized binary, hex or decimal literal whose size is past 64 is
/// refused, unless a decimal value is `x`, `z` or `?` (which the compiler
/// rejects with an error before it reads the size).
pub proof fn law_wide_size_refused(s: Seq<char>, q: int)
    requires
        2 <= q,
        q + 2 < s.len(),
        s[q] == '\'',
        s[q + 1] == 'b' || s[q + 1] == 'B' || s[q + 1] == 'h' || s[q + 1] == 'H' || ((s[q + 1]
            == 'd' || s[q + 1] == 'D') && is_digit(s[q + 2])),
        is_digit(s[q - 2]),
        is_digit(s[q - 1]),
        q >= 3 && is_digit(s[q - 3]) || two_digit_value(s[q - 2], s[q - 1]) > 64,
    ensures
        !quote_ok(s, q),
{
}

/// The mode in which the reader stands before character `i`.
pub open spec fn mode_before(s: Seq<char>, i: int) -> LexMode
    decreases i,
{
    if i <= 0 {
        LexMode::Code
    } else {
        next_mode(s, i - 1, mode_before(s, i - 1))
    }
}

proof fn lemma_lex_prefix(s: Seq<char>, i: int)
    requires
        0 <= i <= s.len(),
        compile_safe(s),
    ensures
        lex_ok(s, i, mode_before(s, i), true),
    decreases i,
{
    if i > 0 {
        lemma_lex_prefix(s, i - 1);
    }
}

/// In an accepted source, every character read as code meets the rules:
/// a `'` starts no literal the compiler stops on, a decimal number fits a
/// `u64` with no `_`, and a `` ` `` starts an allowed directive.
pub proof fn law_code_is_checked(s: Seq<char>, i: int)
    requires
        compile_safe(s),
        0 <= i < s.len(),
        read_mode(s, i, mode_before(s, i)) is Code,
    ensures
        s[i] == '\'' ==> quote_ok(s, i),
        number_start(s, i) ==> number_fits(s, i),
        s[i] == '`' ==> directive_ok(s, i),
{
    lemma_lex_prefix(s, i);
}

/// A gate primitive is refused only where it has more inputs than there
/// are port labels (`A` to `[`, 27 of them); a line that starts with no
/// gate keyword is never refused.
pub proof fn law_gates_refused_only_past_the_labels(l: Seq<char>)
    ensures
        line_is_gate(l) ==> (line_ok(l) <==> gate_args(l).len() - 1 <= 27),
        line_prim(l) is None ==> line_ok(l),
{
}

/// A rewritten gate differs from its line: trimmed, it starts with an
/// upper-case letter where the line starts with its lower-case keyword.
proof fn lemma_gate_rewritten(l: Seq<char>)
    requires
        line_ok(l),
        line_is_gate(l),
    ensures
        out_line(l) != l,
{
    let j = line_prim(l).unwrap();
    crate::convert::lemma_first_prim(trim(l), 0);
    lemma_gate_front(l);
    lemma_cell_names(j, gate_args(l).len() - 1);
    lemma_prim_table(j);
    assert(trim(l).take(prim(j).len() as int)[0] == trim(l)[0]);
}

/// The converted count is the number of lines that the conversion
/// rewrites: every gate primitive counts one, whatever its keyword, and no
/// other line counts.
pub proof fn law_converted_counts_rewritten_lines(ls: Seq<Seq<char>>)
    requires
        forall|k: int| 0 <= k < ls.len() ==> line_ok(#[trigger] ls[k]),
    ensures
        converted_count(ls) == ls.filter(|l: Seq<char>| out_line(l) != l).len(),
    decreases ls.len(),
{
    reveal(Seq::filter);
    if ls.len() > 0 {
        let d = ls.drop_last();
        assert forall|k: int| 0 <= k < d.len() implies line_ok(#[trigger] d[k]) by {
            assert(d[k] == ls[k]);
        }
        law_converted_counts_rewritten_lines(d);
        let l = ls.last();
        assert(line_ok(ls[ls.len() - 1]));
        if line_is_gate(l) {
            lemma_gate_rewritten(l);
        }
    }
}

} // verus!

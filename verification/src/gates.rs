//! Verilog gate primitives: the primitive keywords, the cell type each one
//! becomes, and the input port labels of the instantiation written for it.
use vstd::prelude::*;
use crate::text::{chars_of, same_chars, string_of};

verus! {

/// Number of gate primitive keywords.
pub const N_PRIMITIVES: usize = 8;

/// The Verilog gate primitive names, in the order in which a line is tried
/// against them: nand, and, nor, or, xor, xnor, not, buf.
pub open spec fn prim(i: int) -> Seq<char> {
    if i == 0 {
        "nand"@
    } else if i == 1 {
        "and"@
    } else if i == 2 {
        "nor"@
    } else if i == 3 {
        "or"@
    } else if i == 4 {
        "xor"@
    } else if i == 5 {
        "xnor"@
    } else if i == 6 {
        "not"@
    } else {
        "buf"@
    }
}

/// The keyword at index `i` of the table.
pub fn prim_chars(i: usize) -> (v: Vec<char>)
    requires
        i < N_PRIMITIVES,
    ensures
        v@ == prim(i as int),
{
    if i == 0 {
        chars_of("nand")
    } else if i == 1 {
        chars_of("and")
    } else if i == 2 {
        chars_of("nor")
    } else if i == 3 {
        chars_of("or")
    } else if i == 4 {
        chars_of("xor")
    } else if i == 5 {
        chars_of("xnor")
    } else if i == 6 {
        chars_of("not")
    } else {
        chars_of("buf")
    }
}

/// Index of the first keyword of the table, from `i` on, equal to `p`.
pub open spec fn prim_index_from(p: Seq<char>, i: int) -> Option<int>
    decreases 8 - i,
{
    if i < 0 || i >= 8 {
        None
    } else if prim(i) == p {
        Some(i)
    } else {
        prim_index_from(p, i + 1)
    }
}

/// Index of the keyword `p` in the table.
pub open spec fn prim_index(p: Seq<char>) -> Option<int> {
    prim_index_from(p, 0)
}

/// The cell type for primitive number `i` with `n` inputs: the sized
/// variant where the cell library has one, the generic one otherwise.
pub open spec fn cell_name_for(i: int, n: int) -> Seq<char> {
    if i == 0 {
        if n == 2 {
            "NAND2"@
        } else if n == 3 {
            "NAND3"@
        } else if n == 4 {
            "NAND4"@
        } else {
            "NAND"@
        }
    } else if i == 1 {
        if n == 2 {
            "AND2"@
        } else if n == 3 {
            "AND3"@
        } else if n == 4 {
            "AND4"@
        } else {
            "AND"@
        }
    } else if i == 2 {
        if n == 2 {
            "NOR2"@
        } else if n == 3 {
            "NOR3"@
        } else if n == 4 {
            "NOR4"@
        } else {
            "NOR"@
        }
    } else if i == 3 {
        if n == 2 {
            "OR2"@
        } else if n == 3 {
            "OR3"@
        } else if n == 4 {
            "OR4"@
        } else {
            "OR"@
        }
    } else if i == 4 {
        if n == 2 {
            "XOR2"@
        } else {
            "XOR"@
        }
    } else if i == 5 {
        if n == 2 {
            "XNOR2"@
        } else {
            "XNOR"@
        }
    } else if i == 6 {
        "NOT"@
    } else {
        "BUF"@
    }
}

/// What `str::to_uppercase` returns for `s`.
pub uninterp spec fn uppercased(s: Seq<char>) -> Seq<char>;

/// `str::to_uppercase`: the Unicode upper-case mapping of `s`, a function
/// of `s` alone. Its tables are not restated here; the contract only names
/// the result.
#[verifier::external_body]
fn to_upper(s: &str) -> (r: String)
    ensures
        r@ == uppercased(s@),
{
    s.to_uppercase()
}

/// The cell type name for a primitive keyword and its number of inputs;
/// a word that is not a known keyword is upper-cased.
pub open spec fn spec_cell_type_name(p: Seq<char>, n: int) -> Seq<char> {
    match prim_index(p) {
        Some(i) => cell_name_for(i, n),
        None => uppercased(p),
    }
}

/// The cell type name for primitive number `i` with `n` inputs.
pub fn cell_chars(i: usize, n: usize) -> (v: Vec<char>)
    requires
        i < N_PRIMITIVES,
    ensures
        v@ == cell_name_for(i as int, n as int),
{
    if i == 0 {
        if n == 2 {
            chars_of("NAND2")
        } else if n == 3 {
            chars_of("NAND3")
        } else if n == 4 {
            chars_of("NAND4")
        } else {
            chars_of("NAND")
        }
    } else if i == 1 {
        if n == 2 {
            chars_of("AND2")
        } else if n == 3 {
            chars_of("AND3")
        } else if n == 4 {
            chars_of("AND4")
        } else {
            chars_of("AND")
        }
    } else if i == 2 {
        if n == 2 {
            chars_of("NOR2")
        } else if n == 3 {
            chars_of("NOR3")
        } else if n == 4 {
            chars_of("NOR4")
        } else {
            chars_of("NOR")
        }
    } else if i == 3 {
        if n == 2 {
            chars_of("OR2")
        } else if n == 3 {
            chars_of("OR3")
        } else if n == 4 {
            chars_of("OR4")
        } else {
            chars_of("OR")
        }
    } else if i == 4 {
        if n == 2 {
            chars_of("XOR2")
        } else {
            chars_of("XOR")
        }
    } else if i == 5 {
        if n == 2 {
            chars_of("XNOR2")
        } else {
            chars_of("XNOR")
        }
    } else if i == 6 {
        chars_of("NOT")
    } else {
        chars_of("BUF")
    }
}

/// Index of the keyword `p` in the table, if it is one.
fn find_prim(p: &Vec<char>) -> (r: Option<usize>)
    ensures
        match r {
            Some(i) => i < N_PRIMITIVES && prim_index(p@) == Some(i as int),
            None => prim_index(p@) is None,
        },
{
    let mut i: usize = 0;
    while i < N_PRIMITIVES
        invariant
            i <= N_PRIMITIVES,
            prim_index(p@) == prim_index_from(p@, i as int),
        decreases N_PRIMITIVES - i,
    {
        let k = prim_chars(i);
        if same_chars(&k, p) {
            return Some(i);
        }
        i += 1;
    }
    None
}

/// Maps a lower-case Verilog gate primitive name and its number of inputs
/// to the upper-case cell type name: the sized variant (`NAND2`, `NAND3`,
/// `NAND4`) where one exists, the generic one (`NAND`) otherwise, and an
/// unknown primitive upper-cased.
pub fn cell_type_name(primitive: &str, n_inputs: usize) -> (r: String)
    ensures
        r@ == spec_cell_type_name(primitive@, n_inputs as int),
{
    let p = chars_of(primitive);
    match find_prim(&p) {
        Some(i) => string_of(&cell_chars(i, n_inputs)),
        None => to_upper(primitive),
    }
}

/// The label of input port `i`: `A`, `B`, `C`, ...
pub open spec fn label(i: int) -> char {
    (65 + i) as char
}

/// Input port labels A, B, C, D, ... Panics if `index > 26`, which no real
/// gate reaches.
pub fn input_label(index: usize) -> (c: char)
    requires
        index <= 26,
    ensures
        c == label(index as int),
{
    let b: u8 = 65u8 + index as u8;
    b as char
}

/// Tells whether the name is a gate primitive.
pub fn is_primitive_keyword(word: &str) -> (r: bool)
    ensures
        r == exists|i: int| 0 <= i < 8 && word@ == #[trigger] prim(i),
{
    let p = chars_of(word);
    let r = find_prim(&p);
    proof {
        lemma_prim_index(p@, 0);
    }
    r.is_some()
}

/// `prim_index_from(p, i)` finds `p` exactly when `p` is a keyword at or
/// after `i`.
pub proof fn lemma_prim_index(p: Seq<char>, i: int)
    requires
        0 <= i <= 8,
    ensures
        prim_index_from(p, i) is Some <==> exists|j: int| i <= j < 8 && p == #[trigger] prim(j),
        prim_index_from(p, i) matches Some(j) ==> i <= j < 8 && prim(j) == p,
    decreases 8 - i,
{
    if i < 8 {
        lemma_prim_index(p, i + 1);
        if prim(i) != p {
            assert forall|j: int| i <= j < 8 && p == #[trigger] prim(j) implies i + 1 <= j by {}
        }
    }
}

} // verus!

//! Which Verilog sources the netlist compiler can be handed.
//!
//! `nl_compiler::from_vast` panics on some number literals: it unwraps the
//! parse of every unsigned decimal number as a `u64` (which fails on `_`
//! and on values past `u64::MAX`) and of every size as a `usize`, stops
//! with `todo!` on a binary or hex value that is no plain `u64` (it holds
//! `x`, `z`, `?` or `_`, or is too long) unless its size is 1, and a
//! sized value wider than 64 bits panics in `safety_net`.
//!
//! `compile_safe` reads the text as the parser does (comments, strings
//! and escaped identifiers apart from the code) and, in the code, refuses
//! every literal of those kinds, every macro use and every directive that
//! could bring in text or the file's path. It refuses a few harmless forms
//! too, so as never to guess how the parser groups them: a based literal
//! with whitespace or a comment before its `'` or after its base, a size
//! of more than two digits, a size-1 literal with an unclean value right
//! after a letter, digit, `_`, `$`, `.`, `+`, `-` or `'`, a decimal run
//! in the code longer than 19 digits or followed by `_`, and a line break
//! inside a string.
use vstd::prelude::*;
use crate::text::{chars_of, is_ws, same_chars, slice_of};

verus! {

/// A decimal digit.
pub open spec fn is_digit(c: char) -> bool {
    '0' <= c <= '9'
}

/// A character that can continue an identifier.
pub open spec fn ident_char(c: char) -> bool {
    ||| 'a' <= c <= 'z'
    ||| 'A' <= c <= 'Z'
    ||| is_digit(c)
    ||| c == '_'
    ||| c == '$'
}

/// A character that can stand in the value of a based literal (a superset
/// of the digits of every base, `x`, `z`, `?` and `_`).
pub open spec fn word_char(c: char) -> bool {
    ident_char(c) || c == '?'
}

/// A hexadecimal digit.
pub open spec fn hex_digit(c: char) -> bool {
    is_digit(c) || 'a' <= c <= 'f' || 'A' <= c <= 'F'
}

/// A printable ASCII character other than the blank.
pub open spec fn printable(c: char) -> bool {
    '!' <= c <= '~'
}

/// Number of leading characters of `s` of the class: identifier
/// characters, or value characters when `word` holds.
pub open spec fn run_len(s: Seq<char>, word: bool) -> nat
    decreases s.len(),
{
    if s.len() > 0 && (if word {
        word_char(s[0])
    } else {
        ident_char(s[0])
    }) {
        1 + run_len(s.drop_first(), word)
    } else {
        0
    }
}

/// Number of leading decimal digits of `s`.
pub open spec fn digit_run(s: Seq<char>) -> nat
    decreases s.len(),
{
    if s.len() > 0 && is_digit(s[0]) {
        1 + digit_run(s.drop_first())
    } else {
        0
    }
}

/// A decimal number starts at `i`: a digit that continues no identifier
/// or number.
pub open spec fn number_start(s: Seq<char>, i: int) -> bool {
    is_digit(s[i]) && (i == 0 || !ident_char(s[i - 1]))
}

/// The number starting at `i` has at most 19 digits (so it fits a `u64`)
/// and no `_` after them.
pub open spec fn number_fits(s: Seq<char>, i: int) -> bool {
    let n = digit_run(s.skip(i));
    n <= 19 && (i + n < s.len() ==> s[i + n] != '_')
}

/// The directives a source may use: none brings in text, a macro's body or
/// the file's path.
pub open spec fn allowed_directive(name: Seq<char>) -> bool {
    ||| name == "timescale"@
    ||| name == "define"@
    ||| name == "undef"@
    ||| name == "undefineall"@
    ||| name == "ifdef"@
    ||| name == "ifndef"@
    ||| name == "elsif"@
    ||| name == "else"@
    ||| name == "endif"@
    ||| name == "resetall"@
    ||| name == "celldefine"@
    ||| name == "endcelldefine"@
    ||| name == "default_nettype"@
    ||| name == "unconnected_drive"@
    ||| name == "nounconnected_drive"@
}

/// The `` ` `` at `q` starts an allowed directive.
pub open spec fn directive_ok(s: Seq<char>, q: int) -> bool {
    let n = run_len(s.skip(q + 1), false) as int;
    allowed_directive(s.subrange(q + 1, q + 1 + n))
}

/// `s[q - k]` exists and is a digit.
pub open spec fn digit_before(s: Seq<char>, q: int, k: int) -> bool {
    q - k >= 0 && is_digit(s[q - k])
}

/// The digits right before `q`, if any, are a size of at most 64.
pub open spec fn size_fits(s: Seq<char>, q: int) -> bool {
    ||| !digit_before(s, q, 1)
    ||| !digit_before(s, q, 2)
    ||| !digit_before(s, q, 3) && (s[q - 2] < '6' || (s[q - 2] == '6' && s[q - 1] <= '4'))
}

/// The literal at `q` has the size `1`, standing alone.
pub open spec fn size_is_one(s: Seq<char>, q: int) -> bool {
    &&& digit_before(s, q, 1)
    &&& s[q - 1] == '1'
    &&& !digit_before(s, q, 2)
    &&& (q - 2 < 0 || !(ident_char(s[q - 2]) || s[q - 2] == '.' || s[q - 2] == '+' || s[q - 2]
        == '-' || s[q - 2] == '\''))
}

/// Index of the base letter of a literal whose `'` is at `q`.
pub open spec fn base_at(s: Seq<char>, q: int) -> int {
    if q + 1 < s.len() && (s[q + 1] == 's' || s[q + 1] == 'S') {
        q + 2
    } else {
        q + 1
    }
}

/// The `n` characters from `from` all meet the digit class of base `b`
/// (`'b'`, `'h'` or `'d'`).
pub open spec fn all_digits_of(s: Seq<char>, from: int, n: int, b: char) -> bool {
    forall|k: int|
        from <= k < from + n ==> if b == 'b' {
            #[trigger] s[k] == '0' || s[k] == '1'
        } else if b == 'h' {
            hex_digit(s[k])
        } else {
            is_digit(s[k])
        }
}

/// The `'` at `q` starts no literal that panics the compiler.
pub open spec fn quote_ok(s: Seq<char>, q: int) -> bool {
    let j = base_at(s, q);
    let v = j + 1;
    let n = run_len(s.skip(v), true) as int;
    let attached = q == 0 || (!is_ws(s[q - 1]) && s[q - 1] != '/');
    if j >= s.len() {
        true
    } else if s[j] == 'd' || s[j] == 'D' {
        &&& attached
        &&& n > 0
        &&& (s[v] == 'x' || s[v] == 'X' || s[v] == 'z' || s[v] == 'Z' || s[v] == '?') || (n <= 19
            && all_digits_of(s, v, n, 'd') && size_fits(s, q))
    } else if s[j] == 'b' || s[j] == 'B' {
        &&& attached
        &&& n > 0
        &&& (n <= 64 && all_digits_of(s, v, n, 'b') && size_fits(s, q)) || size_is_one(s, q)
    } else if s[j] == 'h' || s[j] == 'H' {
        &&& attached
        &&& n > 0
        &&& (n <= 16 && all_digits_of(s, v, n, 'h') && size_fits(s, q)) || size_is_one(s, q)
    } else {
        true
    }
}

/// What a character of the code must meet.
pub open spec fn code_ok(s: Seq<char>, i: int, literals: bool) -> bool {
    &&& s[i] == '`' ==> directive_ok(s, i)
    &&& literals ==> (s[i] == '\'' ==> quote_ok(s, i))
    &&& literals ==> (number_start(s, i) ==> number_fits(s, i))
}

/// Where the reader stands: in the code, a comment, a string or an
/// escaped identifier.
#[derive(Clone, Copy)]
pub enum LexMode {
    Code,
    LineComment,
    BlockOpen,
    BlockComment,
    BlockEnd,
    Str,
    StrEscape,
    EscapedIdent,
}

/// The mode in which character `i` is read: an escaped identifier ends
/// before the first character that is no printable ASCII.
pub open spec fn read_mode(s: Seq<char>, i: int, m: LexMode) -> LexMode {
    if m is EscapedIdent && !printable(s[i]) {
        LexMode::Code
    } else {
        m
    }
}

/// The mode after character `i`.
pub open spec fn next_mode(s: Seq<char>, i: int, m: LexMode) -> LexMode {
    let c = s[i];
    let after = if i + 1 < s.len() {
        s[i + 1]
    } else {
        ' '
    };
    match read_mode(s, i, m) {
        LexMode::Code => if c == '/' && after == '/' {
            LexMode::LineComment
        } else if c == '/' && after == '*' {
            LexMode::BlockOpen
        } else if c == '"' {
            LexMode::Str
        } else if c == '\\' {
            LexMode::EscapedIdent
        } else {
            LexMode::Code
        },
        LexMode::LineComment => if c == '\n' {
            LexMode::Code
        } else {
            LexMode::LineComment
        },
        LexMode::BlockOpen => LexMode::BlockComment,
        LexMode::BlockComment => if c == '*' && after == '/' {
            LexMode::BlockEnd
        } else {
            LexMode::BlockComment
        },
        LexMode::BlockEnd => LexMode::Code,
        LexMode::Str => if c == '"' {
            LexMode::Code
        } else if c == '\\' {
            LexMode::StrEscape
        } else {
            LexMode::Str
        },
        LexMode::StrEscape => LexMode::Str,
        LexMode::EscapedIdent => LexMode::EscapedIdent,
    }
}

/// What character `i`, read in mode `m`, must meet.
pub open spec fn step_ok(s: Seq<char>, i: int, m: LexMode, literals: bool) -> bool {
    match read_mode(s, i, m) {
        LexMode::Code => code_ok(s, i, literals),
        LexMode::Str => s[i] != '\n',
        _ => true,
    }
}

/// Every character from `i` on, read from mode `m`, meets its condition,
/// and the text ends outside a string or block comment; literals are
/// looked at when `literals` holds, directives always.
pub open spec fn lex_ok(s: Seq<char>, i: int, m: LexMode, literals: bool) -> bool
    decreases s.len() - i,
{
    if i < 0 || i >= s.len() {
        m is Code || m is LineComment || m is EscapedIdent
    } else {
        step_ok(s, i, m, literals) && lex_ok(s, i + 1, next_mode(s, i, m), literals)
    }
}

/// Every directive of `s` is one of the allowed ones, so neither a macro's
/// body nor the file's path enters the text that is parsed.
pub open spec fn plain_directives(s: Seq<char>) -> bool {
    lex_ok(s, 0, LexMode::Code, false)
}

/// The netlist compiler takes `s` without panicking.
pub open spec fn compile_safe(s: Seq<char>) -> bool {
    lex_ok(s, 0, LexMode::Code, true)
}

proof fn lemma_lex_plain(s: Seq<char>, i: int, m: LexMode)
    requires
        lex_ok(s, i, m, true),
    ensures
        lex_ok(s, i, m, false),
    decreases s.len() - i,
{
    if 0 <= i < s.len() {
        lemma_lex_plain(s, i + 1, next_mode(s, i, m));
    }
}

pub proof fn lemma_safe_plain(s: Seq<char>)
    requires
        compile_safe(s),
    ensures
        plain_directives(s),
{
    lemma_lex_plain(s, 0, LexMode::Code);
}

proof fn lemma_run_len(s: Seq<char>, k: int, word: bool)
    requires
        0 <= k <= s.len(),
        forall|i: int|
            0 <= i < k ==> if word {
                word_char(#[trigger] s[i])
            } else {
                ident_char(s[i])
            },
        k < s.len() ==> !(if word {
            word_char(s[k])
        } else {
            ident_char(s[k])
        }),
    ensures
        run_len(s, word) == k,
    decreases k,
{
    if k > 0 {
        let t = s.drop_first();
        assert forall|i: int| 0 <= i < k - 1 implies if word {
            word_char(#[trigger] t[i])
        } else {
            ident_char(t[i])
        } by {
            assert(t[i] == s[i + 1]);
        }
        if k - 1 < t.len() {
            assert(t[k - 1] == s[k]);
        }
        lemma_run_len(t, k - 1, word);
    }
}

proof fn lemma_digit_run(s: Seq<char>, k: int)
    requires
        0 <= k <= s.len(),
        forall|i: int| 0 <= i < k ==> is_digit(#[trigger] s[i]),
        k == s.len() || !is_digit(s[k]),
    ensures
        digit_run(s) == k,
    decreases k,
{
    if k > 0 {
        let t = s.drop_first();
        assert forall|i: int| 0 <= i < k - 1 implies is_digit(#[trigger] t[i]) by {
            assert(t[i] == s[i + 1]);
        }
        if k - 1 < t.len() {
            assert(t[k - 1] == s[k]);
        }
        lemma_digit_run(t, k - 1);
    }
}

fn digit(c: char) -> (r: bool)
    ensures
        r == is_digit(c),
{
    '0' <= c && c <= '9'
}

fn continues_ident(c: char) -> (r: bool)
    ensures
        r == ident_char(c),
{
    ('a' <= c && c <= 'z') || ('A' <= c && c <= 'Z') || digit(c) || c == '_' || c == '$'
}

fn in_class(c: char, word: bool) -> (r: bool)
    ensures
        r == if word {
            word_char(c)
        } else {
            ident_char(c)
        },
{
    continues_ident(c) || (word && c == '?')
}

/// Index just past the run of the class that starts at `from`.
fn run_end(s: &Vec<char>, from: usize, word: bool) -> (r: usize)
    requires
        from <= s.len(),
    ensures
        from <= r <= s.len(),
        r - from == run_len(s@.skip(from as int), word),
{
    let n = s.len();
    let mut a = from;
    while a < n && in_class(s[a], word)
        invariant
            from <= a <= n,
            n == s@.len(),
            forall|i: int|
                from <= i < a ==> if word {
                    word_char(#[trigger] s@[i])
                } else {
                    ident_char(s@[i])
                },
        decreases n - a,
    {
        a += 1;
    }
    proof {
        let t = s@.skip(from as int);
        assert forall|i: int| 0 <= i < a - from implies if word {
            word_char(#[trigger] t[i])
        } else {
            ident_char(t[i])
        } by {
            assert(t[i] == s@[from + i]);
        }
        if a < n {
            assert(t[a - from] == s@[a as int]);
        }
        lemma_run_len(t, a - from, word);
    }
    a
}

/// Index just past the digits that start at `from`.
fn digits_end(s: &Vec<char>, from: usize) -> (r: usize)
    requires
        from <= s.len(),
    ensures
        from <= r <= s.len(),
        r - from == digit_run(s@.skip(from as int)),
{
    let n = s.len();
    let mut a = from;
    while a < n && digit(s[a])
        invariant
            from <= a <= n,
            n == s@.len(),
            forall|i: int| from <= i < a ==> is_digit(#[trigger] s@[i]),
        decreases n - a,
    {
        a += 1;
    }
    proof {
        let t = s@.skip(from as int);
        assert forall|i: int| 0 <= i < a - from implies is_digit(#[trigger] t[i]) by {
            assert(t[i] == s@[from + i]);
        }
        if a < n {
            assert(t[a - from] == s@[a as int]);
        }
        lemma_digit_run(t, a - from);
    }
    a
}

fn is_allowed_directive(name: &Vec<char>) -> (r: bool)
    ensures
        r == allowed_directive(name@),
{
    same_chars(name, &chars_of("timescale")) || same_chars(name, &chars_of("define"))
        || same_chars(name, &chars_of("undef")) || same_chars(name, &chars_of("undefineall"))
        || same_chars(name, &chars_of("ifdef")) || same_chars(name, &chars_of("ifndef"))
        || same_chars(name, &chars_of("elsif")) || same_chars(name, &chars_of("else"))
        || same_chars(name, &chars_of("endif")) || same_chars(name, &chars_of("resetall"))
        || same_chars(name, &chars_of("celldefine")) || same_chars(
        name,
        &chars_of("endcelldefine"),
    ) || same_chars(name, &chars_of("default_nettype")) || same_chars(
        name,
        &chars_of("unconnected_drive"),
    ) || same_chars(name, &chars_of("nounconnected_drive"))
}

fn directive_at(s: &Vec<char>, q: usize) -> (r: bool)
    requires
        q < s.len(),
    ensures
        r == directive_ok(s@, q as int),
{
    let e = run_end(s, q + 1, false);
    is_allowed_directive(&slice_of(s, q + 1, e))
}

fn size_fits_at(s: &Vec<char>, q: usize) -> (r: bool)
    requires
        q <= s.len(),
    ensures
        r == size_fits(s@, q as int),
{
    if q < 1 || !digit(s[q - 1]) {
        return true;
    }
    if q < 2 || !digit(s[q - 2]) {
        return true;
    }
    if q >= 3 && digit(s[q - 3]) {
        return false;
    }
    s[q - 2] < '6' || (s[q - 2] == '6' && s[q - 1] <= '4')
}

fn size_is_one_at(s: &Vec<char>, q: usize) -> (r: bool)
    requires
        q <= s.len(),
    ensures
        r == size_is_one(s@, q as int),
{
    if q < 1 || s[q - 1] != '1' {
        return false;
    }
    if q < 2 {
        return true;
    }
    let c = s[q - 2];
    !(digit(c) || continues_ident(c) || c == '.' || c == '+' || c == '-' || c == '\'')
}

fn all_digits_at(s: &Vec<char>, from: usize, n: usize, b: char) -> (r: bool)
    requires
        from + n <= s.len(),
    ensures
        r == all_digits_of(s@, from as int, n as int, b),
{
    let mut k = from;
    while k < from + n
        invariant
            from <= k <= from + n <= s.len(),
            all_digits_of(s@, from as int, k - from, b),
        decreases from + n - k,
    {
        let c = s[k];
        let ok = if b == 'b' {
            c == '0' || c == '1'
        } else if b == 'h' {
            digit(c) || ('a' <= c && c <= 'f') || ('A' <= c && c <= 'F')
        } else {
            digit(c)
        };
        if !ok {
            return false;
        }
        k += 1;
    }
    true
}

fn quote_at(s: &Vec<char>, q: usize) -> (r: bool)
    requires
        q < s.len(),
    ensures
        r == quote_ok(s@, q as int),
{
    let len = s.len();
    let j = if q + 1 < len && (s[q + 1] == 's' || s[q + 1] == 'S') {
        q + 2
    } else {
        q + 1
    };
    if j >= len {
        return true;
    }
    let v = j + 1;
    let e = run_end(s, v, true);
    let n = e - v;
    let attached = q == 0 || (!crate::text::is_whitespace(s[q - 1]) && s[q - 1] != '/');
    let b = s[j];
    if b == 'd' || b == 'D' {
        if !attached || n == 0 {
            return false;
        }
        let c = s[v];
        (c == 'x' || c == 'X' || c == 'z' || c == 'Z' || c == '?') || (n <= 19 && all_digits_at(
            s,
            v,
            n,
            'd',
        ) && size_fits_at(s, q))
    } else if b == 'b' || b == 'B' {
        if !attached || n == 0 {
            return false;
        }
        (n <= 64 && all_digits_at(s, v, n, 'b') && size_fits_at(s, q)) || size_is_one_at(s, q)
    } else if b == 'h' || b == 'H' {
        if !attached || n == 0 {
            return false;
        }
        (n <= 16 && all_digits_at(s, v, n, 'h') && size_fits_at(s, q)) || size_is_one_at(s, q)
    } else {
        true
    }
}

fn code_at(s: &Vec<char>, i: usize) -> (r: bool)
    requires
        i < s.len(),
    ensures
        r == code_ok(s@, i as int, true),
{
    let c = s[i];
    if c == '`' && !directive_at(s, i) {
        return false;
    }
    if c == '\'' && !quote_at(s, i) {
        return false;
    }
    if digit(c) && (i == 0 || !continues_ident(s[i - 1])) {
        let e = digits_end(s, i);
        if e - i > 19 || (e < s.len() && s[e] == '_') {
            return false;
        }
    }
    true
}

fn read_mode_at(s: &Vec<char>, i: usize, m: LexMode) -> (r: LexMode)
    requires
        i < s.len(),
    ensures
        r == read_mode(s@, i as int, m),
{
    match m {
        LexMode::EscapedIdent => if '!' <= s[i] && s[i] <= '~' {
            LexMode::EscapedIdent
        } else {
            LexMode::Code
        },
        _ => m,
    }
}

fn next_mode_at(s: &Vec<char>, i: usize, m: LexMode) -> (r: LexMode)
    requires
        i < s.len(),
    ensures
        r == next_mode(s@, i as int, m),
{
    let c = s[i];
    let after = if i + 1 < s.len() {
        s[i + 1]
    } else {
        ' '
    };
    match read_mode_at(s, i, m) {
        LexMode::Code => if c == '/' && after == '/' {
            LexMode::LineComment
        } else if c == '/' && after == '*' {
            LexMode::BlockOpen
        } else if c == '"' {
            LexMode::Str
        } else if c == '\\' {
            LexMode::EscapedIdent
        } else {
            LexMode::Code
        },
        LexMode::LineComment => if c == '\n' {
            LexMode::Code
        } else {
            LexMode::LineComment
        },
        LexMode::BlockOpen => LexMode::BlockComment,
        LexMode::BlockComment => if c == '*' && after == '/' {
            LexMode::BlockEnd
        } else {
            LexMode::BlockComment
        },
        LexMode::BlockEnd => LexMode::Code,
        LexMode::Str => if c == '"' {
            LexMode::Code
        } else if c == '\\' {
            LexMode::StrEscape
        } else {
            LexMode::Str
        },
        LexMode::StrEscape => LexMode::Str,
        LexMode::EscapedIdent => LexMode::EscapedIdent,
    }
}

fn step_at(s: &Vec<char>, i: usize, m: LexMode) -> (r: bool)
    requires
        i < s.len(),
    ensures
        r == step_ok(s@, i as int, m, true),
{
    match read_mode_at(s, i, m) {
        LexMode::Code => code_at(s, i),
        LexMode::Str => s[i] != '\n',
        _ => true,
    }
}

/// Whether the pipeline can hand `src` to the netlist compiler (see
/// `compile_safe`).
pub fn pipeline_accepts(src: &str) -> (r: bool)
    ensures
        r == compile_safe(src@),
{
    let s = chars_of(src);
    let n = s.len();
    let mut i: usize = 0;
    let mut m = LexMode::Code;
    while i < n
        invariant
            i <= n,
            n == s@.len(),
            s@ == src@,
            compile_safe(src@) == lex_ok(s@, i as int, m, true),
        decreases n - i,
    {
        if !step_at(&s, i, m) {
            return false;
        }
        m = next_mode_at(&s, i, m);
        i += 1;
    }
    match m {
        LexMode::Code => true,
        LexMode::LineComment => true,
        LexMode::EscapedIdent => true,
        _ => false,
    }
}

} // verus!

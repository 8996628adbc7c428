//! Character-level text model: whitespace, trimming, searching, splitting
//! and line breaking, each stated over `Seq<char>` and implemented over
//! `Vec<char>`.
use vstd::prelude::*;

verus! {

/// The Unicode `White_Space` property, which `char::is_whitespace` tests.
pub open spec fn is_ws(c: char) -> bool {
    let u = c as u32;
    ||| 0x9 <= u <= 0xd
    ||| u == 0x20
    ||| u == 0x85
    ||| u == 0xa0
    ||| u == 0x1680
    ||| 0x2000 <= u <= 0x200a
    ||| u == 0x2028
    ||| u == 0x2029
    ||| u == 0x202f
    ||| u == 0x205f
    ||| u == 0x3000
}

/// Whether `c` is a whitespace character.
pub fn is_whitespace(c: char) -> (r: bool)
    ensures
        r == is_ws(c),
{
    let u = c as u32;
    (0x9 <= u && u <= 0xd) || u == 0x20 || u == 0x85 || u == 0xa0 || u == 0x1680 || (0x2000 <= u
        && u <= 0x200a) || u == 0x2028 || u == 0x2029 || u == 0x202f || u == 0x205f || u == 0x3000
}

/// Number of leading whitespace characters.
pub open spec fn lead_ws(s: Seq<char>) -> nat
    decreases s.len(),
{
    if s.len() > 0 && is_ws(s[0]) {
        1 + lead_ws(s.drop_first())
    } else {
        0
    }
}

/// Number of trailing whitespace characters.
pub open spec fn trail_ws(s: Seq<char>) -> nat
    decreases s.len(),
{
    if s.len() > 0 && is_ws(s.last()) {
        1 + trail_ws(s.drop_last())
    } else {
        0
    }
}

/// `s` without its leading whitespace (`str::trim_start`).
pub open spec fn trim_start(s: Seq<char>) -> Seq<char> {
    s.skip(lead_ws(s) as int)
}

/// `s` without its trailing whitespace (`str::trim_end`).
pub open spec fn trim_end(s: Seq<char>) -> Seq<char> {
    s.take(s.len() - trail_ws(s))
}

/// `s` without leading and trailing whitespace (`str::trim`).
pub open spec fn trim(s: Seq<char>) -> Seq<char> {
    trim_end(trim_start(s))
}

/// Whether `p` is a prefix of `s`.
pub open spec fn starts_with(s: Seq<char>, p: Seq<char>) -> bool {
    p.len() <= s.len() && s.take(p.len() as int) == p
}

/// Index of the first `c` in `s`.
pub open spec fn find(s: Seq<char>, c: char) -> Option<int>
    decreases s.len(),
{
    if s.len() == 0 {
        None
    } else if s[0] == c {
        Some(0)
    } else {
        match find(s.drop_first(), c) {
            Some(i) => Some(i + 1),
            None => None,
        }
    }
}

/// Index of the last `c` in `s`.
pub open spec fn rfind(s: Seq<char>, c: char) -> Option<int>
    decreases s.len(),
{
    if s.len() == 0 {
        None
    } else if s.last() == c {
        Some(s.len() - 1)
    } else {
        rfind(s.drop_last(), c)
    }
}

/// The pieces of `s` between occurrences of `c` (`str::split`); never empty.
pub open spec fn split(s: Seq<char>, c: char) -> Seq<Seq<char>>
    decreases s.len(),
{
    match find(s, c) {
        Some(i) => if 0 <= i < s.len() {
            seq![s.take(i)] + split(s.skip(i + 1), c)
        } else {
            seq![s]
        },
        None => seq![s],
    }
}

/// `s` without one final carriage return.
pub open spec fn strip_cr(s: Seq<char>) -> Seq<char> {
    if s.len() > 0 && s.last() == '\r' {
        s.drop_last()
    } else {
        s
    }
}

/// The lines of `s` (`str::lines`): split at `\n`, a `\r` right before a
/// `\n` dropped, and no empty last line after a final line ending.
pub open spec fn lines(s: Seq<char>) -> Seq<Seq<char>>
    decreases s.len(),
{
    if s.len() == 0 {
        seq![]
    } else {
        match find(s, '\n') {
            Some(i) => if 0 <= i < s.len() {
                seq![strip_cr(s.take(i))] + lines(s.skip(i + 1))
            } else {
                seq![s]
            },
            None => seq![s],
        }
    }
}

pub proof fn lemma_lead_ws(s: Seq<char>, k: int)
    requires
        0 <= k <= s.len(),
        forall|i: int| 0 <= i < k ==> is_ws(#[trigger] s[i]),
        k == s.len() || !is_ws(s[k]),
    ensures
        lead_ws(s) == k,
    decreases k,
{
    if k > 0 {
        let t = s.drop_first();
        assert forall|i: int| 0 <= i < k - 1 implies is_ws(#[trigger] t[i]) by {
            assert(t[i] == s[i + 1]);
        }
        if k - 1 < t.len() {
            assert(t[k - 1] == s[k]);
        }
        lemma_lead_ws(t, k - 1);
    }
}

pub proof fn lemma_trail_ws(s: Seq<char>, k: int)
    requires
        0 <= k <= s.len(),
        forall|i: int| s.len() - k <= i < s.len() ==> is_ws(#[trigger] s[i]),
        k == s.len() || !is_ws(s[s.len() - k - 1]),
    ensures
        trail_ws(s) == k,
    decreases k,
{
    if k > 0 {
        let t = s.drop_last();
        assert forall|i: int| t.len() - (k - 1) <= i < t.len() implies is_ws(#[trigger] t[i]) by {
            assert(t[i] == s[i]);
        }
        lemma_trail_ws(t, k - 1);
    }
}

pub proof fn lemma_lead_ws_bound(s: Seq<char>)
    ensures
        lead_ws(s) <= s.len(),
    decreases s.len(),
{
    if s.len() > 0 {
        lemma_lead_ws_bound(s.drop_first());
    }
}

pub proof fn lemma_trail_ws_bound(s: Seq<char>)
    ensures
        trail_ws(s) <= s.len(),
    decreases s.len(),
{
    if s.len() > 0 {
        lemma_trail_ws_bound(s.drop_last());
    }
}

pub proof fn lemma_find(s: Seq<char>, c: char, k: int)
    requires
        0 <= k <= s.len(),
        forall|i: int| 0 <= i < k ==> #[trigger] s[i] != c,
        k < s.len() ==> s[k] == c,
    ensures
        find(s, c) == (if k < s.len() { Some(k) } else { None::<int> }),
    decreases k,
{
    if k > 0 {
        let t = s.drop_first();
        assert forall|i: int| 0 <= i < k - 1 implies #[trigger] t[i] != c by {
            assert(t[i] == s[i + 1]);
        }
        if k - 1 < t.len() {
            assert(t[k - 1] == s[k]);
        }
        lemma_find(t, c, k - 1);
    }
}

pub proof fn lemma_find_range(s: Seq<char>, c: char)
    ensures
        find(s, c) matches Some(i) ==> 0 <= i < s.len() && s[i] == c && forall|j: int|
            0 <= j < i ==> #[trigger] s[j] != c,
        find(s, c) is None ==> forall|j: int| 0 <= j < s.len() ==> #[trigger] s[j] != c,
    decreases s.len(),
{
    if s.len() > 0 {
        let t = s.drop_first();
        lemma_find_range(t, c);
        if s[0] != c {
            assert forall|j: int| 0 < j < s.len() implies #[trigger] s[j] == t[j - 1] by {}
        }
    }
}

pub proof fn lemma_rfind(s: Seq<char>, c: char, k: int)
    requires
        0 <= k <= s.len(),
        forall|i: int| s.len() - k <= i < s.len() ==> #[trigger] s[i] != c,
        k < s.len() ==> s[s.len() - k - 1] == c,
    ensures
        rfind(s, c) == (if k < s.len() { Some(s.len() - k - 1) } else { None::<int> }),
    decreases k,
{
    if k > 0 {
        let t = s.drop_last();
        assert forall|i: int| t.len() - (k - 1) <= i < t.len() implies #[trigger] t[i] != c by {
            assert(t[i] == s[i]);
        }
        lemma_rfind(t, c, k - 1);
    }
}

pub proof fn lemma_rfind_range(s: Seq<char>, c: char)
    ensures
        rfind(s, c) matches Some(i) ==> 0 <= i < s.len() && s[i] == c && forall|j: int|
            i < j < s.len() ==> #[trigger] s[j] != c,
        rfind(s, c) is None ==> forall|j: int| 0 <= j < s.len() ==> #[trigger] s[j] != c,
    decreases s.len(),
{
    if s.len() > 0 {
        let t = s.drop_last();
        lemma_rfind_range(t, c);
        if s.last() != c {
            assert forall|j: int| 0 <= j < t.len() implies #[trigger] s[j] == t[j] by {}
        }
    }
}

/// `s[a..b]` as a new vector.
pub fn slice_of(s: &Vec<char>, a: usize, b: usize) -> (r: Vec<char>)
    requires
        a <= b <= s.len(),
    ensures
        r@ == s@.subrange(a as int, b as int),
{
    let mut r: Vec<char> = Vec::new();
    let mut i = a;
    while i < b
        invariant
            a <= i <= b <= s.len(),
            r@ == s@.subrange(a as int, i as int),
        decreases b - i,
    {
        r.push(s[i]);
        i += 1;
    }
    r
}

/// Number of leading whitespace characters of `s[from..]`, as an index.
pub fn skip_ws(s: &Vec<char>, from: usize) -> (r: usize)
    requires
        from <= s.len(),
    ensures
        from <= r <= s.len(),
        r - from == lead_ws(s@.skip(from as int)),
{
    let n = s.len();
    let mut a = from;
    while a < n && is_whitespace(s[a])
        invariant
            from <= a <= n,
            n == s@.len(),
            forall|i: int| from <= i < a ==> is_ws(#[trigger] s@[i]),
        decreases n - a,
    {
        a += 1;
    }
    proof {
        let t = s@.skip(from as int);
        assert forall|i: int| 0 <= i < a - from implies is_ws(#[trigger] t[i]) by {
            assert(t[i] == s@[from + i]);
        }
        if a < n {
            assert(t[a - from] == s@[a as int]);
        }
        lemma_lead_ws(t, a - from);
    }
    a
}

/// Bounds `(a, b)` of `trim(s)` within `s`.
pub fn trim_bounds(s: &Vec<char>) -> (r: (usize, usize))
    ensures
        r.0 <= r.1 <= s.len(),
        r.0 == lead_ws(s@),
        trim(s@) == s@.subrange(r.0 as int, r.1 as int),
        trim_start(s@) == s@.skip(r.0 as int),
{
    let n = s.len();
    let a = skip_ws(s, 0);
    assert(s@.skip(0) == s@);
    let mut b: usize = n;
    while b > a && is_whitespace(s[b - 1])
        invariant
            a <= b <= n,
            n == s@.len(),
            forall|i: int| b <= i < n ==> is_ws(#[trigger] s@[i]),
        decreases b,
    {
        b -= 1;
    }
    proof {
        let t = s@.skip(a as int);
        assert forall|i: int| t.len() - (n - b) <= i < t.len() implies is_ws(#[trigger] t[i]) by {
            assert(t[i] == s@[a + i]);
        }
        if b > a {
            assert(t[t.len() - (n - b) - 1] == s@[b - 1]);
        }
        lemma_trail_ws(t, n - b);
        assert(trim(s@) =~= s@.subrange(a as int, b as int));
    }
    (a, b)
}

/// `trim(s)` as a new vector.
pub fn trimmed(s: &Vec<char>) -> (r: Vec<char>)
    ensures
        r@ == trim(s@),
{
    let (a, b) = trim_bounds(s);
    slice_of(s, a, b)
}

/// `trim_start(s)` as a new vector.
pub fn trimmed_start(s: &Vec<char>) -> (r: Vec<char>)
    ensures
        r@ == trim_start(s@),
{
    let a = skip_ws(s, 0);
    assert(s@.skip(0) == s@);
    slice_of(s, a, s.len())
}

/// The character sequences of a vector of character vectors.
pub open spec fn texts(v: Seq<Vec<char>>) -> Seq<Seq<char>> {
    v.map_values(|x: Vec<char>| x@)
}

/// Index of the first `c` in `s`.
pub fn find_char(s: &Vec<char>, c: char) -> (r: Option<usize>)
    ensures
        match r {
            Some(i) => find(s@, c) == Some(i as int),
            None => find(s@, c) is None,
        },
{
    let n = s.len();
    let mut i: usize = 0;
    while i < n
        invariant
            i <= n,
            n == s@.len(),
            forall|j: int| 0 <= j < i ==> #[trigger] s@[j] != c,
        decreases n - i,
    {
        if s[i] == c {
            proof {
                lemma_find(s@, c, i as int);
            }
            return Some(i);
        }
        i += 1;
    }
    proof {
        lemma_find(s@, c, n as int);
    }
    None
}

/// Index of the last `c` in `s`.
pub fn rfind_char(s: &Vec<char>, c: char) -> (r: Option<usize>)
    ensures
        match r {
            Some(i) => rfind(s@, c) == Some(i as int),
            None => rfind(s@, c) is None,
        },
{
    let n = s.len();
    let mut i: usize = n;
    while i > 0
        invariant
            i <= n,
            n == s@.len(),
            forall|j: int| i <= j < n ==> #[trigger] s@[j] != c,
        decreases i,
    {
        if s[i - 1] == c {
            proof {
                lemma_rfind(s@, c, (n - i) as int);
            }
            return Some(i - 1);
        }
        i -= 1;
    }
    proof {
        lemma_rfind(s@, c, n as int);
    }
    None
}

/// Whether `p` is a prefix of `s`.
pub fn has_prefix(s: &Vec<char>, p: &Vec<char>) -> (r: bool)
    ensures
        r == starts_with(s@, p@),
{
    if p.len() > s.len() {
        return false;
    }
    let mut i: usize = 0;
    while i < p.len()
        invariant
            i <= p.len() <= s.len(),
            forall|j: int| 0 <= j < i ==> s@[j] == p@[j],
        decreases p.len() - i,
    {
        if s[i] != p[i] {
            assert(s@.take(p.len() as int)[i as int] != p@[i as int]);
            return false;
        }
        i += 1;
    }
    assert(s@.take(p.len() as int) =~= p@);
    true
}

/// Whether `a` and `b` hold the same characters.
pub fn same_chars(a: &Vec<char>, b: &Vec<char>) -> (r: bool)
    ensures
        r == (a@ == b@),
{
    if a.len() != b.len() {
        return false;
    }
    let mut i: usize = 0;
    while i < a.len()
        invariant
            i <= a.len() == b.len(),
            forall|j: int| 0 <= j < i ==> a@[j] == b@[j],
        decreases a.len() - i,
    {
        if a[i] != b[i] {
            return false;
        }
        i += 1;
    }
    assert(a@ =~= b@);
    true
}

/// `split(s, c)`, one vector per piece.
pub fn split_on(s: &Vec<char>, c: char) -> (r: Vec<Vec<char>>)
    ensures
        texts(r@) == split(s@, c),
{
    let n = s.len();
    let mut out: Vec<Vec<char>> = Vec::new();
    let mut start: usize = 0;
    let mut i: usize = 0;
    assert(texts(out@) + split(s@.skip(0), c) =~= split(s@, c)) by {
        assert(s@.skip(0) =~= s@);
    }
    while i < n
        invariant
            start <= i <= n,
            n == s@.len(),
            forall|j: int| start <= j < i ==> #[trigger] s@[j] != c,
            texts(out@) + split(s@.skip(start as int), c) == split(s@, c),
        decreases n - i,
    {
        if s[i] == c {
            let piece = slice_of(s, start, i);
            proof {
                let rest = s@.skip(start as int);
                assert forall|j: int| 0 <= j < i - start implies #[trigger] rest[j] != c by {
                    assert(rest[j] == s@[start + j]);
                }
                lemma_find(rest, c, i - start);
                assert(rest.take(i - start) =~= piece@);
                assert(rest.skip(i - start + 1) =~= s@.skip(i + 1));
                assert(texts(out@.push(piece)) =~= texts(out@).push(piece@));
                assert(texts(out@).push(piece@) + split(s@.skip(i + 1), c) =~= texts(out@)
                    + split(rest, c));
            }
            out.push(piece);
            start = i + 1;
        }
        i += 1;
    }
    let piece = slice_of(s, start, n);
    proof {
        let rest = s@.skip(start as int);
        assert forall|j: int| 0 <= j < n - start implies #[trigger] rest[j] != c by {
            assert(rest[j] == s@[start + j]);
        }
        lemma_find(rest, c, n - start);
        assert(rest =~= piece@);
        assert(texts(out@.push(piece)) =~= texts(out@).push(piece@));
                assert(texts(out@).push(piece@) =~= texts(out@) + split(rest, c));
    }
    out.push(piece);
    out
}

/// `strip_cr(s)` as a new vector.
fn without_cr(s: Vec<char>) -> (r: Vec<char>)
    ensures
        r@ == strip_cr(s@),
{
    let mut s = s;
    if s.len() > 0 && s[s.len() - 1] == '\r' {
        s.pop();
    }
    s
}

/// `lines(s)`, one vector per line.
pub fn split_lines(s: &Vec<char>) -> (r: Vec<Vec<char>>)
    ensures
        texts(r@) == lines(s@),
{
    let n = s.len();
    let mut out: Vec<Vec<char>> = Vec::new();
    let mut start: usize = 0;
    let mut i: usize = 0;
    assert(texts(out@) + lines(s@.skip(0)) =~= lines(s@)) by {
        assert(s@.skip(0) =~= s@);
    }
    while i < n
        invariant
            start <= i <= n,
            n == s@.len(),
            forall|j: int| start <= j < i ==> #[trigger] s@[j] != '\n',
            texts(out@) + lines(s@.skip(start as int)) == lines(s@),
        decreases n - i,
    {
        if s[i] == '\n' {
            let piece = without_cr(slice_of(s, start, i));
            proof {
                let rest = s@.skip(start as int);
                assert forall|j: int| 0 <= j < i - start implies #[trigger] rest[j] != '\n' by {
                    assert(rest[j] == s@[start + j]);
                }
                lemma_find(rest, '\n', i - start);
                assert(rest.take(i - start) =~= s@.subrange(start as int, i as int));
                assert(rest.skip(i - start + 1) =~= s@.skip(i + 1));
                assert(texts(out@.push(piece)) =~= texts(out@).push(piece@));
                assert(texts(out@).push(piece@) + lines(s@.skip(i + 1)) =~= texts(out@)
                    + lines(rest));
            }
            out.push(piece);
            start = i + 1;
        }
        i += 1;
    }
    if start < n {
        let piece = slice_of(s, start, n);
        proof {
            let rest = s@.skip(start as int);
            assert forall|j: int| 0 <= j < n - start implies #[trigger] rest[j] != '\n' by {
                assert(rest[j] == s@[start + j]);
            }
            lemma_find(rest, '\n', n - start);
            assert(rest =~= piece@);
            assert(texts(out@.push(piece)) =~= texts(out@).push(piece@));
                assert(texts(out@).push(piece@) =~= texts(out@) + lines(rest));
        }
        out.push(piece);
    } else {
        assert(texts(out@) + lines(s@.skip(start as int)) =~= texts(out@));
    }
    out
}

/// Appends the characters of `src` to `dst`.
pub fn append_chars(dst: &mut Vec<char>, src: &Vec<char>)
    ensures
        final(dst)@ == old(dst)@ + src@,
{
    let ghost base = dst@;
    let mut i: usize = 0;
    while i < src.len()
        invariant
            i <= src.len(),
            dst@ == base + src@.take(i as int),
        decreases src.len() - i,
    {
        dst.push(src[i]);
        assert(src@.take(i + 1) =~= src@.take(i as int).push(src@[i as int]));
        i += 1;
    }
    assert(src@.take(src.len() as int) =~= src@);
}

/// `split` always yields at least one piece.
pub proof fn lemma_split_nonempty(s: Seq<char>, c: char)
    ensures
        split(s, c).len() >= 1,
{
    match find(s, c) {
        Some(i) => {
            if 0 <= i < s.len() {
                assert(split(s, c) == seq![s.take(i)] + split(s.skip(i + 1), c));
            }
        },
        None => {},
    }
}

/// `s` holds no line feed.
pub open spec fn no_nl(s: Seq<char>) -> bool {
    forall|i: int| 0 <= i < s.len() ==> #[trigger] s[i] != '\n'
}

/// Each of `ps` followed by a line feed, all in order.
pub open spec fn concat_nl(ps: Seq<Seq<char>>) -> Seq<char>
    decreases ps.len(),
{
    if ps.len() == 0 {
        Seq::empty()
    } else {
        concat_nl(ps.drop_last()) + ps.last() + seq!['\n']
    }
}

pub proof fn lemma_concat_nl_front(ps: Seq<Seq<char>>)
    requires
        ps.len() > 0,
    ensures
        concat_nl(ps) == ps[0] + seq!['\n'] + concat_nl(ps.drop_first()),
    decreases ps.len(),
{
    if ps.len() == 1 {
        assert(ps.drop_last() =~= Seq::<Seq<char>>::empty());
        assert(ps.drop_first() =~= Seq::<Seq<char>>::empty());
        assert(concat_nl(ps.drop_last()) =~= Seq::<char>::empty());
        assert(concat_nl(ps) =~= ps[0] + seq!['\n']);
        assert(concat_nl(ps.drop_first()) =~= Seq::<char>::empty());
    } else {
        lemma_concat_nl_front(ps.drop_last());
        assert(ps.drop_last().drop_first() =~= ps.drop_first().drop_last());
        assert(ps.drop_first().last() == ps.last());
        assert(ps.drop_last()[0] == ps[0]);
        assert(concat_nl(ps) =~= ps[0] + seq!['\n'] + concat_nl(ps.drop_first()));
    }
}

/// Breaking into lines the concatenation of line-feed-free pieces, each
/// followed by a line feed, gives back the pieces, less a final `\r`.
pub proof fn lemma_lines_concat_nl(ps: Seq<Seq<char>>)
    requires
        forall|k: int| 0 <= k < ps.len() ==> no_nl(#[trigger] ps[k]),
    ensures
        lines(concat_nl(ps)) == ps.map_values(|p: Seq<char>| strip_cr(p)),
    decreases ps.len(),
{
    if ps.len() == 0 {
        assert(ps.map_values(|p: Seq<char>| strip_cr(p)) =~= Seq::<Seq<char>>::empty());
    } else {
        lemma_concat_nl_front(ps);
        let p = ps[0];
        let rest = concat_nl(ps.drop_first());
        let x = concat_nl(ps);
        assert(x =~= p + seq!['\n'] + rest);
        assert forall|i: int| 0 <= i < p.len() implies #[trigger] x[i] != '\n' by {
            assert(x[i] == p[i]);
        }
        assert(x[p.len() as int] == '\n');
        lemma_find(x, '\n', p.len() as int);
        assert(x.take(p.len() as int) =~= p);
        assert(x.skip(p.len() as int + 1) =~= rest);
        assert forall|k: int| 0 <= k < ps.drop_first().len() implies no_nl(
            #[trigger] ps.drop_first()[k],
        ) by {
            assert(ps.drop_first()[k] == ps[k + 1]);
        }
        lemma_lines_concat_nl(ps.drop_first());
        assert(ps.map_values(|p: Seq<char>| strip_cr(p)) =~= seq![strip_cr(p)]
            + ps.drop_first().map_values(|p: Seq<char>| strip_cr(p)));
    }
}

/// No line of `s` holds a line feed.
pub proof fn lemma_lines_no_nl(s: Seq<char>)
    ensures
        forall|k: int| 0 <= k < lines(s).len() ==> no_nl(#[trigger] lines(s)[k]),
    decreases s.len(),
{
    if s.len() > 0 {
        lemma_find_range(s, '\n');
        match find(s, '\n') {
            Some(i) => {
                lemma_lines_no_nl(s.skip(i + 1));
                let first = strip_cr(s.take(i));
                assert(no_nl(first));
                assert forall|k: int| 0 <= k < lines(s).len() implies no_nl(#[trigger] lines(s)[k]) by {
                    if k > 0 {
                        assert(lines(s)[k] == lines(s.skip(i + 1))[k - 1]);
                    }
                }
            },
            None => {},
        }
    }
}

/// The pieces of a line-feed-free text hold no line feed.
pub proof fn lemma_split_no_nl(s: Seq<char>, c: char)
    requires
        no_nl(s),
    ensures
        forall|k: int| 0 <= k < split(s, c).len() ==> no_nl(#[trigger] split(s, c)[k]),
    decreases s.len(),
{
    lemma_find_range(s, c);
    match find(s, c) {
        Some(i) => {
            assert(no_nl(s.skip(i + 1)));
            lemma_split_no_nl(s.skip(i + 1), c);
            assert forall|k: int| 0 <= k < split(s, c).len() implies no_nl(#[trigger] split(s, c)[k]) by {
                if k > 0 {
                    assert(split(s, c)[k] == split(s.skip(i + 1), c)[k - 1]);
                }
            }
        },
        None => {},
    }
}

/// Trimming keeps a text line-feed-free.
pub proof fn lemma_trim_no_nl(s: Seq<char>)
    requires
        no_nl(s),
    ensures
        no_nl(trim(s)),
        no_nl(trim_start(s)),
{
    lemma_lead_ws_bound(s);
    lemma_trail_ws_bound(trim_start(s));
}

/// A final `\r` is whitespace, so dropping it does not change the trim.
pub proof fn lemma_trim_strip_cr(s: Seq<char>)
    ensures
        trim(strip_cr(s)) == trim(s),
{
    if s.len() > 0 && s.last() == '\r' {
        let t = s.drop_last();
        let a = lead_ws(s);
        lemma_lead_ws_bound(s);
        lemma_lead_ws_bound(t);
        if lead_ws(s) == s.len() {
            // all whitespace
            assert forall|i: int| 0 <= i < t.len() implies is_ws(#[trigger] t[i]) by {
                lemma_ws_prefix(s, i);
            }
            lemma_lead_ws(t, t.len() as int);
            assert(trim_start(t) =~= Seq::<char>::empty());
            assert(trim_start(s) =~= Seq::<char>::empty());
        } else {
            let k = lead_ws(s) as int;
            assert forall|i: int| 0 <= i < k implies is_ws(#[trigger] t[i]) by {
                lemma_ws_prefix(s, i);
            }
            lemma_first_non_ws(s);
            assert(k < t.len());
            assert(t[k] == s[k]);
            lemma_lead_ws(t, k);
            let u = trim_start(s);
            let v = trim_start(t);
            assert(v =~= u.drop_last());
            assert(is_ws(u.last()));
            lemma_trail_ws_bound(v);
            let m = trail_ws(v) as int;
            assert forall|i: int| u.len() - (m + 1) <= i < u.len() implies is_ws(#[trigger] u[i]) by {
                if i < u.len() - 1 {
                    lemma_trailing_ws(v, i);
                    assert(u[i] == v[i]);
                }
            }
            if m + 1 < u.len() {
                lemma_trail_stop(v);
                assert(u[u.len() - (m + 1) - 1] == v[v.len() - m - 1]);
            }
            lemma_trail_ws(u, m + 1);
            assert(trim(s) =~= trim(t));
        }
    }
}

/// The first `lead_ws(s)` characters are whitespace.
pub proof fn lemma_ws_prefix(s: Seq<char>, i: int)
    requires
        0 <= i < lead_ws(s),
    ensures
        is_ws(s[i]),
    decreases i,
{
    lemma_lead_ws_bound(s);
    if i > 0 {
        lemma_ws_prefix(s.drop_first(), i - 1);
        assert(s.drop_first()[i - 1] == s[i]);
    }
}

/// The character after the leading whitespace is not whitespace.
pub proof fn lemma_first_non_ws(s: Seq<char>)
    ensures
        lead_ws(s) <= s.len(),
        lead_ws(s) < s.len() ==> !is_ws(s[lead_ws(s) as int]),
    decreases s.len(),
{
    lemma_lead_ws_bound(s);
    if s.len() > 0 && is_ws(s[0]) {
        lemma_first_non_ws(s.drop_first());
    }
}

/// The last `trail_ws(s)` characters are whitespace.
pub proof fn lemma_trailing_ws(s: Seq<char>, i: int)
    requires
        s.len() - trail_ws(s) <= i < s.len(),
    ensures
        is_ws(s[i]),
    decreases s.len(),
{
    lemma_trail_ws_bound(s);
    if i < s.len() - 1 {
        lemma_trailing_ws(s.drop_last(), i);
        assert(s.drop_last()[i] == s[i]);
    }
}

/// The character before the trailing whitespace is not whitespace.
pub proof fn lemma_trail_stop(s: Seq<char>)
    ensures
        trail_ws(s) <= s.len(),
        trail_ws(s) < s.len() ==> !is_ws(s[s.len() - trail_ws(s) - 1]),
    decreases s.len(),
{
    lemma_trail_ws_bound(s);
    if s.len() > 0 && is_ws(s.last()) {
        lemma_trail_stop(s.drop_last());
    }
}

/// The characters of `s`, in order.
pub fn chars_of(s: &str) -> (v: Vec<char>)
    ensures
        v@ == s@,
{
    let mut v: Vec<char> = Vec::new();
    for c in it: s.chars()
        invariant
            v@ == it.seq().take(it.index() as int),
            it.seq() == s@,
    {
        v.push(c);
    }
    v
}

/// `String::push`: appends one character.
#[verifier::external_body]
fn push_char(s: &mut String, c: char)
    ensures
        final(s)@ == old(s)@.push(c),
{
    s.push(c);
}

/// A `String` holding the characters of `v`.
pub fn string_of(v: &Vec<char>) -> (s: String)
    ensures
        s@ == v@,
{
    let mut s = String::new();
    let mut i: usize = 0;
    while i < v.len()
        invariant
            i <= v.len(),
            s@ == v@.take(i as int),
        decreases v.len() - i,
    {
        push_char(&mut s, v[i]);
        assert(v@.take(i + 1) =~= v@.take(i as int).push(v@[i as int]));
        i += 1;
    }
    assert(v@.take(v.len() as int) =~= v@);
    s
}

} // verus!

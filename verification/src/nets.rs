//! Net names as character sequences: their lexicographic order (the order
//! in which a `BTreeSet<String>` lists them), sorted duplicate-free
//! collections, membership and joining.
use vstd::prelude::*;
use crate::text::{same_chars, texts};

verus! {

/// `a` comes strictly before `b` in lexicographic code-point order, which
/// is the order of `String` and so of a `BTreeSet<String>`.
pub open spec fn lex_lt(a: Seq<char>, b: Seq<char>) -> bool
    decreases a.len(),
{
    if a.len() == 0 {
        b.len() > 0
    } else if b.len() == 0 {
        false
    } else if a[0] < b[0] {
        true
    } else if a[0] == b[0] {
        lex_lt(a.drop_first(), b.drop_first())
    } else {
        false
    }
}

/// Every element comes strictly before every later one.
pub open spec fn strictly_sorted(s: Seq<Seq<char>>) -> bool {
    forall|i: int, j: int| 0 <= i < j < s.len() ==> lex_lt(#[trigger] s[i], #[trigger] s[j])
}

/// `u` joined with `sep` between neighbours (`[&str]::join`).
pub open spec fn join(u: Seq<Seq<char>>, sep: Seq<char>) -> Seq<char>
    decreases u.len(),
{
    if u.len() == 0 {
        Seq::empty()
    } else if u.len() == 1 {
        u[0]
    } else {
        join(u.drop_last(), sep) + sep + u.last()
    }
}

pub proof fn lemma_lex_irreflexive(a: Seq<char>)
    ensures
        !lex_lt(a, a),
    decreases a.len(),
{
    if a.len() > 0 {
        lemma_lex_irreflexive(a.drop_first());
    }
}

pub proof fn lemma_lex_transitive(a: Seq<char>, b: Seq<char>, c: Seq<char>)
    requires
        lex_lt(a, b),
        lex_lt(b, c),
    ensures
        lex_lt(a, c),
    decreases a.len(),
{
    if a.len() > 0 && b.len() > 0 && c.len() > 0 {
        if a[0] == b[0] && b[0] == c[0] {
            lemma_lex_transitive(a.drop_first(), b.drop_first(), c.drop_first());
        }
    }
}

pub proof fn lemma_lex_total(a: Seq<char>, b: Seq<char>)
    ensures
        a == b || lex_lt(a, b) || lex_lt(b, a),
    decreases a.len(),
{
    if a.len() > 0 && b.len() > 0 {
        if a[0] == b[0] {
            lemma_lex_total(a.drop_first(), b.drop_first());
            if a.drop_first() == b.drop_first() {
                assert(a =~= seq![a[0]] + a.drop_first());
                assert(b =~= seq![b[0]] + b.drop_first());
            }
        } else {
            assert(a[0] < b[0] || b[0] < a[0]);
        }
    } else if a.len() == 0 && b.len() == 0 {
        assert(a =~= b);
    }
}

pub proof fn lemma_lex_asymmetric(a: Seq<char>, b: Seq<char>)
    requires
        lex_lt(a, b),
    ensures
        !lex_lt(b, a),
{
    if lex_lt(b, a) {
        lemma_lex_transitive(a, b, a);
        lemma_lex_irreflexive(a);
    }
}

proof fn lemma_lex_skip(a: Seq<char>, b: Seq<char>, i: int)
    requires
        0 <= i <= a.len(),
        i <= b.len(),
        a.take(i) == b.take(i),
    ensures
        lex_lt(a, b) == lex_lt(a.skip(i), b.skip(i)),
    decreases i,
{
    if i > 0 {
        assert(a[0] == a.take(i)[0]);
        assert(b[0] == b.take(i)[0]);
        assert(a.drop_first().take(i - 1) =~= a.take(i).drop_first());
        assert(b.drop_first().take(i - 1) =~= b.take(i).drop_first());
        lemma_lex_skip(a.drop_first(), b.drop_first(), i - 1);
        assert(a.drop_first().skip(i - 1) =~= a.skip(i));
        assert(b.drop_first().skip(i - 1) =~= b.skip(i));
    } else {
        assert(a.skip(0) =~= a);
        assert(b.skip(0) =~= b);
    }
}

/// Whether `a` comes strictly before `b`.
pub fn lex_less(a: &Vec<char>, b: &Vec<char>) -> (r: bool)
    ensures
        r == lex_lt(a@, b@),
{
    let mut i: usize = 0;
    while i < a.len() && i < b.len()
        invariant
            i <= a.len(),
            i <= b.len(),
            a@.take(i as int) == b@.take(i as int),
        decreases a.len() - i,
    {
        if a[i] != b[i] {
            proof {
                lemma_lex_skip(a@, b@, i as int);
                assert(a@.skip(i as int)[0] == a@[i as int]);
                assert(b@.skip(i as int)[0] == b@[i as int]);
            }
            return a[i] < b[i];
        }
        assert(a@.take(i + 1) =~= a@.take(i as int).push(a@[i as int]));
        assert(b@.take(i + 1) =~= b@.take(i as int).push(b@[i as int]));
        i += 1;
    }
    proof {
        lemma_lex_skip(a@, b@, i as int);
    }
    i == a.len() && i < b.len()
}

/// Whether `x` occurs in `v`.
pub fn contains_text(v: &Vec<Vec<char>>, x: &Vec<char>) -> (r: bool)
    ensures
        r == texts(v@).contains(x@),
{
    let mut i: usize = 0;
    while i < v.len()
        invariant
            i <= v.len(),
            forall|j: int| 0 <= j < i ==> v@[j]@ != x@,
        decreases v.len() - i,
    {
        if same_chars(&v[i], x) {
            assert(texts(v@)[i as int] == x@);
            return true;
        }
        i += 1;
    }
    assert forall|j: int| 0 <= j < texts(v@).len() implies texts(v@)[j] != x@ by {
        assert(texts(v@)[j] == v@[j]@);
    }
    false
}

/// Inserts `x` into the strictly sorted `v`, keeping it strictly sorted.
pub fn insert_sorted(v: &mut Vec<Vec<char>>, x: Vec<char>)
    requires
        strictly_sorted(texts(old(v)@)),
    ensures
        strictly_sorted(texts(final(v)@)),
        texts(final(v)@).to_set() == texts(old(v)@).to_set().insert(x@),
{
    let ghost old_t = texts(v@);
    let mut k: usize = 0;
    while k < v.len() && lex_less(&v[k], &x)
        invariant
            k <= v.len(),
            texts(v@) == old_t,
            forall|j: int| 0 <= j < k ==> lex_lt(#[trigger] old_t[j], x@),
        decreases v.len() - k,
    {
        assert(old_t[k as int] == v@[k as int]@);
        k += 1;
    }
    if k < v.len() && same_chars(&v[k], &x) {
        assert(old_t[k as int] == x@);
        assert(old_t.to_set().insert(x@) =~= old_t.to_set());
        return;
    }
    proof {
        if k < v.len() {
            assert(old_t[k as int] == v@[k as int]@);
            lemma_lex_total(old_t[k as int], x@);
        }
    }
    v.insert(k, x);
    proof {
        let nt = texts(v@);
        assert(nt =~= old_t.insert(k as int, x@));
        assert forall|i: int, j: int| 0 <= i < j < nt.len() implies lex_lt(
            #[trigger] nt[i],
            #[trigger] nt[j],
        ) by {
            if j < k {
            } else if j == k {
            } else if i == k {
                if j - 1 > k {
                    lemma_lex_transitive(x@, old_t[k as int], old_t[j - 1]);
                }
            } else if i < k {
                assert(lex_lt(old_t[i], x@));
                if j - 1 == k {
                    lemma_lex_transitive(old_t[i], x@, old_t[k as int]);
                } else {
                    lemma_lex_transitive(old_t[i], x@, old_t[k as int]);
                    lemma_lex_transitive(old_t[i], old_t[k as int], old_t[j - 1]);
                }
            } else {
            }
        }
        assert(nt.to_set() =~= old_t.to_set().insert(x@)) by {
            assert forall|y: Seq<char>| nt.to_set().contains(y) implies old_t.to_set().insert(
                x@,
            ).contains(y) by {
                let i = choose|i: int| 0 <= i < nt.len() && nt[i] == y;
                if i < k {
                    assert(old_t[i] == y);
                } else if i > k {
                    assert(old_t[i - 1] == y);
                }
            }
            assert forall|y: Seq<char>| old_t.to_set().insert(x@).contains(y) implies nt.to_set().contains(
                y,
            ) by {
                if y == x@ {
                    assert(nt[k as int] == y);
                } else {
                    let i = choose|i: int| 0 <= i < old_t.len() && old_t[i] == y;
                    if i < k {
                        assert(nt[i] == y);
                    } else {
                        assert(nt[i + 1] == y);
                    }
                }
            }
        }
    }
}

/// `join(texts(u), sep)` as a new vector.
pub fn join_texts(u: &Vec<Vec<char>>, sep: &Vec<char>) -> (r: Vec<char>)
    ensures
        r@ == join(texts(u@), sep@),
{
    let mut r: Vec<char> = Vec::new();
    let mut i: usize = 0;
    while i < u.len()
        invariant
            i <= u.len(),
            r@ == join(texts(u@).take(i as int), sep@),
        decreases u.len() - i,
    {
        let ghost prev = r@;
        if i > 0 {
            let mut j: usize = 0;
            while j < sep.len()
                invariant
                    j <= sep.len(),
                    r@ == prev + sep@.take(j as int),
                decreases sep.len() - j,
            {
                r.push(sep[j]);
                assert(sep@.take(j + 1) =~= sep@.take(j as int).push(sep@[j as int]));
                j += 1;
            }
            assert(sep@.take(sep.len() as int) =~= sep@);
        }
        let ghost mid = r@;
        let item = &u[i];
        let mut j: usize = 0;
        while j < item.len()
            invariant
                j <= item.len(),
                r@ == mid + item@.take(j as int),
            decreases item.len() - j,
        {
            r.push(item[j]);
            assert(item@.take(j + 1) =~= item@.take(j as int).push(item@[j as int]));
            j += 1;
        }
        proof {
            assert(item@.take(item.len() as int) =~= item@);
            let t = texts(u@).take(i + 1);
            assert(t.drop_last() =~= texts(u@).take(i as int));
            assert(t.last() == item@);
            if i == 0 {
                assert(r@ =~= item@);
            }
        }
        i += 1;
    }
    assert(texts(u@).take(u.len() as int) =~= texts(u@));
    r
}

/// Two strictly sorted sequences with the same elements are equal.
pub proof fn lemma_sorted_unique(a: Seq<Seq<char>>, b: Seq<Seq<char>>)
    requires
        strictly_sorted(a),
        strictly_sorted(b),
        a.to_set() == b.to_set(),
    ensures
        a == b,
    decreases a.len(),
{
    if a.len() == 0 {
        if b.len() > 0 {
            assert(b.to_set().contains(b[0]));
        }
        assert(a =~= b);
    } else {
        assert(a.to_set().contains(a[0]));
        if b.len() == 0 {
            assert(false);
        }
        assert(b.to_set().contains(b[0]));
        let i = choose|i: int| 0 <= i < a.len() && a[i] == b[0];
        let j = choose|j: int| 0 <= j < b.len() && b[j] == a[0];
        if j > 0 {
            assert(lex_lt(b[0], b[j]));
            if i > 0 {
                assert(lex_lt(a[0], a[i]));
                lemma_lex_asymmetric(a[0], a[i]);
            } else {
                lemma_lex_irreflexive(a[0]);
            }
        }
        assert(a[0] == b[0]);
        let a1 = a.drop_first();
        let b1 = b.drop_first();
        assert forall|y: Seq<char>| a1.to_set().contains(y) <==> b1.to_set().contains(y) by {
            if a1.to_set().contains(y) {
                let p = choose|p: int| 0 <= p < a1.len() && a1[p] == y;
                assert(a[p + 1] == y);
                assert(a.to_set().contains(y));
                assert(lex_lt(a[0], a[p + 1]));
                lemma_lex_irreflexive(y);
                let q = choose|q: int| 0 <= q < b.len() && b[q] == y;
                assert(q != 0);
                assert(b1[q - 1] == y);
            }
            if b1.to_set().contains(y) {
                let p = choose|p: int| 0 <= p < b1.len() && b1[p] == y;
                assert(b[p + 1] == y);
                assert(b.to_set().contains(y));
                assert(lex_lt(b[0], b[p + 1]));
                lemma_lex_irreflexive(y);
                let q = choose|q: int| 0 <= q < a.len() && a[q] == y;
                assert(q != 0);
                assert(a1[q - 1] == y);
            }
        }
        assert(a1.to_set() =~= b1.to_set());
        lemma_sorted_unique(a1, b1);
        assert(a =~= seq![a[0]] + a1);
        assert(b =~= seq![b[0]] + b1);
    }
}

/// Where `y` goes in the strictly sorted `u`: after every element below it.
pub open spec fn insert_pos(u: Seq<Seq<char>>, y: Seq<char>) -> int
    decreases u.len(),
{
    if u.len() == 0 {
        0
    } else if lex_lt(u.last(), y) {
        u.len() as int
    } else {
        insert_pos(u.drop_last(), y)
    }
}

proof fn lemma_insert_pos(u: Seq<Seq<char>>, y: Seq<char>)
    requires
        strictly_sorted(u),
        !u.contains(y),
    ensures
        0 <= insert_pos(u, y) <= u.len(),
        forall|i: int| 0 <= i < insert_pos(u, y) ==> lex_lt(#[trigger] u[i], y),
        forall|i: int| insert_pos(u, y) <= i < u.len() ==> lex_lt(y, #[trigger] u[i]),
    decreases u.len(),
{
    if u.len() > 0 {
        let d = u.drop_last();
        assert(strictly_sorted(d)) by {
            assert forall|i: int, j: int| 0 <= i < j < d.len() implies lex_lt(#[trigger] d[i], #[trigger] d[j]) by {
                assert(d[i] == u[i] && d[j] == u[j]);
            }
        }
        if lex_lt(u.last(), y) {
            assert forall|i: int| 0 <= i < u.len() implies lex_lt(#[trigger] u[i], y) by {
                if i < u.len() - 1 {
                    lemma_lex_transitive(u[i], u.last(), y);
                }
            }
        } else {
            assert(u.last() != y) by {
                assert(u[u.len() - 1] == u.last());
            }
            lemma_lex_total(u.last(), y);
            assert(!d.contains(y)) by {
                if d.contains(y) {
                    let i = choose|i: int| 0 <= i < d.len() && d[i] == y;
                    assert(u[i] == y);
                }
            }
            lemma_insert_pos(d, y);
            assert forall|i: int| insert_pos(u, y) <= i < u.len() implies lex_lt(y, #[trigger] u[i]) by {
                if i < u.len() - 1 {
                    assert(u[i] == d[i]);
                }
            }
            assert forall|i: int| 0 <= i < insert_pos(u, y) implies lex_lt(#[trigger] u[i], y) by {
                assert(u[i] == d[i]);
            }
        }
    }
}

/// Every finite set of names has a strictly sorted enumeration.
pub proof fn lemma_sorted_exists(s: Set<Seq<char>>)
    requires
        s.finite(),
    ensures
        exists|u: Seq<Seq<char>>| strictly_sorted(u) && u.to_set() == s,
    decreases s.len(),
{
    if s.len() == 0 {
        s.lemma_len0_is_empty();
        let u = Seq::<Seq<char>>::empty();
        assert(u.to_set() =~= s);
        assert(strictly_sorted(u));
    } else {
        let x = s.choose();
        assert(s.contains(x)) by {
            if !s.contains(x) {
                s.lemma_len0_is_empty();
            }
        }
        let r = s.remove(x);
        lemma_sorted_exists(r);
        let v = choose|v: Seq<Seq<char>>| strictly_sorted(v) && v.to_set() == r;
        assert(!v.contains(x)) by {
            if v.contains(x) {
                assert(v.to_set().contains(x));
            }
        }
        lemma_insert_pos(v, x);
        let p = insert_pos(v, x);
        let u = v.insert(p, x);
        assert forall|i: int, j: int| 0 <= i < j < u.len() implies lex_lt(#[trigger] u[i], #[trigger] u[j]) by {
            if j < p {
                assert(u[i] == v[i] && u[j] == v[j]);
            } else if j == p {
                assert(u[i] == v[i]);
            } else if i == p {
                assert(u[j] == v[j - 1]);
            } else if i < p {
                assert(u[i] == v[i] && u[j] == v[j - 1]);
                lemma_lex_transitive(v[i], x, v[j - 1]);
            } else {
                assert(u[i] == v[i - 1] && u[j] == v[j - 1]);
            }
        }
        assert(u.to_set() =~= s) by {
            assert forall|y: Seq<char>| u.to_set().contains(y) implies s.contains(y) by {
                let i = choose|i: int| 0 <= i < u.len() && u[i] == y;
                if i < p {
                    assert(v[i] == y);
                    assert(v.to_set().contains(y));
                } else if i > p {
                    assert(v[i - 1] == y);
                    assert(v.to_set().contains(y));
                }
            }
            assert forall|y: Seq<char>| s.contains(y) implies u.to_set().contains(y) by {
                if y == x {
                    assert(u[p] == y);
                } else {
                    assert(r.contains(y));
                    assert(v.to_set().contains(y));
                    let i = choose|i: int| 0 <= i < v.len() && v[i] == y;
                    if i < p {
                        assert(u[i] == y);
                    } else {
                        assert(u[i + 1] == y);
                    }
                }
            }
        }
    }
}

/// A strictly sorted sequence has as many elements as its set.
pub proof fn lemma_sorted_len(a: Seq<Seq<char>>)
    requires
        strictly_sorted(a),
    ensures
        a.to_set().len() == a.len(),
{
    assert forall|i: int, j: int| 0 <= i < a.len() && 0 <= j < a.len() && i != j implies a[i]
        != a[j] by {
        if i < j {
            assert(lex_lt(a[i], a[j]));
        } else {
            assert(lex_lt(a[j], a[i]));
        }
        lemma_lex_irreflexive(a[i]);
    }
    assert(a.no_duplicates());
    a.unique_seq_to_set();
}

} // verus!

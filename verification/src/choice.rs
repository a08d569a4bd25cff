use itertools::Itertools;
use vstd::prelude::*;

verus! {

/// The index tuple of a `Vec<usize>` or array as mathematical integers.
pub open spec fn idx_seq(v: Seq<usize>) -> Seq<int> {
    v.map_values(|x: usize| x as int)
}

/// `a` comes before `b` in lexicographic order.
pub open spec fn lex_lt(a: Seq<int>, b: Seq<int>) -> bool {
    exists|i: int|
        0 <= i < a.len() && i < b.len() && a.subrange(0, i) == b.subrange(0, i) && #[trigger] a[i]
            < b[i]
}

/// The order in which mixes are tried: fewer parts first, then lexicographically.
pub open spec fn choice_lt(a: Seq<int>, b: Seq<int>) -> bool {
    a.len() < b.len() || (a.len() == b.len() && lex_lt(a, b))
}

/// All entries are indices below `n`.
pub open spec fn all_below(t: Seq<int>, n: int) -> bool {
    forall|i: int| 0 <= i < t.len() ==> 0 <= #[trigger] t[i] < n
}

/// A way to pick `t.len()` of `n` items without repetition, as an increasing index tuple.
pub open spec fn is_combination(t: Seq<int>, n: int) -> bool {
    &&& all_below(t, n)
    &&& forall|i: int, j: int| 0 <= i < j < t.len() ==> #[trigger] t[i] < #[trigger] t[j]
}

/// A way to pick `t.len()` of `n` items with repetition, as a non-decreasing index tuple.
pub open spec fn is_multiset_choice(t: Seq<int>, n: int) -> bool {
    &&& all_below(t, n)
    &&& forall|i: int, j: int| 0 <= i <= j < t.len() ==> #[trigger] t[i] <= #[trigger] t[j]
}

/// `t` satisfies `dom`, has the least `key` among all tuples satisfying `dom`,
/// and comes first in `choice_lt` order among those with that same key.
pub open spec fn is_first_min(
    t: Seq<int>,
    dom: spec_fn(Seq<int>) -> bool,
    key: spec_fn(Seq<int>) -> int,
) -> bool {
    &&& dom(t)
    &&& forall|u: Seq<int>| #[trigger]
        dom(u) ==> key(t) <= key(u) && (key(u) == key(t) && u != t ==> choice_lt(t, u))
}

/// The first tuple of least key among those satisfying `dom`, if there is one.
pub open spec fn first_min(dom: spec_fn(Seq<int>) -> bool, key: spec_fn(Seq<int>) -> int) -> Option<
    Seq<int>,
> {
    if exists|t: Seq<int>| is_first_min(t, dom, key) {
        Some(choose|t: Seq<int>| is_first_min(t, dom, key))
    } else {
        None
    }
}

/// Lexicographic order is a strict order: never both ways, never reflexive.
pub proof fn lemma_lex_lt_asymmetric(a: Seq<int>, b: Seq<int>)
    requires
        lex_lt(a, b),
    ensures
        !lex_lt(b, a),
        a != b,
{
    let i = choose|i: int|
        0 <= i < a.len() && i < b.len() && a.subrange(0, i) == b.subrange(0, i) && #[trigger] a[i]
            < b[i];
    if lex_lt(b, a) {
        let j = choose|j: int|
            0 <= j < b.len() && j < a.len() && b.subrange(0, j) == a.subrange(0, j) && #[trigger] b[j]
                < a[j];
        if i < j {
            assert(b.subrange(0, j)[i] == a.subrange(0, j)[i]);
        } else if j < i {
            assert(b.subrange(0, i)[j] == a.subrange(0, i)[j]);
        }
    }
}

/// The order in which mixes are tried is strict.
pub proof fn lemma_choice_lt_asymmetric(a: Seq<int>, b: Seq<int>)
    requires
        choice_lt(a, b),
    ensures
        !choice_lt(b, a),
        a != b,
{
    if a.len() == b.len() {
        lemma_lex_lt_asymmetric(a, b);
    }
}

/// A first minimum is unique, so `first_min` returns it.
pub proof fn lemma_first_min_is(
    t: Seq<int>,
    dom: spec_fn(Seq<int>) -> bool,
    key: spec_fn(Seq<int>) -> int,
)
    requires
        is_first_min(t, dom, key),
    ensures
        first_min(dom, key) == Some(t),
{
    let t2 = choose|t2: Seq<int>| is_first_min(t2, dom, key);
    assert(is_first_min(t2, dom, key));
    if t2 != t {
        assert(dom(t2));
        assert(dom(t));
        assert(key(t) <= key(t2));
        assert(key(t2) <= key(t));
        assert(choice_lt(t, t2));
        assert(choice_lt(t2, t));
        lemma_choice_lt_asymmetric(t, t2);
    }
}

/// With nothing satisfying `dom` there is no first minimum.
pub proof fn lemma_first_min_none(dom: spec_fn(Seq<int>) -> bool, key: spec_fn(Seq<int>) -> int)
    requires
        forall|u: Seq<int>| !#[trigger] dom(u),
    ensures
        first_min(dom, key) is None,
{
}

/// All entries are at least zero.
pub open spec fn nonneg_entries(t: Seq<int>) -> bool {
    forall|i: int| 0 <= i < t.len() ==> 0 <= #[trigger] t[i]
}

proof fn least_key(dom: spec_fn(Seq<int>) -> bool, key: spec_fn(Seq<int>) -> int, u: Seq<int>) -> (m: Seq<int>)
    requires
        dom(u),
        forall|v: Seq<int>| #[trigger] dom(v) ==> key(v) >= 0,
    ensures
        dom(m),
        forall|v: Seq<int>| #[trigger] dom(v) ==> key(m) <= key(v),
    decreases key(u),
{
    if exists|v: Seq<int>| #[trigger] dom(v) && key(v) < key(u) {
        let v = choose|v: Seq<int>| #[trigger] dom(v) && key(v) < key(u);
        least_key(dom, key, v)
    } else {
        u
    }
}

proof fn shortest(dom: spec_fn(Seq<int>) -> bool, u: Seq<int>) -> (m: Seq<int>)
    requires
        dom(u),
    ensures
        dom(m),
        forall|v: Seq<int>| #[trigger] dom(v) ==> m.len() <= v.len(),
    decreases u.len(),
{
    if exists|v: Seq<int>| #[trigger] dom(v) && v.len() < u.len() {
        let v = choose|v: Seq<int>| #[trigger] dom(v) && v.len() < u.len();
        shortest(dom, v)
    } else {
        u
    }
}

/// Among the tuples of `dom` that start with `p` (of length `j`), one whose entry `j` is least.
proof fn least_at(dom: spec_fn(Seq<int>) -> bool, p: Seq<int>, j: int, w: Seq<int>) -> (m: Seq<int>)
    requires
        dom(w),
        0 <= j < w.len(),
        w.subrange(0, j) == p,
        forall|v: Seq<int>| #[trigger] dom(v) ==> v.len() == w.len() && nonneg_entries(v),
    ensures
        dom(m),
        m.subrange(0, j) == p,
        forall|v: Seq<int>| #[trigger] dom(v) && v.subrange(0, j) == p ==> m[j] <= v[j],
    decreases w[j],
{
    if exists|v: Seq<int>| #[trigger] dom(v) && v.subrange(0, j) == p && v[j] < w[j] {
        let v = choose|v: Seq<int>| #[trigger] dom(v) && v.subrange(0, j) == p && v[j] < w[j];
        assert(nonneg_entries(v));
        assert(0 <= v[j]);
        least_at(dom, p, j, v)
    } else {
        w
    }
}

proof fn first_difference(a: Seq<int>, b: Seq<int>, i: int) -> (r: int)
    requires
        a.len() == b.len(),
        0 <= i <= a.len(),
        a.subrange(0, i) == b.subrange(0, i),
        a != b,
    ensures
        i <= r < a.len(),
        a.subrange(0, r) == b.subrange(0, r),
        a[r] != b[r],
    decreases a.len() - i,
{
    if i == a.len() {
        assert(a =~= a.subrange(0, i));
        assert(b =~= b.subrange(0, i));
        i
    } else if a[i] != b[i] {
        i
    } else {
        assert(a.subrange(0, i + 1) =~= a.subrange(0, i).push(a[i]));
        assert(b.subrange(0, i + 1) =~= b.subrange(0, i).push(b[i]));
        first_difference(a, b, i + 1)
    }
}

/// Builds, entry by entry, the lexicographically least tuple of `dom`, whose
/// tuples all have length `len`; `p` is the part built so far.
proof fn lex_least(dom: spec_fn(Seq<int>) -> bool, len: int, p: Seq<int>, w: Seq<int>) -> (m: Seq<int>)
    requires
        dom(w),
        w.len() == len,
        0 <= p.len() <= len,
        w.subrange(0, p.len() as int) == p,
        forall|v: Seq<int>| #[trigger] dom(v) ==> v.len() == len && nonneg_entries(v),
        forall|i: int, v: Seq<int>|
            #![trigger dom(v), v[i]]
            0 <= i < p.len() && dom(v) && v.subrange(0, i) == p.subrange(0, i) ==> p[i] <= v[i],
    ensures
        dom(m),
        forall|v: Seq<int>| #[trigger] dom(v) && v != m ==> lex_lt(m, v),
    decreases len - p.len(),
{
    let j = p.len() as int;
    if j == len {
        assert(w =~= w.subrange(0, j));
        assert forall|v: Seq<int>| #[trigger] dom(v) && v != w implies lex_lt(w, v) by {
            assert(w.subrange(0, 0) =~= v.subrange(0, 0));
            let r = first_difference(w, v, 0);
            assert(p.subrange(0, r) =~= w.subrange(0, r));
            assert(w[r] <= v[r]);
        }
        w
    } else {
        let w2 = least_at(dom, p, j, w);
        let p2 = p.push(w2[j]);
        assert(w2.subrange(0, j + 1) =~= w2.subrange(0, j).push(w2[j]));
        assert forall|i: int, v: Seq<int>|
            #![trigger dom(v), v[i]]
            0 <= i < p2.len() && dom(v) && v.subrange(0, i) == p2.subrange(0, i) implies p2[i] <= v[i] by {
            if i < j {
                assert(p2.subrange(0, i) =~= p.subrange(0, i));
            } else {
                assert(p2.subrange(0, i) =~= p);
            }
        }
        lex_least(dom, len, p2, w2)
    }
}

/// A non-empty set of tuples with non-negative entries and non-negative keys
/// has a first tuple of least key.
pub proof fn lemma_first_min_exists(
    dom: spec_fn(Seq<int>) -> bool,
    key: spec_fn(Seq<int>) -> int,
    u: Seq<int>,
)
    requires
        dom(u),
        forall|v: Seq<int>| #[trigger] dom(v) ==> key(v) >= 0 && nonneg_entries(v),
    ensures
        first_min(dom, key) is Some,
{
    let m = least_key(dom, key, u);
    let d2 = |v: Seq<int>| dom(v) && key(v) == key(m);
    let s = shortest(d2, m);
    let d3 = |v: Seq<int>| d2(v) && v.len() == s.len();
    assert(s.subrange(0, 0) =~= Seq::<int>::empty());
    let t = lex_least(d3, s.len() as int, Seq::<int>::empty(), s);
    assert forall|v: Seq<int>| #[trigger] dom(v) implies key(t) <= key(v) && (key(v) == key(t) && v != t ==> choice_lt(t, v)) by {
        if key(v) == key(t) && v != t {
            assert(d2(v));
            if v.len() == s.len() {
                assert(d3(v));
            }
        }
    }
    assert(is_first_min(t, dom, key));
}

/// All strictly increasing index 4-tuples below `n`, in lexicographic order,
/// computed by `itertools::Itertools::array_combinations::<4>` on `0..n`.
#[verifier::external_body]
pub(crate) fn index_combinations_4(n: usize) -> (r: Vec<[usize; 4]>)
    ensures
        forall|i: int|
            0 <= i < r.len() ==> #[trigger] is_combination(idx_seq(r[i]@), n as int),
        forall|i: int, j: int|
            0 <= i < j < r.len() ==> lex_lt(#[trigger] idx_seq(r[i]@), #[trigger] idx_seq(r[j]@)),
        forall|t: Seq<int>|
            t.len() == 4 && #[trigger] is_combination(t, n as int) ==> exists|i: int|
                0 <= i < r.len() && #[trigger] idx_seq(r[i]@) == t,
{
    (0..n).array_combinations::<4>().collect()
}

/// All non-decreasing index tuples of length `k` below `n`, in lexicographic
/// order, computed by `itertools::Itertools::combinations_with_replacement` on `0..n`.
#[verifier::external_body]
pub(crate) fn index_multisets(n: usize, k: usize) -> (r: Vec<Vec<usize>>)
    requires
        k >= 1,
    ensures
        forall|i: int|
            0 <= i < r.len() ==> #[trigger] r[i]@.len() == k && is_multiset_choice(
                idx_seq(r[i]@),
                n as int,
            ),
        forall|i: int, j: int|
            0 <= i < j < r.len() ==> lex_lt(#[trigger] idx_seq(r[i]@), #[trigger] idx_seq(r[j]@)),
        forall|t: Seq<int>|
            t.len() == k && #[trigger] is_multiset_choice(t, n as int) ==> exists|i: int|
                0 <= i < r.len() && #[trigger] idx_seq(r[i]@) == t,
{
    (0..n).combinations_with_replacement(k).collect()
}

} // verus!

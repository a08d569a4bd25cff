use vstd::prelude::*;

use crate::choice::{
    choice_lt, idx_seq, index_multisets, is_first_min, is_multiset_choice, lemma_lex_lt_asymmetric,
    lex_lt,
};
use crate::color::{distance_squared_spec, Color};
use crate::mixing::{lemma_sums_bounded, max_channel, mixed_color_spec, sum_max, MixedColor};

verus! {

/// The largest number of parts a mix may have: beyond it the running totals of
/// a `MixedColor` overflow `i32`.
pub const MAX_MIX_PARTS: usize = 8421504;

/// The colours picked by an index tuple.
pub open spec fn pick(colors: Seq<Color>, t: Seq<int>) -> Seq<Color> {
    t.map_values(|i: int| colors[i])
}

/// The colour obtained by mixing the colours picked by an index tuple.
pub open spec fn mix_of(colors: Seq<Color>, t: Seq<int>) -> Color {
    mixed_color_spec(pick(colors, t))
}

/// A mix of between 1 and `k` parts taken, with repetition, from `n` colours.
pub open spec fn is_mix_choice(t: Seq<int>, n: int, k: int) -> bool {
    1 <= t.len() <= k && is_multiset_choice(t, n)
}

/// The mixes that may be chosen: those of at most `k` parts that were accepted.
pub open spec fn mix_dom(n: int, k: int, accepted: spec_fn(Seq<int>) -> bool) -> spec_fn(
    Seq<int>,
) -> bool {
    |u: Seq<int>| is_mix_choice(u, n, k) && accepted(u)
}

/// Mixes are ranked by the squared distance of their colour to the target.
pub open spec fn mix_key(colors: Seq<Color>, target: Color) -> spec_fn(Seq<int>) -> int {
    |u: Seq<int>| distance_squared_spec(mix_of(colors, u), target)
}

/// `r` is what `closest_accepted_mix` gives when the filter answered `accepted(u)`
/// for the colour of each mix `u`: the accepted mix whose colour is closest to
/// the target (the first one tried among equally close ones), or `None` when
/// no mix was accepted.
pub open spec fn closest_mix_result(
    colors: Seq<Color>,
    target: Color,
    k: int,
    accepted: spec_fn(Seq<int>) -> bool,
    r: Option<(Color, Seq<Color>)>,
) -> bool {
    match r {
        Some((c, m)) => exists|t: Seq<int>|
            #[trigger] is_first_min(t, mix_dom(colors.len() as int, k, accepted), mix_key(colors, target))
                && c == mix_of(colors, t) && m == pick(colors, t),
        None => forall|u: Seq<int>| !#[trigger] mix_dom(colors.len() as int, k, accepted)(u),
    }
}

/// Allowing more parts never gives a farther colour: with the same answers of
/// the filter, when mixes of at most `k1` parts give a closest accepted mix,
/// mixes of at most `k2 >= k1` parts give one too, at least as close to the target.
pub proof fn lemma_more_parts_never_farther(
    colors: Seq<Color>,
    target: Color,
    k1: int,
    k2: int,
    accepted: spec_fn(Seq<int>) -> bool,
    r1: Option<(Color, Seq<Color>)>,
    r2: Option<(Color, Seq<Color>)>,
)
    requires
        k1 <= k2,
        closest_mix_result(colors, target, k1, accepted, r1),
        closest_mix_result(colors, target, k2, accepted, r2),
    ensures
        r1 matches Some((c1, _)) ==> (r2 matches Some((c2, _)) && distance_squared_spec(c2, target)
            <= distance_squared_spec(c1, target)),
{
    let n = colors.len() as int;
    if let Some((c1, m1)) = r1 {
        let t1 = choose|t: Seq<int>|
            #[trigger] is_first_min(t, mix_dom(n, k1, accepted), mix_key(colors, target))
                && c1 == mix_of(colors, t) && m1 == pick(colors, t);
        assert(mix_dom(n, k1, accepted)(t1));
        assert(mix_dom(n, k2, accepted)(t1));
        if let Some((c2, m2)) = r2 {
            let t2 = choose|t: Seq<int>|
                #[trigger] is_first_min(t, mix_dom(n, k2, accepted), mix_key(colors, target))
                    && c2 == mix_of(colors, t) && m2 == pick(colors, t);
            assert(mix_key(colors, target)(t2) <= mix_key(colors, target)(t1));
        }
    }
}

/// What `find_closest_mix` promises of its result `r` for `filter` and at most `k` parts.
pub open spec fn closest_mix_ensures<F: Fn(Color) -> bool>(
    colors: Seq<Color>,
    target: Color,
    k: int,
    filter: F,
    r: (Color, Seq<Color>),
) -> bool {
    exists|accepted: spec_fn(Seq<int>) -> bool|
        {
            &&& forall|u: Seq<int>|
                #[trigger] is_mix_choice(u, colors.len() as int, k) ==> call_ensures(
                    filter,
                    (mix_of(colors, u),),
                    accepted(u),
                )
            &&& closest_mix_result(colors, target, k, accepted, Some(r))
        }
}

/// Allowing more parts never gives a farther colour, for a filter whose
/// answer depends only on the colour (`pred`): the results of two calls of
/// `find_closest_mix`, with at most `k1` and at most `k2 >= k1` parts, are at
/// least as close to the target the second time.
pub proof fn lemma_find_closest_mix_more_parts<F: Fn(Color) -> bool>(
    colors: Seq<Color>,
    target: Color,
    k1: int,
    k2: int,
    filter: F,
    pred: spec_fn(Color) -> bool,
    r1: (Color, Seq<Color>),
    r2: (Color, Seq<Color>),
)
    requires
        k1 <= k2,
        forall|c: Color, b: bool| call_ensures(filter, (c,), b) ==> b == pred(c),
        closest_mix_ensures(colors, target, k1, filter, r1),
        closest_mix_ensures(colors, target, k2, filter, r2),
    ensures
        distance_squared_spec(r2.0, target) <= distance_squared_spec(r1.0, target),
{
    let n = colors.len() as int;
    let acc = |u: Seq<int>| pred(mix_of(colors, u));
    let acc1 = choose|accepted: spec_fn(Seq<int>) -> bool|
        {
            &&& forall|u: Seq<int>|
                #[trigger] is_mix_choice(u, n, k1) ==> call_ensures(filter, (mix_of(colors, u),), accepted(u))
            &&& closest_mix_result(colors, target, k1, accepted, Some(r1))
        };
    let acc2 = choose|accepted: spec_fn(Seq<int>) -> bool|
        {
            &&& forall|u: Seq<int>|
                #[trigger] is_mix_choice(u, n, k2) ==> call_ensures(filter, (mix_of(colors, u),), accepted(u))
            &&& closest_mix_result(colors, target, k2, accepted, Some(r2))
        };
    assert(mix_dom(n, k1, acc1) =~= mix_dom(n, k1, acc)) by {
        assert forall|u: Seq<int>| #[trigger] mix_dom(n, k1, acc1)(u) == mix_dom(n, k1, acc)(u) by {
            if is_mix_choice(u, n, k1) {
                assert(call_ensures(filter, (mix_of(colors, u),), acc1(u)));
            }
        }
    }
    assert(mix_dom(n, k2, acc2) =~= mix_dom(n, k2, acc)) by {
        assert forall|u: Seq<int>| #[trigger] mix_dom(n, k2, acc2)(u) == mix_dom(n, k2, acc)(u) by {
            if is_mix_choice(u, n, k2) {
                assert(call_ensures(filter, (mix_of(colors, u),), acc2(u)));
            }
        }
    }
    assert(closest_mix_result(colors, target, k1, acc, Some(r1)));
    assert(closest_mix_result(colors, target, k2, acc, Some(r2)));
    lemma_more_parts_never_farther(colors, target, k1, k2, acc, Some(r1), Some(r2));
}

/// The view of a result of `closest_accepted_mix`.
pub open spec fn closest_mix_view(r: Option<(Color, Vec<Color>)>) -> Option<(Color, Seq<Color>)> {
    match r {
        Some((c, m)) => Some((c, m@)),
        None => None,
    }
}

impl Color {
    /// Tries every mix of 1 to `max_mix_colors` parts of `colors` (fewest
    /// parts first, then in lexicographic order of the parts' positions), keeps
    /// those whose colour `filter` accepts, and returns the colour and parts
    /// of the one closest to `self`; `None` when no mix is accepted.
    pub fn closest_accepted_mix(
        &self,
        colors: &[Color],
        max_mix_colors: usize,
        filter: impl Fn(Color) -> bool,
    ) -> (r: Option<(Color, Vec<Color>)>)
        requires
            colors@.len() > 0 ==> max_mix_colors <= MAX_MIX_PARTS,
            forall|c: Color| #[trigger] call_requires(filter, (c,)),
        ensures
            exists|accepted: spec_fn(Seq<int>) -> bool|
                {
                    &&& forall|u: Seq<int>|
                        #[trigger] is_mix_choice(u, colors@.len() as int, max_mix_colors as int)
                            ==> call_ensures(filter, (mix_of(colors@, u),), accepted(u))
                    &&& closest_mix_result(
                        colors@,
                        *self,
                        max_mix_colors as int,
                        accepted,
                        closest_mix_view(r),
                    )
                },
    {
        let n = colors.len();
        let k = max_mix_colors;
        let ghost cs = colors@;
        let ghost key = mix_key(cs, *self);
        if n == 0 {
            let ghost acc = |u: Seq<int>| false;
            assert forall|u: Seq<int>| !#[trigger] mix_dom(0, k as int, acc)(u) by {
                if u.len() > 0 {
                    assert(u[0] < 0 || !is_multiset_choice(u, 0));
                }
            }
            assert forall|u: Seq<int>|
                #[trigger] is_mix_choice(u, colors@.len() as int, max_mix_colors as int) implies call_ensures(
                filter,
                (mix_of(colors@, u),),
                acc(u),
            ) by {
                assert(u[0] < 0 || !is_multiset_choice(u, 0));
            }
            assert(closest_mix_result(colors@, *self, max_mix_colors as int, acc, closest_mix_view(None)));
            return None;
        }
        let ghost mut seen: Map<Seq<int>, bool> = Map::empty();
        let mut best: Option<(Color, Vec<Color>)> = None;
        let mut best_d: u32 = 0;
        let ghost mut best_t: Seq<int> = Seq::empty();
        let mut num: usize = 1;
        while num <= k
            invariant
                n == colors@.len(),
                n > 0,
                k == max_mix_colors,
                k <= MAX_MIX_PARTS,
                cs == colors@,
                key == mix_key(cs, *self),
                1 <= num <= k + 1,
                forall|c: Color| #[trigger] call_requires(filter, (c,)),
                forall|u: Seq<int>|
                    #[trigger] seen.contains_key(u) <==> is_mix_choice(u, n as int, num - 1),
                forall|u: Seq<int>|
                    #[trigger] seen.contains_key(u) ==> call_ensures(
                        filter,
                        (mix_of(cs, u),),
                        seen[u],
                    ),
                best is None ==> forall|u: Seq<int>| #[trigger] seen.contains_key(u) ==> !seen[u],
                best matches Some((c, m)) ==> {
                    &&& seen.contains_key(best_t)
                    &&& seen[best_t]
                    &&& c == mix_of(cs, best_t)
                    &&& m@ == crate::search::pick(cs, best_t)
                    &&& best_d == key(best_t)
                    &&& forall|u: Seq<int>|
                        #[trigger] seen.contains_key(u) && seen[u] ==> key(best_t) <= key(u) && (key(
                            u,
                        ) == key(best_t) && u != best_t ==> choice_lt(best_t, u))
                },
            decreases k + 1 - num,
        {
            let combos = index_multisets(n, num);
            let ghost seen0 = seen;
            let ghost best_j: int = -1;
            let mut j: usize = 0;
            while j < combos.len()
                invariant
                    n == colors@.len(),
                    n > 0,
                    k == max_mix_colors,
                    k <= MAX_MIX_PARTS,
                    cs == colors@,
                    key == mix_key(cs, *self),
                    1 <= num <= k,
                    0 <= j <= combos.len(),
                    forall|c: Color| #[trigger] call_requires(filter, (c,)),
                    forall|i: int|
                        0 <= i < combos.len() ==> #[trigger] combos[i]@.len() == num
                            && is_multiset_choice(idx_seq(combos[i]@), n as int),
                    forall|i: int, i2: int|
                        0 <= i < i2 < combos.len() ==> lex_lt(
                            #[trigger] idx_seq(combos[i]@),
                            #[trigger] idx_seq(combos[i2]@),
                        ),
                    forall|u: Seq<int>|
                        #[trigger] seen.contains_key(u) <==> (is_mix_choice(u, n as int, num - 1)
                            || exists|i: int| 0 <= i < j && #[trigger] idx_seq(combos[i]@) == u),
                    forall|u: Seq<int>|
                        #[trigger] seen.contains_key(u) ==> call_ensures(
                            filter,
                            (mix_of(cs, u),),
                            seen[u],
                        ),
                    best is None ==> forall|u: Seq<int>|
                        #[trigger] seen.contains_key(u) ==> !seen[u],
                    best matches Some((c, m)) ==> {
                        &&& seen.contains_key(best_t)
                        &&& seen[best_t]
                        &&& c == mix_of(cs, best_t)
                        &&& m@ == crate::search::pick(cs, best_t)
                        &&& best_d == key(best_t)
                        &&& (best_t.len() < num || (0 <= best_j < j && idx_seq(combos[best_j]@)
                            == best_t))
                        &&& forall|u: Seq<int>|
                            #[trigger] seen.contains_key(u) && seen[u] ==> key(best_t) <= key(u) && (
                            key(u) == key(best_t) && u != best_t ==> choice_lt(best_t, u))
                    },
                decreases combos.len() - j,
            {
                let t = &combos[j];
                let ghost ts = idx_seq(t@);
                let mut m = MixedColor::new();
                let mut parts: Vec<Color> = Vec::new();
                let mut p: usize = 0;
                while p < t.len()
                    invariant
                        n == colors@.len(),
                        cs == colors@,
                        ts == idx_seq(t@),
                        t@.len() == num,
                        num <= MAX_MIX_PARTS,
                        is_multiset_choice(ts, n as int),
                        0 <= p <= t@.len(),
                        m@ == parts@,
                        parts@ == crate::search::pick(cs, ts.take(p as int)),
                    decreases t@.len() - p,
                {
                    let idx = t[p];
                    assert(ts[p as int] == idx as int);
                    let c = colors[idx];
                    proof {
                        lemma_sums_bounded(m@);
                        assert(max_channel(c) <= 255);
                    }
                    m.mix(&c);
                    parts.push(c);
                    assert(ts.take(p + 1) =~= ts.take(p as int).push(ts[p as int]));
                    p = p + 1;
                }
                assert(ts.take(p as int) =~= ts);
                let col = m.result();
                assert(col == mix_of(cs, ts));
                let accept = filter(col);
                proof {
                    // every tuple of an earlier round is shorter, every earlier tuple of this
                    // round comes before `ts`; so `ts` is new, and differs from `best_t`
                    if best_t.len() == num && best is Some {
                        lemma_lex_lt_asymmetric(idx_seq(combos[best_j]@), ts);
                    }
                    seen = seen.insert(ts, accept);
                }
                if accept {
                    let d = col.distance_squared(self);
                    let better = match &best {
                        None => true,
                        Some(_) => d < best_d,
                    };
                    if better {
                        best = Some((col, parts));
                        best_d = d;
                        proof {
                            best_t = ts;
                            best_j = j as int;
                        }
                    }
                }
                j = j + 1;
                proof {
                    assert forall|u: Seq<int>|
                        (is_mix_choice(u, n as int, num - 1)
                            || exists|i: int| 0 <= i < j && #[trigger] idx_seq(combos[i]@) == u)
                        implies #[trigger] seen.contains_key(u)
                    by {
                        if exists|i: int| 0 <= i < j && #[trigger] idx_seq(combos[i]@) == u {
                            let i = choose|i: int| 0 <= i < j && #[trigger] idx_seq(combos[i]@) == u;
                            if i < j - 1 {
                                assert(seen0.contains_key(u) || seen.contains_key(u));
                            }
                        }
                    }
                }
            }
            proof {
                assert forall|u: Seq<int>|
                    #[trigger] seen.contains_key(u) <==> is_mix_choice(u, n as int, num as int) by {
                    if is_mix_choice(u, n as int, num as int) && u.len() == num {
                        assert(is_multiset_choice(u, n as int));
                    }
                }
            }
            num = num + 1;
        }
        let ghost acc = |u: Seq<int>| seen.contains_key(u) && seen[u];
        proof {
            assert forall|u: Seq<int>|
                #[trigger] is_mix_choice(u, n as int, k as int) implies call_ensures(
                filter,
                (mix_of(cs, u),),
                acc(u),
            ) by {
                assert(seen.contains_key(u));
            }
            let dom = mix_dom(n as int, k as int, acc);
            if best is Some {
                assert(is_first_min(best_t, dom, key));
            } else {
                assert forall|u: Seq<int>| !#[trigger] dom(u) by {}
            }
            assert(closest_mix_result(colors@, *self, max_mix_colors as int, acc, closest_mix_view(best)));
        }
        best
    }

    /// The colour and parts of the mix of 1 to `max_mix_colors` parts of
    /// `colors` that is closest to `self` among those whose colour `filter`
    /// accepts (the first one tried among equally close ones). Some mix must
    /// be accepted.
    pub fn find_closest_mix(
        &self,
        colors: &[Color],
        max_mix_colors: usize,
        filter: impl Fn(Color) -> bool,
    ) -> (r: (Color, Vec<Color>))
        requires
            colors@.len() > 0 ==> max_mix_colors <= MAX_MIX_PARTS,
            forall|c: Color| #[trigger] call_requires(filter, (c,)),
            exists|u: Seq<int>|
                #[trigger] is_mix_choice(u, colors@.len() as int, max_mix_colors as int) && forall|
                    b: bool,
                | call_ensures(filter, (mix_of(colors@, u),), b) ==> b,
        ensures
            closest_mix_ensures(colors@, *self, max_mix_colors as int, filter, (r.0, r.1@)),
    {
        let found = self.closest_accepted_mix(colors, max_mix_colors, filter);
        proof {
            let u0 = choose|u: Seq<int>|
                #[trigger] is_mix_choice(u, colors@.len() as int, max_mix_colors as int) && forall|
                    b: bool,
                | call_ensures(filter, (mix_of(colors@, u),), b) ==> b;
            let acc = choose|acc: spec_fn(Seq<int>) -> bool|
                {
                    &&& forall|u: Seq<int>|
                        #[trigger] is_mix_choice(u, colors@.len() as int, max_mix_colors as int)
                            ==> call_ensures(filter, (mix_of(colors@, u),), acc(u))
                    &&& closest_mix_result(
                        colors@,
                        *self,
                        max_mix_colors as int,
                        acc,
                        closest_mix_view(found),
                    )
                };
            assert(call_ensures(filter, (mix_of(colors@, u0),), acc(u0)));
            assert(acc(u0));
            if found is None {
                assert(mix_dom(colors@.len() as int, max_mix_colors as int, acc)(u0));
            }
        }
        found.unwrap()
    }
}

} // verus!

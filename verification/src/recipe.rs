use vstd::prelude::*;

use crate::color::Color;
use crate::colormap::ColorMap;
use crate::finder::recipe_views;

verus! {

/// The name under which a colour is shown in a recipe.
#[derive(Debug)]
pub enum Label {
    /// A name given by the caller, such as the name of a dye.
    Named(String),
    /// The `n`-th intermediate colour that had no name, shown as `tmp_n`.
    Temp(usize),
}

/// One line of a recipe: a colour and the parts it is mixed from, each part
/// with its number of repetitions.
#[derive(Debug)]
pub struct MixDisplayInfo {
    pub color: Color,
    pub mix: Vec<(Color, usize)>,
}

/// Runs of equal consecutive colours, each with its length.
pub open spec fn rle(s: Seq<Color>) -> Seq<(Color, int)>
    decreases s.len(),
{
    if s.len() == 0 {
        Seq::empty()
    } else {
        let r = rle(s.drop_last());
        if r.len() > 0 && r.last().0 == s.last() {
            r.drop_last().push((s.last(), r.last().1 + 1))
        } else {
            r.push((s.last(), 1))
        }
    }
}

/// The sequence that a list of runs stands for.
pub open spec fn expand_runs(r: Seq<(Color, int)>) -> Seq<Color>
    decreases r.len(),
{
    if r.len() == 0 {
        Seq::empty()
    } else {
        expand_runs(r.drop_last()) + Seq::new(r.last().1 as nat, |i: int| r.last().0)
    }
}

/// The counts of a list of runs as integers.
pub open spec fn counts_view(v: Seq<(Color, usize)>) -> Seq<(Color, int)> {
    v.map_values(|p: (Color, usize)| (p.0, p.1 as int))
}

/// Inserts `x` after the last element whose count is at most `x`'s.
pub open spec fn insert_by_count(s: Seq<(Color, int)>, x: (Color, int)) -> Seq<(Color, int)>
    decreases s.len(),
{
    if s.len() == 0 {
        seq![x]
    } else if s.last().1 <= x.1 {
        s.push(x)
    } else {
        insert_by_count(s.drop_last(), x).push(s.last())
    }
}

/// Stable sort by increasing count.
pub open spec fn sort_by_count(s: Seq<(Color, int)>) -> Seq<(Color, int)>
    decreases s.len(),
{
    if s.len() == 0 {
        s
    } else {
        insert_by_count(sort_by_count(s.drop_last()), s.last())
    }
}

/// Coalesces equal consecutive colours of `mix` into runs.
fn coalesce_runs(mix: &Vec<Color>) -> (r: Vec<(Color, usize)>)
    ensures
        counts_view(r@) == rle(mix@),
{
    let mut r: Vec<(Color, usize)> = Vec::new();
    let mut i: usize = 0;
    while i < mix.len()
        invariant
            0 <= i <= mix@.len(),
            counts_view(r@) == rle(mix@.take(i as int)),
            forall|j: int| 0 <= j < r@.len() ==> #[trigger] r@[j].1 <= i,
        decreases mix@.len() - i,
    {
        let c = mix[i];
        let ghost s = mix@.take(i + 1);
        assert(s.drop_last() =~= mix@.take(i as int));
        let n = r.len();
        if n > 0 && r[n - 1].0 == c {
            let last = r.pop().unwrap();
            r.push((last.0, last.1 + 1));
            assert(counts_view(r@) =~= rle(s));
        } else {
            r.push((c, 1));
            assert(counts_view(r@) =~= rle(s));
        }
        i = i + 1;
    }
    assert(mix@.take(i as int) =~= mix@);
    r
}

proof fn lemma_insert_by_count_split(a: Seq<(Color, int)>, x: (Color, int), b: Seq<(Color, int)>)
    requires
        a.len() == 0 || a.last().1 <= x.1,
        forall|i: int| 0 <= i < b.len() ==> #[trigger] b[i].1 > x.1,
    ensures
        insert_by_count(a + b, x) == a + seq![x] + b,
    decreases b.len(),
{
    if b.len() == 0 {
        assert(a + b =~= a);
        assert(a + seq![x] + b =~= a.push(x));
    } else {
        let b2 = b.drop_last();
        assert((a + b).drop_last() =~= a + b2);
        assert((a + b).last() == b.last());
        lemma_insert_by_count_split(a, x, b2);
        assert(a + seq![x] + b =~= (a + seq![x] + b2).push(b.last()));
    }
}

/// The runs ordered by increasing count, runs of equal count kept in order.
fn sort_runs_by_count(runs: &Vec<(Color, usize)>) -> (r: Vec<(Color, usize)>)
    ensures
        counts_view(r@) == sort_by_count(counts_view(runs@)),
{
    let ghost orig = counts_view(runs@);
    let mut v: Vec<(Color, usize)> = Vec::new();
    let mut i: usize = 0;
    while i < runs.len()
        invariant
            0 <= i <= runs@.len(),
            orig == counts_view(runs@),
            v@.len() == i,
            counts_view(v@) == sort_by_count(orig.take(i as int)),
        decreases runs@.len() - i,
    {
        let x = runs[i];
        let ghost sorted_before = counts_view(v@);
        v.push(x);
        let mut j: usize = i;
        while j > 0 && v[j - 1].1 > v[j].1
            invariant
                0 <= j <= i,
                v@.len() == i + 1,
                v@[j as int] == x,
                counts_view(v@.take(j as int)) + counts_view(v@.skip(j + 1)) == sorted_before,
                forall|t: int| j < t <= i ==> #[trigger] v@[t].1 > x.1,
            decreases j,
        {
            let a = v[j - 1];
            let b = v[j];
            v.set(j - 1, b);
            v.set(j, a);
            proof {
                assert(counts_view(v@.take(j - 1)) =~= counts_view(v@.take(j as int)).take(j - 1));
            }
            j = j - 1;
            proof {
                assert(counts_view(v@.take(j as int)) + counts_view(v@.skip(j + 1)) =~= sorted_before);
            }
        }
        proof {
            let a = counts_view(v@.take(j as int));
            let b = counts_view(v@.skip(j + 1));
            let xv = (x.0, x.1 as int);
            assert(orig.take(i + 1).drop_last() =~= orig.take(i as int));
            assert(orig.take(i + 1).last() == xv);
            assert forall|t: int| 0 <= t < b.len() implies #[trigger] b[t].1 > xv.1 by {
                assert(b[t] == (v@[j + 1 + t].0, v@[j + 1 + t].1 as int));
            }
            if j > 0 {
                assert(a.last() == (v@[j - 1].0, v@[j - 1].1 as int));
            }
            lemma_insert_by_count_split(a, xv, b);
            assert(counts_view(v@) =~= a + seq![xv] + b);
        }
        i = i + 1;
    }
    assert(orig.take(i as int) =~= orig);
    v
}


/// Every path of recipes followed from `c` ends within `fuel` steps.
pub open spec fn finite_deps(m: Map<Color, Seq<Color>>, c: Color, fuel: nat) -> bool
    decreases fuel, 0int,
{
    fuel > 0 && (m.contains_key(c) ==> all_finite_deps(m, m[c], (fuel - 1) as nat))
}

/// `finite_deps` holds for every colour of `s`.
pub open spec fn all_finite_deps(m: Map<Color, Seq<Color>>, s: Seq<Color>, fuel: nat) -> bool
    decreases fuel, s.len() + 1,
{
    s.len() == 0 || (finite_deps(m, s.last(), fuel) && all_finite_deps(m, s.drop_last(), fuel))
}

proof fn lemma_all_finite_deps(m: Map<Color, Seq<Color>>, s: Seq<Color>, fuel: nat, j: int)
    requires
        all_finite_deps(m, s, fuel),
        0 <= j < s.len(),
    ensures
        finite_deps(m, s[j], fuel),
    decreases s.len(),
{
    if j < s.len() - 1 {
        lemma_all_finite_deps(m, s.drop_last(), fuel, j);
    }
}

/// The recipe lines of a display list.
pub open spec fn display_view(d: Seq<MixDisplayInfo>) -> Seq<(Color, Seq<(Color, int)>)> {
    d.map_values(|x: MixDisplayInfo| (x.color, counts_view(x.mix@)))
}

/// Names, next temporary number and recipe lines.
pub type DepState = (Map<Color, Label>, int, Seq<(Color, Seq<(Color, int)>)>);

/// The walk that lists the recipe of `target`: first the recipes of its
/// parts, run by run, then `target` itself, named `tmp_n` if it had no name,
/// with its runs ordered by count. Colours without a recipe add nothing.
pub open spec fn deps(m: Map<Color, Seq<Color>>, target: Color, st: DepState, fuel: nat) -> DepState
    decreases fuel, 0int, 0int,
{
    if fuel == 0 || !m.contains_key(target) {
        st
    } else {
        let runs = rle(m[target]);
        let st2 = deps_list(m, runs, st, (fuel - 1) as nat);
        let named = st2.0.contains_key(target);
        (
            if named { st2.0 } else { st2.0.insert(target, Label::Temp(st2.1 as usize)) },
            if named { st2.1 } else { st2.1 + 1 },
            st2.2.push((target, sort_by_count(runs))),
        )
    }
}

/// `deps` applied to the colour of each run, in order.
pub open spec fn deps_list(m: Map<Color, Seq<Color>>, runs: Seq<(Color, int)>, st: DepState, fuel: nat) -> DepState
    decreases fuel, 1int, runs.len(),
{
    if runs.len() == 0 {
        st
    } else {
        deps(m, runs.last().0, deps_list(m, runs.drop_last(), st, fuel), fuel)
    }
}

proof fn lemma_rle_colors(s: Seq<Color>)
    ensures
        forall|j: int| 0 <= j < rle(s).len() ==> s.contains(#[trigger] rle(s)[j].0),
    decreases s.len(),
{
    if s.len() > 0 {
        lemma_rle_colors(s.drop_last());
        let r = rle(s.drop_last());
        assert forall|j: int| 0 <= j < rle(s).len() implies s.contains(#[trigger] rle(s)[j].0) by {
            if j < r.len() && !(j == r.len() - 1 && r.len() > 0 && r.last().0 == s.last()) {
                assert(s.drop_last().contains(r[j].0));
                let w = choose|w: int| 0 <= w < s.drop_last().len() && s.drop_last()[w] == r[j].0;
                assert(s[w] == r[j].0);
            } else {
                assert(s[s.len() - 1] == s.last());
            }
        }
    }
}

proof fn lemma_deps_counter_grows(m: Map<Color, Seq<Color>>, c: Color, st: DepState, fuel: nat)
    ensures
        deps(m, c, st, fuel).1 >= st.1,
    decreases fuel, 0int, 0int,
{
    if fuel > 0 && m.contains_key(c) {
        lemma_deps_list_counter_grows(m, rle(m[c]), st, (fuel - 1) as nat);
    }
}

proof fn lemma_deps_list_counter_grows(m: Map<Color, Seq<Color>>, runs: Seq<(Color, int)>, st: DepState, fuel: nat)
    ensures
        deps_list(m, runs, st, fuel).1 >= st.1,
        forall|i: int| 0 <= i <= runs.len() ==> deps_list(m, runs, st, fuel).1 >= #[trigger] deps_list(m, runs.take(i), st, fuel).1,
    decreases fuel, 1int, runs.len(),
{
    if runs.len() > 0 {
        lemma_deps_list_counter_grows(m, runs.drop_last(), st, fuel);
        lemma_deps_counter_grows(m, runs.last().0, deps_list(m, runs.drop_last(), st, fuel), fuel);
        assert forall|i: int| 0 <= i <= runs.len() implies deps_list(m, runs, st, fuel).1 >= #[trigger] deps_list(m, runs.take(i), st, fuel).1 by {
            if i == runs.len() {
                assert(runs.take(i) =~= runs);
            } else {
                assert(runs.drop_last().take(i) =~= runs.take(i));
            }
        }
    }
}

/// Lists the recipe of `target` and of its parts, following `deps` with the given fuel.
fn mix_dep_order_rec(
    target: Color,
    mixes: &ColorMap<Vec<Color>>,
    names: &mut ColorMap<Label>,
    counter: &mut usize,
    display: &mut Vec<MixDisplayInfo>,
    Ghost(fuel): Ghost<nat>,
)
    requires
        finite_deps(recipe_views(mixes@), target, fuel),
        deps(
            recipe_views(mixes@),
            target,
            (old(names)@, *old(counter) as int, display_view(old(display)@)),
            fuel,
        ).1 <= usize::MAX,
    ensures
        (final(names)@, *final(counter) as int, display_view(final(display)@)) == deps(
            recipe_views(mixes@),
            target,
            (old(names)@, *old(counter) as int, display_view(old(display)@)),
            fuel,
        ),
    decreases fuel,
{
    let ghost m = recipe_views(mixes@);
    let ghost st0: DepState = (names@, *counter as int, display_view(display@));
    let mix = match mixes.get(&target) {
        Some(mix) => mix,
        None => {
            return;
        },
    };
    let ghost f1 = (fuel - 1) as nat;
    let runs = coalesce_runs(mix);
    let ghost rv = counts_view(runs@);
    assert(rv == rle(m[target]));
    proof {
        lemma_rle_colors(m[target]);
        lemma_deps_list_counter_grows(m, rv, st0, f1);
    }
    let mut i: usize = 0;
    while i < runs.len()
        invariant
            0 <= i <= runs@.len(),
            m == recipe_views(mixes@),
            rv == counts_view(runs@),
            rv == rle(m[target]),
            m.contains_key(target),
            fuel > 0,
            f1 == fuel - 1,
            finite_deps(m, target, fuel),
            forall|j: int| 0 <= j < rv.len() ==> m[target].contains(#[trigger] rv[j].0),
            deps(m, target, st0, fuel).1 <= usize::MAX,
            deps(m, target, st0, fuel).1 >= deps_list(m, rv, st0, f1).1,
            forall|j: int| 0 <= j <= rv.len() ==> deps_list(m, rv, st0, f1).1 >= #[trigger] deps_list(m, rv.take(j), st0, f1).1,
            (names@, *counter as int, display_view(display@)) == deps_list(m, rv.take(i as int), st0, f1),
        decreases runs@.len() - i,
    {
        let c = runs[i].0;
        assert(rv[i as int].0 == c);
        proof {
            assert(m[target].contains(c));
            let w = choose|w: int| 0 <= w < m[target].len() && m[target][w] == c;
            lemma_all_finite_deps(m, m[target], f1, w);
            assert(rv.take(i + 1).drop_last() =~= rv.take(i as int));
            assert(rv.take(i + 1).last() == rv[i as int]);
            assert(deps_list(m, rv.take(i + 1), st0, f1) == deps(m, c, deps_list(m, rv.take(i as int), st0, f1), f1));
            assert(deps_list(m, rv, st0, f1).1 >= deps_list(m, rv.take(i + 1), st0, f1).1);
        }
        mix_dep_order_rec(c, mixes, names, counter, display, Ghost(f1));
        i = i + 1;
    }
    assert(rv.take(i as int) =~= rv);
    let sorted = sort_runs_by_count(&runs);
    if !names.contains_key(&target) {
        names.insert(target, Label::Temp(*counter));
        *counter = *counter + 1;
    }
    let ghost before = display@;
    display.push(MixDisplayInfo { color: target, mix: sorted });
    assert(display_view(display@) =~= display_view(before).push((target, sort_by_count(rv))));
}


/// Temporary numbers are handed out one per colour that gets a new name, and
/// only colours that have a recipe get one.
pub proof fn lemma_deps_names(m: Map<Color, Seq<Color>>, c: Color, st: DepState, fuel: nat)
    requires
        st.0.dom().finite(),
    ensures
        st.0.dom().subset_of(deps(m, c, st, fuel).0.dom()),
        deps(m, c, st, fuel).0.dom().finite(),
        (deps(m, c, st, fuel).0.dom() - st.0.dom()).subset_of(m.dom()),
        deps(m, c, st, fuel).1 == st.1 + (deps(m, c, st, fuel).0.dom() - st.0.dom()).len(),
    decreases fuel, 0int, 0int,
{
    let r = deps(m, c, st, fuel);
    if fuel == 0 || !m.contains_key(c) {
        assert(r.0.dom() - st.0.dom() =~= Set::<Color>::empty());
    } else {
        let runs = rle(m[c]);
        let st2 = deps_list(m, runs, st, (fuel - 1) as nat);
        lemma_deps_list_names(m, runs, st, (fuel - 1) as nat);
        if !st2.0.contains_key(c) {
            assert(r.0.dom() =~= st2.0.dom().insert(c));
            assert(r.0.dom() - st.0.dom() =~= (st2.0.dom() - st.0.dom()).insert(c));
            vstd::set_lib::lemma_len_subset(st2.0.dom() - st.0.dom(), st2.0.dom());
        }
    }
}

/// `lemma_deps_names` for a list of runs.
pub proof fn lemma_deps_list_names(m: Map<Color, Seq<Color>>, runs: Seq<(Color, int)>, st: DepState, fuel: nat)
    requires
        st.0.dom().finite(),
    ensures
        st.0.dom().subset_of(deps_list(m, runs, st, fuel).0.dom()),
        deps_list(m, runs, st, fuel).0.dom().finite(),
        (deps_list(m, runs, st, fuel).0.dom() - st.0.dom()).subset_of(m.dom()),
        deps_list(m, runs, st, fuel).1 == st.1 + (deps_list(m, runs, st, fuel).0.dom() - st.0.dom()).len(),
    decreases fuel, 1int, runs.len(),
{
    let r = deps_list(m, runs, st, fuel);
    if runs.len() == 0 {
        assert(r.0.dom() - st.0.dom() =~= Set::<Color>::empty());
    } else {
        let st1 = deps_list(m, runs.drop_last(), st, fuel);
        lemma_deps_list_names(m, runs.drop_last(), st, fuel);
        lemma_deps_names(m, runs.last().0, st1, fuel);
        let a = st1.0.dom() - st.0.dom();
        let b = r.0.dom() - st1.0.dom();
        assert(r.0.dom() - st.0.dom() =~= a + b);
        vstd::set_lib::lemma_len_subset(a, st1.0.dom());
        vstd::set_lib::lemma_len_subset(b, r.0.dom());
        vstd::set_lib::lemma_set_disjoint_lens(a, b);
    }
}

/// Whether every path of recipes followed from `c` ends within `fuel` steps.
fn deps_end_within(mixes: &ColorMap<Vec<Color>>, c: &Color, fuel: u128) -> (b: bool)
    ensures
        b == finite_deps(recipe_views(mixes@), *c, fuel as nat),
    decreases fuel,
{
    let ghost m = recipe_views(mixes@);
    if fuel == 0 {
        return false;
    }
    let mix = match mixes.get(c) {
        Some(mix) => mix,
        None => {
            return true;
        },
    };
    let ghost s = m[*c];
    assert(s == mix@);
    let mut i: usize = 0;
    while i < mix.len()
        invariant
            0 <= i <= mix@.len(),
            fuel > 0,
            m == recipe_views(mixes@),
            s == mix@,
            m.contains_key(*c),
            s == m[*c],
            all_finite_deps(m, s.take(i as int), (fuel - 1) as nat),
        decreases mix@.len() - i,
    {
        assert(s.take(i + 1).drop_last() =~= s.take(i as int));
        assert(s.take(i + 1).last() == s[i as int]);
        if !deps_end_within(mixes, &mix[i], fuel - 1) {
            assert(!all_finite_deps(m, s.take(i + 1), (fuel - 1) as nat));
            proof {
                if all_finite_deps(m, s, (fuel - 1) as nat) {
                    lemma_all_finite_deps(m, s, (fuel - 1) as nat, i as int);
                    assert(s[i as int] == mix@[i as int]);
                    assert(false);
                }
                assert(m.contains_key(*c));
                assert(!finite_deps(m, *c, fuel as nat));
            }
            return false;
        }
        i = i + 1;
    }
    assert(s.take(i as int) =~= s);
    true
}

/// `p` is a walk through recipes: every colour of it has a recipe, and each
/// colour after the first is a part of the recipe of the one before.
spec fn is_recipe_walk(m: Map<Color, Seq<Color>>, p: Seq<Color>) -> bool {
    &&& forall|i: int| 0 <= i < p.len() ==> #[trigger] m.contains_key(p[i])
    &&& forall|i: int, j: int| 0 <= i && j == i + 1 && j < p.len() ==> #[trigger] m[p[i]].contains(p[j])
}

proof fn lemma_not_all_finite(m: Map<Color, Seq<Color>>, s: Seq<Color>, fuel: nat)
    requires
        !all_finite_deps(m, s, fuel),
    ensures
        exists|j: int| 0 <= j < s.len() && !finite_deps(m, #[trigger] s[j], fuel),
    decreases s.len(),
{
    if finite_deps(m, s.last(), fuel) {
        lemma_not_all_finite(m, s.drop_last(), fuel);
        let j = choose|j: int| 0 <= j < s.drop_last().len() && !finite_deps(m, #[trigger] s.drop_last()[j], fuel);
        assert(s[j] == s.drop_last()[j]);
    } else {
        assert(s[s.len() - 1] == s.last());
    }
}

/// A walk that does not end within `k` steps passes through `k` colours with recipes.
proof fn lemma_long_walk(m: Map<Color, Seq<Color>>, c: Color, k: nat)
    requires
        k >= 1,
        !finite_deps(m, c, k),
    ensures
        exists|p: Seq<Color>| p.len() == k && p[0] == c && #[trigger] is_recipe_walk(m, p),
    decreases k,
{
    if k == 1 {
        assert(is_recipe_walk(m, seq![c]));
    } else {
        lemma_not_all_finite(m, m[c], (k - 1) as nat);
        let j = choose|j: int| 0 <= j < m[c].len() && !finite_deps(m, #[trigger] m[c][j], (k - 1) as nat);
        let q = m[c][j];
        lemma_long_walk(m, q, (k - 1) as nat);
        let p = choose|p: Seq<Color>| p.len() == k - 1 && p[0] == q && #[trigger] is_recipe_walk(m, p);
        let p2 = seq![c] + p;
        assert forall|i: int| 0 <= i < p2.len() implies #[trigger] m.contains_key(p2[i]) by {
            if i > 0 {
                assert(p2[i] == p[i - 1]);
            }
        }
        assert forall|i: int, i2: int| 0 <= i && i2 == i + 1 && i2 < p2.len() implies #[trigger] m[p2[i]].contains(p2[i2]) by {
            if i > 0 {
                assert(p2[i] == p[i - 1] && p2[i2] == p[i]);
                assert(m[p[i - 1]].contains(p[i]));
            } else {
                assert(m[c][j] == p2[1]);
            }
        }
        assert(is_recipe_walk(m, p2));
    }
}

/// Following a walk uses one unit of fuel per step.
proof fn lemma_walk_uses_fuel(m: Map<Color, Seq<Color>>, p: Seq<Color>, f: nat, i: int)
    requires
        is_recipe_walk(m, p),
        0 <= i < p.len(),
        finite_deps(m, p[0], f),
    ensures
        i < f,
        finite_deps(m, p[i], (f - i) as nat),
    decreases i,
{
    if i > 0 {
        lemma_walk_uses_fuel(m, p, f, i - 1);
        assert(m.contains_key(p[i - 1]));
        assert(m[p[i - 1]].contains(p[i]));
        let s = m[p[i - 1]];
        let w = choose|w: int| 0 <= w < s.len() && #[trigger] s[w] == p[i];
        lemma_all_finite_deps(m, s, (f - i) as nat, w);
    }
}

/// A colour whose recipes lead back to it never ends, whatever the fuel.
proof fn lemma_cycle_never_ends(m: Map<Color, Seq<Color>>, q: Seq<Color>, g: nat)
    requires
        is_recipe_walk(m, q),
        q.len() >= 2,
        q[0] == q[q.len() - 1],
    ensures
        !finite_deps(m, q[0], g),
    decreases g,
{
    if finite_deps(m, q[0], g) {
        let l = q.len() - 1;
        lemma_walk_uses_fuel(m, q, g, l);
        lemma_cycle_never_ends(m, q, (g - l) as nat);
    }
}

/// A walk from `c` that ends with some fuel ends within one step more than
/// there are colours with recipes: a longer one would pass a colour twice,
/// and could then go round forever.
pub proof fn lemma_finite_deps_bound(m: Map<Color, Seq<Color>>, c: Color, f: nat)
    requires
        m.dom().finite(),
        finite_deps(m, c, f),
    ensures
        finite_deps(m, c, (m.dom().len() + 1) as nat),
{
    let n = (m.dom().len() + 1) as nat;
    if !finite_deps(m, c, n) {
        lemma_long_walk(m, c, n);
        let p = choose|p: Seq<Color>| p.len() == n && p[0] == c && #[trigger] is_recipe_walk(m, p);
        if p.no_duplicates() {
            p.unique_seq_to_set();
            assert(p.to_set().subset_of(m.dom()));
            vstd::set_lib::lemma_len_subset(p.to_set(), m.dom());
        }
        let (i0, j0) = choose|i: int, j: int| 0 <= i < p.len() && 0 <= j < p.len() && i != j && p[i] == p[j];
        let (i, j) = if i0 < j0 { (i0, j0) } else { (j0, i0) };
        let q = p.subrange(i, j + 1);
        assert forall|x: int| 0 <= x < q.len() implies #[trigger] m.contains_key(q[x]) by {
            assert(q[x] == p[i + x]);
        }
        assert forall|x: int, x2: int| 0 <= x && x2 == x + 1 && x2 < q.len() implies #[trigger] m[q[x]].contains(q[x2]) by {
            assert(q[x] == p[i + x] && q[x2] == p[i + x + 1]);
            assert(m[p[i + x]].contains(p[i + x + 1]));
        }
        lemma_walk_uses_fuel(m, p, f, i);
        lemma_cycle_never_ends(m, q, (f - i) as nat);
    }
}

/// Whether listing the recipe of `target` ends: no colour reachable from it
/// through recipes is part of its own recipe, directly or not.
pub fn recipe_is_finite(mixes: &ColorMap<Vec<Color>>, target: &Color) -> (b: bool)
    ensures
        b == exists|fuel: nat| finite_deps(recipe_views(mixes@), *target, fuel),
{
    let n = mixes.len();
    let b = deps_end_within(mixes, target, n as u128 + 1);
    proof {
        let m = recipe_views(mixes@);
        assert(m.dom() =~= mixes@.dom());
        if exists|fuel: nat| finite_deps(m, *target, fuel) {
            let f = choose|fuel: nat| finite_deps(m, *target, fuel);
            lemma_finite_deps_bound(m, *target, f);
        }
    }
    b
}

/// Some fuel with which the walk from `target` ends.
pub open spec fn recipe_fuel(m: Map<Color, Seq<Color>>, target: Color) -> nat {
    choose|fuel: nat| finite_deps(m, target, fuel)
}

/// Lists the recipe of `target`: the recipes of its parts first, each colour
/// followed by its runs of parts ordered by count. Colours without a name get
/// the next temporary number, which must not pass `usize::MAX` (see
/// `lemma_deps_counter_bound` for a bound that a caller can test).
pub fn mix_dep_order(
    target: Color,
    mixes: &ColorMap<Vec<Color>>,
    names: &mut ColorMap<Label>,
    counter: &mut usize,
    display: &mut Vec<MixDisplayInfo>,
)
    requires
        exists|fuel: nat| finite_deps(recipe_views(mixes@), target, fuel),
        deps(
            recipe_views(mixes@),
            target,
            (old(names)@, *old(counter) as int, display_view(old(display)@)),
            recipe_fuel(recipe_views(mixes@), target),
        ).1 <= usize::MAX,
    ensures
        (final(names)@, *final(counter) as int, display_view(final(display)@)) == deps(
            recipe_views(mixes@),
            target,
            (old(names)@, *old(counter) as int, display_view(old(display)@)),
            recipe_fuel(recipe_views(mixes@), target),
        ),
{
    let ghost fuel = recipe_fuel(recipe_views(mixes@), target);
    mix_dep_order_rec(target, mixes, names, counter, display, Ghost(fuel));
}

/// The listing hands out at most one temporary number per colour with a
/// recipe: starting from `counter`, the next number stays at most `counter`
/// plus the number of recipes.
pub proof fn lemma_deps_counter_bound(m: Map<Color, Seq<Color>>, c: Color, st: DepState, fuel: nat)
    requires
        st.0.dom().finite(),
        m.dom().finite(),
    ensures
        deps(m, c, st, fuel).1 <= st.1 + m.dom().len(),
{
    lemma_deps_names(m, c, st, fuel);
    let r = deps(m, c, st, fuel);
    vstd::set_lib::lemma_len_subset(r.0.dom() - st.0.dom(), m.dom());
}


/// Coalescing loses nothing: the runs expand back to the recipe, every run
/// has at least one part, and neighbouring runs have different colours.
pub proof fn lemma_rle_lossless(s: Seq<Color>)
    ensures
        expand_runs(rle(s)) == s,
        forall|i: int| 0 <= i < rle(s).len() ==> #[trigger] rle(s)[i].1 >= 1,
        forall|i: int| 0 <= i < rle(s).len() - 1 ==> #[trigger] rle(s)[i].0 != rle(s)[i + 1].0,
    decreases s.len(),
{
    if s.len() > 0 {
        let p = s.drop_last();
        lemma_rle_lossless(p);
        let r = rle(p);
        let x = s.last();
        if r.len() > 0 && r.last().0 == x {
            let q = r.drop_last();
            assert(rle(s) == q.push((x, r.last().1 + 1)));
            assert(q.push((x, r.last().1 + 1)).drop_last() =~= q);
            assert(r.drop_last() =~= q);
            assert(expand_runs(r) == expand_runs(q) + Seq::new(r.last().1 as nat, |i: int| r.last().0));
            assert(Seq::new((r.last().1 + 1) as nat, |i: int| x) =~= Seq::new(r.last().1 as nat, |i: int| r.last().0).push(x));
            assert(expand_runs(rle(s)) =~= expand_runs(q) + Seq::new((r.last().1 + 1) as nat, |i: int| x));
            assert(s =~= p.push(x));
            assert(expand_runs(rle(s)) =~= s);
            assert forall|i: int| 0 <= i < rle(s).len() - 1 implies #[trigger] rle(s)[i].0 != rle(s)[i + 1].0 by {
                assert(rle(s)[i] == r[i]);
                if i + 1 < rle(s).len() - 1 {
                    assert(rle(s)[i + 1] == r[i + 1]);
                }
            }
        } else {
            assert(rle(s) == r.push((x, 1)));
            assert(r.push((x, 1)).drop_last() =~= r);
            assert(Seq::new(1nat, |i: int| x) =~= seq![x]);
            assert(expand_runs(rle(s)) =~= expand_runs(r) + seq![x]);
            assert(s =~= p.push(x));
            assert(expand_runs(rle(s)) =~= s);
        }
    }
}

proof fn lemma_insert_by_count_props(s: Seq<(Color, int)>, x: (Color, int))
    requires
        forall|i: int, j: int| 0 <= i <= j < s.len() ==> #[trigger] s[i].1 <= #[trigger] s[j].1,
    ensures
        insert_by_count(s, x).to_multiset() == s.to_multiset().insert(x),
        forall|i: int, j: int|
            0 <= i <= j < insert_by_count(s, x).len() ==> #[trigger] insert_by_count(s, x)[i].1
                <= #[trigger] insert_by_count(s, x)[j].1,
    decreases s.len(),
{
    broadcast use vstd::seq_lib::group_to_multiset_ensures;

    if s.len() == 0 {
        assert(seq![x] =~= Seq::<(Color, int)>::empty().push(x));
    } else if s.last().1 <= x.1 {
    } else {
        let p = s.drop_last();
        lemma_insert_by_count_props(p, x);
        let q = insert_by_count(p, x);
        assert(s =~= p.push(s.last()));
        assert(q.to_multiset().insert(s.last()) =~= s.to_multiset().insert(x));
        assert forall|i: int, j: int|
            0 <= i <= j < q.push(s.last()).len() implies #[trigger] q.push(s.last())[i].1
                <= #[trigger] q.push(s.last())[j].1 by {
            if j == q.len() && i < q.len() {
                // every element of `q` is `x` or an element of `p`, all at most `s.last()`
                assert(q.to_multiset().contains(q[i]));
                assert(q.contains(q[i]));
                if q[i] != x {
                    assert(p.to_multiset().count(q[i]) > 0);
                    assert(p.contains(q[i]));
                    let w = choose|w: int| 0 <= w < p.len() && p[w] == q[i];
                    assert(s[w].1 <= s[s.len() - 1].1);
                }
            }
        }
    }
}

/// Ordering runs by count keeps every run and leaves the counts increasing.
pub proof fn lemma_sort_by_count(s: Seq<(Color, int)>)
    ensures
        sort_by_count(s).to_multiset() == s.to_multiset(),
        forall|i: int, j: int|
            0 <= i <= j < sort_by_count(s).len() ==> #[trigger] sort_by_count(s)[i].1
                <= #[trigger] sort_by_count(s)[j].1,
    decreases s.len(),
{
    broadcast use vstd::seq_lib::group_to_multiset_ensures;

    if s.len() > 0 {
        lemma_sort_by_count(s.drop_last());
        lemma_insert_by_count_props(sort_by_count(s.drop_last()), s.last());
        assert(s =~= s.drop_last().push(s.last()));
    }
}


/// `deps` does not depend on the fuel, as long as the walk ends within it.
pub proof fn lemma_deps_fuel(m: Map<Color, Seq<Color>>, c: Color, st: DepState, f1: nat, f2: nat)
    requires
        finite_deps(m, c, f1),
        finite_deps(m, c, f2),
    ensures
        deps(m, c, st, f1) == deps(m, c, st, f2),
    decreases f1, 0int, 0int,
{
    if m.contains_key(c) {
        let runs = rle(m[c]);
        lemma_rle_colors(m[c]);
        assert forall|j: int| 0 <= j < runs.len() implies finite_deps(m, #[trigger] runs[j].0, (f1 - 1) as nat)
            && finite_deps(m, runs[j].0, (f2 - 1) as nat) by {
            assert(m[c].contains(runs[j].0));
            let w = choose|w: int| 0 <= w < m[c].len() && m[c][w] == runs[j].0;
            lemma_all_finite_deps(m, m[c], (f1 - 1) as nat, w);
            lemma_all_finite_deps(m, m[c], (f2 - 1) as nat, w);
        }
        lemma_deps_list_fuel(m, runs, st, (f1 - 1) as nat, (f2 - 1) as nat);
    }
}

/// `deps_list` does not depend on the fuel, as long as each walk ends within it.
pub proof fn lemma_deps_list_fuel(m: Map<Color, Seq<Color>>, runs: Seq<(Color, int)>, st: DepState, f1: nat, f2: nat)
    requires
        forall|j: int| 0 <= j < runs.len() ==> finite_deps(m, #[trigger] runs[j].0, f1) && finite_deps(m, runs[j].0, f2),
    ensures
        deps_list(m, runs, st, f1) == deps_list(m, runs, st, f2),
    decreases f1, 1int, runs.len(),
{
    if runs.len() > 0 {
        let p = runs.drop_last();
        assert forall|j: int| 0 <= j < p.len() implies finite_deps(m, #[trigger] p[j].0, f1) && finite_deps(m, p[j].0, f2) by {
            assert(p[j] == runs[j]);
        }
        lemma_deps_list_fuel(m, p, st, f1, f2);
        assert(runs.last() == runs[runs.len() - 1]);
        lemma_deps_fuel(m, runs.last().0, deps_list(m, p, st, f1), f1, f2);
    }
}

/// Every colour of the listing has a name once it is listed, and names are never lost.
pub proof fn lemma_deps_listed_are_named(m: Map<Color, Seq<Color>>, c: Color, st: DepState, fuel: nat)
    requires
        forall|i: int| 0 <= i < st.2.len() ==> st.0.contains_key(#[trigger] st.2[i].0),
    ensures
        forall|i: int| 0 <= i < deps(m, c, st, fuel).2.len() ==> deps(m, c, st, fuel).0.contains_key(
            #[trigger] deps(m, c, st, fuel).2[i].0,
        ),
        st.0.dom().subset_of(deps(m, c, st, fuel).0.dom()),
    decreases fuel, 0int, 0int,
{
    if fuel > 0 && m.contains_key(c) {
        lemma_deps_list_listed_are_named(m, rle(m[c]), st, (fuel - 1) as nat);
    }
}

/// `lemma_deps_listed_are_named` for a list of runs.
pub proof fn lemma_deps_list_listed_are_named(m: Map<Color, Seq<Color>>, runs: Seq<(Color, int)>, st: DepState, fuel: nat)
    requires
        forall|i: int| 0 <= i < st.2.len() ==> st.0.contains_key(#[trigger] st.2[i].0),
    ensures
        forall|i: int| 0 <= i < deps_list(m, runs, st, fuel).2.len() ==> deps_list(m, runs, st, fuel).0.contains_key(
            #[trigger] deps_list(m, runs, st, fuel).2[i].0,
        ),
        st.0.dom().subset_of(deps_list(m, runs, st, fuel).0.dom()),
    decreases fuel, 1int, runs.len(),
{
    if runs.len() > 0 {
        lemma_deps_list_listed_are_named(m, runs.drop_last(), st, fuel);
        lemma_deps_listed_are_named(m, runs.last().0, deps_list(m, runs.drop_last(), st, fuel), fuel);
    }
}


/// Some line of the listing is for colour `d`.
pub open spec fn listed(lines: Seq<(Color, Seq<(Color, int)>)>, d: Color) -> bool {
    exists|i: int| 0 <= i < lines.len() && #[trigger] lines[i].0 == d
}

/// Every part of a listed recipe that has a recipe itself is listed on an earlier line.
pub open spec fn parts_listed_first(m: Map<Color, Seq<Color>>, lines: Seq<(Color, Seq<(Color, int)>)>) -> bool {
    forall|j: int, x: int|
        0 <= j < lines.len() && 0 <= x < lines[j].1.len() && m.contains_key(#[trigger] lines[j].1[x].0)
            ==> exists|i: int| 0 <= i < j && #[trigger] lines[i].0 == lines[j].1[x].0
}

/// `a` is a prefix of `b`.
pub open spec fn is_prefix_of(a: Seq<(Color, Seq<(Color, int)>)>, b: Seq<(Color, Seq<(Color, int)>)>) -> bool {
    a.len() <= b.len() && forall|i: int| 0 <= i < a.len() ==> #[trigger] b[i] == a[i]
}

/// The recipe of a colour is listed after the recipes of its parts: the
/// listing only adds lines, adds one for `c` when `c` has a recipe, and keeps
/// every part that has a recipe on an earlier line than the colour it is part of.
pub proof fn lemma_deps_parts_first(m: Map<Color, Seq<Color>>, c: Color, st: DepState, fuel: nat)
    requires
        finite_deps(m, c, fuel),
        parts_listed_first(m, st.2),
    ensures
        is_prefix_of(st.2, deps(m, c, st, fuel).2),
        parts_listed_first(m, deps(m, c, st, fuel).2),
        m.contains_key(c) ==> listed(deps(m, c, st, fuel).2, c),
    decreases fuel, 0int, 0int,
{
    broadcast use vstd::seq_lib::group_to_multiset_ensures;

    if m.contains_key(c) {
        let runs = rle(m[c]);
        let f1 = (fuel - 1) as nat;
        lemma_rle_colors(m[c]);
        assert forall|j: int| 0 <= j < runs.len() implies finite_deps(m, #[trigger] runs[j].0, f1) by {
            assert(m[c].contains(runs[j].0));
            let w = choose|w: int| 0 <= w < m[c].len() && m[c][w] == runs[j].0;
            lemma_all_finite_deps(m, m[c], f1, w);
        }
        lemma_deps_list_parts_first(m, runs, st, f1);
        let st2 = deps_list(m, runs, st, f1);
        let sorted = sort_by_count(runs);
        let lines = st2.2.push((c, sorted));
        lemma_sort_by_count(runs);
        assert(deps(m, c, st, fuel).2 == lines);
        assert forall|j: int, x: int|
            0 <= j < lines.len() && 0 <= x < lines[j].1.len() && m.contains_key(#[trigger] lines[j].1[x].0)
            implies exists|i: int| 0 <= i < j && #[trigger] lines[i].0 == lines[j].1[x].0 by {
            if j < st2.2.len() {
                assert(lines[j] == st2.2[j]);
                let i = choose|i: int| 0 <= i < j && #[trigger] st2.2[i].0 == st2.2[j].1[x].0;
                assert(lines[i] == st2.2[i]);
            } else {
                let e = sorted[x];
                assert(sorted.contains(e));
                assert(sorted.to_multiset().contains(e));
                assert(runs.to_multiset().contains(e));
                assert(runs.contains(e));
                let y = choose|y: int| 0 <= y < runs.len() && runs[y] == e;
                assert(listed(st2.2, runs[y].0));
                let i = choose|i: int| 0 <= i < st2.2.len() && #[trigger] st2.2[i].0 == runs[y].0;
                assert(lines[i] == st2.2[i]);
            }
        }
        assert(lines[lines.len() - 1].0 == c);
    }
}

/// `lemma_deps_parts_first` for a list of runs: every run colour that has a
/// recipe is listed afterwards.
pub proof fn lemma_deps_list_parts_first(m: Map<Color, Seq<Color>>, runs: Seq<(Color, int)>, st: DepState, fuel: nat)
    requires
        forall|j: int| 0 <= j < runs.len() ==> finite_deps(m, #[trigger] runs[j].0, fuel),
        parts_listed_first(m, st.2),
    ensures
        is_prefix_of(st.2, deps_list(m, runs, st, fuel).2),
        parts_listed_first(m, deps_list(m, runs, st, fuel).2),
        forall|j: int|
            0 <= j < runs.len() && m.contains_key(#[trigger] runs[j].0) ==> listed(deps_list(m, runs, st, fuel).2, runs[j].0),
    decreases fuel, 1int, runs.len(),
{
    if runs.len() > 0 {
        let p = runs.drop_last();
        assert forall|j: int| 0 <= j < p.len() implies finite_deps(m, #[trigger] p[j].0, fuel) by {
            assert(p[j] == runs[j]);
        }
        lemma_deps_list_parts_first(m, p, st, fuel);
        let st1 = deps_list(m, p, st, fuel);
        assert(runs.last() == runs[runs.len() - 1]);
        lemma_deps_parts_first(m, runs.last().0, st1, fuel);
        let r = deps_list(m, runs, st, fuel);
        assert forall|j: int| 0 <= j < runs.len() && m.contains_key(#[trigger] runs[j].0) implies listed(r.2, runs[j].0) by {
            if j < p.len() {
                assert(p[j] == runs[j]);
                assert(listed(st1.2, p[j].0));
                let i = choose|i: int| 0 <= i < st1.2.len() && #[trigger] st1.2[i].0 == p[j].0;
                assert(r.2[i] == st1.2[i]);
            }
        }
    }
}
} // verus!

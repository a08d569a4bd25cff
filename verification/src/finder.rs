use vstd::prelude::*;

use crate::bounds::{contains_spec, replace_vertex, volume_6_spec, ColorBounds};
use crate::choice::{
    choice_lt, first_min, idx_seq, index_combinations_4, is_combination, is_first_min,
    lemma_first_min_exists, lemma_first_min_is, lemma_first_min_none, lemma_lex_lt_asymmetric, lex_lt,
    nonneg_entries,
};
use crate::color::{distance_squared_spec, lemma_distance_squared_nonneg, lemma_distance_zero_iff_equal, Color};
use crate::mixing::mixed_color_spec;
use crate::colormap::ColorMap;
use crate::search::{
    closest_mix_result, closest_mix_view, is_mix_choice, mix_dom, mix_key, mix_of, pick,
    MAX_MIX_PARTS,
};

verus! {

/// Vertex `j` is placed before vertex `i` when the vertices are ordered by
/// distance to `target`, ties kept in the order they had.
pub open spec fn goes_before(v: [Color; 4], target: Color, j: int, i: int) -> bool {
    let dj = distance_squared_spec(v[j], target);
    let di = distance_squared_spec(v[i], target);
    dj < di || (dj == di && j < i)
}

/// Position of vertex `i` once the vertices are ordered by distance to `target`.
pub open spec fn sort_rank(v: [Color; 4], target: Color, i: int) -> int {
    (if goes_before(v, target, 0, i) { 1int } else { 0int }) + (if goes_before(v, target, 1, i) {
        1int
    } else {
        0int
    }) + (if goes_before(v, target, 2, i) { 1int } else { 0int }) + (if goes_before(v, target, 3, i) {
        1int
    } else {
        0int
    })
}

/// The vertex at position `p` once the vertices are ordered by distance to `target`.
pub open spec fn vertex_at_rank(v: [Color; 4], target: Color, p: int) -> Color {
    if sort_rank(v, target, 0) == p {
        v[0]
    } else if sort_rank(v, target, 1) == p {
        v[1]
    } else if sort_rank(v, target, 2) == p {
        v[2]
    } else {
        v[3]
    }
}

/// The vertices ordered by distance to `target`, nearest first; vertices at
/// equal distance keep their order.
pub open spec fn sorted_by_distance(v: [Color; 4], target: Color) -> [Color; 4] {
    [
        vertex_at_rank(v, target, 0),
        vertex_at_rank(v, target, 1),
        vertex_at_rank(v, target, 2),
        vertex_at_rank(v, target, 3),
    ]
}

proof fn lemma_ranks_permute(v: [Color; 4], target: Color)
    ensures
        forall|i: int| 0 <= i < 4 ==> 0 <= #[trigger] sort_rank(v, target, i) < 4,
        forall|i: int, j: int|
            0 <= i < 4 && 0 <= j < 4 && i != j ==> #[trigger] sort_rank(v, target, i)
                != #[trigger] sort_rank(v, target, j),
        forall|i: int| 0 <= i < 4 ==> #[trigger] sorted_by_distance(v, target)[sort_rank(v, target, i)] == v[i],
{
    assert(sort_rank(v, target, 0) != sort_rank(v, target, 1));
    assert(sort_rank(v, target, 0) != sort_rank(v, target, 2));
    assert(sort_rank(v, target, 0) != sort_rank(v, target, 3));
    assert(sort_rank(v, target, 1) != sort_rank(v, target, 2));
    assert(sort_rank(v, target, 1) != sort_rank(v, target, 3));
    assert(sort_rank(v, target, 2) != sort_rank(v, target, 3));
}

proof fn lemma_ranks_cover(v: [Color; 4], target: Color, p: int)
    requires
        0 <= p < 4,
    ensures
        sort_rank(v, target, 0) == p || sort_rank(v, target, 1) == p || sort_rank(v, target, 2) == p
            || sort_rank(v, target, 3) == p,
{
    lemma_ranks_permute(v, target);
    let r0 = sort_rank(v, target, 0);
    let r1 = sort_rank(v, target, 1);
    let r2 = sort_rank(v, target, 2);
    let r3 = sort_rank(v, target, 3);
    assert(0 <= r0 < 4 && 0 <= r1 < 4 && 0 <= r2 < 4 && 0 <= r3 < 4);
    assert(r0 != r1 && r0 != r2 && r0 != r3 && r1 != r2 && r1 != r3 && r2 != r3);
}

/// Ordering the vertices by distance moves each vertex to its rank, and
/// leaves them nearest first.
pub proof fn lemma_sorted_by_distance(v: [Color; 4], target: Color)
    ensures
        forall|i: int| 0 <= i < 4 ==> #[trigger] sorted_by_distance(v, target)[sort_rank(v, target, i)] == v[i],
        forall|p: int, q: int|
            0 <= p < q < 4 ==> distance_squared_spec(#[trigger] sorted_by_distance(v, target)[p], target)
                <= distance_squared_spec(#[trigger] sorted_by_distance(v, target)[q], target),
{
    lemma_ranks_permute(v, target);
}

/// The vertices ordered by distance to `target`.
fn sort_by_distance(v: &[Color; 4], target: &Color) -> (s: [Color; 4])
    ensures
        s == sorted_by_distance(*v, *target),
{
    let d0 = v[0].distance_squared(target);
    let d1 = v[1].distance_squared(target);
    let d2 = v[2].distance_squared(target);
    let d3 = v[3].distance_squared(target);
    let ds = [d0, d1, d2, d3];
    let mut out = *v;
    let mut i: usize = 0;
    while i < 4
        invariant
            0 <= i <= 4,
            forall|j: int| 0 <= j < 4 ==> ds[j] == distance_squared_spec(v[j], *target),
            forall|j: int| 0 <= j < i ==> #[trigger] out[sort_rank(*v, *target, j)] == v[j],
        decreases 4 - i,
    {
        proof {
            lemma_ranks_permute(*v, *target);
        }
        let mut r: usize = 0;
        let mut j: usize = 0;
        while j < 4
            invariant
                0 <= j <= 4,
                0 <= i < 4,
                forall|x: int| 0 <= x < 4 ==> ds[x] == distance_squared_spec(v[x], *target),
                r == (if j > 0 && goes_before(*v, *target, 0, i as int) { 1int } else { 0int }) + (
                if j > 1 && goes_before(*v, *target, 1, i as int) {
                    1int
                } else {
                    0int
                }) + (if j > 2 && goes_before(*v, *target, 2, i as int) { 1int } else { 0int }) + (
                if j > 3 && goes_before(*v, *target, 3, i as int) {
                    1int
                } else {
                    0int
                }),
            decreases 4 - j,
        {
            if ds[j] < ds[i] || (ds[j] == ds[i] && j < i) {
                r = r + 1;
            }
            j = j + 1;
        }
        assert(r == sort_rank(*v, *target, i as int));
        out[r] = v[i];
        i = i + 1;
    }
    proof {
        lemma_ranks_permute(*v, *target);
        lemma_ranks_cover(*v, *target, 0);
        lemma_ranks_cover(*v, *target, 1);
        lemma_ranks_cover(*v, *target, 2);
        lemma_ranks_cover(*v, *target, 3);
        assert(out[sort_rank(*v, *target, 0)] == v[0]);
        assert(out[sort_rank(*v, *target, 1)] == v[1]);
        assert(out[sort_rank(*v, *target, 2)] == v[2]);
        assert(out[sort_rank(*v, *target, 3)] == v[3]);
        assert(out =~= sorted_by_distance(*v, *target));
    }
    out
}


/// The four colours picked by an index 4-tuple.
pub open spec fn pick4(base: Seq<Color>, t: Seq<int>) -> [Color; 4] {
    [base[t[0]], base[t[1]], base[t[2]], base[t[3]]]
}

/// Candidate bounds: four distinct positions of `base` whose tetrahedron contains `target`.
pub open spec fn bounds_dom(base: Seq<Color>, target: Color) -> spec_fn(Seq<int>) -> bool {
    |u: Seq<int>| u.len() == 4 && is_combination(u, base.len() as int) && contains_spec(pick4(base, u), target)
}

/// Candidate bounds are ranked by volume.
pub open spec fn bounds_key(base: Seq<Color>) -> spec_fn(Seq<int>) -> int {
    |u: Seq<int>| volume_6_spec(pick4(base, u))
}

/// The tetrahedron of least volume containing `target` among those spanned by
/// four distinct base colours (the first one in lexicographic order of
/// positions among equally small ones), or `None` when the target is out of gamut.
pub open spec fn initial_bounds(base: Seq<Color>, target: Color) -> Option<[Color; 4]> {
    match first_min(bounds_dom(base, target), bounds_key(base)) {
        Some(t) => Some(pick4(base, t)),
        None => None,
    }
}

/// Why `try_find_color_mix` gave up.
#[derive(Clone, Copy, Debug, PartialEq, Eq, Structural)]
pub enum MixSearchError {
    /// No four base colours span a tetrahedron containing the target.
    OutOfGamut,
    /// No mix of the available colours kept the target inside the bounds.
    NoAcceptableMix,
}

/// The colours mixes are made of: all base colours, or the current bounds.
pub open spec fn used_colors(base: Seq<Color>, sorted: [Color; 4], use_all: bool) -> Seq<Color> {
    if use_all {
        base
    } else {
        sorted@
    }
}

/// A new colour is accepted when it is the target, or when the target stays
/// inside the bounds after the last (farthest) vertex is replaced by it.
pub open spec fn accept_spec(target: Color, sorted: [Color; 4], c: Color) -> bool {
    c == target || contains_spec(replace_vertex(sorted, 3, c), target)
}

/// Acceptance of each mix of the used colours.
pub open spec fn step_accepts(used: Seq<Color>, target: Color, sorted: [Color; 4]) -> spec_fn(Seq<int>) -> bool {
    |u: Seq<int>| accept_spec(target, sorted, mix_of(used, u))
}

/// The mix chosen by one step of the search from `bounds`.
pub open spec fn step_choice(base: Seq<Color>, target: Color, bounds: [Color; 4], use_all: bool, k: int) -> Option<Seq<int>> {
    let sorted = sorted_by_distance(bounds, target);
    let used = used_colors(base, sorted, use_all);
    first_min(mix_dom(used.len() as int, k, step_accepts(used, target, sorted)), mix_key(used, target))
}

/// At most `iters` steps of the search from `bounds`, recording each new colour
/// with its parts in `map`; it stops early when the target is reached.
pub open spec fn search_steps(
    base: Seq<Color>,
    target: Color,
    bounds: [Color; 4],
    iters: nat,
    use_all: bool,
    k: int,
    map: Map<Color, Seq<Color>>,
) -> Result<Map<Color, Seq<Color>>, MixSearchError>
    decreases iters,
{
    if iters == 0 {
        Ok(map)
    } else {
        let sorted = sorted_by_distance(bounds, target);
        let used = used_colors(base, sorted, use_all);
        match step_choice(base, target, bounds, use_all, k) {
            None => Err(MixSearchError::NoAcceptableMix),
            Some(t) => {
                let c = mix_of(used, t);
                let map2 = map.insert(c, pick(used, t));
                if c == target {
                    Ok(map2)
                } else {
                    search_steps(base, target, replace_vertex(sorted, 3, c), (iters - 1) as nat, use_all, k, map2)
                }
            },
        }
    }
}

/// The whole search: the recipes found for the colours created on the way to `target`.
pub open spec fn find_color_mix_spec(
    base: Seq<Color>,
    target: Color,
    iterations: nat,
    use_all: bool,
    k: int,
) -> Result<Map<Color, Seq<Color>>, MixSearchError> {
    match initial_bounds(base, target) {
        None => Err(MixSearchError::OutOfGamut),
        Some(b) => search_steps(base, target, b, iterations, use_all, k, Map::empty()),
    }
}

/// The recipes of a map, as sequences.
pub open spec fn recipe_views(m: Map<Color, Vec<Color>>) -> Map<Color, Seq<Color>> {
    Map::new(|c: Color| m.contains_key(c), |c: Color| m[c]@)
}

/// The tetrahedron of least volume spanned by four of `base_colors` that contains `target`.
fn smallest_bounds(base_colors: &[Color], target: &Color) -> (r: Option<ColorBounds>)
    ensures
        match r {
            Some(b) => initial_bounds(base_colors@, *target) == Some(b.0),
            None => initial_bounds(base_colors@, *target) is None,
        },
{
    let ghost base = base_colors@;
    let ghost dom = bounds_dom(base, *target);
    let ghost key = bounds_key(base);
    let combos = index_combinations_4(base_colors.len());
    let mut best: Option<ColorBounds> = None;
    let mut best_vol: i64 = 0;
    let ghost mut best_j: int = 0;
    let mut j: usize = 0;
    while j < combos.len()
        invariant
            base == base_colors@,
            dom == bounds_dom(base, *target),
            key == bounds_key(base),
            0 <= j <= combos.len(),
            forall|i: int|
                0 <= i < combos.len() ==> #[trigger] is_combination(idx_seq(combos[i]@), base.len() as int),
            forall|i: int, i2: int|
                0 <= i < i2 < combos.len() ==> lex_lt(#[trigger] idx_seq(combos[i]@), #[trigger] idx_seq(combos[i2]@)),
            best is None ==> forall|i: int| 0 <= i < j ==> !dom(#[trigger] idx_seq(combos[i]@)),
            best matches Some(b) ==> {
                &&& 0 <= best_j < j
                &&& dom(idx_seq(combos[best_j]@))
                &&& b.0 == pick4(base, idx_seq(combos[best_j]@))
                &&& best_vol == key(idx_seq(combos[best_j]@))
                &&& forall|i: int|
                    0 <= i < j && dom(#[trigger] idx_seq(combos[i]@)) ==> best_vol <= key(idx_seq(combos[i]@))
                        && (i < best_j ==> best_vol < key(idx_seq(combos[i]@)))
            },
        decreases combos.len() - j,
    {
        let t = combos[j];
        let ghost ts = idx_seq(t@);
        assert(is_combination(ts, base.len() as int));
        assert(ts[0] == t[0] as int && ts[1] == t[1] as int && ts[2] == t[2] as int && ts[3] == t[3] as int);
        let cand = ColorBounds([base_colors[t[0]], base_colors[t[1]], base_colors[t[2]], base_colors[t[3]]]);
        assert(cand.0 =~= pick4(base, ts));
        if cand.contains(target) {
            let vol = cand.volume_6();
            let better = match &best {
                None => true,
                Some(_) => vol < best_vol,
            };
            if better {
                best = Some(cand);
                best_vol = vol;
                proof {
                    best_j = j as int;
                }
            }
        }
        j = j + 1;
    }
    proof {
        match best {
            Some(b) => {
                let t = idx_seq(combos[best_j]@);
                assert forall|u: Seq<int>| #[trigger] dom(u) implies key(t) <= key(u) && (key(u) == key(t) && u != t ==> choice_lt(t, u)) by {
                    let i = choose|i: int| 0 <= i < combos.len() && #[trigger] idx_seq(combos[i]@) == u;
                    if key(u) == key(t) && u != t {
                        assert(i != best_j);
                        assert(!(i < best_j));
                        assert(lex_lt(t, u));
                    }
                }
                assert(is_first_min(t, dom, key));
                lemma_first_min_is(t, dom, key);
            },
            None => {
                assert forall|u: Seq<int>| !#[trigger] dom(u) by {
                    if dom(u) {
                        let i = choose|i: int| 0 <= i < combos.len() && #[trigger] idx_seq(combos[i]@) == u;
                    }
                }
                lemma_first_min_none(dom, key);
            },
        }
    }
    best
}


/// Finds a recipe for `target_color`: starting from the smallest tetrahedron of
/// base colours that contains the target, repeatedly mixes a new colour
/// closest to the target that keeps the target inside when it replaces the
/// vertex farthest from it, for at most `iterations` new colours, stopping
/// early once the target itself is mixed. Returns each new colour with the
/// parts it is mixed from, or why the search could not go on.
pub fn try_find_color_mix(
    base_colors: &[Color],
    target_color: Color,
    iterations: usize,
    use_all_colors: bool,
    max_mix_count: usize,
) -> (r: Result<ColorMap<Vec<Color>>, MixSearchError>)
    requires
        initial_bounds(base_colors@, target_color) is Some && iterations > 0 ==> max_mix_count
            <= MAX_MIX_PARTS,
    ensures
        match r {
            Ok(m) => find_color_mix_spec(
                base_colors@,
                target_color,
                iterations as nat,
                use_all_colors,
                max_mix_count as int,
            ) == Ok::<Map<Color, Seq<Color>>, MixSearchError>(recipe_views(m@)),
            Err(e) => find_color_mix_spec(
                base_colors@,
                target_color,
                iterations as nat,
                use_all_colors,
                max_mix_count as int,
            ) == Err::<Map<Color, Seq<Color>>, MixSearchError>(e),
        },
{
    let ghost base = base_colors@;
    let ghost k = max_mix_count as int;
    let target = target_color;
    let start = smallest_bounds(base_colors, &target);
    let mut bounds = match start {
        Some(b) => b,
        None => {
            return Err(MixSearchError::OutOfGamut);
        },
    };
    let ghost b0 = bounds.0;
    let mut mix_map: ColorMap<Vec<Color>> = ColorMap::new();
    assert(recipe_views(mix_map@) =~= Map::<Color, Seq<Color>>::empty());
    let mut i: usize = 0;
    while i < iterations
        invariant
            base == base_colors@,
            k == max_mix_count as int,
            target == target_color,
            initial_bounds(base, target) == Some(b0),
            iterations > 0 ==> max_mix_count <= MAX_MIX_PARTS,
            0 <= i <= iterations,
            search_steps(base, target, b0, iterations as nat, use_all_colors, k, Map::empty())
                == search_steps(
                base,
                target,
                bounds.0,
                (iterations - i) as nat,
                use_all_colors,
                k,
                recipe_views(mix_map@),
            ),
        decreases iterations - i,
    {
        let sorted = sort_by_distance(&bounds.0, &target);
        let ghost used = used_colors(base, sorted, use_all_colors);
        let ghost acc_det = step_accepts(used, target, sorted);
        let accept = |try_color: Color| -> (b: bool)
            ensures
                b == accept_spec(target, sorted, try_color),
            {
                if try_color == target {
                    return true;
                }
                let mut new_bounds = ColorBounds(sorted);
                new_bounds.0[3] = try_color;
                assert(new_bounds.0 =~= replace_vertex(sorted, 3, try_color));
                new_bounds.contains(&target)
            };
        let used_slice: &[Color] = if use_all_colors {
            base_colors
        } else {
            sorted.as_slice()
        };
        assert(used_slice@ == used);
        let found = target.closest_accepted_mix(used_slice, max_mix_count, accept);
        let ghost dom_det = mix_dom(used.len() as int, k, acc_det);
        let ghost key = mix_key(used, target);
        match found {
            None => {
                proof {
                    let acc = choose|acc: spec_fn(Seq<int>) -> bool|
                        {
                            &&& forall|u: Seq<int>|
                                #[trigger] is_mix_choice(u, used.len() as int, k)
                                    ==> call_ensures(accept, (mix_of(used, u),), acc(u))
                            &&& closest_mix_result(used, target, k, acc, closest_mix_view(found))
                        };
                    assert forall|u: Seq<int>| !#[trigger] dom_det(u) by {
                        if is_mix_choice(u, used.len() as int, k) {
                            assert(acc(u) == acc_det(u));
                            assert(!mix_dom(used.len() as int, k, acc)(u));
                        }
                    }
                    lemma_first_min_none(dom_det, key);
                }
                return Err(MixSearchError::NoAcceptableMix);
            },
            Some((new_color, new_color_mix)) => {
                proof {
                    let acc = choose|acc: spec_fn(Seq<int>) -> bool|
                        {
                            &&& forall|u: Seq<int>|
                                #[trigger] is_mix_choice(u, used.len() as int, k)
                                    ==> call_ensures(accept, (mix_of(used, u),), acc(u))
                            &&& closest_mix_result(used, target, k, acc, closest_mix_view(found))
                        };
                    let dom = mix_dom(used.len() as int, k, acc);
                    assert forall|u: Seq<int>| #[trigger] dom(u) == dom_det(u) by {
                        if is_mix_choice(u, used.len() as int, k) {
                            assert(acc(u) == acc_det(u));
                        }
                    }
                    assert(dom =~= dom_det);
                    let t = choose|t: Seq<int>|
                        #[trigger] is_first_min(t, dom, key) && new_color == mix_of(used, t)
                            && new_color_mix@ == pick(used, t);
                    lemma_first_min_is(t, dom_det, key);
                    assert(step_choice(base, target, bounds.0, use_all_colors, k) == Some(t));
                }
                let ghost before = recipe_views(mix_map@);
                mix_map.insert(new_color, new_color_mix);
                proof {
                    assert(recipe_views(mix_map@) =~= before.insert(new_color, new_color_mix@));
                }
                if new_color == target {
                    return Ok(mix_map);
                }
                let mut next = sorted;
                next[3] = new_color;
                assert(next =~= replace_vertex(sorted, 3, new_color));
                bounds = ColorBounds(next);
            },
        }
        i = i + 1;
    }
    Ok(mix_map)
}


proof fn lemma_search_steps_error(
    base: Seq<Color>,
    target: Color,
    bounds: [Color; 4],
    iters: nat,
    use_all: bool,
    k: int,
    map: Map<Color, Seq<Color>>,
)
    ensures
        search_steps(base, target, bounds, iters, use_all, k, map) is Err ==> search_steps(
            base,
            target,
            bounds,
            iters,
            use_all,
            k,
            map,
        ) == Err::<Map<Color, Seq<Color>>, MixSearchError>(MixSearchError::NoAcceptableMix),
    decreases iters,
{
    if iters > 0 {
        let sorted = sorted_by_distance(bounds, target);
        let used = used_colors(base, sorted, use_all);
        if let Some(t) = step_choice(base, target, bounds, use_all, k) {
            let c = mix_of(used, t);
            if c != target {
                lemma_search_steps_error(base, target, replace_vertex(sorted, 3, c), (iters - 1) as nat, use_all, k, map.insert(c, pick(used, t)));
            }
        }
    }
}

/// Finds a recipe for `target_color` as `try_find_color_mix` does; `None` when
/// no four base colours span a tetrahedron containing the target. Some mix
/// must be acceptable at every step of the search.
pub fn find_color_mix(
    base_colors: &[Color],
    target_color: Color,
    iterations: usize,
    use_all_colors: bool,
    max_mix_count: usize,
) -> (r: Option<ColorMap<Vec<Color>>>)
    requires
        initial_bounds(base_colors@, target_color) is Some && iterations > 0 ==> max_mix_count
            <= MAX_MIX_PARTS,
        find_color_mix_spec(
            base_colors@,
            target_color,
            iterations as nat,
            use_all_colors,
            max_mix_count as int,
        ) != Err::<Map<Color, Seq<Color>>, MixSearchError>(MixSearchError::NoAcceptableMix),
    ensures
        match r {
            Some(m) => find_color_mix_spec(
                base_colors@,
                target_color,
                iterations as nat,
                use_all_colors,
                max_mix_count as int,
            ) == Ok::<Map<Color, Seq<Color>>, MixSearchError>(recipe_views(m@)),
            None => initial_bounds(base_colors@, target_color) is None,
        },
{
    let r = try_find_color_mix(base_colors, target_color, iterations, use_all_colors, max_mix_count);
    proof {
        if let Some(b) = initial_bounds(base_colors@, target_color) {
            lemma_search_steps_error(
                base_colors@,
                target_color,
                b,
                iterations as nat,
                use_all_colors,
                max_mix_count as int,
                Map::empty(),
            );
        }
    }
    match r {
        Ok(m) => Some(m),
        Err(_) => None,
    }
}

/// The colour whose recipe is shown: the target itself when a recipe for it was
/// found, otherwise a colour with a recipe that is as close to the target as
/// any other (the first one found among equally close ones); `None` when no
/// recipe was found at all.
pub fn closest_mixed_color(mixes: &ColorMap<Vec<Color>>, target: &Color) -> (r: Option<Color>)
    ensures
        r is None <==> mixes@.dom() == Set::<Color>::empty(),
        mixes@.contains_key(*target) ==> r == Some(*target),
        r matches Some(c) ==> mixes@.contains_key(c) && forall|k: Color|
            #[trigger] mixes@.contains_key(k) ==> distance_squared_spec(c, *target)
                <= distance_squared_spec(k, *target),
        !mixes@.contains_key(*target) ==> (r matches Some(c) ==> exists|i: int|
            0 <= i < mixes.key_order().len() && mixes.key_order()[i] == c && forall|j: int|
                0 <= j < i ==> distance_squared_spec(c, *target) < distance_squared_spec(
                    #[trigger] mixes.key_order()[j],
                    *target,
                )),
{
    if mixes.contains_key(target) {
        proof {
            assert forall|k: Color| #[trigger] mixes@.contains_key(k) implies distance_squared_spec(*target, *target)
                <= distance_squared_spec(k, *target) by {
                lemma_distance_squared_nonneg(k, *target);
                lemma_distance_squared_nonneg(*target, k);
            }
        }
        return Some(*target);
    }
    let keys = mixes.keys();
    if keys.len() == 0 {
        assert(mixes@.dom() =~= Set::<Color>::empty()) by {
            assert forall|c: Color| !mixes@.dom().contains(c) by {
                if mixes@.dom().contains(c) {
                    assert(keys@.to_set().contains(c));
                }
            }
        }
        return None;
    }
    let mut best = keys[0];
    let mut best_d = best.distance_squared(target);
    let ghost mut bi: int = 0;
    let mut i: usize = 1;
    while i < keys.len()
        invariant
            1 <= i <= keys@.len(),
            0 <= bi < i,
            keys@[bi] == best,
            keys@.contains(best),
            best_d == distance_squared_spec(best, *target),
            forall|j: int| 0 <= j < i ==> best_d <= distance_squared_spec(#[trigger] keys@[j], *target),
            forall|j: int| 0 <= j < bi ==> best_d < distance_squared_spec(#[trigger] keys@[j], *target),
        decreases keys@.len() - i,
    {
        let d = keys[i].distance_squared(target);
        if d < best_d {
            best = keys[i];
            best_d = d;
            proof {
                bi = i as int;
            }
        }
        i = i + 1;
    }
    proof {
        assert(keys@.to_set().contains(best));
        assert forall|k: Color| #[trigger] mixes@.contains_key(k) implies distance_squared_spec(best, *target)
            <= distance_squared_spec(k, *target) by {
            assert(keys@.to_set().contains(k));
            let j = choose|j: int| 0 <= j < keys@.len() && keys@[j] == k;
        }
        assert(mixes@.contains_key(keys@[0]));
        assert(keys@[bi] == best);
    }
    Some(best)
}


/// Every recipe of `m` mixes back to its colour, has between 1 and `k` parts,
/// and each part is a base colour or a colour that has a recipe itself.
pub open spec fn recipes_sound(m: Map<Color, Seq<Color>>, base: Seq<Color>, k: int) -> bool {
    forall|c: Color|
        #[trigger] m.contains_key(c) ==> {
            &&& mixed_color_spec(m[c]) == c
            &&& 1 <= m[c].len() <= k
            &&& forall|i: int|
                0 <= i < m[c].len() ==> base.contains(#[trigger] m[c][i]) || m.contains_key(m[c][i])
        }
}

proof fn lemma_search_steps_sound(
    base: Seq<Color>,
    target: Color,
    bounds: [Color; 4],
    iters: nat,
    use_all: bool,
    k: int,
    map: Map<Color, Seq<Color>>,
)
    requires
        recipes_sound(map, base, k),
        map.dom().finite(),
        forall|i: int| 0 <= i < 4 ==> base.contains(#[trigger] bounds[i]) || map.contains_key(bounds[i]),
    ensures
        search_steps(base, target, bounds, iters, use_all, k, map) matches Ok(m) ==> {
            &&& recipes_sound(m, base, k)
            &&& m.dom().finite()
            &&& m.dom().len() <= map.dom().len() + iters
            &&& map.dom().subset_of(m.dom())
        },
    decreases iters,
{
    if iters > 0 {
        let sorted = sorted_by_distance(bounds, target);
        let used = used_colors(base, sorted, use_all);
        assert forall|i: int| 0 <= i < 4 implies base.contains(#[trigger] sorted[i]) || map.contains_key(sorted[i]) by {
            assert(sorted[i] == vertex_at_rank(bounds, target, i));
        }
        match step_choice(base, target, bounds, use_all, k) {
            None => {},
            Some(t) => {
                let dom = mix_dom(used.len() as int, k, step_accepts(used, target, sorted));
                let key = mix_key(used, target);
                assert(first_min(dom, key) == Some(t));
                assert(exists|t2: Seq<int>| is_first_min(t2, dom, key));
                assert(is_first_min(t, dom, key));
                assert(dom(t));
                let c = mix_of(used, t);
                let parts = pick(used, t);
                let map2 = map.insert(c, parts);
                assert forall|i: int| 0 <= i < parts.len() implies base.contains(#[trigger] parts[i]) || map2.contains_key(parts[i]) by {
                    assert(0 <= t[i] < used.len());
                    if !use_all {
                        assert(used[t[i]] == sorted[t[i]]);
                    }
                }
                assert forall|x: Color| #[trigger] map2.contains_key(x) implies {
                    &&& mixed_color_spec(map2[x]) == x
                    &&& 1 <= map2[x].len() <= k
                    &&& forall|i: int|
                        0 <= i < map2[x].len() ==> base.contains(#[trigger] map2[x][i]) || map2.contains_key(map2[x][i])
                } by {
                    if x != c {
                        assert(map.contains_key(x));
                        assert forall|i: int| 0 <= i < map2[x].len() implies base.contains(#[trigger] map2[x][i]) || map2.contains_key(map2[x][i]) by {
                            assert(map2[x] == map[x]);
                        }
                    }
                }
                assert(recipes_sound(map2, base, k));
                if map.contains_key(c) {
                    assert(map2.dom() =~= map.dom());
                } else {
                    assert(map2.dom() =~= map.dom().insert(c));
                }
                if c != target {
                    let next = replace_vertex(sorted, 3, c);
                    assert forall|i: int| 0 <= i < 4 implies base.contains(#[trigger] next[i]) || map2.contains_key(next[i]) by {
                        if i != 3 {
                            assert(next[i] == sorted[i]);
                        }
                    }
                    lemma_search_steps_sound(base, target, next, (iters - 1) as nat, use_all, k, map2);
                }
            },
        }
    }
}

/// Whatever `find_color_mix` returns mixes back: every colour it lists is
/// produced by mixing its recipe, of 1 to `k` parts, each part a base colour
/// or a colour listed with its own recipe; and at most one colour is listed
/// per iteration.
pub proof fn lemma_find_color_mix_sound(
    base: Seq<Color>,
    target: Color,
    iterations: nat,
    use_all: bool,
    k: int,
)
    ensures
        find_color_mix_spec(base, target, iterations, use_all, k) matches Ok(m) ==> {
            &&& recipes_sound(m, base, k)
            &&& m.dom().finite()
            &&& m.dom().len() <= iterations
        },
{
    match first_min(bounds_dom(base, target), bounds_key(base)) {
        None => {},
        Some(t) => {
            let dom = bounds_dom(base, target);
            let key = bounds_key(base);
            assert(exists|t2: Seq<int>| is_first_min(t2, dom, key));
            assert(is_first_min(t, dom, key));
            let b = pick4(base, t);
            assert forall|i: int| 0 <= i < 4 implies base.contains(#[trigger] b[i]) || Map::<Color, Seq<Color>>::empty().contains_key(b[i]) by {
                assert(0 <= t[i] < base.len());
                assert(b[i] == base[t[i]]);
            }
            lemma_search_steps_sound(base, target, b, iterations, use_all, k, Map::empty());
        },
    }
}


/// The colour mixed by one step of the search from `bounds`, if some mix is acceptable.
pub open spec fn step_color(base: Seq<Color>, target: Color, bounds: [Color; 4], use_all: bool, k: int) -> Option<Color> {
    match step_choice(base, target, bounds, use_all, k) {
        Some(t) => Some(mix_of(used_colors(base, sorted_by_distance(bounds, target), use_all), t)),
        None => None,
    }
}

/// The bounds that step `i` of the search from `bounds` starts from: each
/// step replaces the vertex farthest from the target by the colour it mixed.
/// `None` once an earlier step found no acceptable mix or mixed the target.
pub open spec fn bounds_before_step(
    base: Seq<Color>,
    target: Color,
    bounds: [Color; 4],
    use_all: bool,
    k: int,
    i: nat,
) -> Option<[Color; 4]>
    decreases i,
{
    if i == 0 {
        Some(bounds)
    } else {
        match step_color(base, target, bounds, use_all, k) {
            Some(c) => if c == target {
                None
            } else {
                bounds_before_step(
                    base,
                    target,
                    replace_vertex(sorted_by_distance(bounds, target), 3, c),
                    use_all,
                    k,
                    (i - 1) as nat,
                )
            },
            None => None,
        }
    }
}

proof fn lemma_search_steps_keeps_keys(
    base: Seq<Color>,
    target: Color,
    bounds: [Color; 4],
    iters: nat,
    use_all: bool,
    k: int,
    map: Map<Color, Seq<Color>>,
)
    ensures
        search_steps(base, target, bounds, iters, use_all, k, map) matches Ok(m) ==> map.dom().subset_of(
            m.dom(),
        ),
    decreases iters,
{
    if iters > 0 {
        let sorted = sorted_by_distance(bounds, target);
        let used = used_colors(base, sorted, use_all);
        if let Some(t) = step_choice(base, target, bounds, use_all, k) {
            let c = mix_of(used, t);
            if c != target {
                lemma_search_steps_keeps_keys(base, target, replace_vertex(sorted, 3, c), (iters - 1) as nat, use_all, k, map.insert(c, pick(used, t)));
            }
        }
    }
}

/// The search takes one step per iteration until it mixes the target: each of
/// the first `iters` steps that is reached (no earlier step failed or mixed
/// the target) either finds no acceptable mix, and the whole search fails, or
/// mixes a colour that the result holds a recipe for.
pub proof fn lemma_every_step_is_taken(
    base: Seq<Color>,
    target: Color,
    bounds: [Color; 4],
    iters: nat,
    use_all: bool,
    k: int,
    map: Map<Color, Seq<Color>>,
    i: nat,
)
    requires
        i < iters,
        bounds_before_step(base, target, bounds, use_all, k, i) is Some,
    ensures
        ({
            let bi = bounds_before_step(base, target, bounds, use_all, k, i)->0;
            let r = search_steps(base, target, bounds, iters, use_all, k, map);
            &&& step_color(base, target, bi, use_all, k) is None ==> r == Err::<
                Map<Color, Seq<Color>>,
                MixSearchError,
            >(MixSearchError::NoAcceptableMix)
            &&& step_color(base, target, bi, use_all, k) matches Some(c) ==> (r matches Ok(m) ==> m.contains_key(c))
        }),
    decreases i,
{
    let sorted = sorted_by_distance(bounds, target);
    let used = used_colors(base, sorted, use_all);
    if i == 0 {
        if let Some(t) = step_choice(base, target, bounds, use_all, k) {
            let c = mix_of(used, t);
            if c != target {
                lemma_search_steps_keeps_keys(base, target, replace_vertex(sorted, 3, c), (iters - 1) as nat, use_all, k, map.insert(c, pick(used, t)));
            }
        }
    } else {
        let t = step_choice(base, target, bounds, use_all, k)->0;
        let c = mix_of(used, t);
        lemma_every_step_is_taken(
            base,
            target,
            replace_vertex(sorted, 3, c),
            (iters - 1) as nat,
            use_all,
            k,
            map.insert(c, pick(used, t)),
            (i - 1) as nat,
        );
    }
}

/// A mix whose colour is the target is always accepted.
pub proof fn lemma_target_is_accepted(target: Color, sorted: [Color; 4])
    ensures
        accept_spec(target, sorted, target),
{
}

/// A step finds a mix whenever some mix of 1 to `k` parts of the available
/// colours is acceptable.
pub proof fn lemma_step_finds_acceptable_mix(
    base: Seq<Color>,
    target: Color,
    bounds: [Color; 4],
    use_all: bool,
    k: int,
    u: Seq<int>,
)
    requires
        is_mix_choice(u, used_colors(base, sorted_by_distance(bounds, target), use_all).len() as int, k),
        accept_spec(
            target,
            sorted_by_distance(bounds, target),
            mix_of(used_colors(base, sorted_by_distance(bounds, target), use_all), u),
        ),
    ensures
        step_color(base, target, bounds, use_all, k) is Some,
{
    let sorted = sorted_by_distance(bounds, target);
    let used = used_colors(base, sorted, use_all);
    let dom = mix_dom(used.len() as int, k, step_accepts(used, target, sorted));
    let key = mix_key(used, target);
    assert forall|v: Seq<int>| #[trigger] dom(v) implies key(v) >= 0 && nonneg_entries(v) by {
        lemma_distance_squared_nonneg(mix_of(used, v), target);
    }
    assert(dom(u));
    lemma_first_min_exists(dom, key, u);
}

/// When some mix of 1 to `k` parts of the available colours gives the target
/// exactly, the step mixes the target.
pub proof fn lemma_step_mixes_target_when_possible(
    base: Seq<Color>,
    target: Color,
    bounds: [Color; 4],
    use_all: bool,
    k: int,
    u: Seq<int>,
)
    requires
        is_mix_choice(u, used_colors(base, sorted_by_distance(bounds, target), use_all).len() as int, k),
        mix_of(used_colors(base, sorted_by_distance(bounds, target), use_all), u) == target,
    ensures
        step_color(base, target, bounds, use_all, k) == Some(target),
{
    let sorted = sorted_by_distance(bounds, target);
    let used = used_colors(base, sorted, use_all);
    let dom = mix_dom(used.len() as int, k, step_accepts(used, target, sorted));
    let key = mix_key(used, target);
    lemma_target_is_accepted(target, sorted);
    lemma_step_finds_acceptable_mix(base, target, bounds, use_all, k, u);
    assert(dom(u));
    lemma_distance_squared_nonneg(target, target);
    assert(key(u) == 0);
    let t = first_min(dom, key)->0;
    assert(exists|t2: Seq<int>| is_first_min(t2, dom, key));
    assert(is_first_min(t, dom, key));
    assert(key(t) <= key(u));
    lemma_distance_squared_nonneg(mix_of(used, t), target);
    lemma_distance_zero_iff_equal(mix_of(used, t), target);
}

/// Each step of the search keeps the target inside the tetrahedron it moves
/// to: the new colour replaces the vertex farthest from the target only if
/// the target stays inside (or the new colour is the target, which ends the search).
pub proof fn lemma_step_keeps_target_inside(
    base: Seq<Color>,
    target: Color,
    bounds: [Color; 4],
    use_all: bool,
    k: int,
)
    ensures
        step_choice(base, target, bounds, use_all, k) matches Some(t) ==> {
            let sorted = sorted_by_distance(bounds, target);
            let c = mix_of(used_colors(base, sorted, use_all), t);
            c != target ==> contains_spec(replace_vertex(sorted, 3, c), target)
        },
{
    let sorted = sorted_by_distance(bounds, target);
    let used = used_colors(base, sorted, use_all);
    let dom = mix_dom(used.len() as int, k, step_accepts(used, target, sorted));
    let key = mix_key(used, target);
    if let Some(t) = first_min(dom, key) {
        assert(exists|t2: Seq<int>| is_first_min(t2, dom, key));
        assert(is_first_min(t, dom, key));
        assert(dom(t));
    }
}


/// The search starts from a tetrahedron of four distinct base colours that
/// contains the target, and none containing it is smaller.
pub proof fn lemma_initial_bounds_contain_target(base: Seq<Color>, target: Color)
    ensures
        initial_bounds(base, target) matches Some(b) ==> {
            &&& contains_spec(b, target)
            &&& forall|u: Seq<int>| #[trigger] bounds_dom(base, target)(u) ==> volume_6_spec(b) <= volume_6_spec(pick4(base, u))
        },
{
    let dom = bounds_dom(base, target);
    let key = bounds_key(base);
    if let Some(t) = first_min(dom, key) {
        assert(exists|t2: Seq<int>| is_first_min(t2, dom, key));
        assert(is_first_min(t, dom, key));
        assert(dom(t));
    }
}

} // verus!

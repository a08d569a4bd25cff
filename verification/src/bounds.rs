use vstd::prelude::*;

use vstd::arithmetic::mul::{
    lemma_mul_is_commutative, lemma_mul_is_distributive_add, lemma_mul_is_distributive_sub,
    lemma_mul_is_distributive_sub_other_way,
};

use crate::color::Color;

verus! {

/// Determinant of the 3×3 matrix whose columns are the three colours.
pub open spec fn det3(a: Color, b: Color, c: Color) -> int {
    a.r * (b.g * c.b - c.g * b.b) - b.r * (a.g * c.b - c.g * a.b) + c.r * (a.g * b.b - b.g * a.b)
}

/// Determinant of the 4×4 matrix whose columns are `(p.r, p.g, p.b, 1)` for the
/// four colours, expanded along the row of ones.
pub open spec fn lifted_det(p0: Color, p1: Color, p2: Color, p3: Color) -> int {
    -det3(p1, p2, p3) + det3(p0, p2, p3) - det3(p0, p1, p3) + det3(p0, p1, p2)
}

/// `lifted_det` of an array of four colours.
pub open spec fn lifted_det_of(v: [Color; 4]) -> int {
    lifted_det(v[0], v[1], v[2], v[3])
}

/// The sign of a determinant as a floating point `signum` reports it for an
/// exactly computed value: `-1` below zero, `1` otherwise (zero counts as `+0`).
pub open spec fn signum(x: int) -> int {
    if x < 0 {
        -1
    } else {
        1
    }
}

/// The four vertices with vertex `i` replaced by `p`.
pub open spec fn replace_vertex(v: [Color; 4], i: int, p: Color) -> [Color; 4] {
    [
        if i == 0 { p } else { v[0] },
        if i == 1 { p } else { v[1] },
        if i == 2 { p } else { v[2] },
        if i == 3 { p } else { v[3] },
    ]
}

/// `p` lies in the tetrahedron: replacing any one vertex by `p` keeps the sign
/// of the determinant.
pub open spec fn contains_spec(v: [Color; 4], p: Color) -> bool {
    forall|i: int|
        0 <= i < 4 ==> #[trigger] signum(lifted_det_of(replace_vertex(v, i, p))) == signum(
            lifted_det_of(v),
        )
}

/// Scalar triple product `(v0 - v3) · ((v1 - v3) × (v2 - v3))`.
pub open spec fn triple_product(v: [Color; 4]) -> int {
    let (ar, ag, ab) = (v[0].r - v[3].r, v[0].g - v[3].g, v[0].b - v[3].b);
    let (br, bg, bb) = (v[1].r - v[3].r, v[1].g - v[3].g, v[1].b - v[3].b);
    let (cr, cg, cb) = (v[2].r - v[3].r, v[2].g - v[3].g, v[2].b - v[3].b);
    ar * (bg * cb - bb * cg) + ag * (bb * cr - br * cb) + ab * (br * cg - bg * cr)
}

/// Six times the volume of the tetrahedron.
pub open spec fn volume_6_spec(v: [Color; 4]) -> int {
    let t = triple_product(v);
    if t < 0 {
        -t
    } else {
        t
    }
}

/// A colour as a vector of integers.
spec fn vec_of(c: Color) -> (int, int, int) {
    (c.r as int, c.g as int, c.b as int)
}

/// Componentwise difference of two integer vectors.
spec fn vsub(a: (int, int, int), d: (int, int, int)) -> (int, int, int) {
    (a.0 - d.0, a.1 - d.1, a.2 - d.2)
}

/// Determinant of the 3×3 matrix whose columns are three integer vectors,
/// expanded along the first column.
#[verifier::opaque]
spec fn det3v(a: (int, int, int), b: (int, int, int), c: (int, int, int)) -> int {
    a.0 * (b.1 * c.2 - c.1 * b.2) + a.1 * (c.0 * b.2 - b.0 * c.2) + a.2 * (b.0 * c.1 - c.0 * b.1)
}

/// A product of three factors is the same in whatever order they are multiplied.
proof fn lemma_product_of_three(a: int, b: int, c: int)
    by (nonlinear_arith)
    ensures
        a * (b * c) == a * b * c,
        a * (c * b) == a * b * c,
        b * (a * c) == a * b * c,
        b * (c * a) == a * b * c,
        c * (a * b) == a * b * c,
        c * (b * a) == a * b * c,
{
}

proof fn lemma_six_products(a0: int, a1: int, a2: int, b0: int, b1: int, b2: int, c0: int, c1: int, c2: int)
    ensures
        a0 * (b1 * c2) == a0 * b1 * c2, a0 * (c2 * b1) == a0 * b1 * c2,
        b1 * (a0 * c2) == a0 * b1 * c2, b1 * (c2 * a0) == a0 * b1 * c2,
        c2 * (a0 * b1) == a0 * b1 * c2, c2 * (b1 * a0) == a0 * b1 * c2,
        a0 * (b2 * c1) == a0 * b2 * c1, a0 * (c1 * b2) == a0 * b2 * c1,
        b2 * (a0 * c1) == a0 * b2 * c1, b2 * (c1 * a0) == a0 * b2 * c1,
        c1 * (a0 * b2) == a0 * b2 * c1, c1 * (b2 * a0) == a0 * b2 * c1,
        a1 * (b0 * c2) == a1 * b0 * c2, a1 * (c2 * b0) == a1 * b0 * c2,
        b0 * (a1 * c2) == a1 * b0 * c2, b0 * (c2 * a1) == a1 * b0 * c2,
        c2 * (a1 * b0) == a1 * b0 * c2, c2 * (b0 * a1) == a1 * b0 * c2,
        a1 * (b2 * c0) == a1 * b2 * c0, a1 * (c0 * b2) == a1 * b2 * c0,
        b2 * (a1 * c0) == a1 * b2 * c0, b2 * (c0 * a1) == a1 * b2 * c0,
        c0 * (a1 * b2) == a1 * b2 * c0, c0 * (b2 * a1) == a1 * b2 * c0,
        a2 * (b0 * c1) == a2 * b0 * c1, a2 * (c1 * b0) == a2 * b0 * c1,
        b0 * (a2 * c1) == a2 * b0 * c1, b0 * (c1 * a2) == a2 * b0 * c1,
        c1 * (a2 * b0) == a2 * b0 * c1, c1 * (b0 * a2) == a2 * b0 * c1,
        a2 * (b1 * c0) == a2 * b1 * c0, a2 * (c0 * b1) == a2 * b1 * c0,
        b1 * (a2 * c0) == a2 * b1 * c0, b1 * (c0 * a2) == a2 * b1 * c0,
        c0 * (a2 * b1) == a2 * b1 * c0, c0 * (b1 * a2) == a2 * b1 * c0,
{
    lemma_product_of_three(a0, b1, c2);
    lemma_product_of_three(a0, b2, c1);
    lemma_product_of_three(a1, b0, c2);
    lemma_product_of_three(a1, b2, c0);
    lemma_product_of_three(a2, b0, c1);
    lemma_product_of_three(a2, b1, c0);
}

proof fn lemma_det_cofactor_monomials(a0: int, a1: int, a2: int, b0: int, b1: int, b2: int, c0: int, c1: int, c2: int)
    ensures
        a0 * (b1 * c2 - c1 * b2) + a1 * (c0 * b2 - b0 * c2) + a2 * (b0 * c1 - c0 * b1)
            == a0 * b1 * c2 - a0 * b2 * c1 - a1 * b0 * c2 + a1 * b2 * c0 + a2 * b0 * c1 - a2 * b1 * c0,
{
    lemma_six_products(a0, a1, a2, b0, b1, b2, c0, c1, c2);
    lemma_mul_is_distributive_sub(a0, b1 * c2, c1 * b2);
    lemma_mul_is_distributive_sub(a1, c0 * b2, b0 * c2);
    lemma_mul_is_distributive_sub(a2, b0 * c1, c0 * b1);
}

proof fn lemma_det_columns_monomials(a0: int, a1: int, a2: int, b0: int, b1: int, b2: int, c0: int, c1: int, c2: int)
    ensures
        a0 * (b1 * c2 - c1 * b2) - b0 * (a1 * c2 - c1 * a2) + c0 * (a1 * b2 - b1 * a2)
            == a0 * b1 * c2 - a0 * b2 * c1 - a1 * b0 * c2 + a1 * b2 * c0 + a2 * b0 * c1 - a2 * b1 * c0,
{
    lemma_six_products(a0, a1, a2, b0, b1, b2, c0, c1, c2);
    lemma_mul_is_distributive_sub(a0, b1 * c2, c1 * b2);
    lemma_mul_is_distributive_sub(b0, a1 * c2, c1 * a2);
    lemma_mul_is_distributive_sub(c0, a1 * b2, b1 * a2);
}

proof fn lemma_det_rotated_monomials(a0: int, a1: int, a2: int, b0: int, b1: int, b2: int, c0: int, c1: int, c2: int)
    ensures
        b0 * (c1 * a2 - a1 * c2) + b1 * (a0 * c2 - c0 * a2) + b2 * (c0 * a1 - a0 * c1)
            == a0 * b1 * c2 - a0 * b2 * c1 - a1 * b0 * c2 + a1 * b2 * c0 + a2 * b0 * c1 - a2 * b1 * c0,
{
    lemma_six_products(a0, a1, a2, b0, b1, b2, c0, c1, c2);
    lemma_mul_is_distributive_sub(b0, c1 * a2, a1 * c2);
    lemma_mul_is_distributive_sub(b1, a0 * c2, c0 * a2);
    lemma_mul_is_distributive_sub(b2, c0 * a1, a0 * c1);
}

proof fn lemma_det_poly_forms(a0: int, a1: int, a2: int, b0: int, b1: int, b2: int, c0: int, c1: int, c2: int)
    ensures
        a0 * (b1 * c2 - c1 * b2) + a1 * (c0 * b2 - b0 * c2) + a2 * (b0 * c1 - c0 * b1) == a0 * (b1
            * c2 - c1 * b2) - b0 * (a1 * c2 - c1 * a2) + c0 * (a1 * b2 - b1 * a2),
{
    lemma_det_cofactor_monomials(a0, a1, a2, b0, b1, b2, c0, c1, c2);
    lemma_det_columns_monomials(a0, a1, a2, b0, b1, b2, c0, c1, c2);
}

proof fn lemma_det_poly_commuted(a0: int, a1: int, a2: int, b0: int, b1: int, b2: int, c0: int, c1: int, c2: int)
    by (nonlinear_arith)
    ensures
        a0 * (b1 * c2 - c1 * b2) + a1 * (c0 * b2 - b0 * c2) + a2 * (b0 * c1 - c0 * b1) == a0 * (b1
            * c2 - b2 * c1) + a1 * (b2 * c0 - b0 * c2) + a2 * (b0 * c1 - b1 * c0),
{
}

proof fn lemma_det_poly_rotate(a0: int, a1: int, a2: int, b0: int, b1: int, b2: int, c0: int, c1: int, c2: int)
    ensures
        b0 * (c1 * a2 - a1 * c2) + b1 * (a0 * c2 - c0 * a2) + b2 * (c0 * a1 - a0 * c1) == a0 * (b1
            * c2 - c1 * b2) + a1 * (c0 * b2 - b0 * c2) + a2 * (b0 * c1 - c0 * b1),
{
    lemma_det_cofactor_monomials(a0, a1, a2, b0, b1, b2, c0, c1, c2);
    lemma_det_rotated_monomials(a0, a1, a2, b0, b1, b2, c0, c1, c2);
}

proof fn lemma_det_poly_swap(a0: int, a1: int, a2: int, b0: int, b1: int, b2: int, c0: int, c1: int, c2: int)
    by (nonlinear_arith)
    ensures
        a0 * (c1 * b2 - b1 * c2) + a1 * (b0 * c2 - c0 * b2) + a2 * (c0 * b1 - b0 * c1) == -(a0 * (b1
            * c2 - c1 * b2) + a1 * (c0 * b2 - b0 * c2) + a2 * (b0 * c1 - c0 * b1)),
{
}

proof fn lemma_det_poly_repeat(a0: int, a1: int, a2: int, c0: int, c1: int, c2: int)
    by (nonlinear_arith)
    ensures
        a0 * (a1 * c2 - c1 * a2) + a1 * (c0 * a2 - a0 * c2) + a2 * (a0 * c1 - c0 * a1) == 0,
{
}

proof fn lemma_det3v_sub_first(a: (int, int, int), d: (int, int, int), b: (int, int, int), c: (int, int, int))
    ensures
        det3v(vsub(a, d), b, c) == det3v(a, b, c) - det3v(d, b, c),
{
    reveal(det3v);
    lemma_mul_is_distributive_sub_other_way(b.1 * c.2 - c.1 * b.2, a.0, d.0);
    lemma_mul_is_distributive_sub_other_way(c.0 * b.2 - b.0 * c.2, a.1, d.1);
    lemma_mul_is_distributive_sub_other_way(b.0 * c.1 - c.0 * b.1, a.2, d.2);
}

proof fn lemma_det3v_rotate(a: (int, int, int), b: (int, int, int), c: (int, int, int))
    ensures
        det3v(b, c, a) == det3v(a, b, c),
        det3v(a, c, b) == -det3v(a, b, c),
        det3v(a, a, c) == 0,
{
    reveal(det3v);
    lemma_det_poly_rotate(a.0, a.1, a.2, b.0, b.1, b.2, c.0, c.1, c.2);
    lemma_det_poly_swap(a.0, a.1, a.2, b.0, b.1, b.2, c.0, c.1, c.2);
    lemma_det_poly_repeat(a.0, a.1, a.2, c.0, c.1, c.2);
}

proof fn lemma_det3_is_det3v(a: Color, b: Color, c: Color)
    ensures
        det3(a, b, c) == det3v(vec_of(a), vec_of(b), vec_of(c)),
{
    reveal(det3v);
    lemma_det_poly_forms(a.r as int, a.g as int, a.b as int, b.r as int, b.g as int, b.b as int, c.r as int, c.g as int, c.b as int);
}

proof fn lemma_triple_product_is_det3v(v: [Color; 4])
    ensures
        triple_product(v) == det3v(
            vsub(vec_of(v[0]), vec_of(v[3])),
            vsub(vec_of(v[1]), vec_of(v[3])),
            vsub(vec_of(v[2]), vec_of(v[3])),
        ),
{
    reveal(det3v);
    let a = vsub(vec_of(v[0]), vec_of(v[3]));
    let b = vsub(vec_of(v[1]), vec_of(v[3]));
    let c = vsub(vec_of(v[2]), vec_of(v[3]));
    lemma_det_poly_commuted(a.0, a.1, a.2, b.0, b.1, b.2, c.0, c.1, c.2);
}

/// Six times the volume is the size of the 4×4 determinant that `contains`
/// takes the signs of: the scalar triple product equals `lifted_det`, so the
/// tetrahedron is flat exactly when that determinant is zero.
pub proof fn lemma_volume_is_lifted_det(v: [Color; 4])
    ensures
        triple_product(v) == lifted_det_of(v),
        volume_6_spec(v) == (if lifted_det_of(v) < 0 { -lifted_det_of(v) } else { lifted_det_of(v) }),
        volume_6_spec(v) == 0 <==> lifted_det_of(v) == 0,
{
    let (p0, p1, p2, p3) = (vec_of(v[0]), vec_of(v[1]), vec_of(v[2]), vec_of(v[3]));
    lemma_triple_product_is_det3v(v);
    lemma_det3_is_det3v(v[1], v[2], v[3]);
    lemma_det3_is_det3v(v[0], v[2], v[3]);
    lemma_det3_is_det3v(v[0], v[1], v[3]);
    lemma_det3_is_det3v(v[0], v[1], v[2]);
    let b = vsub(p1, p3);
    let c = vsub(p2, p3);
    // split the first column, then rotate the second one to the front
    lemma_det3v_sub_first(p0, p3, b, c);
    lemma_det3v_rotate(p0, b, c);
    lemma_det3v_rotate(p3, b, c);
    // split the second column, then rotate the third one to the front
    lemma_det3v_sub_first(p1, p3, c, p0);
    lemma_det3v_sub_first(p1, p3, c, p3);
    lemma_det3v_rotate(p1, c, p0);
    lemma_det3v_rotate(p3, c, p0);
    lemma_det3v_rotate(p1, c, p3);
    lemma_det3v_rotate(p3, c, p3);
    // split the third column
    lemma_det3v_sub_first(p2, p3, p0, p1);
    lemma_det3v_sub_first(p2, p3, p0, p3);
    lemma_det3v_sub_first(p2, p3, p3, p1);
    lemma_det3v_sub_first(p2, p3, p3, p3);
    // bring the eight terms to the columns of `lifted_det`; those with `p3` twice vanish
    lemma_det3v_rotate(p2, p0, p1);
    lemma_det3v_rotate(p3, p0, p1);
    lemma_det3v_rotate(p2, p0, p3);
    lemma_det3v_rotate(p0, p2, p3);
    lemma_det3v_rotate(p3, p0, p3);
    lemma_det3v_rotate(p0, p3, p3);
    lemma_det3v_rotate(p3, p3, p0);
    lemma_det3v_rotate(p2, p3, p1);
    lemma_det3v_rotate(p3, p1, p2);
    lemma_det3v_rotate(p3, p3, p1);
    lemma_det3v_rotate(p2, p3, p3);
    lemma_det3v_rotate(p3, p3, p2);
    lemma_det3v_rotate(p3, p3, p3);
}

/// The vertices taken in the order given by `p`: position `i` holds vertex `p[i]`.
pub open spec fn permute(v: [Color; 4], p: Seq<int>) -> [Color; 4] {
    [v[p[0]], v[p[1]], v[p[2]], v[p[3]]]
}

/// `p` is an ordering of the four vertex positions.
pub open spec fn is_permutation4(p: Seq<int>) -> bool {
    &&& p.len() == 4
    &&& forall|i: int| 0 <= i < 4 ==> 0 <= #[trigger] p[i] < 4
    &&& forall|i: int, j: int| 0 <= i < j < 4 ==> #[trigger] p[i] != #[trigger] p[j]
}

/// The number of pairs of positions that `p` puts out of order.
pub open spec fn inversions(p: Seq<int>) -> int {
    (if p[0] > p[1] { 1int } else { 0int }) + (if p[0] > p[2] { 1int } else { 0int }) + (if p[0]
        > p[3] {
        1int
    } else {
        0int
    }) + (if p[1] > p[2] { 1int } else { 0int }) + (if p[1] > p[3] { 1int } else { 0int }) + (if p[2]
        > p[3] {
        1int
    } else {
        0int
    })
}

/// The sign of an ordering: `1` when it puts an even number of pairs out of order, `-1` otherwise.
pub open spec fn perm_sign(p: Seq<int>) -> int {
    if inversions(p) % 2 == 0 {
        1
    } else {
        -1
    }
}

proof fn lemma_det3_swaps(a: Color, b: Color, c: Color)
    ensures
        det3(b, a, c) == -det3(a, b, c),
        det3(a, c, b) == -det3(a, b, c),
{
    let (x, y, z) = (vec_of(a), vec_of(b), vec_of(c));
    lemma_det3_is_det3v(a, b, c);
    lemma_det3_is_det3v(b, a, c);
    lemma_det3_is_det3v(a, c, b);
    lemma_det3v_rotate(x, y, z);
    lemma_det3v_rotate(y, z, x);
}

/// Exchanging two neighbouring vertices changes the sign of `lifted_det`.
proof fn lemma_lifted_det_swaps(a: Color, b: Color, c: Color, d: Color)
    ensures
        lifted_det(b, a, c, d) == -lifted_det(a, b, c, d),
        lifted_det(a, c, b, d) == -lifted_det(a, b, c, d),
        lifted_det(a, b, d, c) == -lifted_det(a, b, c, d),
{
    lemma_det3_swaps(a, b, c);
    lemma_det3_swaps(a, b, d);
    lemma_det3_swaps(a, c, d);
    lemma_det3_swaps(b, c, d);
    lemma_det3_swaps(a, d, c);
    lemma_det3_swaps(b, a, c);
    lemma_det3_swaps(b, a, d);
    lemma_det3_swaps(c, b, d);
    lemma_det3_swaps(a, c, b);
}

/// Reordering the vertices multiplies `lifted_det` by the sign of the ordering.
pub proof fn lemma_lifted_det_permute(v: [Color; 4], p: Seq<int>)
    requires
        is_permutation4(p),
    ensures
        lifted_det_of(permute(v, p)) == perm_sign(p) * lifted_det_of(v),
    decreases inversions(p),
{
    if p[0] < p[1] && p[1] < p[2] && p[2] < p[3] {
        assert(p[0] == 0 && p[1] == 1 && p[2] == 2 && p[3] == 3);
        assert(permute(v, p) =~= v);
    } else {
        let i: int = if p[0] > p[1] { 0 } else if p[1] > p[2] { 1 } else { 2 };
        let q = p.update(i, p[i + 1]).update(i + 1, p[i]);
        assert(is_permutation4(q)) by {
            assert forall|x: int, y: int| 0 <= x < y < 4 implies #[trigger] q[x] != #[trigger] q[y] by {
                assert(p[0] != p[1] && p[0] != p[2] && p[0] != p[3] && p[1] != p[2] && p[1] != p[3] && p[2] != p[3]);
            }
        }
        assert(inversions(q) == inversions(p) - 1);
        lemma_lifted_det_permute(v, q);
        let w = permute(v, q);
        lemma_lifted_det_swaps(w[0], w[1], w[2], w[3]);
        if i == 0 {
            assert(permute(v, p) =~= [w[1], w[0], w[2], w[3]]);
        } else if i == 1 {
            assert(permute(v, p) =~= [w[0], w[2], w[1], w[3]]);
        } else {
            assert(permute(v, p) =~= [w[0], w[1], w[3], w[2]]);
        }
    }
}

/// The volume does not depend on the order in which the vertices are given.
pub proof fn lemma_volume_permutation(v: [Color; 4], p: Seq<int>)
    requires
        is_permutation4(p),
    ensures
        volume_6_spec(permute(v, p)) == volume_6_spec(v),
{
    lemma_lifted_det_permute(v, p);
    lemma_volume_is_lifted_det(v);
    lemma_volume_is_lifted_det(permute(v, p));
}

/// For a tetrahedron whose vertices are not on one plane and a colour on none
/// of its face planes (the colour is not on one plane with the three vertices
/// of any face), whether the colour is inside does not depend on the order of
/// the vertices.
pub proof fn lemma_contains_permutation(v: [Color; 4], p: Seq<int>, c: Color)
    requires
        is_permutation4(p),
        !coplanar(v),
        forall|i: int| 0 <= i < 4 ==> !coplanar(#[trigger] replace_vertex(v, i, c)),
    ensures
        contains_spec(permute(v, p), c) == contains_spec(v, c),
{
    lemma_flat_iff_coplanar(v);
    assert forall|i: int| 0 <= i < 4 implies volume_6_spec(#[trigger] replace_vertex(v, i, c)) != 0 by {
        lemma_flat_iff_coplanar(replace_vertex(v, i, c));
    }
    let s = perm_sign(p);
    lemma_volume_is_lifted_det(v);
    lemma_lifted_det_permute(v, p);
    assert forall|i: int| 0 <= i < 4 implies #[trigger] signum(lifted_det_of(replace_vertex(permute(v, p), i, c)))
        == signum(lifted_det_of(permute(v, p))) <==> signum(lifted_det_of(replace_vertex(v, p[i], c)))
        == signum(lifted_det_of(v)) by {
        let r = replace_vertex(v, p[i], c);
        assert(replace_vertex(permute(v, p), i, c) =~= permute(r, p)) by {
            assert(p[0] != p[1] && p[0] != p[2] && p[0] != p[3] && p[1] != p[2] && p[1] != p[3] && p[2] != p[3]);
        }
        lemma_lifted_det_permute(r, p);
        lemma_volume_is_lifted_det(r);
        assert(volume_6_spec(replace_vertex(v, p[i], c)) != 0);
    }
    if contains_spec(v, c) {
        assert forall|i: int| 0 <= i < 4 implies #[trigger] signum(lifted_det_of(replace_vertex(permute(v, p), i, c)))
            == signum(lifted_det_of(permute(v, p))) by {
            assert(signum(lifted_det_of(replace_vertex(v, p[i], c))) == signum(lifted_det_of(v)));
        }
    }
    if contains_spec(permute(v, p), c) {
        assert forall|j: int| 0 <= j < 4 implies #[trigger] signum(lifted_det_of(replace_vertex(v, j, c)))
            == signum(lifted_det_of(v)) by {
            assert(p[0] != p[1] && p[0] != p[2] && p[0] != p[3] && p[1] != p[2] && p[1] != p[3] && p[2] != p[3]);
            let i: int = if p[0] == j { 0 } else if p[1] == j { 1 } else if p[2] == j { 2 } else { 3 };
            assert(p[i] == j);
            assert(signum(lifted_det_of(replace_vertex(permute(v, p), i, c))) == signum(lifted_det_of(permute(v, p))));
        }
    }
}

/// Dot product of two integer vectors.
spec fn dot3(x: (int, int, int), y: (int, int, int)) -> int {
    x.0 * y.0 + x.1 * y.1 + x.2 * y.2
}

/// Cross product of two integer vectors.
spec fn cross(x: (int, int, int), y: (int, int, int)) -> (int, int, int) {
    (x.1 * y.2 - y.1 * x.2, y.0 * x.2 - x.0 * y.2, x.0 * y.1 - y.0 * x.1)
}

/// A product of three factors in any arrangement.
proof fn lemma_product_forms(x: int, y: int, z: int)
    by (nonlinear_arith)
    ensures
        x * (y * z) == x * y * z,
        x * (z * y) == x * y * z,
        y * (x * z) == x * y * z,
        y * (z * x) == x * y * z,
        z * (x * y) == x * y * z,
        z * (y * x) == x * y * z,
        (y * x) * z == x * y * z,
        (x * z) * y == x * y * z,
        (z * x) * y == x * y * z,
        (y * z) * x == x * y * z,
        (z * y) * x == x * y * z,
{
}

/// A vector orthogonal to `b` and to `c` has no cross product with `b × c`.
proof fn lemma_normal_parallel(n: (int, int, int), b: (int, int, int), c: (int, int, int))
    requires
        dot3(n, b) == 0,
        dot3(n, c) == 0,
    ensures
        cross(n, cross(b, c)) == (0int, 0int, 0int),
{
    lemma_product_forms(n.0, b.0, c.0);
    lemma_product_forms(n.0, b.0, c.1);
    lemma_product_forms(n.0, b.0, c.2);
    lemma_product_forms(n.0, b.1, c.0);
    lemma_product_forms(n.0, b.1, c.1);
    lemma_product_forms(n.0, b.1, c.2);
    lemma_product_forms(n.0, b.2, c.0);
    lemma_product_forms(n.0, b.2, c.1);
    lemma_product_forms(n.0, b.2, c.2);
    lemma_product_forms(n.1, b.0, c.0);
    lemma_product_forms(n.1, b.0, c.1);
    lemma_product_forms(n.1, b.0, c.2);
    lemma_product_forms(n.1, b.1, c.0);
    lemma_product_forms(n.1, b.1, c.1);
    lemma_product_forms(n.1, b.1, c.2);
    lemma_product_forms(n.1, b.2, c.0);
    lemma_product_forms(n.1, b.2, c.1);
    lemma_product_forms(n.1, b.2, c.2);
    lemma_product_forms(n.2, b.0, c.0);
    lemma_product_forms(n.2, b.0, c.1);
    lemma_product_forms(n.2, b.0, c.2);
    lemma_product_forms(n.2, b.1, c.0);
    lemma_product_forms(n.2, b.1, c.1);
    lemma_product_forms(n.2, b.1, c.2);
    lemma_product_forms(n.2, b.2, c.0);
    lemma_product_forms(n.2, b.2, c.1);
    lemma_product_forms(n.2, b.2, c.2);
    lemma_mul_is_distributive_sub(n.1, b.0 * c.1, c.0 * b.1);
    lemma_mul_is_distributive_sub_other_way(n.2, c.0 * b.2, b.0 * c.2);
    lemma_mul_is_distributive_sub_other_way(n.2, b.1 * c.2, c.1 * b.2);
    lemma_mul_is_distributive_sub(n.0, b.0 * c.1, c.0 * b.1);
    lemma_mul_is_distributive_sub(n.0, c.0 * b.2, b.0 * c.2);
    lemma_mul_is_distributive_sub_other_way(n.1, b.1 * c.2, c.1 * b.2);
    let (dc, db) = (dot3(n, c), dot3(n, b));
    assert(b.0 * dc == 0 && b.1 * dc == 0 && b.2 * dc == 0);
    assert(c.0 * db == 0 && c.1 * db == 0 && c.2 * db == 0);
    lemma_mul_is_distributive_add(b.0, n.0 * c.0 + n.1 * c.1, n.2 * c.2);
    lemma_mul_is_distributive_add(b.0, n.0 * c.0, n.1 * c.1);
    lemma_mul_is_distributive_add(b.1, n.0 * c.0 + n.1 * c.1, n.2 * c.2);
    lemma_mul_is_distributive_add(b.1, n.0 * c.0, n.1 * c.1);
    lemma_mul_is_distributive_add(b.2, n.0 * c.0 + n.1 * c.1, n.2 * c.2);
    lemma_mul_is_distributive_add(b.2, n.0 * c.0, n.1 * c.1);
    lemma_mul_is_distributive_add(c.0, n.0 * b.0 + n.1 * b.1, n.2 * b.2);
    lemma_mul_is_distributive_add(c.0, n.0 * b.0, n.1 * b.1);
    lemma_mul_is_distributive_add(c.1, n.0 * b.0 + n.1 * b.1, n.2 * b.2);
    lemma_mul_is_distributive_add(c.1, n.0 * b.0, n.1 * b.1);
    lemma_mul_is_distributive_add(c.2, n.0 * b.0 + n.1 * b.1, n.2 * b.2);
    lemma_mul_is_distributive_add(c.2, n.0 * b.0, n.1 * b.1);
}

/// Three vectors with a common nonzero orthogonal vector have determinant zero.
proof fn lemma_orthogonal_flat(n: (int, int, int), a: (int, int, int), b: (int, int, int), c: (int, int, int))
    requires
        n != (0int, 0int, 0int),
        dot3(n, a) == 0,
        dot3(n, b) == 0,
        dot3(n, c) == 0,
    ensures
        det3v(a, b, c) == 0,
{
    reveal(det3v);
    lemma_normal_parallel(n, b, c);
    let w = cross(b, c);
    let t = det3v(a, b, c);
    assert(t == a.0 * w.0 + a.1 * w.1 + a.2 * w.2);
    lemma_product_forms(a.0, n.0, w.0);
    lemma_product_forms(a.0, n.1, w.0);
    lemma_product_forms(a.0, n.2, w.0);
    lemma_product_forms(a.1, n.0, w.0);
    lemma_product_forms(a.1, n.1, w.0);
    lemma_product_forms(a.1, n.2, w.0);
    lemma_product_forms(a.2, n.0, w.0);
    lemma_product_forms(a.2, n.1, w.0);
    lemma_product_forms(a.2, n.2, w.0);
    lemma_product_forms(a.0, n.0, w.1);
    lemma_product_forms(a.0, n.1, w.1);
    lemma_product_forms(a.0, n.2, w.1);
    lemma_product_forms(a.1, n.0, w.1);
    lemma_product_forms(a.1, n.1, w.1);
    lemma_product_forms(a.1, n.2, w.1);
    lemma_product_forms(a.2, n.0, w.1);
    lemma_product_forms(a.2, n.1, w.1);
    lemma_product_forms(a.2, n.2, w.1);
    lemma_product_forms(a.0, n.0, w.2);
    lemma_product_forms(a.0, n.1, w.2);
    lemma_product_forms(a.0, n.2, w.2);
    lemma_product_forms(a.1, n.0, w.2);
    lemma_product_forms(a.1, n.1, w.2);
    lemma_product_forms(a.1, n.2, w.2);
    lemma_product_forms(a.2, n.0, w.2);
    lemma_product_forms(a.2, n.1, w.2);
    lemma_product_forms(a.2, n.2, w.2);
    lemma_mul_is_distributive_add(n.0, a.0 * w.0 + a.1 * w.1, a.2 * w.2);
    lemma_mul_is_distributive_add(n.0, a.0 * w.0, a.1 * w.1);
    lemma_mul_is_distributive_add(n.1, a.0 * w.0 + a.1 * w.1, a.2 * w.2);
    lemma_mul_is_distributive_add(n.1, a.0 * w.0, a.1 * w.1);
    lemma_mul_is_distributive_add(n.2, a.0 * w.0 + a.1 * w.1, a.2 * w.2);
    lemma_mul_is_distributive_add(n.2, a.0 * w.0, a.1 * w.1);
    lemma_mul_is_distributive_add(w.0, n.0 * a.0 + n.1 * a.1, n.2 * a.2);
    lemma_mul_is_distributive_add(w.0, n.0 * a.0, n.1 * a.1);
    lemma_mul_is_distributive_add(w.1, n.0 * a.0 + n.1 * a.1, n.2 * a.2);
    lemma_mul_is_distributive_add(w.1, n.0 * a.0, n.1 * a.1);
    lemma_mul_is_distributive_add(w.2, n.0 * a.0 + n.1 * a.1, n.2 * a.2);
    lemma_mul_is_distributive_add(w.2, n.0 * a.0, n.1 * a.1);
    lemma_mul_is_commutative(n.0, a.0);
    lemma_mul_is_commutative(n.1, a.1);
    lemma_mul_is_commutative(n.2, a.2);
    // n.k * t == w.k * (n . a) == 0 for each k, because n and w are parallel
    assert(n.0 * t == w.0 * dot3(n, a));
    assert(n.1 * t == w.1 * dot3(n, a));
    assert(n.2 * t == w.2 * dot3(n, a));
    assert(t == 0) by (nonlinear_arith)
        requires
            n.0 * t == 0,
            n.1 * t == 0,
            n.2 * t == 0,
            n.0 != 0 || n.1 != 0 || n.2 != 0,
    ;
}

/// A unit axis that is not parallel to the nonzero vector `x`.
proof fn axis_not_parallel(x: (int, int, int)) -> (e: (int, int, int))
    requires
        x != (0int, 0int, 0int),
    ensures
        cross(e, x) != (0int, 0int, 0int),
{
    if x.1 != 0 || x.2 != 0 {
        let e = (1int, 0int, 0int);
        assert(cross(e, x) == (0int, -x.2, x.1));
        e
    } else {
        let e = (0int, 1int, 0int);
        assert(cross(e, x) == (x.2, 0int, -x.0));
        e
    }
}

proof fn lemma_dot3_commutes(n: (int, int, int), x: (int, int, int))
    ensures
        dot3(n, x) == dot3(x, n),
{
    lemma_mul_is_commutative(n.0, x.0);
    lemma_mul_is_commutative(n.1, x.1);
    lemma_mul_is_commutative(n.2, x.2);
}

/// Three vectors with determinant zero have a common nonzero orthogonal vector.
proof fn lemma_flat_has_normal(a: (int, int, int), b: (int, int, int), c: (int, int, int)) -> (n: (int, int, int))
    requires
        det3v(a, b, c) == 0,
    ensures
        n != (0int, 0int, 0int),
        dot3(n, a) == 0,
        dot3(n, b) == 0,
        dot3(n, c) == 0,
{
    let z = (0int, 0int, 0int);
    let n = if cross(b, c) != z {
        lemma_det3v_rotate(b, b, c);
        lemma_det3v_rotate(c, c, b);
        cross(b, c)
    } else if cross(c, a) != z {
        lemma_det3v_rotate(a, b, c);
        lemma_det3v_rotate(c, c, a);
        lemma_det3v_rotate(a, a, c);
        cross(c, a)
    } else if cross(a, b) != z {
        lemma_det3v_rotate(c, a, b);
        lemma_det3v_rotate(a, a, b);
        lemma_det3v_rotate(b, b, a);
        cross(a, b)
    } else if a != z {
        let e = axis_not_parallel(a);
        lemma_det3v_rotate(a, a, e);
        lemma_det3v_rotate(b, e, a);
        lemma_det3v_rotate(c, e, a);
        lemma_det3v_rotate(e, c, a);
        cross(e, a)
    } else if b != z {
        let e = axis_not_parallel(b);
        lemma_det3v_rotate(b, b, e);
        lemma_det3v_rotate(c, e, b);
        cross(e, b)
    } else if c != z {
        let e = axis_not_parallel(c);
        lemma_det3v_rotate(c, c, e);
        cross(e, c)
    } else {
        (1int, 0int, 0int)
    };
    reveal(det3v);
    lemma_dot3_commutes(n, a);
    lemma_dot3_commutes(n, b);
    lemma_dot3_commutes(n, c);
    n
}

/// `n · c`, the position of colour `c` along the normal `n`.
pub open spec fn plane_value(n: (int, int, int), c: Color) -> int {
    n.0 * c.r + n.1 * c.g + n.2 * c.b
}

/// The four colours lie on one plane: some nonzero normal `n` gives all of
/// them the same `n · c`.
pub open spec fn coplanar(v: [Color; 4]) -> bool {
    exists|n: (int, int, int)|
        n != (0int, 0int, 0int) && #[trigger] plane_value(n, v[0]) == plane_value(n, v[3])
            && plane_value(n, v[1]) == plane_value(n, v[3]) && plane_value(n, v[2]) == plane_value(
            n,
            v[3],
        )
}

proof fn lemma_plane_value_difference(n: (int, int, int), x: Color, y: Color)
    ensures
        plane_value(n, x) - plane_value(n, y) == dot3(n, vsub(vec_of(x), vec_of(y))),
{
    lemma_mul_is_distributive_sub(n.0, x.r as int, y.r as int);
    lemma_mul_is_distributive_sub(n.1, x.g as int, y.g as int);
    lemma_mul_is_distributive_sub(n.2, x.b as int, y.b as int);
}

/// A tetrahedron has volume zero exactly when its four vertices lie on one plane.
pub proof fn lemma_flat_iff_coplanar(v: [Color; 4])
    ensures
        volume_6_spec(v) == 0 <==> coplanar(v),
{
    let a = vsub(vec_of(v[0]), vec_of(v[3]));
    let b = vsub(vec_of(v[1]), vec_of(v[3]));
    let c = vsub(vec_of(v[2]), vec_of(v[3]));
    lemma_triple_product_is_det3v(v);
    assert(volume_6_spec(v) == 0 <==> det3v(a, b, c) == 0);
    if coplanar(v) {
        let n = choose|n: (int, int, int)|
            n != (0int, 0int, 0int) && #[trigger] plane_value(n, v[0]) == plane_value(n, v[3])
                && plane_value(n, v[1]) == plane_value(n, v[3]) && plane_value(n, v[2])
                == plane_value(n, v[3]);
        lemma_plane_value_difference(n, v[0], v[3]);
        lemma_plane_value_difference(n, v[1], v[3]);
        lemma_plane_value_difference(n, v[2], v[3]);
        lemma_orthogonal_flat(n, a, b, c);
    }
    if det3v(a, b, c) == 0 {
        let n = lemma_flat_has_normal(a, b, c);
        lemma_plane_value_difference(n, v[0], v[3]);
        lemma_plane_value_difference(n, v[1], v[3]);
        lemma_plane_value_difference(n, v[2], v[3]);
        assert(plane_value(n, v[0]) == plane_value(n, v[3]));
    }
}

/// Four colours spanning a tetrahedron in the RGB cube.
#[derive(Clone, Copy, Debug)]
pub struct ColorBounds(pub [Color; 4]);

proof fn lemma_prod_bound(x: int, y: int, bx: int, by: int)
    requires
        -bx <= x <= bx,
        -by <= y <= by,
        bx >= 0,
        by >= 0,
    ensures
        -(bx * by) <= x * y <= bx * by,
{
    assert(-(bx * by) <= x * y <= bx * by) by (nonlinear_arith)
        requires
            -bx <= x <= bx,
            -by <= y <= by,
            bx >= 0,
            by >= 0,
    ;
}

/// Exact 3×3 determinant of three colours taken as columns.
fn det3_exec(a: &Color, b: &Color, c: &Color) -> (d: i64)
    ensures
        d == det3(*a, *b, *c),
        -6 * 255 * 255 * 255 <= d <= 6 * 255 * 255 * 255,
{
    let (ar, ag, ab) = (a.r as i64, a.g as i64, a.b as i64);
    let (br, bg, bb) = (b.r as i64, b.g as i64, b.b as i64);
    let (cr, cg, cb) = (c.r as i64, c.g as i64, c.b as i64);
    proof {
        lemma_prod_bound(bg as int, cb as int, 255, 255);
        lemma_prod_bound(cg as int, bb as int, 255, 255);
        lemma_prod_bound(ag as int, cb as int, 255, 255);
        lemma_prod_bound(cg as int, ab as int, 255, 255);
        lemma_prod_bound(ag as int, bb as int, 255, 255);
        lemma_prod_bound(bg as int, ab as int, 255, 255);
    }
    let m1 = bg * cb - cg * bb;
    let m2 = ag * cb - cg * ab;
    let m3 = ag * bb - bg * ab;
    proof {
        lemma_prod_bound(ar as int, m1 as int, 255, 130050);
        lemma_prod_bound(br as int, m2 as int, 255, 130050);
        lemma_prod_bound(cr as int, m3 as int, 255, 130050);
    }
    ar * m1 - br * m2 + cr * m3
}

/// Exact `lifted_det` of four colours.
fn lifted_det_exec(v: &[Color; 4]) -> (d: i64)
    ensures
        d == lifted_det_of(*v),
{
    let d0 = det3_exec(&v[1], &v[2], &v[3]);
    let d1 = det3_exec(&v[0], &v[2], &v[3]);
    let d2 = det3_exec(&v[0], &v[1], &v[3]);
    let d3 = det3_exec(&v[0], &v[1], &v[2]);
    -d0 + d1 - d2 + d3
}

impl ColorBounds {
    /// The volume of the bounding tetrahedron, multiplied by 6
    pub fn volume_6(&self) -> (vol: i64)
        ensures
            vol == volume_6_spec(self.0),
    {
        let v = &self.0;
        let ar = v[0].r as i64 - v[3].r as i64;
        let ag = v[0].g as i64 - v[3].g as i64;
        let ab = v[0].b as i64 - v[3].b as i64;
        let br = v[1].r as i64 - v[3].r as i64;
        let bg = v[1].g as i64 - v[3].g as i64;
        let bb = v[1].b as i64 - v[3].b as i64;
        let cr = v[2].r as i64 - v[3].r as i64;
        let cg = v[2].g as i64 - v[3].g as i64;
        let cb = v[2].b as i64 - v[3].b as i64;
        proof {
            lemma_prod_bound(bg as int, cb as int, 255, 255);
            lemma_prod_bound(bb as int, cg as int, 255, 255);
            lemma_prod_bound(bb as int, cr as int, 255, 255);
            lemma_prod_bound(br as int, cb as int, 255, 255);
            lemma_prod_bound(br as int, cg as int, 255, 255);
            lemma_prod_bound(bg as int, cr as int, 255, 255);
        }
        let x = bg * cb - bb * cg;
        let y = bb * cr - br * cb;
        let z = br * cg - bg * cr;
        proof {
            lemma_prod_bound(ar as int, x as int, 255, 130050);
            lemma_prod_bound(ag as int, y as int, 255, 130050);
            lemma_prod_bound(ab as int, z as int, 255, 130050);
        }
        let t = ar * x + ag * y + ab * z;
        if t < 0 {
            -t
        } else {
            t
        }
    }

    /// Whether `color` lies inside the tetrahedron, decided by the signs of
    /// the determinants of the vertex matrix with each vertex replaced by `color`.
    pub fn contains(&self, color: &Color) -> (b: bool)
        ensures
            b == contains_spec(self.0, *color),
    {
        let check_neg = lifted_det_exec(&self.0) < 0;
        let mut i: usize = 0;
        while i < 4
            invariant
                0 <= i <= 4,
                check_neg == (lifted_det_of(self.0) < 0),
                forall|j: int|
                    0 <= j < i ==> #[trigger] signum(lifted_det_of(replace_vertex(self.0, j, *color)))
                        == signum(lifted_det_of(self.0)),
            decreases 4 - i,
        {
            let mut test = self.0;
            test[i] = *color;
            assert(test =~= replace_vertex(self.0, i as int, *color));
            let neg = lifted_det_exec(&test) < 0;
            if neg != check_neg {
                assert(signum(lifted_det_of(replace_vertex(self.0, i as int, *color))) != signum(
                    lifted_det_of(self.0),
                ));
                return false;
            }
            i = i + 1;
        }
        true
    }
}

} // verus!

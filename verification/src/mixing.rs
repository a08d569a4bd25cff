use vstd::arithmetic::div_mod::{lemma_div_is_ordered, lemma_fundamental_div_mod};
use vstd::arithmetic::mul::{lemma_mul_inequality, lemma_mul_is_commutative};
use vstd::prelude::*;
use vstd::seq_lib::lemma_fold_left_permutation;

use crate::color::Color;

verus! {

/// The largest of the three channels of a colour.
pub open spec fn max_channel(c: Color) -> int {
    if c.r >= c.g && c.r >= c.b {
        c.r as int
    } else if c.g >= c.b {
        c.g as int
    } else {
        c.b as int
    }
}

/// Sum of the red channels of a sequence of colours.
pub open spec fn sum_r(s: Seq<Color>) -> int
    decreases s.len(),
{
    if s.len() == 0 {
        0
    } else {
        sum_r(s.drop_last()) + s.last().r
    }
}

/// Sum of the green channels of a sequence of colours.
pub open spec fn sum_g(s: Seq<Color>) -> int
    decreases s.len(),
{
    if s.len() == 0 {
        0
    } else {
        sum_g(s.drop_last()) + s.last().g
    }
}

/// Sum of the blue channels of a sequence of colours.
pub open spec fn sum_b(s: Seq<Color>) -> int
    decreases s.len(),
{
    if s.len() == 0 {
        0
    } else {
        sum_b(s.drop_last()) + s.last().b
    }
}

/// Sum of the largest channel of each colour of a sequence.
pub open spec fn sum_max(s: Seq<Color>) -> int
    decreases s.len(),
{
    if s.len() == 0 {
        0
    } else {
        sum_max(s.drop_last()) + max_channel(s.last())
    }
}

/// The largest of three integers, never below zero.
pub open spec fn max3_nonneg(a: int, b: int, c: int) -> int {
    let m0 = if 0 >= a { 0 } else { a };
    let m1 = if m0 >= b { m0 } else { b };
    if m1 >= c { m1 } else { c }
}

/// The integer gain applied to the averaged colour: the average of the
/// brightest channels divided by the brightest channel of the average,
/// or zero when that average is black.
pub open spec fn mix_gain(s: Seq<Color>) -> int {
    let n = s.len() as int;
    let avg_max = sum_max(s) / n;
    let max_avg = max3_nonneg(sum_r(s) / n, sum_g(s) / n, sum_b(s) / n);
    if max_avg == 0 {
        0
    } else {
        avg_max / max_avg
    }
}

/// Red channel of the mix of a non-empty sequence of colours, before it is stored in a byte.
pub open spec fn mixed_r(s: Seq<Color>) -> int {
    (sum_r(s) / (s.len() as int)) * mix_gain(s)
}

/// Green channel of the mix of a non-empty sequence of colours, before it is stored in a byte.
pub open spec fn mixed_g(s: Seq<Color>) -> int {
    (sum_g(s) / (s.len() as int)) * mix_gain(s)
}

/// Blue channel of the mix of a non-empty sequence of colours, before it is stored in a byte.
pub open spec fn mixed_b(s: Seq<Color>) -> int {
    (sum_b(s) / (s.len() as int)) * mix_gain(s)
}

/// The colour obtained by mixing a non-empty sequence of colours: the channel
/// averages, each multiplied by the gain.
pub open spec fn mixed_color_spec(s: Seq<Color>) -> Color {
    Color { r: mixed_r(s) as u8, g: mixed_g(s) as u8, b: mixed_b(s) as u8 }
}

/// An accumulator of colours being mixed together.
#[derive(Clone, Copy)]
pub struct MixedColor {
    total_r: i32,
    total_g: i32,
    total_b: i32,
    max: i32,
    count: i32,
    mixed: Ghost<Seq<Color>>,
}

impl View for MixedColor {
    type V = Seq<Color>;

    /// The colours mixed so far, in the order they were added.
    closed spec fn view(&self) -> Seq<Color> {
        self.mixed@
    }
}

/// Every channel sum is between zero and the sum of the largest channels,
/// which is at most 255 per colour.
pub proof fn lemma_sums_bounded(s: Seq<Color>)
    ensures
        0 <= sum_r(s) <= sum_max(s),
        0 <= sum_g(s) <= sum_max(s),
        0 <= sum_b(s) <= sum_max(s),
        sum_max(s) <= 255 * s.len(),
    decreases s.len(),
{
    if s.len() > 0 {
        lemma_sums_bounded(s.drop_last());
    }
}


/// Bounds of the quantities that `mixed_color_spec` combines.
pub proof fn lemma_mix_bounds(s: Seq<Color>)
    requires
        s.len() > 0,
    ensures
        0 <= sum_r(s) / (s.len() as int) <= sum_max(s) / (s.len() as int) <= 255,
        0 <= sum_g(s) / (s.len() as int) <= sum_max(s) / (s.len() as int),
        0 <= sum_b(s) / (s.len() as int) <= sum_max(s) / (s.len() as int),
        0 <= mix_gain(s) <= 255,
        0 <= mixed_r(s) <= 255,
        0 <= mixed_g(s) <= 255,
        0 <= mixed_b(s) <= 255,
{
    let n = s.len() as int;
    lemma_sums_bounded(s);
    let am = sum_max(s) / n;
    lemma_div_is_ordered(sum_r(s), sum_max(s), n);
    lemma_div_is_ordered(sum_g(s), sum_max(s), n);
    lemma_div_is_ordered(sum_b(s), sum_max(s), n);
    lemma_div_is_ordered(0, sum_r(s), n);
    lemma_div_is_ordered(0, sum_g(s), n);
    lemma_div_is_ordered(0, sum_b(s), n);
    lemma_div_is_ordered(sum_max(s), 255 * n, n);
    assert((255 * n) / n == 255) by (nonlinear_arith)
        requires
            n > 0,
    ;
    let ar = sum_r(s) / n;
    let ag = sum_g(s) / n;
    let ab = sum_b(s) / n;
    let ma = max3_nonneg(ar, ag, ab);
    if ma != 0 {
        let gain = am / ma;
        lemma_div_is_ordered(0, am, ma);
        lemma_fundamental_div_mod(am, ma);
        assert(ma * gain <= am);
        assert(gain <= 255) by (nonlinear_arith)
            requires
                ma >= 1,
                gain >= 0,
                ma * gain <= am,
                am <= 255,
        ;
        assert forall|a: int| 0 <= a <= ma implies 0 <= #[trigger] (a * gain) <= am by {
            lemma_mul_inequality(a, ma, gain);
            lemma_mul_is_commutative(ma, gain);
            assert(0 <= a * gain) by (nonlinear_arith)
                requires
                    a >= 0,
                    gain >= 0,
            ;
        }
        assert(ar * gain <= am);
        assert(ag * gain <= am);
        assert(ab * gain <= am);
    }
}


/// The mix scales the three channel averages by one common whole factor,
/// the largest that keeps the brightest channel of the mix at most the
/// average of the parts' brightest channels.
pub proof fn lemma_mix_scales_averages(s: Seq<Color>) -> (g: int)
    requires
        s.len() > 0,
    ensures
        ({
            let n = s.len() as int;
            let (ar, ag, ab) = (sum_r(s) / n, sum_g(s) / n, sum_b(s) / n);
            let mx = if ar >= ag && ar >= ab { ar } else if ag >= ab { ag } else { ab };
            let a = sum_max(s) / n;
            &&& g >= 0
            &&& mixed_r(s) == ar * g && mixed_g(s) == ag * g && mixed_b(s) == ab * g
            &&& mx > 0 ==> mx * g <= a < mx * (g + 1)
        }),
{
    let n = s.len() as int;
    let (ar, ag, ab) = (sum_r(s) / n, sum_g(s) / n, sum_b(s) / n);
    let mx = if ar >= ag && ar >= ab { ar } else if ag >= ab { ag } else { ab };
    let a = sum_max(s) / n;
    lemma_mix_bounds(s);
    let g = mix_gain(s);
    assert(mx == max3_nonneg(ar, ag, ab));
    if mx > 0 {
        lemma_fundamental_div_mod(a, mx);
        vstd::arithmetic::div_mod::lemma_mod_bound(a, mx);
        assert(g == a / mx);
        assert(mx * (g + 1) == mx * g + mx) by (nonlinear_arith);
    }
    assert(mixed_r(s) == ar * g && mixed_g(s) == ag * g && mixed_b(s) == ab * g);
    g
}

proof fn lemma_sums_are_folds(s: Seq<Color>)
    ensures
        sum_r(s) == s.fold_left(0int, |acc: int, c: Color| acc + c.r),
        sum_g(s) == s.fold_left(0int, |acc: int, c: Color| acc + c.g),
        sum_b(s) == s.fold_left(0int, |acc: int, c: Color| acc + c.b),
        sum_max(s) == s.fold_left(0int, |acc: int, c: Color| acc + max_channel(c)),
    decreases s.len(),
{
    if s.len() > 0 {
        lemma_sums_are_folds(s.drop_last());
    }
}

/// Mixing is insensitive to the order in which the parts are added: two
/// sequences holding the same colours the same number of times give the same mix.
pub proof fn lemma_mix_order_independent(s1: Seq<Color>, s2: Seq<Color>)
    requires
        s1.to_multiset() == s2.to_multiset(),
    ensures
        s1.len() == s2.len(),
        mixed_color_spec(s1) == mixed_color_spec(s2),
{
    vstd::seq_lib::lemma_multiset_commutative(s1, Seq::<Color>::empty());
    s1.to_multiset_ensures();
    s2.to_multiset_ensures();
    lemma_sums_are_folds(s1);
    lemma_sums_are_folds(s2);
    lemma_fold_left_permutation(s1, s2, |acc: int, c: Color| acc + c.r, 0int);
    lemma_fold_left_permutation(s1, s2, |acc: int, c: Color| acc + c.g, 0int);
    lemma_fold_left_permutation(s1, s2, |acc: int, c: Color| acc + c.b, 0int);
    lemma_fold_left_permutation(s1, s2, |acc: int, c: Color| acc + max_channel(c), 0int);
}

proof fn lemma_sums_of_copies(c: Color, n: nat)
    ensures
        sum_r(Seq::new(n, |i: int| c)) == n * c.r,
        sum_g(Seq::new(n, |i: int| c)) == n * c.g,
        sum_b(Seq::new(n, |i: int| c)) == n * c.b,
        sum_max(Seq::new(n, |i: int| c)) == n * max_channel(c),
    decreases n,
{
    if n > 0 {
        let s = Seq::new(n, |i: int| c);
        assert(s.drop_last() =~= Seq::new((n - 1) as nat, |i: int| c));
        lemma_sums_of_copies(c, (n - 1) as nat);
        assert(n * c.r == (n - 1) * c.r + c.r) by (nonlinear_arith);
        assert(n * c.g == (n - 1) * c.g + c.g) by (nonlinear_arith);
        assert(n * c.b == (n - 1) * c.b + c.b) by (nonlinear_arith);
        assert(n * max_channel(c) == (n - 1) * max_channel(c) + max_channel(c)) by (nonlinear_arith);
    }
}

/// Mixing any positive number of parts of one colour gives that colour back.
pub proof fn lemma_mix_of_one_color(c: Color, n: nat)
    requires
        n > 0,
    ensures
        mixed_color_spec(Seq::new(n, |i: int| c)) == c,
{
    let s = Seq::new(n, |i: int| c);
    lemma_sums_of_copies(c, n);
    let ni = n as int;
    assert((ni * c.r) / ni == c.r) by (nonlinear_arith)
        requires
            ni > 0,
    ;
    assert((ni * c.g) / ni == c.g) by (nonlinear_arith)
        requires
            ni > 0,
    ;
    assert((ni * c.b) / ni == c.b) by (nonlinear_arith)
        requires
            ni > 0,
    ;
    let m = max_channel(c);
    assert((ni * m) / ni == m) by (nonlinear_arith)
        requires
            ni > 0,
    ;
    assert(max3_nonneg(c.r as int, c.g as int, c.b as int) == m);
    if m > 0 {
        assert(m / m == 1) by (nonlinear_arith)
            requires
                m > 0,
        ;
    }
}

impl MixedColor {
    #[verifier::type_invariant]
    spec fn inv(self) -> bool {
        &&& self.total_r == sum_r(self.mixed@)
        &&& self.total_g == sum_g(self.mixed@)
        &&& self.total_b == sum_b(self.mixed@)
        &&& self.max == sum_max(self.mixed@)
        &&& self.count == self.mixed@.len()
    }

    /// The empty mix.
    pub fn new() -> (m: MixedColor)
        ensures
            m@ == Seq::<Color>::empty(),
    {
        MixedColor {
            total_r: 0,
            total_g: 0,
            total_b: 0,
            max: 0,
            count: 0,
            mixed: Ghost(Seq::empty()),
        }
    }

    /// Adds one part of `color` to the mix.
    pub fn mix(&mut self, color: &Color) -> (ret: &mut Self)
        requires
            sum_max(old(self)@) + max_channel(*color) <= i32::MAX,
            old(self)@.len() < i32::MAX,
        ensures
            ret@ == old(self)@.push(*color),
            final(self)@ == final(ret)@,
    {
        proof {
            use_type_invariant(&*self);
            lemma_sums_bounded(self@);
        }
        let ghost s = self@.push(*color);
        assert(s.drop_last() =~= self@);
        let m: u8 = if color.r >= color.g && color.r >= color.b {
            color.r
        } else if color.g >= color.b {
            color.g
        } else {
            color.b
        };
        let next = MixedColor {
            total_r: self.total_r + color.r as i32,
            total_g: self.total_g + color.g as i32,
            total_b: self.total_b + color.b as i32,
            max: self.max + m as i32,
            count: self.count + 1,
            mixed: Ghost(s),
        };
        *self = next;
        self
    }

    /// The colour of the current mix: each channel average multiplied by the gain.
    pub fn result(&self) -> (c: Color)
        requires
            self@.len() > 0,
        ensures
            c == mixed_color_spec(self@),
            c.r == mixed_r(self@),
            c.g == mixed_g(self@),
            c.b == mixed_b(self@),
    {
        proof {
            use_type_invariant(self);
            lemma_mix_bounds(self@);
            lemma_sums_bounded(self@);
        }
        let avg_r = self.total_r / self.count;
        let avg_g = self.total_g / self.count;
        let avg_b = self.total_b / self.count;
        let avg_max = self.max / self.count;
        let mut max_avg: i32 = 0;
        if avg_r > max_avg {
            max_avg = avg_r;
        }
        if avg_g > max_avg {
            max_avg = avg_g;
        }
        if avg_b > max_avg {
            max_avg = avg_b;
        }
        let gain: i32 = if max_avg == 0 {
            0
        } else {
            avg_max / max_avg
        };
        assert(avg_r == sum_r(self@) / (self@.len() as int));
        assert(avg_g == sum_g(self@) / (self@.len() as int));
        assert(avg_b == sum_b(self@) / (self@.len() as int));
        assert(avg_max == sum_max(self@) / (self@.len() as int));
        assert(max_avg == max3_nonneg(avg_r as int, avg_g as int, avg_b as int));
        assert(gain == mix_gain(self@));
        Color { r: (avg_r * gain) as u8, g: (avg_g * gain) as u8, b: (avg_b * gain) as u8 }
    }
}

impl Default for MixedColor {
    fn default() -> (m: MixedColor)
        ensures
            m@ == Seq::<Color>::empty(),
    {
        MixedColor::new()
    }
}

} // verus!

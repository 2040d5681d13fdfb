//! Contextual bandit arms for the router's confidence correction.

use vstd::arithmetic::power2::{lemma2_to64, lemma_pow2_adds, lemma_pow2_pos, pow2};
use vstd::prelude::*;
use vstd::string::*;

use crate::binary64::{
    law_addition_commutes, law_addition_is_monotone, law_zero_is_neutral, lemma_below_finite,
    lemma_nearest_exact, lemma_nearest_exists, lemma_nearest_monotone, lemma_scaled_increases,
    lemma_sum_value, nearest, scaled, Binary64, HALF, HIDDEN_BIT, INFINITY_BITS, ONE, ZERO,
};
use crate::messages::{said, turns_of, Block, Turn};
use crate::model::ModelId;
use crate::request::Request;
use crate::tables::PairMap;

verus! {

/// The bit pattern of `1e-10`, the smallest shape a gamma draw is made with.
pub const SMALLEST_SHAPE: u64 = 0x3DDB_7CDF_D9D7_BDBB;

/// Coarse token bucket for bandit context, labelled from an estimated token count.
///
/// The same three labels gate selection and record rewards, so both sides must agree on
/// the boundaries; this is the single definition they share.
pub fn token_bucket(estimated_tokens: u64) -> (label: &'static str)
    ensures
        label@ == bucket_label(estimated_tokens as nat),
{
    if estimated_tokens < 1_000 {
        "small"
    } else if estimated_tokens <= 10_000 {
        "medium"
    } else {
        "large"
    }
}

/// The label of a token count: small below 1 000, medium up to 10 000, large beyond.
pub open spec fn bucket_label(tokens: nat) -> Seq<char> {
    if tokens < 1_000 {
        "small"@
    } else if tokens <= 10_000 {
        "medium"@
    } else {
        "large"@
    }
}

/// The characters of all texts of a conversation, those of one turn joined by line feeds.
pub open spec fn text_chars(turns: Seq<Turn>) -> nat
    decreases turns.len(),
{
    if turns.len() == 0 {
        0
    } else {
        text_chars(turns.drop_last()) + match said(turns.last().content, "\n"@) {
            Some(text) => text.len(),
            None => 0,
        }
    }
}

/// A prefix of a conversation has at most as many characters.
pub proof fn lemma_text_chars_grow(turns: Seq<Turn>, i: int)
    requires
        0 <= i <= turns.len(),
    ensures
        text_chars(turns.take(i)) <= text_chars(turns),
    decreases turns.len(),
{
    if i < turns.len() {
        lemma_text_chars_grow(turns.drop_last(), i);
        assert(turns.drop_last().take(i) =~= turns.take(i));
    } else {
        assert(turns.take(i) =~= turns);
    }
}

/// Rough input-token estimate for bandit bucketing: the characters of the message text over four.
///
/// A coarse proxy is fine: the bucket only separates small, medium and large requests. Tool-call
/// arguments are not text, so tool-heavy conversations read low.
pub fn estimate_request_tokens(request: &Request) -> (tokens: u64)
    requires
        text_chars(request.llm_request@.turns) <= usize::MAX,
    ensures
        tokens == text_chars(request.llm_request@.turns) / 4,
{
    let ghost turns = request.llm_request@.turns;
    let mut chars: usize = 0;
    let mut i: usize = 0;
    assert(turns.take(0) =~= Seq::<Turn>::empty());
    while i < request.llm_request.messages.len()
        invariant
            i <= turns.len(),
            turns == turns_of(request.llm_request.messages@),
            text_chars(turns) <= usize::MAX,
            chars == text_chars(turns.take(i as int)),
        decreases request.llm_request.messages.len() - i,
    {
        let text = request.llm_request.messages[i].text_content("\n");
        proof {
            assert(turns.take(i + 1).drop_last() =~= turns.take(i as int));
            assert(turns.take(i + 1).last() == turns[i as int]);
            lemma_text_chars_grow(turns, i + 1);
        }
        match text {
            Some(text) => {
                chars = chars + text.as_str().unicode_len();
            },
            None => {},
        }
        i = i + 1;
    }
    assert(turns.take(i as int) =~= turns);
    (chars / 4) as u64
}

/// `Beta(alpha, beta)` parameters of one arm: the soft success and failure counts plus one.
#[derive(Clone, Copy, Debug, PartialEq, Eq, Structural)]
pub struct Arm {
    pub alpha: Binary64,
    pub beta: Binary64,
}

/// The uniform prior: nothing observed yet.
pub open spec fn uniform_arm() -> Arm {
    Arm { alpha: Binary64::of(ONE), beta: Binary64::of(ONE) }
}

impl Default for Arm {
    fn default() -> (arm: Self)
        ensures
            arm == uniform_arm(),
    {
        Arm { alpha: Binary64::of(ONE), beta: Binary64::of(ONE) }
    }
}

/// `self`, but at least the smallest shape; a NaN becomes the smallest shape.
pub open spec fn shape_of(parameter: Binary64) -> Binary64 {
    if parameter.nan() || parameter.less(Binary64::of(SMALLEST_SHAPE)) {
        Binary64::of(SMALLEST_SHAPE)
    } else {
        parameter
    }
}

impl Arm {
    /// The posterior mean, `alpha / (alpha + beta)`.
    pub open spec fn expected(self) -> Binary64 {
        self.alpha.over(self.alpha.plus(self.beta))
    }

    /// The posterior mean, `alpha / (alpha + beta)`.
    pub fn mean(&self) -> (mean: Binary64)
        ensures
            mean == self.expected(),
    {
        self.alpha.div(self.alpha.add(self.beta))
    }

    /// The shapes of the two gamma draws that make one sample of this arm.
    pub fn gamma_shapes(&self) -> (shapes: (Binary64, Binary64))
        ensures
            shapes == (shape_of(self.alpha), shape_of(self.beta)),
    {
        (at_least_smallest(self.alpha), at_least_smallest(self.beta))
    }
}

fn at_least_smallest(parameter: Binary64) -> (shape: Binary64)
    ensures
        shape == shape_of(parameter),
{
    let smallest = Binary64::of(SMALLEST_SHAPE);
    if parameter.is_nan() || parameter.lt(smallest) {
        smallest
    } else {
        parameter
    }
}

/// The Beta sample made of two gamma draws: `x / (x + y)`, or one half if the draws vanish.
pub open spec fn beta_of(x: Binary64, y: Binary64) -> Binary64 {
    let total = x.plus(y);
    if total.magnitude() == 0 {
        Binary64::of(HALF)
    } else {
        x.over(total)
    }
}

/// The Beta sample made of two gamma draws.
pub fn beta_sample(x: Binary64, y: Binary64) -> (sample: Binary64)
    ensures
        sample == beta_of(x, y),
{
    let total = x.add(y);
    let zero = Binary64::of(ZERO);
    proof {
        assert(scaled(0) == 0);
        if total.magnitude() > 0 {
            lemma_scaled_increases(0, total.magnitude());
        }
    }
    if total.le(zero) && zero.le(total) {
        Binary64::of(HALF)
    } else {
        x.div(total)
    }
}

/// The number one counts `2^1074` units.
pub proof fn lemma_one()
    ensures
        scaled(Binary64::of(ONE).magnitude()) == pow2(1074),
{
    lemma2_to64();
    lemma_pow2_adds(52, 1022);
    assert(pow2(52) == 0x10_0000_0000_0000) by {
        lemma_pow2_adds(32, 20);
    }
}

/// Two gamma draws that are finite and not negative make a sample between zero and one.
#[verifier::rlimit(30)]
pub proof fn law_draws_make_probabilities(x: Binary64, y: Binary64)
    requires
        x.finite(),
        y.finite(),
        !x.negative(),
        !y.negative(),
    ensures
        beta_of(x, y).within(Binary64::of(ZERO), Binary64::of(ONE)),
{
    let zero = Binary64::of(ZERO);
    let one = Binary64::of(ONE);
    let total = x.plus(y);
    assert(scaled(0) == 0);
    lemma_one();
    lemma_pow2_pos(1074);
    if y.magnitude() > 0 {
        lemma_scaled_increases(0, y.magnitude());
    }
    law_addition_is_monotone(zero, y, x);
    law_addition_commutes(zero, x);
    law_addition_commutes(y, x);
    law_zero_is_neutral(x);
    assert(x.at_most(total));
    if total.magnitude() == 0 {
        lemma_scaled_increases(Binary64::of(HALF).magnitude(), one.magnitude());
    } else if x.magnitude() > 0 {
        lemma_scaled_increases(0, x.magnitude());
        lemma_sample_bounds(x, total);
    } else {
        lemma_sample_bounds(x, total);
    }
}

#[verifier::rlimit(30)]
proof fn lemma_sample_bounds(x: Binary64, total: Binary64)
    requires
        x.finite(),
        !x.negative(),
        x.at_most(total),
        total.magnitude() != 0,
        0 <= x.value(),
    ensures
        x.over(total).within(Binary64::of(ZERO), Binary64::of(ONE)),
{
    let one = Binary64::of(ONE);
    assert(scaled(0) == 0);
    lemma_one();
    lemma_pow2_pos(1074);
    lemma_scaled_increases(0, total.magnitude());
    lemma_scaled_increases(0, one.magnitude());
    assert(!total.negative());
    if total.finite() {
        let n = scaled(x.magnitude()) * pow2(1074);
        let d = scaled(total.magnitude());
        let unit = pow2(1074) as int;
        assert(n <= d * unit) by (nonlinear_arith)
            requires
                n == scaled(x.magnitude()) * unit,
                scaled(x.magnitude()) <= d,
                unit > 0,
        ;
        lemma_nearest_monotone(n, d * unit, d);
        lemma_nearest_exact(one.magnitude(), d);
        lemma_nearest_exists(n, d);
        let m = nearest(n, d);
        if m > 0 {
            lemma_scaled_increases(0, m);
        }
        if m < one.magnitude() {
            lemma_scaled_increases(m, one.magnitude());
        }
    }
}

// ── Gamma draws ─────────────────────────────────────────────────────────────
//
// A gamma draw after Marsaglia and Tsang takes normal and uniform draws, a root, a power and
// logarithms from outside; what is done with them is decided here.

/// The bit pattern of `1 / 3`.
pub const THIRD: u64 = 0x3FD5_5555_5555_5555;

/// The bit pattern of `9`.
pub const NINE: u64 = 0x4022_0000_0000_0000;

/// The bit pattern of `0.0331`.
pub const SQUEEZE: u64 = 0x3FA0_F27B_B2FE_C56D;

/// How a gamma draw of a given shape is made.
#[derive(Clone, Copy, Debug, PartialEq, Eq, Structural)]
pub enum GammaPlan {
    /// A draw of the larger shape, times a uniform draw to the given power.
    Boost { shape: Binary64, power: Binary64 },
    /// Tries with scale `d`; their slope is one over the root of `radicand`.
    Try { d: Binary64, radicand: Binary64 },
}

/// What becomes of one try.
#[derive(Clone, Copy, Debug, PartialEq, Eq, Structural)]
pub enum GammaTry {
    Accept(Binary64),
    /// The logarithms of the uniform draw and of the cube decide.
    Compare,
}

/// How a gamma draw of `shape` is made: shapes below 1 are boosted.
pub open spec fn plan_of(shape: Binary64) -> GammaPlan {
    let one = Binary64::of(ONE);
    if shape.less(one) {
        GammaPlan::Boost { shape: shape.plus(one), power: one.over(shape) }
    } else {
        let d = shape.minus(Binary64::of(THIRD));
        GammaPlan::Try { d, radicand: Binary64::of(NINE).times(d) }
    }
}

/// The cube of a try with the normal draw `x`; a base that is not positive rejects the try.
pub open spec fn cube_of(slope: Binary64, x: Binary64) -> Option<Binary64> {
    let v = Binary64::of(ONE).plus(slope.times(x));
    if v.at_most(Binary64::of(ZERO)) {
        None
    } else {
        Some(v.times(v).times(v))
    }
}

/// What becomes of a try with the normal draw `x`, its cube and the uniform draw `u`.
pub open spec fn try_of(d: Binary64, x: Binary64, cube: Binary64, u: Binary64) -> GammaTry {
    let square = x.times(x);
    if u.less(Binary64::of(ONE).minus(Binary64::of(SQUEEZE).times(square).times(square))) {
        GammaTry::Accept(d.times(cube))
    } else {
        GammaTry::Compare
    }
}

/// What becomes of a try once the logarithms of the uniform draw and of the cube are known.
pub open spec fn compared(
    d: Binary64,
    x: Binary64,
    cube: Binary64,
    ln_u: Binary64,
    ln_cube: Binary64,
) -> Option<Binary64> {
    let bound = Binary64::of(HALF).times(x).times(x).plus(
        d.times(Binary64::of(ONE).minus(cube).plus(ln_cube)),
    );
    if ln_u.less(bound) {
        Some(d.times(cube))
    } else {
        None
    }
}

/// How a gamma draw of `shape` is made.
pub fn gamma_plan(shape: Binary64) -> (plan: GammaPlan)
    ensures
        plan == plan_of(shape),
{
    let one = Binary64::of(ONE);
    if shape.lt(one) {
        GammaPlan::Boost { shape: shape.add(one), power: one.div(shape) }
    } else {
        let d = shape.sub(Binary64::of(THIRD));
        GammaPlan::Try { d, radicand: Binary64::of(NINE).mul(d) }
    }
}

/// The draw of a boosted shape: a draw of the larger shape times a uniform draw to the plan's
/// power.
pub fn gamma_boost(draw: Binary64, factor: Binary64) -> (boosted: Binary64)
    ensures
        boosted == draw.times(factor),
{
    draw.mul(factor)
}

/// The slope of tries, given the root of the plan's radicand.
pub fn gamma_slope(root: Binary64) -> (slope: Binary64)
    ensures
        slope == Binary64::of(ONE).over(root),
{
    Binary64::of(ONE).div(root)
}

/// The cube of a try with the normal draw `x`, if the try is not rejected at once.
pub fn gamma_cube(slope: Binary64, x: Binary64) -> (cube: Option<Binary64>)
    ensures
        cube == cube_of(slope, x),
        cube matches Some(cube) ==> !cube.negative(),
{
    let v = Binary64::of(ONE).add(slope.mul(x));
    if v.le(Binary64::of(ZERO)) {
        return None;
    }
    let square = v.mul(v);
    let cube = square.mul(v);
    proof {
        if !v.nan() {
            lemma_positive(v);
        }
        lemma_product_sign(v, v);
        lemma_product_sign(square, v);
    }
    Some(cube)
}

/// What becomes of a try with the normal draw `x`, its cube and the uniform draw `u`.
pub fn gamma_try(d: Binary64, x: Binary64, cube: Binary64, u: Binary64) -> (r: GammaTry)
    ensures
        r == try_of(d, x, cube, u),
        r matches GammaTry::Accept(draw) ==> (draw.negative() ==> d.negative() != cube.negative()),
{
    let square = x.mul(x);
    proof {
        lemma_product_sign(d, cube);
    }
    if u.lt(Binary64::of(ONE).sub(Binary64::of(SQUEEZE).mul(square).mul(square))) {
        GammaTry::Accept(d.mul(cube))
    } else {
        GammaTry::Compare
    }
}

/// What becomes of a try once the logarithms of the uniform draw and of the cube are known.
pub fn gamma_compare(
    d: Binary64,
    x: Binary64,
    cube: Binary64,
    ln_u: Binary64,
    ln_cube: Binary64,
) -> (r: Option<Binary64>)
    ensures
        r == compared(d, x, cube, ln_u, ln_cube),
        r matches Some(draw) ==> (draw.negative() ==> d.negative() != cube.negative()),
{
    let bound = Binary64::of(HALF).mul(x).mul(x).add(
        d.mul(Binary64::of(ONE).sub(cube).add(ln_cube)),
    );
    proof {
        lemma_product_sign(d, cube);
    }
    if ln_u.lt(bound) {
        Some(d.mul(cube))
    } else {
        None
    }
}

/// A number above zero has no sign.
proof fn lemma_positive(v: Binary64)
    requires
        !v.at_most(Binary64::of(ZERO)),
        !v.nan(),
    ensures
        !v.negative(),
{
    assert(scaled(0) == 0);
    if v.magnitude() > 0 {
        lemma_scaled_increases(0, v.magnitude());
    }
}

/// Only factors of unlike sign have a negative product.
proof fn lemma_product_sign(a: Binary64, b: Binary64)
    ensures
        a.times(b).negative() ==> a.negative() != b.negative() && !a.nan() && !b.nan(),
{
    lemma_nearest_exists(scaled(a.magnitude()) * scaled(b.magnitude()), pow2(1074) as int);
}

/// A boosted shape is not boosted again.
pub proof fn law_shapes_are_boosted_once(shape: Binary64)
    requires
        shape.finite(),
        shape.value() >= 0,
    ensures
        plan_of(shape) matches GammaPlan::Boost { shape: boosted, .. } ==> plan_of(boosted) is Try,
{
    let zero = Binary64::of(ZERO);
    let one = Binary64::of(ONE);
    assert(scaled(0) == 0);
    law_addition_is_monotone(zero, shape, one);
    law_addition_commutes(zero, one);
    law_zero_is_neutral(one);
}

/// The bit pattern of `64`, beyond every normal draw made of a positive uniform double.
pub const FARTHEST_NORMAL: u64 = 0x4050_0000_0000_0000;

/// The bit pattern of `1e15`.
pub const LARGEST_COUNT: u64 = 0x430C_6BF5_2634_0000;

/// Whether a number is between zero and one, without a sign.
pub open spec fn unsigned_fraction(number: Binary64) -> bool {
    !number.negative() && number.within(Binary64::of(ZERO), Binary64::of(ONE))
}

/// Whether an accepted try with a root of at least one and a normal draw of at most 64 gives
/// `draw`.
pub open spec fn gives(d: Binary64, root: Binary64, x: Binary64, draw: Binary64) -> bool {
    &&& Binary64::of(ONE).at_most(root)
    &&& x.absolute().at_most(Binary64::of(FARTHEST_NORMAL))
    &&& cube_of(Binary64::of(ONE).over(root), x) matches Some(cube)
    &&& draw == d.times(cube)
}

/// Whether a draw can come of tries for `shape`.
pub open spec fn tried(shape: Binary64, draw: Binary64) -> bool {
    plan_of(shape) matches GammaPlan::Try { d, .. } && exists|root: Binary64, x: Binary64|
        gives(d, root, x, draw)
}

/// Whether a draw can come of `shape`: of its tries, or of those for the boosted shape, times a
/// factor between zero and one.
#[verifier::opaque]
pub open spec fn drawn(shape: Binary64, draw: Binary64) -> bool {
    match plan_of(shape) {
        GammaPlan::Try { .. } => tried(shape, draw),
        GammaPlan::Boost { shape: boosted, .. } => exists|inner: Binary64, factor: Binary64|
            tried(boosted, inner) && unsigned_fraction(factor) && draw == #[trigger] inner.times(
                factor,
            ),
    }
}

/// `2^e` counts `2^(1074 + e)` units.
proof fn lemma_power_pattern(e: nat)
    requires
        e <= 400,
    ensures
        scaled((1023 + e) * HIDDEN_BIT) == pow2(1074 + e),
        0 < (1023 + e) * HIDDEN_BIT < INFINITY_BITS,
{
    lemma2_to64();
    assert(pow2(52) == HIDDEN_BIT) by {
        lemma_pow2_adds(32, 20);
    }
    lemma_pow2_adds(52, 1022 + e);
    let m = (1023 + e) * HIDDEN_BIT;
    assert(m / HIDDEN_BIT as int == 1023 + e && m % (HIDDEN_BIT as int) == 0);
}

/// A product of numbers of at most `2^i` and `2^j` is a number of at most `2^(i + j)`.
#[verifier::spinoff_prover]
proof fn lemma_product_bound(a: Binary64, b: Binary64, i: nat, j: nat)
    requires
        a.finite(),
        b.finite(),
        scaled(a.magnitude()) <= pow2(1074 + i),
        scaled(b.magnitude()) <= pow2(1074 + j),
        i + j <= 400,
    ensures
        a.times(b).finite(),
        scaled(a.times(b).magnitude()) <= pow2(1074 + i + j),
        a.times(b).negative() == (a.negative() != b.negative()),
{
    let x = scaled(a.magnitude());
    let y = scaled(b.magnitude());
    let d = pow2(1074) as int;
    let m = (1023 + i + j) * HIDDEN_BIT;
    lemma_pow2_pos(1074);
    lemma_pow2_pos(1074 + i);
    lemma_power_pattern(i + j);
    lemma_pow2_adds(1074 + i, 1074 + j);
    lemma_pow2_adds(1074, 1074 + i + j);
    assert(scaled(0) == 0);
    if b.magnitude() > 0 {
        lemma_scaled_increases(0, b.magnitude());
    }
    let p = pow2(1074 + i) as int;
    let q = pow2(1074 + j) as int;
    assert(x * y <= p * q) by (nonlinear_arith)
        requires
            x <= p,
            0 <= y <= q,
            0 < p,
    ;
    lemma_nearest_monotone(x * y, d * scaled(m), d);
    lemma_nearest_exact(m, d);
    lemma_nearest_exists(x * y, d);
    let n = nearest(x * y, d);
    if n < m {
        lemma_scaled_increases(n, m);
    }
}

/// A sum that is exactly between zero and `2^i` is a number of at most `2^i`.
#[verifier::spinoff_prover]
proof fn lemma_sum_bound(a: Binary64, b: Binary64, i: nat)
    requires
        a.finite(),
        b.finite(),
        !(a.negative() && b.negative()),
        0 <= a.value() + b.value() <= pow2(1074 + i),
        i <= 400,
    ensures
        a.plus(b).finite(),
        !a.plus(b).negative(),
        scaled(a.plus(b).magnitude()) <= pow2(1074 + i),
{
    let exact = a.value() + b.value();
    let m = (1023 + i) * HIDDEN_BIT;
    lemma_power_pattern(i);
    lemma_nearest_monotone(exact, scaled(m), 1);
    lemma_nearest_exact(m, 1);
    lemma_nearest_exists(exact, 1);
    assert(scaled(0) == 0);
    lemma_scaled_increases(0, m);
    let n = nearest(exact, 1);
    if n < m {
        lemma_scaled_increases(n, m);
    }
}

/// The cube of a try is a number of at most `2^21`.
#[verifier::spinoff_prover]
proof fn lemma_cube_bound(slope: Binary64, x: Binary64)
    requires
        unsigned_fraction(slope),
        x.absolute().at_most(Binary64::of(FARTHEST_NORMAL)),
        cube_of(slope, x) is Some,
    ensures
        cube_of(slope, x)->0.finite(),
        !cube_of(slope, x)->0.negative(),
        scaled(cube_of(slope, x)->0.magnitude()) <= pow2(1095),
{
    let one = Binary64::of(ONE);
    let nudge = slope.times(x);
    let v = one.plus(nudge);
    assert(scaled(0) == 0);
    lemma_power_pattern(0);
    lemma_power_pattern(6);
    lemma_below_finite(slope, one);
    assert(x.absolute().magnitude() == x.magnitude());
    if x.magnitude() > 0 {
        lemma_scaled_increases(0, x.magnitude());
    }
    lemma_below_finite(x.absolute(), Binary64::of(FARTHEST_NORMAL));
    lemma_product_bound(slope, x, 0, 6);
    lemma_sum_value(one, nudge);
    lemma_pow2_adds(1074, 6);
    lemma_pow2_adds(1074, 7);
    lemma2_to64();
    lemma_pow2_pos(1074);
    if nudge.magnitude() > 0 {
        lemma_scaled_increases(0, nudge.magnitude());
    }
    let exact = one.value() + nudge.value();
    if exact < 0 {
        lemma_nearest_exists(-exact, 1);
        if nearest(-exact, 1) > 0 {
            lemma_scaled_increases(0, nearest(-exact, 1));
        }
    }
    assert(exact <= pow2(1081));
    lemma_sum_bound(one, nudge, 7);
    lemma_product_bound(v, v, 7, 7);
    lemma_product_bound(v.times(v), v, 14, 7);
}

/// The slope for a root of at least one is between zero and one.
#[verifier::spinoff_prover]
proof fn lemma_slope_bound(root: Binary64)
    requires
        Binary64::of(ONE).at_most(root),
    ensures
        unsigned_fraction(Binary64::of(ONE).over(root)),
{
    let one = Binary64::of(ONE);
    assert(scaled(0) == 0);
    lemma_scaled_increases(0, one.magnitude());
    if root.magnitude() > 0 {
        lemma_scaled_increases(0, root.magnitude());
    }
    lemma_sample_bounds(one, root);
    lemma_nearest_exists(scaled(one.magnitude()) * pow2(1074), scaled(root.magnitude()));
}

/// The radicand of tries for a shape between one and `2^50` is at least one.
#[verifier::spinoff_prover]
proof fn lemma_radicand_bound(shape: Binary64)
    requires
        shape.finite(),
        !shape.negative(),
        !shape.less(Binary64::of(ONE)),
        scaled(shape.magnitude()) <= pow2(1124),
    ensures
        Binary64::of(ONE).at_most(plan_of(shape)->radicand),
{
    let one = Binary64::of(ONE);
    let nine = Binary64::of(NINE);
    let d = shape.minus(Binary64::of(THIRD));
    lemma_scale_bound(shape);
    lemma_scale_floor(shape);
    let x = scaled(nine.magnitude());
    let y = scaled(d.magnitude());
    let unit = pow2(1074) as int;
    lemma_one();
    lemma_power_pattern(1);
    lemma2_to64();
    lemma_pow2_pos(1074);
    lemma_pow2_adds(1074, 1);
    lemma_half();
    lemma_scaled_increases(1024 * HIDDEN_BIT, nine.magnitude());
    assert(unit * unit <= x * y) by (nonlinear_arith)
        requires
            x >= 2 * unit,
            2 * y >= unit,
            unit > 0,
    ;
    lemma_nearest_monotone(unit * unit, x * y, unit);
    lemma_nearest_exact(one.magnitude(), unit);
    lemma_nearest_exists(x * y, unit);
    let m = nearest(x * y, unit);
    if one.magnitude() < m {
        lemma_scaled_increases(one.magnitude(), m);
    }
}

/// Twice one half counts as many units as one.
pub proof fn lemma_half()
    ensures
        2 * scaled(Binary64::of(HALF).magnitude()) == pow2(1074),
{
    lemma2_to64();
    assert(pow2(52) == HIDDEN_BIT) by {
        lemma_pow2_adds(32, 20);
    }
    lemma_pow2_adds(52, 1021);
    lemma_pow2_adds(1073, 1);
}

/// The scale of tries for a shape of at least one is at least one half.
#[verifier::spinoff_prover]
proof fn lemma_scale_floor(shape: Binary64)
    requires
        shape.finite(),
        !shape.negative(),
        !shape.less(Binary64::of(ONE)),
    ensures
        2 * scaled(shape.minus(Binary64::of(THIRD)).magnitude()) >= pow2(1074),
{
    let third = Binary64::of(THIRD);
    let half = Binary64::of(HALF);
    let back = third.negation();
    assert(scaled(0) == 0);
    lemma_half();
    lemma_one();
    lemma_scaled_increases(0, half.magnitude());
    lemma_scaled_increases(third.magnitude(), half.magnitude());
    assert(back.value() == -third.value() && back.finite());
    let exact = shape.value() + back.value();
    assert(exact >= scaled(half.magnitude()));
    lemma_nearest_monotone(scaled(half.magnitude()), exact, 1);
    lemma_nearest_exact(half.magnitude(), 1);
    lemma_nearest_exists(exact, 1);
    let m = nearest(exact, 1);
    if half.magnitude() < m {
        lemma_scaled_increases(half.magnitude(), m);
    }
}

/// Roots are taken of numbers of at least one, for an arm's shape as for its boosted shape.
pub proof fn law_radicands_are_at_least_one(parameter: Binary64)
    requires
        !Binary64::of(LARGEST_COUNT).less(parameter),
    ensures
        match plan_of(shape_of(parameter)) {
            GammaPlan::Try { radicand, .. } => Binary64::of(ONE).at_most(radicand),
            GammaPlan::Boost { shape: boosted, .. } => plan_of(boosted) matches GammaPlan::Try {
                radicand,
                ..
            } && Binary64::of(ONE).at_most(radicand),
        },
{
    let shape = shape_of(parameter);
    lemma_shape_bound(parameter);
    if plan_of(shape) is Try {
        lemma_radicand_bound(shape);
    } else {
        lemma_boosted_bound(shape);
        lemma_unsigned_value(shape);
        law_shapes_are_boosted_once(shape);
        lemma_radicand_bound(plan_of(shape)->Boost_shape);
    }
}

proof fn lemma_unsigned_value(x: Binary64)
    requires
        !x.negative(),
    ensures
        x.value() >= 0,
{
    assert(scaled(0) == 0);
    if x.magnitude() > 0 {
        lemma_scaled_increases(0, x.magnitude());
    }
}

/// The scale of tries for a shape of at most `2^50` is a number of at most `2^50`.
#[verifier::spinoff_prover]
proof fn lemma_scale_bound(shape: Binary64)
    requires
        shape.finite(),
        !shape.negative(),
        !shape.less(Binary64::of(ONE)),
        scaled(shape.magnitude()) <= pow2(1124),
    ensures
        shape.minus(Binary64::of(THIRD)).finite(),
        !shape.minus(Binary64::of(THIRD)).negative(),
        scaled(shape.minus(Binary64::of(THIRD)).magnitude()) <= pow2(1124),
{
    let third = Binary64::of(THIRD);
    assert(scaled(0) == 0);
    lemma_scaled_increases(0, third.magnitude());
    lemma_scaled_increases(third.magnitude(), Binary64::of(ONE).magnitude());
    assert(third.negation().value() == -third.value() && third.negation().finite());
    lemma_sum_bound(shape, third.negation(), 50);
}

#[verifier::spinoff_prover]
proof fn lemma_tried(shape: Binary64, draw: Binary64)
    requires
        shape.finite(),
        !shape.negative(),
        scaled(shape.magnitude()) <= pow2(1124),
        tried(shape, draw),
    ensures
        draw.finite(),
        !draw.negative(),
        scaled(draw.magnitude()) <= pow2(1145),
{
    let d = plan_of(shape)->d;
    let (root, x) = choose|root: Binary64, x: Binary64| gives(d, root, x, draw);
    let slope = Binary64::of(ONE).over(root);
    lemma_slope_bound(root);
    lemma_scale_bound(shape);
    lemma_cube_bound(slope, x);
    lemma_product_bound(d, cube_of(slope, x)->0, 50, 21);
}

/// The shape of a parameter of at most `1e15` is a number of at most `2^50`.
#[verifier::spinoff_prover]
proof fn lemma_shape_bound(parameter: Binary64)
    requires
        !Binary64::of(LARGEST_COUNT).less(parameter),
    ensures
        shape_of(parameter).finite(),
        !shape_of(parameter).negative(),
        scaled(shape_of(parameter).magnitude()) <= pow2(1124),
{
    let shape = shape_of(parameter);
    let smallest = Binary64::of(SMALLEST_SHAPE);
    let largest = Binary64::of(LARGEST_COUNT);
    assert(scaled(0) == 0);
    lemma_power_pattern(50);
    lemma_scaled_increases(0, smallest.magnitude());
    lemma_scaled_increases(smallest.magnitude(), largest.magnitude());
    lemma_scaled_increases(largest.magnitude(), 1073 * HIDDEN_BIT);
    if shape.magnitude() > 0 {
        lemma_scaled_increases(0, shape.magnitude());
    }
    lemma_below_finite(shape, largest);
}

/// A boosted shape is a number of at most two.
#[verifier::spinoff_prover]
proof fn lemma_boosted_bound(shape: Binary64)
    requires
        shape.finite(),
        !shape.negative(),
        shape.less(Binary64::of(ONE)),
    ensures
        shape.plus(Binary64::of(ONE)).finite(),
        !shape.plus(Binary64::of(ONE)).negative(),
        scaled(shape.plus(Binary64::of(ONE)).magnitude()) <= pow2(1124),
{
    let one = Binary64::of(ONE);
    lemma_one();
    lemma2_to64();
    lemma_pow2_adds(1074, 1);
    lemma_pow2_pos(1074);
    assert(scaled(0) == 0);
    if shape.magnitude() > 0 {
        lemma_scaled_increases(0, shape.magnitude());
    }
    lemma_sum_bound(shape, one, 1);
    lemma_pow2_adds(1075, 49);
    lemma_pow2_pos(1075);
    lemma_pow2_pos(49);
    let unit = pow2(1075) as int;
    let wide = pow2(49) as int;
    assert(unit <= unit * wide) by (nonlinear_arith)
        requires
            wide >= 1,
            unit > 0,
    ;
}

#[verifier::spinoff_prover]
proof fn lemma_boosted_draw(inner: Binary64, factor: Binary64)
    requires
        inner.finite(),
        !inner.negative(),
        scaled(inner.magnitude()) <= pow2(1145),
        unsigned_fraction(factor),
    ensures
        inner.times(factor).finite(),
        !inner.times(factor).negative(),
{
    let one = Binary64::of(ONE);
    lemma_one();
    lemma_power_pattern(0);
    assert(scaled(0) == 0);
    lemma_below_finite(factor, one);
    lemma_product_bound(inner, factor, 71, 0);
}

#[verifier::spinoff_prover]
proof fn lemma_drawn(parameter: Binary64, draw: Binary64)
    requires
        !Binary64::of(LARGEST_COUNT).less(parameter),
        drawn(shape_of(parameter), draw),
    ensures
        draw.finite(),
        !draw.negative(),
{
    reveal(drawn);
    let shape = shape_of(parameter);
    lemma_shape_bound(parameter);
    if plan_of(shape) is Try {
        lemma_tried(shape, draw);
    } else {
        let boosted = plan_of(shape)->Boost_shape;
        let (inner, factor) = choose|inner: Binary64, factor: Binary64|
            tried(boosted, inner) && unsigned_fraction(factor) && draw == #[trigger] inner.times(
                factor,
            );
        lemma_boosted_bound(shape);
        lemma_tried(boosted, inner);
        lemma_boosted_draw(inner, factor);
    }
}

proof fn lemma_prior_is_small()
    ensures
        !Binary64::of(LARGEST_COUNT).less(Binary64::of(ONE)),
{
    lemma_scaled_increases(Binary64::of(ONE).magnitude(), Binary64::of(LARGEST_COUNT).magnitude());
}

/// Whether both parameters of an arm are at most `1e15`.
pub open spec fn modest(arm: Arm) -> bool {
    &&& !Binary64::of(LARGEST_COUNT).less(arm.alpha)
    &&& !Binary64::of(LARGEST_COUNT).less(arm.beta)
}

/// A sample of any arm is between zero and one, whatever was drawn for it: of an arm never
/// updated, and of one last updated with numbers of at most `1e15`, zero and negative ones among
/// them.
pub proof fn law_samples_are_probabilities(
    arms: Map<(Seq<char>, Seq<char>), Arm>,
    target: Seq<char>,
    bucket: Seq<char>,
    x: Binary64,
    y: Binary64,
)
    requires
        arms.contains_key((target, bucket)) ==> modest(arms[(target, bucket)]),
        drawn(shape_of(arm_at(arms, target, bucket).alpha), x),
        drawn(shape_of(arm_at(arms, target, bucket).beta), y),
    ensures
        beta_of(x, y).within(Binary64::of(ZERO), Binary64::of(ONE)),
{
    lemma_prior_is_small();
    lemma_drawn(arm_at(arms, target, bucket).alpha, x);
    lemma_drawn(arm_at(arms, target, bucket).beta, y);
    law_draws_make_probabilities(x, y);
}

// ── Arms ────────────────────────────────────────────────────────────────────

/// The learned arms of a contextual bandit, keyed by target and token bucket.
pub struct ThompsonSampler {
    arms: PairMap<Arm>,
}

impl View for ThompsonSampler {
    type V = Map<(Seq<char>, Seq<char>), Arm>;

    closed spec fn view(&self) -> Map<(Seq<char>, Seq<char>), Arm> {
        self.arms@
    }
}

/// The arm stored under a target and bucket, or the uniform prior.
pub open spec fn arm_at(
    arms: Map<(Seq<char>, Seq<char>), Arm>,
    target: Seq<char>,
    bucket: Seq<char>,
) -> Arm {
    if arms.contains_key((target, bucket)) {
        arms[(target, bucket)]
    } else {
        uniform_arm()
    }
}

impl ThompsonSampler {
    /// A sampler with uniform priors.
    pub fn new() -> (sampler: Self)
        ensures
            sampler@ == Map::<(Seq<char>, Seq<char>), Arm>::empty(),
    {
        ThompsonSampler { arms: PairMap::new() }
    }

    /// Sets an arm's Beta parameters from its aggregated reward summary.
    pub fn update_arm(
        &mut self,
        target: &ModelId,
        token_bucket: &str,
        alpha: Binary64,
        beta: Binary64,
    )
        ensures
            final(self)@ == old(self)@.insert((target@, token_bucket@), Arm { alpha, beta }),
    {
        self.arms.insert(target.name.clone(), token_bucket.to_owned(), Arm { alpha, beta });
    }

    /// The arm of a target and bucket, with the uniform prior when unseen.
    pub fn arm(&self, target: &ModelId, token_bucket: &str) -> (arm: Arm)
        ensures
            arm == arm_at(self@, target@, token_bucket@),
    {
        match self.arms.get(target.as_str(), token_bucket) {
            Some(arm) => *arm,
            None => Arm::default(),
        }
    }

    /// One Thompson sample for an arm, using the uniform prior when unseen. `draw` makes a gamma
    /// draw of the shape that it is given.
    ///
    /// Draws that the plans for their shapes can give make a sample between zero and one, unless
    /// the arm was set to numbers beyond `1e15`. No arm changes, and no other arm is read.
    pub fn sample<F: Fn(Binary64) -> Binary64>(
        &self,
        target: &ModelId,
        token_bucket: &str,
        draw: F,
    ) -> (sample: Binary64)
        requires
            forall|shape: Binary64| call_requires(draw, (shape,)),
        ensures
            exists|x: Binary64, y: Binary64|
                #![trigger beta_of(x, y)]
                call_ensures(draw, (shape_of(arm_at(self@, target@, token_bucket@).alpha),), x)
                    && call_ensures(
                    draw,
                    (shape_of(arm_at(self@, target@, token_bucket@).beta),),
                    y,
                ) && sample == beta_of(x, y),
            (self@.contains_key((target@, token_bucket@)) ==> modest(
                self@[(target@, token_bucket@)],
            )) && (forall|shape: Binary64, drawing: Binary64|
                call_ensures(draw, (shape,), drawing) ==> #[trigger] drawn(shape, drawing))
                ==> sample.within(Binary64::of(ZERO), Binary64::of(ONE)),
    {
        let (alpha, beta) = self.arm(target, token_bucket).gamma_shapes();
        let x = draw(alpha);
        let y = draw(beta);
        let sample = beta_sample(x, y);
        proof {
            assert(sample == beta_of(x, y));
            if (self@.contains_key((target@, token_bucket@)) ==> modest(
                self@[(target@, token_bucket@)],
            )) && forall|shape: Binary64, drawing: Binary64|
                call_ensures(draw, (shape,), drawing) ==> #[trigger] drawn(shape, drawing) {
                assert(drawn(alpha, x) && drawn(beta, y));
                law_samples_are_probabilities(self@, target@, token_bucket@, x, y);
            }
        }
        sample
    }

    /// The arm's posterior mean.
    pub fn mean(&self, target: &ModelId, token_bucket: &str) -> (mean: Binary64)
        ensures
            mean == arm_at(self@, target@, token_bucket@).expected(),
    {
        self.arm(target, token_bucket).mean()
    }
}

impl Default for ThompsonSampler {
    fn default() -> (sampler: Self)
        ensures
            sampler@ == Map::<(Seq<char>, Seq<char>), Arm>::empty(),
    {
        ThompsonSampler::new()
    }
}

/// Updating one arm leaves every other target and bucket as it was.
pub proof fn law_arms_are_independent(
    arms: Map<(Seq<char>, Seq<char>), Arm>,
    updated: (Seq<char>, Seq<char>),
    arm: Arm,
    other: (Seq<char>, Seq<char>),
)
    requires
        updated != other,
    ensures
        arm_at(arms.insert(updated, arm), other.0, other.1) == arm_at(arms, other.0, other.1),
        arm_at(arms.insert(updated, arm), updated.0, updated.1) == arm,
{
}

/// The buckets: small below a thousand tokens, large beyond ten thousand, medium between.
pub proof fn law_buckets_divide_the_sizes(tokens: nat)
    ensures
        bucket_label(tokens) == "small"@ <==> tokens < 1_000,
        bucket_label(tokens) == "medium"@ <==> 1_000 <= tokens <= 10_000,
        bucket_label(tokens) == "large"@ <==> tokens > 10_000,
{
    reveal_strlit("small");
    reveal_strlit("medium");
    reveal_strlit("large");
    assert("small"@[0] == 's' && "medium"@[0] == 'm' && "large"@[0] == 'l');
}

/// A turn that says one text adds the text's characters to the size of a conversation; a further
/// text in the same turn adds its characters and one for the line feed before it; a turn without
/// texts adds nothing.
pub proof fn law_size_counts_the_characters_of_texts(turns: Seq<Turn>, turn: Turn, text: Seq<char>)
    ensures
        text_chars(Seq::empty()) == 0,
        turn.content == seq![Block::Text(text)] ==> text_chars(turns.push(turn)) == text_chars(turns)
            + text.len(),
        (forall|i: int| 0 <= i < turn.content.len() ==> !((#[trigger] turn.content[i]) is Text))
            ==> text_chars(turns.push(turn)) == text_chars(turns),
        (exists|i: int| 0 <= i < turn.content.len() && (#[trigger] turn.content[i]) is Text)
            ==> text_chars(
            turns.push(Turn { content: turn.content.push(Block::Text(text)), ..turn }),
        ) == text_chars(turns.push(turn)) + 1 + text.len(),
{
    let more = Turn { content: turn.content.push(Block::Text(text)), ..turn };
    assert(turns.push(turn).drop_last() =~= turns);
    assert(turns.push(more).drop_last() =~= turns);
    assert(more.content.drop_last() =~= turn.content);
    assert("\n"@.len() == 1) by {
        reveal_strlit("\n");
    }
    crate::messages::lemma_said_if_texts(turn.content, "\n"@);
    if turn.content == seq![Block::Text(text)] {
        assert(turn.content.drop_last() =~= Seq::<Block>::empty());
        assert(said(Seq::<Block>::empty(), "\n"@) is None);
        assert(said(turn.content, "\n"@) == Some(text));
    }
}

/// The mean of an arm is its share of successes: the quotient of `alpha` and the rounded sum of
/// both counts, rounded.
pub proof fn law_mean_is_the_share_of_successes(arm: Arm)
    requires
        arm.alpha.finite(),
        arm.beta.finite(),
        !arm.alpha.negative(),
        !arm.beta.negative(),
        arm.alpha.plus(arm.beta).finite(),
        arm.alpha.plus(arm.beta).magnitude() > 0,
    ensures
        arm.expected().value() == scaled(
            nearest(
                arm.alpha.value() * pow2(1074),
                crate::binary64::rounded(arm.alpha.value() + arm.beta.value()),
            ),
        ),
        arm.expected().within(Binary64::of(ZERO), Binary64::of(ONE)),
{
    let total = arm.alpha.plus(arm.beta);
    assert(scaled(0) == 0);
    lemma_unsigned_value(arm.alpha);
    lemma_unsigned_value(arm.beta);
    lemma_sum_value(arm.alpha, arm.beta);
    lemma_nearest_exists(arm.alpha.value() + arm.beta.value(), 1);
    lemma_nearest_exists(arm.alpha.value() * pow2(1074), scaled(total.magnitude()));
    law_draws_make_probabilities(arm.alpha, arm.beta);
}

/// The prior is uniform: one success and one failure, so a mean of one half.
pub proof fn law_unseen_arms_are_uniform(arms: Map<(Seq<char>, Seq<char>), Arm>, key: (Seq<char>, Seq<char>))
    requires
        !arms.contains_key(key),
    ensures
        arm_at(arms, key.0, key.1).alpha == Binary64::of(ONE),
        arm_at(arms, key.0, key.1).beta == Binary64::of(ONE),
{
}

/// A sample is the first draw's share of both, or one half where both draws are zero.
pub proof fn law_sample_is_the_share_of_the_first_draw(x: Binary64, y: Binary64)
    requires
        x.finite(),
        y.finite(),
        !x.negative(),
        !y.negative(),
        x.plus(y).finite(),
    ensures
        x.magnitude() == 0 && y.magnitude() == 0 ==> beta_of(x, y) == Binary64::of(HALF),
        x.magnitude() > 0 || y.magnitude() > 0 ==> beta_of(x, y).value() == scaled(
            nearest(
                x.value() * pow2(1074),
                crate::binary64::rounded(x.value() + y.value()),
            ),
        ),
{
    let total = x.plus(y);
    assert(scaled(0) == 0);
    lemma_sum_value(x, y);
    lemma_nearest_exists(x.value() + y.value(), 1);
    lemma_unsigned_value(x);
    lemma_unsigned_value(y);
    if x.magnitude() > 0 {
        lemma_scaled_increases(0, x.magnitude());
    }
    if y.magnitude() > 0 {
        lemma_scaled_increases(0, y.magnitude());
    }
    if x.magnitude() > 0 || y.magnitude() > 0 {
        lemma_nearest_monotone(1, x.value() + y.value(), 1);
        lemma_nearest_exact(1, 1);
        assert(scaled(1) == 1);
        lemma_scaled_increases(0, total.magnitude());
        lemma_nearest_exists(x.value() * pow2(1074), scaled(total.magnitude()));
    }
}

/// Shapes are the arm's parameters, those below the smallest shape raised to it.
pub proof fn law_shapes_are_the_parameters(parameter: Binary64)
    ensures
        !parameter.nan() && parameter.value() >= Binary64::of(SMALLEST_SHAPE).value() ==> shape_of(
            parameter,
        ) == parameter,
        parameter.nan() || parameter.value() < Binary64::of(SMALLEST_SHAPE).value() ==> shape_of(
            parameter,
        ) == Binary64::of(SMALLEST_SHAPE),
{
}

/// Only shapes below one are boosted: by one, with the reciprocal as the power. A shape of at
/// least one is tried with a scale one third below it, and nine times the scale under the root.
pub proof fn law_plans_follow_the_shape(shape: Binary64)
    requires
        !shape.nan(),
    ensures
        shape.value() < pow2(1074) ==> plan_of(shape) == (GammaPlan::Boost {
            shape: shape.plus(Binary64::of(ONE)),
            power: Binary64::of(ONE).over(shape),
        }),
        shape.value() >= pow2(1074) ==> plan_of(shape) == (GammaPlan::Try {
            d: shape.minus(Binary64::of(THIRD)),
            radicand: Binary64::of(NINE).times(shape.minus(Binary64::of(THIRD))),
        }),
{
    lemma_one();
}

/// A try gives the scale times the cube, whether the squeeze or the logarithms accept it; the
/// squeeze accepts uniform draws below one less a fourth power of the normal draw, and the
/// logarithms those below the bound.
pub proof fn law_accepted_tries_give_the_scaled_cube(
    d: Binary64,
    x: Binary64,
    cube: Binary64,
    u: Binary64,
    ln_cube: Binary64,
)
    ensures
        ({
            let square = x.times(x);
            let edge = Binary64::of(ONE).minus(
                Binary64::of(SQUEEZE).times(square).times(square),
            );
            try_of(d, x, cube, u) == if u.less(edge) {
                GammaTry::Accept(d.times(cube))
            } else {
                GammaTry::Compare
            }
        }),
        ({
            let bound = Binary64::of(HALF).times(x).times(x).plus(
                d.times(Binary64::of(ONE).minus(cube).plus(ln_cube)),
            );
            compared(d, x, cube, u, ln_cube) == if u.less(bound) {
                Some(d.times(cube))
            } else {
                None
            }
        }),
{
}

/// A try is rejected at once exactly if its base, one plus the slope times the normal draw, is not
/// above zero; otherwise the base is cubed.
pub proof fn law_tries_cube_a_positive_base(slope: Binary64, x: Binary64)
    ensures
        ({
            let base = Binary64::of(ONE).plus(slope.times(x));
            &&& !base.nan() ==> (cube_of(slope, x) is None <==> base.value() <= 0)
            &&& cube_of(slope, x) matches Some(cube) ==> cube == base.times(base).times(base)
        }),
{
    assert(scaled(0) == 0);
}

/// A mean is the quotient of `alpha` and the sum of both parameters, whatever they are.
pub proof fn law_mean_divides_alpha_by_the_sum(arm: Arm)
    ensures
        arm.expected() == arm.alpha.over(arm.alpha.plus(arm.beta)),
{
}

} // verus!

//! Fixed-point numbers and the sums over them that the planner needs.
use vstd::prelude::*;

verus! {

/// Number of fixed-point units that make up the real number one.
pub const SCALE: i64 = 1_000_000;

/// `SCALE` cubed: the unit of a product of three fixed-point factors and a value.
pub const SCALE_CUBED: i64 = 1_000_000_000_000_000_000;

/// Largest magnitude a single reward may have, in fixed-point units.
pub const REWARD_LIMIT: i64 = 1_000_000_000_000;

/// Largest number of decision steps a plan may cover.
pub const DEPTH_LIMIT: usize = 1_000_000;

/// Largest magnitude the value of a plan can have: `DEPTH_LIMIT` rewards.
pub const VALUE_LIMIT: i64 = 1_000_000_000_000_000_000;

/// `-bound <= x <= bound`.
pub open spec fn within(x: int, bound: int) -> bool {
    -bound <= x <= bound
}

/// Every entry of `v` has magnitude at most `bound`.
pub open spec fn bounded(v: Seq<int>, bound: int) -> bool {
    forall|i: int| 0 <= i < v.len() ==> within(#[trigger] v[i], bound)
}

/// Every entry of every row has magnitude at most `bound`.
pub open spec fn all_bounded(rows: Seq<Seq<int>>, bound: int) -> bool {
    forall|i: int| 0 <= i < rows.len() ==> bounded(#[trigger] rows[i], bound)
}

/// The numbers of a vector as mathematical integers.
pub open spec fn ints(v: Seq<i64>) -> Seq<int> {
    Seq::new(v.len(), |i: int| v[i] as int)
}

/// The rows of a table as sequences of mathematical integers.
pub open spec fn rows(table: Seq<Vec<i64>>) -> Seq<Seq<int>> {
    Seq::new(table.len(), |i: int| ints(table[i]@))
}

/// `x / d` rounded toward zero, for a positive divisor `d`.
pub open spec fn quotient_toward_zero(x: int, d: int) -> int {
    if x >= 0 {
        x / d
    } else {
        -((-x) / d)
    }
}

/// The sum of `b[i] * v[i]` over the first `n` indices.
pub open spec fn dot_prefix(b: Seq<int>, v: Seq<int>, n: nat) -> int
    decreases n,
{
    if n == 0 {
        0
    } else {
        dot_prefix(b, v, (n - 1) as nat) + b[n - 1] * v[n - 1]
    }
}

/// The value of the vector `v` at the belief `b`: the sum of `b[i] * v[i]`
/// over all indices of `b`.
pub open spec fn dot(b: Seq<int>, v: Seq<int>) -> int {
    dot_prefix(b, v, b.len())
}

/// The sum of the first `n` entries of `b`.
pub open spec fn mass_prefix(b: Seq<int>, n: nat) -> int
    decreases n,
{
    if n == 0 {
        0
    } else {
        mass_prefix(b, (n - 1) as nat) + b[n - 1]
    }
}

/// A belief over `n` states: `n` non-negative weights that add up to one.
/// Rounding a probability down to a fixed-point number may lose less than
/// one unit of it, so the sum may fall short of `SCALE` by less than `n`
/// units.
pub open spec fn is_belief(b: Seq<int>, n: nat) -> bool {
    &&& b.len() == n
    &&& forall|i: int| 0 <= i < b.len() ==> #[trigger] b[i] >= 0
    &&& SCALE - n < mass_prefix(b, b.len()) <= SCALE
}

/// A product of a non-negative weight and a bounded value is bounded by the
/// weight times the bound.
pub proof fn lemma_weighted_term(w: int, x: int, bound: int)
    requires
        0 <= w,
        within(x, bound),
    ensures
        within(w * x, w * bound),
{
    assert(w * x <= w * bound) by (nonlinear_arith)
        requires
            0 <= w,
            x <= bound,
    ;
    assert(w * x >= w * (-bound)) by (nonlinear_arith)
        requires
            0 <= w,
            x >= -bound,
    ;
    assert(w * (-bound) == -(w * bound)) by (nonlinear_arith);
}

/// With non-negative weights the prefix sums of the weights never decrease.
pub proof fn lemma_mass_prefix_monotone(b: Seq<int>, k: nat, n: nat)
    requires
        k <= n <= b.len(),
        forall|i: int| 0 <= i < b.len() ==> #[trigger] b[i] >= 0,
    ensures
        0 <= mass_prefix(b, k) <= mass_prefix(b, n),
    decreases n,
{
    if n == 0 {
    } else if k == n {
        lemma_mass_prefix_monotone(b, (k - 1) as nat, (n - 1) as nat);
    } else {
        lemma_mass_prefix_monotone(b, k, (n - 1) as nat);
    }
}

/// The value of a bounded vector at a belief is bounded by the mass of the
/// belief times the bound.
pub proof fn lemma_dot_prefix_bound(b: Seq<int>, v: Seq<int>, n: nat, bound: int)
    requires
        n <= b.len(),
        n <= v.len(),
        forall|i: int| 0 <= i < b.len() ==> #[trigger] b[i] >= 0,
        bounded(v, bound),
    ensures
        within(dot_prefix(b, v, n), mass_prefix(b, n) * bound),
    decreases n,
{
    if n == 0 {
    } else {
        let m = (n - 1) as nat;
        lemma_dot_prefix_bound(b, v, m, bound);
        lemma_weighted_term(b[n - 1], v[n - 1], bound);
        assert((mass_prefix(b, m) + b[n - 1]) * bound == mass_prefix(b, m) * bound + b[n - 1]
            * bound) by (nonlinear_arith);
    }
}

/// Dividing a number of magnitude at most `d * bound` by `d` leaves a
/// magnitude of at most `bound`.
pub proof fn lemma_quotient_bound(x: int, d: int, bound: int)
    requires
        d > 0,
        bound >= 0,
        within(x, d * bound),
    ensures
        within(quotient_toward_zero(x, d), bound),
{
    if x >= 0 {
        assert(x / d <= bound) by (nonlinear_arith)
            requires
                d > 0,
                0 <= x <= d * bound,
        ;
        assert(x / d >= 0) by (nonlinear_arith)
            requires
                d > 0,
                0 <= x,
        ;
    } else {
        let y = -x;
        assert(y / d <= bound) by (nonlinear_arith)
            requires
                d > 0,
                0 <= y <= d * bound,
        ;
        assert(y / d >= 0) by (nonlinear_arith)
            requires
                d > 0,
                0 <= y,
        ;
    }
}

/// Divides by a positive number, rounding toward zero.
pub fn divide_toward_zero(x: i128, d: i128) -> (q: i128)
    requires
        d > 0,
        x > i128::MIN,
    ensures
        q == quotient_toward_zero(x as int, d as int),
{
    if x >= 0 {
        x / d
    } else {
        let y: i128 = -x;
        let p: i128 = y / d;
        assert(0 <= p <= y) by (nonlinear_arith)
            requires
                p == y as int / d as int,
                d > 0,
                y >= 0,
        ;
        -p
    }
}

} // verus!

//! Beliefs: probability distributions over the states, and how an action and
//! an observation change them.
use crate::fixed::{
    divide_toward_zero, dot, dot_prefix, ints, is_belief, lemma_dot_prefix_bound,
    lemma_mass_prefix_monotone, mass_prefix, quotient_toward_zero, within, SCALE,
};
use crate::model::POMDP;
use vstd::prelude::*;

verus! {

/// The largest weight a state can get before the weights are normalised.
pub const WEIGHT_LIMIT: i128 = 1_000_000_000_000_000_000;

/// The sum of the first `n` entries of `values`.
pub open spec fn total(values: Seq<int>, n: nat) -> int
    decreases n,
{
    if n == 0 {
        0
    } else {
        total(values, (n - 1) as nat) + values[n - 1]
    }
}

/// `p / d` rounded toward zero, for a divisor `d` that is not zero.
pub open spec fn ratio(p: int, d: int) -> int {
    if d > 0 {
        quotient_toward_zero(p, d)
    } else {
        quotient_toward_zero(-p, -d)
    }
}

/// The part `x` has in `sum`, stretched to `length`: `x * length / sum`.
pub open spec fn share(x: int, length: int, sum: int) -> int {
    ratio(x * length, sum)
}

/// The probabilities that action `a` leads to state `t`, from each state.
pub open spec fn into_state(pomdp: &POMDP, a: int, t: int) -> Seq<int> {
    Seq::new(pomdp.n_states(), |s: int| pomdp.transition(s, a, t))
}

/// The weight of state `t` after action `a` was taken at belief `b` and `o`
/// was observed: the probability of observing `o` in `t` times the
/// probability of arriving in `t`. The weights of all states are in
/// proportion to the new belief.
pub open spec fn weight(pomdp: &POMDP, b: Seq<int>, a: int, o: int, t: int) -> int {
    pomdp.observation(o, a, t) * dot(b, into_state(pomdp, a, t))
}

/// The weights of all states.
pub open spec fn weights(pomdp: &POMDP, b: Seq<int>, a: int, o: int) -> Seq<int> {
    Seq::new(pomdp.n_states(), |t: int| weight(pomdp, b, a, o, t))
}

/// The belief after action `a` was taken at belief `b` and `o` was
/// observed: the weights of the states, normalised to add up to one, each
/// rounded down.
pub open spec fn updated(pomdp: &POMDP, b: Seq<int>, a: int, o: int) -> Seq<int> {
    let w = weights(pomdp, b, a, o);
    Seq::new(pomdp.n_states(), |t: int| w[t] * SCALE / total(w, w.len()))
}

/// A vector as long as `values` whose every entry is one, whatever `_value`
/// is.
pub fn fill(values: &Vec<i64>, _value: i64) -> (filled: Vec<i64>)
    ensures
        filled@.len() == values@.len(),
        forall|i: int| 0 <= i < filled@.len() ==> #[trigger] filled@[i] == SCALE,
{
    let mut filled: Vec<i64> = Vec::new();
    let mut i: usize = 0;
    while i < values.len()
        invariant
            i <= values@.len(),
            filled@.len() == i,
            forall|j: int| 0 <= j < i ==> #[trigger] filled@[j] == SCALE,
        decreases values@.len() - i,
    {
        filled.push(SCALE);
        i += 1;
    }
    filled
}

/// Scales `values` so that they add up to `length`: each entry becomes its
/// share `x * length / sum` of the sum of all entries, rounded toward zero.
/// There is no result if the sum is zero or a share does not fit the
/// machine word.
pub fn normalize(values: &Vec<i64>, length: i64) -> (normalized: Option<Vec<i64>>)
    ensures
        match normalized {
            Some(shares) => {
                &&& total(ints(values@), values@.len()) != 0
                &&& shares@.len() == values@.len()
                &&& forall|i: int|
                    0 <= i < shares@.len() ==> #[trigger] shares@[i] == share(
                        values@[i] as int,
                        length as int,
                        total(ints(values@), values@.len()),
                    )
            },
            None => {
                ||| total(ints(values@), values@.len()) == 0
                ||| exists|i: int|
                    0 <= i < values@.len() && !(i64::MIN <= #[trigger] share(
                        values@[i] as int,
                        length as int,
                        total(ints(values@), values@.len()),
                    ) <= i64::MAX)
            },
        },
{
    let n = values.len();
    let ghost numbers = ints(values@);
    let ghost limit: int = 0x8000_0000_0000_0000;
    let mut sum: i128 = 0;
    let mut i: usize = 0;
    while i < n
        invariant
            i <= n,
            n == values@.len(),
            numbers == ints(values@),
            limit == 0x8000_0000_0000_0000,
            sum == total(numbers, i as nat),
            within(sum as int, i * limit),
        decreases n - i,
    {
        assert(numbers[i as int] == values@[i as int]);
        assert((i + 1) * limit == i * limit + limit) by (nonlinear_arith);
        assert((i + 1) * limit <= 0x1_0000_0000_0000_0000 * limit) by (nonlinear_arith)
            requires
                i + 1 <= 0x1_0000_0000_0000_0000,
                limit >= 0,
        ;
        sum = sum + (values[i] as i128);
        i += 1;
    }
    if sum == 0 {
        return None;
    }
    let mut shares: Vec<i64> = Vec::new();
    let mut i: usize = 0;
    while i < n
        invariant
            i <= n,
            n == values@.len(),
            sum == total(ints(values@), n as nat),
            sum != 0,
            sum > i128::MIN,
            shares@.len() == i,
            forall|j: int|
                0 <= j < i ==> #[trigger] shares@[j] == share(
                    values@[j] as int,
                    length as int,
                    sum as int,
                ),
        decreases n - i,
    {
        let x = values[i];
        assert(-0x4000_0000_0000_0000_0000_0000_0000_0000 <= x * length
            <= 0x4000_0000_0000_0000_0000_0000_0000_0000) by (nonlinear_arith)
            requires
                -0x8000_0000_0000_0000 <= x <= 0x8000_0000_0000_0000,
                -0x8000_0000_0000_0000 <= length <= 0x8000_0000_0000_0000,
        ;
        let product: i128 = (x as i128) * (length as i128);
        let q: i128 = if sum > 0 {
            divide_toward_zero(product, sum)
        } else {
            divide_toward_zero(-product, -sum)
        };
        assert(q == share(x as int, length as int, sum as int));
        if q < i64::MIN as i128 || q > i64::MAX as i128 {
            return None;
        }
        shares.push(q as i64);
        i += 1;
    }
    Some(shares)
}

/// A rounded-down quotient times its divisor is at most the dividend.
pub proof fn lemma_floor_times(w: int, d: int)
    requires
        w >= 0,
        d > 0,
    ensures
        0 <= w * SCALE / d,
        (w * SCALE / d) * d <= w * SCALE,
        (w * SCALE / d + 1) * d >= w * SCALE + 1,
{
    let p = w * SCALE;
    assert(p >= 0) by (nonlinear_arith)
        requires
            p == w * SCALE,
            w >= 0,
            SCALE >= 0,
    ;
    assert(0 <= p / d && (p / d) * d <= p) by (nonlinear_arith)
        requires
            p >= 0,
            d > 0,
    ;
    vstd::arithmetic::div_mod::lemma_fundamental_div_mod(p, d);
    vstd::arithmetic::div_mod::lemma_mod_bound(p, d);
    let q = p / d;
    assert((q + 1) * d == d * q + d) by (nonlinear_arith);
}

/// The weights are not negative and none is above `WEIGHT_LIMIT`.
pub proof fn lemma_weight_bound(pomdp: &POMDP, b: Seq<int>, a: int, o: int, t: int)
    requires
        pomdp.wf(),
        is_belief(b, pomdp.n_states()),
        0 <= a < pomdp.n_actions(),
        0 <= o < pomdp.n_observations(),
        0 <= t < pomdp.n_states(),
    ensures
        0 <= weight(pomdp, b, a, o, t) <= WEIGHT_LIMIT,
        0 <= dot(b, into_state(pomdp, a, t)) <= SCALE * SCALE,
        0 <= pomdp.observation(o, a, t) <= SCALE,
{
    let column = into_state(pomdp, a, t);
    let n = pomdp.n_states();
    assert forall|s: int| 0 <= s < n implies 0 <= #[trigger] column[s] <= SCALE by {
        assert(pomdp.transitions_substochastic(s, a));
        assert(pomdp.transition(s, a, t) >= 0);
        pomdp.lemma_transition_mass_monotone(s, a, (t + 1) as nat, n);
        pomdp.lemma_transition_mass_monotone(s, a, t as nat, (t + 1) as nat);
    }
    lemma_dot_nonnegative(b, column, n);
    lemma_dot_prefix_bound(b, column, n, SCALE as int);
    let mass = mass_prefix(b, n);
    lemma_mass_prefix_monotone(b, n, n);
    assert(mass * SCALE <= SCALE * SCALE) by (nonlinear_arith)
        requires
            0 <= mass <= SCALE,
    ;
    let p = pomdp.observation(o, a, t);
    assert(pomdp.observations_substochastic(a, t));
    pomdp.lemma_observation_mass_monotone(a, t, (o + 1) as nat, pomdp.n_observations());
    pomdp.lemma_observation_mass_monotone(a, t, o as nat, (o + 1) as nat);
    let arriving = dot(b, column);
    assert(0 <= p * arriving <= WEIGHT_LIMIT) by (nonlinear_arith)
        requires
            0 <= p <= SCALE,
            0 <= arriving <= SCALE * SCALE,
            SCALE == 1_000_000,
            WEIGHT_LIMIT == 1_000_000_000_000_000_000,
    ;
}

/// A sum of products of numbers that are not negative is not negative.
pub proof fn lemma_dot_nonnegative(b: Seq<int>, v: Seq<int>, n: nat)
    requires
        n <= b.len(),
        n <= v.len(),
        forall|i: int| 0 <= i < b.len() ==> #[trigger] b[i] >= 0,
        forall|i: int| 0 <= i < n ==> #[trigger] v[i] >= 0,
    ensures
        dot_prefix(b, v, n) >= 0,
    decreases n,
{
    if n > 0 {
        lemma_dot_nonnegative(b, v, (n - 1) as nat);
        let x = b[n - 1];
        let y = v[n - 1];
        assert(x * y >= 0) by (nonlinear_arith)
            requires
                x >= 0,
                y >= 0,
        ;
    }
}

/// The rounded-down shares of weights that are not negative add up to at
/// most one.
pub proof fn lemma_shares_mass(w: Seq<int>, sum: int, n: nat)
    requires
        n <= w.len(),
        sum > 0,
        forall|t: int| 0 <= t < w.len() ==> #[trigger] w[t] >= 0,
    ensures
        mass_prefix(Seq::new(w.len(), |t: int| w[t] * SCALE / sum), n) * sum <= total(w, n) * SCALE,
        (mass_prefix(Seq::new(w.len(), |t: int| w[t] * SCALE / sum), n) + n) * sum >= total(w, n)
            * SCALE + n,
        mass_prefix(Seq::new(w.len(), |t: int| w[t] * SCALE / sum), n) >= 0,
    decreases n,
{
    let shares = Seq::new(w.len(), |t: int| w[t] * SCALE / sum);
    if n > 0 {
        lemma_shares_mass(w, sum, (n - 1) as nat);
        lemma_floor_times(w[n - 1], sum);
        let before = mass_prefix(shares, (n - 1) as nat);
        let q = shares[n - 1];
        assert((before + q) * sum == before * sum + q * sum) by (nonlinear_arith);
        assert((before + q + n) * sum == (before + (n - 1)) * sum + (q + 1) * sum)
            by (nonlinear_arith);
        assert((total(w, (n - 1) as nat) + w[n - 1]) * SCALE == total(w, (n - 1) as nat) * SCALE
            + w[n - 1] * SCALE) by (nonlinear_arith);
    } else {
        assert((0 + 0) * sum == 0) by (nonlinear_arith);
        assert(0 * SCALE == 0) by (nonlinear_arith);
    }
}

/// The belief after an update is a belief.
pub proof fn lemma_updated_is_belief(pomdp: &POMDP, b: Seq<int>, a: int, o: int)
    requires
        pomdp.wf(),
        is_belief(b, pomdp.n_states()),
        0 <= a < pomdp.n_actions(),
        0 <= o < pomdp.n_observations(),
        total(weights(pomdp, b, a, o), pomdp.n_states()) > 0,
    ensures
        is_belief(updated(pomdp, b, a, o), pomdp.n_states()),
{
    let w = weights(pomdp, b, a, o);
    let n = pomdp.n_states();
    let sum = total(w, n);
    let shares = updated(pomdp, b, a, o);
    assert forall|t: int| 0 <= t < w.len() implies #[trigger] w[t] >= 0 by {
        lemma_weight_bound(pomdp, b, a, o, t);
    }
    assert(shares =~= Seq::new(w.len(), |t: int| w[t] * SCALE / sum));
    lemma_shares_mass(w, sum, n);
    let mass = mass_prefix(shares, n);
    assert(mass <= SCALE) by (nonlinear_arith)
        requires
            mass * sum <= sum * SCALE,
            sum > 0,
    ;
    assert(n > 0) by {
        if n == 0 {
            assert(total(w, 0) == 0);
        }
    }
    assert(mass + n > SCALE) by (nonlinear_arith)
        requires
            (mass + n) * sum >= sum * SCALE + n,
            sum > 0,
            n >= 1,
    ;
    assert forall|t: int| 0 <= t < shares.len() implies #[trigger] shares[t] >= 0 by {
        lemma_floor_times(w[t], sum);
    }
}

/// The probability of arriving in state `t` after action `a` was taken at
/// the belief `beliefs`.
fn arriving(pomdp: &POMDP, beliefs: &Vec<i64>, a: usize, t: usize) -> (sum: i64)
    requires
        pomdp.wf(),
        is_belief(ints(beliefs@), pomdp.n_states()),
        a < pomdp.n_actions(),
        t < pomdp.n_states(),
    ensures
        sum == dot(ints(beliefs@), into_state(pomdp, a as int, t as int)),
        0 <= sum <= SCALE * SCALE,
{
    let n = pomdp.state_space.len();
    let ghost b = ints(beliefs@);
    let ghost column = into_state(pomdp, a as int, t as int);
    proof {
        assert forall|s: int| 0 <= s < n implies 0 <= #[trigger] column[s] <= SCALE by {
            assert(pomdp.transitions_substochastic(s, a as int));
            assert(pomdp.transition(s, a as int, t as int) >= 0);
            pomdp.lemma_transition_mass_monotone(s, a as int, (t + 1) as nat, n as nat);
            pomdp.lemma_transition_mass_monotone(s, a as int, t as nat, (t + 1) as nat);
        }
        assert forall|k: nat| k <= n implies 0 <= #[trigger] dot_prefix(b, column, k) <= SCALE
            * SCALE by {
            lemma_dot_nonnegative(b, column, k);
            lemma_dot_prefix_bound(b, column, k, SCALE as int);
            lemma_mass_prefix_monotone(b, k, n as nat);
            let mass = mass_prefix(b, k);
            assert(mass * SCALE <= SCALE * SCALE) by (nonlinear_arith)
                requires
                    0 <= mass <= SCALE,
            ;
        }
    }
    let mut sum: i64 = 0;
    let mut s: usize = 0;
    while s < n
        invariant
            s <= n,
            n == pomdp.n_states(),
            n == beliefs@.len(),
            b == ints(beliefs@),
            column == into_state(pomdp, a as int, t as int),
            sum == dot_prefix(b, column, s as nat),
            forall|k: nat|
                k <= n ==> 0 <= #[trigger] dot_prefix(b, column, k) <= SCALE * SCALE,
            forall|i: int| 0 <= i < n ==> 0 <= #[trigger] column[i] <= SCALE,
            is_belief(b, n as nat),
        decreases n - s,
    {
        let p = pomdp.transition_at(s, a, t);
        let w = beliefs[s];
        proof {
            assert(b[s as int] == w);
            assert(column[s as int] == p);
            lemma_mass_prefix_monotone(b, (s + 1) as nat, n as nat);
            lemma_mass_prefix_monotone(b, s as nat, (s + 1) as nat);
            assert(0 <= w <= SCALE);
            assert(0 <= w * p <= SCALE * SCALE) by (nonlinear_arith)
                requires
                    0 <= w <= SCALE,
                    0 <= p <= SCALE,
            ;
            assert(0 <= dot_prefix(b, column, (s + 1) as nat) <= SCALE * SCALE);
        }
        sum = sum + w * p;
        s += 1;
    }
    sum
}

/// Changes `beliefs` to the belief after action `a` was taken and `o` was
/// observed. Every state is weighted by the probability of observing `o` in
/// it times the probability of arriving in it, and the weights are
/// normalised to add up to one.
///
/// If the observation cannot be made after that action at that belief, all
/// weights are zero: then `beliefs` stays as it is, and the result is
/// `false`.
pub fn update_beliefs(pomdp: &POMDP, beliefs: &mut Vec<i64>, a: usize, o: usize) -> (possible: bool)
    requires
        pomdp.wf(),
        is_belief(ints(old(beliefs)@), pomdp.n_states()),
        a < pomdp.n_actions(),
        o < pomdp.n_observations(),
    ensures
        possible == (total(
            weights(pomdp, ints(old(beliefs)@), a as int, o as int),
            pomdp.n_states(),
        ) > 0),
        possible ==> ints(final(beliefs)@) == updated(
            pomdp,
            ints(old(beliefs)@),
            a as int,
            o as int,
        ),
        !possible ==> final(beliefs)@ == old(beliefs)@,
        is_belief(ints(final(beliefs)@), pomdp.n_states()),
{
    let n = pomdp.state_space.len();
    let ghost b = ints(beliefs@);
    let ghost w = weights(pomdp, b, a as int, o as int);
    let mut new_weights: Vec<i128> = Vec::new();
    let mut sum: i128 = 0;
    let mut t: usize = 0;
    while t < n
        invariant
            t <= n,
            n == pomdp.n_states(),
            pomdp.wf(),
            b == ints(beliefs@),
            is_belief(b, n as nat),
            a < pomdp.n_actions(),
            o < pomdp.n_observations(),
            w == weights(pomdp, b, a as int, o as int),
            new_weights@.len() == t,
            forall|i: int| 0 <= i < t ==> #[trigger] new_weights@[i] == w[i],
            forall|i: int| 0 <= i < t ==> 0 <= #[trigger] w[i] <= WEIGHT_LIMIT,
            sum == total(w, t as nat),
            0 <= sum <= t * WEIGHT_LIMIT,
        decreases n - t,
    {
        proof {
            lemma_weight_bound(pomdp, b, a as int, o as int, t as int);
            assert((t + 1) * WEIGHT_LIMIT == t * WEIGHT_LIMIT + WEIGHT_LIMIT) by (nonlinear_arith);
            assert((t + 1) * WEIGHT_LIMIT <= 0x1_0000_0000_0000_0000 * WEIGHT_LIMIT)
                by (nonlinear_arith)
                requires
                    t + 1 <= 0x1_0000_0000_0000_0000,
                    WEIGHT_LIMIT >= 0,
            ;
        }
        let observation = pomdp.observation_at(o, a, t);
        let reached = arriving(pomdp, beliefs, a, t);
        let new_belief: i128 = (observation as i128) * (reached as i128);
        new_weights.push(new_belief);
        sum = sum + new_belief;
        t += 1;
    }
    if sum == 0 {
        return false;
    }
    proof {
        lemma_updated_is_belief(pomdp, b, a as int, o as int);
    }
    let ghost target = updated(pomdp, b, a as int, o as int);
    let mut t: usize = 0;
    while t < n
        invariant
            t <= n,
            n == pomdp.n_states(),
            n == beliefs@.len(),
            new_weights@.len() == n,
            w.len() == n,
            forall|i: int| 0 <= i < n ==> #[trigger] new_weights@[i] == w[i],
            forall|i: int| 0 <= i < n ==> 0 <= #[trigger] w[i] <= WEIGHT_LIMIT,
            sum == total(w, n as nat),
            sum > 0,
            target == Seq::new(n as nat, |t: int| w[t] * SCALE / (sum as int)),
            is_belief(target, n as nat),
            forall|i: int| 0 <= i < t ==> #[trigger] beliefs@[i] == target[i],
        decreases n - t,
    {
        let weight = new_weights[t];
        proof {
            assert(0 <= w[t as int] <= WEIGHT_LIMIT);
            assert(0 <= weight * SCALE <= WEIGHT_LIMIT * SCALE) by (nonlinear_arith)
                requires
                    0 <= weight <= WEIGHT_LIMIT,
                    SCALE >= 0,
            ;
            assert(target[t as int] >= 0);
            lemma_mass_prefix_monotone(target, (t + 1) as nat, n as nat);
            lemma_mass_prefix_monotone(target, t as nat, (t + 1) as nat);
        }
        let part: i128 = (weight * (SCALE as i128)) / sum;
        beliefs.set(t, part as i64);
        t += 1;
    }
    assert(ints(beliefs@) =~= target);
    true
}

} // verus!

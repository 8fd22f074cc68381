//! One step of value: what a plan is worth that takes an action and then
//! follows the subplan for whatever is observed.
use crate::fixed::{
    all_bounded, bounded, divide_toward_zero, ints, lemma_quotient_bound, lemma_weighted_term,
    quotient_toward_zero, rows, within, REWARD_LIMIT, SCALE, SCALE_CUBED, VALUE_LIMIT,
};
use crate::model::POMDP;
use vstd::prelude::*;

verus! {

/// The value in state `t` of the subplan for observation `o`; zero where
/// there is no such subplan or it has no value for `t`.
pub open spec fn child_value(children: Seq<Seq<int>>, o: int, t: int) -> int {
    if 0 <= o < children.len() && 0 <= t < children[o].len() {
        children[o][t]
    } else {
        0
    }
}

/// The sum, over the first `n` observations `o`, of the probability of `o`
/// after action `a` has led to state `t` times the value in `t` of the
/// subplan for `o`.
pub open spec fn value_after(pomdp: &POMDP, a: int, t: int, children: Seq<Seq<int>>, n: nat) -> int
    decreases n,
{
    if n == 0 {
        0
    } else {
        value_after(pomdp, a, t, children, (n - 1) as nat) + pomdp.observation(n - 1, a, t)
            * child_value(children, n - 1, t)
    }
}

/// The sum, over the first `n` states `t`, of the probability that action
/// `a` leads from `s` to `t` times the value to be had after arriving in `t`.
pub open spec fn value_ahead(pomdp: &POMDP, s: int, a: int, children: Seq<Seq<int>>, n: nat) -> int
    decreases n,
{
    if n == 0 {
        0
    } else {
        value_ahead(pomdp, s, a, children, (n - 1) as nat) + pomdp.transition(s, a, n - 1)
            * value_after(pomdp, a, n - 1, children, pomdp.n_observations())
    }
}

/// The value in state `s` of taking action `a` and then following the
/// subplan for whatever is observed:
///
/// `reward(s, a) + gamma * sum_t transition(s, a, t) * sum_o observation(o, a, t) * child_o[t]`.
///
/// The sums are exact; the discounted total is rounded toward zero once.
pub open spec fn backup(pomdp: &POMDP, s: int, a: int, children: Seq<Seq<int>>) -> int {
    pomdp.reward(s, a) + quotient_toward_zero(
        pomdp.gamma * value_ahead(pomdp, s, a, children, pomdp.n_states()),
        SCALE_CUBED as int,
    )
}

/// `backup` for every state.
pub open spec fn backup_vector(pomdp: &POMDP, a: int, children: Seq<Seq<int>>) -> Seq<int> {
    Seq::new(pomdp.n_states(), |s: int| backup(pomdp, s, a, children))
}

/// The reward of action `a` in every state.
pub open spec fn reward_vector(pomdp: &POMDP, a: int) -> Seq<int> {
    Seq::new(pomdp.n_states(), |s: int| pomdp.reward(s, a))
}

/// The vectors that `choice` picks from `alphas`, one for each observation.
pub open spec fn chosen(alphas: Seq<Seq<int>>, choice: Seq<usize>) -> Seq<Seq<int>> {
    Seq::new(choice.len(), |o: int| alphas[choice[o] as int])
}

/// Every entry of `choice` is a position in a sequence of length `n`.
pub open spec fn picks_within(choice: Seq<usize>, n: nat) -> bool {
    forall|o: int| 0 <= o < choice.len() ==> #[trigger] choice[o] < n
}

/// The value after arriving in `t` is bounded by the observation mass times
/// the bound on the subplans' values.
pub proof fn lemma_value_after_bound(
    pomdp: &POMDP,
    a: int,
    t: int,
    children: Seq<Seq<int>>,
    n: nat,
    bound: int,
)
    requires
        n <= pomdp.n_observations(),
        forall|o: int| 0 <= o < pomdp.n_observations() ==> #[trigger] pomdp.observation(o, a, t) >= 0,
        all_bounded(children, bound),
        bound >= 0,
    ensures
        within(value_after(pomdp, a, t, children, n), pomdp.observation_mass(a, t, n) * bound),
    decreases n,
{
    if n > 0 {
        let m = (n - 1) as nat;
        lemma_value_after_bound(pomdp, a, t, children, m, bound);
        let w = pomdp.observation(n - 1, a, t);
        let x = child_value(children, n - 1, t);
        if 0 <= n - 1 < children.len() && 0 <= t < children[n - 1].len() {
            assert(bounded(children[n - 1], bound));
        }
        lemma_weighted_term(w, x, bound);
        assert((pomdp.observation_mass(a, t, m) + w) * bound == pomdp.observation_mass(a, t, m)
            * bound + w * bound) by (nonlinear_arith);
    }
}

/// Under a usable model the value after arriving in `t` is bounded by
/// `SCALE` times the bound on the subplans' values.
pub proof fn lemma_value_after_limit(
    pomdp: &POMDP,
    a: int,
    t: int,
    children: Seq<Seq<int>>,
    n: nat,
    bound: int,
)
    requires
        pomdp.wf(),
        0 <= a < pomdp.n_actions(),
        0 <= t < pomdp.n_states(),
        n <= pomdp.n_observations(),
        all_bounded(children, bound),
        bound >= 0,
    ensures
        within(value_after(pomdp, a, t, children, n), SCALE * bound),
{
    assert(pomdp.observations_substochastic(a, t));
    lemma_value_after_bound(pomdp, a, t, children, n, bound);
    pomdp.lemma_observation_mass_monotone(a, t, n, pomdp.n_observations());
    let mass = pomdp.observation_mass(a, t, n);
    assert(mass * bound <= SCALE * bound) by (nonlinear_arith)
        requires
            0 <= mass <= SCALE,
            bound >= 0,
    ;
}

/// The value ahead of `s` is bounded by the transition mass times `SCALE`
/// times the bound on the subplans' values.
pub proof fn lemma_value_ahead_bound(
    pomdp: &POMDP,
    s: int,
    a: int,
    children: Seq<Seq<int>>,
    n: nat,
    bound: int,
)
    requires
        pomdp.wf(),
        0 <= s < pomdp.n_states(),
        0 <= a < pomdp.n_actions(),
        n <= pomdp.n_states(),
        all_bounded(children, bound),
        bound >= 0,
    ensures
        within(
            value_ahead(pomdp, s, a, children, n),
            pomdp.transition_mass(s, a, n) * (SCALE * bound),
        ),
    decreases n,
{
    if n > 0 {
        let m = (n - 1) as nat;
        lemma_value_ahead_bound(pomdp, s, a, children, m, bound);
        assert(pomdp.transitions_substochastic(s, a));
        let w = pomdp.transition(s, a, n - 1);
        let x = value_after(pomdp, a, n - 1, children, pomdp.n_observations());
        lemma_value_after_limit(pomdp, a, n - 1, children, pomdp.n_observations(), bound);
        lemma_weighted_term(w, x, SCALE * bound);
        assert((pomdp.transition_mass(s, a, m) + w) * (SCALE * bound) == pomdp.transition_mass(
            s,
            a,
            m,
        ) * (SCALE * bound) + w * (SCALE * bound)) by (nonlinear_arith);
    }
}

/// Under a usable model the value ahead of `s` is bounded by `SCALE` squared
/// times the bound on the subplans' values.
pub proof fn lemma_value_ahead_limit(
    pomdp: &POMDP,
    s: int,
    a: int,
    children: Seq<Seq<int>>,
    n: nat,
    bound: int,
)
    requires
        pomdp.wf(),
        0 <= s < pomdp.n_states(),
        0 <= a < pomdp.n_actions(),
        n <= pomdp.n_states(),
        all_bounded(children, bound),
        bound >= 0,
    ensures
        within(value_ahead(pomdp, s, a, children, n), SCALE * SCALE * bound),
{
    assert(pomdp.transitions_substochastic(s, a));
    lemma_value_ahead_bound(pomdp, s, a, children, n, bound);
    pomdp.lemma_transition_mass_monotone(s, a, n, pomdp.n_states());
    let mass = pomdp.transition_mass(s, a, n);
    assert(mass * (SCALE * bound) <= SCALE * SCALE * bound) by (nonlinear_arith)
        requires
            0 <= mass <= SCALE,
            bound >= 0,
    ;
}

/// Under a usable model one more step adds at most one reward to the
/// magnitude of a value.
pub proof fn lemma_backup_bound(
    pomdp: &POMDP,
    s: int,
    a: int,
    children: Seq<Seq<int>>,
    bound: int,
)
    requires
        pomdp.wf(),
        0 <= s < pomdp.n_states(),
        0 <= a < pomdp.n_actions(),
        all_bounded(children, bound),
        bound >= 0,
    ensures
        within(backup(pomdp, s, a, children), REWARD_LIMIT + bound),
{
    let ahead = value_ahead(pomdp, s, a, children, pomdp.n_states());
    lemma_value_ahead_limit(pomdp, s, a, children, pomdp.n_states(), bound);
    lemma_weighted_term(pomdp.gamma as int, ahead, SCALE * SCALE * bound);
    let g = pomdp.gamma as int;
    assert(g * (SCALE * SCALE * bound) <= SCALE_CUBED * bound) by (nonlinear_arith)
        requires
            0 <= g <= SCALE,
            bound >= 0,
            SCALE == 1_000_000,
            SCALE_CUBED == 1_000_000_000_000_000_000,
    ;
    lemma_quotient_bound(g * ahead, SCALE_CUBED as int, bound);
    assert(pomdp.rewards_bounded(a));
}

/// The value of every plan that `choice` can pick is bounded as the values
/// in `alphas` are.
pub proof fn lemma_chosen_bounded(alphas: Seq<Seq<int>>, choice: Seq<usize>, bound: int)
    requires
        all_bounded(alphas, bound),
        picks_within(choice, alphas.len()),
    ensures
        all_bounded(chosen(alphas, choice), bound),
{
    assert forall|o: int| 0 <= o < choice.len() implies bounded(
        #[trigger] chosen(alphas, choice)[o],
        bound,
    ) by {
        assert(choice[o] < alphas.len());
        assert(bounded(alphas[choice[o] as int], bound));
    }
}

fn child_value_at(alphas: &Vec<Vec<i64>>, choice: &Vec<usize>, o: usize, t: usize) -> (x: i64)
    requires
        picks_within(choice@, alphas@.len()),
    ensures
        x == child_value(chosen(rows(alphas@), choice@), o as int, t as int),
{
    if o < choice.len() {
        let alpha = &alphas[choice[o]];
        if t < alpha.len() {
            return alpha[t];
        }
    }
    0
}

/// The value to be had after action `action` has led to each state.
fn values_after(pomdp: &POMDP, action: usize, alphas: &Vec<Vec<i64>>, choice: &Vec<usize>) -> (after:
    Vec<i128>)
    requires
        pomdp.wf(),
        action < pomdp.n_actions(),
        picks_within(choice@, alphas@.len()),
        all_bounded(rows(alphas@), VALUE_LIMIT as int),
    ensures
        after@.len() == pomdp.n_states(),
        forall|t: int|
            0 <= t < after@.len() ==> #[trigger] after@[t] == value_after(
                pomdp,
                action as int,
                t,
                chosen(rows(alphas@), choice@),
                pomdp.n_observations(),
            ),
{
    let n_states = pomdp.state_space.len();
    let n_observations = pomdp.observation_space.len();
    let ghost children = chosen(rows(alphas@), choice@);
    proof {
        lemma_chosen_bounded(rows(alphas@), choice@, VALUE_LIMIT as int);
    }
    let mut after: Vec<i128> = Vec::new();
    let mut t: usize = 0;
    while t < n_states
        invariant
            t <= n_states,
            n_states == pomdp.n_states(),
            n_observations == pomdp.n_observations(),
            pomdp.wf(),
            action < pomdp.n_actions(),
            picks_within(choice@, alphas@.len()),
            children == chosen(rows(alphas@), choice@),
            all_bounded(children, VALUE_LIMIT as int),
            after@.len() == t,
            forall|i: int|
                0 <= i < t ==> #[trigger] after@[i] == value_after(
                    pomdp,
                    action as int,
                    i,
                    children,
                    pomdp.n_observations(),
                ),
        decreases n_states - t,
    {
        let mut total: i128 = 0;
        let mut o: usize = 0;
        while o < n_observations
            invariant
                o <= n_observations,
                t < n_states,
                n_states == pomdp.n_states(),
                n_observations == pomdp.n_observations(),
                pomdp.wf(),
                action < pomdp.n_actions(),
                picks_within(choice@, alphas@.len()),
                children == chosen(rows(alphas@), choice@),
                all_bounded(children, VALUE_LIMIT as int),
                total == value_after(pomdp, action as int, t as int, children, o as nat),
            decreases n_observations - o,
        {
            let p = pomdp.observation_at(o, action, t);
            let x = child_value_at(alphas, choice, o, t);
            proof {
                lemma_value_after_limit(
                    pomdp,
                    action as int,
                    t as int,
                    children,
                    o as nat,
                    VALUE_LIMIT as int,
                );
                lemma_value_after_limit(
                    pomdp,
                    action as int,
                    t as int,
                    children,
                    (o + 1) as nat,
                    VALUE_LIMIT as int,
                );
                assert(pomdp.observations_substochastic(action as int, t as int));
                pomdp.lemma_observation_mass_monotone(
                    action as int,
                    t as int,
                    (o + 1) as nat,
                    n_observations as nat,
                );
                pomdp.lemma_observation_mass_monotone(
                    action as int,
                    t as int,
                    o as nat,
                    (o + 1) as nat,
                );
                assert(0 <= p <= SCALE);
                if 0 <= o < children.len() && 0 <= t < children[o as int].len() {
                    assert(bounded(children[o as int], VALUE_LIMIT as int));
                }
                lemma_weighted_term(p as int, x as int, VALUE_LIMIT as int);
                assert(p * VALUE_LIMIT <= SCALE * VALUE_LIMIT) by (nonlinear_arith)
                    requires
                        0 <= p <= SCALE,
                        VALUE_LIMIT >= 0,
                ;
            }
            total = total + (p as i128) * (x as i128);
            o += 1;
        }
        after.push(total);
        t += 1;
    }
    after
}

/// The alpha vector of the plan that takes `action` and then follows, on
/// observation `o`, the plan whose alpha vector is `alphas[choice[o]]`.
pub fn backup_alpha(pomdp: &POMDP, action: usize, alphas: &Vec<Vec<i64>>, choice: &Vec<usize>) -> (alpha:
    Vec<i64>)
    requires
        pomdp.wf(),
        action < pomdp.n_actions(),
        picks_within(choice@, alphas@.len()),
        all_bounded(rows(alphas@), VALUE_LIMIT - REWARD_LIMIT),
    ensures
        alpha@.len() == pomdp.n_states(),
        ints(alpha@) == backup_vector(pomdp, action as int, chosen(rows(alphas@), choice@)),
{
    let n_states = pomdp.state_space.len();
    let ghost children = chosen(rows(alphas@), choice@);
    let ghost bound = VALUE_LIMIT - REWARD_LIMIT;
    proof {
        lemma_chosen_bounded(rows(alphas@), choice@, bound);
        assert(all_bounded(rows(alphas@), VALUE_LIMIT as int)) by {
            assert forall|i: int| 0 <= i < rows(alphas@).len() implies bounded(
                #[trigger] rows(alphas@)[i],
                VALUE_LIMIT as int,
            ) by {
                assert(bounded(rows(alphas@)[i], bound));
            }
        }
    }
    let after = values_after(pomdp, action, alphas, choice);
    let mut alpha: Vec<i64> = Vec::new();
    let mut s: usize = 0;
    while s < n_states
        invariant
            s <= n_states,
            n_states == pomdp.n_states(),
            pomdp.wf(),
            action < pomdp.n_actions(),
            children == chosen(rows(alphas@), choice@),
            bound == VALUE_LIMIT - REWARD_LIMIT,
            all_bounded(children, bound),
            after@.len() == n_states,
            forall|t: int|
                0 <= t < after@.len() ==> #[trigger] after@[t] == value_after(
                    pomdp,
                    action as int,
                    t,
                    children,
                    pomdp.n_observations(),
                ),
            alpha@.len() == s,
            forall|i: int|
                0 <= i < s ==> #[trigger] alpha@[i] == backup(pomdp, i, action as int, children),
        decreases n_states - s,
    {
        let mut total: i128 = 0;
        let mut t: usize = 0;
        while t < n_states
            invariant
                t <= n_states,
                s < n_states,
                n_states == pomdp.n_states(),
                pomdp.wf(),
                action < pomdp.n_actions(),
                bound == VALUE_LIMIT - REWARD_LIMIT,
                all_bounded(children, bound),
                after@.len() == n_states,
                forall|t: int|
                    0 <= t < after@.len() ==> #[trigger] after@[t] == value_after(
                        pomdp,
                        action as int,
                        t,
                        children,
                        pomdp.n_observations(),
                    ),
                total == value_ahead(pomdp, s as int, action as int, children, t as nat),
            decreases n_states - t,
        {
            let p = pomdp.transition_at(s, action, t);
            let x = after[t];
            proof {
                lemma_value_ahead_limit(pomdp, s as int, action as int, children, t as nat, bound);
                lemma_value_ahead_limit(
                    pomdp,
                    s as int,
                    action as int,
                    children,
                    (t + 1) as nat,
                    bound,
                );
                lemma_value_after_limit(
                    pomdp,
                    action as int,
                    t as int,
                    children,
                    pomdp.n_observations(),
                    bound,
                );
                assert(pomdp.transitions_substochastic(s as int, action as int));
                pomdp.lemma_transition_mass_monotone(
                    s as int,
                    action as int,
                    (t + 1) as nat,
                    n_states as nat,
                );
                pomdp.lemma_transition_mass_monotone(
                    s as int,
                    action as int,
                    t as nat,
                    (t + 1) as nat,
                );
                assert(0 <= p <= SCALE);
                lemma_weighted_term(p as int, x as int, SCALE * bound);
                assert(p * (SCALE * bound) <= SCALE * (SCALE * bound)) by (nonlinear_arith)
                    requires
                        0 <= p <= SCALE,
                        SCALE * bound >= 0,
                ;
                assert(SCALE * (SCALE * bound) == SCALE * SCALE * bound) by (nonlinear_arith);
            }
            total = total + (p as i128) * x;
            t += 1;
        }
        proof {
            lemma_value_ahead_limit(
                pomdp,
                s as int,
                action as int,
                children,
                n_states as nat,
                bound,
            );
            lemma_weighted_term(pomdp.gamma as int, total as int, SCALE * SCALE * bound);
            let g = pomdp.gamma as int;
            assert(g * (SCALE * SCALE * bound) <= SCALE_CUBED * bound) by (nonlinear_arith)
                requires
                    0 <= g <= SCALE,
                    bound >= 0,
                    SCALE == 1_000_000,
                    SCALE_CUBED == 1_000_000_000_000_000_000,
            ;
            lemma_quotient_bound(g * total, SCALE_CUBED as int, bound);
            lemma_backup_bound(pomdp, s as int, action as int, children, bound);
            assert(pomdp.rewards_bounded(action as int));
        }
        let discounted = divide_toward_zero((pomdp.gamma as i128) * total, SCALE_CUBED as i128);
        let value = (pomdp.reward_at(s, action) as i128) + discounted;
        alpha.push(value as i64);
        s += 1;
    }
    proof {
        assert(ints(alpha@) =~= backup_vector(pomdp, action as int, children));
    }
    alpha
}

/// The alpha vector of the plan that takes `action` and stops.
pub fn reward_alpha(pomdp: &POMDP, action: usize) -> (alpha: Vec<i64>)
    ensures
        alpha@.len() == pomdp.n_states(),
        ints(alpha@) == reward_vector(pomdp, action as int),
{
    let n_states = pomdp.state_space.len();
    let mut alpha: Vec<i64> = Vec::new();
    let mut s: usize = 0;
    while s < n_states
        invariant
            s <= n_states,
            n_states == pomdp.n_states(),
            alpha@.len() == s,
            forall|i: int| 0 <= i < s ==> #[trigger] alpha@[i] == pomdp.reward(i, action as int),
        decreases n_states - s,
    {
        alpha.push(pomdp.reward_at(s, action));
        s += 1;
    }
    proof {
        assert(ints(alpha@) =~= reward_vector(pomdp, action as int));
    }
    alpha
}

} // verus!

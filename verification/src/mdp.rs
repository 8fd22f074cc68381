//! Fully observable Markov decision processes: one-step lookahead, policy
//! evaluation and policy iteration.
use crate::fixed::{
    bounded, divide_toward_zero, lemma_quotient_bound, lemma_weighted_term,
    quotient_toward_zero, within, DEPTH_LIMIT, REWARD_LIMIT, SCALE,
};
use crate::model::{table_entry, cube_entry};
use vstd::prelude::*;

verus! {

/// `SCALE` squared. The values of states are kept finer than the model's
/// numbers: they count units of `1 / SCALE_SQUARED`, so that sweep after
/// sweep loses little to rounding.
pub const SCALE_SQUARED: i64 = 1_000_000_000_000;

/// `REWARD_LIMIT` in the units of values.
pub const FINE_REWARD_LIMIT: i128 = 1_000_000_000_000_000_000;

/// Largest magnitude the value of a state can have, in the units of values:
/// `DEPTH_LIMIT` rewards.
pub const FINE_VALUE_LIMIT: i128 = 1_000_000_000_000_000_000_000_000;

/// The numbers of a vector of values as mathematical integers.
pub open spec fn wide(v: Seq<i128>) -> Seq<int> {
    Seq::new(v.len(), |i: int| v[i] as int)
}

/// A Markov decision process.
///
/// States and actions are known by their position in `s` and `a`; the
/// strings are their names. The numbers of the model are fixed-point, in
/// units of `1 / SCALE`; the values of states, which the functions of this
/// module take and give, are in units of `1 / SCALE_SQUARED`. `t[s][a][t]` is the probability that action `a` leads from
/// state `s` to state `t`, and `r[s][a]` is the reward for action `a` in
/// state `s`. An entry that a table does not hold counts as zero.
#[derive(Debug)]
pub struct MDP {
    pub gamma: i64,
    pub s: Vec<String>,
    pub a: Vec<String>,
    pub t: Vec<Vec<Vec<i64>>>,
    pub r: Vec<Vec<i64>>,
}

/// A policy under improvement: `pi[s]` is the action to take in state `s`,
/// and `k_max` the number of rounds of improvement.
#[derive(Debug)]
pub struct PolicyIteration {
    pub pi: Vec<usize>,
    pub k_max: u32,
}

/// Entry `i` of `values`, or zero where `values` does not reach.
pub open spec fn value_of(values: Seq<int>, i: int) -> int {
    if 0 <= i < values.len() {
        values[i]
    } else {
        0
    }
}

/// `n` zeros.
pub open spec fn zeros(n: nat) -> Seq<int> {
    Seq::new(n, |i: int| 0int)
}

impl Default for MDP {
    /// A model without states or actions, and without discount.
    fn default() -> (mdp: MDP)
        ensures
            mdp.gamma == SCALE,
            mdp.s@.len() == 0,
            mdp.a@.len() == 0,
            mdp.t@.len() == 0,
            mdp.r@.len() == 0,
            mdp.wf(),
    {
        MDP { gamma: SCALE, s: Vec::new(), a: Vec::new(), t: Vec::new(), r: Vec::new() }
    }
}

impl MDP {
    /// The number of states.
    pub open spec fn n_states(&self) -> nat {
        self.s@.len()
    }

    /// The number of actions.
    pub open spec fn n_actions(&self) -> nat {
        self.a@.len()
    }

    /// The reward for action `a` in state `s`.
    pub open spec fn reward(&self, s: int, a: int) -> int {
        table_entry(self.r@, s, a)
    }

    /// The probability that action `a` leads from state `s` to state `t`.
    pub open spec fn transition(&self, s: int, a: int, t: int) -> int {
        cube_entry(self.t@, s, a, t)
    }

    /// The probability that action `a` leads from state `s` to one of the
    /// first `n` states.
    pub open spec fn transition_mass(&self, s: int, a: int, n: nat) -> int
        decreases n,
    {
        if n == 0 {
            0
        } else {
            self.transition_mass(s, a, (n - 1) as nat) + self.transition(s, a, n - 1)
        }
    }

    /// The reward of `a` in `s` is within `REWARD_LIMIT`, and the
    /// transitions out of `s` under `a` are probabilities that add up to at
    /// most one.
    pub open spec fn pair_ok(&self, s: int, a: int) -> bool {
        &&& -REWARD_LIMIT <= self.reward(s, a) <= REWARD_LIMIT
        &&& forall|t: int| 0 <= t < self.n_states() ==> #[trigger] self.transition(s, a, t) >= 0
        &&& self.transition_mass(s, a, self.n_states()) <= SCALE
    }

    /// The model is usable: the discount lies between zero and one, rewards
    /// are within `REWARD_LIMIT`, and transition probabilities are
    /// non-negative and add up to at most one.
    pub open spec fn wf(&self) -> bool {
        &&& 0 <= self.gamma <= SCALE
        &&& forall|s: int, a: int|
            0 <= s < self.n_states() && 0 <= a < self.n_actions() ==> #[trigger] self.pair_ok(s, a)
    }

    /// The sum, over the first `n` states `t`, of the probability that
    /// action `a` leads from `s` to `t` times the value of `t`.
    pub open spec fn expected(&self, values: Seq<int>, s: int, a: int, n: nat) -> int
        decreases n,
    {
        if n == 0 {
            0
        } else {
            self.expected(values, s, a, (n - 1) as nat) + self.transition(s, a, n - 1) * value_of(
                values,
                n - 1,
            )
        }
    }

    /// The value of taking action `a` in state `s` when the states are worth
    /// `values`: `reward(s, a) + gamma * sum_t transition(s, a, t) * values[t]`,
    /// in the units of values. The sum is exact; the discounted sum is rounded
    /// toward zero to a unit of values.
    pub open spec fn lookahead_value(&self, values: Seq<int>, s: int, a: int) -> int {
        self.reward(s, a) * SCALE + quotient_toward_zero(
            self.gamma * self.expected(values, s, a, self.n_states()),
            SCALE_SQUARED as int,
        )
    }

    /// The values after the states before `k` have, one after the other,
    /// been given the value of their action under `pi`; each update sees the
    /// updates before it.
    pub open spec fn evaluated(&self, pi: Seq<usize>, values: Seq<int>, k: nat) -> Seq<int>
        decreases k,
    {
        if k == 0 {
            values
        } else {
            let before = self.evaluated(pi, values, (k - 1) as nat);
            before.update(k - 1, self.lookahead_value(before, k - 1, pi[k - 1] as int))
        }
    }

    /// Among the first `n` actions, the one that is worth most in state `s`
    /// when the states are worth `values`; the lowest such if several are.
    pub open spec fn best_action(&self, values: Seq<int>, s: int, n: nat) -> int
        decreases n,
    {
        if n <= 1 {
            0
        } else {
            let before = self.best_action(values, s, (n - 1) as nat);
            if self.lookahead_value(values, s, n - 1) > self.lookahead_value(values, s, before) {
                n - 1
            } else {
                before
            }
        }
    }

    /// The values after the states before `k` have, one after the other,
    /// been given the value of their best action; each update sees the
    /// updates before it.
    pub open spec fn improved(&self, values: Seq<int>, k: nat) -> Seq<int>
        decreases k,
    {
        if k == 0 {
            values
        } else {
            let before = self.improved(values, (k - 1) as nat);
            before.update(
                k - 1,
                self.lookahead_value(
                    before,
                    k - 1,
                    self.best_action(before, k - 1, self.n_actions()),
                ),
            )
        }
    }

    /// The best action of each state before `k`, as `improved` picks them.
    pub open spec fn greedy(&self, values: Seq<int>, k: nat) -> Seq<usize> {
        Seq::new(
            k,
            |s: int| self.best_action(self.improved(values, s as nat), s, self.n_actions()) as usize,
        )
    }

    /// The values after `rounds` rounds of policy iteration from the policy
    /// `pi`. A round evaluates `pi` once over all states and then improves
    /// once over all states. All values start at zero.
    pub open spec fn values_after(&self, pi: Seq<usize>, rounds: nat) -> Seq<int>
        decreases rounds,
    {
        if rounds == 0 {
            zeros(self.n_states())
        } else {
            self.improved(
                self.evaluated(pi, self.values_after(pi, (rounds - 1) as nat), self.n_states()),
                self.n_states(),
            )
        }
    }

    /// The policy after `rounds` rounds of policy iteration from the policy
    /// `pi`: the best actions that the last round picked. Without a round
    /// there is none.
    pub open spec fn policy_after(&self, pi: Seq<usize>, rounds: nat) -> Seq<usize> {
        if rounds == 0 {
            Seq::empty()
        } else {
            self.greedy(
                self.evaluated(pi, self.values_after(pi, (rounds - 1) as nat), self.n_states()),
                self.n_states(),
            )
        }
    }

    /// The values after `rounds` sweeps that evaluate the one action `pi` in
    /// every state.
    pub open spec fn swept(&self, pi: usize, values: Seq<int>, rounds: nat) -> Seq<int>
        decreases rounds,
    {
        if rounds == 0 {
            values
        } else {
            self.evaluated(
                Seq::new(self.n_states(), |s: int| pi),
                self.swept(pi, values, (rounds - 1) as nat),
                self.n_states(),
            )
        }
    }

    /// With non-negative entries the transition mass never decreases.
    pub proof fn lemma_transition_mass_monotone(&self, s: int, a: int, k: nat, n: nat)
        requires
            k <= n <= self.n_states(),
            forall|t: int| 0 <= t < self.n_states() ==> #[trigger] self.transition(s, a, t) >= 0,
        ensures
            0 <= self.transition_mass(s, a, k) <= self.transition_mass(s, a, n),
        decreases n,
    {
        if n == 0 {
        } else if k == n {
            self.lemma_transition_mass_monotone(s, a, (k - 1) as nat, (n - 1) as nat);
        } else {
            self.lemma_transition_mass_monotone(s, a, k, (n - 1) as nat);
        }
    }

    /// The expected value is bounded by `SCALE` times the bound on the values.
    pub proof fn lemma_expected_bound(&self, values: Seq<int>, s: int, a: int, n: nat, bound: int)
        requires
            self.wf(),
            0 <= s < self.n_states(),
            0 <= a < self.n_actions(),
            n <= self.n_states(),
            bounded(values, bound),
            bound >= 0,
        ensures
            within(
                self.expected(values, s, a, n),
                self.transition_mass(s, a, n) * bound,
            ),
            within(self.expected(values, s, a, n), SCALE * bound),
        decreases n,
    {
        assert(self.pair_ok(s, a));
        if n > 0 {
            let m = (n - 1) as nat;
            self.lemma_expected_bound(values, s, a, m, bound);
            let w = self.transition(s, a, n - 1);
            let x = value_of(values, n - 1);
            lemma_weighted_term(w, x, bound);
            assert((self.transition_mass(s, a, m) + w) * bound == self.transition_mass(s, a, m)
                * bound + w * bound) by (nonlinear_arith);
        }
        self.lemma_transition_mass_monotone(s, a, n, self.n_states());
        let mass = self.transition_mass(s, a, n);
        assert(mass * bound <= SCALE * bound) by (nonlinear_arith)
            requires
                0 <= mass <= SCALE,
                bound >= 0,
        ;
    }

    /// One step of lookahead adds at most one reward to the magnitude of the
    /// values.
    pub proof fn lemma_lookahead_bound(&self, values: Seq<int>, s: int, a: int, bound: int)
        requires
            self.wf(),
            0 <= s < self.n_states(),
            0 <= a < self.n_actions(),
            bounded(values, bound),
            bound >= 0,
        ensures
            within(self.lookahead_value(values, s, a), FINE_REWARD_LIMIT + bound),
    {
        let expected = self.expected(values, s, a, self.n_states());
        self.lemma_expected_bound(values, s, a, self.n_states(), bound);
        let g = self.gamma as int;
        lemma_weighted_term(g, expected, SCALE * bound);
        assert(g * (SCALE * bound) <= SCALE_SQUARED * bound) by (nonlinear_arith)
            requires
                0 <= g <= SCALE,
                bound >= 0,
                SCALE == 1_000_000,
                SCALE_SQUARED == 1_000_000_000_000,
        ;
        lemma_quotient_bound(g * expected, SCALE_SQUARED as int, bound);
        assert(self.pair_ok(s, a));
    }

    /// The reward for action `a` in state `s`.
    pub fn reward_at(&self, s: usize, a: usize) -> (r: i64)
        ensures
            r == self.reward(s as int, a as int),
    {
        if s < self.r.len() {
            let row = &self.r[s];
            if a < row.len() {
                return row[a];
            }
        }
        0
    }

    /// The probability that action `a` leads from state `s` to state `t`.
    pub fn transition_at(&self, s: usize, a: usize, t: usize) -> (r: i64)
        ensures
            r == self.transition(s as int, a as int, t as int),
    {
        if s < self.t.len() {
            let plane = &self.t[s];
            if a < plane.len() {
                let row = &plane[a];
                if t < row.len() {
                    return row[t];
                }
            }
        }
        0
    }

    fn check_pair(&self, s: usize, a: usize) -> (ok: bool)
        ensures
            ok == self.pair_ok(s as int, a as int),
    {
        let r = self.reward_at(s, a);
        if r < -REWARD_LIMIT || r > REWARD_LIMIT {
            return false;
        }
        let n = self.s.len();
        let mut total: i64 = 0;
        let mut t: usize = 0;
        while t < n
            invariant
                t <= n,
                n == self.n_states(),
                forall|i: int| 0 <= i < t ==> #[trigger] self.transition(s as int, a as int, i) >= 0,
                total == self.transition_mass(s as int, a as int, t as nat),
                0 <= total <= SCALE,
            decreases n - t,
        {
            let p = self.transition_at(s, a, t);
            if p < 0 {
                return false;
            }
            if p > SCALE - total {
                proof {
                    if self.pair_ok(s as int, a as int) {
                        self.lemma_transition_mass_monotone(
                            s as int,
                            a as int,
                            (t + 1) as nat,
                            n as nat,
                        );
                    }
                }
                return false;
            }
            total = total + p;
            t += 1;
        }
        true
    }

    /// Tells whether the model is usable.
    pub fn is_valid(&self) -> (ok: bool)
        ensures
            ok == self.wf(),
    {
        if self.gamma < 0 || self.gamma > SCALE {
            return false;
        }
        let n_states = self.s.len();
        let n_actions = self.a.len();
        let mut s: usize = 0;
        while s < n_states
            invariant
                s <= n_states,
                n_states == self.n_states(),
                n_actions == self.n_actions(),
                forall|i: int, j: int|
                    0 <= i < s && 0 <= j < n_actions ==> #[trigger] self.pair_ok(i, j),
            decreases n_states - s,
        {
            let mut a: usize = 0;
            while a < n_actions
                invariant
                    a <= n_actions,
                    s < n_states,
                    n_states == self.n_states(),
                    n_actions == self.n_actions(),
                    forall|j: int| 0 <= j < a ==> #[trigger] self.pair_ok(s as int, j),
                decreases n_actions - a,
            {
                if !self.check_pair(s, a) {
                    return false;
                }
                a += 1;
            }
            s += 1;
        }
        true
    }

    /// The value of taking `action` in `state` when the states are worth
    /// `values`.
    pub fn lookahead(&self, values: &Vec<i128>, state: usize, action: usize) -> (value: i128)
        requires
            self.wf(),
            state < self.n_states(),
            action < self.n_actions(),
            bounded(wide(values@), FINE_VALUE_LIMIT - FINE_REWARD_LIMIT),
        ensures
            value == self.lookahead_value(wide(values@), state as int, action as int),
    {
        let n = self.s.len();
        let ghost worth = wide(values@);
        let ghost bound = FINE_VALUE_LIMIT - FINE_REWARD_LIMIT;
        let mut sum: i128 = 0;
        let mut t: usize = 0;
        while t < n
            invariant
                t <= n,
                n == self.n_states(),
                self.wf(),
                state < self.n_states(),
                action < self.n_actions(),
                worth == wide(values@),
                bound == FINE_VALUE_LIMIT - FINE_REWARD_LIMIT,
                bounded(worth, bound),
                sum == self.expected(worth, state as int, action as int, t as nat),
            decreases n - t,
        {
            let p = self.transition_at(state, action, t);
            let x: i128 = if t < values.len() {
                values[t]
            } else {
                0
            };
            proof {
                assert(x == value_of(worth, t as int));
                self.lemma_expected_bound(worth, state as int, action as int, t as nat, bound);
                self.lemma_expected_bound(worth, state as int, action as int, (t + 1) as nat, bound);
                assert(self.pair_ok(state as int, action as int));
                self.lemma_transition_mass_monotone(
                    state as int,
                    action as int,
                    (t + 1) as nat,
                    n as nat,
                );
                self.lemma_transition_mass_monotone(
                    state as int,
                    action as int,
                    t as nat,
                    (t + 1) as nat,
                );
                assert(0 <= p <= SCALE);
                lemma_weighted_term(p as int, x as int, bound);
                assert(p * bound <= SCALE * bound) by (nonlinear_arith)
                    requires
                        0 <= p <= SCALE,
                        bound >= 0,
                ;
            }
            sum = sum + (p as i128) * x;
            t += 1;
        }
        proof {
            self.lemma_expected_bound(worth, state as int, action as int, n as nat, bound);
            let g = self.gamma as int;
            lemma_weighted_term(g, sum as int, SCALE * bound);
            assert(g * (SCALE * bound) <= SCALE_SQUARED * bound) by (nonlinear_arith)
                requires
                    0 <= g <= SCALE,
                    bound >= 0,
                    SCALE == 1_000_000,
                    SCALE_SQUARED == 1_000_000_000_000,
            ;
            lemma_quotient_bound(g * sum, SCALE_SQUARED as int, bound);
            assert(self.pair_ok(state as int, action as int));
        }
        let discounted = divide_toward_zero((self.gamma as i128) * sum, SCALE_SQUARED as i128);
        (self.reward_at(state, action) as i128) * (SCALE as i128) + discounted
    }
}

/// The action that is worth most in `state` when the states are worth `u`,
/// the lowest such if several are, and what it is worth.
pub fn findmax(mdp: &MDP, u: &Vec<i128>, state: usize) -> (best: (usize, i128))
    requires
        mdp.wf(),
        state < mdp.n_states(),
        mdp.n_actions() > 0,
        bounded(wide(u@), FINE_VALUE_LIMIT - FINE_REWARD_LIMIT),
    ensures
        best.0 == mdp.best_action(wide(u@), state as int, mdp.n_actions()),
        best.0 < mdp.n_actions(),
        best.1 == mdp.lookahead_value(wide(u@), state as int, best.0 as int),
{
    let n = mdp.a.len();
    let mut best_item: usize = 0;
    let mut best: i128 = mdp.lookahead(u, state, 0);
    let mut a: usize = 1;
    while a < n
        invariant
            1 <= a <= n,
            n == mdp.n_actions(),
            mdp.wf(),
            state < mdp.n_states(),
            bounded(wide(u@), FINE_VALUE_LIMIT - FINE_REWARD_LIMIT),
            best_item == mdp.best_action(wide(u@), state as int, a as nat),
            best_item < a,
            best == mdp.lookahead_value(wide(u@), state as int, best_item as int),
        decreases n - a,
    {
        let result = mdp.lookahead(u, state, a);
        if result > best {
            best = result;
            best_item = a;
        }
        a += 1;
    }
    (best_item, best)
}

/// Gives `state` the value of its best action, in `u`, and hands back that
/// action.
pub fn greedy_findmax(mdp: &MDP, u: &mut Vec<i128>, state: usize) -> (best: usize)
    requires
        mdp.wf(),
        state < mdp.n_states(),
        mdp.n_actions() > 0,
        old(u)@.len() == mdp.n_states(),
        bounded(wide(old(u)@), FINE_VALUE_LIMIT - FINE_REWARD_LIMIT),
    ensures
        best == mdp.best_action(wide(old(u)@), state as int, mdp.n_actions()),
        best < mdp.n_actions(),
        final(u)@.len() == old(u)@.len(),
        wide(final(u)@) == wide(old(u)@).update(
            state as int,
            mdp.lookahead_value(wide(old(u)@), state as int, best as int),
        ),
{
    let maximize = findmax(mdp, u, state);
    let ghost before = wide(u@);
    u.set(state, maximize.1);
    assert(wide(u@) =~= before.update(state as int, maximize.1 as int));
    maximize.0
}

/// Updating one value to within the bound plus one reward leaves the values within
/// the bound plus one reward.
pub proof fn lemma_update_bounded(values: Seq<int>, i: int, x: int, bound: int)
    requires
        bounded(values, bound),
        within(x, bound + FINE_REWARD_LIMIT),
        0 <= i < values.len(),
    ensures
        bounded(values.update(i, x), bound + FINE_REWARD_LIMIT),
{
    assert forall|j: int| 0 <= j < values.len() implies within(
        #[trigger] values.update(i, x)[j],
        bound + FINE_REWARD_LIMIT,
    ) by {
        if j != i {
            assert(within(values[j], bound));
        }
    }
}

/// A number of rewards within `DEPTH_LIMIT` is within `FINE_VALUE_LIMIT`.
pub proof fn lemma_steps_bound(steps: nat)
    requires
        steps <= DEPTH_LIMIT,
    ensures
        0 <= steps * FINE_REWARD_LIMIT <= FINE_VALUE_LIMIT,
{
    assert(0 <= steps * FINE_REWARD_LIMIT <= FINE_VALUE_LIMIT) by (nonlinear_arith)
        requires
            0 <= steps <= 1_000_000,
            FINE_REWARD_LIMIT == 1_000_000_000_000_000_000,
            FINE_VALUE_LIMIT == 1_000_000_000_000_000_000_000_000,
    ;
}

/// Values within a bound are within every larger bound.
pub proof fn lemma_bounded_weaken(values: Seq<int>, bound: int, larger: int)
    requires
        bounded(values, bound),
        bound <= larger,
    ensures
        bounded(values, larger),
{
    assert forall|j: int| 0 <= j < values.len() implies within(#[trigger] values[j], larger) by {
        assert(within(values[j], bound));
    }
}

/// One sweep of policy evaluation: gives each state, one after the other,
/// the value of its action under `pi`. The values are within `bound` before.
fn evaluation_sweep(mdp: &MDP, pi: &Vec<usize>, u: &mut Vec<i128>, Ghost(bound): Ghost<int>)
    requires
        mdp.wf(),
        pi@.len() == mdp.n_states(),
        forall|s: int| 0 <= s < pi@.len() ==> #[trigger] pi@[s] < mdp.n_actions(),
        old(u)@.len() == mdp.n_states(),
        bound >= 0,
        bound + mdp.n_states() * FINE_REWARD_LIMIT <= FINE_VALUE_LIMIT,
        bounded(wide(old(u)@), bound),
    ensures
        final(u)@.len() == mdp.n_states(),
        wide(final(u)@) == mdp.evaluated(pi@, wide(old(u)@), mdp.n_states()),
        bounded(wide(final(u)@), bound + mdp.n_states() * FINE_REWARD_LIMIT),
{
    let n = mdp.s.len();
    let ghost start = wide(u@);
    let mut state: usize = 0;
    proof {
        assert(0 * FINE_REWARD_LIMIT == 0) by (nonlinear_arith);
    }
    while state < n
        invariant
            state <= n,
            n == mdp.n_states(),
            mdp.wf(),
            pi@.len() == n,
            forall|s: int| 0 <= s < pi@.len() ==> #[trigger] pi@[s] < mdp.n_actions(),
            u@.len() == n,
            bound >= 0,
            bound + n * FINE_REWARD_LIMIT <= FINE_VALUE_LIMIT,
            wide(u@) == mdp.evaluated(pi@, start, state as nat),
            bounded(wide(u@), bound + state * FINE_REWARD_LIMIT),
        decreases n - state,
    {
        let ghost before = wide(u@);
        let ghost now = bound + state * FINE_REWARD_LIMIT;
        proof {
            assert(now >= 0 && now + FINE_REWARD_LIMIT == bound + (state + 1) * FINE_REWARD_LIMIT && now
                + FINE_REWARD_LIMIT <= bound + n * FINE_REWARD_LIMIT) by (nonlinear_arith)
                requires
                    now == bound + state * FINE_REWARD_LIMIT,
                    bound >= 0,
                    0 <= state < n,
                    FINE_REWARD_LIMIT >= 0,
            ;
            lemma_bounded_weaken(before, now, FINE_VALUE_LIMIT - FINE_REWARD_LIMIT);
            mdp.lemma_lookahead_bound(before, state as int, pi@[state as int] as int, now);
        }
        let value = mdp.lookahead(u, state, pi[state]);
        u.set(state, value);
        proof {
            assert(wide(u@) =~= before.update(state as int, value as int));
            lemma_update_bounded(before, state as int, value as int, now);
        }
        state += 1;
    }
}

/// One sweep of policy evaluation: hands back `u` after each state has, one
/// after the other, been given the value of its action under `pi`.
pub fn policy_evaluation(mdp: &MDP, pi: &Vec<usize>, u: Vec<i128>) -> (values: Vec<i128>)
    requires
        mdp.wf(),
        pi@.len() == mdp.n_states(),
        forall|s: int| 0 <= s < pi@.len() ==> #[trigger] pi@[s] < mdp.n_actions(),
        u@.len() == mdp.n_states(),
        bounded(wide(u@), FINE_VALUE_LIMIT - mdp.n_states() * FINE_REWARD_LIMIT),
    ensures
        wide(values@) == mdp.evaluated(pi@, wide(u@), mdp.n_states()),
{
    let mut u = u;
    if mdp.s.len() == 0 {
        return u;
    }
    let ghost bound = FINE_VALUE_LIMIT - mdp.n_states() * FINE_REWARD_LIMIT;
    proof {
        assert(within(wide(u@)[0], bound));
    }
    evaluation_sweep(mdp, pi, &mut u, Ghost(bound));
    u
}

/// Evaluates the policy that takes the action `pi` in every state: `k_max`
/// sweeps that give each state, one after the other, the value of `pi`. An
/// empty `u` stands for all values zero.
pub fn iterative_policy_evaluation(mdp: &MDP, pi: usize, k_max: u32, u: Vec<i128>) -> (values: Vec<
    i128,
>)
    requires
        mdp.wf(),
        pi < mdp.n_actions(),
        u@.len() == 0 || u@.len() == mdp.n_states(),
        k_max * mdp.n_states() <= DEPTH_LIMIT,
        bounded(wide(u@), FINE_VALUE_LIMIT - k_max * mdp.n_states() * FINE_REWARD_LIMIT),
    ensures
        wide(values@) == mdp.swept(
            pi,
            if u@.len() == 0 {
                zeros(mdp.n_states())
            } else {
                wide(u@)
            },
            k_max as nat,
        ),
{
    let n = mdp.s.len();
    let mut u = u;
    let ghost room = k_max * n * FINE_REWARD_LIMIT;
    proof {
        lemma_steps_bound((k_max * n) as nat);
    }
    if u.len() == 0 {
        let mut i: usize = 0;
        while i < n
            invariant
                i <= n,
                u@.len() == i,
                forall|j: int| 0 <= j < i ==> #[trigger] u@[j] == 0,
            decreases n - i,
        {
            u.push(0);
            i += 1;
        }
        assert(wide(u@) =~= zeros(n as nat));
    }
    let ghost start = wide(u@);
    let mut policy: Vec<usize> = Vec::new();
    let mut i: usize = 0;
    while i < n
        invariant
            i <= n,
            policy@.len() == i,
            forall|j: int| 0 <= j < i ==> #[trigger] policy@[j] == pi,
        decreases n - i,
    {
        policy.push(pi);
        i += 1;
    }
    assert(policy@ =~= Seq::new(n as nat, |s: int| pi));
    let mut round: u32 = 0;
    proof {
        assert(0 * n * FINE_REWARD_LIMIT == 0) by (nonlinear_arith);
    }
    while round < k_max
        invariant
            round <= k_max,
            n == mdp.n_states(),
            mdp.wf(),
            pi < mdp.n_actions(),
            policy@ == Seq::new(n as nat, |s: int| pi),
            u@.len() == n,
            room == k_max * n * FINE_REWARD_LIMIT,
            0 <= room <= FINE_VALUE_LIMIT,
            wide(u@) == mdp.swept(pi, start, round as nat),
            bounded(wide(u@), FINE_VALUE_LIMIT - room + round * n * FINE_REWARD_LIMIT),
        decreases k_max - round,
    {
        let ghost bound = FINE_VALUE_LIMIT - room + round * n * FINE_REWARD_LIMIT;
        proof {
            assert(bound >= 0 && bound + n * FINE_REWARD_LIMIT == FINE_VALUE_LIMIT - room + (round + 1) * n
                * FINE_REWARD_LIMIT && bound + n * FINE_REWARD_LIMIT <= FINE_VALUE_LIMIT) by (nonlinear_arith)
                requires
                    bound == FINE_VALUE_LIMIT - room + round * n * FINE_REWARD_LIMIT,
                    room == k_max * n * FINE_REWARD_LIMIT,
                    0 <= room <= FINE_VALUE_LIMIT,
                    0 <= round < k_max,
                    n >= 0,
                    FINE_REWARD_LIMIT >= 0,
            ;
        }
        evaluation_sweep(mdp, &policy, &mut u, Ghost(bound));
        round += 1;
    }
    u
}

/// The policy `pi` after `initialize`: the first `n` entries are `default`,
/// and entries behind them stay as they were.
pub open spec fn initialized(pi: Seq<usize>, n: nat, default: usize) -> Seq<usize> {
    Seq::new(
        if pi.len() > n {
            pi.len()
        } else {
            n
        },
        |s: int|
            if s < n {
                default
            } else {
                pi[s]
            },
    )
}

impl PolicyIteration {
    /// Makes the policy take the action `default` in every state of `mdp`.
    /// Entries of the policy that belong to no state of `mdp` stay as they
    /// are.
    pub fn initialize(&mut self, mdp: &MDP, default: usize)
        ensures
            final(self).pi@ == initialized(old(self).pi@, mdp.n_states(), default),
            final(self).k_max == old(self).k_max,
    {
        let n = mdp.s.len();
        let ghost before = self.pi@;
        let mut state: usize = 0;
        while state < n
            invariant
                state <= n,
                n == mdp.n_states(),
                self.k_max == old(self).k_max,
                before == old(self).pi@,
                self.pi@.len() == if before.len() > state {
                    before.len()
                } else {
                    state as nat
                },
                forall|j: int| 0 <= j < state ==> #[trigger] self.pi@[j] == default,
                forall|j: int| state <= j < before.len() ==> #[trigger] self.pi@[j] == before[j],
            decreases n - state,
        {
            if state < self.pi.len() {
                self.pi.set(state, default);
            } else {
                self.pi.push(default);
            }
            state += 1;
        }
        assert(self.pi@ =~= initialized(before, n as nat, default));
    }
}

/// Policy iteration. Makes `m.k_max` rounds; each round evaluates the
/// policy that `m` came with once over all states and then gives every
/// state its best action. The policy of `m` becomes the best actions that
/// the last round picked; without a round it becomes empty.
pub fn policy_iteration(mdp: &MDP, m: &mut PolicyIteration)
    requires
        mdp.wf(),
        mdp.n_actions() > 0,
        old(m).pi@.len() == mdp.n_states(),
        forall|s: int| 0 <= s < old(m).pi@.len() ==> #[trigger] old(m).pi@[s] < mdp.n_actions(),
        2 * old(m).k_max * mdp.n_states() <= DEPTH_LIMIT,
    ensures
        final(m).pi@ == mdp.policy_after(old(m).pi@, old(m).k_max as nat),
        final(m).k_max == old(m).k_max,
{
    let n = mdp.s.len();
    let k_max = m.k_max;
    let mut u: Vec<i128> = Vec::new();
    let mut i: usize = 0;
    while i < n
        invariant
            i <= n,
            u@.len() == i,
            forall|j: int| 0 <= j < i ==> #[trigger] u@[j] == 0,
        decreases n - i,
    {
        u.push(0);
        i += 1;
    }
    let mut new_policy: Vec<usize> = Vec::new();
    let mut round: u32 = 0;
    let ghost sweep = n * FINE_REWARD_LIMIT;
    proof {
        assert(wide(u@) =~= zeros(n as nat));
        assert(new_policy@ =~= mdp.policy_after(m.pi@, 0));
        assert(2 * 0 * sweep == 0) by (nonlinear_arith);
        lemma_steps_bound((2 * k_max * n) as nat);
        assert(2 * k_max * n * FINE_REWARD_LIMIT == 2 * k_max * sweep) by (nonlinear_arith)
            requires
                sweep == n * FINE_REWARD_LIMIT,
        ;
        assert(sweep >= 0) by (nonlinear_arith)
            requires
                sweep == n * FINE_REWARD_LIMIT,
                n >= 0,
                FINE_REWARD_LIMIT >= 0,
        ;
    }
    while round < k_max
        invariant
            round <= k_max,
            n == mdp.n_states(),
            mdp.wf(),
            mdp.n_actions() > 0,
            m.pi@ == old(m).pi@,
            m.k_max == k_max,
            m.pi@.len() == n,
            forall|s: int| 0 <= s < m.pi@.len() ==> #[trigger] m.pi@[s] < mdp.n_actions(),
            sweep == n * FINE_REWARD_LIMIT,
            sweep >= 0,
            2 * k_max * sweep <= FINE_VALUE_LIMIT,
            u@.len() == n,
            wide(u@) == mdp.values_after(m.pi@, round as nat),
            new_policy@ == mdp.policy_after(m.pi@, round as nat),
            bounded(wide(u@), 2 * round * sweep),
        decreases k_max - round,
    {
        let ghost done = 2 * round * sweep;
        proof {
            assert(done >= 0 && done + 2 * sweep == 2 * (round + 1) * sweep && done + 2 * sweep
                <= 2 * k_max * sweep) by (nonlinear_arith)
                requires
                    done == 2 * round * sweep,
                    0 <= round < k_max,
                    sweep >= 0,
            ;
        }
        evaluation_sweep(mdp, &m.pi, &mut u, Ghost(done));
        let ghost middle = wide(u@);
        new_policy = Vec::new();
        let mut state: usize = 0;
        proof {
            assert(0 * FINE_REWARD_LIMIT == 0) by (nonlinear_arith);
        }
        while state < n
            invariant
                state <= n,
                n == mdp.n_states(),
                mdp.wf(),
                mdp.n_actions() > 0,
                u@.len() == n,
                sweep == n * FINE_REWARD_LIMIT,
                done >= 0,
                done + 2 * sweep <= FINE_VALUE_LIMIT,
                wide(u@) == mdp.improved(middle, state as nat),
                new_policy@ == mdp.greedy(middle, state as nat),
                bounded(wide(u@), done + sweep + state * FINE_REWARD_LIMIT),
            decreases n - state,
        {
            let ghost before = wide(u@);
            let ghost now = done + sweep + state * FINE_REWARD_LIMIT;
            proof {
                assert(now >= 0 && now + FINE_REWARD_LIMIT == done + sweep + (state + 1) * FINE_REWARD_LIMIT
                    && now + FINE_REWARD_LIMIT <= done + 2 * sweep) by (nonlinear_arith)
                    requires
                        now == done + sweep + state * FINE_REWARD_LIMIT,
                        sweep == n * FINE_REWARD_LIMIT,
                        done >= 0,
                        0 <= state < n,
                        FINE_REWARD_LIMIT >= 0,
                ;
                lemma_bounded_weaken(before, now, FINE_VALUE_LIMIT - FINE_REWARD_LIMIT);
            }
            let best = greedy_findmax(mdp, &mut u, state);
            new_policy.push(best);
            proof {
                mdp.lemma_lookahead_bound(before, state as int, best as int, now);
                lemma_update_bounded(
                    before,
                    state as int,
                    mdp.lookahead_value(before, state as int, best as int),
                    now,
                );
                assert(new_policy@ =~= mdp.greedy(middle, (state + 1) as nat));
            }
            state += 1;
        }
        round += 1;
    }
    m.pi = new_policy;
}

} // verus!

//! The description of a partially observable Markov decision process.
use crate::fixed::{REWARD_LIMIT, SCALE};
use vstd::prelude::*;

verus! {

/// A partially observable Markov decision process.
///
/// States, actions and observations are known by their position in
/// `state_space`, `action_space` and `observation_space`; the strings are
/// their names. All numbers are fixed-point, in units of `1 / SCALE`.
///
/// * `transition_function[s][a][t]` is the probability that action `a` leads
///   from state `s` to state `t`;
/// * `reward_function[s][a]` is the reward for action `a` in state `s`;
/// * `observation_function[o][a][t]` is the probability of observing `o`
///   after action `a` has led to state `t`.
///
/// An entry that a table does not hold counts as zero.
#[derive(Debug)]
pub struct POMDP {
    pub gamma: i64,
    pub state_space: Vec<String>,
    pub action_space: Vec<String>,
    pub observation_space: Vec<String>,
    pub transition_function: Vec<Vec<Vec<i64>>>,
    pub reward_function: Vec<Vec<i64>>,
    pub observation_function: Vec<Vec<Vec<i64>>>,
}

/// The entry `table[i][j][k]`, or zero where the table does not reach.
pub open spec fn cube_entry(table: Seq<Vec<Vec<i64>>>, i: int, j: int, k: int) -> int {
    if 0 <= i < table.len() && 0 <= j < table[i]@.len() && 0 <= k < table[i]@[j]@.len() {
        table[i]@[j]@[k] as int
    } else {
        0
    }
}

/// The entry `table[i][j]`, or zero where the table does not reach.
pub open spec fn table_entry(table: Seq<Vec<i64>>, i: int, j: int) -> int {
    if 0 <= i < table.len() && 0 <= j < table[i]@.len() {
        table[i]@[j] as int
    } else {
        0
    }
}

fn read_cube(table: &Vec<Vec<Vec<i64>>>, i: usize, j: usize, k: usize) -> (r: i64)
    ensures
        r == cube_entry(table@, i as int, j as int, k as int),
{
    if i < table.len() {
        let plane = &table[i];
        if j < plane.len() {
            let row = &plane[j];
            if k < row.len() {
                return row[k];
            }
        }
    }
    0
}

fn read_table(table: &Vec<Vec<i64>>, i: usize, j: usize) -> (r: i64)
    ensures
        r == table_entry(table@, i as int, j as int),
{
    if i < table.len() {
        let row = &table[i];
        if j < row.len() {
            return row[j];
        }
    }
    0
}

impl Default for POMDP {
    /// A model without states, actions or observations, and without discount.
    fn default() -> (pomdp: POMDP)
        ensures
            pomdp.gamma == SCALE,
            pomdp.state_space@.len() == 0,
            pomdp.action_space@.len() == 0,
            pomdp.observation_space@.len() == 0,
            pomdp.transition_function@.len() == 0,
            pomdp.reward_function@.len() == 0,
            pomdp.observation_function@.len() == 0,
            pomdp.wf(),
    {
        POMDP {
            gamma: SCALE,
            state_space: Vec::new(),
            action_space: Vec::new(),
            observation_space: Vec::new(),
            transition_function: Vec::new(),
            reward_function: Vec::new(),
            observation_function: Vec::new(),
        }
    }
}

impl POMDP {
    /// The number of states.
    pub open spec fn n_states(&self) -> nat {
        self.state_space@.len()
    }

    /// The number of actions.
    pub open spec fn n_actions(&self) -> nat {
        self.action_space@.len()
    }

    /// The number of observations.
    pub open spec fn n_observations(&self) -> nat {
        self.observation_space@.len()
    }

    /// The reward for action `a` in state `s`.
    pub open spec fn reward(&self, s: int, a: int) -> int {
        table_entry(self.reward_function@, s, a)
    }

    /// The probability that action `a` leads from state `s` to state `t`.
    pub open spec fn transition(&self, s: int, a: int, t: int) -> int {
        cube_entry(self.transition_function@, s, a, t)
    }

    /// The probability of observing `o` after action `a` has led to state `t`.
    pub open spec fn observation(&self, o: int, a: int, t: int) -> int {
        cube_entry(self.observation_function@, o, a, t)
    }

    /// The probability that action `a` leads from state `s` to one of the
    /// first `n` states.
    pub open spec fn transition_mass(&self, s: int, a: int, n: nat) -> int
        decreases n,
    {
        if n == 0 {
            0
        } else {
            self.transition_mass(s, a, (n - 1) as nat) + self.transition(s, a, n - 1)
        }
    }

    /// The probability of making one of the first `n` observations after
    /// action `a` has led to state `t`.
    pub open spec fn observation_mass(&self, a: int, t: int, n: nat) -> int
        decreases n,
    {
        if n == 0 {
            0
        } else {
            self.observation_mass(a, t, (n - 1) as nat) + self.observation(n - 1, a, t)
        }
    }

    /// The rewards of action `a` are within `REWARD_LIMIT` in every state.
    pub open spec fn rewards_bounded(&self, a: int) -> bool {
        forall|s: int|
            0 <= s < self.n_states() ==> -REWARD_LIMIT <= #[trigger] self.reward(s, a)
                <= REWARD_LIMIT
    }

    /// The transitions out of state `s` under action `a` are probabilities
    /// that add up to at most one.
    pub open spec fn transitions_substochastic(&self, s: int, a: int) -> bool {
        &&& forall|t: int| 0 <= t < self.n_states() ==> #[trigger] self.transition(s, a, t) >= 0
        &&& self.transition_mass(s, a, self.n_states()) <= SCALE
    }

    /// The observations after action `a` has led to state `t` are
    /// probabilities that add up to at most one.
    pub open spec fn observations_substochastic(&self, a: int, t: int) -> bool {
        &&& forall|o: int|
            0 <= o < self.n_observations() ==> #[trigger] self.observation(o, a, t) >= 0
        &&& self.observation_mass(a, t, self.n_observations()) <= SCALE
    }

    /// The model is usable: the discount lies between zero and one, rewards
    /// are within `REWARD_LIMIT`, and transition and observation
    /// probabilities are non-negative and add up to at most one. (Sums below
    /// one are admitted because rounding to fixed-point may lose a little.)
    pub open spec fn wf(&self) -> bool {
        &&& 0 <= self.gamma <= SCALE
        &&& forall|a: int| 0 <= a < self.n_actions() ==> #[trigger] self.rewards_bounded(a)
        &&& forall|s: int, a: int|
            0 <= s < self.n_states() && 0 <= a < self.n_actions()
                ==> #[trigger] self.transitions_substochastic(s, a)
        &&& forall|a: int, t: int|
            0 <= a < self.n_actions() && 0 <= t < self.n_states()
                ==> #[trigger] self.observations_substochastic(a, t)
    }

    /// With non-negative entries the transition mass never decreases.
    pub proof fn lemma_transition_mass_monotone(&self, s: int, a: int, k: nat, n: nat)
        requires
            k <= n <= self.n_states(),
            forall|t: int| 0 <= t < self.n_states() ==> #[trigger] self.transition(s, a, t) >= 0,
        ensures
            0 <= self.transition_mass(s, a, k) <= self.transition_mass(s, a, n),
        decreases n,
    {
        if n == 0 {
        } else if k == n {
            self.lemma_transition_mass_monotone(s, a, (k - 1) as nat, (n - 1) as nat);
        } else {
            self.lemma_transition_mass_monotone(s, a, k, (n - 1) as nat);
        }
    }

    /// With non-negative entries the observation mass never decreases.
    pub proof fn lemma_observation_mass_monotone(&self, a: int, t: int, k: nat, n: nat)
        requires
            k <= n <= self.n_observations(),
            forall|o: int|
                0 <= o < self.n_observations() ==> #[trigger] self.observation(o, a, t) >= 0,
        ensures
            0 <= self.observation_mass(a, t, k) <= self.observation_mass(a, t, n),
        decreases n,
    {
        if n == 0 {
        } else if k == n {
            self.lemma_observation_mass_monotone(a, t, (k - 1) as nat, (n - 1) as nat);
        } else {
            self.lemma_observation_mass_monotone(a, t, k, (n - 1) as nat);
        }
    }

    /// The reward for action `a` in state `s`.
    pub fn reward_at(&self, s: usize, a: usize) -> (r: i64)
        ensures
            r == self.reward(s as int, a as int),
    {
        read_table(&self.reward_function, s, a)
    }

    /// The probability that action `a` leads from state `s` to state `t`.
    pub fn transition_at(&self, s: usize, a: usize, t: usize) -> (r: i64)
        ensures
            r == self.transition(s as int, a as int, t as int),
    {
        read_cube(&self.transition_function, s, a, t)
    }

    /// The probability of observing `o` after action `a` has led to state `t`.
    pub fn observation_at(&self, o: usize, a: usize, t: usize) -> (r: i64)
        ensures
            r == self.observation(o as int, a as int, t as int),
    {
        read_cube(&self.observation_function, o, a, t)
    }

    fn check_rewards(&self, a: usize) -> (ok: bool)
        ensures
            ok == self.rewards_bounded(a as int),
    {
        let n = self.state_space.len();
        let mut s: usize = 0;
        while s < n
            invariant
                s <= n,
                n == self.n_states(),
                forall|i: int|
                    0 <= i < s ==> -REWARD_LIMIT <= #[trigger] self.reward(i, a as int)
                        <= REWARD_LIMIT,
            decreases n - s,
        {
            let r = self.reward_at(s, a);
            if r < -REWARD_LIMIT || r > REWARD_LIMIT {
                return false;
            }
            s += 1;
        }
        true
    }

    fn check_transitions(&self, s: usize, a: usize) -> (ok: bool)
        ensures
            ok == self.transitions_substochastic(s as int, a as int),
    {
        let n = self.state_space.len();
        let mut total: i64 = 0;
        let mut t: usize = 0;
        while t < n
            invariant
                t <= n,
                n == self.n_states(),
                forall|i: int| 0 <= i < t ==> #[trigger] self.transition(s as int, a as int, i) >= 0,
                total == self.transition_mass(s as int, a as int, t as nat),
                0 <= total <= SCALE,
            decreases n - t,
        {
            let p = self.transition_at(s, a, t);
            if p < 0 {
                return false;
            }
            if p > SCALE - total {
                proof {
                    if self.transitions_substochastic(s as int, a as int) {
                        self.lemma_transition_mass_monotone(
                            s as int,
                            a as int,
                            (t + 1) as nat,
                            n as nat,
                        );
                    }
                }
                return false;
            }
            total = total + p;
            t += 1;
        }
        true
    }

    fn check_observations(&self, a: usize, t: usize) -> (ok: bool)
        ensures
            ok == self.observations_substochastic(a as int, t as int),
    {
        let n = self.observation_space.len();
        let mut total: i64 = 0;
        let mut o: usize = 0;
        while o < n
            invariant
                o <= n,
                n == self.n_observations(),
                forall|i: int| 0 <= i < o ==> #[trigger] self.observation(i, a as int, t as int) >= 0,
                total == self.observation_mass(a as int, t as int, o as nat),
                0 <= total <= SCALE,
            decreases n - o,
        {
            let p = self.observation_at(o, a, t);
            if p < 0 {
                return false;
            }
            if p > SCALE - total {
                proof {
                    if self.observations_substochastic(a as int, t as int) {
                        self.lemma_observation_mass_monotone(
                            a as int,
                            t as int,
                            (o + 1) as nat,
                            n as nat,
                        );
                    }
                }
                return false;
            }
            total = total + p;
            o += 1;
        }
        true
    }

    /// Tells whether the model is usable.
    pub fn is_valid(&self) -> (ok: bool)
        ensures
            ok == self.wf(),
    {
        if self.gamma < 0 || self.gamma > SCALE {
            return false;
        }
        let n_states = self.state_space.len();
        let n_actions = self.action_space.len();
        let mut a: usize = 0;
        while a < n_actions
            invariant
                a <= n_actions,
                n_states == self.n_states(),
                n_actions == self.n_actions(),
                forall|i: int| 0 <= i < a ==> #[trigger] self.rewards_bounded(i),
                forall|j: int, i: int|
                    0 <= j < n_states && 0 <= i < a ==> #[trigger] self.transitions_substochastic(
                        j,
                        i,
                    ),
                forall|i: int, j: int|
                    0 <= i < a && 0 <= j < n_states ==> #[trigger] self.observations_substochastic(
                        i,
                        j,
                    ),
            decreases n_actions - a,
        {
            if !self.check_rewards(a) {
                return false;
            }
            let mut s: usize = 0;
            while s < n_states
                invariant
                    s <= n_states,
                    a < n_actions,
                    n_states == self.n_states(),
                    n_actions == self.n_actions(),
                    forall|j: int|
                        0 <= j < s ==> #[trigger] self.transitions_substochastic(j, a as int),
                    forall|j: int|
                        0 <= j < s ==> #[trigger] self.observations_substochastic(a as int, j),
                decreases n_states - s,
            {
                if !self.check_transitions(s, a) {
                    return false;
                }
                if !self.check_observations(a, s) {
                    return false;
                }
                s += 1;
            }
            a += 1;
        }
        true
    }
}

} // verus!

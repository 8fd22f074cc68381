//! The value of a conditional plan in each state: its alpha vector.
use crate::backup::{
    backup_alpha, backup_vector, chosen, lemma_backup_bound, reward_alpha, reward_vector,
};
use crate::fixed::{bounded, ints, rows, within, DEPTH_LIMIT, REWARD_LIMIT, VALUE_LIMIT};
use crate::model::POMDP;
use crate::plan::{lemma_subplan_decreases, lemma_trees, trees, ConditionalPlan, PlanTree};
use vstd::prelude::*;

verus! {

impl PlanTree {
    /// The alpha vector of the plan: for each state, the value of following
    /// the plan from that state. A leaf is worth the reward of its action; a
    /// plan with subplans is worth the `backup` of its subplans' values.
    pub open spec fn alpha(self, pomdp: &POMDP) -> Seq<int>
        decreases self, 0nat,
    {
        match self.subplans {
            None => reward_vector(pomdp, self.action as int),
            Some(children) => backup_vector(
                pomdp,
                self.action as int,
                Self::alphas(children, pomdp, children.len()),
            ),
        }
    }

    /// The alpha vectors of the first `n` of `children`.
    pub open spec fn alphas(children: Seq<PlanTree>, pomdp: &POMDP, n: nat) -> Seq<Seq<int>>
        decreases children, n,
    {
        if n == 0 || n > children.len() {
            Seq::empty()
        } else {
            Self::alphas(children, pomdp, (n - 1) as nat).push(children[n - 1].alpha(pomdp))
        }
    }

    /// Wherever the plan has a value stored, it is the value of the plan.
    pub open spec fn cache_ok(self, pomdp: &POMDP) -> bool
        decreases self,
    {
        &&& self.alphavector.len() == 0 || self.alphavector == self.alpha(pomdp)
        &&& match self.subplans {
            None => true,
            Some(children) => forall|i: int|
                0 <= i < children.len() ==> (#[trigger] children[i]).cache_ok(pomdp),
        }
    }

    /// `deepest` is at least the depth of each child it covers.
    pub proof fn lemma_deepest_covers(children: Seq<PlanTree>, n: nat, i: int)
        requires
            0 <= i < n <= children.len(),
        ensures
            children[i].depth() <= Self::deepest(children, n),
        decreases n,
    {
        let rest = Self::deepest(children, (n - 1) as nat);
        let last = children[n - 1].depth();
        assert(Self::deepest(children, n) == if last > rest {
            last
        } else {
            rest
        });
        if i < n - 1 {
            Self::lemma_deepest_covers(children, (n - 1) as nat, i);
        }
    }

    /// `alphas` holds the alpha vector of each child at the child's position.
    pub proof fn lemma_alphas(children: Seq<PlanTree>, pomdp: &POMDP, n: nat)
        requires
            n <= children.len(),
        ensures
            Self::alphas(children, pomdp, n).len() == n,
            forall|i: int|
                0 <= i < n ==> #[trigger] Self::alphas(children, pomdp, n)[i] == children[i].alpha(
                    pomdp,
                ),
        decreases n,
    {
        if n > 0 {
            Self::lemma_alphas(children, pomdp, (n - 1) as nat);
            assert(Self::alphas(children, pomdp, n) == Self::alphas(
                children,
                pomdp,
                (n - 1) as nat,
            ).push(children[n - 1].alpha(pomdp)));
        } else {
            assert(Self::alphas(children, pomdp, n) =~= Seq::empty());
        }
    }

    /// Under a usable model the alpha vector of a fitting plan has one entry
    /// for each state, none larger than one reward for each step of the plan.
    pub proof fn lemma_alpha_bounded(self, pomdp: &POMDP)
        requires
            pomdp.wf(),
            self.fits(pomdp),
        ensures
            self.alpha(pomdp).len() == pomdp.n_states(),
            bounded(self.alpha(pomdp), self.depth() * REWARD_LIMIT),
        decreases self,
    {
        match self.subplans {
            None => {
                assert(self.alpha(pomdp) == reward_vector(pomdp, self.action as int));
                assert(self.depth() == 1);
                assert(pomdp.rewards_bounded(self.action as int));
            },
            Some(children) => {
                let below = Self::alphas(children, pomdp, children.len());
                let bound = (self.depth() - 1) * REWARD_LIMIT;
                assert(self.alpha(pomdp) == backup_vector(pomdp, self.action as int, below));
                assert(self.depth() == 1 + Self::deepest(children, children.len()));
                Self::lemma_alphas(children, pomdp, children.len());
                assert forall|i: int| 0 <= i < below.len() implies bounded(
                    #[trigger] below[i],
                    bound,
                ) by {
                    children[i].lemma_alpha_bounded(pomdp);
                    Self::lemma_deepest_covers(children, children.len(), i);
                    let d = children[i].depth();
                    assert(d * REWARD_LIMIT <= bound) by (nonlinear_arith)
                        requires
                            d <= self.depth() - 1,
                            bound == (self.depth() - 1) * REWARD_LIMIT,
                            REWARD_LIMIT >= 0,
                    ;
                }
                assert(bound >= 0) by (nonlinear_arith)
                    requires
                        self.depth() >= 1,
                        bound == (self.depth() - 1) * REWARD_LIMIT,
                        REWARD_LIMIT >= 0,
                ;
                assert(REWARD_LIMIT + bound == self.depth() * REWARD_LIMIT) by (nonlinear_arith)
                    requires
                        bound == (self.depth() - 1) * REWARD_LIMIT,
                ;
                assert forall|s: int| 0 <= s < pomdp.n_states() implies within(
                    #[trigger] self.alpha(pomdp)[s],
                    self.depth() * REWARD_LIMIT,
                ) by {
                    lemma_backup_bound(pomdp, s, self.action as int, below, bound);
                }
            },
        }
    }
}

/// A vector bounded by a product of a depth within `DEPTH_LIMIT` and
/// `REWARD_LIMIT` is bounded by `VALUE_LIMIT`, and by one reward less when
/// the depth is below the limit.
pub proof fn lemma_depth_bound(v: Seq<int>, depth: nat)
    requires
        bounded(v, depth * REWARD_LIMIT),
        depth <= DEPTH_LIMIT,
    ensures
        bounded(v, VALUE_LIMIT as int),
        depth < DEPTH_LIMIT ==> bounded(v, VALUE_LIMIT - REWARD_LIMIT),
{
    assert(depth * REWARD_LIMIT <= VALUE_LIMIT) by (nonlinear_arith)
        requires
            depth <= 1_000_000,
            REWARD_LIMIT == 1_000_000_000_000,
            VALUE_LIMIT == 1_000_000_000_000_000_000,
    ;
    if depth < DEPTH_LIMIT {
        assert(depth * REWARD_LIMIT <= VALUE_LIMIT - REWARD_LIMIT) by (nonlinear_arith)
            requires
                depth < 1_000_000,
                REWARD_LIMIT == 1_000_000_000_000,
                VALUE_LIMIT == 1_000_000_000_000_000_000,
        ;
    }
    assert forall|i: int| 0 <= i < v.len() implies within(#[trigger] v[i], VALUE_LIMIT as int) by {
        assert(within(v[i], depth * REWARD_LIMIT));
    }
    if depth < DEPTH_LIMIT {
        assert forall|i: int| 0 <= i < v.len() implies within(
            #[trigger] v[i],
            VALUE_LIMIT - REWARD_LIMIT,
        ) by {
            assert(within(v[i], depth * REWARD_LIMIT));
        }
    }
}

impl ConditionalPlan {
    /// The alpha vector of the plan. A value that the plan has stored is
    /// taken as it is; otherwise the subplans are evaluated first.
    pub fn evaluate(&self, pomdp: &POMDP) -> (alpha: Vec<i64>)
        requires
            pomdp.wf(),
            self@.fits(pomdp),
            self@.cache_ok(pomdp),
            self@.depth() <= DEPTH_LIMIT,
        ensures
            alpha@.len() == pomdp.n_states(),
            ints(alpha@) == self@.alpha(pomdp),
        decreases self,
    {
        proof {
            self@.lemma_alpha_bounded(pomdp);
        }
        if self.alphavector.len() > 0 {
            let alpha = self.alphavector.clone();
            assert(alpha@ =~= self.alphavector@);
            return alpha;
        }
        match &self.subplans {
            None => reward_alpha(pomdp, self.action),
            Some(children) => {
                let ghost below = self@.subplans->0;
                proof {
                    lemma_trees(children@);
                    assert(below == trees(children@));
                    assert(self@.depth() == 1 + PlanTree::deepest(below, below.len()));
                }
                let mut alphas: Vec<Vec<i64>> = Vec::new();
                let mut choice: Vec<usize> = Vec::new();
                let mut o: usize = 0;
                while o < children.len()
                    invariant
                        o <= children.len(),
                        alphas@.len() == o,
                        choice@.len() == o,
                        self.subplans == Some(*children),
                        below == trees(children@),
                        below.len() == children@.len(),
                        forall|i: int| 0 <= i < below.len() ==> #[trigger] below[i] == children@[i]@,
                        pomdp.wf(),
                        self@.fits(pomdp),
                        self@.cache_ok(pomdp),
                        self@.subplans == Some(below),
                        self@.depth() <= DEPTH_LIMIT,
                        self@.depth() == 1 + PlanTree::deepest(below, below.len()),
                        forall|i: int| 0 <= i < o ==> #[trigger] choice@[i] == i,
                        forall|i: int|
                            0 <= i < o ==> ints((#[trigger] alphas@[i])@) == below[i].alpha(pomdp),
                    decreases children.len() - o,
                {
                    proof {
                        lemma_subplan_decreases(self, o as int);
                    }
                    proof {
                        PlanTree::lemma_deepest_covers(below, below.len(), o as int);
                        assert(below[o as int].fits(pomdp));
                        assert(below[o as int].cache_ok(pomdp));
                    }
                    let alpha = children[o].evaluate(pomdp);
                    alphas.push(alpha);
                    choice.push(o);
                    o += 1;
                }
                proof {
                    let picked = chosen(rows(alphas@), choice@);
                    PlanTree::lemma_alphas(below, pomdp, below.len());
                    assert(picked =~= PlanTree::alphas(below, pomdp, below.len()));
                    assert(self@.alpha(pomdp) == backup_vector(
                        pomdp,
                        self@.action as int,
                        PlanTree::alphas(below, pomdp, below.len()),
                    ));
                    assert forall|i: int| 0 <= i < rows(alphas@).len() implies bounded(
                        #[trigger] rows(alphas@)[i],
                        VALUE_LIMIT - REWARD_LIMIT,
                    ) by {
                        below[i].lemma_alpha_bounded(pomdp);
                        PlanTree::lemma_deepest_covers(below, below.len(), i);
                        let d = below[i].depth();
                        assert(bounded(rows(alphas@)[i], d * REWARD_LIMIT));
                        lemma_depth_bound(rows(alphas@)[i], d);
                    }
                }
                backup_alpha(pomdp, self.action, &alphas, &choice)
            },
        }
    }
}

impl PlanTree {
    /// The plan after its alpha vector has been computed and stored: every
    /// node that had to be evaluated holds its alpha vector. A node that had
    /// a value stored was not looked into, and stays as it is with all below
    /// it.
    pub open spec fn memoized(self, pomdp: &POMDP) -> PlanTree
        decreases self, 0nat,
    {
        if self.alphavector.len() > 0 {
            self
        } else {
            PlanTree {
                action: self.action,
                subplans: match self.subplans {
                    None => None,
                    Some(children) => Some(Self::memoized_first(children, pomdp, children.len())),
                },
                alphavector: self.alpha(pomdp),
            }
        }
    }

    /// `children` with the first `n` of them memoized.
    pub open spec fn memoized_first(children: Seq<PlanTree>, pomdp: &POMDP, n: nat) -> Seq<PlanTree>
        decreases children, n,
    {
        if n == 0 || n > children.len() {
            children
        } else {
            Self::memoized_first(children, pomdp, (n - 1) as nat).update(
                n - 1,
                children[n - 1].memoized(pomdp),
            )
        }
    }

    /// `memoized_first` memoizes the first `n` children and leaves the others.
    pub proof fn lemma_memoized_first(children: Seq<PlanTree>, pomdp: &POMDP, n: nat)
        requires
            n <= children.len(),
        ensures
            Self::memoized_first(children, pomdp, n).len() == children.len(),
            forall|i: int|
                0 <= i < n ==> #[trigger] Self::memoized_first(children, pomdp, n)[i]
                    == children[i].memoized(pomdp),
            forall|i: int|
                n <= i < children.len() ==> #[trigger] Self::memoized_first(children, pomdp, n)[i]
                    == children[i],
        decreases n,
    {
        if n > 0 {
            Self::lemma_memoized_first(children, pomdp, (n - 1) as nat);
            assert(Self::memoized_first(children, pomdp, n) == Self::memoized_first(
                children,
                pomdp,
                (n - 1) as nat,
            ).update(n - 1, children[n - 1].memoized(pomdp)));
        } else {
            assert(Self::memoized_first(children, pomdp, n) == children);
        }
    }

    /// Children with the same depths have the same deepest.
    pub proof fn lemma_deepest_same(one: Seq<PlanTree>, other: Seq<PlanTree>, n: nat)
        requires
            n <= one.len(),
            one.len() == other.len(),
            forall|i: int| 0 <= i < one.len() ==> (#[trigger] one[i]).depth() == other[i].depth(),
        ensures
            Self::deepest(one, n) == Self::deepest(other, n),
        decreases n,
    {
        if n > 0 {
            Self::lemma_deepest_same(one, other, (n - 1) as nat);
            let rest = Self::deepest(one, (n - 1) as nat);
            let last = one[n - 1].depth();
            assert(Self::deepest(one, n) == if last > rest {
                last
            } else {
                rest
            });
            assert(Self::deepest(other, n) == if last > rest {
                last
            } else {
                rest
            });
        } else {
            assert(Self::deepest(one, 0) == 0);
            assert(Self::deepest(other, 0) == 0);
        }
    }

    /// Storing alpha vectors changes neither the plan nor its value: the
    /// memoized plan is the same plan, fits the model as before, covers as
    /// many steps, has the same alpha vector, and what it has stored is right.
    pub proof fn lemma_memoized(self, pomdp: &POMDP)
        requires
            self.fits(pomdp),
            self.cache_ok(pomdp),
        ensures
            self.memoized(pomdp).same_plan(self),
            self.memoized(pomdp).fits(pomdp),
            self.memoized(pomdp).cache_ok(pomdp),
            self.memoized(pomdp).depth() == self.depth(),
            self.memoized(pomdp).alpha(pomdp) == self.alpha(pomdp),
        decreases self,
    {
        let after = self.memoized(pomdp);
        if self.alphavector.len() > 0 {
            self.lemma_same_plan_reflexive();
        } else {
            match self.subplans {
                None => {
                    assert(after.alpha(pomdp) == reward_vector(pomdp, self.action as int));
                    assert(self.alpha(pomdp) == reward_vector(pomdp, self.action as int));
                    assert(after.depth() == 1 && self.depth() == 1);
                },
                Some(children) => {
                    let stored = Self::memoized_first(children, pomdp, children.len());
                    Self::lemma_memoized_first(children, pomdp, children.len());
                    assert(after.subplans == Some(stored));
                    assert forall|i: int| 0 <= i < children.len() implies {
                        &&& (#[trigger] stored[i]).same_plan(children[i])
                        &&& stored[i].fits(pomdp)
                        &&& stored[i].cache_ok(pomdp)
                        &&& stored[i].depth() == children[i].depth()
                        &&& stored[i].alpha(pomdp) == children[i].alpha(pomdp)
                    } by {
                        assert(children[i].fits(pomdp));
                        assert(children[i].cache_ok(pomdp));
                        children[i].lemma_memoized(pomdp);
                    }
                    Self::lemma_alphas(children, pomdp, children.len());
                    Self::lemma_alphas(stored, pomdp, stored.len());
                    assert(Self::alphas(stored, pomdp, stored.len()) =~= Self::alphas(
                        children,
                        pomdp,
                        children.len(),
                    ));
                    assert(after.alpha(pomdp) == backup_vector(
                        pomdp,
                        after.action as int,
                        Self::alphas(stored, pomdp, stored.len()),
                    ));
                    assert(self.alpha(pomdp) == backup_vector(
                        pomdp,
                        self.action as int,
                        Self::alphas(children, pomdp, children.len()),
                    ));
                    Self::lemma_deepest_same(stored, children, children.len());
                    assert(after.depth() == 1 + Self::deepest(stored, stored.len()));
                    assert(self.depth() == 1 + Self::deepest(children, children.len()));
                    assert(after.same_plan(self));
                    assert(after.fits(pomdp));
                    assert(after.cache_ok(pomdp));
                },
            }
        }
    }

    /// Every plan is the same plan as itself.
    pub proof fn lemma_same_plan_reflexive(self)
        ensures
            self.same_plan(self),
        decreases self,
    {
        match self.subplans {
            None => {},
            Some(children) => {
                assert forall|i: int| 0 <= i < children.len() implies (#[trigger] children[i]).same_plan(
                    children[i],
                ) by {
                    children[i].lemma_same_plan_reflexive();
                }
            },
        }
    }
}

/// Computes the alpha vector of `plan`, stores it in the plan and returns it.
/// A value that the plan has stored already is returned as it is; otherwise
/// the subplans are evaluated first, in the same way, so that every node
/// that is evaluated holds its alpha vector afterwards.
pub fn calculate_alphavector(plan: &mut ConditionalPlan, pomdp: &POMDP) -> (alpha: Vec<i64>)
    requires
        pomdp.wf(),
        old(plan)@.fits(pomdp),
        old(plan)@.cache_ok(pomdp),
        old(plan)@.depth() <= DEPTH_LIMIT,
    ensures
        alpha@.len() == pomdp.n_states(),
        ints(alpha@) == old(plan)@.alpha(pomdp),
        final(plan)@ == old(plan)@.memoized(pomdp),
        final(plan)@.same_plan(old(plan)@),
        final(plan)@.fits(pomdp),
        final(plan)@.cache_ok(pomdp),
        old(plan)@.alphavector.len() == 0 ==> final(plan)@.alphavector == ints(alpha@),
    decreases *old(plan),
{
    let ghost tree = old(plan)@;
    proof {
        tree.lemma_alpha_bounded(pomdp);
        tree.lemma_memoized(pomdp);
    }
    if plan.alphavector.len() > 0 {
        let alpha = plan.alphavector.clone();
        assert(alpha@ =~= plan.alphavector@);
        return alpha;
    }
    let action = plan.action;
    let alpha = match &mut plan.subplans {
        None => reward_alpha(pomdp, action),
        Some(children) => {
            let ghost below = tree.subplans->0;
            let ghost untouched = children@;
            let ghost held = *children;
            proof {
                lemma_trees(untouched);
                assert(tree.depth() == 1 + PlanTree::deepest(below, below.len()));
            }
            let mut alphas: Vec<Vec<i64>> = Vec::new();
            let mut choice: Vec<usize> = Vec::new();
            let mut o: usize = 0;
            while o < children.len()
                invariant
                    o <= children@.len(),
                    children@.len() == untouched.len(),
                    old(plan).subplans == Some(held),
                    untouched == held@,
                    below == trees(untouched),
                    below.len() == untouched.len(),
                    forall|j: int| 0 <= j < below.len() ==> #[trigger] below[j] == untouched[j]@,
                    forall|j: int| o <= j < untouched.len() ==> children@[j] == untouched[j],
                    trees(children@) == PlanTree::memoized_first(below, pomdp, o as nat),
                    pomdp.wf(),
                    tree.fits(pomdp),
                    tree.cache_ok(pomdp),
                    tree.subplans == Some(below),
                    tree.depth() <= DEPTH_LIMIT,
                    tree.depth() == 1 + PlanTree::deepest(below, below.len()),
                    alphas@.len() == o,
                    choice@.len() == o,
                    forall|i: int| 0 <= i < o ==> #[trigger] choice@[i] == i,
                    forall|i: int|
                        0 <= i < o ==> ints((#[trigger] alphas@[i])@) == below[i].alpha(pomdp),
                decreases children@.len() - o,
            {
                let ghost before = children@;
                assert(decreases_to!(*old(plan) => children@[o as int])) by {
                    assert(children@[o as int] == untouched[o as int]);
                    assert(decreases_to!(*old(plan) => old(plan).subplans));
                    assert(decreases_to!(old(plan).subplans => old(plan).subplans->0));
                    assert(decreases_to!(old(plan).subplans->0 => old(plan).subplans->0@));
                    assert(decreases_to!(old(plan).subplans->0@ => old(plan).subplans->0@[o as int]));
                }
                proof {
                    PlanTree::lemma_deepest_covers(below, below.len(), o as int);
                    assert(below[o as int].fits(pomdp));
                    assert(below[o as int].cache_ok(pomdp));
                    assert(children@[o as int]@ == below[o as int]);
                }
                let alpha = calculate_alphavector(&mut children[o], pomdp);
                proof {
                    lemma_trees(before);
                    lemma_trees(children@);
                    assert(PlanTree::memoized_first(below, pomdp, (o + 1) as nat)
                        == PlanTree::memoized_first(below, pomdp, o as nat).update(
                        o as int,
                        below[o as int].memoized(pomdp),
                    ));
                    assert(trees(children@) =~= trees(before).update(
                        o as int,
                        children@[o as int]@,
                    ));
                }
                alphas.push(alpha);
                choice.push(o);
                o += 1;
            }
            proof {
                lemma_trees(children@);
                let picked = chosen(rows(alphas@), choice@);
                PlanTree::lemma_alphas(below, pomdp, below.len());
                assert(picked =~= PlanTree::alphas(below, pomdp, below.len()));
                assert(tree.alpha(pomdp) == backup_vector(
                    pomdp,
                    tree.action as int,
                    PlanTree::alphas(below, pomdp, below.len()),
                ));
                assert forall|i: int| 0 <= i < rows(alphas@).len() implies bounded(
                    #[trigger] rows(alphas@)[i],
                    VALUE_LIMIT - REWARD_LIMIT,
                ) by {
                    below[i].lemma_alpha_bounded(pomdp);
                    PlanTree::lemma_deepest_covers(below, below.len(), i);
                    let d = below[i].depth();
                    assert(bounded(rows(alphas@)[i], d * REWARD_LIMIT));
                    lemma_depth_bound(rows(alphas@)[i], d);
                }
            }
            backup_alpha(pomdp, action, &alphas, &choice)
        },
    };
    let stored = alpha.clone();
    assert(stored@ =~= alpha@);
    plan.alphavector = stored;
    proof {
        let expected = tree.memoized(pomdp);
        match tree.subplans {
            None => {
                assert(tree.alpha(pomdp) == reward_vector(pomdp, tree.action as int));
                assert(expected == (PlanTree {
                    action: tree.action,
                    subplans: None,
                    alphavector: tree.alpha(pomdp),
                }));
            },
            Some(below) => {
                assert(expected == (PlanTree {
                    action: tree.action,
                    subplans: Some(PlanTree::memoized_first(below, pomdp, below.len())),
                    alphavector: tree.alpha(pomdp),
                }));
            },
        }
    }
    alpha
}

} // verus!

//! Conditional plans: trees that pair an action with one subplan for each
//! observation.
use crate::fixed::ints;
use crate::model::POMDP;
use vstd::prelude::*;

verus! {

/// A conditional plan. The plan takes `action`; if `subplans` is present,
/// it then goes on with `subplans[o]`, where `o` is the position of the
/// observation that was made. A plan without subplans is a leaf.
///
/// `alphavector` holds the plan's value in each state once it has been
/// computed, and is empty before.
#[derive(Debug)]
pub struct ConditionalPlan {
    pub action: usize,
    pub subplans: Option<Vec<ConditionalPlan>>,
    pub alphavector: Vec<i64>,
}

/// The mathematical value of a conditional plan.
pub struct PlanTree {
    pub action: usize,
    pub subplans: Option<Seq<PlanTree>>,
    pub alphavector: Seq<int>,
}

impl View for ConditionalPlan {
    type V = PlanTree;

    open spec fn view(&self) -> PlanTree
        decreases self, 0nat,
    {
        PlanTree {
            action: self.action,
            subplans: match self.subplans {
                None => None,
                Some(children) => Some(first_trees(children@, children@.len())),
            },
            alphavector: ints(self.alphavector@),
        }
    }
}

/// The trees of the first `n` of `plans`.
pub open spec fn first_trees(plans: Seq<ConditionalPlan>, n: nat) -> Seq<PlanTree>
    decreases plans, n,
{
    if n == 0 || n > plans.len() {
        Seq::empty()
    } else {
        first_trees(plans, (n - 1) as nat).push(plans[n - 1].view())
    }
}

/// The trees of a sequence of plans.
pub open spec fn trees(plans: Seq<ConditionalPlan>) -> Seq<PlanTree> {
    first_trees(plans, plans.len())
}

/// `first_trees` holds the tree of each plan at the plan's position.
pub proof fn lemma_first_trees(plans: Seq<ConditionalPlan>, n: nat)
    requires
        n <= plans.len(),
    ensures
        first_trees(plans, n).len() == n,
        forall|i: int| 0 <= i < n ==> #[trigger] first_trees(plans, n)[i] == plans[i]@,
    decreases n,
{
    if n > 0 {
        lemma_first_trees(plans, (n - 1) as nat);
        assert(first_trees(plans, n) == first_trees(plans, (n - 1) as nat).push(
            plans[n - 1].view(),
        ));
    } else {
        assert(first_trees(plans, n) =~= Seq::empty());
    }
}

/// `trees` holds the tree of each plan at the plan's position.
pub broadcast proof fn lemma_trees(plans: Seq<ConditionalPlan>)
    ensures
        #![trigger trees(plans)]
        trees(plans).len() == plans.len(),
        forall|i: int| 0 <= i < plans.len() ==> #[trigger] trees(plans)[i] == plans[i]@,
{
    lemma_first_trees(plans, plans.len());
}

/// A plan is larger than each of its subplans, for the sake of termination.
pub proof fn lemma_subplan_decreases(plan: &ConditionalPlan, i: int)
    requires
        plan.subplans is Some,
        0 <= i < plan.subplans->0@.len(),
    ensures
        decreases_to!(plan => plan.subplans->0@[i]),
{
    assert(decreases_to!(plan => plan.subplans));
    assert(decreases_to!(plan.subplans => plan.subplans->0));
    assert(decreases_to!(plan.subplans->0 => plan.subplans->0@));
    assert(decreases_to!(plan.subplans->0@ => plan.subplans->0@[i]));
}

impl PlanTree {
    /// The children of the root; none for a leaf.
    pub open spec fn children(self) -> Seq<PlanTree> {
        match self.subplans {
            None => Seq::empty(),
            Some(children) => children,
        }
    }

    /// The largest depth among the first `n` of `children`.
    pub open spec fn deepest(children: Seq<PlanTree>, n: nat) -> nat
        decreases children, n,
    {
        if n == 0 || n > children.len() {
            0
        } else {
            let rest = Self::deepest(children, (n - 1) as nat);
            let last = children[n - 1].depth();
            if last > rest {
                last
            } else {
                rest
            }
        }
    }

    /// The number of decision steps the plan covers: one more than the
    /// longest chain of observations.
    pub open spec fn depth(self) -> nat
        decreases self,
    {
        match self.subplans {
            None => 1,
            Some(children) => 1 + Self::deepest(children, children.len()),
        }
    }

    /// The number of nodes in the first `n` of `children`.
    pub open spec fn nodes_among(children: Seq<PlanTree>, n: nat) -> nat
        decreases children, n,
    {
        if n == 0 || n > children.len() {
            0
        } else {
            Self::nodes_among(children, (n - 1) as nat) + children[n - 1].nodes()
        }
    }

    /// The number of nodes of the tree.
    pub open spec fn nodes(self) -> nat
        decreases self,
    {
        match self.subplans {
            None => 1,
            Some(children) => 1 + Self::nodes_among(children, children.len()),
        }
    }

    /// The plan relabeled from `configuration`, and what is left of
    /// `configuration`. The root takes the last number as its action, and
    /// the subplans are relabeled from the numbers before it, one after the
    /// other. Only actions change: the shape of the plan and what its nodes
    /// have stored stay as they are. When the numbers run out, what has not
    /// been reached keeps its action too.
    pub open spec fn relabeled(self, configuration: Seq<u32>) -> (PlanTree, Seq<u32>)
        decreases self, 0nat,
    {
        if configuration.len() == 0 {
            (self, configuration)
        } else {
            let rest = configuration.drop_last();
            match self.subplans {
                None => (
                    PlanTree {
                        action: configuration.last() as usize,
                        subplans: None,
                        alphavector: self.alphavector,
                    },
                    rest,
                ),
                Some(children) => {
                    let below = Self::relabeled_first(children, rest, children.len());
                    (
                        PlanTree {
                            action: configuration.last() as usize,
                            subplans: Some(below.0),
                            alphavector: self.alphavector,
                        },
                        below.1,
                    )
                },
            }
        }
    }

    /// `children` with the first `n` of them relabeled from `configuration`,
    /// one after the other, and what is left of `configuration`.
    pub open spec fn relabeled_first(children: Seq<PlanTree>, configuration: Seq<u32>, n: nat) -> (
        Seq<PlanTree>,
        Seq<u32>,
    )
        decreases children, n,
    {
        if n == 0 || n > children.len() {
            (children, configuration)
        } else {
            let before = Self::relabeled_first(children, configuration, (n - 1) as nat);
            let child = children[n - 1].relabeled(before.1);
            (before.0.update(n - 1, child.0), child.1)
        }
    }

    /// Two plans differ in actions at most: they have the same shape, and
    /// their nodes have the same values stored.
    pub open spec fn alike(self, other: PlanTree) -> bool
        decreases self,
    {
        &&& self.alphavector == other.alphavector
        &&& match (self.subplans, other.subplans) {
            (None, None) => true,
            (Some(mine), Some(theirs)) => {
                &&& mine.len() == theirs.len()
                &&& forall|i: int| 0 <= i < mine.len() ==> (#[trigger] mine[i]).alike(theirs[i])
            },
            _ => false,
        }
    }

    /// Every plan is alike itself.
    pub proof fn lemma_alike_itself(self)
        ensures
            self.alike(self),
        decreases self,
    {
        match self.subplans {
            None => {},
            Some(children) => {
                assert forall|i: int| 0 <= i < children.len() implies (#[trigger] children[i]).alike(
                    children[i],
                ) by {
                    children[i].lemma_alike_itself();
                }
            },
        }
    }

    /// Relabeling changes actions only.
    pub proof fn lemma_relabeled_alike(self, configuration: Seq<u32>)
        ensures
            self.relabeled(configuration).0.alike(self),
        decreases self, 0nat,
    {
        if configuration.len() == 0 {
            self.lemma_alike_itself();
        } else {
            match self.subplans {
                None => {},
                Some(children) => {
                    let rest = configuration.drop_last();
                    Self::lemma_relabeled_first_alike(children, rest, children.len());
                    let below = Self::relabeled_first(children, rest, children.len());
                    assert(self.relabeled(configuration).0.subplans == Some(below.0));
                },
            }
        }
    }

    /// Relabeling children changes their actions only.
    pub proof fn lemma_relabeled_first_alike(
        children: Seq<PlanTree>,
        configuration: Seq<u32>,
        n: nat,
    )
        requires
            n <= children.len(),
        ensures
            Self::relabeled_first(children, configuration, n).0.len() == children.len(),
            forall|i: int|
                0 <= i < children.len() ==> (#[trigger] Self::relabeled_first(
                    children,
                    configuration,
                    n,
                ).0[i]).alike(children[i]),
        decreases children, n,
    {
        if n == 0 {
            assert(Self::relabeled_first(children, configuration, n).0 == children);
            assert forall|i: int| 0 <= i < children.len() implies (#[trigger] children[i]).alike(
                children[i],
            ) by {
                children[i].lemma_alike_itself();
            }
        } else {
            Self::lemma_relabeled_first_alike(children, configuration, (n - 1) as nat);
            let before = Self::relabeled_first(children, configuration, (n - 1) as nat);
            let child = children[n - 1].relabeled(before.1);
            children[n - 1].lemma_relabeled_alike(before.1);
            assert(Self::relabeled_first(children, configuration, n) == (
                before.0.update(n - 1, child.0),
                child.1,
            ));
        }
    }

    /// The count of nodes never decreases as more children are counted.
    pub proof fn lemma_nodes_among_grows(children: Seq<PlanTree>, k: nat, n: nat)
        requires
            k <= n <= children.len(),
        ensures
            Self::nodes_among(children, k) <= Self::nodes_among(children, n),
        decreases n,
    {
        if k < n {
            Self::lemma_nodes_among_grows(children, k, (n - 1) as nat);
            assert(Self::nodes_among(children, n) == Self::nodes_among(children, (n - 1) as nat)
                + children[n - 1].nodes());
        }
    }

    /// Two plans are the same plan when their actions agree and their
    /// subplans are the same plans, whatever values they have stored.
    pub open spec fn same_plan(self, other: PlanTree) -> bool
        decreases self,
    {
        &&& self.action == other.action
        &&& match (self.subplans, other.subplans) {
            (None, None) => true,
            (Some(mine), Some(theirs)) => {
                &&& mine.len() == theirs.len()
                &&& forall|i: int|
                    0 <= i < mine.len() ==> (#[trigger] mine[i]).same_plan(theirs[i])
            },
            _ => false,
        }
    }

    /// Every action of the plan is an action of `pomdp`, and every node that
    /// has subplans has one for each observation of `pomdp`.
    pub open spec fn fits(self, pomdp: &POMDP) -> bool
        decreases self,
    {
        &&& self.action < pomdp.n_actions()
        &&& match self.subplans {
            None => true,
            Some(children) => {
                &&& children.len() == pomdp.n_observations()
                &&& forall|i: int| 0 <= i < children.len() ==> (#[trigger] children[i]).fits(pomdp)
            },
        }
    }
}

impl ConditionalPlan {
    /// A leaf that takes `action`.
    pub fn leaf(action: usize) -> (plan: ConditionalPlan)
        ensures
            plan@ == (PlanTree { action, subplans: None, alphavector: Seq::empty() }),
    {
        let plan = ConditionalPlan { action, subplans: None, alphavector: Vec::new() };
        assert(plan@.alphavector =~= Seq::empty());
        plan
    }

    /// A deep copy of the plan.
    pub fn duplicate(&self) -> (copy: ConditionalPlan)
        ensures
            copy@ == self@,
        decreases self,
    {
        let alphavector = self.alphavector.clone();
        assert(alphavector@ =~= self.alphavector@);
        match &self.subplans {
            None => ConditionalPlan { action: self.action, subplans: None, alphavector },
            Some(children) => {
                let mut copies: Vec<ConditionalPlan> = Vec::new();
                let mut i: usize = 0;
                while i < children.len()
                    invariant
                        i <= children.len(),
                        copies.len() == i,
                        self.subplans == Some(*children),
                        forall|j: int| 0 <= j < i ==> (#[trigger] copies@[j])@ == children@[j]@,
                    decreases children.len() - i,
                {
                    proof {
                        lemma_subplan_decreases(self, i as int);
                    }
                    copies.push(children[i].duplicate());
                    i += 1;
                }
                let copy = ConditionalPlan {
                    action: self.action,
                    subplans: Some(copies),
                    alphavector,
                };
                proof {
                    lemma_trees(children@);
                    lemma_trees(copies@);
                    assert(trees(children@) =~= trees(copies@));
                }
                copy
            },
        }
    }

    /// Relabels the plan from `configuration`, top down. The root takes the
    /// last number of `configuration` as its action, and the number leaves
    /// `configuration`; then the subplans do the same, one after the other.
    /// When `configuration` runs out, what has not been reached stays as it
    /// is. Only actions change: every node keeps its subplans and what it
    /// has stored, which after the change need not be its value any more.
    pub fn set_configuration(&mut self, pomdp: &POMDP, configuration: &mut Vec<u32>)
        requires
            forall|i: int|
                0 <= i < old(configuration)@.len() ==> #[trigger] old(configuration)@[i]
                    < pomdp.n_actions(),
        ensures
            final(self)@ == old(self)@.relabeled(old(configuration)@).0,
            final(self)@.alike(old(self)@),
            final(configuration)@ == old(self)@.relabeled(old(configuration)@).1,
            final(configuration)@.len() <= old(configuration)@.len(),
            final(configuration)@ == old(configuration)@.subrange(
                0,
                final(configuration)@.len() as int,
            ),
        decreases *old(self),
    {
        let ghost start = old(configuration)@;
        let ghost tree = old(self)@;
        proof {
            tree.lemma_relabeled_alike(start);
        }
        let idx: usize;
        match configuration.pop() {
            Some(x) => idx = x as usize,
            None => {
                assert(configuration@ =~= start.subrange(0, 0));
                return ;
            },
        };
        let ghost rest = configuration@;
        assert(rest == start.drop_last());
        self.action = idx;
        match &mut self.subplans {
            None => {},
            Some(children) => {
                let ghost below = tree.subplans->0;
                let ghost untouched = children@;
                let ghost held = *children;
                proof {
                    lemma_trees(untouched);
                }
                let mut i: usize = 0;
                while i < children.len()
                    invariant
                        i <= children@.len(),
                        children@.len() == untouched.len(),
                        old(self).subplans == Some(held),
                        untouched == held@,
                        below == trees(untouched),
                        forall|j: int| i <= j < untouched.len() ==> children@[j] == untouched[j],
                        trees(children@) == PlanTree::relabeled_first(below, rest, i as nat).0,
                        configuration@ == PlanTree::relabeled_first(below, rest, i as nat).1,
                        configuration@.len() <= rest.len(),
                        configuration@ == rest.subrange(0, configuration@.len() as int),
                        forall|k: int| 0 <= k < rest.len() ==> #[trigger] rest[k] < pomdp.n_actions(),
                    decreases children@.len() - i,
                {
                    let ghost before = children@;
                    assert(decreases_to!(*old(self) => children@[i as int])) by {
                        assert(children@[i as int] == untouched[i as int]);
                        assert(decreases_to!(*old(self) => old(self).subplans));
                        assert(decreases_to!(old(self).subplans => old(self).subplans->0));
                        assert(decreases_to!(old(self).subplans->0 => old(self).subplans->0@));
                        assert(decreases_to!(old(self).subplans->0@ => old(self).subplans->0@[i as int]));
                    }
                    children[i].set_configuration(pomdp, configuration);
                    proof {
                        lemma_trees(before);
                        lemma_trees(children@);
                        lemma_trees(untouched);
                        let step = PlanTree::relabeled_first(below, rest, i as nat);
                        assert(PlanTree::relabeled_first(below, rest, (i + 1) as nat) == {
                            let child = below[i as int].relabeled(step.1);
                            (step.0.update(i as int, child.0), child.1)
                        });
                        assert(trees(children@) =~= trees(before).update(
                            i as int,
                            children@[i as int]@,
                        ));
                        assert(configuration@ =~= rest.subrange(0, configuration@.len() as int));
                    }
                    i += 1;
                }
                proof {
                    lemma_trees(children@);
                }
            },
        }
        proof {
            let expected = tree.relabeled(start);
            match tree.subplans {
                None => {
                    assert(expected == (
                        PlanTree {
                            action: start.last() as usize,
                            subplans: None,
                            alphavector: tree.alphavector,
                        },
                        rest,
                    ));
                },
                Some(below) => {
                    let under = PlanTree::relabeled_first(below, rest, below.len());
                    assert(expected == (
                        PlanTree {
                            action: start.last() as usize,
                            subplans: Some(under.0),
                            alphavector: tree.alphavector,
                        },
                        under.1,
                    ));
                },
            }
            assert(configuration@ =~= start.subrange(0, configuration@.len() as int));
        }
    }
}

/// The number of nodes of `plan`.
pub fn get_nodes_count(plan: &ConditionalPlan) -> (total: u32)
    requires
        plan@.nodes() <= u32::MAX,
    ensures
        total == plan@.nodes(),
    decreases plan,
{
    match &plan.subplans {
        None => 1,
        Some(children) => {
            let ghost below = plan@.subplans->0;
            proof {
                lemma_trees(children@);
                assert(plan@.nodes() == 1 + PlanTree::nodes_among(below, below.len()));
            }
            let mut total: u32 = 1;
            let mut i: usize = 0;
            while i < children.len()
                invariant
                    i <= children@.len(),
                    plan.subplans == Some(*children),
                    below == trees(children@),
                    below.len() == children@.len(),
                    forall|j: int| 0 <= j < below.len() ==> #[trigger] below[j] == children@[j]@,
                    1 + PlanTree::nodes_among(below, below.len()) <= u32::MAX,
                    total == 1 + PlanTree::nodes_among(below, i as nat),
                decreases children@.len() - i,
            {
                proof {
                    lemma_subplan_decreases(plan, i as int);
                }
                proof {
                    PlanTree::lemma_nodes_among_grows(below, (i + 1) as nat, below.len());
                    assert(PlanTree::nodes_among(below, (i + 1) as nat) == PlanTree::nodes_among(
                        below,
                        i as nat,
                    ) + below[i as int].nodes());
                }
                total = total + get_nodes_count(&children[i]);
                i += 1;
            }
            total
        },
    }
}

impl ConditionalPlan {
    /// Tells whether `other` is the same plan: the actions agree and the
    /// subplans are the same plans, whatever values the plans have stored.
    pub fn same_as(&self, other: &ConditionalPlan) -> (same: bool)
        ensures
            same == self@.same_plan(other@),
        decreases self,
    {
        if self.action != other.action {
            return false;
        }
        match (&self.subplans, &other.subplans) {
            (None, None) => true,
            (Some(mine), Some(theirs)) => {
                let ghost left = self@.subplans->0;
                let ghost right = other@.subplans->0;
                proof {
                    lemma_trees(mine@);
                    lemma_trees(theirs@);
                }
                if mine.len() != theirs.len() {
                    return false;
                }
                let mut i: usize = 0;
                while i < mine.len()
                    invariant
                        i <= mine@.len(),
                        mine@.len() == theirs@.len(),
                        self.subplans == Some(*mine),
                        self.action == other.action,
                        self@.subplans == Some(left),
                        other@.subplans == Some(right),
                        left == trees(mine@),
                        right == trees(theirs@),
                        left.len() == mine@.len(),
                        right.len() == theirs@.len(),
                        forall|j: int| 0 <= j < left.len() ==> #[trigger] left[j] == mine@[j]@,
                        forall|j: int| 0 <= j < right.len() ==> #[trigger] right[j] == theirs@[j]@,
                        forall|j: int| 0 <= j < i ==> (#[trigger] left[j]).same_plan(right[j]),
                    decreases mine@.len() - i,
                {
                    proof {
                        lemma_subplan_decreases(self, i as int);
                    }
                    if !mine[i].same_as(&theirs[i]) {
                        assert(!left[i as int].same_plan(right[i as int]));
                        return false;
                    }
                    i += 1;
                }
                true
            },
            _ => false,
        }
    }
}

impl Clone for ConditionalPlan {
    fn clone(&self) -> (copy: Self)
        ensures
            copy@ == self@,
    {
        self.duplicate()
    }
}

impl Default for ConditionalPlan {
    fn default() -> (plan: Self)
        ensures
            plan@ == (PlanTree { action: 0, subplans: None, alphavector: Seq::empty() }),
    {
        ConditionalPlan::leaf(0)
    }
}

} // verus!

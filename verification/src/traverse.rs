//! Walking over the nodes of a conditional plan, level by level.
use crate::plan::{lemma_subplan_decreases, lemma_trees, trees, ConditionalPlan, PlanTree};
use vstd::prelude::*;

verus! {

/// The name `a` stands behind the name `b` in the order of names: at the
/// first place where the two differ `a` has the higher character, or `b`
/// ends there and `a` does not.
pub open spec fn name_above(a: Seq<char>, b: Seq<char>) -> bool
    decreases a.len(),
{
    if a.len() == 0 {
        false
    } else if b.len() == 0 {
        true
    } else if a[0] as u32 == b[0] as u32 {
        name_above(a.drop_first(), b.drop_first())
    } else {
        a[0] as u32 > b[0] as u32
    }
}

/// The names of actions as sequences of characters.
pub open spec fn names_of(action_space: Seq<String>) -> Seq<Seq<char>> {
    Seq::new(action_space.len(), |i: int| action_space[i]@)
}

/// The name of action `a`; the empty name where `names` holds none for it.
pub open spec fn name_of(names: Seq<Seq<char>>, a: usize) -> Seq<char> {
    if a < names.len() {
        names[a as int]
    } else {
        Seq::empty()
    }
}

/// The name of action `a` stands behind the name of action `b`.
pub open spec fn above(names: Seq<Seq<char>>, a: usize, b: usize) -> bool {
    name_above(name_of(names, a), name_of(names, b))
}

/// No name stands behind itself.
pub proof fn lemma_name_not_above_itself(a: Seq<char>)
    ensures
        !name_above(a, a),
    decreases a.len(),
{
    if a.len() > 0 {
        lemma_name_not_above_itself(a.drop_first());
    }
}

/// Of two names at most one stands behind the other.
pub proof fn lemma_name_above_one_way(a: Seq<char>, b: Seq<char>)
    requires
        name_above(a, b),
    ensures
        !name_above(b, a),
    decreases a.len(),
{
    if a.len() > 0 && b.len() > 0 && a[0] as u32 == b[0] as u32 {
        lemma_name_above_one_way(a.drop_first(), b.drop_first());
    }
}

/// If `a` does not stand behind `b`, nor `b` behind `c`, then `a` does not
/// stand behind `c`.
pub proof fn lemma_name_order_transitive(a: Seq<char>, b: Seq<char>, c: Seq<char>)
    requires
        !name_above(a, b),
        !name_above(b, c),
    ensures
        !name_above(a, c),
    decreases a.len(),
{
    if a.len() > 0 && b.len() > 0 && c.len() > 0 && a[0] as u32 == b[0] as u32 && b[0] as u32
        == c[0] as u32 {
        lemma_name_order_transitive(a.drop_first(), b.drop_first(), c.drop_first());
    }
}

/// The children of the first `n` plans of `frontier`, in their order.
pub open spec fn children_of(frontier: Seq<PlanTree>, n: nat) -> Seq<PlanTree>
    decreases n,
{
    if n == 0 {
        Seq::empty()
    } else {
        children_of(frontier, (n - 1) as nat) + frontier[n - 1].children()
    }
}

/// `sorted` with `x` put in behind the last plan whose action's name does
/// not stand behind the name of the action of `x`.
pub open spec fn inserted(names: Seq<Seq<char>>, sorted: Seq<PlanTree>, x: PlanTree) -> Seq<PlanTree>
    decreases sorted.len(),
{
    if sorted.len() == 0 {
        seq![x]
    } else if !above(names, sorted.last().action, x.action) {
        sorted.push(x)
    } else {
        inserted(names, sorted.drop_last(), x).push(sorted.last())
    }
}

/// The first `n` plans of `items` in the order of the names of their
/// actions; plans with the same action keep their order.
pub open spec fn by_action(names: Seq<Seq<char>>, items: Seq<PlanTree>, n: nat) -> Seq<PlanTree>
    decreases n,
{
    if n == 0 {
        Seq::empty()
    } else {
        inserted(names, by_action(names, items, (n - 1) as nat), items[n - 1])
    }
}

/// The nodes of `levels` levels, the plans of `frontier` being the first
/// level: level after level, each level in the order of its actions.
pub open spec fn level_order(names: Seq<Seq<char>>, frontier: Seq<PlanTree>, levels: nat) -> Seq<PlanTree>
    decreases levels,
{
    if levels == 0 {
        Seq::empty()
    } else {
        by_action(names, frontier, frontier.len()) + level_order(names, 
            children_of(frontier, frontier.len()),
            (levels - 1) as nat,
        )
    }
}

/// The names of the actions of `items` never go back in the order of names.
pub open spec fn ascending(names: Seq<Seq<char>>, items: Seq<PlanTree>) -> bool {
    forall|i: int, j: int|
        0 <= i <= j < items.len() ==> !above(names, items[i].action, items[j].action)
}

impl PlanTree {
    /// The nodes of the plan, breadth first: the root, then the nodes of the
    /// second level, and so on; the nodes of one level stand in the order of
    /// the names of their actions, and nodes with the same action in the
    /// order of the observations that lead to them.
    pub open spec fn breadth_first(self, names: Seq<Seq<char>>) -> Seq<PlanTree> {
        level_order(names, seq![self], self.depth())
    }
}

/// The trees of the plans that `stack` refers to.
pub open spec fn trees_of(stack: Seq<&ConditionalPlan>) -> Seq<PlanTree> {
    Seq::new(stack.len(), |i: int| (*stack[i])@)
}

/// Putting a plan into an ascending sequence keeps it ascending, and adds
/// one plan.
pub proof fn lemma_inserted(names: Seq<Seq<char>>, sorted: Seq<PlanTree>, x: PlanTree)
    requires
        ascending(names, sorted),
    ensures
        ascending(names, inserted(names, sorted, x)),
        inserted(names, sorted, x).len() == sorted.len() + 1,
        inserted(names, sorted, x).to_multiset() == sorted.to_multiset().insert(x),
    decreases sorted.len(),
{
    broadcast use vstd::seq_lib::group_to_multiset_ensures;

    let result = inserted(names, sorted, x);
    lemma_name_not_above_itself(name_of(names, x.action));
    if sorted.len() == 0 {
        assert(sorted =~= Seq::empty());
        assert(result =~= Seq::<PlanTree>::empty().push(x));
    } else if !above(names, sorted.last().action, x.action) {
        assert forall|i: int, j: int| 0 <= i <= j < result.len() implies !above(
            names,
            result[i].action,
            result[j].action,
        ) by {
            if j < sorted.len() {
                assert(result[i] == sorted[i] && result[j] == sorted[j]);
            } else if i < sorted.len() {
                assert(result[i] == sorted[i]);
                assert(!above(names, sorted[i].action, sorted.last().action));
                lemma_name_order_transitive(
                    name_of(names, sorted[i].action),
                    name_of(names, sorted.last().action),
                    name_of(names, x.action),
                );
            }
        }
    } else {
        let front = sorted.drop_last();
        let last = sorted.last();
        assert(ascending(names, front)) by {
            assert forall|i: int, j: int| 0 <= i <= j < front.len() implies !above(
                names,
                front[i].action,
                front[j].action,
            ) by {
                assert(front[i] == sorted[i] && front[j] == sorted[j]);
            }
        }
        lemma_inserted(names, front, x);
        let inner = inserted(names, front, x);
        assert(result == inner.push(last));
        lemma_name_above_one_way(name_of(names, last.action), name_of(names, x.action));
        assert forall|i: int| 0 <= i < inner.len() implies !above(
            names,
            (#[trigger] inner[i]).action,
            last.action,
        ) by {
            assert(inner.to_multiset().count(inner[i]) > 0);
            if inner[i] != x {
                assert(front.to_multiset().count(inner[i]) > 0);
                let k = choose|k: int| 0 <= k < front.len() && front[k] == inner[i];
                assert(sorted[k] == front[k]);
                assert(!above(names, sorted[k].action, sorted[sorted.len() - 1].action));
            }
        }
        lemma_name_not_above_itself(name_of(names, last.action));
        assert forall|i: int, j: int| 0 <= i <= j < result.len() implies !above(
            names,
            result[i].action,
            result[j].action,
        ) by {
            if j < inner.len() {
                assert(result[i] == inner[i] && result[j] == inner[j]);
            } else if i < inner.len() {
                assert(result[i] == inner[i]);
            }
        }
        assert(sorted =~= front.push(last));
    }
}

/// `by_action` is ascending and holds the plans it was given, each as often
/// as it was given.
pub proof fn lemma_by_action(names: Seq<Seq<char>>, items: Seq<PlanTree>, n: nat)
    requires
        n <= items.len(),
    ensures
        ascending(names, by_action(names, items, n)),
        by_action(names, items, n).len() == n,
        by_action(names, items, n).to_multiset() == items.subrange(0, n as int).to_multiset(),
    decreases n,
{
    broadcast use vstd::seq_lib::group_to_multiset_ensures;

    if n == 0 {
        assert(items.subrange(0, 0) =~= Seq::empty());
        assert(by_action(names, items, 0) =~= Seq::empty());
    } else {
        lemma_by_action(names, items, (n - 1) as nat);
        lemma_inserted(names, by_action(names, items, (n - 1) as nat), items[n - 1]);
        assert(items.subrange(0, n as int) =~= items.subrange(0, n - 1).push(items[n - 1]));
    }
}

/// The nodes of two sequences of plans are the nodes of the one and the
/// nodes of the other.
pub proof fn lemma_nodes_among_concat(one: Seq<PlanTree>, other: Seq<PlanTree>, n: nat)
    requires
        n <= other.len(),
    ensures
        PlanTree::nodes_among(one + other, one.len() + n) == PlanTree::nodes_among(
            one,
            one.len(),
        ) + PlanTree::nodes_among(other, n),
    decreases n,
{
    let both = one + other;
    if n == 0 {
        lemma_nodes_among_prefix(both, one, one.len());
        assert(PlanTree::nodes_among(other, 0) == 0);
    } else {
        lemma_nodes_among_concat(one, other, (n - 1) as nat);
        assert(both[one.len() + n - 1] == other[n - 1]);
        assert(PlanTree::nodes_among(both, one.len() + n) == PlanTree::nodes_among(
            both,
            (one.len() + n - 1) as nat,
        ) + both[one.len() + n - 1].nodes());
        assert(PlanTree::nodes_among(other, n) == PlanTree::nodes_among(other, (n - 1) as nat)
            + other[n - 1].nodes());
    }
}

/// The count of nodes among the first `n` plans looks at those plans only.
pub proof fn lemma_nodes_among_prefix(one: Seq<PlanTree>, other: Seq<PlanTree>, n: nat)
    requires
        n <= one.len(),
        n <= other.len(),
        forall|i: int| 0 <= i < n ==> one[i] == other[i],
    ensures
        PlanTree::nodes_among(one, n) == PlanTree::nodes_among(other, n),
    decreases n,
{
    if n > 0 {
        lemma_nodes_among_prefix(one, other, (n - 1) as nat);
        assert(PlanTree::nodes_among(one, n) == PlanTree::nodes_among(one, (n - 1) as nat)
            + one[n - 1].nodes());
        assert(PlanTree::nodes_among(other, n) == PlanTree::nodes_among(other, (n - 1) as nat)
            + other[n - 1].nodes());
    } else {
        assert(PlanTree::nodes_among(one, 0) == 0);
        assert(PlanTree::nodes_among(other, 0) == 0);
    }
}

/// The deepest of two sequences of plans is the deeper of their deepest.
pub proof fn lemma_deepest_concat(one: Seq<PlanTree>, other: Seq<PlanTree>, n: nat)
    requires
        n <= other.len(),
    ensures
        PlanTree::deepest(one + other, one.len() + n) == if PlanTree::deepest(other, n)
            > PlanTree::deepest(one, one.len()) {
            PlanTree::deepest(other, n)
        } else {
            PlanTree::deepest(one, one.len())
        },
    decreases n,
{
    let both = one + other;
    if n == 0 {
        lemma_deepest_prefix(both, one, one.len());
        assert(PlanTree::deepest(other, 0) == 0);
    } else {
        lemma_deepest_concat(one, other, (n - 1) as nat);
        assert(both[one.len() + n - 1] == other[n - 1]);
        let rest = PlanTree::deepest(both, (one.len() + n - 1) as nat);
        let last = both[one.len() + n - 1].depth();
        assert(PlanTree::deepest(both, one.len() + n) == if last > rest {
            last
        } else {
            rest
        });
        let rest_other = PlanTree::deepest(other, (n - 1) as nat);
        assert(PlanTree::deepest(other, n) == if last > rest_other {
            last
        } else {
            rest_other
        });
    }
}

/// The deepest among the first `n` plans looks at those plans only.
pub proof fn lemma_deepest_prefix(one: Seq<PlanTree>, other: Seq<PlanTree>, n: nat)
    requires
        n <= one.len(),
        n <= other.len(),
        forall|i: int| 0 <= i < n ==> one[i] == other[i],
    ensures
        PlanTree::deepest(one, n) == PlanTree::deepest(other, n),
    decreases n,
{
    if n > 0 {
        lemma_deepest_prefix(one, other, (n - 1) as nat);
        let rest = PlanTree::deepest(one, (n - 1) as nat);
        let last = one[n - 1].depth();
        assert(PlanTree::deepest(one, n) == if last > rest {
            last
        } else {
            rest
        });
        assert(PlanTree::deepest(other, n) == if last > rest {
            last
        } else {
            rest
        });
    } else {
        assert(PlanTree::deepest(one, 0) == 0);
        assert(PlanTree::deepest(other, 0) == 0);
    }
}

/// The children of a frontier hold all nodes of the frontier but the
/// frontier itself, and lie one level less deep.
pub proof fn lemma_children_of(frontier: Seq<PlanTree>, n: nat)
    requires
        n <= frontier.len(),
    ensures
        PlanTree::nodes_among(frontier, n) == n + PlanTree::nodes_among(
            children_of(frontier, n),
            children_of(frontier, n).len(),
        ),
        n > 0 ==> PlanTree::deepest(frontier, n) == 1 + PlanTree::deepest(
            children_of(frontier, n),
            children_of(frontier, n).len(),
        ),
        n == 0 ==> PlanTree::deepest(frontier, n) == 0,
    decreases n,
{
    if n == 0 {
        assert(PlanTree::nodes_among(frontier, 0) == 0);
        assert(PlanTree::deepest(frontier, 0) == 0);
        assert(children_of(frontier, 0).len() == 0);
        assert(PlanTree::nodes_among(children_of(frontier, 0), 0) == 0);
    } else {
        let m = (n - 1) as nat;
        lemma_children_of(frontier, m);
        let before = children_of(frontier, m);
        let plan = frontier[n - 1];
        let below = plan.children();
        assert(children_of(frontier, n) == before + below);
        lemma_nodes_among_concat(before, below, below.len());
        lemma_deepest_concat(before, below, below.len());
        assert(PlanTree::nodes_among(frontier, n) == PlanTree::nodes_among(frontier, m)
            + plan.nodes());
        let rest = PlanTree::deepest(frontier, m);
        assert(PlanTree::deepest(frontier, n) == if plan.depth() > rest {
            plan.depth()
        } else {
            rest
        });
        match plan.subplans {
            None => {
                assert(plan.nodes() == 1);
                assert(plan.depth() == 1);
                assert(below.len() == 0);
                assert(PlanTree::nodes_among(below, 0) == 0);
                assert(PlanTree::deepest(below, 0) == 0);
            },
            Some(children) => {
                assert(plan.nodes() == 1 + PlanTree::nodes_among(children, children.len()));
                assert(plan.depth() == 1 + PlanTree::deepest(children, children.len()));
            },
        }
        if m == 0 {
            assert(before.len() == 0);
            assert(PlanTree::deepest(before, 0) == 0);
        }
    }
}

/// A walk over enough levels takes as many nodes as the frontier has.
pub proof fn lemma_level_order_len(names: Seq<Seq<char>>, frontier: Seq<PlanTree>, levels: nat)
    requires
        PlanTree::deepest(frontier, frontier.len()) <= levels,
    ensures
        level_order(names, frontier, levels).len() == PlanTree::nodes_among(frontier, frontier.len()),
    decreases levels,
{
    lemma_children_of(frontier, frontier.len());
    if levels == 0 {
        assert(frontier.len() == 0);
    } else {
        lemma_by_action(names, frontier, frontier.len());
        let next = children_of(frontier, frontier.len());
        if frontier.len() == 0 {
            assert(next.len() == 0);
            assert(PlanTree::deepest(next, 0) == 0);
        }
        lemma_level_order_len(names, next, (levels - 1) as nat);
    }
}

/// The breadth-first walk takes every node of the plan once.
pub proof fn lemma_breadth_first_len(plan: PlanTree, names: Seq<Seq<char>>)
    ensures
        plan.breadth_first(names).len() == plan.nodes(),
{
    let frontier = seq![plan];
    assert(PlanTree::deepest(frontier, 1) == {
        let rest = PlanTree::deepest(frontier, 0);
        if plan.depth() > rest {
            plan.depth()
        } else {
            rest
        }
    });
    assert(PlanTree::deepest(frontier, 0) == 0);
    assert(PlanTree::nodes_among(frontier, 1) == PlanTree::nodes_among(frontier, 0)
        + plan.nodes());
    assert(PlanTree::nodes_among(frontier, 0) == 0);
    lemma_level_order_len(names, frontier, plan.depth());
}

/// A walk over the nodes of a conditional plan. The nodes that are left
/// stand in a stack, and the walk takes them from its top.
pub struct ConditionalPlanIterator<'a> {
    stack: Vec<&'a ConditionalPlan>,
}

impl<'a> View for ConditionalPlanIterator<'a> {
    type V = Seq<PlanTree>;

    /// The nodes that are left, the next one last.
    closed spec fn view(&self) -> Seq<PlanTree> {
        trees_of(self.stack@)
    }
}

/// The number of decision steps that `plan` covers.
pub fn depth_of(plan: &ConditionalPlan) -> (depth: u32)
    requires
        plan@.depth() <= u32::MAX,
    ensures
        depth == plan@.depth(),
    decreases plan,
{
    match &plan.subplans {
        None => 1,
        Some(children) => {
            let ghost below = plan@.subplans->0;
            proof {
                lemma_trees(children@);
                assert(plan@.depth() == 1 + PlanTree::deepest(below, below.len()));
            }
            let mut deepest: u32 = 0;
            let mut i: usize = 0;
            while i < children.len()
                invariant
                    i <= children@.len(),
                    plan.subplans == Some(*children),
                    below == trees(children@),
                    below.len() == children@.len(),
                    forall|j: int| 0 <= j < below.len() ==> #[trigger] below[j] == children@[j]@,
                    1 + PlanTree::deepest(below, below.len()) <= u32::MAX,
                    deepest == PlanTree::deepest(below, i as nat),
                decreases children@.len() - i,
            {
                proof {
                    lemma_subplan_decreases(plan, i as int);
                }
                proof {
                    PlanTree::lemma_deepest_covers(below, below.len(), i as int);
                    let rest = PlanTree::deepest(below, i as nat);
                    let last = below[i as int].depth();
                    assert(PlanTree::deepest(below, (i + 1) as nat) == if last > rest {
                        last
                    } else {
                        rest
                    });
                }
                let d = depth_of(&children[i]);
                if d > deepest {
                    deepest = d;
                }
                i += 1;
            }
            1 + deepest
        },
    }
}

/// The children of the plans of `frontier`, in their order.
fn next_level<'a>(frontier: &Vec<&'a ConditionalPlan>) -> (next: Vec<&'a ConditionalPlan>)
    ensures
        trees_of(next@) == children_of(trees_of(frontier@), frontier@.len()),
{
    let mut next: Vec<&'a ConditionalPlan> = Vec::new();
    let mut i: usize = 0;
    assert(trees_of(next@) =~= children_of(trees_of(frontier@), 0));
    while i < frontier.len()
        invariant
            i <= frontier@.len(),
            trees_of(next@) == children_of(trees_of(frontier@), i as nat),
        decreases frontier@.len() - i,
    {
        let plan: &'a ConditionalPlan = frontier[i];
        let ghost before = trees_of(next@);
        match &plan.subplans {
            None => {
                assert(plan@.children() =~= Seq::empty());
                assert(before + plan@.children() =~= before);
            },
            Some(children) => {
                proof {
                    lemma_trees(children@);
                }
                let mut j: usize = 0;
                while j < children.len()
                    invariant
                        j <= children@.len(),
                        plan@.children() == trees(children@),
                        trees(children@).len() == children@.len(),
                        forall|k: int|
                            0 <= k < children@.len() ==> #[trigger] trees(children@)[k]
                                == children@[k]@,
                        trees_of(next@) == before + plan@.children().subrange(0, j as int),
                    decreases children@.len() - j,
                {
                    let ghost so_far = trees_of(next@);
                    next.push(&children[j]);
                    assert(trees_of(next@) =~= so_far.push(children@[j as int]@));
                    assert(trees_of(next@) =~= before + plan@.children().subrange(0, j + 1));
                    j += 1;
                }
                assert(plan@.children().subrange(0, j as int) =~= plan@.children());
            },
        }
        assert(trees_of(frontier@)[i as int] == plan@);
        i += 1;
    }
    next
}

/// Tells whether the name of action `a` stands behind the name of action
/// `b` in the order of names. An action without a name has the empty name.
pub fn stands_behind(action_space: &Vec<String>, a: usize, b: usize) -> (behind: bool)
    ensures
        behind == above(names_of(action_space@), a, b),
{
    let ghost one = name_of(names_of(action_space@), a);
    let ghost other = name_of(names_of(action_space@), b);
    if a >= action_space.len() {
        return false;
    }
    if b >= action_space.len() {
        return action_space[a].as_str().unicode_len() > 0;
    }
    let x = action_space[a].as_str();
    let y = action_space[b].as_str();
    let n = x.unicode_len();
    let m = y.unicode_len();
    let mut i: usize = 0;
    assert(one.subrange(0, n as int) =~= one);
    assert(other.subrange(0, m as int) =~= other);
    while i < n && i < m
        invariant
            i <= n,
            i <= m,
            x@ == one,
            y@ == other,
            one == name_of(names_of(action_space@), a),
            other == name_of(names_of(action_space@), b),
            n == one.len(),
            m == other.len(),
            name_above(one, other) == name_above(
                one.subrange(i as int, n as int),
                other.subrange(i as int, m as int),
            ),
        decreases n - i,
    {
        let c = x.get_char(i);
        let d = y.get_char(i);
        proof {
            let rest = one.subrange(i as int, n as int);
            let others = other.subrange(i as int, m as int);
            assert(rest[0] == c && others[0] == d);
            assert(rest.drop_first() =~= one.subrange(i + 1, n as int));
            assert(others.drop_first() =~= other.subrange(i + 1, m as int));
            assert(name_above(rest, others) == if c as u32 == d as u32 {
                name_above(rest.drop_first(), others.drop_first())
            } else {
                c as u32 > d as u32
            });
            assert(above(names_of(action_space@), a, b) == name_above(one, other));
        }
        if c as u32 != d as u32 {
            return c as u32 > d as u32;
        }
        i += 1;
    }
    i < n
}

/// Puts `plan` into `sorted` behind the last plan whose action is not above
/// the action of `plan`.
fn insert_by_action<'a>(
    action_space: &Vec<String>,
    sorted: &mut Vec<&'a ConditionalPlan>,
    plan: &'a ConditionalPlan,
)
    ensures
        trees_of(final(sorted)@) == inserted(
            names_of(action_space@),
            trees_of(old(sorted)@),
            plan@,
        ),
{
    let ghost labels = names_of(action_space@);
    let ghost start = trees_of(sorted@);
    let mut at: usize = sorted.len();
    proof {
        assert(start.subrange(0, at as int) =~= start);
        assert(inserted(labels, start, plan@) + start.subrange(at as int, start.len() as int)
            =~= inserted(labels, start, plan@));
    }
    while at > 0 && stands_behind(action_space, sorted[at - 1].action, plan.action)
        invariant
            at <= sorted@.len(),
            start == trees_of(sorted@),
            labels == names_of(action_space@),
            inserted(labels, start, plan@) == inserted(labels, start.subrange(0, at as int), plan@)
                + start.subrange(at as int, start.len() as int),
        decreases at,
    {
        proof {
            let front = start.subrange(0, at as int);
            assert(front.last() == start[at - 1]);
            assert(front.drop_last() =~= start.subrange(0, at - 1));
            assert(inserted(labels, front, plan@) == inserted(labels, front.drop_last(), plan@).push(front.last()));
            assert(inserted(labels, front.drop_last(), plan@).push(front.last()) + start.subrange(
                at as int,
                start.len() as int,
            ) =~= inserted(labels, front.drop_last(), plan@) + start.subrange(
                at - 1,
                start.len() as int,
            ));
        }
        at -= 1;
    }
    proof {
        let front = start.subrange(0, at as int);
        if at > 0 {
            assert(front.last() == start[at - 1]);
        }
        assert(inserted(labels, front, plan@) =~= front.push(plan@));
    }
    sorted.insert(at, plan);
    assert(trees_of(sorted@) =~= start.subrange(0, at as int).push(plan@) + start.subrange(
        at as int,
        start.len() as int,
    ));
}

/// The plans of `frontier` in the order of the names of their actions;
/// plans with the same action keep their order.
fn sort_by_action<'a>(action_space: &Vec<String>, frontier: &Vec<&'a ConditionalPlan>) -> (sorted:
    Vec<&'a ConditionalPlan>)
    ensures
        trees_of(sorted@) == by_action(
            names_of(action_space@),
            trees_of(frontier@),
            frontier@.len(),
        ),
{
    let ghost labels = names_of(action_space@);
    let mut sorted: Vec<&'a ConditionalPlan> = Vec::new();
    let mut i: usize = 0;
    assert(trees_of(sorted@) =~= by_action(labels, trees_of(frontier@), 0));
    while i < frontier.len()
        invariant
            i <= frontier@.len(),
            labels == names_of(action_space@),
            trees_of(sorted@) == by_action(labels, trees_of(frontier@), i as nat),
        decreases frontier@.len() - i,
    {
        insert_by_action(action_space, &mut sorted, frontier[i]);
        i += 1;
    }
    sorted
}

impl ConditionalPlan {
    /// A walk over the nodes of the plan that takes them in the reverse of
    /// breadth-first order: the lowest level first and the root last, and
    /// within a level the node first whose action has the last name.
    /// `action_space` holds the names of the actions.
    pub fn into_iter<'a>(&'a self, action_space: &Vec<String>) -> (walk: ConditionalPlanIterator<
        'a,
    >)
        requires
            self@.depth() <= u32::MAX,
        ensures
            walk@ == self@.breadth_first(names_of(action_space@)),
            walk@.len() == self@.nodes(),
    {
        let ghost labels = names_of(action_space@);
        proof {
            lemma_breadth_first_len(self@, labels);
        }
        let depth = depth_of(self);
        let mut vector: Vec<&ConditionalPlan> = Vec::new();
        let mut frontier: Vec<&ConditionalPlan> = Vec::new();
        frontier.push(self);
        let ghost root = trees_of(frontier@);
        assert(root =~= seq![self@]);
        assert(trees_of(vector@) + level_order(labels, root, depth as nat) =~= level_order(labels, 
            root,
            depth as nat,
        ));
        let mut level: u32 = 0;
        while level < depth
            invariant
                level <= depth,
                labels == names_of(action_space@),
                trees_of(vector@) + level_order(labels, trees_of(frontier@), (depth - level) as nat)
                    == level_order(labels, root, depth as nat),
            decreases depth - level,
        {
            let ghost done = trees_of(vector@);
            let ghost layer = trees_of(frontier@);
            let mut sorted = sort_by_action(action_space, &frontier);
            let ghost ordered = trees_of(sorted@);
            vector.append(&mut sorted);
            frontier = next_level(&frontier);
            proof {
                assert(trees_of(vector@) =~= done + ordered);
                assert(level_order(labels, layer, (depth - level) as nat) == ordered + level_order(labels, 
                    children_of(layer, layer.len()),
                    (depth - level - 1) as nat,
                ));
                assert(done + (ordered + level_order(labels, 
                    trees_of(frontier@),
                    (depth - level - 1) as nat,
                )) =~= (done + ordered) + level_order(labels, 
                    trees_of(frontier@),
                    (depth - level - 1) as nat,
                ));
            }
            level += 1;
        }
        assert(trees_of(vector@) + level_order(labels, trees_of(frontier@), 0) =~= trees_of(vector@));
        ConditionalPlanIterator { stack: vector }
    }
}

impl<'a> ConditionalPlanIterator<'a> {
    /// Takes the next node: the last of those that are left.
    pub fn next(&mut self) -> (node: Option<&'a ConditionalPlan>)
        ensures
            match node {
                Some(plan) => {
                    &&& old(self)@.len() > 0
                    &&& plan@ == old(self)@.last()
                    &&& final(self)@ == old(self)@.drop_last()
                },
                None => old(self)@.len() == 0 && final(self)@ == old(self)@,
            },
    {
        let ghost before = self.stack@;
        let node = self.stack.pop();
        proof {
            if before.len() > 0 {
                assert(trees_of(self.stack@) =~= trees_of(before).drop_last());
            }
        }
        node
    }
}

} // verus!

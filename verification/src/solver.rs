//! Value iteration over conditional plans: rounds of expansion and pruning.
use crate::dominance::{all_of_length, can_be_asked};
use crate::backup::{backup_vector, chosen, reward_alpha, reward_vector};
use crate::evaluate::lemma_depth_bound;
use crate::expand::{
    assignments, chosen_plans, combined, digit, digits, expand, expansion_alphas, expansion_count,
    expansion_plan, expansion_plans, expansion_size, power,
};
use crate::fixed::{all_bounded, bounded, ints, rows, DEPTH_LIMIT, REWARD_LIMIT, VALUE_LIMIT};
use crate::model::POMDP;
use crate::plan::{lemma_trees, trees, ConditionalPlan, PlanTree};
use crate::prune::{prune, pruned, rectangular, selected};
use vstd::arithmetic::div_mod::{lemma_fundamental_div_mod, lemma_mod_bound};
use vstd::prelude::*;

verus! {

/// What `solve` hands back: the model, the plans that are not dominated at
/// the horizon that was asked for, and their alpha vectors. `big_gamma[i]`
/// is the alpha vector of `plans[i]`.
#[derive(Debug)]
pub struct LookaheadAlphaVectorPolicy {
    pub pomdp: POMDP,
    pub plans: Vec<ConditionalPlan>,
    pub big_gamma: Vec<Vec<i64>>,
}

/// The leaf that takes action `a`, with its alpha vector stored.
pub open spec fn leaf_plan(pomdp: &POMDP, a: int) -> PlanTree {
    PlanTree { action: a as usize, subplans: None, alphavector: reward_vector(pomdp, a) }
}

/// The plans of depth one: a leaf for each action.
pub open spec fn leaf_plans(pomdp: &POMDP) -> Seq<PlanTree> {
    Seq::new(pomdp.n_actions(), |a: int| leaf_plan(pomdp, a))
}

/// The alpha vectors of the plans of depth one.
pub open spec fn leaf_alphas(pomdp: &POMDP) -> Seq<Seq<int>> {
    Seq::new(pomdp.n_actions(), |a: int| reward_vector(pomdp, a))
}

/// The number of steps that the plans of round `depth` cover: `depth`, unless
/// the model has no observation, where no plan gets subplans to follow.
pub open spec fn steps_covered(pomdp: &POMDP, depth: nat) -> nat {
    if pomdp.n_observations() > 0 {
        depth
    } else {
        1
    }
}

/// `plans` and `alphas` belong together: each plan fits the model, covers
/// the steps of round `depth`, and has its alpha vector, which is
/// `alphas[i]`, stored.
pub open spec fn coherent(
    pomdp: &POMDP,
    plans: Seq<PlanTree>,
    alphas: Seq<Seq<int>>,
    depth: nat,
) -> bool {
    &&& plans.len() == alphas.len()
    &&& forall|i: int|
        0 <= i < plans.len() ==> {
            &&& (#[trigger] plans[i]).fits(pomdp)
            &&& plans[i].cache_ok(pomdp)
            &&& plans[i].depth() == steps_covered(pomdp, depth)
            &&& plans[i].alphavector == alphas[i]
            &&& alphas[i] == plans[i].alpha(pomdp)
        }
}

/// One round: `plans` and `alphas` come from `earlier_plans` and
/// `earlier_alphas` by expanding and then pruning with `solver`. If the
/// expansion is empty, nothing changes.
pub open spec fn next_round<F: Fn(&Vec<i64>, &Vec<Vec<i64>>) -> Option<Vec<i64>>>(
    solver: &F,
    pomdp: &POMDP,
    earlier_plans: Seq<PlanTree>,
    earlier_alphas: Seq<Seq<int>>,
    plans: Seq<PlanTree>,
    alphas: Seq<Seq<int>>,
) -> bool {
    if expansion_size(pomdp, earlier_plans.len()) == 0 {
        plans == earlier_plans && alphas == earlier_alphas
    } else {
        pruned(
            solver,
            expansion_plans(pomdp, earlier_plans, earlier_alphas),
            expansion_alphas(pomdp, earlier_plans, earlier_alphas),
            plans,
            alphas,
        )
    }
}

/// The plans that are left after some step of value iteration, and their
/// alpha vectors.
pub struct Round {
    pub plans: Seq<PlanTree>,
    pub alphas: Seq<Seq<int>>,
}

/// Round `i + 1` of `rounds` comes from round `i` by expanding and pruning.
pub open spec fn follows<F: Fn(&Vec<i64>, &Vec<Vec<i64>>) -> Option<Vec<i64>>>(
    solver: &F,
    pomdp: &POMDP,
    rounds: Seq<Round>,
    i: int,
) -> bool {
    next_round(
        solver,
        pomdp,
        rounds[i].plans,
        rounds[i].alphas,
        rounds[i + 1].plans,
        rounds[i + 1].alphas,
    )
}

/// `rounds` is a run of value iteration with `solver`: it starts with the
/// leaves, pruned, and each further round comes from the one before by
/// expanding and pruning.
pub open spec fn is_run<F: Fn(&Vec<i64>, &Vec<Vec<i64>>) -> Option<Vec<i64>>>(
    solver: &F,
    pomdp: &POMDP,
    rounds: Seq<Round>,
) -> bool {
    &&& rounds.len() >= 1
    &&& pruned(solver, leaf_plans(pomdp), leaf_alphas(pomdp), rounds[0].plans, rounds[0].alphas)
    &&& forall|i: int| 0 <= i < rounds.len() - 1 ==> #[trigger] follows(solver, pomdp, rounds, i)
}

/// `plans` and `alphas` are an outcome of value iteration with `solver` over
/// `horizon` steps: the last round of a run of `horizon` rounds.
pub open spec fn solved<F: Fn(&Vec<i64>, &Vec<Vec<i64>>) -> Option<Vec<i64>>>(
    solver: &F,
    pomdp: &POMDP,
    horizon: nat,
    plans: Seq<PlanTree>,
    alphas: Seq<Seq<int>>,
) -> bool {
    exists|rounds: Seq<Round>|
        {
            &&& rounds.len() == horizon
            &&& #[trigger] is_run(solver, pomdp, rounds)
            &&& rounds.last() == (Round { plans, alphas })
        }
}

/// Value iteration cannot go on after `reached` steps: the expansion of
/// some outcome of that many steps has more plans than the machine can
/// count.
pub open spec fn too_large<F: Fn(&Vec<i64>, &Vec<Vec<i64>>) -> Option<Vec<i64>>>(
    solver: &F,
    pomdp: &POMDP,
    reached: nat,
) -> bool {
    exists|plans: Seq<PlanTree>, alphas: Seq<Seq<int>>|
        {
            &&& #[trigger] solved(solver, pomdp, reached, plans, alphas)
            &&& expansion_size(pomdp, plans.len()) > usize::MAX
        }
}

/// Children that all have one depth have that depth as their deepest.
pub proof fn lemma_deepest_exact(children: Seq<PlanTree>, n: nat, depth: nat)
    requires
        1 <= n <= children.len(),
        forall|i: int| 0 <= i < children.len() ==> (#[trigger] children[i]).depth() == depth,
    ensures
        PlanTree::deepest(children, n) == depth,
    decreases n,
{
    let rest = PlanTree::deepest(children, (n - 1) as nat);
    let last = children[n - 1].depth();
    assert(PlanTree::deepest(children, n) == if last > rest {
        last
    } else {
        rest
    });
    if n > 1 {
        lemma_deepest_exact(children, (n - 1) as nat, depth);
    } else {
        assert(rest == 0);
    }
}

/// The leaves belong together with the reward vectors.
pub proof fn lemma_leaves_coherent(pomdp: &POMDP)
    ensures
        coherent(pomdp, leaf_plans(pomdp), leaf_alphas(pomdp), 1),
{
    assert forall|i: int| 0 <= i < leaf_plans(pomdp).len() implies {
        &&& (#[trigger] leaf_plans(pomdp)[i]).fits(pomdp)
        &&& leaf_plans(pomdp)[i].cache_ok(pomdp)
        &&& leaf_plans(pomdp)[i].depth() == steps_covered(pomdp, 1)
        &&& leaf_plans(pomdp)[i].alphavector == leaf_alphas(pomdp)[i]
        &&& leaf_alphas(pomdp)[i] == leaf_plans(pomdp)[i].alpha(pomdp)
    } by {
        let leaf = leaf_plans(pomdp)[i];
        assert(pomdp.action_space.len() == pomdp.n_actions());
        assert(leaf == leaf_plan(pomdp, i));
        assert(leaf.alpha(pomdp) == reward_vector(pomdp, i));
        assert(leaf.depth() == 1);
        assert(leaf.fits(pomdp));
        assert(leaf.cache_ok(pomdp));
    }
}

/// Plans picked from plans that belong together with their alpha vectors,
/// put under a new root, belong together with the backup of the picked
/// alpha vectors.
pub proof fn lemma_combined_coherent(
    pomdp: &POMDP,
    action: usize,
    plans: Seq<PlanTree>,
    alphas: Seq<Seq<int>>,
    choice: Seq<usize>,
    depth: nat,
)
    requires
        coherent(pomdp, plans, alphas, depth),
        action < pomdp.n_actions(),
        choice.len() == pomdp.n_observations(),
        forall|o: int| 0 <= o < choice.len() ==> #[trigger] choice[o] < plans.len(),
    ensures
        ({
            let plan = combined(pomdp, action, plans, alphas, choice);
            &&& plan.fits(pomdp)
            &&& plan.cache_ok(pomdp)
            &&& plan.depth() == steps_covered(pomdp, depth + 1)
            &&& plan.alphavector == plan.alpha(pomdp)
        }),
{
    let plan = combined(pomdp, action, plans, alphas, choice);
    let children = chosen_plans(plans, choice);
    assert(plan.subplans == Some(children));
    assert forall|o: int| 0 <= o < children.len() implies {
        &&& (#[trigger] children[o]).fits(pomdp)
        &&& children[o].cache_ok(pomdp)
        &&& children[o].depth() == depth
        &&& children[o].alpha(pomdp) == chosen(alphas, choice)[o]
    } by {
        assert(choice[o] < plans.len());
        let picked = plans[choice[o] as int];
        assert(picked.fits(pomdp));
        assert(children[o] == picked);
    }
    PlanTree::lemma_alphas(children, pomdp, children.len());
    assert(PlanTree::alphas(children, pomdp, children.len()) =~= chosen(alphas, choice));
    assert(plan.alpha(pomdp) == backup_vector(
        pomdp,
        action as int,
        PlanTree::alphas(children, pomdp, children.len()),
    ));
    if children.len() > 0 {
        lemma_deepest_exact(children, children.len(), depth);
    } else {
        assert(PlanTree::deepest(children, 0) == 0);
    }
    assert(plan.depth() == 1 + PlanTree::deepest(children, children.len()));
    assert(plan.fits(pomdp));
    assert(plan.cache_ok(pomdp));
}

/// Every digit is below the radix.
pub proof fn lemma_digits_within(v: nat, slots: nat, radix: nat)
    requires
        0 < radix <= usize::MAX,
    ensures
        digits(v, slots, radix).len() == slots,
        forall|o: int| 0 <= o < slots ==> #[trigger] digits(v, slots, radix)[o] < radix,
{
    assert forall|o: int| 0 <= o < slots implies #[trigger] digits(v, slots, radix)[o] < radix by {
        let d = digit(v, o as nat, radix);
        lemma_mod_bound(crate::expand::shifted(v, o as nat, radix) as int, radix as int);
        assert(d < radix);
        assert(radix <= usize::MAX);
    }
}

/// The expansion of plans that belong together with their alpha vectors
/// belongs together with its alpha vectors, one step deeper.
pub proof fn lemma_expansion_coherent(
    pomdp: &POMDP,
    plans: Seq<PlanTree>,
    alphas: Seq<Seq<int>>,
    depth: nat,
)
    requires
        coherent(pomdp, plans, alphas, depth),
        plans.len() <= usize::MAX,
    ensures
        coherent(
            pomdp,
            expansion_plans(pomdp, plans, alphas),
            expansion_alphas(pomdp, plans, alphas),
            depth + 1,
        ),
{
    let made = expansion_plans(pomdp, plans, alphas);
    let values = expansion_alphas(pomdp, plans, alphas);
    let per = assignments(pomdp, plans.len()) as int;
    let slots = pomdp.n_observations();
    assert forall|c: int| 0 <= c < made.len() implies {
        &&& (#[trigger] made[c]).fits(pomdp)
        &&& made[c].cache_ok(pomdp)
        &&& made[c].depth() == steps_covered(pomdp, depth + 1)
        &&& made[c].alphavector == values[c]
        &&& values[c] == made[c].alpha(pomdp)
    } by {
        assert(made[c] == expansion_plan(pomdp, plans, alphas, c));
        assert(per > 0) by (nonlinear_arith)
            requires
                0 <= c < pomdp.n_actions() * per,
                per >= 0,
        ;
        let a = c / per;
        let v = c % per;
        lemma_fundamental_div_mod(c, per);
        lemma_mod_bound(c, per);
        assert(0 <= a < pomdp.n_actions()) by (nonlinear_arith)
            requires
                0 <= c < pomdp.n_actions() * per,
                per > 0,
                c == per * a + v,
                0 <= v < per,
        ;
        let choice = digits(v as nat, slots, plans.len());
        if slots > 0 {
            if plans.len() == 0 {
                assert(power(0, slots) == 0 * power(0, (slots - 1) as nat));
                assert(false);
            }
            lemma_digits_within(v as nat, slots, plans.len());
        }
        lemma_combined_coherent(pomdp, a as usize, plans, alphas, choice, depth);
    }
}

/// Whatever a pruning keeps of plans that belong together with their alpha
/// vectors belongs together too.
pub proof fn lemma_selected_coherent(
    pomdp: &POMDP,
    plans: Seq<PlanTree>,
    alphas: Seq<Seq<int>>,
    marks: Seq<bool>,
    depth: nat,
)
    requires
        coherent(pomdp, plans, alphas, depth),
        marks.len() == plans.len(),
    ensures
        coherent(
            pomdp,
            selected(plans, marks, plans.len()),
            selected(alphas, marks, plans.len()),
            depth,
        ),
{
    let n = plans.len();
    let kept = selected(plans, marks, n);
    let values = selected(alphas, marks, n);
    lemma_selected_aligned(plans, alphas, marks, n);
    assert forall|p: int| 0 <= p < kept.len() implies {
        &&& (#[trigger] kept[p]).fits(pomdp)
        &&& kept[p].cache_ok(pomdp)
        &&& kept[p].depth() == steps_covered(pomdp, depth)
        &&& kept[p].alphavector == values[p]
        &&& values[p] == kept[p].alpha(pomdp)
    } by {
        let j = lemma_selected_pair(plans, alphas, marks, n, p);
        assert(plans[j].fits(pomdp));
    }
}

/// Selecting from two sequences by the same marks gives sequences of the
/// same length.
pub proof fn lemma_selected_aligned<S, T>(one: Seq<S>, other: Seq<T>, marks: Seq<bool>, n: nat)
    ensures
        selected(one, marks, n).len() == selected(other, marks, n).len(),
    decreases n,
{
    if n > 0 {
        lemma_selected_aligned(one, other, marks, (n - 1) as nat);
    }
}

/// Items at one position of two selections by the same marks come from one
/// position of the two sequences: the result is that position.
pub proof fn lemma_selected_pair<S, T>(
    one: Seq<S>,
    other: Seq<T>,
    marks: Seq<bool>,
    n: nat,
    p: int,
) -> (j: int)
    requires
        0 <= p < selected(one, marks, n).len(),
    ensures
        0 <= j < n,
        marks[j],
        selected(one, marks, n)[p] == one[j],
        selected(other, marks, n)[p] == other[j],
    decreases n,
{
    lemma_selected_aligned(one, other, marks, n);
    lemma_selected_aligned(one, other, marks, (n - 1) as nat);
    let before = selected(one, marks, (n - 1) as nat);
    if p < before.len() {
        lemma_selected_pair(one, other, marks, (n - 1) as nat, p)
    } else {
        n - 1
    }
}

/// Alpha vectors of plans that belong together with them have one entry for
/// each state and stay within one reward for each step.
pub proof fn lemma_coherent_bounded(
    pomdp: &POMDP,
    plans: Seq<PlanTree>,
    alphas: Seq<Seq<int>>,
    depth: nat,
)
    requires
        pomdp.wf(),
        coherent(pomdp, plans, alphas, depth),
        1 <= depth <= DEPTH_LIMIT,
    ensures
        all_of_length(alphas, pomdp.n_states()),
        rectangular(alphas),
        all_bounded(alphas, VALUE_LIMIT as int),
        depth < DEPTH_LIMIT ==> all_bounded(alphas, VALUE_LIMIT - REWARD_LIMIT),
{
    assert forall|i: int| 0 <= i < alphas.len() implies {
        &&& (#[trigger] alphas[i]).len() == pomdp.n_states()
        &&& bounded(alphas[i], VALUE_LIMIT as int)
        &&& depth < DEPTH_LIMIT ==> bounded(alphas[i], VALUE_LIMIT - REWARD_LIMIT)
    } by {
        assert(plans[i].fits(pomdp));
        plans[i].lemma_alpha_bounded(pomdp);
        let d = plans[i].depth();
        assert(d <= depth);
        lemma_depth_bound(alphas[i], d);
        if depth < DEPTH_LIMIT {
            assert(d < DEPTH_LIMIT);
        }
    }
}

/// The plans of depth one with their alpha vectors.
fn leaves(pomdp: &POMDP) -> (made: (Vec<ConditionalPlan>, Vec<Vec<i64>>))
    ensures
        trees(made.0@) == leaf_plans(pomdp),
        rows(made.1@) == leaf_alphas(pomdp),
        made.0@.len() == made.1@.len(),
{
    let n_actions = pomdp.action_space.len();
    let mut plans: Vec<ConditionalPlan> = Vec::new();
    let mut big_gamma: Vec<Vec<i64>> = Vec::new();
    let mut action: usize = 0;
    while action < n_actions
        invariant
            action <= n_actions,
            n_actions == pomdp.n_actions(),
            plans@.len() == action,
            big_gamma@.len() == action,
            forall|a: int| 0 <= a < action ==> (#[trigger] plans@[a])@ == leaf_plan(pomdp, a),
            forall|a: int|
                0 <= a < action ==> ints((#[trigger] big_gamma@[a])@) == reward_vector(pomdp, a),
        decreases n_actions - action,
    {
        let alpha = reward_alpha(pomdp, action);
        let stored = alpha.clone();
        assert(stored@ =~= alpha@);
        plans.push(ConditionalPlan { action, subplans: None, alphavector: stored });
        big_gamma.push(alpha);
        action += 1;
    }
    proof {
        lemma_trees(plans@);
        assert(trees(plans@) =~= leaf_plans(pomdp));
        assert(rows(big_gamma@) =~= leaf_alphas(pomdp));
    }
    (plans, big_gamma)
}

/// The number of steps that value iteration covers when it is asked for
/// `k_max`: `k_max`, and one where none is asked for.
pub open spec fn horizon_of(k_max: u32) -> nat {
    if k_max == 0 {
        1
    } else {
        k_max as nat
    }
}

/// Value iteration over `k_max` steps. Starts from the leaves, one for each
/// action, pruned; then expands and prunes once for each further step. A
/// round whose expansion is empty changes nothing. Asked for no step, it
/// makes one.
///
/// The result holds the plans that are left and their alpha vectors. There
/// is no result if an expansion would hold more plans than the machine can
/// count.
pub fn value_iteration<F: Fn(&Vec<i64>, &Vec<Vec<i64>>) -> Option<Vec<i64>>>(
    pomdp: &POMDP,
    k_max: u32,
    solver: &F,
) -> (result: Option<(Vec<ConditionalPlan>, Vec<Vec<i64>>)>)
    requires
        pomdp.wf(),
        k_max <= DEPTH_LIMIT,
        can_be_asked(solver),
    ensures
        match result {
            Some(found) => {
                &&& solved(solver, pomdp, horizon_of(k_max), trees(found.0@), rows(found.1@))
                &&& coherent(pomdp, trees(found.0@), rows(found.1@), horizon_of(k_max))
                &&& pomdp.n_actions() > 0 && pomdp.n_states() > 0 ==> found.0@.len() > 0
            },
            None => exists|reached: nat| 1 <= reached < k_max && too_large(solver, pomdp, reached),
        },
{
    let (plans, big_gamma) = leaves(pomdp);
    proof {
        lemma_leaves_coherent(pomdp);
        lemma_coherent_bounded(pomdp, leaf_plans(pomdp), leaf_alphas(pomdp), 1);
        if big_gamma@.len() > 0 {
            assert(rows(big_gamma@)[0] == ints(big_gamma@[0]@));
        }
    }
    let mut result = prune(&plans, &big_gamma, solver);
    proof {
        lemma_pruned_coherent(
            solver,
            pomdp,
            leaf_plans(pomdp),
            leaf_alphas(pomdp),
            trees(result.0@),
            rows(result.1@),
            1,
        );
    }
    let ghost mut rounds: Seq<Round> = seq![
        Round { plans: trees(result.0@), alphas: rows(result.1@) },
    ];
    let mut depth: u32 = 1;
    while depth < k_max
        invariant
            1 <= depth <= horizon_of(k_max) <= DEPTH_LIMIT,
            rounds.len() == depth,
            is_run(solver, pomdp, rounds),
            rounds.last() == (Round { plans: trees(result.0@), alphas: rows(result.1@) }),
            pomdp.wf(),
            can_be_asked(solver),
            result.0@.len() == result.1@.len(),
            coherent(pomdp, trees(result.0@), rows(result.1@), depth as nat),
            pomdp.n_actions() > 0 && pomdp.n_states() > 0 ==> result.0@.len() > 0,
        decreases k_max - depth,
    {
        let ghost earlier_plans = trees(result.0@);
        let ghost earlier_alphas = rows(result.1@);
        proof {
            lemma_trees(result.0@);
        }
        match expansion_count(pomdp, result.0.len()) {
            None => {
                proof {
                    assert(too_large(solver, pomdp, depth as nat)) by {
                        assert(is_run(solver, pomdp, rounds));
                        assert(solved(solver, pomdp, depth as nat, earlier_plans, earlier_alphas));
                        assert(expansion_size(pomdp, earlier_plans.len()) > usize::MAX);
                    }
                }
                return None;
            },
            Some(size) => {
                if size > 0 {
                    proof {
                        lemma_coherent_bounded(
                            pomdp,
                            earlier_plans,
                            earlier_alphas,
                            depth as nat,
                        );
                        lemma_expansion_coherent(
                            pomdp,
                            earlier_plans,
                            earlier_alphas,
                            depth as nat,
                        );
                        lemma_coherent_bounded(
                            pomdp,
                            expansion_plans(pomdp, earlier_plans, earlier_alphas),
                            expansion_alphas(pomdp, earlier_plans, earlier_alphas),
                            (depth + 1) as nat,
                        );
                    }
                    let made = expand(&result.0, &result.1, pomdp);
                    proof {
                        assert(rows(made.1@)[0] == ints(made.1@[0]@));
                        assert(rows(made.1@)[0].len() == pomdp.n_states());
                    }
                    result = prune(&made.0, &made.1, solver);
                    proof {
                        lemma_pruned_coherent(
                            solver,
                            pomdp,
                            expansion_plans(pomdp, earlier_plans, earlier_alphas),
                            expansion_alphas(pomdp, earlier_plans, earlier_alphas),
                            trees(result.0@),
                            rows(result.1@),
                            (depth + 1) as nat,
                        );
                    }
                } else {
                    proof {
                        let n = earlier_plans.len();
                        if n > 0 {
                            assert(earlier_plans[0].fits(pomdp));
                            let per = assignments(pomdp, n);
                            crate::expand::lemma_power_grows(n, 0, pomdp.n_observations());
                            assert(pomdp.n_actions() * per > 0) by (nonlinear_arith)
                                requires
                                    pomdp.n_actions() > 0,
                                    per >= 1,
                            ;
                        }
                        assert(earlier_plans.len() == 0);
                    }
                }
                proof {
                    let before = rounds;
                    rounds = before.push(
                        Round { plans: trees(result.0@), alphas: rows(result.1@) },
                    );
                    assert forall|i: int| 0 <= i < rounds.len() - 1 implies #[trigger] follows(
                        solver,
                        pomdp,
                        rounds,
                        i,
                    ) by {
                        if i < before.len() - 1 {
                            assert(follows(solver, pomdp, before, i));
                        }
                    }
                }
            },
        }
        depth += 1;
    }
    proof {
        assert(solved(solver, pomdp, horizon_of(k_max), trees(result.0@), rows(result.1@))) by {
            assert(is_run(solver, pomdp, rounds));
        }
    }
    Some(result)
}

/// What a pruning keeps of plans that belong together with their alpha
/// vectors belongs together too.
pub proof fn lemma_pruned_coherent<F: Fn(&Vec<i64>, &Vec<Vec<i64>>) -> Option<Vec<i64>>>(
    solver: &F,
    pomdp: &POMDP,
    plans: Seq<PlanTree>,
    alphas: Seq<Seq<int>>,
    kept_plans: Seq<PlanTree>,
    kept_alphas: Seq<Seq<int>>,
    depth: nat,
)
    requires
        coherent(pomdp, plans, alphas, depth),
        pruned(solver, plans, alphas, kept_plans, kept_alphas),
    ensures
        coherent(pomdp, kept_plans, kept_alphas, depth),
{
    let marks = choose|marks: Seq<bool>|
        {
            &&& marks.len() == alphas.len()
            &&& #[trigger] crate::prune::pruning(solver, alphas, marks)
            &&& kept_plans == selected(plans, marks, alphas.len())
            &&& kept_alphas == selected(alphas, marks, alphas.len())
        };
    lemma_selected_coherent(pomdp, plans, alphas, marks, depth);
}

/// Among the first `n` plans, the last one that starts with `action`; `-1`
/// if none does.
pub open spec fn last_starting_with(plans: Seq<PlanTree>, action: int, n: nat) -> int
    decreases n,
{
    if n == 0 {
        -1
    } else if plans[n - 1].action == action {
        n - 1
    } else {
        last_starting_with(plans, action, (n - 1) as nat)
    }
}

/// What `extract_policy` holds for `action`: the alpha vector of the last
/// plan that starts with `action`, if there is one.
pub open spec fn policy_entry(plans: Seq<PlanTree>, alphas: Seq<Seq<int>>, action: int) -> Option<
    Seq<int>,
> {
    let last = last_starting_with(plans, action, plans.len());
    if last < 0 {
        None
    } else {
        Some(alphas[last])
    }
}

/// The numbers of an optional vector as mathematical integers.
pub open spec fn entry_ints(entry: Option<Vec<i64>>) -> Option<Seq<int>> {
    match entry {
        Some(alpha) => Some(ints(alpha@)),
        None => None,
    }
}

/// The alpha vector to go by for each first action: entry `a` holds the
/// alpha vector of the last of `plans` that starts with action `a`, and
/// nothing if no plan starts with it. `big_gamma[i]` is the alpha vector of
/// `plans[i]`.
pub fn extract_policy(plans: &Vec<ConditionalPlan>, big_gamma: &Vec<Vec<i64>>, pomdp: &POMDP) -> (policy:
    Vec<Option<Vec<i64>>>)
    requires
        plans@.len() == big_gamma@.len(),
        forall|i: int| 0 <= i < plans@.len() ==> (#[trigger] plans@[i]).action < pomdp.n_actions(),
    ensures
        policy@.len() == pomdp.n_actions(),
        forall|a: int|
            0 <= a < policy@.len() ==> entry_ints(#[trigger] policy@[a]) == policy_entry(
                trees(plans@),
                rows(big_gamma@),
                a,
            ),
{
    let n_actions = pomdp.action_space.len();
    let mut policy: Vec<Option<Vec<i64>>> = Vec::new();
    let mut a: usize = 0;
    while a < n_actions
        invariant
            a <= n_actions,
            policy@.len() == a,
            forall|j: int| 0 <= j < a ==> (#[trigger] policy@[j]) is None,
        decreases n_actions - a,
    {
        policy.push(None);
        a += 1;
    }
    proof {
        lemma_trees(plans@);
    }
    let mut i: usize = 0;
    while i < plans.len()
        invariant
            i <= plans@.len(),
            plans@.len() == big_gamma@.len(),
            n_actions == pomdp.n_actions(),
            policy@.len() == n_actions,
            trees(plans@).len() == plans@.len(),
            forall|k: int| 0 <= k < plans@.len() ==> #[trigger] trees(plans@)[k] == plans@[k]@,
            forall|k: int| 0 <= k < plans@.len() ==> (#[trigger] plans@[k]).action < n_actions,
            forall|j: int|
                0 <= j < n_actions ==> entry_ints(#[trigger] policy@[j]) == {
                    let last = last_starting_with(trees(plans@), j, i as nat);
                    if last < 0 {
                        None
                    } else {
                        Some(rows(big_gamma@)[last])
                    }
                },
        decreases plans@.len() - i,
    {
        let action = plans[i].action;
        assert(plans@[i as int].action < n_actions);
        assert(trees(plans@)[i as int].action == action);
        let alpha = big_gamma[i].clone();
        assert(alpha@ =~= big_gamma@[i as int]@);
        policy.set(action, Some(alpha));
        i += 1;
    }
    policy
}

/// Solves `pomdp` over `depth` steps by value iteration and hands back what
/// is left: the plans that are not dominated and their alpha vectors,
/// together with the model. There is no result if an expansion would hold
/// more plans than the machine can count.
pub fn solve<F: Fn(&Vec<i64>, &Vec<Vec<i64>>) -> Option<Vec<i64>>>(
    depth: u32,
    pomdp: POMDP,
    solver: &F,
) -> (result: Option<LookaheadAlphaVectorPolicy>)
    requires
        pomdp.wf(),
        depth <= DEPTH_LIMIT,
        can_be_asked(solver),
    ensures
        match result {
            Some(policy) => {
                &&& policy.pomdp == pomdp
                &&& solved(
                    solver,
                    &pomdp,
                    horizon_of(depth),
                    trees(policy.plans@),
                    rows(policy.big_gamma@),
                )
                &&& coherent(
                    &pomdp,
                    trees(policy.plans@),
                    rows(policy.big_gamma@),
                    horizon_of(depth),
                )
                &&& pomdp.n_actions() > 0 && pomdp.n_states() > 0 ==> policy.plans@.len() > 0
            },
            None => exists|reached: nat| 1 <= reached < depth && too_large(solver, &pomdp, reached),
        },
{
    match value_iteration(&pomdp, depth, solver) {
        Some(iteration) => Some(
            LookaheadAlphaVectorPolicy { pomdp, plans: iteration.0, big_gamma: iteration.1 },
        ),
        None => None,
    }
}

} // verus!

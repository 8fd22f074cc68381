//! Expansion: from the plans of one depth to all plans of the next.
use crate::backup::{backup_alpha, backup_vector, chosen, picks_within};
use crate::fixed::{all_bounded, ints, rows, REWARD_LIMIT, VALUE_LIMIT};
use crate::model::POMDP;
use crate::plan::{get_nodes_count, lemma_trees, trees, ConditionalPlan, PlanTree};
use vstd::arithmetic::div_mod::lemma_fundamental_div_mod_converse;
use vstd::prelude::*;

verus! {

/// `base` to the power `exponent`.
pub open spec fn power(base: nat, exponent: nat) -> nat
    decreases exponent,
{
    if exponent == 0 {
        1
    } else {
        base * power(base, (exponent - 1) as nat)
    }
}

/// `v` divided `i` times by `radix`.
pub open spec fn shifted(v: nat, i: nat, radix: nat) -> nat
    decreases i,
{
    if i == 0 {
        v
    } else {
        shifted(v, (i - 1) as nat, radix) / radix
    }
}

/// Digit `i` of `v` written in base `radix`, the lowest digit being digit 0.
pub open spec fn digit(v: nat, i: nat, radix: nat) -> nat {
    shifted(v, i, radix) % radix
}

/// The lowest `slots` digits of `v` written in base `radix`, lowest first.
pub open spec fn digits(v: nat, slots: nat, radix: nat) -> Seq<usize> {
    Seq::new(slots, |i: int| digit(v, i as nat, radix) as usize)
}

/// The plans that `choice` picks from `plans`, one for each observation.
pub open spec fn chosen_plans(plans: Seq<PlanTree>, choice: Seq<usize>) -> Seq<PlanTree> {
    Seq::new(choice.len(), |o: int| plans[choice[o] as int])
}

/// The plan that takes `action` and then follows, on observation `o`, the
/// plan `plans[choice[o]]`, whose alpha vector is `alphas[choice[o]]`. The
/// new plan has its own alpha vector stored.
pub open spec fn combined(
    pomdp: &POMDP,
    action: usize,
    plans: Seq<PlanTree>,
    alphas: Seq<Seq<int>>,
    choice: Seq<usize>,
) -> PlanTree {
    PlanTree {
        action,
        subplans: Some(chosen_plans(plans, choice)),
        alphavector: backup_vector(pomdp, action as int, chosen(alphas, choice)),
    }
}

/// The number of ways to give each observation one of `n` plans.
pub open spec fn assignments(pomdp: &POMDP, n: nat) -> nat {
    power(n, pomdp.n_observations())
}

/// The number of plans in the expansion of `n` plans.
pub open spec fn expansion_size(pomdp: &POMDP, n: nat) -> nat {
    pomdp.n_actions() * assignments(pomdp, n)
}

/// Plan number `c` of the expansion of `plans`. The plans of one action
/// stand together, in the order of the actions; among them, the plan for
/// the first observation changes fastest.
pub open spec fn expansion_plan(
    pomdp: &POMDP,
    plans: Seq<PlanTree>,
    alphas: Seq<Seq<int>>,
    c: int,
) -> PlanTree {
    let per_action = assignments(pomdp, plans.len()) as int;
    combined(
        pomdp,
        (c / per_action) as usize,
        plans,
        alphas,
        digits((c % per_action) as nat, pomdp.n_observations(), plans.len()),
    )
}

/// The expansion of `plans`: every plan that takes some action and then
/// follows, for each observation, some plan of `plans`.
pub open spec fn expansion_plans(pomdp: &POMDP, plans: Seq<PlanTree>, alphas: Seq<Seq<int>>) -> Seq<
    PlanTree,
> {
    Seq::new(expansion_size(pomdp, plans.len()), |c: int| expansion_plan(pomdp, plans, alphas, c))
}

/// The alpha vectors of the plans of the expansion.
pub open spec fn expansion_alphas(pomdp: &POMDP, plans: Seq<PlanTree>, alphas: Seq<Seq<int>>) -> Seq<
    Seq<int>,
> {
    Seq::new(
        expansion_size(pomdp, plans.len()),
        |c: int| expansion_plan(pomdp, plans, alphas, c).alphavector,
    )
}

/// A power does not decrease when the exponent grows, for a base of at
/// least one.
pub proof fn lemma_power_grows(base: nat, low: nat, high: nat)
    requires
        base >= 1,
        low <= high,
    ensures
        1 <= power(base, low) <= power(base, high),
    decreases high,
{
    if low == 0 {
        if high > 0 {
            lemma_power_grows(base, 0, (high - 1) as nat);
            let p = power(base, (high - 1) as nat);
            assert(base * p >= p) by (nonlinear_arith)
                requires
                    base >= 1,
                    p >= 1,
            ;
        }
    } else {
        lemma_power_grows(base, (low - 1) as nat, (high - 1) as nat);
        let p = power(base, (low - 1) as nat);
        let q = power(base, (high - 1) as nat);
        assert(base * p <= base * q) by (nonlinear_arith)
            requires
                base >= 1,
                p <= q,
        ;
        assert(base * p >= 1) by (nonlinear_arith)
            requires
                base >= 1,
                p >= 1,
        ;
    }
}

/// `base` to the power `exponent`, if it fits the machine word.
pub fn checked_power(base: usize, exponent: usize) -> (result: Option<usize>)
    ensures
        match result {
            Some(p) => p == power(base as nat, exponent as nat),
            None => power(base as nat, exponent as nat) > usize::MAX,
        },
{
    if base == 0 {
        return if exponent == 0 {
            Some(1)
        } else {
            assert(power(0, exponent as nat) == 0 * power(0, (exponent - 1) as nat));
            Some(0)
        };
    }
    let mut p: usize = 1;
    let mut i: usize = 0;
    while i < exponent
        invariant
            i <= exponent,
            base >= 1,
            p == power(base as nat, i as nat),
        decreases exponent - i,
    {
        if p > usize::MAX / base {
            proof {
                let next = power(base as nat, (i + 1) as nat);
                assert(next == base * p);
                assert(base * p > usize::MAX) by (nonlinear_arith)
                    requires
                        p > usize::MAX / base,
                        base >= 1,
                ;
                lemma_power_grows(base as nat, (i + 1) as nat, exponent as nat);
            }
            return None;
        }
        assert(base * p <= usize::MAX) by (nonlinear_arith)
            requires
                p <= usize::MAX / base,
                base >= 1,
        ;
        p = base * p;
        i += 1;
    }
    Some(p)
}

/// The number of plans in the expansion of `n` plans, if it fits the
/// machine word.
pub fn expansion_count(pomdp: &POMDP, n: usize) -> (result: Option<usize>)
    ensures
        match result {
            Some(size) => size == expansion_size(pomdp, n as nat),
            None => expansion_size(pomdp, n as nat) > usize::MAX,
        },
{
    let n_actions = pomdp.action_space.len();
    match checked_power(n, pomdp.observation_space.len()) {
        None => {
            if n_actions == 0 {
                assert(0 * assignments(pomdp, n as nat) == 0) by (nonlinear_arith);
                Some(0)
            } else {
                proof {
                    let per = assignments(pomdp, n as nat);
                    assert(n_actions * per >= per) by (nonlinear_arith)
                        requires
                            n_actions >= 1,
                    ;
                }
                None
            }
        },
        Some(per) => {
            if per == 0 || n_actions == 0 {
                assert(n_actions * per == 0) by (nonlinear_arith)
                    requires
                        per == 0 || n_actions == 0,
                ;
                Some(0)
            } else if n_actions > usize::MAX / per {
                assert(n_actions * per > usize::MAX) by (nonlinear_arith)
                    requires
                        n_actions > usize::MAX / per,
                        per >= 1,
                ;
                None
            } else {
                assert(n_actions * per <= usize::MAX) by (nonlinear_arith)
                    requires
                        n_actions <= usize::MAX / per,
                        per >= 1,
                ;
                Some(n_actions * per)
            }
        },
    }
}

/// The lowest `slots` digits of `v` written in base `radix`, lowest first.
pub fn decode(v: usize, slots: usize, radix: usize) -> (choice: Vec<usize>)
    requires
        slots > 0 ==> radix > 0,
    ensures
        choice@ == digits(v as nat, slots as nat, radix as nat),
        picks_within(choice@, radix as nat),
{
    let mut choice: Vec<usize> = Vec::new();
    let mut rest: usize = v;
    let mut i: usize = 0;
    while i < slots
        invariant
            i <= slots,
            slots > 0 ==> radix > 0,
            rest == shifted(v as nat, i as nat, radix as nat),
            choice@.len() == i,
            forall|j: int|
                0 <= j < i ==> #[trigger] choice@[j] == digit(v as nat, j as nat, radix as nat),
            forall|j: int| 0 <= j < i ==> #[trigger] choice@[j] < radix,
        decreases slots - i,
    {
        choice.push(rest % radix);
        rest = rest / radix;
        i += 1;
    }
    assert(choice@ =~= digits(v as nat, slots as nat, radix as nat));
    choice
}

/// Copies of the plans that `choice` picks from `plans`.
pub fn pick_plans(plans: &Vec<ConditionalPlan>, choice: &Vec<usize>) -> (picked: Vec<ConditionalPlan>)
    requires
        picks_within(choice@, plans@.len()),
    ensures
        trees(picked@) == chosen_plans(trees(plans@), choice@),
{
    let mut picked: Vec<ConditionalPlan> = Vec::new();
    let mut o: usize = 0;
    while o < choice.len()
        invariant
            o <= choice@.len(),
            picks_within(choice@, plans@.len()),
            picked@.len() == o,
            forall|j: int| 0 <= j < o ==> (#[trigger] picked@[j])@ == plans@[choice@[j] as int]@,
        decreases choice@.len() - o,
    {
        picked.push(plans[choice[o]].duplicate());
        o += 1;
    }
    proof {
        lemma_trees(picked@);
        lemma_trees(plans@);
        assert(trees(picked@) =~= chosen_plans(trees(plans@), choice@));
    }
    picked
}

/// Every way to give each of `slots` observations one of `plans`: entry `v`
/// holds, for observation `o`, a copy of the plan whose number is digit `o`
/// of `v` in base `plans.len()`.
pub fn get_plan_permutations(plans: &Vec<ConditionalPlan>, slots: usize) -> (permutations: Vec<
    Vec<ConditionalPlan>,
>)
    requires
        power(plans@.len(), slots as nat) <= usize::MAX,
    ensures
        permutations@.len() == power(plans@.len(), slots as nat),
        forall|v: int|
            0 <= v < permutations@.len() ==> trees((#[trigger] permutations@[v])@) == chosen_plans(
                trees(plans@),
                digits(v as nat, slots as nat, plans@.len()),
            ),
{
    let n = plans.len();
    let count = match checked_power(n, slots) {
        Some(count) => count,
        None => 0,
    };
    proof {
        if slots > 0 && n == 0 {
            assert(power(0, slots as nat) == 0 * power(0, (slots - 1) as nat));
        }
    }
    let mut permutations: Vec<Vec<ConditionalPlan>> = Vec::new();
    let mut v: usize = 0;
    while v < count
        invariant
            v <= count,
            n == plans@.len(),
            count == power(n as nat, slots as nat),
            slots > 0 && n == 0 ==> count == 0,
            permutations@.len() == v,
            forall|u: int|
                0 <= u < v ==> trees((#[trigger] permutations@[u])@) == chosen_plans(
                    trees(plans@),
                    digits(u as nat, slots as nat, n as nat),
                ),
        decreases count - v,
    {
        let choice = decode(v, slots, n);
        let picked = pick_plans(plans, &choice);
        permutations.push(picked);
        v += 1;
    }
    permutations
}

/// The lowest `slots` digits of `v` written in base `radix`, lowest first,
/// as labels for the nodes of a plan.
pub open spec fn labels(v: nat, slots: nat, radix: nat) -> Seq<u32> {
    Seq::new(slots, |i: int| digit(v, i as nat, radix) as u32)
}

/// Every way to label the nodes of `plan` with actions of `pomdp`: entry `v`
/// is `plan` relabeled from the digits of `v` in base `|actions|`, of which
/// there are as many as `plan` has nodes (see `set_configuration`).
pub fn get_permutations(plan: &ConditionalPlan, pomdp: &POMDP) -> (permutations: Vec<
    ConditionalPlan,
>)
    requires
        plan@.nodes() <= u32::MAX,
        pomdp.n_actions() <= u32::MAX,
        power(pomdp.n_actions(), plan@.nodes()) <= usize::MAX,
    ensures
        permutations@.len() == power(pomdp.n_actions(), plan@.nodes()),
        forall|v: int|
            0 <= v < permutations@.len() ==> (#[trigger] permutations@[v])@ == plan@.relabeled(
                labels(v as nat, plan@.nodes(), pomdp.n_actions()),
            ).0,
{
    let nodes = get_nodes_count(plan) as usize;
    let n_actions = pomdp.action_space.len();
    let count = match checked_power(n_actions, nodes) {
        Some(count) => count,
        None => 0,
    };
    proof {
        if nodes > 0 && n_actions == 0 {
            assert(power(0, nodes as nat) == 0 * power(0, (nodes - 1) as nat));
        }
    }
    let mut permutations: Vec<ConditionalPlan> = Vec::new();
    let mut v: usize = 0;
    while v < count
        invariant
            v <= count,
            nodes == plan@.nodes(),
            n_actions == pomdp.n_actions(),
            n_actions <= u32::MAX,
            count == power(n_actions as nat, nodes as nat),
            nodes > 0 && n_actions == 0 ==> count == 0,
            permutations@.len() == v,
            forall|u: int|
                0 <= u < v ==> (#[trigger] permutations@[u])@ == plan@.relabeled(
                    labels(u as nat, nodes as nat, n_actions as nat),
                ).0,
        decreases count - v,
    {
        let choice = decode(v, nodes, n_actions);
        let mut configuration: Vec<u32> = Vec::new();
        let mut i: usize = 0;
        while i < choice.len()
            invariant
                i <= choice@.len(),
                n_actions <= u32::MAX,
                picks_within(choice@, n_actions as nat),
                configuration@.len() == i,
                forall|j: int| 0 <= j < i ==> #[trigger] configuration@[j] == choice@[j],
            decreases choice@.len() - i,
        {
            assert(choice@[i as int] < n_actions);
            configuration.push(choice[i] as u32);
            i += 1;
        }
        assert(configuration@ =~= labels(v as nat, nodes as nat, n_actions as nat));
        let mut new_tree = plan.duplicate();
        new_tree.set_configuration(pomdp, &mut configuration);
        permutations.push(new_tree);
        v += 1;
    }
    permutations
}

/// Builds the plan that takes `action` and then follows the plans that
/// `choice` picks, together with its alpha vector.
pub fn combine(
    pomdp: &POMDP,
    action: usize,
    plans: &Vec<ConditionalPlan>,
    big_gamma: &Vec<Vec<i64>>,
    choice: &Vec<usize>,
) -> (made: (ConditionalPlan, Vec<i64>))
    requires
        pomdp.wf(),
        action < pomdp.n_actions(),
        plans@.len() == big_gamma@.len(),
        picks_within(choice@, plans@.len()),
        all_bounded(rows(big_gamma@), VALUE_LIMIT - REWARD_LIMIT),
    ensures
        made.0@ == combined(pomdp, action, trees(plans@), rows(big_gamma@), choice@),
        ints(made.1@) == made.0@.alphavector,
{
    let alpha = backup_alpha(pomdp, action, big_gamma, choice);
    let stored = alpha.clone();
    assert(stored@ =~= alpha@);
    let children = pick_plans(plans, choice);
    let plan = ConditionalPlan { action, subplans: Some(children), alphavector: stored };
    proof {
        lemma_trees(children@);
        assert(plan@.subplans == Some(trees(children@)));
    }
    (plan, alpha)
}

/// All plans that take `action` and then follow, for each observation, one
/// of `plans`, with their alpha vectors: the part of the expansion that
/// belongs to `action`. `big_gamma[i]` is the alpha vector of `plans[i]`.
pub fn expand_permute(
    pomdp: &POMDP,
    action: usize,
    plans: &Vec<ConditionalPlan>,
    big_gamma: &Vec<Vec<i64>>,
) -> (made: (Vec<ConditionalPlan>, Vec<Vec<i64>>))
    requires
        pomdp.wf(),
        action < pomdp.n_actions(),
        plans@.len() == big_gamma@.len(),
        all_bounded(rows(big_gamma@), VALUE_LIMIT - REWARD_LIMIT),
        assignments(pomdp, plans@.len()) <= usize::MAX,
    ensures
        made.0@.len() == assignments(pomdp, plans@.len()),
        made.1@.len() == made.0@.len(),
        forall|v: int|
            0 <= v < made.0@.len() ==> (#[trigger] made.0@[v])@ == combined(
                pomdp,
                action,
                trees(plans@),
                rows(big_gamma@),
                digits(v as nat, pomdp.n_observations(), plans@.len()),
            ),
        forall|v: int|
            0 <= v < made.0@.len() ==> ints((#[trigger] made.1@[v])@) == made.0@[v]@.alphavector,
{
    let n = plans.len();
    let slots = pomdp.observation_space.len();
    let count = match checked_power(n, slots) {
        Some(count) => count,
        None => 0,
    };
    proof {
        if slots > 0 && n == 0 {
            assert(power(0, slots as nat) == 0 * power(0, (slots - 1) as nat));
        }
    }
    let mut new_plans: Vec<ConditionalPlan> = Vec::new();
    let mut new_gamma: Vec<Vec<i64>> = Vec::new();
    let mut v: usize = 0;
    while v < count
        invariant
            v <= count,
            n == plans@.len(),
            n == big_gamma@.len(),
            slots == pomdp.n_observations(),
            count == power(n as nat, slots as nat),
            slots > 0 && n == 0 ==> count == 0,
            pomdp.wf(),
            action < pomdp.n_actions(),
            all_bounded(rows(big_gamma@), VALUE_LIMIT - REWARD_LIMIT),
            new_plans@.len() == v,
            new_gamma@.len() == v,
            forall|u: int|
                0 <= u < v ==> (#[trigger] new_plans@[u])@ == combined(
                    pomdp,
                    action,
                    trees(plans@),
                    rows(big_gamma@),
                    digits(u as nat, slots as nat, n as nat),
                ),
            forall|u: int|
                0 <= u < v ==> ints((#[trigger] new_gamma@[u])@) == new_plans@[u]@.alphavector,
        decreases count - v,
    {
        let choice = decode(v, slots, n);
        let (plan, alpha) = combine(pomdp, action, plans, big_gamma, &choice);
        new_plans.push(plan);
        new_gamma.push(alpha);
        v += 1;
    }
    (new_plans, new_gamma)
}

/// The expansion of `plans`: every plan that takes some action and then
/// follows, for each observation, some plan of `plans`; and the alpha
/// vectors of the new plans. `big_gamma[i]` is the alpha vector of
/// `plans[i]`. From `n` plans the expansion makes
/// `|actions| * n ^ |observations|`.
pub fn expand(plans: &Vec<ConditionalPlan>, big_gamma: &Vec<Vec<i64>>, pomdp: &POMDP) -> (made: (
    Vec<ConditionalPlan>,
    Vec<Vec<i64>>,
))
    requires
        pomdp.wf(),
        plans@.len() == big_gamma@.len(),
        all_bounded(rows(big_gamma@), VALUE_LIMIT - REWARD_LIMIT),
        expansion_size(pomdp, plans@.len()) <= usize::MAX,
    ensures
        made.0@.len() == pomdp.n_actions() * power(plans@.len(), pomdp.n_observations()),
        made.1@.len() == made.0@.len(),
        trees(made.0@) == expansion_plans(pomdp, trees(plans@), rows(big_gamma@)),
        rows(made.1@) == expansion_alphas(pomdp, trees(plans@), rows(big_gamma@)),
{
    let n = plans.len();
    let n_actions = pomdp.action_space.len();
    let slots = pomdp.observation_space.len();
    let mut returned_plans: Vec<ConditionalPlan> = Vec::new();
    let mut returned_gamma: Vec<Vec<i64>> = Vec::new();
    if n_actions == 0 {
        proof {
            lemma_trees(returned_plans@);
            lemma_trees(plans@);
            assert(expansion_size(pomdp, n as nat) == 0) by (nonlinear_arith)
                requires
                    expansion_size(pomdp, n as nat) == n_actions * assignments(pomdp, n as nat),
                    n_actions == 0,
            ;
            assert(trees(returned_plans@) =~= expansion_plans(
                pomdp,
                trees(plans@),
                rows(big_gamma@),
            ));
            assert(rows(returned_gamma@) =~= expansion_alphas(
                pomdp,
                trees(plans@),
                rows(big_gamma@),
            ));
        }
        return (returned_plans, returned_gamma);
    }
    let ghost per = assignments(pomdp, n as nat);
    proof {
        assert(per <= n_actions * per) by (nonlinear_arith)
            requires
                n_actions >= 1,
        ;
    }
    let count = match checked_power(n, slots) {
        Some(count) => count,
        None => 0,
    };
    proof {
        if slots > 0 && n == 0 {
            assert(power(0, slots as nat) == 0 * power(0, (slots - 1) as nat));
        }
    }
    let mut action: usize = 0;
    while action < n_actions
        invariant
            action <= n_actions,
            n == plans@.len(),
            n == big_gamma@.len(),
            n_actions == pomdp.n_actions(),
            slots == pomdp.n_observations(),
            per == assignments(pomdp, n as nat),
            count == per,
            n_actions * per <= usize::MAX,
            slots > 0 && n == 0 ==> count == 0,
            pomdp.wf(),
            all_bounded(rows(big_gamma@), VALUE_LIMIT - REWARD_LIMIT),
            returned_plans@.len() == action * per,
            returned_gamma@.len() == action * per,
            forall|c: int|
                0 <= c < returned_plans@.len() ==> (#[trigger] returned_plans@[c])@
                    == expansion_plan(pomdp, trees(plans@), rows(big_gamma@), c),
            forall|c: int|
                0 <= c < returned_plans@.len() ==> ints((#[trigger] returned_gamma@[c])@)
                    == returned_plans@[c]@.alphavector,
        decreases n_actions - action,
    {
        let mut v: usize = 0;
        while v < count
            invariant
                v <= count,
                action < n_actions,
                n == plans@.len(),
                n == big_gamma@.len(),
                n_actions == pomdp.n_actions(),
                slots == pomdp.n_observations(),
                per == assignments(pomdp, n as nat),
                count == per,
                n_actions * per <= usize::MAX,
                slots > 0 && n == 0 ==> count == 0,
                pomdp.wf(),
                all_bounded(rows(big_gamma@), VALUE_LIMIT - REWARD_LIMIT),
                returned_plans@.len() == action * per + v,
                returned_gamma@.len() == action * per + v,
                forall|c: int|
                    0 <= c < returned_plans@.len() ==> (#[trigger] returned_plans@[c])@
                        == expansion_plan(pomdp, trees(plans@), rows(big_gamma@), c),
                forall|c: int|
                    0 <= c < returned_plans@.len() ==> ints((#[trigger] returned_gamma@[c])@)
                        == returned_plans@[c]@.alphavector,
            decreases count - v,
        {
            let choice = decode(v, slots, n);
            let (plan, alpha) = combine(pomdp, action, plans, big_gamma, &choice);
            proof {
                let c = action * per + v;
                lemma_trees(plans@);
                assert(action * per == (action as int) * (per as int));
                lemma_fundamental_div_mod_converse(c, per as int, action as int, v as int);
                assert(plan@ == expansion_plan(pomdp, trees(plans@), rows(big_gamma@), c));
            }
            returned_plans.push(plan);
            returned_gamma.push(alpha);
            v += 1;
        }
        proof {
            assert((action + 1) * per == action * per + per) by (nonlinear_arith);
        }
        action += 1;
    }
    proof {
        lemma_trees(returned_plans@);
        lemma_trees(plans@);
        assert(trees(returned_plans@) =~= expansion_plans(pomdp, trees(plans@), rows(big_gamma@)));
        assert(rows(returned_gamma@) =~= expansion_alphas(pomdp, trees(plans@), rows(big_gamma@)));
    }
    (returned_plans, returned_gamma)
}

} // verus!

use good_lp::{default_solver, variable, Expression, ProblemVariables, Solution, SolverModel};
use pomdp_planner::dominance::find_maximal_belief;
use pomdp_planner::backup::{backup_alpha, reward_alpha};
use pomdp_planner::evaluate::calculate_alphavector;
use pomdp_planner::expand::expand;
use pomdp_planner::fixed::SCALE;
use pomdp_planner::model::POMDP;
use pomdp_planner::plan::ConditionalPlan;
use pomdp_planner::prune::{find_dominating, prune};
use pomdp_planner::solver::{extract_policy, solve, value_iteration};

fn to_fixed(x: f64) -> i64 {
    (x * SCALE as f64).round() as i64
}

fn to_real(x: i64) -> f64 {
    x as f64 / SCALE as f64
}

fn to_reals(v: &Vec<i64>) -> Vec<f64> {
    v.iter().map(|x| to_real(*x)).collect()
}

/// The weight `x`, rounded down to a millionth; what the solver loses to its
/// own rounding, far below a millionth, is made up for first.
fn to_weight(x: f64) -> i64 {
    (x * SCALE as f64 + 0.000001).floor() as i64
}

/// Maximises, over all beliefs, the least margin of `alpha` over the vectors
/// of `big_gamma`, and hands back the belief if the margin is positive.
fn linear_program(alpha: &Vec<i64>, big_gamma: &Vec<Vec<i64>>) -> Option<Vec<i64>> {
    let mut problem_variables = ProblemVariables::new();
    let delta = problem_variables.add(variable());
    let mut vars = Vec::new();
    let mut sum = Expression::default();
    for _ in 0..alpha.len() {
        let var = problem_variables.add(variable().min(0));
        vars.push(var);
        sum += Expression::from(var);
    }
    let mut problem = problem_variables.maximise(delta).using(default_solver);
    for a in big_gamma {
        let mut margin = Expression::default();
        for i in 0..alpha.len() {
            margin += (to_real(alpha[i]) - to_real(a[i])) * vars[i];
        }
        problem.add_constraint(margin.geq(delta));
    }
    problem.add_constraint(sum.eq(Expression::from(1.0)));
    match problem.solve() {
        Ok(solution) => {
            if solution.value(delta) > 0.0 {
                Some(vars.iter().map(|v| to_weight(solution.value(*v))).collect())
            } else {
                None
            }
        }
        Err(_) => None,
    }
}

fn no_solver(_alpha: &Vec<i64>, _big_gamma: &Vec<Vec<i64>>) -> Option<Vec<i64>> {
    None
}

// states: hungry, sated; actions: feed, sing, ignore; observations: crying, quiet
fn crying_baby(gamma: f64) -> POMDP {
    let names = |v: &[&str]| v.iter().map(|s| s.to_string()).collect::<Vec<String>>();
    let row = |v: &[f64]| v.iter().map(|x| to_fixed(*x)).collect::<Vec<i64>>();
    POMDP {
        gamma: to_fixed(gamma),
        state_space: names(&["hungry", "sated"]),
        action_space: names(&["feed", "sing", "ignore"]),
        observation_space: names(&["crying", "quiet"]),
        transition_function: vec![
            vec![row(&[0.0, 1.0]), row(&[1.0, 0.0]), row(&[1.0, 0.0])],
            vec![row(&[0.0, 1.0]), row(&[0.1, 0.9]), row(&[0.1, 0.9])],
        ],
        reward_function: vec![row(&[-15.0, -10.5, -10.0]), row(&[-5.0, -0.5, 0.0])],
        observation_function: vec![
            vec![row(&[0.8, 0.1]), row(&[0.9, 0.0]), row(&[0.8, 0.1])],
            vec![row(&[0.2, 0.9]), row(&[0.1, 1.0]), row(&[0.2, 0.9])],
        ],
    }
}

fn leaves(pomdp: &POMDP) -> (Vec<ConditionalPlan>, Vec<Vec<i64>>) {
    let mut plans = Vec::new();
    let mut alphas = Vec::new();
    for a in 0..pomdp.action_space.len() {
        let alpha = reward_alpha(pomdp, a);
        plans.push(ConditionalPlan { action: a, subplans: None, alphavector: alpha.clone() });
        alphas.push(alpha);
    }
    (plans, alphas)
}

#[test]
fn test_one_step_pomdp_plan() {
    let pomdp = crying_baby(0.9);
    assert!(pomdp.is_valid());
    let result = solve(1, pomdp, &linear_program).unwrap();
    println!("{:?}", result);
    assert!(to_real(result.big_gamma[0][0]) == -10.0);
    assert!(to_real(result.big_gamma[0][1]) == 0.0);
}

#[test]
fn test_two_step_pomdp_plan() {
    let pomdp = crying_baby(0.9);
    assert!(pomdp.is_valid());
    let result = solve(2, pomdp, &linear_program).unwrap();
    println!("{:?}", result);
    assert!(to_real(result.big_gamma[0][0]) == -15.0);
    assert!(to_real(result.big_gamma[0][1]) == -5.0);
    assert!(to_real(result.big_gamma[1][0]) == -19.0);
    assert!(to_real(result.big_gamma[1][1]) == -0.9);
}

#[test]
fn one_step_keeps_only_ignore() {
    let result = solve(1, crying_baby(0.9), &linear_program).unwrap();
    assert_eq!(result.big_gamma, vec![vec![-10_000_000, 0]]);
    assert_eq!(result.plans.len(), 1);
    assert_eq!(result.plans[0].action, 2);
    assert!(result.plans[0].subplans.is_none());
    assert_eq!(result.plans[0].alphavector, vec![-10_000_000, 0]);
}

#[test]
fn two_steps_keep_feed_and_ignore() {
    let result = solve(2, crying_baby(0.9), &linear_program).unwrap();
    assert_eq!(result.big_gamma, vec![vec![-15_000_000, -5_000_000], vec![-19_000_000, -900_000]]);
    let roots: Vec<usize> = result.plans.iter().map(|p| p.action).collect();
    assert_eq!(roots, vec![0, 2]);
    for plan in &result.plans {
        let children = plan.subplans.as_ref().unwrap();
        assert_eq!(children.len(), 2);
        assert!(children.iter().all(|c| c.action == 2 && c.subplans.is_none()));
    }
}

#[test]
fn test_three_step_pomdp_plan() {
    let pomdp = crying_baby(0.9);
    let result = solve(3, pomdp, &linear_program).unwrap();
    println!("{:?}", result);
    // every plan of depth three is a candidate: feed and then ignore whatever is
    // observed is worth (-15.81, -5.81), and ignore three times (-27.1, -2.439)
    assert!(result.big_gamma.len() == 3);
    assert!((to_real(result.big_gamma[0][0]) - (-15.81)).abs() < 0.0000001);
    assert!((to_real(result.big_gamma[0][1]) - (-5.81)).abs() < 0.0000001);
    assert!((to_real(result.big_gamma[1][0]) - (-24.22)).abs() < 0.0000001);
    assert!((to_real(result.big_gamma[1][1]) - (-2.4831)).abs() < 0.0000001);
    assert!((to_real(result.big_gamma[2][0]) - (-27.1)).abs() < 0.0000001);
    assert!((to_real(result.big_gamma[2][1]) - (-2.439)).abs() < 0.0000001);
}

#[test]
fn three_steps_keep_every_undominated_plan() {
    let result = solve(3, crying_baby(0.9), &linear_program).unwrap();
    assert_eq!(
        result.big_gamma,
        vec![
            vec![-15_810_000, -5_810_000],
            vec![-24_220_000, -2_483_100],
            vec![-27_100_000, -2_439_000],
        ]
    );
    let found: Vec<Vec<f64>> = result.big_gamma.iter().map(to_reals).collect();
    assert!((found[1][0] - (-24.22)).abs() < 0.0000001);
    assert!((found[1][1] - (-2.4831)).abs() < 0.0000001);
    // feed, then ignore whatever is observed
    assert_eq!(result.plans[0].action, 0);
    let after_feed = result.plans[0].subplans.as_ref().unwrap();
    assert!(after_feed.iter().all(|c| c.action == 2));
    // ignore; feed if the baby cries, ignore if it is quiet
    assert_eq!(result.plans[1].action, 2);
    let after_ignore = result.plans[1].subplans.as_ref().unwrap();
    assert_eq!(after_ignore[0].action, 0);
    assert_eq!(after_ignore[1].action, 2);
}

#[test]
fn every_returned_alpha_is_the_value_of_its_plan() {
    let pomdp = crying_baby(0.9);
    let (plans, alphas) = value_iteration(&pomdp, 3, &linear_program).unwrap();
    assert_eq!(plans.len(), alphas.len());
    for (plan, alpha) in plans.iter().zip(alphas.iter()) {
        assert_eq!(&plan.alphavector, alpha);
        let mut bare = strip(plan);
        assert_eq!(&calculate_alphavector(&mut bare, &pomdp), alpha);
        assert_eq!(&bare.alphavector, alpha);
    }
}

fn strip(plan: &ConditionalPlan) -> ConditionalPlan {
    ConditionalPlan {
        action: plan.action,
        subplans: plan.subplans.as_ref().map(|c| c.iter().map(strip).collect()),
        alphavector: Vec::new(),
    }
}

#[test]
fn solving_without_a_solver_keeps_the_best_plan_at_the_uniform_belief() {
    let result = solve(2, crying_baby(0.9), &no_solver).unwrap();
    // at depth 2 the values at the uniform belief are -10, -10.45 and -9.95
    assert_eq!(result.big_gamma, vec![vec![-19_000_000, -900_000]]);
}

#[test]
fn value_of_ignoring_twice() {
    let pomdp = crying_baby(0.9);
    let alphas = vec![vec![-10_000_000, 0]];
    assert_eq!(backup_alpha(&pomdp, 2, &alphas, &vec![0, 0]), vec![-19_000_000, -900_000]);
    assert_eq!(backup_alpha(&pomdp, 0, &alphas, &vec![0, 0]), vec![-15_000_000, -5_000_000]);
    assert_eq!(backup_alpha(&pomdp, 1, &alphas, &vec![0, 0]), vec![-19_500_000, -1_400_000]);
}

#[test]
fn missing_subplans_count_as_zero() {
    let pomdp = crying_baby(0.9);
    let alphas = vec![vec![-10_000_000, 0]];
    // only the plan for "crying" is there: hungry gets -10 + 0.9 * 0.8 * -10
    assert_eq!(backup_alpha(&pomdp, 2, &alphas, &vec![0]), vec![-17_200_000, -720_000]);
    assert_eq!(backup_alpha(&pomdp, 2, &alphas, &vec![]), vec![-10_000_000, 0]);
}

#[test]
fn pruning_the_leaves() {
    let pomdp = crying_baby(0.9);
    let (plans, alphas) = leaves(&pomdp);
    assert_eq!(find_dominating(&alphas, &linear_program), vec![false, false, true]);
    let (kept_plans, kept_alphas) = prune(&plans, &alphas, &linear_program);
    assert_eq!(kept_alphas, vec![vec![-10_000_000, 0]]);
    assert_eq!(kept_plans.len(), 1);
    assert_eq!(kept_plans[0].action, 2);
}

#[test]
fn pruning_twice_changes_nothing() {
    let pomdp = crying_baby(0.9);
    let (plans, alphas) = leaves(&pomdp);
    let (plans, alphas) = prune(&plans, &alphas, &linear_program);
    let (made_plans, made_alphas) = expand(&plans, &alphas, &pomdp);
    let once = prune(&made_plans, &made_alphas, &linear_program);
    let twice = prune(&once.0, &once.1, &linear_program);
    assert_eq!(once.1, twice.1);
    assert!(once.0 == twice.0);
    assert_eq!(twice.1, vec![vec![-15_000_000, -5_000_000], vec![-19_000_000, -900_000]]);
}

#[test]
fn rejected_candidates_are_nowhere_above_all_accepted_ones() {
    let pomdp = crying_baby(0.9);
    let (plans, alphas) = leaves(&pomdp);
    let (plans, alphas) = prune(&plans, &alphas, &linear_program);
    let (plans, alphas) = expand(&plans, &alphas, &pomdp);
    let (plans, alphas) = prune(&plans, &alphas, &linear_program);
    let (_, candidates) = expand(&plans, &alphas, &pomdp);
    let marks = find_dominating(&candidates, &linear_program);
    let accepted: Vec<&Vec<i64>> =
        candidates.iter().zip(marks.iter()).filter(|(_, m)| **m).map(|(c, _)| c).collect();
    assert_eq!(accepted.len(), 3);
    for (candidate, mark) in candidates.iter().zip(marks.iter()) {
        if !*mark {
            for step in 0..=100i128 {
                let b = [step, 100 - step];
                let value = |v: &Vec<i64>| b[0] * v[0] as i128 + b[1] * v[1] as i128;
                assert!(accepted.iter().any(|a| value(a) >= value(candidate)));
            }
        }
    }
}

#[test]
fn expansion_makes_actions_times_plans_to_the_observations() {
    let pomdp = crying_baby(0.9);
    let (plans, alphas) = leaves(&pomdp);
    let (made, values) = expand(&plans, &alphas, &pomdp);
    assert_eq!(made.len(), 3 * 3 * 3);
    assert_eq!(values.len(), 27);
    let (plans, alphas) = prune(&plans, &alphas, &linear_program);
    let (made, _) = expand(&plans, &alphas, &pomdp);
    assert_eq!(made.len(), 3);
    let (plans, alphas) = prune(&made, &expand(&plans, &alphas, &pomdp).1, &linear_program);
    assert_eq!(plans.len(), 2);
    let (made, values) = expand(&plans, &alphas, &pomdp);
    assert_eq!(made.len(), 3 * 2 * 2);
    // action first; among the plans of one action the plan for "crying" changes fastest
    let shape: Vec<(usize, usize, usize)> = made
        .iter()
        .map(|p| {
            let c = p.subplans.as_ref().unwrap();
            (p.action, c[0].action, c[1].action)
        })
        .collect();
    assert_eq!(
        shape,
        vec![
            (0, 0, 0), (0, 2, 0), (0, 0, 2), (0, 2, 2),
            (1, 0, 0), (1, 2, 0), (1, 0, 2), (1, 2, 2),
            (2, 0, 0), (2, 2, 0), (2, 0, 2), (2, 2, 2),
        ]
    );
    assert_eq!(values[2], vec![-16_179_000, -6_179_000]);
    assert_eq!(values[3], vec![-15_810_000, -5_810_000]);
    assert_eq!(made[2].alphavector, values[2]);
}

#[test]
fn dominance_test_with_the_linear_program() {
    let feed = vec![-15_000_000, -5_000_000];
    let sing = vec![-19_500_000, -1_400_000];
    let ignore = vec![-19_000_000, -900_000];
    // feed is better than ignore where the baby is hungry
    let witness = find_maximal_belief(&feed, &vec![ignore.clone()], &linear_program).unwrap();
    assert_eq!(witness, vec![1_000_000, 0]);
    // sing is worse than ignore everywhere
    assert_eq!(find_maximal_belief(&sing, &vec![feed.clone(), ignore.clone()], &linear_program), None);
    // a vector does not dominate itself
    assert_eq!(find_maximal_belief(&feed, &vec![feed.clone()], &linear_program), None);
}

#[test]
fn policy_by_first_action() {
    let pomdp = crying_baby(0.9);
    let (plans, alphas) = value_iteration(&pomdp, 3, &linear_program).unwrap();
    let policy = extract_policy(&plans, &alphas, &pomdp);
    assert_eq!(
        policy,
        vec![Some(vec![-15_810_000, -5_810_000]), None, Some(vec![-27_100_000, -2_439_000])]
    );
}

fn tie_maker(alpha: &Vec<i64>, big_gamma: &Vec<Vec<i64>>) -> Option<Vec<i64>> {
    if alpha == &vec![7, 7] && big_gamma == &vec![vec![30, -2]] {
        Some(vec![250_000, 750_000])
    } else {
        linear_program(alpha, big_gamma)
    }
}

#[test]
fn pruning_twice_can_differ_where_a_tie_was_broken() {
    // at the belief (0.25, 0.75) the second, third and fourth vector are all worth 8
    let alphas = vec![vec![7, 7], vec![8, 8], vec![-4, 12], vec![20, 4], vec![30, -2]];
    let once = find_dominating(&alphas, &tie_maker);
    assert_eq!(once, vec![false, true, true, true, true]);
    let kept: Vec<Vec<i64>> = alphas[1..].to_vec();
    // without the first vector nothing leads to that belief, and the second vector is
    // tested when the others that are worth as much there have been accepted
    let twice = find_dominating(&kept, &tie_maker);
    assert_eq!(twice, vec![false, true, true, true]);
    // a third time nothing changes
    let left: Vec<Vec<i64>> = kept[1..].to_vec();
    assert_eq!(find_dominating(&left, &tie_maker), vec![true, true, true]);
}

fn shifted_baby(by: i64) -> POMDP {
    let mut pomdp = crying_baby(0.9);
    for row in pomdp.reward_function.iter_mut() {
        for reward in row.iter_mut() {
            *reward += by;
        }
    }
    pomdp
}

fn best_in_each_state(alphas: &Vec<Vec<i64>>) -> Vec<i64> {
    (0..2).map(|s| alphas.iter().map(|a| a[s]).max().unwrap()).collect()
}

#[test]
fn values_grow_with_the_horizon_where_no_reward_is_negative() {
    let mut before = vec![0, 0];
    for horizon in 1..=4 {
        let (_, alphas) = value_iteration(&shifted_baby(15_000_000), horizon, &linear_program).unwrap();
        let best = best_in_each_state(&alphas);
        assert!(best[0] >= before[0] && best[1] >= before[1]);
        before = best;
    }
    assert_eq!(before, vec![34_389_900, 47_729_930]);
}

#[test]
fn values_fall_with_the_horizon_where_rewards_are_negative() {
    let one = value_iteration(&crying_baby(0.9), 1, &linear_program).unwrap().1;
    let two = value_iteration(&crying_baby(0.9), 2, &linear_program).unwrap().1;
    assert_eq!(best_in_each_state(&one), vec![-10_000_000, 0]);
    assert_eq!(best_in_each_state(&two), vec![-15_000_000, -900_000]);
}

use pomdp_planner::expand::{expand, expansion_count};
use pomdp_planner::model::POMDP;
use pomdp_planner::plan::ConditionalPlan;
use pomdp_planner::solver::{extract_policy, solve, value_iteration};

fn names(prefix: &str, n: usize) -> Vec<String> {
    (0..n).map(|i| format!("{}{}", prefix, i)).collect()
}

fn sated_corner(_: &Vec<i64>, _: &Vec<Vec<i64>>) -> Option<Vec<i64>> {
    Some(vec![0, 1_000_000])
}

fn nothing(_: &Vec<i64>, _: &Vec<Vec<i64>>) -> Option<Vec<i64>> {
    None
}

// two states and two actions, each action paying in one state; the state never changes
fn two_by_two(n_observations: usize) -> POMDP {
    POMDP {
        gamma: 500_000,
        state_space: names("s", 2),
        action_space: names("a", 2),
        observation_space: names("o", n_observations),
        transition_function: vec![
            vec![vec![1_000_000, 0], vec![1_000_000, 0]],
            vec![vec![0, 1_000_000], vec![0, 1_000_000]],
        ],
        reward_function: vec![vec![1_000_000, 0], vec![0, 1_000_000]],
        observation_function: vec![vec![vec![1_000_000, 1_000_000], vec![1_000_000, 1_000_000]]],
    }
}

#[test]
fn too_many_plans_to_count() {
    let pomdp = two_by_two(70);
    assert!(pomdp.is_valid());
    let (plans, alphas) = value_iteration(&pomdp, 1, &sated_corner).unwrap();
    assert_eq!(alphas, vec![vec![1_000_000, 0], vec![0, 1_000_000]]);
    assert_eq!(expansion_count(&pomdp, plans.len()), None);
    assert!(value_iteration(&pomdp, 2, &sated_corner).is_none());
    assert!(solve(3, pomdp, &sated_corner).is_none());
}

#[test]
fn one_plan_can_always_be_expanded() {
    let pomdp = two_by_two(70);
    // without a solver only the first action is kept, and one plan has one expansion
    // for each action
    let (plans, alphas) = value_iteration(&pomdp, 3, &nothing).unwrap();
    assert_eq!(alphas, vec![vec![1_750_000, 0]]);
    assert_eq!(plans[0].subplans.as_ref().unwrap().len(), 70);
}

#[test]
fn a_model_without_actions_has_no_plan() {
    let mut pomdp = two_by_two(1);
    pomdp.action_space = Vec::new();
    assert!(pomdp.is_valid());
    let (plans, alphas) = value_iteration(&pomdp, 1, &nothing).unwrap();
    assert!(plans.is_empty() && alphas.is_empty());
    // the expansion of nothing is empty, and nothing changes
    let (plans, alphas) = value_iteration(&pomdp, 5, &nothing).unwrap();
    assert!(plans.is_empty() && alphas.is_empty());
    assert_eq!(extract_policy(&plans, &alphas, &pomdp), Vec::<Option<Vec<i64>>>::new());
}

#[test]
fn a_model_without_states_has_no_plan() {
    let mut pomdp = two_by_two(1);
    pomdp.state_space = Vec::new();
    assert!(pomdp.is_valid());
    let (plans, _) = value_iteration(&pomdp, 1, &nothing).unwrap();
    assert!(plans.is_empty());
    let (plans, _) = value_iteration(&pomdp, 4, &nothing).unwrap();
    assert!(plans.is_empty());
}

#[test]
fn a_model_without_observations_has_plans_that_follow_nothing() {
    let pomdp = two_by_two(0);
    let (plans, alphas) = value_iteration(&pomdp, 3, &sated_corner).unwrap();
    // nothing is observed, so nothing is to come: every round gives the rewards again
    assert_eq!(alphas, vec![vec![1_000_000, 0], vec![0, 1_000_000]]);
    assert!(plans.iter().all(|p| p.subplans.as_ref().unwrap().is_empty()));
    let one: Vec<ConditionalPlan> = vec![ConditionalPlan::leaf(0)];
    let (made, values) = expand(&one, &vec![vec![5, 5]], &pomdp);
    assert_eq!(made.len(), 2);
    assert_eq!(values, vec![vec![1_000_000, 0], vec![0, 1_000_000]]);
    assert_eq!(expand(&Vec::new(), &Vec::new(), &pomdp).0.len(), 2);
}

#[test]
fn expanding_nothing() {
    let pomdp = two_by_two(1);
    let (made, values) = expand(&Vec::new(), &Vec::new(), &pomdp);
    assert!(made.is_empty() && values.is_empty());
}

#[test]
fn values_with_one_observation() {
    let pomdp = two_by_two(1);
    let result = solve(2, pomdp, &sated_corner).unwrap();
    // both actions stay, and after each the better one for that state follows
    assert_eq!(result.big_gamma, vec![vec![1_500_000, 0], vec![0, 1_500_000]]);
    assert_eq!(result.plans[0].subplans.as_ref().unwrap()[0].action, 0);
    assert_eq!(result.plans[1].subplans.as_ref().unwrap()[0].action, 1);
    assert_eq!(result.pomdp.gamma, 500_000);
}

#[test]
fn asked_for_no_step_value_iteration_makes_one() {
    let pomdp = two_by_two(1);
    let none = value_iteration(&pomdp, 0, &sated_corner).unwrap();
    let one = value_iteration(&pomdp, 1, &sated_corner).unwrap();
    assert_eq!(none.1, one.1);
    assert!(none.0 == one.0);
    assert_eq!(none.1, vec![vec![1_000_000, 0], vec![0, 1_000_000]]);
}

use pomdp_planner::evaluate::calculate_alphavector;
use pomdp_planner::expand::{
    checked_power, decode, expansion_count, get_permutations, get_plan_permutations, pick_plans,
};
use pomdp_planner::model::POMDP;
use pomdp_planner::plan::{get_nodes_count, ConditionalPlan};

fn names(v: &[&str]) -> Vec<String> {
    v.iter().map(|s| s.to_string()).collect()
}

// states: hungry, sated; actions: feed, sing, ignore; observations: crying, quiet
fn crying_baby() -> POMDP {
    POMDP {
        gamma: 900_000,
        state_space: names(&["hungry", "sated"]),
        action_space: names(&["feed", "sing", "ignore"]),
        observation_space: names(&["crying", "quiet"]),
        transition_function: vec![
            vec![vec![0, 1_000_000], vec![1_000_000, 0], vec![1_000_000, 0]],
            vec![vec![0, 1_000_000], vec![100_000, 900_000], vec![100_000, 900_000]],
        ],
        reward_function: vec![
            vec![-15_000_000, -10_500_000, -10_000_000],
            vec![-5_000_000, -500_000, 0],
        ],
        observation_function: vec![
            vec![vec![800_000, 100_000], vec![900_000, 0], vec![800_000, 100_000]],
            vec![vec![200_000, 900_000], vec![100_000, 1_000_000], vec![200_000, 900_000]],
        ],
    }
}

fn leaf(action: usize) -> ConditionalPlan {
    ConditionalPlan::leaf(action)
}

fn node(action: usize, subplans: Vec<ConditionalPlan>) -> ConditionalPlan {
    ConditionalPlan { action, subplans: Some(subplans), alphavector: Vec::new() }
}

#[test]
fn test_set_configuration() {
    let pomdp = crying_baby();
    // root; on "crying" sub2, which has the one subplan sub3; on "quiet" sub1
    let sub1 = ConditionalPlan::default();
    let sub3 = ConditionalPlan::default();
    let sub2 = node(0, vec![sub3]);
    let mut plan = node(0, vec![sub2, sub1]);
    let mut configuration = vec![0, 2, 1, 2];
    println!("plan before set_configuration == {:?}", plan);
    plan.set_configuration(&pomdp, &mut configuration);
    println!("plan after set_configuration == {:?}", plan);
    let name = |p: &ConditionalPlan| pomdp.action_space[p.action].clone();
    let crying = &plan.subplans.as_ref().unwrap()[0];
    let quiet = &plan.subplans.as_ref().unwrap()[1];
    assert!(name(&plan) == "ignore");
    assert!(name(quiet) == "feed");
    assert!(name(crying) == "sing");
    assert!(name(&crying.subplans.as_ref().unwrap()[0]) == "ignore");
    assert!(configuration.is_empty());
}

#[test]
fn a_short_configuration_relabels_the_first_nodes_only() {
    let pomdp = crying_baby();
    let mut plan = node(0, vec![node(0, vec![leaf(0)]), leaf(0)]);
    let mut configuration = vec![1, 2];
    plan.set_configuration(&pomdp, &mut configuration);
    assert!(plan == node(2, vec![node(1, vec![leaf(0)]), leaf(0)]));
    assert!(configuration.is_empty());
}

#[test]
fn a_long_configuration_keeps_what_it_does_not_need() {
    let pomdp = crying_baby();
    let mut plan = node(0, vec![leaf(0), leaf(0)]);
    let mut configuration = vec![2, 2, 0, 1, 2];
    plan.set_configuration(&pomdp, &mut configuration);
    assert!(plan == node(2, vec![leaf(1), leaf(0)]));
    assert_eq!(configuration, vec![2, 2]);
}

#[test]
fn an_empty_configuration_changes_nothing() {
    let pomdp = crying_baby();
    let mut plan = node(1, vec![leaf(0), leaf(2)]);
    plan.alphavector = vec![1, 2];
    plan.set_configuration(&pomdp, &mut Vec::new());
    assert!(plan == node(1, vec![leaf(0), leaf(2)]));
    assert_eq!(plan.alphavector, vec![1, 2]);
}

#[test]
fn relabeling_keeps_what_is_stored() {
    let pomdp = crying_baby();
    let mut plan = node(2, vec![leaf(0), leaf(2)]);
    assert_eq!(calculate_alphavector(&mut plan, &pomdp), vec![-22_600_000, -1_665_000]);
    plan.set_configuration(&pomdp, &mut vec![1, 0]);
    assert!(plan == node(0, vec![leaf(1), leaf(2)]));
    // only actions change
    assert_eq!(plan.alphavector, vec![-22_600_000, -1_665_000]);
    let below = plan.subplans.as_ref().unwrap();
    assert_eq!(below[0].alphavector, vec![-15_000_000, -5_000_000]);
    assert_eq!(below[1].alphavector, vec![-10_000_000, 0]);
}

#[test]
fn a_stored_value_is_taken_as_it_is() {
    let pomdp = crying_baby();
    let mut plan = leaf(2);
    calculate_alphavector(&mut plan, &pomdp);
    let mut again = plan.clone();
    assert_eq!(calculate_alphavector(&mut again, &pomdp), vec![-10_000_000, 0]);
    assert!(again == plan);
}

#[test]
fn value_of_a_tree() {
    let pomdp = crying_baby();
    // ignore; feed if the baby cries, ignore if it is quiet
    let mut plan = node(2, vec![leaf(0), leaf(2)]);
    assert_eq!(calculate_alphavector(&mut plan, &pomdp), vec![-22_600_000, -1_665_000]);
    // every node that was evaluated has its value stored
    assert_eq!(plan.alphavector, vec![-22_600_000, -1_665_000]);
    let below = plan.subplans.as_ref().unwrap();
    assert_eq!(below[0].alphavector, vec![-15_000_000, -5_000_000]);
    assert_eq!(below[1].alphavector, vec![-10_000_000, 0]);
    assert_eq!(plan.evaluate(&pomdp), vec![-22_600_000, -1_665_000]);
    let mut deeper = node(0, vec![node(2, vec![leaf(0), leaf(2)]), node(2, vec![leaf(2), leaf(2)])]);
    // feed leads to sated: -5 + 0.9 * (0.1 * -1.665 + 0.9 * -0.9)
    assert_eq!(calculate_alphavector(&mut deeper, &pomdp), vec![-15_878_850, -5_878_850]);
    assert_eq!(node(2, vec![leaf(0), leaf(2)]).evaluate(&pomdp), vec![-22_600_000, -1_665_000]);
}

#[test]
fn a_subplan_with_a_stored_value_keeps_it() {
    let pomdp = crying_baby();
    let mut below = node(2, vec![leaf(0), leaf(2)]);
    calculate_alphavector(&mut below, &pomdp);
    let mut plan = node(0, vec![below, leaf(2)]);
    // feed leads to sated: -5 + 0.9 * (0.1 * -1.665 + 0.9 * 0)
    assert_eq!(calculate_alphavector(&mut plan, &pomdp), vec![-15_149_850, -5_149_850]);
    let children = plan.subplans.as_ref().unwrap();
    assert_eq!(children[0].alphavector, vec![-22_600_000, -1_665_000]);
    assert_eq!(children[1].alphavector, vec![-10_000_000, 0]);
}

#[test]
fn default_plan_is_a_leaf() {
    let plan = ConditionalPlan::default();
    assert_eq!(plan.action, 0);
    assert!(plan.subplans.is_none());
    assert!(plan.alphavector.is_empty());
}

#[test]
fn equality_looks_at_actions_and_subplans_only() {
    let mut one = node(1, vec![leaf(0), leaf(2)]);
    let other = node(1, vec![leaf(0), leaf(2)]);
    one.alphavector = vec![7];
    assert!(one == other);
    assert!(one != node(2, vec![leaf(0), leaf(2)]));
    assert!(one != node(1, vec![leaf(0), leaf(1)]));
    assert!(one != node(1, vec![leaf(0)]));
    assert!(leaf(1) != node(1, vec![]));
    assert!(one.same_as(&other));
}

#[test]
fn clone_is_a_deep_copy() {
    let mut one = node(1, vec![leaf(0), node(2, vec![leaf(1)])]);
    one.alphavector = vec![3, 4];
    let mut copy = one.clone();
    assert!(copy == one);
    assert_eq!(copy.alphavector, vec![3, 4]);
    copy.subplans.as_mut().unwrap()[1].action = 0;
    assert!(copy != one);
    assert_eq!(one.subplans.as_ref().unwrap()[1].action, 2);
    assert!(one.duplicate() == one);
}

#[test]
fn counting_nodes() {
    assert_eq!(get_nodes_count(&leaf(0)), 1);
    assert_eq!(get_nodes_count(&node(0, vec![])), 1);
    assert_eq!(get_nodes_count(&node(0, vec![leaf(0), node(1, vec![leaf(2)])])), 4);
}

#[test]
fn powers() {
    assert_eq!(checked_power(2, 10), Some(1024));
    assert_eq!(checked_power(3, 0), Some(1));
    assert_eq!(checked_power(0, 0), Some(1));
    assert_eq!(checked_power(0, 3), Some(0));
    assert_eq!(checked_power(1, 1_000_000), Some(1));
    assert_eq!(checked_power(usize::MAX, 1), Some(usize::MAX));
    assert_eq!(checked_power(usize::MAX, 2), None);
    assert_eq!(checked_power(2, usize::BITS as usize), None);
    assert_eq!(checked_power(2, usize::BITS as usize - 1), Some(1 << (usize::BITS - 1)));
}

#[test]
fn expansion_counts() {
    let pomdp = crying_baby();
    assert_eq!(expansion_count(&pomdp, 0), Some(0));
    assert_eq!(expansion_count(&pomdp, 1), Some(3));
    assert_eq!(expansion_count(&pomdp, 2), Some(12));
    assert_eq!(expansion_count(&pomdp, 5), Some(75));
    assert_eq!(expansion_count(&pomdp, usize::MAX), None);
    let mut blind = crying_baby();
    blind.observation_space = Vec::new();
    assert_eq!(expansion_count(&blind, 0), Some(3));
    assert_eq!(expansion_count(&blind, 7), Some(3));
}

#[test]
fn digits_lowest_first() {
    assert_eq!(decode(5, 3, 2), vec![1, 0, 1]);
    assert_eq!(decode(7, 2, 3), vec![1, 2]);
    assert_eq!(decode(7, 1, 3), vec![1]);
    assert_eq!(decode(0, 4, 10), vec![0, 0, 0, 0]);
    assert_eq!(decode(321, 3, 10), vec![1, 2, 3]);
    assert_eq!(decode(9, 0, 0), Vec::<usize>::new());
}

#[test]
fn every_assignment_of_plans_to_observations() {
    let plans = vec![leaf(0), leaf(2)];
    let all = get_plan_permutations(&plans, 2);
    let shape: Vec<Vec<usize>> = all.iter().map(|v| v.iter().map(|p| p.action).collect()).collect();
    assert_eq!(shape, vec![vec![0, 0], vec![2, 0], vec![0, 2], vec![2, 2]]);
    assert_eq!(get_plan_permutations(&plans, 0).len(), 1);
    assert_eq!(get_plan_permutations(&plans, 3).len(), 8);
    assert_eq!(get_plan_permutations(&Vec::new(), 2).len(), 0);
    let picked = pick_plans(&plans, &vec![1, 1, 0]);
    assert_eq!(picked.iter().map(|p| p.action).collect::<Vec<usize>>(), vec![2, 2, 0]);
}

#[test]
fn every_labelling_of_a_tree() {
    let pomdp = crying_baby();
    let all = get_permutations(&leaf(1), &pomdp);
    assert_eq!(all.iter().map(|p| p.action).collect::<Vec<usize>>(), vec![0, 1, 2]);
    let all = get_permutations(&node(0, vec![leaf(0), leaf(0)]), &pomdp);
    assert_eq!(all.len(), 27);
    // the root takes the highest digit, the first subplan the one below it
    assert!(all[0] == node(0, vec![leaf(0), leaf(0)]));
    assert!(all[1] == node(0, vec![leaf(0), leaf(1)]));
    assert!(all[3] == node(0, vec![leaf(1), leaf(0)]));
    assert!(all[9] == node(1, vec![leaf(0), leaf(0)]));
    assert!(all[26] == node(2, vec![leaf(2), leaf(2)]));
    for i in 0..27 {
        for j in 0..i {
            assert!(all[i] != all[j]);
        }
    }
}

use pomdp_planner::plan::ConditionalPlan;
use pomdp_planner::traverse::{depth_of, stands_behind};

fn leaf(action: usize) -> ConditionalPlan {
    ConditionalPlan::leaf(action)
}

fn node(action: usize, subplans: Vec<ConditionalPlan>) -> ConditionalPlan {
    ConditionalPlan { action, subplans: Some(subplans), alphavector: Vec::new() }
}

fn names(list: &[&str]) -> Vec<String> {
    list.iter().map(|name| name.to_string()).collect()
}

// in the order of names: feed, ignore, sing
fn baby() -> Vec<String> {
    names(&["feed", "sing", "ignore"])
}

// the action and the number of subplans of each node, as the walk takes them
fn walk(plan: &ConditionalPlan, action_space: &Vec<String>) -> Vec<(usize, usize)> {
    let mut seen = Vec::new();
    let mut iterator = plan.into_iter(action_space);
    while let Some(found) = iterator.next() {
        seen.push((found.action, found.subplans.as_ref().map_or(0, |c| c.len())));
    }
    assert!(iterator.next().is_none());
    seen
}

#[test]
fn depths() {
    assert_eq!(depth_of(&leaf(3)), 1);
    assert_eq!(depth_of(&node(3, vec![])), 1);
    assert_eq!(depth_of(&node(3, vec![leaf(0), leaf(1)])), 2);
    assert_eq!(depth_of(&node(3, vec![leaf(0), node(1, vec![node(2, vec![leaf(0)])])])), 4);
}

#[test]
fn the_order_of_names() {
    let all = names(&["feed", "sing", "ignore", "", "fee", "feeds", "Sing", "fée"]);
    let order = [3, 6, 4, 0, 5, 7, 2, 1];
    for (i, a) in order.iter().enumerate() {
        for (j, b) in order.iter().enumerate() {
            assert_eq!(stands_behind(&all, *a, *b), i > j);
            assert_eq!(stands_behind(&all, *a, *b), all[*a] > all[*b]);
        }
    }
    // an action without a name has the empty name
    assert!(!stands_behind(&all, 8, 0));
    assert!(stands_behind(&all, 0, 8));
    assert!(!stands_behind(&all, 3, 8));
    assert!(!stands_behind(&all, 8, 9));
}

#[test]
fn a_leaf_is_walked_alone() {
    assert_eq!(walk(&leaf(1), &baby()), vec![(1, 0)]);
}

#[test]
fn the_lowest_level_comes_first_and_the_root_last() {
    let plan = node(
        0,
        vec![node(1, vec![leaf(2), leaf(0)]), node(2, vec![leaf(1)]), leaf(0)],
    );
    // breadth first, each level by name: [feed], [feed, ignore, sing], [feed, ignore, sing]
    assert_eq!(
        walk(&plan, &baby()),
        vec![(1, 0), (2, 0), (0, 0), (1, 2), (2, 1), (0, 0), (0, 3)]
    );
    // with the names in the order of the actions the levels are [0], [0, 1, 2], [0, 1, 2]
    assert_eq!(
        walk(&plan, &names(&["a", "b", "c"])),
        vec![(2, 0), (1, 0), (0, 0), (2, 1), (1, 2), (0, 0), (0, 3)]
    );
}

#[test]
fn nodes_with_one_action_keep_the_order_of_their_observations() {
    let plan = node(0, vec![node(1, vec![leaf(0)]), node(1, vec![leaf(0), leaf(0)]), node(1, vec![])]);
    // level two in breadth-first order is (1,1), (1,2), (1,0); the walk takes it from the end
    assert_eq!(
        walk(&plan, &baby()),
        vec![(0, 0), (0, 0), (0, 0), (1, 0), (1, 2), (1, 1), (0, 3)]
    );
}

use pomdp_planner::hex_world::{make_target_state, HexCell, HexMove};
use pomdp_planner::mdp::{
    findmax, greedy_findmax, iterative_policy_evaluation, policy_evaluation, policy_iteration,
    PolicyIteration, MDP,
};
use pomdp_planner::model::POMDP;

fn names(v: &[&str]) -> Vec<String> {
    v.iter().map(|s| s.to_string()).collect()
}

fn crying_baby() -> POMDP {
    POMDP {
        gamma: 900_000,
        state_space: names(&["hungry", "sated"]),
        action_space: names(&["feed", "sing", "ignore"]),
        observation_space: names(&["crying", "quiet"]),
        transition_function: vec![
            vec![vec![0, 1_000_000], vec![1_000_000, 0], vec![1_000_000, 0]],
            vec![vec![0, 1_000_000], vec![100_000, 900_000], vec![100_000, 900_000]],
        ],
        reward_function: vec![
            vec![-15_000_000, -10_500_000, -10_000_000],
            vec![-5_000_000, -500_000, 0],
        ],
        observation_function: vec![
            vec![vec![800_000, 100_000], vec![900_000, 0], vec![800_000, 100_000]],
            vec![vec![200_000, 900_000], vec![100_000, 1_000_000], vec![200_000, 900_000]],
        ],
    }
}

// two states, "low" and "high"; actions "stay" and "go"
fn two_rooms() -> MDP {
    MDP {
        gamma: 500_000,
        s: names(&["low", "high"]),
        a: names(&["stay", "go"]),
        t: vec![
            vec![vec![1_000_000, 0], vec![0, 1_000_000]],
            vec![vec![0, 1_000_000], vec![1_000_000, 0]],
        ],
        r: vec![vec![0, -1_000_000], vec![4_000_000, 0]],
    }
}

#[test]
fn lookups_read_missing_entries_as_zero() {
    let pomdp = crying_baby();
    assert_eq!(pomdp.reward_at(0, 0), -15_000_000);
    assert_eq!(pomdp.reward_at(1, 2), 0);
    assert_eq!(pomdp.reward_at(2, 0), 0);
    assert_eq!(pomdp.reward_at(0, 3), 0);
    assert_eq!(pomdp.transition_at(1, 1, 0), 100_000);
    assert_eq!(pomdp.transition_at(1, 1, 2), 0);
    assert_eq!(pomdp.transition_at(5, 1, 0), 0);
    assert_eq!(pomdp.observation_at(0, 1, 0), 900_000);
    assert_eq!(pomdp.observation_at(1, 1, 1), 1_000_000);
    assert_eq!(pomdp.observation_at(2, 1, 1), 0);
    let mut ragged = crying_baby();
    ragged.reward_function = vec![vec![-15_000_000]];
    ragged.transition_function = Vec::new();
    assert_eq!(ragged.reward_at(0, 0), -15_000_000);
    assert_eq!(ragged.reward_at(0, 1), 0);
    assert_eq!(ragged.reward_at(1, 0), 0);
    assert_eq!(ragged.transition_at(0, 0, 0), 0);
    assert!(ragged.is_valid());
}

#[test]
fn usable_models() {
    assert!(crying_baby().is_valid());
    let mut pomdp = crying_baby();
    pomdp.gamma = 1_000_000;
    assert!(pomdp.is_valid());
    pomdp.gamma = 1_000_001;
    assert!(!pomdp.is_valid());
    pomdp.gamma = -1;
    assert!(!pomdp.is_valid());
    let mut pomdp = crying_baby();
    pomdp.reward_function[1][1] = 1_000_000_000_000;
    assert!(pomdp.is_valid());
    pomdp.reward_function[1][1] = 1_000_000_000_001;
    assert!(!pomdp.is_valid());
    pomdp.reward_function[1][1] = -1_000_000_000_001;
    assert!(!pomdp.is_valid());
    let mut pomdp = crying_baby();
    pomdp.transition_function[1][1] = vec![100_000, 900_001];
    assert!(!pomdp.is_valid());
    pomdp.transition_function[1][1] = vec![100_000, 800_000];
    assert!(pomdp.is_valid());
    pomdp.transition_function[1][1] = vec![-1, 800_000];
    assert!(!pomdp.is_valid());
    let mut pomdp = crying_baby();
    pomdp.observation_function[0][2][0] = 800_001;
    assert!(!pomdp.is_valid());
    pomdp.observation_function[0][2][0] = -800_000;
    assert!(!pomdp.is_valid());
    // what lies outside the named states, actions and observations does not count
    let mut pomdp = crying_baby();
    pomdp.reward_function.push(vec![i64::MAX]);
    pomdp.transition_function[0][0].push(-7);
    assert!(pomdp.is_valid());
    let empty = POMDP {
        gamma: 0,
        state_space: Vec::new(),
        action_space: Vec::new(),
        observation_space: Vec::new(),
        transition_function: Vec::new(),
        reward_function: Vec::new(),
        observation_function: Vec::new(),
    };
    assert!(empty.is_valid());
}

#[test]
fn usable_decision_processes() {
    assert!(two_rooms().is_valid());
    let mut mdp = two_rooms();
    mdp.gamma = 2_000_000;
    assert!(!mdp.is_valid());
    let mut mdp = two_rooms();
    mdp.t[0][1] = vec![500_000, 500_001];
    assert!(!mdp.is_valid());
    let mut mdp = two_rooms();
    mdp.t[1][0] = vec![-1, 1_000_000];
    assert!(!mdp.is_valid());
    let mut mdp = two_rooms();
    mdp.r[0][0] = -2_000_000_000_000;
    assert!(!mdp.is_valid());
    assert_eq!(two_rooms().reward_at(1, 0), 4_000_000);
    assert_eq!(two_rooms().reward_at(1, 2), 0);
    assert_eq!(two_rooms().transition_at(0, 1, 1), 1_000_000);
    assert_eq!(two_rooms().transition_at(0, 1, 2), 0);
}

// a value in the units of values, a millionth of a millionth, from millionths
fn fine(x: i64) -> i128 {
    x as i128 * 1_000_000
}

fn fines(v: &[i64]) -> Vec<i128> {
    v.iter().map(|x| fine(*x)).collect()
}

#[test]
fn one_step_lookahead() {
    let mdp = two_rooms();
    let u = fines(&[2_000_000, 4_000_000]);
    assert_eq!(mdp.lookahead(&u, 0, 1), fine(1_000_000));
    assert_eq!(mdp.lookahead(&u, 0, 0), fine(1_000_000));
    assert_eq!(mdp.lookahead(&u, 1, 0), fine(6_000_000));
    assert_eq!(mdp.lookahead(&u, 1, 1), fine(1_000_000));
    // values carry twelve digits behind the point
    assert_eq!(mdp.lookahead(&vec![1, 3], 1, 1), 0);
    assert_eq!(mdp.lookahead(&vec![2_468, 0], 1, 1), 1_234);
    // the discounted sum is rounded toward zero: half of -3 units is -1 unit
    assert_eq!(mdp.lookahead(&vec![-3, 3], 0, 0), -1);
    assert_eq!(mdp.lookahead(&vec![-3, 3], 0, 1), -999_999_999_999);
}

#[test]
fn best_actions() {
    let mdp = two_rooms();
    assert_eq!(findmax(&mdp, &fines(&[0, 4_000_000]), 0), (1, fine(1_000_000)));
    assert_eq!(findmax(&mdp, &fines(&[0, 4_000_000]), 1), (0, fine(6_000_000)));
    // a tie goes to the first action
    assert_eq!(findmax(&mdp, &fines(&[2_000_000, 4_000_000]), 0), (0, fine(1_000_000)));
    let mut u = fines(&[0, 4_000_000]);
    assert_eq!(greedy_findmax(&mdp, &mut u, 0), 1);
    assert_eq!(u, fines(&[1_000_000, 4_000_000]));
}

#[test]
fn evaluating_a_policy() {
    let mdp = two_rooms();
    assert_eq!(policy_evaluation(&mdp, &vec![0, 0], vec![0, 0]), fines(&[0, 4_000_000]));
    // each update sees the updates before it
    assert_eq!(
        policy_evaluation(&mdp, &vec![1, 1], vec![0, 0]),
        fines(&[-1_000_000, -500_000])
    );
    assert_eq!(iterative_policy_evaluation(&mdp, 0, 2, Vec::new()), fines(&[0, 6_000_000]));
    assert_eq!(iterative_policy_evaluation(&mdp, 0, 0, Vec::new()), vec![0, 0]);
    assert_eq!(
        iterative_policy_evaluation(&mdp, 0, 1, fines(&[0, 4_000_000])),
        fines(&[0, 6_000_000])
    );
}

#[test]
fn improving_a_policy() {
    let mdp = two_rooms();
    let mut policy = PolicyIteration { pi: Vec::new(), k_max: 1 };
    policy.initialize(&mdp, 0);
    assert_eq!(policy.pi, vec![0, 0]);
    assert_eq!(policy.k_max, 1);
    policy_iteration(&mdp, &mut policy);
    assert_eq!(policy.pi, vec![1, 0]);
    // every round evaluates the policy it started from: with "go" everywhere the
    // high room looks poor, and staying low wins
    let mut policy = PolicyIteration { pi: vec![1, 1], k_max: 10 };
    policy_iteration(&mdp, &mut policy);
    assert_eq!(policy.pi, vec![0, 0]);
    assert_eq!(policy.k_max, 10);
    // without a round there is no policy
    let mut policy = PolicyIteration { pi: vec![1, 1], k_max: 0 };
    policy_iteration(&mdp, &mut policy);
    assert_eq!(policy.pi, Vec::<usize>::new());
}

#[test]
fn initializing_keeps_what_belongs_to_no_state() {
    let mdp = two_rooms();
    let mut policy = PolicyIteration { pi: vec![1, 1, 1, 0, 1], k_max: 3 };
    policy.initialize(&mdp, 0);
    assert_eq!(policy.pi, vec![0, 0, 1, 0, 1]);
    assert_eq!(policy.k_max, 3);
    let mut short = PolicyIteration { pi: vec![0], k_max: 3 };
    short.initialize(&mdp, 1);
    assert_eq!(short.pi, vec![1, 1]);
    let mut exact = PolicyIteration { pi: vec![0, 0], k_max: 3 };
    exact.initialize(&mdp, 1);
    assert_eq!(exact.pi, vec![1, 1]);
}

#[test]
fn moves_on_the_grid() {
    let cell = |row: i32, col: i32| HexCell { row, col };
    let states = vec![cell(0, 0), cell(0, 2), cell(1, 1), cell(1, 3), cell(2, 2), cell(1, -1), cell(0, -1)];
    assert_eq!(make_target_state(cell(1, 1), HexMove::NE, &states), Some(cell(0, 2)));
    assert_eq!(make_target_state(cell(1, 1), HexMove::NW, &states), Some(cell(0, 0)));
    assert_eq!(make_target_state(cell(1, 1), HexMove::E, &states), Some(cell(1, 3)));
    assert_eq!(make_target_state(cell(1, 1), HexMove::SE, &states), Some(cell(2, 2)));
    assert_eq!(make_target_state(cell(1, 1), HexMove::SW, &states), None);
    assert_eq!(make_target_state(cell(0, 0), HexMove::SE, &states), Some(cell(1, 1)));
    assert_eq!(make_target_state(cell(0, 0), HexMove::SW, &states), Some(cell(1, -1)));
    // a move to the west goes one column only
    assert_eq!(make_target_state(cell(0, 0), HexMove::W, &states), Some(cell(0, -1)));
    assert_eq!(make_target_state(cell(0, 2), HexMove::W, &states), None);
    assert_eq!(make_target_state(cell(0, 0), HexMove::NE, &states), None);
    assert_eq!(make_target_state(cell(0, 0), HexMove::E, &Vec::new()), None);
    assert_eq!(make_target_state(cell(i32::MAX, i32::MAX), HexMove::SE, &states), None);
    assert_eq!(make_target_state(cell(i32::MIN, i32::MIN), HexMove::NW, &states), None);
}

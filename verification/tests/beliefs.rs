use pomdp_planner::beliefs::{fill, normalize, update_beliefs};
use pomdp_planner::dominance::{
    check_belief, check_witness, find_maximal_belief, uniform, value_at, vet_answer,
};
use pomdp_planner::fixed::{divide_toward_zero, SCALE};
use pomdp_planner::model::POMDP;
use pomdp_planner::prune::{
    best_undecided, find_dominating, lowest_undecided, marked_vectors, prune, settle_candidate,
};
use pomdp_planner::plan::ConditionalPlan;

fn names(v: &[&str]) -> Vec<String> {
    v.iter().map(|s| s.to_string()).collect()
}

// states: hungry, sated; actions: feed, sing, ignore; observations: crying, quiet
fn crying_baby() -> POMDP {
    POMDP {
        gamma: 900_000,
        state_space: names(&["hungry", "sated"]),
        action_space: names(&["feed", "sing", "ignore"]),
        observation_space: names(&["crying", "quiet"]),
        transition_function: vec![
            vec![vec![0, 1_000_000], vec![1_000_000, 0], vec![1_000_000, 0]],
            vec![vec![0, 1_000_000], vec![100_000, 900_000], vec![100_000, 900_000]],
        ],
        reward_function: vec![
            vec![-15_000_000, -10_500_000, -10_000_000],
            vec![-5_000_000, -500_000, 0],
        ],
        observation_function: vec![
            vec![vec![800_000, 100_000], vec![900_000, 0], vec![800_000, 100_000]],
            vec![vec![200_000, 900_000], vec![100_000, 1_000_000], vec![200_000, 900_000]],
        ],
    }
}

const FEED: usize = 0;
const SING: usize = 1;
const IGNORE: usize = 2;
const CRYING: usize = 0;
const QUIET: usize = 1;

#[test]
fn test_belief_update() {
    let pomdp = crying_baby();
    let mut beliefs = normalize(&vec![SCALE, SCALE], SCALE).unwrap();
    println!("beliefs = {:?}", beliefs);
    println!("Ignore the baby!");
    assert!(update_beliefs(&pomdp, &mut beliefs, IGNORE, CRYING));
    println!("beliefs = {:?}", beliefs);
    println!("Feed the baby!");
    assert!(update_beliefs(&pomdp, &mut beliefs, FEED, QUIET));
    println!("beliefs = {:?}", beliefs);
    println!("Ignore the baby!");
    assert!(update_beliefs(&pomdp, &mut beliefs, IGNORE, QUIET));
    println!("beliefs = {:?}", beliefs);
    println!("Ignore the baby!");
    assert!(update_beliefs(&pomdp, &mut beliefs, IGNORE, QUIET));
    println!("beliefs = {:?}", beliefs);
    println!("Ignore the baby!");
    assert!(update_beliefs(&pomdp, &mut beliefs, IGNORE, CRYING));
    println!("beliefs = {:?}", beliefs);
    println!("Sing to the baby!");
    assert!(update_beliefs(&pomdp, &mut beliefs, SING, QUIET));
    println!("beliefs = {:?}", beliefs);
    let sated = beliefs[1] as f64 / SCALE as f64;
    assert!(f64::powf(sated - 0.87697, 2.0).sqrt() < 0.0001);
}

#[test]
fn one_belief_update() {
    let pomdp = crying_baby();
    let mut beliefs = vec![500_000, 500_000];
    // arriving: hungry 0.5 + 0.05, sated 0.45; crying: 0.8 * 0.55 and 0.1 * 0.45
    assert!(update_beliefs(&pomdp, &mut beliefs, IGNORE, CRYING));
    assert_eq!(beliefs, vec![907_216, 92_783]);
    // feeding leads to sated whatever the belief
    assert!(update_beliefs(&pomdp, &mut beliefs, FEED, QUIET));
    assert_eq!(beliefs, vec![0, 1_000_000]);
}

#[test]
fn an_impossible_observation_leaves_the_belief() {
    let mut pomdp = crying_baby();
    let mut beliefs = vec![0, 1_000_000];
    assert!(update_beliefs(&pomdp, &mut beliefs, FEED, CRYING));
    assert_eq!(beliefs, vec![0, 1_000_000]);
    // a baby that was fed and is sated never cries: crying cannot be heard then
    pomdp.observation_function[CRYING][FEED] = vec![800_000, 0];
    pomdp.observation_function[QUIET][FEED] = vec![200_000, 1_000_000];
    assert!(pomdp.is_valid());
    let mut sated = vec![300_000, 700_000];
    assert!(!update_beliefs(&pomdp, &mut sated, FEED, CRYING));
    assert_eq!(sated, vec![300_000, 700_000]);
    assert!(update_beliefs(&pomdp, &mut sated, FEED, QUIET));
    assert_eq!(sated, vec![0, 1_000_000]);
}

#[test]
fn normalizing() {
    assert_eq!(normalize(&vec![SCALE, SCALE], SCALE), Some(vec![500_000, 500_000]));
    assert_eq!(normalize(&vec![1, 1, 1], SCALE), Some(vec![333_333, 333_333, 333_333]));
    assert_eq!(normalize(&vec![1, 3], 2 * SCALE), Some(vec![500_000, 1_500_000]));
    assert_eq!(normalize(&vec![-1, 3], SCALE), Some(vec![-500_000, 1_500_000]));
    assert_eq!(normalize(&vec![1, -4], SCALE), Some(vec![-333_333, 1_333_333]));
    assert_eq!(normalize(&vec![], SCALE), None);
    assert_eq!(normalize(&vec![0, 0], SCALE), None);
    assert_eq!(normalize(&vec![5, -5], SCALE), None);
    assert_eq!(normalize(&vec![i64::MAX, 2 - i64::MAX], SCALE), None);
    assert_eq!(normalize(&vec![i64::MAX, i64::MAX], 2), Some(vec![1, 1]));
}

#[test]
fn filling() {
    assert_eq!(fill(&vec![5, 6, 7], 3), vec![SCALE, SCALE, SCALE]);
    assert_eq!(fill(&vec![], 3), Vec::<i64>::new());
}

#[test]
fn rounding_toward_zero() {
    assert_eq!(divide_toward_zero(7, 2), 3);
    assert_eq!(divide_toward_zero(-7, 2), -3);
    assert_eq!(divide_toward_zero(-6, 2), -3);
    assert_eq!(divide_toward_zero(0, 5), 0);
    assert_eq!(divide_toward_zero(-1, 5), 0);
}

#[test]
fn uniform_beliefs() {
    assert_eq!(uniform(1), vec![1_000_000]);
    assert_eq!(uniform(2), vec![500_000, 500_000]);
    assert_eq!(uniform(3), vec![333_333, 333_333, 333_333]);
    assert_eq!(uniform(1_000_000), vec![1; 1_000_000]);
    assert_eq!(uniform(1_000_001), vec![0; 1_000_001]);
}

#[test]
fn what_a_belief_is() {
    assert!(check_belief(&vec![500_000, 500_000], 2));
    assert!(check_belief(&vec![1_000_000, 0], 2));
    assert!(check_belief(&vec![333_333, 333_333, 333_333], 3));
    // rounding down may lose less than one unit for each state
    assert!(check_belief(&vec![500_000, 499_999], 2));
    assert!(!check_belief(&vec![499_999, 499_999], 2));
    assert!(!check_belief(&vec![333_333, 333_333, 333_331], 3));
    assert!(!check_belief(&vec![0, 0], 2));
    assert!(!check_belief(&vec![], 0));
    assert!(!check_belief(&vec![500_000, 500_001], 2));
    assert!(!check_belief(&vec![-1, 500_000], 2));
    assert!(!check_belief(&vec![500_000, 500_000], 3));
    assert!(!check_belief(&vec![i64::MAX, i64::MAX], 2));
}

#[test]
fn value_at_a_belief() {
    assert_eq!(value_at(&vec![500_000, 500_000], &vec![-10_000_000, 0]), -5_000_000_000_000);
    assert_eq!(value_at(&vec![250_000, 750_000], &vec![4, -8]), 1_000_000 - 6_000_000);
    assert_eq!(value_at(&vec![1_000_000, 0], &vec![i64::MIN, i64::MAX]), -(1i128 << 63) * 1_000_000);
}

#[test]
fn witnesses() {
    let feed = vec![-15_000_000, -5_000_000];
    let ignore = vec![-19_000_000, -900_000];
    let accepted = vec![ignore.clone()];
    assert!(check_witness(&vec![1_000_000, 0], &feed, &accepted));
    assert!(check_witness(&vec![600_000, 400_000], &feed, &accepted));
    // 4 * 0.5 < 4.1 * 0.5
    assert!(!check_witness(&vec![500_000, 500_000], &feed, &accepted));
    assert!(!check_witness(&vec![0, 1_000_000], &feed, &accepted));
    // not a belief
    assert!(!check_witness(&vec![0, 0], &feed, &accepted));
    assert!(!check_witness(&vec![900_000, 0], &feed, &accepted));
    assert!(!check_witness(&vec![2_000_000, 0], &feed, &accepted));
    assert!(!check_witness(&vec![1_000_000], &feed, &accepted));
    // against nothing every belief is a witness
    assert!(check_witness(&vec![0, 1_000_000], &feed, &Vec::new()));
    // a tie is no witness
    assert!(!check_witness(&vec![1_000_000, 0], &feed, &vec![feed.clone()]));
}

#[test]
fn answers_are_vetted() {
    let feed = vec![-15_000_000, -5_000_000];
    let accepted = vec![vec![-19_000_000, -900_000]];
    assert_eq!(vet_answer(Some(vec![1_000_000, 0]), &feed, &accepted), Some(vec![1_000_000, 0]));
    assert_eq!(vet_answer(Some(vec![0, 1_000_000]), &feed, &accepted), None);
    assert_eq!(vet_answer(Some(vec![7]), &feed, &accepted), None);
    assert_eq!(vet_answer(None, &feed, &accepted), None);
}

fn always_hungry(_: &Vec<i64>, _: &Vec<Vec<i64>>) -> Option<Vec<i64>> {
    Some(vec![1_000_000, 0])
}

fn always_sated(_: &Vec<i64>, _: &Vec<Vec<i64>>) -> Option<Vec<i64>> {
    Some(vec![0, 1_000_000])
}

fn nonsense(_: &Vec<i64>, _: &Vec<Vec<i64>>) -> Option<Vec<i64>> {
    Some(vec![-5, 2_000_000, 3])
}

fn nothing(_: &Vec<i64>, _: &Vec<Vec<i64>>) -> Option<Vec<i64>> {
    None
}

#[test]
fn dominance_test_with_given_answers() {
    let feed = vec![-15_000_000, -5_000_000];
    let accepted = vec![vec![-19_000_000, -900_000]];
    assert_eq!(find_maximal_belief(&feed, &accepted, &always_hungry), Some(vec![1_000_000, 0]));
    assert_eq!(find_maximal_belief(&feed, &accepted, &always_sated), None);
    assert_eq!(find_maximal_belief(&feed, &accepted, &nonsense), None);
    assert_eq!(find_maximal_belief(&feed, &accepted, &nothing), None);
    // against nothing the solver is not asked
    assert_eq!(find_maximal_belief(&feed, &Vec::new(), &nonsense), Some(vec![500_000, 500_000]));
    assert_eq!(find_maximal_belief(&vec![1, 2, 3], &Vec::new(), &nothing), Some(vec![333_333; 3]));
    assert_eq!(find_maximal_belief(&Vec::new(), &Vec::new(), &always_hungry), None);
}

#[test]
fn sweeping_with_given_answers() {
    let feed = vec![-15_000_000, -5_000_000];
    let sing = vec![-19_500_000, -1_400_000];
    let ignore = vec![-19_000_000, -900_000];
    let all = vec![feed.clone(), sing.clone(), ignore.clone()];
    // the uniform belief picks ignore; nothing else gets a witness
    assert_eq!(find_dominating(&all, &nothing), vec![false, false, true]);
    assert_eq!(find_dominating(&all, &nonsense), vec![false, false, true]);
    assert_eq!(find_dominating(&all, &always_sated), vec![false, false, true]);
    // at "hungry" feed beats ignore; sing does not beat feed there
    assert_eq!(find_dominating(&all, &always_hungry), vec![true, false, true]);
    // the candidate that is accepted need not be the one that was tested: the
    // first one is tested twice; ignore is worth most at the uniform belief, and
    // feed is worth most at "hungry"
    let other_first = vec![vec![-18_000_000, -2_500_000], feed.clone(), ignore.clone()];
    assert_eq!(find_dominating(&other_first, &always_hungry), vec![false, true, true]);
    let best_first = vec![vec![-18_000_000, -1_400_000], feed.clone(), ignore.clone()];
    assert_eq!(find_dominating(&best_first, &always_hungry), vec![true, true, false]);
    assert_eq!(find_dominating(&Vec::new(), &nothing), Vec::<bool>::new());
    // without states there is no belief, and nothing is accepted
    assert_eq!(find_dominating(&vec![vec![], vec![]], &nothing), vec![false, false]);
}

#[test]
fn ties_go_to_the_first_candidate() {
    let all = vec![vec![1, 1], vec![2, 0], vec![0, 2], vec![1, 1]];
    assert_eq!(find_dominating(&all, &nothing), vec![true, false, false, false]);
    let plans: Vec<ConditionalPlan> = (0..4).map(ConditionalPlan::leaf).collect();
    let (kept_plans, kept) = prune(&plans, &all, &always_hungry);
    assert_eq!(kept, vec![vec![1, 1], vec![2, 0]]);
    assert_eq!(kept_plans.iter().map(|p| p.action).collect::<Vec<usize>>(), vec![0, 1]);
}

#[test]
fn the_steps_of_a_sweep() {
    let all = vec![vec![-15_000_000, -5_000_000], vec![-19_500_000, -1_400_000], vec![-19_000_000, -900_000]];
    let mut undecided = vec![true, true, true];
    let mut accepted = vec![false, false, false];
    assert_eq!(lowest_undecided(&undecided), Some(0));
    assert_eq!(marked_vectors(&all, &accepted), Vec::<Vec<i64>>::new());
    assert_eq!(best_undecided(&vec![500_000, 500_000], &all, &undecided), 2);
    assert_eq!(best_undecided(&vec![1_000_000, 0], &all, &undecided), 0);
    // a witness: the best undecided candidate at the witness is accepted
    settle_candidate(&all, &mut undecided, &mut accepted, &Some(vec![500_000, 500_000]));
    assert_eq!(undecided, vec![true, true, false]);
    assert_eq!(accepted, vec![false, false, true]);
    assert_eq!(marked_vectors(&all, &accepted), vec![vec![-19_000_000, -900_000]]);
    // no witness: the lowest undecided candidate is rejected
    settle_candidate(&all, &mut undecided, &mut accepted, &None);
    assert_eq!(undecided, vec![false, true, false]);
    assert_eq!(accepted, vec![false, false, true]);
    assert_eq!(lowest_undecided(&undecided), Some(1));
    assert_eq!(best_undecided(&vec![0, 1_000_000], &all, &undecided), 1);
    settle_candidate(&all, &mut undecided, &mut accepted, &Some(vec![0, 1_000_000]));
    assert_eq!(undecided, vec![false, false, false]);
    assert_eq!(accepted, vec![false, true, true]);
    assert_eq!(lowest_undecided(&undecided), None);
    assert_eq!(lowest_undecided(&Vec::new()), None);
}

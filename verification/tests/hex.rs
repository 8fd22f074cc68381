use pomdp_planner::fixed::SCALE;
use pomdp_planner::hex_world::{make_target_state, HexCell, HexMove};
use pomdp_planner::mdp::{iterative_policy_evaluation, policy_iteration, PolicyIteration, MDP};
use std::collections::HashMap;

fn to_fixed(x: f64) -> i64 {
    (x * SCALE as f64).round() as i64
}

fn name_of(cell: HexCell) -> String {
    format!("row_{}_col_{}", cell.row, cell.col)
}

// The hex world: three rows of cells; a move goes where it is meant to with probability
// 0.7 and to either side with 0.15; bumping into a wall costs 1; three cells end the walk.
fn create_mdp(gamma: f64) -> MDP {
    let skip = [(1, 7), (1, 11), (1, 13), (2, 8), (2, 16)];
    let mut cells: Vec<HexCell> = Vec::new();
    for row in 0..3i32 {
        let mut col = 0;
        while col < 20 {
            let mut column = col;
            if row % 2 == 1 {
                column += 1;
                if column >= 18 {
                    break;
                }
            }
            if !skip.contains(&(row, column)) {
                cells.push(HexCell { row, col: column });
            }
            col += 2;
        }
    }
    let moves = [HexMove::E, HexMove::SE, HexMove::SW, HexMove::W, HexMove::NW, HexMove::NE];
    let actions: Vec<String> = ["E", "SE", "SW", "W", "NW", "NE"].iter().map(|s| s.to_string()).collect();
    let mut states: Vec<String> = cells.iter().map(|c| name_of(*c)).collect();
    states.push("terminal".to_string());
    let index: HashMap<String, usize> = states.iter().cloned().enumerate().map(|(i, s)| (s, i)).collect();
    let mut t = vec![vec![vec![0.0f64; states.len()]; actions.len()]; states.len()];
    let mut r = vec![vec![0.0f64; actions.len()]; states.len()];
    for (s, from) in cells.iter().enumerate() {
        for i in 0..moves.len() {
            let prev = if i == 0 { moves.len() - 1 } else { i - 1 };
            let next = if i + 1 == moves.len() { 0 } else { i + 1 };
            for k in [prev, i, next] {
                let probability = if k == i { 0.7 } else { 0.15 };
                let target = match make_target_state(*from, moves[k], &cells) {
                    Some(x) => index[&name_of(x)],
                    None => s,
                };
                t[s][i][target] += probability;
            }
            r[s][i] = -1.0 * t[s][i][s];
        }
    }
    for (state, reward) in [("row_1_col_1", 5.0), ("row_2_col_4", -10.0), ("row_2_col_18", 10.0)] {
        let s = index[state];
        for a in 0..actions.len() {
            t[s][a] = vec![0.0; states.len()];
            t[s][a][index["terminal"]] = 1.0;
            r[s][a] = reward;
        }
    }
    MDP {
        gamma: to_fixed(gamma),
        t: t.iter().map(|p| p.iter().map(|row| row.iter().map(|x| to_fixed(*x)).collect()).collect()).collect(),
        r: r.iter().map(|row| row.iter().map(|x| to_fixed(*x)).collect()).collect(),
        s: states,
        a: actions,
    }
}

#[test]
fn test_iterative_policy_evaluation() {
    let mdp = create_mdp(0.9);
    assert!(mdp.is_valid());
    let e = mdp.a.iter().position(|a| a == "E").unwrap();
    let values = iterative_policy_evaluation(&mdp, e, 4, Vec::new());
    let mut return_value = HashMap::<String, f64>::new();
    for (state, value) in mdp.s.iter().zip(values.iter()) {
        return_value.insert(state.clone(), *value as f64 / 1e12);
    }
    let mut expected = HashMap::<String, f64>::new();
    expected.insert("row_0_col_8".to_string(), -0.9530023239375);
    expected.insert("row_0_col_18".to_string(), -3.439);
    expected.insert("row_0_col_12".to_string(), -1.01587436495625);
    expected.insert("row_2_col_18".to_string(), 10.0);
    expected.insert("row_2_col_4".to_string(), -10.0);
    let mut delta = 0.0;
    for key in expected.keys() {
        assert!(return_value.contains_key(key));
        delta += f64::powf(expected.get(key).unwrap() - return_value.get(key).unwrap(), 2.0).sqrt();
        assert!(delta < 0.000001);
    }
}

#[test]
fn evaluating_the_policy_east_on_the_hex_world() {
    let mdp = create_mdp(0.9);
    assert_eq!(mdp.s.len(), 25);
    let values = iterative_policy_evaluation(&mdp, 0, 4, Vec::new());
    let value_of = |name: &str| values[mdp.s.iter().position(|s| s == name).unwrap()];
    // four sweeps; values carry twelve digits behind the point
    assert_eq!(value_of("row_0_col_8"), -953_002_323_937);
    assert_eq!(value_of("row_0_col_18"), -3_439_000_000_000);
    assert_eq!(value_of("row_0_col_12"), -1_015_874_364_956);
    assert_eq!(value_of("row_2_col_18"), 10_000_000_000_000);
    assert_eq!(value_of("row_2_col_4"), -10_000_000_000_000);
    assert_eq!(value_of("terminal"), 0);
}

#[test]
fn improving_the_policy_east_on_the_hex_world() {
    let mdp = create_mdp(0.9);
    let mut policy = PolicyIteration { pi: Vec::new(), k_max: 10 };
    policy.initialize(&mdp, 0);
    assert_eq!(policy.pi, vec![0; 25]);
    policy_iteration(&mdp, &mut policy);
    assert_eq!(policy.pi.len(), 25);
    let action_in = |name: &str| mdp.a[policy.pi[mdp.s.iter().position(|s| s == name).unwrap()]].clone();
    // next to the cell that pays 10, on its row and the row above, the walk heads for it
    assert_eq!(action_in("row_2_col_10"), "E");
    assert_eq!(action_in("row_1_col_17"), "SE");
    // next to the cell that pays 5
    assert_eq!(action_in("row_2_col_0"), "NE");
    assert_eq!(action_in("row_2_col_2"), "NW");
    // the states are swept in the order of the model; two rows from the cell that pays
    // 10 the walk goes down to the left
    assert_eq!(action_in("row_0_col_16"), "SW");
}

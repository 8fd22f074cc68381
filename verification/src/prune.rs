//! Pruning: reducing a set of alpha vectors to those that the dominance test
//! lets through.
use crate::dominance::{
    all_of_length, can_be_asked, find_maximal_belief, is_witness, optional_ints, tested, value_at,
};
use crate::fixed::{dot, ints, is_belief, rows};
use crate::plan::{lemma_trees, trees, ConditionalPlan, PlanTree};
use vstd::prelude::*;

verus! {

/// Where a sweep over the candidates stands: which of them are undecided,
/// and which have been accepted. A candidate that is neither has been
/// rejected.
pub struct Sweep {
    pub undecided: Seq<bool>,
    pub accepted: Seq<bool>,
}

/// All vectors have the same number of entries.
pub open spec fn rectangular(alphas: Seq<Seq<int>>) -> bool {
    forall|i: int| 0 <= i < alphas.len() ==> (#[trigger] alphas[i]).len() == alphas[0].len()
}

/// The number of marks set among the first `n`.
pub open spec fn count_true(marks: Seq<bool>, n: nat) -> nat
    decreases n,
{
    if n == 0 {
        0
    } else {
        count_true(marks, (n - 1) as nat) + if marks[n - 1] {
            1nat
        } else {
            0nat
        }
    }
}

/// The lowest position among the first `n` whose mark is set, or `n` if
/// there is none.
pub open spec fn first_true(marks: Seq<bool>, n: nat) -> int
    decreases n,
{
    if n == 0 {
        0
    } else {
        let before = first_true(marks, (n - 1) as nat);
        if before < n - 1 {
            before
        } else if marks[n - 1] {
            n - 1
        } else {
            n as int
        }
    }
}

/// Those of the first `n` items whose mark is set, in their order.
pub open spec fn selected<T>(items: Seq<T>, marks: Seq<bool>, n: nat) -> Seq<T>
    decreases n,
{
    if n == 0 {
        Seq::empty()
    } else {
        let before = selected(items, marks, (n - 1) as nat);
        if marks[n - 1] {
            before.push(items[n - 1])
        } else {
            before
        }
    }
}

/// Among the first `n` candidates, the undecided one that is worth most at
/// the belief `b`, the lowest such if several are; `-1` if none of them is
/// undecided.
pub open spec fn best_at(b: Seq<int>, alphas: Seq<Seq<int>>, undecided: Seq<bool>, n: nat) -> int
    decreases n,
{
    if n == 0 {
        -1
    } else {
        let before = best_at(b, alphas, undecided, (n - 1) as nat);
        if undecided[n - 1] && (before < 0 || dot(b, alphas[n - 1]) > dot(b, alphas[before])) {
            n - 1
        } else {
            before
        }
    }
}

/// One step of the sweep. The lowest undecided candidate was tested against
/// the accepted ones, and `witness` is what the test found. Without a
/// witness that candidate is rejected. With a witness, the undecided
/// candidate that is worth most at the witness is accepted.
pub open spec fn settle(alphas: Seq<Seq<int>>, state: Sweep, witness: Option<Seq<int>>) -> Sweep {
    let n = alphas.len();
    let lowest = first_true(state.undecided, n);
    match witness {
        None => Sweep {
            undecided: state.undecided.update(lowest, false),
            accepted: state.accepted,
        },
        Some(b) => {
            let best = best_at(b, alphas, state.undecided, n);
            Sweep {
                undecided: state.undecided.update(best, false),
                accepted: state.accepted.update(best, true),
            }
        },
    }
}

/// The state of the sweep after its first `t` steps, when the tests found
/// `witnesses`. At the start every candidate is undecided.
pub open spec fn sweep_after(alphas: Seq<Seq<int>>, witnesses: Seq<Option<Seq<int>>>, t: nat) -> Sweep
    decreases t,
{
    if t == 0 {
        Sweep {
            undecided: Seq::new(alphas.len(), |i: int| true),
            accepted: Seq::new(alphas.len(), |i: int| false),
        }
    } else {
        settle(alphas, sweep_after(alphas, witnesses, (t - 1) as nat), witnesses[t - 1])
    }
}

/// Step `t` of the sweep went by the rules: `witnesses[t]` is what the
/// dominance test of the lowest undecided candidate against the accepted
/// ones can give with `solver`.
pub open spec fn step_tested<F: Fn(&Vec<i64>, &Vec<Vec<i64>>) -> Option<Vec<i64>>>(
    solver: &F,
    alphas: Seq<Seq<int>>,
    witnesses: Seq<Option<Seq<int>>>,
    t: int,
) -> bool {
    let state = sweep_after(alphas, witnesses, t as nat);
    tested(
        solver,
        alphas[first_true(state.undecided, alphas.len())],
        selected(alphas, state.accepted, alphas.len()),
        witnesses[t],
    )
}

/// `kept_plans` and `kept_alphas` are an outcome of pruning `plans` and
/// `alphas` with `solver`: the plans and vectors that some outcome of the
/// sweep over `alphas` marks, in their order.
pub open spec fn pruned<F: Fn(&Vec<i64>, &Vec<Vec<i64>>) -> Option<Vec<i64>>>(
    solver: &F,
    plans: Seq<PlanTree>,
    alphas: Seq<Seq<int>>,
    kept_plans: Seq<PlanTree>,
    kept_alphas: Seq<Seq<int>>,
) -> bool {
    exists|marks: Seq<bool>|
        {
            &&& marks.len() == alphas.len()
            &&& #[trigger] pruning(solver, alphas, marks)
            &&& kept_plans == selected(plans, marks, alphas.len())
            &&& kept_alphas == selected(alphas, marks, alphas.len())
        }
}

/// `marks` is an outcome of pruning `alphas` with `solver`: a sweep of as
/// many steps as there are candidates, each of which went by the rules,
/// accepts exactly the candidates that `marks` marks.
pub open spec fn pruning<F: Fn(&Vec<i64>, &Vec<Vec<i64>>) -> Option<Vec<i64>>>(
    solver: &F,
    alphas: Seq<Seq<int>>,
    marks: Seq<bool>,
) -> bool {
    exists|witnesses: Seq<Option<Seq<int>>>|
        {
            &&& witnesses.len() == alphas.len()
            &&& forall|t: int|
                0 <= t < witnesses.len() ==> #[trigger] step_tested(solver, alphas, witnesses, t)
            &&& sweep_after(alphas, witnesses, alphas.len()).accepted == marks
        }
}

/// `first_true` is the lowest position whose mark is set.
pub proof fn lemma_first_true(marks: Seq<bool>, n: nat)
    requires
        n <= marks.len(),
    ensures
        0 <= first_true(marks, n) <= n,
        forall|j: int| 0 <= j < first_true(marks, n) ==> !#[trigger] marks[j],
        first_true(marks, n) < n ==> marks[first_true(marks, n)],
        count_true(marks, n) > 0 ==> first_true(marks, n) < n,
    decreases n,
{
    if n > 0 {
        lemma_first_true(marks, (n - 1) as nat);
    }
}

/// Clearing a set mark lowers the count by one; other updates of a mark
/// beyond the counted prefix leave it unchanged.
pub proof fn lemma_count_clear(marks: Seq<bool>, n: nat, k: int)
    requires
        n <= marks.len(),
        0 <= k < marks.len(),
        marks[k],
    ensures
        count_true(marks.update(k, false), n) == if k < n {
            count_true(marks, n) - 1
        } else {
            count_true(marks, n) as int
        },
    decreases n,
{
    if n > 0 {
        lemma_count_clear(marks, (n - 1) as nat, k);
    }
}

/// Setting a mark that was clear raises the count by one.
pub proof fn lemma_count_set(marks: Seq<bool>, n: nat, k: int)
    requires
        n <= marks.len(),
        0 <= k < marks.len(),
        !marks[k],
    ensures
        count_true(marks.update(k, true), n) == if k < n {
            count_true(marks, n) + 1
        } else {
            count_true(marks, n)
        },
    decreases n,
{
    if n > 0 {
        lemma_count_set(marks, (n - 1) as nat, k);
    }
}

/// Where no mark is set the count is zero.
pub proof fn lemma_count_none(marks: Seq<bool>, n: nat)
    requires
        n <= marks.len(),
        forall|j: int| 0 <= j < n ==> !#[trigger] marks[j],
    ensures
        count_true(marks, n) == 0,
    decreases n,
{
    if n > 0 {
        lemma_count_none(marks, (n - 1) as nat);
    }
}

/// At the start every mark is set.
pub proof fn lemma_count_all(n: nat, k: nat)
    requires
        k <= n,
    ensures
        count_true(Seq::new(n, |i: int| true), k) == k,
    decreases k,
{
    if k > 0 {
        lemma_count_all(n, (k - 1) as nat);
    }
}

/// `selected` holds as many items as marks are set.
pub proof fn lemma_selected_len<T>(items: Seq<T>, marks: Seq<bool>, n: nat)
    ensures
        selected(items, marks, n).len() == count_true(marks, n),
    decreases n,
{
    if n > 0 {
        lemma_selected_len(items, marks, (n - 1) as nat);
    }
}

/// Every item of `selected` is a marked item: the result is its position.
pub proof fn lemma_selected_source<T>(items: Seq<T>, marks: Seq<bool>, n: nat, p: int) -> (j: int)
    requires
        0 <= p < selected(items, marks, n).len(),
    ensures
        0 <= j < n,
        marks[j],
        selected(items, marks, n)[p] == items[j],
    decreases n,
{
    let before = selected(items, marks, (n - 1) as nat);
    if p < before.len() {
        lemma_selected_source(items, marks, (n - 1) as nat, p)
    } else {
        n - 1
    }
}

/// Every marked item is in `selected`: the result is its position there.
pub proof fn lemma_selected_position<T>(items: Seq<T>, marks: Seq<bool>, n: nat, j: int) -> (p:
    int)
    requires
        0 <= j < n,
        marks[j],
    ensures
        0 <= p < selected(items, marks, n).len(),
        selected(items, marks, n)[p] == items[j],
    decreases n,
{
    let before = selected(items, marks, (n - 1) as nat);
    if j < n - 1 {
        lemma_selected_position(items, marks, (n - 1) as nat, j)
    } else {
        before.len() as int
    }
}

/// `best_at` is undecided, worth at least as much at `b` as every other
/// undecided candidate, and strictly more than those before it.
pub proof fn lemma_best_at(b: Seq<int>, alphas: Seq<Seq<int>>, undecided: Seq<bool>, n: nat)
    requires
        n <= alphas.len(),
        n <= undecided.len(),
    ensures
        -1 <= best_at(b, alphas, undecided, n) < n,
        best_at(b, alphas, undecided, n) >= 0 ==> undecided[best_at(b, alphas, undecided, n)],
        best_at(b, alphas, undecided, n) < 0 ==> count_true(undecided, n) == 0,
        forall|j: int|
            0 <= j < n && #[trigger] undecided[j] ==> {
                let k = best_at(b, alphas, undecided, n);
                &&& k >= 0
                &&& dot(b, alphas[k]) >= dot(b, alphas[j])
                &&& j < k ==> dot(b, alphas[k]) > dot(b, alphas[j])
            },
    decreases n,
{
    if n > 0 {
        lemma_best_at(b, alphas, undecided, (n - 1) as nat);
    }
}

/// The state after `t` steps depends on the first `t` witnesses only.
pub proof fn lemma_sweep_prefix(
    alphas: Seq<Seq<int>>,
    one: Seq<Option<Seq<int>>>,
    other: Seq<Option<Seq<int>>>,
    t: nat,
)
    requires
        t <= one.len(),
        t <= other.len(),
        forall|i: int| 0 <= i < t ==> one[i] == other[i],
    ensures
        sweep_after(alphas, one, t) == sweep_after(alphas, other, t),
    decreases t,
{
    if t > 0 {
        lemma_sweep_prefix(alphas, one, other, (t - 1) as nat);
    }
}

/// The lowest undecided candidate, if a candidate is undecided.
pub fn lowest_undecided(candidates: &Vec<bool>) -> (lowest: Option<usize>)
    ensures
        match lowest {
            Some(index) => {
                &&& index == first_true(candidates@, candidates@.len())
                &&& index < candidates@.len()
                &&& candidates@[index as int]
            },
            None => {
                &&& first_true(candidates@, candidates@.len()) == candidates@.len()
                &&& count_true(candidates@, candidates@.len()) == 0
            },
        },
{
    proof {
        lemma_first_true(candidates@, candidates@.len());
    }
    let ghost lowest = first_true(candidates@, candidates@.len());
    let mut i: usize = 0;
    while i < candidates.len() && !candidates[i]
        invariant
            i <= lowest <= candidates@.len(),
            lowest < candidates@.len() ==> candidates@[lowest],
        decreases candidates@.len() - i,
    {
        i += 1;
    }
    if i < candidates.len() {
        Some(i)
    } else {
        None
    }
}

/// Copies of the vectors that are marked, in their order.
pub fn marked_vectors(big_gamma: &Vec<Vec<i64>>, marks: &Vec<bool>) -> (chosen: Vec<Vec<i64>>)
    requires
        marks@.len() == big_gamma@.len(),
    ensures
        rows(chosen@) == selected(rows(big_gamma@), marks@, big_gamma@.len()),
{
    let mut chosen: Vec<Vec<i64>> = Vec::new();
    let mut i: usize = 0;
    assert(rows(chosen@) =~= selected(rows(big_gamma@), marks@, 0));
    while i < big_gamma.len()
        invariant
            i <= big_gamma@.len(),
            marks@.len() == big_gamma@.len(),
            rows(chosen@) == selected(rows(big_gamma@), marks@, i as nat),
        decreases big_gamma@.len() - i,
    {
        let ghost before = rows(chosen@);
        if marks[i] {
            let copy = big_gamma[i].clone();
            assert(copy@ =~= big_gamma@[i as int]@);
            chosen.push(copy);
            assert(rows(chosen@) =~= before.push(rows(big_gamma@)[i as int]));
        }
        i += 1;
    }
    chosen
}

/// The undecided candidate that is worth most at the belief `b`, the lowest
/// such if several are.
pub fn best_undecided(b: &Vec<i64>, big_gamma: &Vec<Vec<i64>>, candidates: &Vec<bool>) -> (best: usize)
    requires
        candidates@.len() == big_gamma@.len(),
        count_true(candidates@, candidates@.len()) > 0,
        forall|i: int|
            0 <= i < big_gamma@.len() ==> is_belief(ints(b@), (#[trigger] big_gamma@[i])@.len()),
    ensures
        best == best_at(ints(b@), rows(big_gamma@), candidates@, big_gamma@.len()),
        best < big_gamma@.len(),
        candidates@[best as int],
{
    let n = big_gamma.len();
    let ghost alphas = rows(big_gamma@);
    let mut found = false;
    let mut best: usize = 0;
    let mut most: i128 = 0;
    let mut i: usize = 0;
    while i < n
        invariant
            i <= n,
            n == big_gamma@.len(),
            candidates@.len() == n,
            alphas == rows(big_gamma@),
            forall|i: int|
                0 <= i < big_gamma@.len() ==> is_belief(
                    ints(b@),
                    (#[trigger] big_gamma@[i])@.len(),
                ),
            found == (best_at(ints(b@), alphas, candidates@, i as nat) >= 0),
            found ==> best == best_at(ints(b@), alphas, candidates@, i as nat),
            found ==> most == dot(ints(b@), alphas[best as int]),
        decreases n - i,
    {
        proof {
            lemma_best_at(ints(b@), alphas, candidates@, i as nat);
        }
        if candidates[i] {
            assert(is_belief(ints(b@), big_gamma@[i as int]@.len()));
            let value = value_at(b, &big_gamma[i]);
            assert(alphas[i as int] == ints(big_gamma@[i as int]@));
            if !found || value > most {
                found = true;
                best = i;
                most = value;
            }
        }
        i += 1;
    }
    proof {
        lemma_best_at(ints(b@), alphas, candidates@, n as nat);
    }
    best
}

/// One step of the sweep. The lowest undecided candidate was tested against
/// the accepted ones, and `witness` is what the test found. Without a
/// witness that candidate is rejected. With a witness, the undecided
/// candidate that is worth most at the witness is accepted, the lowest such
/// if several are.
pub fn settle_candidate(
    big_gamma: &Vec<Vec<i64>>,
    candidates: &mut Vec<bool>,
    dominating: &mut Vec<bool>,
    witness: &Option<Vec<i64>>,
)
    requires
        old(candidates)@.len() == big_gamma@.len(),
        old(dominating)@.len() == big_gamma@.len(),
        count_true(old(candidates)@, big_gamma@.len()) > 0,
        *witness is Some ==> forall|i: int|
            0 <= i < big_gamma@.len() ==> is_belief(
                ints(witness->0@),
                (#[trigger] big_gamma@[i])@.len(),
            ),
    ensures
        (Sweep { undecided: final(candidates)@, accepted: final(dominating)@ }) == settle(
            rows(big_gamma@),
            Sweep { undecided: old(candidates)@, accepted: old(dominating)@ },
            optional_ints(*witness),
        ),
        final(candidates)@.len() == big_gamma@.len(),
        final(dominating)@.len() == big_gamma@.len(),
        count_true(final(candidates)@, big_gamma@.len()) == count_true(
            old(candidates)@,
            big_gamma@.len(),
        ) - 1,
{
    let ghost n = big_gamma@.len();
    match witness {
        None => {
            let lowest = lowest_undecided(candidates);
            match lowest {
                Some(index) => {
                    proof {
                        lemma_count_clear(candidates@, n, index as int);
                    }
                    candidates.set(index, false);
                },
                None => {},
            }
        },
        Some(b) => {
            let best = best_undecided(b, big_gamma, candidates);
            proof {
                lemma_count_clear(candidates@, n, best as int);
            }
            candidates.set(best, false);
            dominating.set(best, true);
        },
    }
}

/// Sweeps over the alpha vectors of `big_gamma` and marks those to keep.
///
/// While a candidate is undecided, the lowest undecided one is tested
/// against the vectors accepted so far (see `find_maximal_belief`). If the
/// test finds no witness, that candidate is rejected. If it finds one, the
/// undecided candidate that is worth most at the witness is accepted, the
/// lowest such if several are: this need not be the candidate that was
/// tested.
pub fn find_dominating<F: Fn(&Vec<i64>, &Vec<Vec<i64>>) -> Option<Vec<i64>>>(
    big_gamma: &Vec<Vec<i64>>,
    solver: &F,
) -> (dominating: Vec<bool>)
    requires
        rectangular(rows(big_gamma@)),
        can_be_asked(solver),
    ensures
        dominating@.len() == big_gamma@.len(),
        pruning(solver, rows(big_gamma@), dominating@),
        big_gamma@.len() > 0 && big_gamma@[0]@.len() > 0 ==> count_true(
            dominating@,
            big_gamma@.len(),
        ) > 0,
{
    let n = big_gamma.len();
    let ghost alphas = rows(big_gamma@);
    let ghost width = if n > 0 {
        alphas[0].len()
    } else {
        0
    };
    let mut candidates: Vec<bool> = Vec::new();
    let mut dominating: Vec<bool> = Vec::new();
    let mut i: usize = 0;
    while i < n
        invariant
            i <= n,
            candidates@.len() == i,
            dominating@.len() == i,
            forall|j: int| 0 <= j < i ==> #[trigger] candidates@[j],
            forall|j: int| 0 <= j < i ==> !#[trigger] dominating@[j],
        decreases n - i,
    {
        candidates.push(true);
        dominating.push(false);
        i += 1;
    }
    let ghost mut witnesses: Seq<Option<Seq<int>>> = Seq::empty();
    proof {
        assert(candidates@ =~= sweep_after(alphas, witnesses, 0).undecided);
        assert(dominating@ =~= sweep_after(alphas, witnesses, 0).accepted);
        assert(candidates@ =~= Seq::new(n as nat, |i: int| true));
        lemma_count_all(n as nat, n as nat);
        lemma_count_none(dominating@, n as nat);
    }
    let mut t: usize = 0;
    while t < n
        invariant
            t <= n,
            n == big_gamma@.len(),
            alphas == rows(big_gamma@),
            alphas.len() == n,
            rectangular(alphas),
            all_of_length(alphas, width),
            can_be_asked(solver),
            candidates@.len() == n,
            dominating@.len() == n,
            witnesses.len() == t,
            candidates@ == sweep_after(alphas, witnesses, t as nat).undecided,
            dominating@ == sweep_after(alphas, witnesses, t as nat).accepted,
            count_true(candidates@, n as nat) == n - t,
            forall|u: int| 0 <= u < t ==> #[trigger] step_tested(solver, alphas, witnesses, u),
            forall|j: int| 0 <= j < n && #[trigger] dominating@[j] ==> !candidates@[j],
            t == 0 ==> count_true(dominating@, n as nat) == 0,
            t > 0 && width > 0 ==> count_true(dominating@, n as nat) > 0,
            n > 0 ==> width == alphas[0].len(),
        decreases n - t,
    {
        let index = match lowest_undecided(&candidates) {
            Some(index) => index,
            None => 0,
        };
        let dominated = marked_vectors(big_gamma, &dominating);
        proof {
            assert(ints(big_gamma@[index as int]@) == alphas[index as int]);
            assert forall|p: int| 0 <= p < rows(dominated@).len() implies (#[trigger] rows(
                dominated@,
            )[p]).len() == big_gamma@[index as int]@.len() by {
                let j = lemma_selected_source(alphas, dominating@, n as nat, p);
                assert(alphas[j].len() == width);
                assert(alphas[index as int].len() == width);
            }
        }
        let witness = find_maximal_belief(&big_gamma[index], &dominated, solver);
        let ghost found = optional_ints(witness);
        let ghost before = witnesses;
        let ghost state = sweep_after(alphas, before, t as nat);
        proof {
            witnesses = before.push(found);
            lemma_sweep_prefix(alphas, witnesses, before, t as nat);
            assert forall|u: int| 0 <= u < t + 1 implies #[trigger] step_tested(
                solver,
                alphas,
                witnesses,
                u,
            ) by {
                lemma_sweep_prefix(alphas, witnesses, before, u as nat);
                if u < t {
                    assert(step_tested(solver, alphas, before, u));
                    assert(witnesses[u] == before[u]);
                } else {
                    assert(witnesses[u] == found);
                }
            }
            assert(sweep_after(alphas, witnesses, (t + 1) as nat) == settle(
                alphas,
                state,
                found,
            ));
            lemma_selected_len(alphas, dominating@, n as nat);
            lemma_first_true(candidates@, n as nat);
            if witness is Some {
                let b = ints(witness->0@);
                assert(is_witness(b, alphas[index as int], rows(dominated@)));
                assert forall|i: int| 0 <= i < big_gamma@.len() implies is_belief(
                    b,
                    (#[trigger] big_gamma@[i])@.len(),
                ) by {
                    assert(alphas[i] == ints(big_gamma@[i]@));
                    assert(alphas[i].len() == width);
                    assert(alphas[index as int].len() == width);
                }
                lemma_best_at(b, alphas, candidates@, n as nat);
                lemma_count_set(dominating@, n as nat, best_at(b, alphas, candidates@, n as nat));
            }
        }
        settle_candidate(big_gamma, &mut candidates, &mut dominating, &witness);
        t += 1;
    }
    proof {
        assert(pruning(solver, alphas, dominating@)) by {
            assert(witnesses.len() == alphas.len());
            assert(sweep_after(alphas, witnesses, alphas.len()).accepted == dominating@);
        }
        if n > 0 {
            assert(alphas[0] == ints(big_gamma@[0]@));
        }
    }
    dominating
}

/// Reduces the candidates to those that the sweep of `find_dominating`
/// accepts, in their order. `plans[i]` is the plan whose alpha vector is
/// `big_gamma[i]`.
pub fn prune<F: Fn(&Vec<i64>, &Vec<Vec<i64>>) -> Option<Vec<i64>>>(
    plans: &Vec<ConditionalPlan>,
    big_gamma: &Vec<Vec<i64>>,
    solver: &F,
) -> (kept: (Vec<ConditionalPlan>, Vec<Vec<i64>>))
    requires
        plans@.len() == big_gamma@.len(),
        rectangular(rows(big_gamma@)),
        can_be_asked(solver),
    ensures
        pruned(solver, trees(plans@), rows(big_gamma@), trees(kept.0@), rows(kept.1@)),
        kept.0@.len() == kept.1@.len(),
        big_gamma@.len() > 0 && big_gamma@[0]@.len() > 0 ==> kept.0@.len() > 0,
{
    let n = big_gamma.len();
    let d = find_dominating(big_gamma, solver);
    let mut returned_plans: Vec<ConditionalPlan> = Vec::new();
    let mut returned_gamma: Vec<Vec<i64>> = Vec::new();
    let mut i: usize = 0;
    proof {
        lemma_trees(plans@);
        lemma_trees(returned_plans@);
        assert(trees(returned_plans@) =~= selected(trees(plans@), d@, 0));
        assert(rows(returned_gamma@) =~= selected(rows(big_gamma@), d@, 0));
    }
    while i < n
        invariant
            i <= n,
            n == big_gamma@.len(),
            n == plans@.len(),
            n == d@.len(),
            returned_plans@.len() == returned_gamma@.len(),
            trees(returned_plans@) == selected(trees(plans@), d@, i as nat),
            rows(returned_gamma@) == selected(rows(big_gamma@), d@, i as nat),
        decreases n - i,
    {
        let ghost plans_before = returned_plans@;
        let ghost gamma_before = rows(returned_gamma@);
        if d[i] {
            let plan = plans[i].duplicate();
            let alpha = big_gamma[i].clone();
            assert(alpha@ =~= big_gamma@[i as int]@);
            returned_plans.push(plan);
            returned_gamma.push(alpha);
            proof {
                lemma_trees(plans@);
                lemma_trees(plans_before);
                lemma_trees(returned_plans@);
                assert(trees(returned_plans@) =~= trees(plans_before).push(trees(plans@)[i as int]));
                assert(rows(returned_gamma@) =~= gamma_before.push(rows(big_gamma@)[i as int]));
            }
        }
        i += 1;
    }
    proof {
        lemma_selected_len(rows(big_gamma@), d@, n as nat);
        assert(pruned(solver, trees(plans@), rows(big_gamma@), trees(returned_plans@), rows(
            returned_gamma@,
        ))) by {
            assert(pruning(solver, rows(big_gamma@), d@));
        }
    }
    (returned_plans, returned_gamma)
}

} // verus!

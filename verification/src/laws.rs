//! What holds of the sweeps that prune a set of alpha vectors.
//!
//! Of a sweep and the witnesses that its tests found:
//!
//! * `lemma_rejected_is_dominated`: where the tests are thorough, no belief
//!   has a rejected candidate above all that was accepted.
//! * `lemma_pruning_twice`: where no tie had to be broken and the tests are
//!   thorough, pruning what a pruning kept changes nothing.
//! * `lemma_kept_differ`: no vector is kept twice, whatever the solver
//!   answered.
//!
//! Of what `find_dominating` and `prune` hand back, with a solver that
//! misses no witness: `lemma_unmarked_is_dominated`,
//! `lemma_pruned_dominates` and `lemma_pruned_twice`.
use crate::dominance::{is_witness, lemma_uniform_is_belief, optional_ints, tested, vetted};
use crate::fixed::{dot, ints, is_belief, rows};
use crate::plan::PlanTree;
use crate::prune::{
    best_at, count_true, first_true, lemma_best_at, lemma_count_all, lemma_count_clear,
    lemma_count_none, lemma_count_set, lemma_first_true, lemma_selected_position,
    lemma_selected_source, pruned, pruning, rectangular, selected, settle, step_tested,
    sweep_after,
};
use vstd::prelude::*;

verus! {

/// Step `t` of the sweep was thorough: if its test found no witness, there
/// was none. No belief is one at which the candidate that was tested is
/// worth strictly more than every vector that had been accepted.
pub open spec fn thorough(alphas: Seq<Seq<int>>, witnesses: Seq<Option<Seq<int>>>, t: int) -> bool {
    let state = sweep_after(alphas, witnesses, t as nat);
    witnesses[t] is None ==> forall|b: Seq<int>|
        !#[trigger] is_witness(
            b,
            alphas[first_true(state.undecided, alphas.len())],
            selected(alphas, state.accepted, alphas.len()),
        )
}

/// Step `t` of the sweep was sound: if its test found a witness, that is a
/// belief at which the candidate that was tested is worth strictly more than
/// every vector that had been accepted.
pub open spec fn sound(alphas: Seq<Seq<int>>, witnesses: Seq<Option<Seq<int>>>, t: int) -> bool {
    let state = sweep_after(alphas, witnesses, t as nat);
    witnesses[t] is Some ==> is_witness(
        witnesses[t]->0,
        alphas[first_true(state.undecided, alphas.len())],
        selected(alphas, state.accepted, alphas.len()),
    )
}

/// Step `t` of the sweep was decisive: if its test found a witness, the
/// candidate that was accepted is worth strictly more at the witness than
/// every other undecided candidate. No tie had to be broken.
pub open spec fn decisive(alphas: Seq<Seq<int>>, witnesses: Seq<Option<Seq<int>>>, t: int) -> bool {
    let state = sweep_after(alphas, witnesses, t as nat);
    witnesses[t] is Some ==> {
        let b = witnesses[t]->0;
        let best = best_at(b, alphas, state.undecided, alphas.len());
        forall|j: int|
            0 <= j < alphas.len() && #[trigger] state.undecided[j] && j != best ==> dot(
                b,
                alphas[best],
            ) > dot(b, alphas[j])
    }
}

/// What the sweep over `alphas` keeps when its tests find `witnesses`: the
/// vectors that it accepts, in their order.
pub open spec fn kept_by(alphas: Seq<Seq<int>>, witnesses: Seq<Option<Seq<int>>>) -> Seq<Seq<int>> {
    selected(alphas, sweep_after(alphas, witnesses, alphas.len()).accepted, alphas.len())
}

/// The step at which candidate `k`, accepted after `t` steps, was accepted.
pub open spec fn acceptance_step(
    alphas: Seq<Seq<int>>,
    witnesses: Seq<Option<Seq<int>>>,
    t: nat,
    k: int,
) -> int
    decreases t,
{
    if t == 0 {
        -1
    } else if sweep_after(alphas, witnesses, (t - 1) as nat).accepted[k] {
        acceptance_step(alphas, witnesses, (t - 1) as nat, k)
    } else {
        t - 1
    }
}

/// `solver` misses no witness: whenever it is asked and what it answers is
/// no witness, there is none.
pub open spec fn misses_nothing<F: Fn(&Vec<i64>, &Vec<Vec<i64>>) -> Option<Vec<i64>>>(
    solver: &F,
) -> bool {
    forall|asked: Vec<i64>, against: Vec<Vec<i64>>, answer: Option<Vec<i64>>|
        #![trigger call_ensures(*solver, (&asked, &against), answer)]
        call_ensures(*solver, (&asked, &against), answer) && vetted(
            optional_ints(answer),
            ints(asked@),
            rows(against@),
        ) is None ==> no_witness(ints(asked@), rows(against@))
}

/// No belief is one at which `candidate` is worth strictly more than every
/// vector of `accepted`.
pub open spec fn no_witness(candidate: Seq<int>, accepted: Seq<Seq<int>>) -> bool {
    forall|b: Seq<int>| !#[trigger] is_witness(b, candidate, accepted)
}

/// `marks` is an outcome of pruning `alphas` with `solver` in which no tie
/// had to be broken: every step of the sweep went by the rules and was
/// decisive.
pub open spec fn pruning_decisively<F: Fn(&Vec<i64>, &Vec<Vec<i64>>) -> Option<Vec<i64>>>(
    solver: &F,
    alphas: Seq<Seq<int>>,
    marks: Seq<bool>,
) -> bool {
    exists|witnesses: Seq<Option<Seq<int>>>|
        {
            &&& witnesses.len() == alphas.len()
            &&& forall|t: int|
                0 <= t < witnesses.len() ==> #[trigger] step_tested(solver, alphas, witnesses, t)
            &&& forall|t: int|
                0 <= t < witnesses.len() ==> #[trigger] decisive(alphas, witnesses, t)
            &&& #[trigger] sweep_after(alphas, witnesses, alphas.len()).accepted == marks
        }
}

/// With a solver that misses no witness, every step of a sweep that went by
/// the rules is thorough.
pub proof fn lemma_tested_is_thorough<F: Fn(&Vec<i64>, &Vec<Vec<i64>>) -> Option<Vec<i64>>>(
    solver: &F,
    alphas: Seq<Seq<int>>,
    witnesses: Seq<Option<Seq<int>>>,
    t: int,
)
    requires
        misses_nothing(solver),
        step_tested(solver, alphas, witnesses, t),
    ensures
        thorough(alphas, witnesses, t),
{
    let state = sweep_after(alphas, witnesses, t as nat);
    let candidate = alphas[first_true(state.undecided, alphas.len())];
    let accepted = selected(alphas, state.accepted, alphas.len());
    assert(tested(solver, candidate, accepted, witnesses[t]));
    if witnesses[t] is None {
        if accepted.len() == 0 {
            assert(candidate.len() == 0);
            assert forall|b: Seq<int>| !#[trigger] is_witness(b, candidate, accepted) by {
                if is_belief(b, 0) {
                    assert(crate::fixed::mass_prefix(b, 0) == 0);
                }
            }
        } else {
            let (asked, against, answer) = choose|
                asked: Vec<i64>,
                against: Vec<Vec<i64>>,
                answer: Option<Vec<i64>>,
            |
                {
                    &&& ints(asked@) == candidate
                    &&& rows(against@) == accepted
                    &&& call_ensures(*solver, (&asked, &against), answer)
                    &&& witnesses[t] == vetted(optional_ints(answer), candidate, accepted)
                };
            assert(no_witness(candidate, accepted));
        }
    }
}

/// Dominance is right for what `find_dominating` does not mark, with a
/// solver that misses no witness.
///
/// Let `marks` be an outcome of pruning `alphas` with such a solver. Then
/// for a candidate `i` that is not marked there is no belief at which it is
/// worth strictly more than every marked vector.
pub proof fn lemma_unmarked_is_dominated<F: Fn(&Vec<i64>, &Vec<Vec<i64>>) -> Option<Vec<i64>>>(
    solver: &F,
    alphas: Seq<Seq<int>>,
    marks: Seq<bool>,
    i: int,
    b: Seq<int>,
)
    requires
        misses_nothing(solver),
        pruning(solver, alphas, marks),
        0 <= i < alphas.len(),
        !marks[i],
    ensures
        !is_witness(b, alphas[i], selected(alphas, marks, alphas.len())),
{
    let witnesses = choose|witnesses: Seq<Option<Seq<int>>>|
        {
            &&& witnesses.len() == alphas.len()
            &&& forall|t: int|
                0 <= t < witnesses.len() ==> #[trigger] step_tested(solver, alphas, witnesses, t)
            &&& sweep_after(alphas, witnesses, alphas.len()).accepted == marks
        };
    assert forall|t: int| 0 <= t < alphas.len() implies #[trigger] thorough(
        alphas,
        witnesses,
        t,
    ) by {
        assert(step_tested(solver, alphas, witnesses, t));
        lemma_tested_is_thorough(solver, alphas, witnesses, t);
    }
    lemma_rejected_is_dominated(alphas, witnesses, i, b);
}

/// Dominance is right for what `prune` does not keep, with a solver that
/// misses no witness.
///
/// Let `kept_alphas` be what a pruning of `alphas` with such a solver kept.
/// Then every vector of `alphas` is either kept or nowhere worth strictly
/// more than every kept vector.
pub proof fn lemma_pruned_dominates<F: Fn(&Vec<i64>, &Vec<Vec<i64>>) -> Option<Vec<i64>>>(
    solver: &F,
    plans: Seq<PlanTree>,
    alphas: Seq<Seq<int>>,
    kept_plans: Seq<PlanTree>,
    kept_alphas: Seq<Seq<int>>,
    i: int,
    b: Seq<int>,
)
    requires
        misses_nothing(solver),
        pruned(solver, plans, alphas, kept_plans, kept_alphas),
        0 <= i < alphas.len(),
    ensures
        kept_alphas.contains(alphas[i]) || !is_witness(b, alphas[i], kept_alphas),
{
    let marks = choose|marks: Seq<bool>|
        {
            &&& marks.len() == alphas.len()
            &&& #[trigger] pruning(solver, alphas, marks)
            &&& kept_plans == selected(plans, marks, alphas.len())
            &&& kept_alphas == selected(alphas, marks, alphas.len())
        };
    if marks[i] {
        let p = lemma_selected_position(alphas, marks, alphas.len(), i);
        assert(kept_alphas[p] == alphas[i]);
    } else {
        lemma_unmarked_is_dominated(solver, alphas, marks, i, b);
    }
}

/// Pruning twice is pruning once, with a solver that misses no witness and
/// where no tie had to be broken.
///
/// Let `marks` be an outcome of pruning `alphas` in which no tie had to be
/// broken, and `again` an outcome of pruning what `marks` keeps, both with
/// a solver that misses no witness. Then `again` marks every vector: the
/// second pruning keeps what the first one kept.
pub proof fn lemma_pruned_twice<F: Fn(&Vec<i64>, &Vec<Vec<i64>>) -> Option<Vec<i64>>>(
    solver: &F,
    alphas: Seq<Seq<int>>,
    marks: Seq<bool>,
    again: Seq<bool>,
)
    requires
        rectangular(alphas),
        misses_nothing(solver),
        pruning_decisively(solver, alphas, marks),
        pruning(solver, selected(alphas, marks, alphas.len()), again),
    ensures
        selected(
            selected(alphas, marks, alphas.len()),
            again,
            selected(alphas, marks, alphas.len()).len(),
        ) == selected(alphas, marks, alphas.len()),
{
    let first = choose|witnesses: Seq<Option<Seq<int>>>|
        {
            &&& witnesses.len() == alphas.len()
            &&& forall|t: int|
                0 <= t < witnesses.len() ==> #[trigger] step_tested(solver, alphas, witnesses, t)
            &&& forall|t: int|
                0 <= t < witnesses.len() ==> #[trigger] decisive(alphas, witnesses, t)
            &&& #[trigger] sweep_after(alphas, witnesses, alphas.len()).accepted == marks
        };
    let kept = selected(alphas, marks, alphas.len());
    assert(kept == kept_by(alphas, first));
    let second = choose|witnesses: Seq<Option<Seq<int>>>|
        {
            &&& witnesses.len() == kept.len()
            &&& forall|t: int|
                0 <= t < witnesses.len() ==> #[trigger] step_tested(solver, kept, witnesses, t)
            &&& sweep_after(kept, witnesses, kept.len()).accepted == again
        };
    assert forall|t: int| 0 <= t < second.len() implies #[trigger] thorough(kept, second, t) by {
        assert(step_tested(solver, kept, second, t));
        lemma_tested_is_thorough(solver, kept, second, t);
    }
    lemma_pruning_twice(solver, alphas, first, second);
}

/// Dominance is right for every rejected candidate, if the tests were.
///
/// Take a sweep over `alphas` in which every test that found no witness was
/// right. Then for a candidate `i` that the sweep has not accepted there is
/// no belief at which it is worth strictly more than every accepted vector:
/// no `b` is a witness for it against the vectors that are accepted at the
/// end.
pub proof fn lemma_rejected_is_dominated(
    alphas: Seq<Seq<int>>,
    witnesses: Seq<Option<Seq<int>>>,
    i: int,
    b: Seq<int>,
)
    requires
        witnesses.len() == alphas.len(),
        forall|t: int| 0 <= t < alphas.len() ==> #[trigger] thorough(alphas, witnesses, t),
        0 <= i < alphas.len(),
        !sweep_after(alphas, witnesses, alphas.len()).accepted[i],
    ensures
        !is_witness(
            b,
            alphas[i],
            selected(alphas, sweep_after(alphas, witnesses, alphas.len()).accepted, alphas.len()),
        ),
{
    let n = alphas.len();
    let end = sweep_after(alphas, witnesses, n);
    lemma_sweep_shape(alphas, witnesses, n);
    assert(!end.undecided[i]) by {
        if end.undecided[i] {
            lemma_count_positive(end.undecided, n, i);
        }
    }
    let u = lemma_rejection_step(alphas, witnesses, n, i);
    let then = sweep_after(alphas, witnesses, u as nat);
    let against = selected(alphas, then.accepted, n);
    let kept = selected(alphas, end.accepted, n);
    assert(thorough(alphas, witnesses, u));
    assert(!is_witness(b, alphas[i], against));
    if is_witness(b, alphas[i], kept) {
        lemma_sweep_shape(alphas, witnesses, u as nat);
        assert forall|p: int| 0 <= p < against.len() implies dot(b, alphas[i]) > dot(
            b,
            #[trigger] against[p],
        ) by {
            let j = lemma_selected_source(alphas, then.accepted, n, p);
            lemma_accepted_stays(alphas, witnesses, u as nat, n, j);
            let q = lemma_selected_position(alphas, end.accepted, n, j);
            assert(dot(b, alphas[i]) > dot(b, kept[q]));
        }
        assert(false);
    }
}

/// Pruning twice is pruning once, where no tie had to be broken.
///
/// Take a sweep over `alphas` that went by the rules with some solver and
/// whose steps were decisive, and let `kept` be what it accepted. Then a
/// second sweep, over `kept`, whose tests are thorough accepts every vector
/// of `kept`: it hands back `kept` itself.
pub proof fn lemma_pruning_twice<F: Fn(&Vec<i64>, &Vec<Vec<i64>>) -> Option<Vec<i64>>>(
    solver: &F,
    alphas: Seq<Seq<int>>,
    first: Seq<Option<Seq<int>>>,
    second: Seq<Option<Seq<int>>>,
)
    requires
        rectangular(alphas),
        first.len() == alphas.len(),
        forall|t: int| 0 <= t < alphas.len() ==> #[trigger] step_tested(solver, alphas, first, t),
        forall|t: int| 0 <= t < alphas.len() ==> #[trigger] decisive(alphas, first, t),
        second.len() == kept_by(alphas, first).len(),
        forall|t: int|
            0 <= t < second.len() ==> #[trigger] thorough(kept_by(alphas, first), second, t),
    ensures
        kept_by(kept_by(alphas, first), second) == kept_by(alphas, first),
{
    assert forall|t: int| 0 <= t < alphas.len() implies #[trigger] sound(alphas, first, t) by {
        assert(step_tested(solver, alphas, first, t));
        let state = sweep_after(alphas, first, t as nat);
        lemma_tested_is_sound(
            solver,
            alphas[first_true(state.undecided, alphas.len())],
            selected(alphas, state.accepted, alphas.len()),
            first[t],
        );
    }
    let n = alphas.len();
    let marks = sweep_after(alphas, first, n).accepted;
    let kept = kept_by(alphas, first);
    let m = kept.len();
    lemma_sweep_shape(alphas, first, n);
    assert forall|t: int| 0 <= t < m implies (#[trigger] second[t]) is Some by {
        let state = sweep_after(kept, second, t as nat);
        lemma_sweep_shape(kept, second, t as nat);
        lemma_first_true(state.undecided, m);
        let p = first_true(state.undecided, m);
        assert(state.undecided[p]);
        let against = selected(kept, state.accepted, m);
        let k = lemma_selected_index(alphas, marks, n, p);
        let b = if exists|other: int| 0 <= other < n && other != k && #[trigger] marks[other] {
            let other = choose|other: int| 0 <= other < n && other != k && #[trigger] marks[other];
            lemma_separating_belief(alphas, first, k, other)
        } else {
            lemma_lone_belief(alphas, first, k)
        };
        assert(is_belief(b, kept[p].len()));
        assert forall|r: int| 0 <= r < against.len() implies dot(b, kept[p]) > dot(
            b,
            #[trigger] against[r],
        ) by {
            let q = lemma_selected_source(kept, state.accepted, m, r);
            assert(q != p);
            let j = lemma_selected_index(alphas, marks, n, q);
            assert(j != k);
            let again = lemma_separating_belief(alphas, first, k, j);
            assert(again == b);
        }
        assert(is_witness(b, kept[p], against));
        assert(thorough(kept, second, t));
    }
    lemma_all_accepting(kept, second, m);
    lemma_sweep_shape(kept, second, m);
    let marks_again = sweep_after(kept, second, m).accepted;
    lemma_count_full(marks_again, m);
    lemma_selected_all(kept, marks_again, m);
    assert(kept.subrange(0, m as int) =~= kept);
}

/// A sweep keeps no vector twice.
///
/// Take a sweep over `alphas` that went by the rules with some solver. Of
/// two candidates that it accepts, the one accepted later is worth strictly
/// more than the other at the witness that had it accepted; so the two are
/// different vectors.
pub proof fn lemma_kept_differ<F: Fn(&Vec<i64>, &Vec<Vec<i64>>) -> Option<Vec<i64>>>(
    solver: &F,
    alphas: Seq<Seq<int>>,
    witnesses: Seq<Option<Seq<int>>>,
    j: int,
    k: int,
)
    requires
        witnesses.len() == alphas.len(),
        forall|t: int|
            0 <= t < alphas.len() ==> #[trigger] step_tested(solver, alphas, witnesses, t),
        0 <= j < alphas.len(),
        0 <= k < alphas.len(),
        j != k,
        sweep_after(alphas, witnesses, alphas.len()).accepted[j],
        sweep_after(alphas, witnesses, alphas.len()).accepted[k],
    ensures
        alphas[j] != alphas[k],
{
    let n = alphas.len();
    let u = lemma_acceptance_step(alphas, witnesses, n, k);
    let v = lemma_acceptance_step(alphas, witnesses, n, j);
    if v < u {
        lemma_later_beats_earlier(solver, alphas, witnesses, k, j);
    } else {
        assert(u != v);
        lemma_later_beats_earlier(solver, alphas, witnesses, j, k);
    }
}

/// After `t` steps the sweep has decided `t` candidates, and no accepted
/// candidate is undecided.
pub proof fn lemma_sweep_shape(alphas: Seq<Seq<int>>, witnesses: Seq<Option<Seq<int>>>, t: nat)
    requires
        t <= alphas.len(),
    ensures
        sweep_after(alphas, witnesses, t).undecided.len() == alphas.len(),
        sweep_after(alphas, witnesses, t).accepted.len() == alphas.len(),
        count_true(sweep_after(alphas, witnesses, t).undecided, alphas.len()) == alphas.len() - t,
        forall|j: int|
            0 <= j < alphas.len() && #[trigger] sweep_after(alphas, witnesses, t).accepted[j]
                ==> !sweep_after(alphas, witnesses, t).undecided[j],
    decreases t,
{
    let n = alphas.len();
    if t == 0 {
        lemma_count_all(n, n);
    } else {
        lemma_sweep_shape(alphas, witnesses, (t - 1) as nat);
        let before = sweep_after(alphas, witnesses, (t - 1) as nat);
        let after = sweep_after(alphas, witnesses, t);
        assert(after == settle(alphas, before, witnesses[t - 1]));
        lemma_first_true(before.undecided, n);
        match witnesses[t - 1] {
            None => {
                let lowest = first_true(before.undecided, n);
                lemma_count_clear(before.undecided, n, lowest);
            },
            Some(b) => {
                lemma_best_at(b, alphas, before.undecided, n);
                let best = best_at(b, alphas, before.undecided, n);
                lemma_count_clear(before.undecided, n, best);
            },
        }
    }
}

/// What the sweep has accepted stays accepted.
pub proof fn lemma_accepted_stays(
    alphas: Seq<Seq<int>>,
    witnesses: Seq<Option<Seq<int>>>,
    t: nat,
    u: nat,
    j: int,
)
    requires
        t <= u <= alphas.len(),
        0 <= j < alphas.len(),
        sweep_after(alphas, witnesses, t).accepted[j],
    ensures
        sweep_after(alphas, witnesses, u).accepted[j],
    decreases u,
{
    if t < u {
        lemma_accepted_stays(alphas, witnesses, t, (u - 1) as nat, j);
        lemma_sweep_shape(alphas, witnesses, (u - 1) as nat);
        let before = sweep_after(alphas, witnesses, (u - 1) as nat);
        let n = alphas.len();
        lemma_first_true(before.undecided, n);
        match witnesses[u - 1] {
            None => {},
            Some(b) => {
                lemma_best_at(b, alphas, before.undecided, n);
            },
        }
    }
}

/// A candidate that is decided but not accepted after `t` steps was rejected
/// at an earlier step, which tested it and found no witness: the result is
/// that step.
pub proof fn lemma_rejection_step(
    alphas: Seq<Seq<int>>,
    witnesses: Seq<Option<Seq<int>>>,
    t: nat,
    i: int,
) -> (u: int)
    requires
        t <= alphas.len(),
        0 <= i < alphas.len(),
        !sweep_after(alphas, witnesses, t).undecided[i],
        !sweep_after(alphas, witnesses, t).accepted[i],
    ensures
        0 <= u < t,
        witnesses[u] is None,
        first_true(sweep_after(alphas, witnesses, u as nat).undecided, alphas.len()) == i,
    decreases t,
{
    let n = alphas.len();
    if t == 0 {
        assert(false);
        0
    } else {
        let before = sweep_after(alphas, witnesses, (t - 1) as nat);
        let after = sweep_after(alphas, witnesses, t);
        assert(after == settle(alphas, before, witnesses[t - 1]));
        lemma_sweep_shape(alphas, witnesses, (t - 1) as nat);
        lemma_first_true(before.undecided, n);
        match witnesses[t - 1] {
            None => {
                let lowest = first_true(before.undecided, n);
                if lowest == i {
                    t - 1
                } else {
                    lemma_rejection_step(alphas, witnesses, (t - 1) as nat, i)
                }
            },
            Some(b) => {
                lemma_best_at(b, alphas, before.undecided, n);
                lemma_rejection_step(alphas, witnesses, (t - 1) as nat, i)
            },
        }
    }
}

/// Where a mark is set, the count is positive.
pub proof fn lemma_count_positive(marks: Seq<bool>, n: nat, i: int)
    requires
        0 <= i < n <= marks.len(),
        marks[i],
    ensures
        count_true(marks, n) > 0,
    decreases n,
{
    if i < n - 1 {
        lemma_count_positive(marks, (n - 1) as nat, i);
    }
}

/// A candidate that is decided stays decided.
pub proof fn lemma_decided_stays(
    alphas: Seq<Seq<int>>,
    witnesses: Seq<Option<Seq<int>>>,
    t: nat,
    u: nat,
    j: int,
)
    requires
        t <= u <= alphas.len(),
        0 <= j < alphas.len(),
        !sweep_after(alphas, witnesses, t).undecided[j],
    ensures
        !sweep_after(alphas, witnesses, u).undecided[j],
    decreases u,
{
    if t < u {
        lemma_decided_stays(alphas, witnesses, t, (u - 1) as nat, j);
        lemma_sweep_shape(alphas, witnesses, (u - 1) as nat);
        let before = sweep_after(alphas, witnesses, (u - 1) as nat);
        let n = alphas.len();
        lemma_first_true(before.undecided, n);
        match witnesses[u - 1] {
            None => {},
            Some(b) => {
                lemma_best_at(b, alphas, before.undecided, n);
            },
        }
    }
}

/// A candidate that is accepted after `t` steps was accepted at an earlier
/// step, whose test found a witness at which that candidate was worth most
/// among the undecided ones: the result is that step.
pub proof fn lemma_acceptance_step(
    alphas: Seq<Seq<int>>,
    witnesses: Seq<Option<Seq<int>>>,
    t: nat,
    k: int,
) -> (u: int)
    requires
        t <= alphas.len(),
        0 <= k < alphas.len(),
        sweep_after(alphas, witnesses, t).accepted[k],
    ensures
        u == acceptance_step(alphas, witnesses, t, k),
        0 <= u < t,
        witnesses[u] is Some,
        best_at(
            witnesses[u]->0,
            alphas,
            sweep_after(alphas, witnesses, u as nat).undecided,
            alphas.len(),
        ) == k,
        sweep_after(alphas, witnesses, u as nat).undecided[k],
        !sweep_after(alphas, witnesses, u as nat).accepted[k],
        sweep_after(alphas, witnesses, (u + 1) as nat).accepted[k],
    decreases t,
{
    let n = alphas.len();
    if t == 0 {
        assert(false);
        0
    } else {
        let before = sweep_after(alphas, witnesses, (t - 1) as nat);
        let after = sweep_after(alphas, witnesses, t);
        assert(after == settle(alphas, before, witnesses[t - 1]));
        lemma_sweep_shape(alphas, witnesses, (t - 1) as nat);
        lemma_first_true(before.undecided, n);
        if before.accepted[k] {
            lemma_acceptance_step(alphas, witnesses, (t - 1) as nat, k)
        } else {
            match witnesses[t - 1] {
                None => {
                    assert(false);
                    0
                },
                Some(b) => {
                    lemma_best_at(b, alphas, before.undecided, n);
                    t - 1
                },
            }
        }
    }
}

/// Of two candidates that a sound and decisive sweep accepts, each is worth
/// strictly more than the other at the witness that had it accepted: the
/// result is that witness for `k`.
pub proof fn lemma_separating_belief(
    alphas: Seq<Seq<int>>,
    witnesses: Seq<Option<Seq<int>>>,
    k: int,
    j: int,
) -> (b: Seq<int>)
    requires
        rectangular(alphas),
        witnesses.len() == alphas.len(),
        forall|t: int| 0 <= t < alphas.len() ==> #[trigger] sound(alphas, witnesses, t),
        forall|t: int| 0 <= t < alphas.len() ==> #[trigger] decisive(alphas, witnesses, t),
        0 <= k < alphas.len(),
        0 <= j < alphas.len(),
        k != j,
        sweep_after(alphas, witnesses, alphas.len()).accepted[k],
        sweep_after(alphas, witnesses, alphas.len()).accepted[j],
    ensures
        is_belief(b, alphas[k].len()),
        dot(b, alphas[k]) > dot(b, alphas[j]),
        b == witnesses[acceptance_step(alphas, witnesses, alphas.len(), k)]->0,
{
    let n = alphas.len();
    let u = lemma_acceptance_step(alphas, witnesses, n, k);
    let v = lemma_acceptance_step(alphas, witnesses, n, j);
    let b = witnesses[u]->0;
    let then = sweep_after(alphas, witnesses, u as nat);
    let lowest = first_true(then.undecided, n);
    lemma_sweep_shape(alphas, witnesses, u as nat);
    lemma_first_true(then.undecided, n);
    lemma_best_at(b, alphas, then.undecided, n);
    assert(sound(alphas, witnesses, u));
    assert(decisive(alphas, witnesses, u));
    assert(then.undecided[lowest]);
    assert(alphas[lowest].len() == alphas[0].len() && alphas[k].len() == alphas[0].len());
    if v < u {
        lemma_accepted_stays(alphas, witnesses, (v + 1) as nat, u as nat, j);
        let p = lemma_selected_position(alphas, then.accepted, n, j);
        assert(dot(b, alphas[lowest]) > dot(b, selected(alphas, then.accepted, n)[p]));
    } else {
        assert(v != u);
        if !then.undecided[j] {
            lemma_decided_stays(alphas, witnesses, u as nat, v as nat, j);
        }
        assert(then.undecided[j]);
    }
    b
}

/// Of two candidates that a sweep accepts, the one accepted later is worth
/// strictly more than the other at the witness that had it accepted.
pub proof fn lemma_later_beats_earlier<F: Fn(&Vec<i64>, &Vec<Vec<i64>>) -> Option<Vec<i64>>>(
    solver: &F,
    alphas: Seq<Seq<int>>,
    witnesses: Seq<Option<Seq<int>>>,
    later: int,
    earlier: int,
)
    requires
        witnesses.len() == alphas.len(),
        forall|t: int|
            0 <= t < alphas.len() ==> #[trigger] step_tested(solver, alphas, witnesses, t),
        0 <= later < alphas.len(),
        0 <= earlier < alphas.len(),
        sweep_after(alphas, witnesses, alphas.len()).accepted[later],
        sweep_after(alphas, witnesses, alphas.len()).accepted[earlier],
        acceptance_step(alphas, witnesses, alphas.len(), earlier) < acceptance_step(
            alphas,
            witnesses,
            alphas.len(),
            later,
        ),
    ensures
        ({
            let b = witnesses[acceptance_step(alphas, witnesses, alphas.len(), later)]->0;
            dot(b, alphas[later]) > dot(b, alphas[earlier])
        }),
{
    let n = alphas.len();
    let u = lemma_acceptance_step(alphas, witnesses, n, later);
    let v = lemma_acceptance_step(alphas, witnesses, n, earlier);
    let b = witnesses[u]->0;
    let then = sweep_after(alphas, witnesses, u as nat);
    let lowest = first_true(then.undecided, n);
    lemma_sweep_shape(alphas, witnesses, u as nat);
    lemma_first_true(then.undecided, n);
    lemma_best_at(b, alphas, then.undecided, n);
    assert(step_tested(solver, alphas, witnesses, u));
    lemma_tested_is_sound(
        solver,
        alphas[lowest],
        selected(alphas, then.accepted, n),
        witnesses[u],
    );
    assert(then.undecided[lowest]);
    lemma_accepted_stays(alphas, witnesses, (v + 1) as nat, u as nat, earlier);
    let p = lemma_selected_position(alphas, then.accepted, n, earlier);
    assert(dot(b, alphas[lowest]) > dot(b, selected(alphas, then.accepted, n)[p]));
}

/// Every item of `selected` is a marked item, and the marks before it are
/// as many as the items before it: the result is its position.
pub proof fn lemma_selected_index<T>(items: Seq<T>, marks: Seq<bool>, n: nat, p: int) -> (j: int)
    requires
        0 <= p < selected(items, marks, n).len(),
    ensures
        0 <= j < n,
        marks[j],
        selected(items, marks, n)[p] == items[j],
        selected(items, marks, j as nat).len() == p,
    decreases n,
{
    let before = selected(items, marks, (n - 1) as nat);
    if p < before.len() {
        lemma_selected_index(items, marks, (n - 1) as nat, p)
    } else {
        n - 1
    }
}

/// While every test finds a witness, the sweep accepts one candidate at
/// each step.
pub proof fn lemma_all_accepting(alphas: Seq<Seq<int>>, witnesses: Seq<Option<Seq<int>>>, t: nat)
    requires
        t <= alphas.len(),
        forall|u: int| 0 <= u < t ==> (#[trigger] witnesses[u]) is Some,
    ensures
        count_true(sweep_after(alphas, witnesses, t).accepted, alphas.len()) == t,
    decreases t,
{
    let n = alphas.len();
    if t == 0 {
        lemma_count_none(sweep_after(alphas, witnesses, 0).accepted, n);
    } else {
        lemma_all_accepting(alphas, witnesses, (t - 1) as nat);
        lemma_sweep_shape(alphas, witnesses, (t - 1) as nat);
        let before = sweep_after(alphas, witnesses, (t - 1) as nat);
        assert(sweep_after(alphas, witnesses, t) == settle(alphas, before, witnesses[t - 1]));
        assert(witnesses[t - 1] is Some);
        let b = witnesses[t - 1]->0;
        lemma_best_at(b, alphas, before.undecided, n);
        lemma_first_true(before.undecided, n);
        let best = best_at(b, alphas, before.undecided, n);
        lemma_count_set(before.accepted, n, best);
    }
}

/// Where as many marks are set as there are, all are set.
pub proof fn lemma_count_full(marks: Seq<bool>, n: nat)
    requires
        n <= marks.len(),
        count_true(marks, n) == n,
    ensures
        forall|i: int| 0 <= i < n ==> #[trigger] marks[i],
    decreases n,
{
    if n > 0 {
        lemma_count_at_most(marks, (n - 1) as nat);
        lemma_count_full(marks, (n - 1) as nat);
    }
}

/// No more marks are set than there are.
pub proof fn lemma_count_at_most(marks: Seq<bool>, n: nat)
    ensures
        count_true(marks, n) <= n,
    decreases n,
{
    if n > 0 {
        lemma_count_at_most(marks, (n - 1) as nat);
    }
}

/// Where all marks are set, everything is selected.
pub proof fn lemma_selected_all<T>(items: Seq<T>, marks: Seq<bool>, n: nat)
    requires
        n <= items.len(),
        n <= marks.len(),
        forall|i: int| 0 <= i < n ==> #[trigger] marks[i],
    ensures
        selected(items, marks, n) == items.subrange(0, n as int),
    decreases n,
{
    if n > 0 {
        lemma_selected_all(items, marks, (n - 1) as nat);
        assert(items.subrange(0, n as int) =~= items.subrange(0, n - 1).push(items[n - 1]));
    } else {
        assert(items.subrange(0, 0) =~= Seq::empty());
    }
}

/// Whatever a test gives is a witness.
pub proof fn lemma_tested_is_sound<F: Fn(&Vec<i64>, &Vec<Vec<i64>>) -> Option<Vec<i64>>>(
    solver: &F,
    candidate: Seq<int>,
    accepted: Seq<Seq<int>>,
    result: Option<Seq<int>>,
)
    requires
        tested(solver, candidate, accepted, result),
    ensures
        result is Some ==> is_witness(result->0, candidate, accepted),
{
    if accepted.len() == 0 && candidate.len() > 0 {
        lemma_uniform_is_belief(candidate.len());
    }
}

/// The witness that had an accepted candidate accepted is a belief.
pub proof fn lemma_lone_belief(alphas: Seq<Seq<int>>, witnesses: Seq<Option<Seq<int>>>, k: int) -> (b:
    Seq<int>)
    requires
        rectangular(alphas),
        witnesses.len() == alphas.len(),
        forall|t: int| 0 <= t < alphas.len() ==> #[trigger] sound(alphas, witnesses, t),
        0 <= k < alphas.len(),
        sweep_after(alphas, witnesses, alphas.len()).accepted[k],
    ensures
        is_belief(b, alphas[k].len()),
        b == witnesses[acceptance_step(alphas, witnesses, alphas.len(), k)]->0,
{
    let n = alphas.len();
    let u = lemma_acceptance_step(alphas, witnesses, n, k);
    let b = witnesses[u]->0;
    let then = sweep_after(alphas, witnesses, u as nat);
    let lowest = first_true(then.undecided, n);
    lemma_sweep_shape(alphas, witnesses, u as nat);
    lemma_first_true(then.undecided, n);
    assert(sound(alphas, witnesses, u));
    assert(alphas[lowest].len() == alphas[0].len() && alphas[k].len() == alphas[0].len());
    b
}

} // verus!

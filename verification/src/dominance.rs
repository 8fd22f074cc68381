//! The dominance test: is there a belief at which a candidate alpha vector is
//! worth strictly more than every accepted one?
//!
//! Finding such a belief is a linear program, which this library leaves to a
//! solver that the caller supplies. What the solver proposes is checked here
//! before it is used, so a belief that this module hands out is a witness
//! whatever the solver did.
use crate::fixed::{
    dot, dot_prefix, ints, is_belief, lemma_dot_prefix_bound, lemma_mass_prefix_monotone,
    lemma_weighted_term, mass_prefix, rows, within, SCALE,
};
use vstd::prelude::*;

verus! {

/// Every vector of `alphas` has `n` entries.
pub open spec fn all_of_length(alphas: Seq<Seq<int>>, n: nat) -> bool {
    forall|i: int| 0 <= i < alphas.len() ==> (#[trigger] alphas[i]).len() == n
}

/// The belief that gives every one of `n` states the same weight, `1 / n`
/// rounded down.
pub open spec fn uniform_belief(n: nat) -> Seq<int> {
    Seq::new(n, |i: int| SCALE as int / n as int)
}

/// `b` is a belief at which `candidate` is worth strictly more than every
/// vector of `accepted`.
pub open spec fn is_witness(b: Seq<int>, candidate: Seq<int>, accepted: Seq<Seq<int>>) -> bool {
    &&& is_belief(b, candidate.len())
    &&& forall|j: int|
        0 <= j < accepted.len() ==> dot(b, candidate) > dot(b, #[trigger] accepted[j])
}

/// What remains of a solver's answer once it has been checked: the belief it
/// proposed if that is a witness, and nothing otherwise.
pub open spec fn vetted(
    answer: Option<Seq<int>>,
    candidate: Seq<int>,
    accepted: Seq<Seq<int>>,
) -> Option<Seq<int>> {
    match answer {
        Some(b) => if is_witness(b, candidate, accepted) {
            Some(b)
        } else {
            None
        },
        None => None,
    }
}

/// The numbers of an optional vector as mathematical integers.
pub open spec fn optional_ints(v: Option<Vec<i64>>) -> Option<Seq<int>> {
    match v {
        Some(b) => Some(ints(b@)),
        None => None,
    }
}

/// `result` is what the dominance test of `candidate` against `accepted`
/// can give with `solver`. Against no accepted vector the result is the
/// uniform belief (or nothing, if there are no states). Otherwise it is the
/// vetted form of something the solver can answer when it is asked about
/// `candidate` and `accepted`.
pub open spec fn tested<F: Fn(&Vec<i64>, &Vec<Vec<i64>>) -> Option<Vec<i64>>>(
    solver: &F,
    candidate: Seq<int>,
    accepted: Seq<Seq<int>>,
    result: Option<Seq<int>>,
) -> bool {
    if accepted.len() == 0 {
        result == if candidate.len() > 0 {
            Some(uniform_belief(candidate.len()))
        } else {
            None
        }
    } else {
        exists|asked: Vec<i64>, against: Vec<Vec<i64>>, answer: Option<Vec<i64>>|
            {
                &&& ints(asked@) == candidate
                &&& rows(against@) == accepted
                &&& call_ensures(*solver, (&asked, &against), answer)
                &&& result == vetted(optional_ints(answer), candidate, accepted)
            }
    }
}

/// `solver` can be asked about every candidate and every set of accepted
/// vectors that is not empty and whose vectors are as long as the candidate.
pub open spec fn can_be_asked<F: Fn(&Vec<i64>, &Vec<Vec<i64>>) -> Option<Vec<i64>>>(
    solver: &F,
) -> bool {
    forall|asked: &Vec<i64>, against: &Vec<Vec<i64>>|
        against@.len() > 0 && all_of_length(rows(against@), asked@.len()) ==> call_requires(
            *solver,
            (asked, against),
        )
}

/// The uniform belief is a belief.
pub proof fn lemma_uniform_is_belief(n: nat)
    requires
        n > 0,
    ensures
        is_belief(uniform_belief(n), n),
{
    let b = uniform_belief(n);
    let w = SCALE as int / n as int;
    assert(0 <= w && w * n <= SCALE) by (nonlinear_arith)
        requires
            w == SCALE as int / n as int,
            n > 0,
            SCALE >= 0,
    ;
    assert forall|k: nat| k <= n implies #[trigger] mass_prefix(b, k) == k * w by {
        lemma_uniform_mass(n, k);
    }
    assert(mass_prefix(b, n) == n * w);
    assert(n * w == w * n) by (nonlinear_arith);
    vstd::arithmetic::div_mod::lemma_fundamental_div_mod(SCALE as int, n as int);
    vstd::arithmetic::div_mod::lemma_mod_bound(SCALE as int, n as int);
}

/// The first `k` weights of the uniform belief add up to `k` times one weight.
pub proof fn lemma_uniform_mass(n: nat, k: nat)
    requires
        n > 0,
        k <= n,
    ensures
        mass_prefix(uniform_belief(n), k) == k * (SCALE as int / n as int),
    decreases k,
{
    if k > 0 {
        lemma_uniform_mass(n, (k - 1) as nat);
        let w = SCALE as int / n as int;
        assert((k - 1) * w + w == k * w) by (nonlinear_arith);
    }
}

/// The uniform belief over `n` states.
pub fn uniform(n: usize) -> (b: Vec<i64>)
    requires
        n > 0,
    ensures
        b@.len() == n,
        ints(b@) == uniform_belief(n as nat),
{
    let weight: i64 = if n > 1_000_000 {
        0
    } else {
        SCALE / (n as i64)
    };
    assert(weight == SCALE as int / n as int) by (nonlinear_arith)
        requires
            n > 0,
            SCALE == 1_000_000,
            weight == if n > 1_000_000 {
                0
            } else {
                SCALE as int / n as int
            },
    ;
    let mut b: Vec<i64> = Vec::new();
    let mut i: usize = 0;
    while i < n
        invariant
            i <= n,
            b@.len() == i,
            forall|j: int| 0 <= j < i ==> #[trigger] b@[j] == weight,
        decreases n - i,
    {
        b.push(weight);
        i += 1;
    }
    assert(ints(b@) =~= uniform_belief(n as nat));
    b
}

/// Tells whether `b` is a belief over `n` states.
pub fn check_belief(b: &Vec<i64>, n: usize) -> (ok: bool)
    ensures
        ok == is_belief(ints(b@), n as nat),
{
    if b.len() != n {
        return false;
    }
    let ghost weights = ints(b@);
    let mut total: i64 = 0;
    let mut i: usize = 0;
    while i < n
        invariant
            i <= n,
            n == b@.len(),
            weights == ints(b@),
            forall|j: int| 0 <= j < i ==> #[trigger] weights[j] >= 0,
            total == mass_prefix(weights, i as nat),
            0 <= total <= SCALE,
        decreases n - i,
    {
        let w = b[i];
        assert(weights[i as int] == w);
        if w < 0 {
            return false;
        }
        if w > SCALE - total {
            proof {
                if is_belief(weights, n as nat) {
                    lemma_mass_prefix_monotone(weights, (i + 1) as nat, n as nat);
                }
            }
            return false;
        }
        total = total + w;
        i += 1;
    }
    (total as i128) > (SCALE as i128) - (n as i128)
}

/// The value of the vector `v` at the belief `b`.
pub fn value_at(b: &Vec<i64>, v: &Vec<i64>) -> (value: i128)
    requires
        is_belief(ints(b@), v@.len()),
    ensures
        value == dot(ints(b@), ints(v@)),
        within(value as int, SCALE * 0x8000_0000_0000_0000),
{
    let n = b.len();
    let ghost weights = ints(b@);
    let ghost values = ints(v@);
    let ghost limit: int = 0x8000_0000_0000_0000;
    let mut total: i128 = 0;
    let mut i: usize = 0;
    proof {
        assert forall|k: nat| k <= n implies within(
            #[trigger] dot_prefix(weights, values, k),
            SCALE * limit,
        ) by {
            lemma_dot_prefix_bound(weights, values, k, limit);
            lemma_mass_prefix_monotone(weights, k, n as nat);
            let m = mass_prefix(weights, k);
            assert(m * limit <= SCALE * limit) by (nonlinear_arith)
                requires
                    0 <= m <= SCALE,
                    limit >= 0,
            ;
        }
    }
    while i < n
        invariant
            i <= n,
            n == b@.len(),
            n == v@.len(),
            weights == ints(b@),
            values == ints(v@),
            limit == 0x8000_0000_0000_0000,
            is_belief(weights, n as nat),
            total == dot_prefix(weights, values, i as nat),
            forall|k: nat|
                k <= n ==> within(#[trigger] dot_prefix(weights, values, k), SCALE * limit),
        decreases n - i,
    {
        let w = b[i];
        let x = v[i];
        proof {
            assert(weights[i as int] == w);
            assert(values[i as int] == x);
            lemma_mass_prefix_monotone(weights, (i + 1) as nat, n as nat);
            lemma_mass_prefix_monotone(weights, i as nat, (i + 1) as nat);
            assert(0 <= w <= SCALE);
            lemma_weighted_term(w as int, x as int, limit);
            assert(w * limit <= SCALE * limit) by (nonlinear_arith)
                requires
                    0 <= w <= SCALE,
                    limit >= 0,
            ;
            assert(within(dot_prefix(weights, values, (i + 1) as nat), SCALE * limit));
        }
        total = total + (w as i128) * (x as i128);
        i += 1;
    }
    total
}

/// Tells whether `b` is a belief at which `candidate` is worth strictly more
/// than every vector of `accepted`.
pub fn check_witness(b: &Vec<i64>, candidate: &Vec<i64>, accepted: &Vec<Vec<i64>>) -> (ok: bool)
    requires
        all_of_length(rows(accepted@), candidate@.len()),
    ensures
        ok == is_witness(ints(b@), ints(candidate@), rows(accepted@)),
{
    if !check_belief(b, candidate.len()) {
        return false;
    }
    let mine = value_at(b, candidate);
    let mut j: usize = 0;
    while j < accepted.len()
        invariant
            j <= accepted@.len(),
            all_of_length(rows(accepted@), candidate@.len()),
            is_belief(ints(b@), candidate@.len()),
            mine == dot(ints(b@), ints(candidate@)),
            forall|i: int|
                0 <= i < j ==> dot(ints(b@), ints(candidate@)) > dot(
                    ints(b@),
                    #[trigger] rows(accepted@)[i],
                ),
        decreases accepted@.len() - j,
    {
        assert(rows(accepted@)[j as int] == ints(accepted@[j as int]@));
        assert(rows(accepted@)[j as int].len() == candidate@.len());
        let theirs = value_at(b, &accepted[j]);
        if mine <= theirs {
            return false;
        }
        j += 1;
    }
    true
}

/// Checks a solver's answer: hands back the belief that the solver proposed
/// if it is a witness for `candidate` against `accepted`, and nothing
/// otherwise.
pub fn vet_answer(answer: Option<Vec<i64>>, candidate: &Vec<i64>, accepted: &Vec<Vec<i64>>) -> (result:
    Option<Vec<i64>>)
    requires
        all_of_length(rows(accepted@), candidate@.len()),
    ensures
        optional_ints(result) == vetted(
            optional_ints(answer),
            ints(candidate@),
            rows(accepted@),
        ),
        result is Some ==> result == answer,
{
    match answer {
        Some(b) => {
            if check_witness(&b, candidate, accepted) {
                Some(b)
            } else {
                None
            }
        },
        None => None,
    }
}

/// The dominance test. Looks for a belief at which `alpha` is worth strictly
/// more than every vector of `big_gamma`.
///
/// Against an empty `big_gamma` every belief will do, and the uniform one is
/// returned (nothing, if there are no states). Otherwise `solver` is asked
/// for a belief, and its answer is returned if it is a witness; a solver
/// that fails, or whose answer is no witness, gives nothing.
pub fn find_maximal_belief<F: Fn(&Vec<i64>, &Vec<Vec<i64>>) -> Option<Vec<i64>>>(
    alpha: &Vec<i64>,
    big_gamma: &Vec<Vec<i64>>,
    solver: &F,
) -> (result: Option<Vec<i64>>)
    requires
        all_of_length(rows(big_gamma@), alpha@.len()),
        big_gamma@.len() > 0 ==> call_requires(*solver, (alpha, big_gamma)),
    ensures
        tested(solver, ints(alpha@), rows(big_gamma@), optional_ints(result)),
        result is Some ==> is_witness(ints(result->0@), ints(alpha@), rows(big_gamma@)),
{
    if big_gamma.len() == 0 {
        if alpha.len() == 0 {
            None
        } else {
            let b = uniform(alpha.len());
            proof {
                lemma_uniform_is_belief(alpha@.len());
            }
            Some(b)
        }
    } else {
        let answer = solver(alpha, big_gamma);
        let result = vet_answer(answer, alpha, big_gamma);
        proof {
            assert(tested(solver, ints(alpha@), rows(big_gamma@), optional_ints(result))) by {
                let asked = *alpha;
                let against = *big_gamma;
                assert(ints(asked@) == ints(alpha@) && rows(against@) == rows(big_gamma@)
                    && call_ensures(*solver, (&asked, &against), answer) && optional_ints(result)
                    == vetted(optional_ints(answer), ints(alpha@), rows(big_gamma@)));
            }
        }
        result
    }
}

} // verus!

//! Formulas in conjunctive normal form as read from DIMACS files, and their meaning.
use vstd::prelude::*;
use crate::semantics::Assignment;
use crate::sorting::{sorted_indices, index_before};

verus! {

/// Logic formula in conjunctive normal form, parsed from a DIMACS file:
/// A formula in conjunctive normal form is a conjunction (logical and) of a set of clauses.
/// Each clause is a disjunction (logical or) of a set of literals.
/// A literal is a variable or a negation of a variable.
#[derive(Debug, Clone)]
pub struct Instance {
    /// Number of clauses as specified in the DIMACS header line
    pub no_clauses: u32,
    /// Number of variables as specified in the DIMACS header line
    pub no_variables: u32,
    pub clauses: Vec<Vec<i32>>,
}

impl Instance {
    pub fn new(no_clauses: u32, no_variables: u32, clauses: Vec<Vec<i32>>) -> (r: Self)
        ensures
            r.no_clauses == no_clauses,
            r.no_variables == no_variables,
            r.clauses@ == clauses@,
    {
        Instance { no_clauses, no_variables, clauses }
    }
}

/// The value of a literal: variable `x` for a positive `x`, its negation for a negative one.
pub open spec fn lit_value(x: i32, a: Assignment) -> bool {
    if x < 0 {
        !a((-x) as usize)
    } else {
        a(x as usize)
    }
}

/// The value of a clause: some literal holds.
pub open spec fn clause_value(c: Seq<i32>, a: Assignment) -> bool {
    exists|t: int| 0 <= t < c.len() && #[trigger] lit_value(c[t], a)
}

/// The value of a formula: every clause holds.
pub open spec fn cnf_value(clauses: Seq<Vec<i32>>, a: Assignment) -> bool {
    forall|i: int| 0 <= i < clauses.len() ==> #[trigger] clause_value(clauses[i]@, a)
}

/// Every clause has a literal, and every literal names a variable whose number fits an `i32`
/// once negated.
pub open spec fn well_formed_clauses(clauses: Seq<Vec<i32>>) -> bool {
    forall|i: int| #![trigger clauses[i]] 0 <= i < clauses.len() ==> {
        &&& clauses[i]@.len() > 0
        &&& forall|t: int| 0 <= t < clauses[i]@.len() ==> #[trigger] clauses[i]@[t] != 0
            && clauses[i]@[t] != i32::MIN
    }
}

/// Whether every clause has a literal and holds neither the literal 0 nor `i32::MIN`: what
/// building a diagram from the clauses asks of them.
pub fn clauses_well_formed(clauses: &Vec<Vec<i32>>) -> (r: bool)
    ensures
        r == well_formed_clauses(clauses@),
{
    let mut i: usize = 0;
    while i < clauses.len()
        invariant
            i <= clauses@.len(),
            well_formed_clauses(clauses@.take(i as int)),
        decreases clauses@.len() - i,
    {
        let clause = &clauses[i];
        if clause.len() == 0 {
            proof {
                assert(clauses@[i as int]@.len() == 0);
            }
            return false;
        }
        let mut t: usize = 0;
        while t < clause.len()
            invariant
                i < clauses@.len(),
                clause == &clauses@[i as int],
                t <= clause@.len(),
                forall|u: int| 0 <= u < t ==> #[trigger] clause@[u] != 0 && clause@[u] != i32::MIN,
            decreases clause@.len() - t,
        {
            if clause[t] == 0 || clause[t] == i32::MIN {
                proof {
                    assert(clauses@[i as int]@[t as int] == clause@[t as int]);
                }
                return false;
            }
            t = t + 1;
        }
        proof {
            let next = clauses@.take(i as int + 1);
            assert forall|j: int| #![trigger next[j]] 0 <= j < next.len() implies {
                &&& next[j]@.len() > 0
                &&& forall|u: int| 0 <= u < next[j]@.len() ==> #[trigger] next[j]@[u] != 0
                    && next[j]@[u] != i32::MIN
            } by {
                if j < i {
                    assert(next[j] == clauses@.take(i as int)[j]);
                }
            }
        }
        i = i + 1;
    }
    proof {
        assert(clauses@.take(clauses@.len() as int) =~= clauses@);
    }
    true
}

/// The span of the variables of a clause.
pub open spec fn seq_max_abs(c: Seq<i32>) -> int
    decreases c.len(),
{
    if c.len() == 0 {
        0
    } else {
        let rest = seq_max_abs(c.drop_last());
        let x = abs_int(c.last());
        if c.len() == 1 || x > rest { x } else { rest }
    }
}

pub open spec fn seq_min_abs(c: Seq<i32>) -> int
    decreases c.len(),
{
    if c.len() == 0 {
        0
    } else {
        let rest = seq_min_abs(c.drop_last());
        let x = abs_int(c.last());
        if c.len() == 1 || x < rest { x } else { rest }
    }
}

pub open spec fn abs_int(x: i32) -> int {
    if x < 0 { -x } else { x as int }
}

/// The weight by which clauses are ordered: number of literals times the span of variables.
pub open spec fn clause_weight(c: Seq<i32>) -> int {
    c.len() * (seq_max_abs(c) - seq_min_abs(c))
}

/// Clause `i` comes before clause `j`: lighter, or as heavy and earlier.
pub open spec fn clause_before(clauses: Seq<Vec<i32>>, i: int, j: int) -> bool {
    clause_weight(clauses[i]@) < clause_weight(clauses[j]@) || (clause_weight(clauses[i]@)
        == clause_weight(clauses[j]@) && i < j)
}

/// The weight of a clause.
fn clause_weight_of(c: &Vec<i32>) -> (r: u128)
    requires
        c@.len() > 0,
        forall|t: int| 0 <= t < c@.len() ==> #[trigger] c@[t] != i32::MIN,
    ensures
        r == clause_weight(c@),
{
    let mut mn: i32 = if c[0] < 0 { -c[0] } else { c[0] };
    let mut mx: i32 = mn;
    let mut t: usize = 1;
    proof {
        assert(c@.subrange(0, 1).drop_last() =~= Seq::<i32>::empty());
        reveal_with_fuel(seq_max_abs, 2);
        reveal_with_fuel(seq_min_abs, 2);
    }
    while t < c.len()
        invariant
            1 <= t <= c@.len(),
            forall|k: int| 0 <= k < c@.len() ==> #[trigger] c@[k] != i32::MIN,
            mn == seq_min_abs(c@.subrange(0, t as int)),
            mx == seq_max_abs(c@.subrange(0, t as int)),
            0 <= mn <= mx,
        decreases c@.len() - t,
    {
        let x: i32 = if c[t] < 0 { -c[t] } else { c[t] };
        proof {
            assert(c@.subrange(0, t as int + 1).drop_last() =~= c@.subrange(0, t as int));
        }
        if x < mn {
            mn = x;
        }
        if x > mx {
            mx = x;
        }
        t = t + 1;
    }
    proof {
        assert(c@.subrange(0, c@.len() as int) =~= c@);
    }
    let span: u128 = (mx - mn) as u128;
    assert((c.len() as u128) * span <= u128::MAX) by (nonlinear_arith)
        requires
            c.len() <= usize::MAX,
            span <= 0xffff_ffff,
            usize::MAX <= 0xffff_ffff_ffff_ffff,
    ;
    (c.len() as u128) * span
}

/// Determine order in which clauses should be added to BDD: by increasing weight (number of
/// literals times the span of their variables), clauses of equal weight in their order.
pub fn align_clauses(clauses: &[Vec<i32>]) -> (r: Vec<usize>)
    requires
        well_formed_clauses(clauses@),
    ensures
        r@.len() == clauses@.len(),
        r@.no_duplicates(),
        forall|k: int| 0 <= k < r@.len() ==> #[trigger] r@[k] < clauses@.len(),
        forall|i: int| 0 <= i < clauses@.len() ==> #[trigger] r@.contains(i as usize),
        forall|k: int, l: int| 0 <= k < l < r@.len() ==> clause_before(clauses@, #[trigger] r@[k] as int, #[trigger] r@[l] as int),
{
    let mut weights: Vec<u128> = Vec::new();
    let mut i: usize = 0;
    while i < clauses.len()
        invariant
            i <= clauses@.len(),
            well_formed_clauses(clauses@),
            weights@.len() == i,
            forall|k: int| 0 <= k < i ==> #[trigger] weights@[k] == clause_weight(clauses@[k]@),
        decreases clauses@.len() - i,
    {
        proof {
            assert(clauses@[i as int] == clauses@[i as int]);
        }
        weights.push(clause_weight_of(&clauses[i]));
        i = i + 1;
    }
    let r = sorted_indices(&weights);
    proof {
        assert forall|k: int, l: int| 0 <= k < l < r@.len() implies clause_before(clauses@, #[trigger] r@[k] as int, #[trigger] r@[l] as int) by {
            assert(index_before(weights@, r@[k] as int, r@[l] as int));
        }
    }
    r
}

} // verus!

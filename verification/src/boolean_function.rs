//! Boolean functions as trees of conjunctions and disjunctions over literals.
use vstd::prelude::*;
use crate::semantics::Assignment;
use crate::dimacs::{lit_value, clause_value};

verus! {

/// A `Symbol` represents either a `BooleanFunction`,
/// a terminal symbol containing the index of a variable `Posterminal(u32)`
/// or a terminal symbol containing the index of a negated variable `Negterminal(u32)`
#[derive(Debug, PartialEq, Eq)]
pub enum Symbol {
    Posterminal(u32),
    Negterminal(u32),
    Function(BooleanFunction),
}

/// Represents all the operations currently supported by the `BooleanFunction` struct.
#[derive(Debug, Copy, Clone, PartialEq, Eq)]
pub enum Operator {
    And,
    Or,
}

/// Represents a Boolean function.
#[derive(Debug, PartialEq, Eq)]
pub struct BooleanFunction {
    pub op: Operator,
    pub lhs: Box<Symbol>,
    pub rhs: Box<Symbol>,
}

/// The symbol of a literal: a variable, or its negation for a negative number.
pub open spec fn symbol_of(i: i32) -> Symbol {
    if i >= 0 {
        Symbol::Posterminal(i as u32)
    } else {
        Symbol::Negterminal((-i) as u32)
    }
}

impl From<i32> for Symbol {
    fn from(i: i32) -> (r: Self) {
        if i >= 0 {
            Symbol::Posterminal(i as u32)
        } else {
            Symbol::Negterminal((-(i as i64)) as u32)
        }
    }
}

impl vstd::std_specs::convert::FromSpecImpl<i32> for Symbol {
    open spec fn obeys_from_spec() -> bool {
        true
    }

    open spec fn from_spec(i: i32) -> Symbol {
        symbol_of(i)
    }
}

/// The value of a symbol under an assignment.
pub open spec fn symbol_value(s: Symbol, a: Assignment) -> bool
    decreases s,
{
    match s {
        Symbol::Posterminal(v) => a(v as usize),
        Symbol::Negterminal(v) => !a(v as usize),
        Symbol::Function(f) => match f.op {
            Operator::And => symbol_value(*f.lhs, a) && symbol_value(*f.rhs, a),
            Operator::Or => symbol_value(*f.lhs, a) || symbol_value(*f.rhs, a),
        },
    }
}

/// The disjunction of the literals of a clause from position `k` on, nested to the right.
pub open spec fn term_symbol(c: Seq<i32>, k: int) -> Symbol
    decreases c.len() - k,
{
    if k >= c.len() - 1 {
        symbol_of(c[k])
    } else {
        Symbol::Function(
            BooleanFunction { op: Operator::Or, lhs: Box::new(symbol_of(c[k])), rhs: Box::new(term_symbol(c, k + 1)) },
        )
    }
}

/// The conjunction of the clauses from position `k` on, nested to the right.
pub open spec fn formula_symbol(cs: Seq<Vec<i32>>, k: int) -> Symbol
    decreases cs.len() - k,
{
    if k >= cs.len() - 1 {
        term_symbol(cs[k]@, 0)
    } else {
        Symbol::Function(
            BooleanFunction {
                op: Operator::And,
                lhs: Box::new(term_symbol(cs[k]@, 0)),
                rhs: Box::new(formula_symbol(cs, k + 1)),
            },
        )
    }
}

/// A literal's symbol has the literal's value.
pub proof fn lemma_symbol_of_value(i: i32, a: Assignment)
    requires
        i != i32::MIN,
    ensures
        symbol_value(symbol_of(i), a) == lit_value(i, a),
{
}

/// The disjunction symbol holds exactly where one of its literals does.
pub proof fn lemma_term_value(c: Seq<i32>, k: int, a: Assignment)
    requires
        0 <= k < c.len(),
        forall|t: int| 0 <= t < c.len() ==> #[trigger] c[t] != i32::MIN,
    ensures
        symbol_value(term_symbol(c, k), a) == exists|t: int| k <= t < c.len() && #[trigger] lit_value(c[t], a),
    decreases c.len() - k,
{
    assert(c[k] != i32::MIN);
    lemma_symbol_of_value(c[k], a);
    if k < c.len() - 1 {
        lemma_term_value(c, k + 1, a);
    }
    if lit_value(c[k], a) {
        assert(exists|t: int| k <= t < c.len() && #[trigger] lit_value(c[t], a));
    }
    if exists|t: int| k <= t < c.len() && #[trigger] lit_value(c[t], a) {
        let t = choose|t: int| k <= t < c.len() && #[trigger] lit_value(c[t], a);
        if t > k {
            assert(lit_value(c[t], a));
        }
    }
}

impl BooleanFunction {
    /// Creates a `BooleanFunction` struct containing an operation `op`,
    /// the left hand side of the function `lhs`,
    /// and the right hand side of the function `rhs`.
    pub fn new(op: Operator, lhs: Symbol, rhs: Symbol) -> (r: BooleanFunction)
        ensures
            r == (BooleanFunction { op, lhs: Box::new(lhs), rhs: Box::new(rhs) }),
    {
        BooleanFunction { op, lhs: Box::new(lhs), rhs: Box::new(rhs) }
    }

    /// Creates a `Symbol` out of a `Vec<Vec<i32>>` where every 'inside' `Vec<i32>` represents a
    /// single clause and every literal in this clause is a disjunction (OR) of literals.
    /// The returning `Symbol` is a conjunction of those clauses.
    pub fn new_from_cnf_formula(inp: Vec<Vec<i32>>) -> (r: Symbol)
        requires
            inp@.len() > 0,
            forall|i: int| 0 <= i < inp@.len() ==> (#[trigger] inp@[i])@.len() > 0,
        ensures
            r == formula_symbol(inp@, 0),
    {
        Self::new_cnf_formula_rec(&inp, 0)
    }

    fn new_cnf_formula_rec(inp: &Vec<Vec<i32>>, k: usize) -> (r: Symbol)
        requires
            k < inp@.len(),
            forall|i: int| 0 <= i < inp@.len() ==> (#[trigger] inp@[i])@.len() > 0,
        ensures
            r == formula_symbol(inp@, k as int),
        decreases inp@.len() - k,
    {
        proof {
            assert(inp@[k as int]@.len() > 0);
        }
        if k == inp.len() - 1 {
            return Self::new_cnf_term_rec(&inp[k], 0);
        }
        let fst = Self::new_cnf_term_rec(&inp[k], 0);
        let rest = Self::new_cnf_formula_rec(inp, k + 1);
        Symbol::Function(Self::new(Operator::And, fst, rest))
    }

    fn new_cnf_term_rec(inp: &Vec<i32>, k: usize) -> (r: Symbol)
        requires
            k < inp@.len(),
        ensures
            r == term_symbol(inp@, k as int),
        decreases inp@.len() - k,
    {
        if k == inp.len() - 1 {
            return Symbol::from(inp[k]);
        }
        let fst = Symbol::from(inp[k]);
        let rest = Self::new_cnf_term_rec(inp, k + 1);
        Symbol::Function(Self::new(Operator::Or, fst, rest))
    }
}

/// The symbol of a formula holds exactly where every clause holds.
pub proof fn lemma_formula_value(cs: Seq<Vec<i32>>, k: int, a: Assignment)
    requires
        0 <= k < cs.len(),
        forall|i: int| #![trigger cs[i]] 0 <= i < cs.len() ==> cs[i]@.len() > 0
            && forall|t: int| 0 <= t < cs[i]@.len() ==> #[trigger] cs[i]@[t] != i32::MIN,
    ensures
        symbol_value(formula_symbol(cs, k), a) == forall|i: int| k <= i < cs.len() ==> #[trigger] clause_value(cs[i]@, a),
    decreases cs.len() - k,
{
    assert(cs[k]@.len() > 0);
    lemma_term_value(cs[k]@, 0, a);
    if k < cs.len() - 1 {
        lemma_formula_value(cs, k + 1, a);
        if forall|i: int| k + 1 <= i < cs.len() ==> #[trigger] clause_value(cs[i]@, a) {
            if clause_value(cs[k]@, a) {
                assert forall|i: int| k <= i < cs.len() implies #[trigger] clause_value(cs[i]@, a) by {
                    if i > k {
                        assert(clause_value(cs[i]@, a));
                    }
                }
            }
        }
    }
}

} // verus!

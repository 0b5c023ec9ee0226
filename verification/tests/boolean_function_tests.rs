use obddimal::boolean_function::{BooleanFunction, Operator, Symbol};

#[test]
fn generate_easy_formula() {
    let input = vec![vec![1]];
    let output = BooleanFunction::new_from_cnf_formula(input);

    assert_eq!(output, Symbol::Posterminal(1))
}

#[test]
fn generate_complex_formula() {
    let input = vec![vec![1, 2, 3], vec![2, 3, 4]];
    let output = BooleanFunction::new_from_cnf_formula(input);

    assert_eq!(
        output,
        Symbol::Function(BooleanFunction {
            op: Operator::And,
            lhs: Box::new(Symbol::Function(BooleanFunction {
                op: Operator::Or,
                lhs: Box::new(Symbol::Posterminal(1)),
                rhs: Box::new(Symbol::Function(BooleanFunction {
                    op: Operator::Or,
                    lhs: Box::new(Symbol::Posterminal(2)),
                    rhs: Box::new(Symbol::Posterminal(3))
                }))
            })),
            rhs: Box::new(Symbol::Function(BooleanFunction {
                op: Operator::Or,
                lhs: Box::new(Symbol::Posterminal(2)),
                rhs: Box::new(Symbol::Function(BooleanFunction {
                    op: Operator::Or,
                    lhs: Box::new(Symbol::Posterminal(3)),
                    rhs: Box::new(Symbol::Posterminal(4))
                }))
            }))
        })
    )
}

#[test]
fn negative_literals_become_negated_terminals() {
    assert_eq!(Symbol::from(-7), Symbol::Negterminal(7));
    assert_eq!(Symbol::from(0), Symbol::Posterminal(0));
    assert_eq!(Symbol::from(i32::MIN), Symbol::Negterminal(2147483648));
    let output = BooleanFunction::new_from_cnf_formula(vec![vec![-1, 2]]);
    assert_eq!(
        output,
        Symbol::Function(BooleanFunction::new(Operator::Or, Symbol::Negterminal(1), Symbol::Posterminal(2)))
    );
}

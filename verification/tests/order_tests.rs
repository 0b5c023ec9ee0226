use obddimal::bdd_node::VarID;
use obddimal::dimacs::Instance;
use obddimal::order::{check_order, order_to_layernames};
use obddimal::static_ordering::{keep, rand};

#[test]
fn mod_order_to_layernames() {
    let res = order_to_layernames(&[4, 1, 3, 2]);
    assert_eq!(res, vec![VarID(1), VarID(3), VarID(2), VarID(0)])
}

#[test]
fn order_order_to_layernames() {
    let res = order_to_layernames(&[4, 1, 3, 2]);
    assert_eq!(res, vec![VarID(1), VarID(3), VarID(2), VarID(0)])
}

#[test]
fn layernames_of_a_gap_hold_variable_zero() {
    // depth 2 is taken by nobody, depth 4 by the terminals
    let res = order_to_layernames(&[4, 1, 3]);
    assert_eq!(res, vec![VarID(1), VarID(0), VarID(2), VarID(0)]);
}

fn instance(n: u32) -> Instance {
    Instance::new(0, n, vec![])
}

#[test]
fn check_order_accepts_a_permutation() {
    assert!(check_order(&instance(3), &[4, 2, 3, 1]).is_ok());
    assert!(check_order(&instance(0), &[1]).is_ok());
}

#[test]
fn check_order_rejects_each_defect() {
    // wrong size
    assert!(check_order(&instance(3), &[4, 1, 2]).is_err());
    // terminals not at n + 1
    assert!(check_order(&instance(3), &[3, 1, 2, 4]).is_err());
    // a depth below the terminals
    assert!(check_order(&instance(3), &[4, 1, 2, 5]).is_err());
    // depth zero
    assert!(check_order(&instance(3), &[4, 0, 2, 3]).is_err());
    // two variables at one depth, so another depth stays empty
    assert!(check_order(&instance(3), &[4, 1, 1, 3]).is_err());
}

#[test]
fn check_order_error_texts() {
    let e = check_order(&instance(3), &[4, 1, 2]).unwrap_err();
    assert_eq!(e, "Invalid size of ordering: Size was 3, expected 4 (nr of variables + 1)");
    let e = check_order(&instance(3), &[4, 1, 1, 3]).unwrap_err();
    assert_eq!(e, "No variable at depth 2");
}

#[test]
fn keep_numbers_variables_in_order() {
    let inst = instance(4);
    let o = keep(&inst);
    assert_eq!(o, vec![5, 1, 2, 3, 4]);
    assert!(check_order(&inst, &o).is_ok());
}

#[test]
fn rand_gives_a_valid_order() {
    let inst = instance(6);
    for _ in 0..10 {
        let o = rand(&inst);
        assert_eq!(o.len(), 7);
        assert_eq!(o[0], 7);
        let mut rest: Vec<u32> = o[1..].to_vec();
        rest.sort();
        assert_eq!(rest, vec![1, 2, 3, 4, 5, 6]);
        assert!(check_order(&inst, &o).is_ok());
    }
}

#[test]
fn check_order_names_each_defect() {
    let err = |n: u32, order: &[u32]| check_order(&instance(n), order).unwrap_err();
    assert_eq!(err(3, &[4, 1, 2]), "Invalid size of ordering: Size was 3, expected 4 (nr of variables + 1)");
    assert_eq!(
        err(3, &[3, 1, 2, 4]),
        "Depth of terminal nodes (index 0) is specified as 3, but should be 4 (nr of variables + 1)"
    );
    assert_eq!(
        err(3, &[4, 1, 2, 5]),
        "A variable is specified to have depth of 5 which is below depth of terminal nodes (4, index 0)"
    );
    assert_eq!(err(3, &[4, 0, 2, 3]), "Variable 1 specified at depth 0 which is < 1");
    assert_eq!(err(3, &[4, 4, 2, 3]), "Variable 1 specified at depth 4 which is greater than the number of variables");
    assert_eq!(err(3, &[4, 1, 1, 3]), "No variable at depth 2");
    assert_eq!(err(12, &[13, 1, 2, 3, 4, 5, 6, 7, 8, 9, 10, 11, 11]), "No variable at depth 12");
}

use obddimal::apply::ApplyOperation;
use obddimal::bdd_manager::DDManager;
use obddimal::bdd_node::{NodeID, VarID};
use obddimal::dimacs::Instance;
use obddimal::range_sifting::{find_best_position_in_range, sift_single_var_in_range};
use obddimal::dvo::{SwapContext, Sifting, WindowPermutation, Options, DVOScheduleEnum, NoDVOSchedule, AlwaysUntilConvergence, AlwaysOnce, AtThreshold, SiftingAtThreshold, TimeSizeLimit};

/// A manually constructed BDD plus truth table: the assignments (as lists of true
/// variables) on which the function is true.
struct TestCase {
    ones: Vec<Vec<usize>>,
    man: DDManager,
    f: NodeID,
    nr_variables: usize,
}

fn build(ones: Vec<Vec<usize>>, nr_variables: usize) -> TestCase {
    let mut man = DDManager::new();
    let mut f = man.zero();
    for clause in ones.iter() {
        let mut c = man.one();
        for var in 1..nr_variables + 1 {
            let v = if clause.contains(&var) {
                man.ith_var(VarID(var))
            } else {
                man.nith_var(VarID(var))
            };
            c = man.and(c, v);
        }
        f = man.or(f, c);
    }
    TestCase { ones, man, f, nr_variables }
}

/// (a + b + ~c) (a + ~b + c) (~a + ~b + c)
fn test_trivial() -> TestCase {
    build(vec![vec![], vec![2, 3], vec![1], vec![1, 3], vec![1, 2, 3]], 3)
}

fn from_truthtable(table: Vec<[u8; 8]>) -> TestCase {
    let mut ones: Vec<Vec<usize>> = Vec::new();
    for line in table {
        let mut clause = Vec::new();
        for (var, value) in line.iter().enumerate() {
            if *value != 0 {
                clause.push(var + 1)
            }
        }
        if !ones.contains(&clause) {
            ones.push(clause);
        }
    }
    build(ones, 8)
}

fn random_1() -> TestCase {
    from_truthtable(vec![
        [1, 0, 1, 0, 0, 1, 1, 1],
        [1, 0, 1, 1, 1, 1, 1, 0],
        [0, 1, 1, 1, 0, 0, 1, 1],
        [1, 0, 0, 0, 1, 1, 1, 1],
        [1, 0, 1, 0, 0, 1, 0, 1],
        [1, 1, 1, 0, 1, 0, 0, 1],
        [1, 1, 1, 1, 1, 0, 1, 1],
        [0, 1, 0, 0, 0, 1, 1, 0],
        [0, 1, 0, 0, 1, 1, 1, 0],
        [1, 1, 1, 0, 0, 0, 0, 1],
        [1, 1, 0, 0, 1, 0, 0, 1],
        [1, 1, 1, 0, 0, 0, 1, 1],
        [0, 1, 1, 1, 1, 0, 0, 0],
        [1, 0, 1, 1, 0, 1, 1, 1],
        [1, 1, 0, 1, 1, 0, 1, 0],
        [1, 1, 0, 0, 1, 1, 1, 0],
        [0, 0, 1, 1, 0, 0, 0, 0],
        [0, 0, 1, 1, 1, 0, 0, 0],
        [0, 1, 0, 1, 0, 1, 0, 0],
        [0, 1, 0, 0, 1, 1, 0, 1],
        [1, 1, 0, 0, 0, 0, 1, 0],
        [0, 1, 1, 0, 0, 0, 1, 0],
        [1, 1, 1, 0, 0, 0, 0, 0],
        [0, 1, 0, 0, 0, 0, 1, 1],
        [0, 0, 1, 0, 0, 1, 0, 0],
        [1, 1, 0, 0, 0, 0, 0, 0],
        [0, 0, 0, 0, 0, 0, 0, 1],
        [0, 0, 0, 0, 1, 0, 1, 0],
        [0, 0, 1, 1, 1, 0, 1, 1],
        [0, 1, 0, 0, 1, 0, 1, 0],
        [0, 0, 0, 0, 0, 1, 0, 1],
        [0, 1, 1, 1, 1, 1, 0, 1],
        [0, 0, 1, 0, 0, 1, 0, 1],
        [1, 1, 1, 1, 0, 1, 0, 0],
        [1, 0, 1, 1, 1, 0, 1, 0],
        [1, 1, 1, 0, 1, 1, 1, 0],
        [1, 1, 0, 0, 1, 0, 1, 0],
        [0, 0, 0, 1, 0, 1, 1, 0],
        [0, 1, 1, 1, 0, 1, 1, 0],
        [0, 1, 1, 0, 1, 1, 0, 0],
        [1, 1, 0, 0, 1, 0, 0, 0],
        [1, 1, 1, 0, 0, 1, 1, 0],
        [1, 0, 1, 1, 1, 1, 0, 0],
        [1, 1, 1, 1, 0, 0, 1, 0],
        [0, 0, 1, 0, 0, 1, 1, 1],
        [0, 1, 1, 1, 0, 1, 1, 1],
        [1, 1, 0, 0, 1, 1, 0, 0],
        [1, 0, 1, 0, 0, 0, 0, 0],
        [1, 1, 0, 1, 0, 1, 1, 1],
        [1, 1, 0, 0, 1, 0, 1, 1],
        [0, 0, 0, 1, 1, 1, 1, 0],
        [1, 1, 0, 1, 1, 1, 0, 1],
        [0, 0, 0, 0, 0, 0, 1, 1],
        [0, 0, 0, 1, 0, 1, 0, 0],
        [0, 0, 1, 0, 1, 0, 1, 1],
        [0, 0, 1, 1, 0, 1, 1, 0],
        [0, 1, 1, 1, 1, 1, 1, 1],
        [0, 1, 1, 0, 1, 1, 0, 1],
        [1, 0, 0, 0, 0, 1, 1, 1],
        [0, 1, 0, 1, 0, 0, 1, 0],
        [1, 0, 0, 1, 1, 0, 1, 0],
        [1, 1, 0, 0, 1, 1, 1, 1],
        [1, 1, 0, 1, 0, 1, 0, 0],
        [1, 0, 0, 0, 0, 0, 0, 0],
        [1, 1, 1, 0, 1, 0, 1, 1],
        [1, 0, 0, 1, 0, 0, 0, 0],
        [0, 1, 1, 0, 0, 0, 0, 1],
        [0, 0, 0, 0, 1, 0, 0, 1],
        [0, 0, 1, 1, 1, 1, 0, 1],
        [0, 0, 0, 0, 0, 1, 0, 0],
        [1, 0, 1, 0, 1, 0, 1, 0],
        [1, 0, 1, 0, 1, 1, 1, 0],
        [1, 0, 1, 0, 0, 0, 0, 1],
        [1, 1, 0, 1, 1, 1, 0, 0],
        [0, 0, 1, 0, 1, 1, 0, 0],
        [0, 1, 0, 0, 0, 0, 1, 0],
        [0, 1, 0, 1, 1, 0, 1, 1],
        [1, 0, 1, 1, 1, 0, 0, 0],
        [1, 1, 1, 0, 1, 0, 0, 0],
        [1, 0, 0, 1, 0, 0, 1, 1],
        [1, 0, 0, 1, 0, 1, 0, 0],
        [0, 1, 0, 1, 1, 0, 0, 0],
        [0, 1, 0, 0, 1, 0, 0, 0],
        [0, 0, 0, 1, 0, 0, 0, 0],
        [1, 0, 1, 0, 0, 1, 1, 0],
        [0, 1, 0, 0, 0, 1, 0, 1],
        [0, 0, 1, 0, 1, 1, 0, 1],
        [0, 0, 1, 1, 1, 0, 0, 1],
        [1, 1, 0, 0, 0, 1, 1, 1],
        [0, 0, 0, 0, 0, 1, 1, 0],
        [0, 0, 1, 1, 1, 1, 1, 1],
        [1, 1, 1, 1, 1, 0, 0, 0],
        [1, 1, 0, 1, 0, 1, 1, 0],
        [0, 0, 0, 0, 1, 0, 1, 1],
        [1, 0, 1, 1, 0, 1, 0, 1],
        [0, 0, 0, 1, 1, 1, 0, 0],
        [1, 0, 1, 1, 0, 0, 1, 1],
        [1, 1, 0, 1, 0, 0, 0, 0],
        [0, 0, 1, 1, 1, 1, 1, 0],
        [1, 0, 0, 0, 1, 1, 1, 0],
        [0, 0, 0, 1, 1, 1, 0, 1],
        [0, 1, 1, 0, 1, 0, 0, 0],
        [1, 1, 1, 1, 1, 0, 0, 1],
        [1, 0, 1, 0, 1, 0, 1, 1],
        [1, 0, 0, 0, 0, 1, 0, 1],
        [0, 1, 1, 1, 0, 0, 0, 0],
        [0, 0, 1, 0, 0, 0, 1, 0],
        [0, 1, 0, 1, 1, 1, 0, 0],
        [1, 1, 1, 0, 1, 1, 1, 1],
        [1, 1, 0, 1, 1, 1, 1, 1],
        [1, 1, 1, 0, 1, 1, 0, 0],
        [0, 1, 1, 1, 1, 0, 1, 0],
        [1, 0, 1, 0, 0, 1, 0, 0],
        [1, 1, 1, 1, 0, 1, 1, 1],
        [1, 1, 0, 0, 0, 0, 0, 1],
        [1, 1, 0, 1, 0, 0, 1, 1],
        [1, 1, 0, 1, 1, 0, 1, 1],
        [0, 1, 0, 1, 0, 0, 0, 1],
        [0, 1, 1, 0, 1, 0, 0, 1],
        [1, 0, 0, 1, 0, 1, 0, 1],
        [0, 1, 0, 1, 0, 1, 1, 1],
        [0, 0, 1, 1, 1, 1, 0, 0],
        [0, 1, 1, 1, 1, 0, 1, 1],
        [1, 1, 1, 1, 0, 1, 1, 0],
        [1, 0, 0, 0, 0, 0, 1, 0],
        [1, 0, 0, 0, 1, 0, 0, 0],
        [1, 0, 0, 0, 0, 0, 1, 1],
        [0, 1, 0, 1, 1, 1, 0, 1],
        [0, 0, 1, 0, 1, 0, 0, 0],
        [1, 1, 0, 0, 1, 1, 0, 1],
        [0, 0, 1, 0, 0, 0, 1, 1],
        [0, 0, 0, 1, 0, 0, 1, 0],
    ])
}

impl TestCase {
    /// Test if a function in some other BDD matches this testcase
    fn verify_against(&self, other_man: &DDManager, other_f: NodeID) -> bool {
        for trues in self.ones.iter() {
            if !other_man.verify(other_f, trues) {
                return false;
            }
        }
        other_man.sat_count(other_f).to_u128() == Some(self.ones.len() as u128)
    }
}

fn all_assignments(n: usize) -> Vec<Vec<usize>> {
    let mut out = Vec::new();
    for bits in 0..(1usize << n) {
        let mut trues = Vec::new();
        for v in 1..n + 1 {
            if bits & (1 << (v - 1)) != 0 {
                trues.push(v);
            }
        }
        out.push(trues);
    }
    out
}

#[test]
fn test_test_trivial_noop_trivial() {
    let testcase = test_trivial();
    assert!(testcase.verify_against(&testcase.man, testcase.f));
}

#[test]
fn test_test_trivial_noop_random1() {
    let testcase = random_1();
    assert!(testcase.verify_against(&testcase.man, testcase.f));
}

#[test]
fn test_truthtable_satcount_random1() {
    let testcase = random_1();
    assert_eq!(testcase.man.sat_count(testcase.f).to_u128(), Some(132));
}

#[test]
fn test_trivial_same_as_dimacs() {
    let testcase = test_trivial();
    let mut instance = Instance::new(3, 3, vec![vec![1, 2, -3], vec![1, -2, 3], vec![-1, -2, 3]]);
    let (man_dimacs, bdd_dimacs) = DDManager::from_instance(&mut instance, None, Options::default()).unwrap();
    assert!(testcase.verify_against(&man_dimacs, bdd_dimacs));
}

#[test]
fn truth_table_of_built_function_matches() {
    let testcase = test_trivial();
    for trues in all_assignments(testcase.nr_variables) {
        assert_eq!(testcase.man.verify(testcase.f, &trues), testcase.ones.contains(&trues));
    }
}

#[test]
fn from_instance_with_an_order_keeps_it() {
    let mut instance = Instance::new(3, 3, vec![vec![1, 2, -3], vec![1, -2, 3], vec![-1, -2, 3]]);
    let (man, bdd) = DDManager::from_instance(&mut instance, Some(vec![4, 3, 1, 2]), Options::default()).unwrap();
    assert_eq!(man.var2level, vec![4, 3, 1, 2]);
    assert!(test_trivial().verify_against(&man, bdd));
    let err = DDManager::from_instance(&mut instance, Some(vec![4, 1, 1, 2]), Options::default());
    assert!(err.is_err());
}

#[test]
fn equal_functions_share_their_node() {
    let mut man = DDManager::new();
    let a = man.ith_var(VarID(1));
    let b = man.ith_var(VarID(2));
    let ab = man.and(a, b);
    let ba = man.and(b, a);
    assert_eq!(ab, ba);
    let na = man.not(a);
    let nb = man.not(b);
    let n_or = man.or(na, nb);
    let demorgan = man.not(n_or);
    assert_eq!(demorgan, ab);
    let x1 = man.xor(a, b);
    let x2 = man.apply(ApplyOperation::XOR, b, a);
    assert_eq!(x1, x2);
    let t = man.or(a, na);
    assert_eq!(t, man.one());
    let f = man.and(a, na);
    assert_eq!(f, man.zero());
}

#[test]
fn apply_agrees_with_ite_operations() {
    let mut man = DDManager::new();
    let a = man.ith_var(VarID(1));
    let b = man.nith_var(VarID(2));
    let c = man.ith_var(VarID(3));
    let bc = man.or(b, c);
    let and1 = man.and(a, bc);
    let and2 = man.apply(ApplyOperation::AND, a, bc);
    assert_eq!(and1, and2);
    let or1 = man.or(a, bc);
    let or2 = man.apply(ApplyOperation::OR, a, bc);
    assert_eq!(or1, or2);
    let xor1 = man.xor(a, bc);
    let xor2 = man.apply(ApplyOperation::XOR, a, bc);
    assert_eq!(xor1, xor2);
    for trues in all_assignments(3) {
        let va = trues.contains(&1);
        let vb = !trues.contains(&2);
        let vc = trues.contains(&3);
        assert_eq!(man.verify(and2, &trues), va && (vb || vc));
        assert_eq!(man.verify(or2, &trues), va || vb || vc);
        assert_eq!(man.verify(xor2, &trues), va != (vb || vc));
    }
}

#[test]
fn ite_selects_between_functions() {
    let mut man = DDManager::new();
    let a = man.ith_var(VarID(1));
    let b = man.ith_var(VarID(2));
    let c = man.ith_var(VarID(3));
    let r = man.ite(a, b, c);
    for trues in all_assignments(3) {
        let expect = if trues.contains(&1) { trues.contains(&2) } else { trues.contains(&3) };
        assert_eq!(man.verify(r, &trues), expect);
    }
    assert_eq!(man.ite(man.one(), b, c), b);
    assert_eq!(man.ite(man.zero(), b, c), c);
    assert_eq!(man.ite(a, man.one(), man.zero()), a);
}

#[test]
fn purge_retain_keeps_the_root_and_drops_the_rest() {
    let testcase = test_trivial();
    let mut man = testcase.man;
    let before = man.count_active(testcase.f);
    man.purge_retain(testcase.f);
    assert_eq!(man.count_active(testcase.f), before);
    assert!(test_trivial().verify_against(&man, testcase.f));
    let live = man.nodes.iter().filter(|n| n.is_some()).count();
    assert_eq!(live, man.get_reachable(&[testcase.f, NodeID(0), NodeID(1)]).len());
    // freed slots are reused for new nodes
    let free = man.free_slots.len();
    assert!(free > 0);
    let slots = man.nodes.len();
    let x = man.ith_var(VarID(5));
    assert_eq!(man.free_slots.len(), free - 1);
    assert_eq!(man.nodes.len(), slots);
    assert!(man.verify(x, &[5]));
}

#[test]
fn purge_retain_multi_keeps_every_root() {
    let mut man = DDManager::new();
    let a = man.ith_var(VarID(1));
    let b = man.ith_var(VarID(2));
    let c = man.ith_var(VarID(3));
    let ab = man.and(a, b);
    let bc = man.or(b, c);
    let _dropped = man.xor(a, c);
    man.purge_retain_multi(&[ab, bc]);
    for trues in all_assignments(3) {
        assert_eq!(man.verify(ab, &trues), trues.contains(&1) && trues.contains(&2));
        assert_eq!(man.verify(bc, &trues), trues.contains(&2) || trues.contains(&3));
    }
    let live = man.nodes.iter().filter(|n| n.is_some()).count();
    assert_eq!(live, man.get_reachable(&[ab, bc, NodeID(0), NodeID(1)]).len());
}

#[test]
fn count_active_counts_reachable_nodes() {
    let mut man = DDManager::new();
    let a = man.ith_var(VarID(1));
    let b = man.ith_var(VarID(2));
    let ab = man.and(a, b);
    // ab, b, and both terminals
    assert_eq!(man.count_active(ab), 4);
    assert_eq!(man.count_active(man.zero()), 1);
    assert_eq!(man.count_active(a), 3);
}

#[test]
fn satisfiability_and_model_counts() {
    let mut man = DDManager::new();
    let a = man.ith_var(VarID(1));
    let b = man.ith_var(VarID(2));
    let c = man.ith_var(VarID(3));
    let ab = man.and(a, b);
    assert!(man.is_sat(ab));
    assert!(!man.is_sat(man.zero()));
    // over three variables: a and b true, c free
    assert_eq!(man.sat_count(ab).to_u128(), Some(2));
    assert_eq!(man.sat_count(c).to_u128(), Some(4));
    assert_eq!(man.sat_count(man.one()).to_u128(), Some(8));
    assert_eq!(man.sat_count(man.zero()).to_u128(), Some(0));
}

#[test]
fn clear_c_table_empties_the_caches() {
    let mut man = DDManager::new();
    let a = man.ith_var(VarID(1));
    let b = man.ith_var(VarID(2));
    let ab = man.and(a, b);
    man.clear_c_table();
    assert!(man.ite_c_table.is_empty());
    assert!(man.apply_c_table.is_empty());
    assert_eq!(man.and(a, b), ab);
}

#[test]
fn var_at_level_finds_variables() {
    let mut man = DDManager::new();
    let _ = man.ith_var(VarID(3));
    assert_eq!(man.var_at_level(2), Some(VarID(2)));
    assert_eq!(man.var_at_level(4), Some(VarID(0)));
    assert_eq!(man.var_at_level(9), None);
}

/// Swap each variable pair from initial order
#[test]
fn swap_sandwich() {
    let testcase = test_trivial();
    for i in 1..testcase.nr_variables {
        let fresh = test_trivial();
        let mut man = fresh.man;
        let bdd = man.swap(VarID(i), VarID(i + 1), fresh.f);
        assert!(testcase.verify_against(&man, bdd));
    }
}

// Test that reverting a swap results in same node count as before
fn swap_invert_nodecount(make: fn() -> TestCase) {
    let testcase = make();
    for i in 1..testcase.nr_variables {
        let fresh = make();
        let mut man = fresh.man;
        let var_a = VarID(i);
        let var_b = VarID(i + 1);

        let count_before = man.count_active(fresh.f);

        let bdd = man.swap(var_a, var_b, fresh.f);
        assert!(testcase.verify_against(&man, bdd));

        let bdd = man.swap(var_b, var_a, bdd);
        assert!(testcase.verify_against(&man, bdd));

        let count_after = man.count_active(bdd);

        assert_eq!(count_before, count_after);
    }
}

#[test]
fn swap_invert_nodecount_trivial() {
    swap_invert_nodecount(test_trivial);
}

#[test]
fn swap_invert_nodecount_random1() {
    swap_invert_nodecount(random_1);
}

#[test]
fn swap_last_vars() {
    let testcase = test_trivial();
    let fresh = test_trivial();
    let mut man = fresh.man;
    let bdd = man.swap(VarID(2), VarID(3), fresh.f);
    assert!(testcase.verify_against(&man, bdd));
}

fn swap_multiple_noop(testcase: TestCase) {
    let mut man = testcase.man;
    let mut bdd = testcase.f;
    let check = TestCase { ones: testcase.ones.clone(), man: DDManager::new(), f: bdd, nr_variables: testcase.nr_variables };

    let mut counts = vec![man.count_active(bdd)];

    let var = VarID(1);

    // Sift down, record BDD sizes
    for i in var.0 + 1..testcase.nr_variables + 1 {
        bdd = man.swap(var, VarID(i), bdd);
        man.purge_retain(bdd);
        assert!(check.verify_against(&man, bdd));
        counts.push(man.count_active(bdd));
    }

    let mut counts_up = vec![man.count_active(bdd)];

    // Sift up
    for i in (var.0 + 1..testcase.nr_variables + 1).rev() {
        bdd = man.swap(VarID(i), var, bdd);
        man.purge_retain(bdd);
        assert!(check.verify_against(&man, bdd));
        counts_up.push(man.count_active(bdd));
    }
    counts_up.reverse();

    assert_eq!(counts, counts_up);
}

#[test]
fn swap_multiple_noop_trivial() {
    swap_multiple_noop(test_trivial());
}

#[test]
fn swap_multiple_noop_random1() {
    swap_multiple_noop(random_1());
}

#[test]
fn swap_exchanges_the_levels_and_keeps_every_function() {
    let mut man = DDManager::new();
    let a = man.ith_var(VarID(1));
    let b = man.ith_var(VarID(2));
    let c = man.ith_var(VarID(3));
    let ab = man.and(a, b);
    let f = man.or(ab, c);
    let before: Vec<bool> = all_assignments(3).iter().map(|t| man.verify(f, t)).collect();
    assert_eq!(man.var2level, vec![4, 1, 2, 3]);
    let r = man.swap(VarID(2), VarID(1), f);
    assert_eq!(r, f);
    assert_eq!(man.var2level, vec![4, 2, 1, 3]);
    let after: Vec<bool> = all_assignments(3).iter().map(|t| man.verify(f, t)).collect();
    assert_eq!(before, after);
    // the node of variable 1 alone keeps its ID and function
    assert!(man.verify(a, &[1]));
    assert!(!man.verify(a, &[2]));
    assert_eq!(man.sat_count(f).to_u128(), Some(5));
}

#[test]
fn sifting_all_vars_keeps_the_function_and_never_grows() {
    for make in [test_trivial as fn() -> TestCase, random_1] {
        let testcase = make();
        let mut man = testcase.man;
        let bdd = testcase.f;
        let check = TestCase { ones: testcase.ones.clone(), man: DDManager::new(), f: bdd, nr_variables: testcase.nr_variables };
        let size_before = man.count_active(bdd);
        let bdd = man.sift_all_vars(bdd);
        let size_after = man.count_active(bdd);
        assert!(check.verify_against(&man, bdd));
        assert!(size_after <= size_before);
        // the order is still a permutation of the levels
        let mut levels = man.var2level.clone();
        levels.sort();
        let expected: Vec<usize> = (1..man.var2level.len() + 1).collect();
        assert_eq!(levels, expected);
    }
}

#[test]
fn sifting_finds_the_smaller_order() {
    // (x1 & x3) | (x2 & x4) has 8 nodes in the order 1, 2, 3, 4 and 6 in the order 1, 3, 2, 4
    let mut man = DDManager::new();
    let x1 = man.ith_var(VarID(1));
    let x2 = man.ith_var(VarID(2));
    let x3 = man.ith_var(VarID(3));
    let x4 = man.ith_var(VarID(4));
    let a = man.and(x1, x3);
    let b = man.and(x2, x4);
    let f = man.or(a, b);
    let size_before = man.count_active(f);
    assert_eq!(size_before, 8);
    let f = man.sift_all_vars(f);
    let size_after = man.count_active(f);
    assert!(size_after <= size_before);
    assert_eq!(size_after, 6);
    assert_eq!(man.sat_count(f).to_u128(), Some(7));
}

#[test]
fn load_from_nodelist_builds_the_described_function() {
    // x1 & x2 with terminals 7 (one) and 9 (zero), the node of x2 shared
    let nodes = vec![
        (NodeID(5), VarID(1), NodeID(6), NodeID(9)),
        (NodeID(6), VarID(2), NodeID(7), NodeID(9)),
        (NodeID(8), VarID(2), NodeID(9), NodeID(7)),
        (NodeID(7), VarID(0), NodeID(7), NodeID(7)),
        (NodeID(9), VarID(0), NodeID(9), NodeID(9)),
    ];
    let roots = vec![NodeID(5), NodeID(8), NodeID(7)];
    let (man, new_roots) =
        DDManager::new().load_bdd_from_nodelist(&nodes, vec![3, 1, 2], &roots, (NodeID(7), NodeID(9)));
    assert_eq!(man.var2level, vec![3, 1, 2]);
    assert_eq!(new_roots.len(), 3);
    let f = new_roots[0];
    assert!(man.verify(f, &[1, 2]));
    assert!(!man.verify(f, &[1]));
    assert!(!man.verify(f, &[2]));
    assert_eq!(man.sat_count(f).to_u128(), Some(1));
    let g = new_roots[1];
    assert!(man.verify(g, &[]));
    assert!(!man.verify(g, &[2]));
    assert_eq!(new_roots[2], man.one());
    // every inner node of the list became one node: x1, x2 and not x2
    assert_eq!(man.count_active(f), 4);
}

#[test]
fn load_with_translation_maps_every_id() {
    let nodes = vec![
        (NodeID(3), VarID(1), NodeID(1), NodeID(0)),
        (NodeID(1), VarID(0), NodeID(1), NodeID(1)),
        (NodeID(0), VarID(0), NodeID(0), NodeID(0)),
    ];
    let (man, roots, ids) = DDManager::new().load_bdd_from_nodelist_with_translation(
        &nodes,
        vec![2, 1],
        &vec![NodeID(3)],
        (NodeID(1), NodeID(0)),
    );
    assert_eq!(ids.get(&1), Some(&1));
    assert_eq!(ids.get(&0), Some(&0));
    assert_eq!(roots[0].0, *ids.get(&3).unwrap());
    assert!(man.verify(roots[0], &[1]));
    assert!(!man.verify(roots[0], &[]));
}

#[test]
fn direct_swap_reports_the_change_in_size() {
    // (x1 & x3) | (x2 & x4): 8 nodes in the order 1, 2, 3, 4, 6 nodes in the order 1, 3, 2, 4
    let mut man = DDManager::new();
    let x1 = man.ith_var(VarID(1));
    let x2 = man.ith_var(VarID(2));
    let x3 = man.ith_var(VarID(3));
    let x4 = man.ith_var(VarID(4));
    let a = man.and(x1, x3);
    let b = man.and(x2, x4);
    let f = man.or(a, b);
    assert_eq!(man.count_active(f), 8);
    assert_eq!(man.direct_swap(VarID(2), VarID(3), f), -2);
    assert_eq!(man.count_active(f), 6);
    assert_eq!(man.var2level, vec![5, 1, 3, 2, 4]);
    assert_eq!(man.direct_swap(VarID(3), VarID(2), f), 2);
    assert_eq!(man.count_active(f), 8);
    assert_eq!(man.var2level, vec![5, 1, 2, 3, 4]);
    assert_eq!(man.sat_count(f).to_u128(), Some(7));
}

#[test]
fn sifting_faster_finds_the_smaller_order() {
    let mut man = DDManager::new();
    let x1 = man.ith_var(VarID(1));
    let x2 = man.ith_var(VarID(2));
    let x3 = man.ith_var(VarID(3));
    let x4 = man.ith_var(VarID(4));
    let a = man.and(x1, x3);
    let b = man.and(x2, x4);
    let f = man.or(a, b);
    let f = man.sift_single_var_faster(VarID(2), None, f);
    assert_eq!(man.count_active(f), 6);
    assert_eq!(man.var2level, vec![5, 1, 3, 2, 4]);
    assert_eq!(man.sat_count(f).to_u128(), Some(7));
    assert!(man.verify(f, &[1, 3]));
    assert!(man.verify(f, &[2, 4]));
    assert!(!man.verify(f, &[1, 2]));
}

#[test]
fn sifting_faster_keeps_a_diagram_that_only_grows() {
    // x1 & x2 | x3: moving x3 up only makes the diagram larger
    let mut man = DDManager::new();
    let x1 = man.ith_var(VarID(1));
    let x2 = man.ith_var(VarID(2));
    let x3 = man.ith_var(VarID(3));
    let a = man.and(x1, x2);
    let f = man.or(a, x3);
    let before = man.count_active(f);
    let f = man.sift_single_var_faster(VarID(3), Some(0), f);
    assert!(man.count_active(f) <= before);
    assert_eq!(man.sat_count(f).to_u128(), Some(5));
}

/// (x1 & x3) | (x2 & x4) in the order 1, 2, 3, 4: 8 nodes, 6 in the best order.
fn interleaved() -> (DDManager, NodeID) {
    let mut man = DDManager::new();
    let x1 = man.ith_var(VarID(1));
    let x2 = man.ith_var(VarID(2));
    let x3 = man.ith_var(VarID(3));
    let x4 = man.ith_var(VarID(4));
    let a = man.and(x1, x3);
    let b = man.and(x2, x4);
    let f = man.or(a, b);
    (man, f)
}

#[test]
fn no_dvo_schedule_changes_nothing() {
    let (mut man, f) = interleaved();
    let mut schedule = DVOScheduleEnum::NoDVOSchedule(NoDVOSchedule {});
    let r = schedule.run_dvo(0, &mut man, f);
    assert_eq!(r, f);
    assert_eq!(man.var2level, vec![5, 1, 2, 3, 4]);
    assert_eq!(man.count_active(f), 8);
}

#[test]
fn threshold_schedule_waits_for_the_threshold() {
    let (mut man, f) = interleaved();
    let mut schedule = DVOScheduleEnum::SiftingAtThreshold(SiftingAtThreshold::new(8));
    let r = schedule.run_dvo(0, &mut man, f);
    assert_eq!(man.var2level, vec![5, 1, 2, 3, 4]);
    assert_eq!(man.count_active(r), 8);
    let mut schedule = DVOScheduleEnum::AtThreshold(AtThreshold {
        active_nodes_threshold: 7,
        underlying_schedule: Box::new(DVOScheduleEnum::AlwaysUntilConvergence(AlwaysUntilConvergence {})),
    });
    let r = schedule.run_dvo(0, &mut man, f);
    assert_eq!(man.count_active(r), 6);
    assert_eq!(man.sat_count(r).to_u128(), Some(7));
}

#[test]
fn sifting_schedules_shrink_the_diagram() {
    let (mut man, f) = interleaved();
    let mut schedule = DVOScheduleEnum::AlwaysOnce(AlwaysOnce { max_increase: None });
    let r = schedule.run_dvo(0, &mut man, f);
    assert_eq!(man.count_active(r), 6);
    assert_eq!(man.sat_count(r).to_u128(), Some(7));
    let (mut man, f) = interleaved();
    let mut schedule = DVOScheduleEnum::TimeSizeLimit(TimeSizeLimit::new(
        std::time::Duration::from_secs(3600),
        0,
        Box::new(DVOScheduleEnum::AlwaysUntilConvergence(AlwaysUntilConvergence {})),
    ));
    // the node table is larger than the limit, so the underlying schedule runs
    let r = schedule.run_dvo(0, &mut man, f);
    assert_eq!(man.count_active(r), 6);
    assert!(man.verify(r, &[2, 4]));
}

#[test]
fn building_with_dvo_keeps_the_function() {
    let clauses = vec![vec![1, 2, -3], vec![1, -2, 3], vec![-1, -2, 3], vec![2, 4], vec![-4, 1]];
    let mut plain = Instance::new(4, 5, clauses.clone());
    let (man_plain, bdd_plain) = DDManager::from_instance(&mut plain, None, Options::default()).unwrap();
    let mut instance = Instance::new(4, 5, clauses);
    let options = Options::default().with_dvo(DVOScheduleEnum::SiftingAtThreshold(SiftingAtThreshold::new(0)));
    let (man, bdd) = DDManager::from_instance(&mut instance, None, options).unwrap();
    assert_eq!(man.sat_count(bdd).to_u128(), man_plain.sat_count(bdd_plain).to_u128());
    assert!(man.count_active(bdd) <= man_plain.count_active(bdd_plain));
}

#[test]
fn regular_sifting_strategy_shrinks_the_diagram() {
    let (mut man, f) = interleaved();
    let r = obddimal::dvo::RegularSifting {}.run_dvo(&mut man, f, Some(10));
    assert_eq!(r, f);
    assert_eq!(man.count_active(r), 6);
    assert_eq!(man.sat_count(r).to_u128(), Some(7));
}

#[test]
fn sifting_below_the_root_keeps_the_root() {
    let (mut man, f) = interleaved();
    let root_var = man.nodes[f.0].unwrap().var;
    let root_level = man.var2level[root_var.0];
    let f = man.sift_all_vars_limited(f, None);
    assert_eq!(man.nodes[f.0].unwrap().var, root_var);
    assert_eq!(man.var2level[root_var.0], root_level);
    assert_eq!(man.count_active(f), 6);
    assert_eq!(man.sat_count(f).to_u128(), Some(7));
}

#[test]
fn sifting_with_every_variable_passed_over_changes_nothing() {
    // x1 alone: the only variable is the root's
    let mut man = DDManager::new();
    let f = man.ith_var(VarID(1));
    let levels = man.var2level.clone();
    let slots = man.nodes.len();
    let f = man.sift_all_vars_limited(f, None);
    assert_eq!(man.var2level, levels);
    assert_eq!(man.nodes.len(), slots);
    assert_eq!(man.count_active(f), 3);
}

#[test]
fn sifting_all_vars_leaves_the_last_one_on_its_best_level() {
    let (mut man, f) = interleaved();
    let f = man.sift_all_vars(f);
    let size = man.count_active(f);
    // moving the last variable with nodes once more finds nothing smaller
    let f = man.sift_single_var_faster(VarID(4), None, f);
    assert_eq!(man.count_active(f), size);
    assert_eq!(size, 6);
}

#[test]
fn sat_count_is_exact_beyond_u128() {
    // 200 free variables: 2^200 models
    let mut man = DDManager::new();
    let _ = man.ith_var(VarID(200));
    let one = man.one();
    let count = man.sat_count(one);
    assert_eq!(count.to_u128(), None);
    assert_eq!(count.limbs, vec![993782792835301376u64, 92341162602522202, 44258990275541962, 1606938]);
    let text: String = count.to_decimal().iter().collect();
    assert_eq!(text, "1606938044258990275541962092341162602522202993782792835301376");
}

#[test]
fn sat_count_of_a_small_function_in_decimal() {
    let (man, f) = interleaved();
    let text: String = man.sat_count(f).to_decimal().iter().collect();
    assert_eq!(text, "7");
    let zero = man.zero();
    let text0: String = man.sat_count(zero).to_decimal().iter().collect();
    assert_eq!(text0, "0");
}

#[test]
fn models_by_variable_of_the_interleaved_function() {
    let (mut man, f) = interleaved();
    let (total, by_var) = man.count_models_by_variable(f);
    assert_eq!(total.to_u128(), Some(7));
    let counts: Vec<Option<u128>> = by_var.iter().map(|c| c.to_u128()).collect();
    assert_eq!(counts, vec![Some(0), Some(5), Some(5), Some(5), Some(5)]);
}

#[test]
fn partial_swap_measures_without_changing_the_manager() {
    let (mut man, f) = interleaved();
    assert_eq!(man.count_active(f), 8);
    let ctx = obddimal::dvo::SwapContext::new();
    let (d, ctx) = man.partial_swap(VarID(2), VarID(3), &ctx, f);
    assert_eq!(d, -2);
    assert_eq!(ctx.all_swaps_in_result, vec![(VarID(2), VarID(3))]);
    assert_eq!(man.var2level, vec![5, 1, 2, 3, 4]);
    assert_eq!(man.count_active(f), 8);
    let (d2, ctx) = man.partial_swap(VarID(3), VarID(2), &ctx, f);
    assert_eq!(d2, 2);
    man.persist_swap(ctx);
    assert_eq!(man.var2level, vec![5, 1, 2, 3, 4]);
    assert_eq!(man.count_active(f), 8);
}

#[test]
fn persist_swap_carries_out_the_recorded_swaps() {
    let (mut man, f) = interleaved();
    let ctx = obddimal::dvo::SwapContext { all_swaps_in_result: vec![(VarID(2), VarID(3))] };
    man.persist_swap(ctx);
    assert_eq!(man.var2level, vec![5, 1, 3, 2, 4]);
    assert_eq!(man.count_active(f), 6);
    assert_eq!(man.sat_count(f).to_u128(), Some(7));
}

#[test]
fn building_knows_exactly_the_variables_used_or_ordered() {
    // without an order: variables 1 to the largest used
    let mut inst = Instance::new(2, 9, vec![vec![1, -3], vec![2, 3]]);
    let (man, bdd) = DDManager::from_instance(&mut inst, None, Options::default()).unwrap();
    assert_eq!(man.var2level.len(), 4);
    // (x1 | !x3) & (x2 | x3) over x1..x3: 4 models
    assert_eq!(man.sat_count(bdd).to_u128(), Some(4));
    // with an order over 5 variables: all five are known
    let mut inst2 = Instance::new(2, 5, vec![vec![1, -3], vec![2, 3]]);
    let (man2, bdd2) = DDManager::from_instance(&mut inst2, Some(vec![6, 1, 2, 3, 4, 5]), Options::default()).unwrap();
    assert_eq!(man2.var2level.len(), 6);
    assert_eq!(man2.sat_count(bdd2).to_u128(), Some(16));
}

/// The nodes of the diagram of `root` labelled with the given variables: the width of their
/// levels once the manager holds nothing but that diagram.
fn width(man: &DDManager, root: NodeID, vars: &[usize]) -> usize {
    man.get_reachable(&[root]).iter().filter(|id| vars.contains(&man.nodes[**id].unwrap().var.0)).count()
}

#[test]
fn simple_one_swap() {
    let testcase = test_trivial();
    let root = testcase.f;
    let mut man = testcase.man.copy();
    man.purge_retain(root);

    let expected = man.sat_count(root).to_u128();
    let width_before = width(&man, root, &[2, 3]);

    // one way
    let result = man.partial_swap(VarID(2), VarID(3), &SwapContext::new(), root);
    man.persist_swap(result.1);
    assert_eq!(man.sat_count(root).to_u128(), expected);
    assert!(testcase.verify_against(&man, root));

    // other way
    let result2 = man.partial_swap(VarID(2), VarID(3), &SwapContext::new(), root);
    man.persist_swap(result2.1);

    let width_after = width(&man, root, &[2, 3]);

    assert_eq!(width_after, width_before);
    assert!(result.0.abs() == result2.0.abs());

    assert_eq!(man.sat_count(root).to_u128(), expected);
    assert!(testcase.verify_against(&man, root));
}

#[test]
fn simple_double_swap() {
    let testcase = random_1();
    let root = testcase.f;
    let mut man = testcase.man.copy();
    man.purge_retain(root);
    let expected = man.sat_count(root).to_u128();
    let a = 1;
    let b = 2;

    // double swap
    let result = man.partial_swap(VarID(a), VarID(b), &SwapContext::new(), root);
    let result2 = man.partial_swap(VarID(a), VarID(b), &result.1, root);
    man.persist_swap(result2.1);
    assert_eq!(man.sat_count(root).to_u128(), expected);
    assert!(testcase.verify_against(&man, root));
    assert!(result.0.abs() == result2.0.abs());
}

#[test]
fn double_swap_test() {
    let testcase = random_1();
    let bdd = testcase.f;
    let mut man = testcase.man.copy();
    man.purge_retain(bdd);
    let count = 5;

    let levels = man.var2level.len();
    let expected = man.sat_count(bdd).to_u128();

    // partial swap with instant resolve
    for (_, id) in man.var2nodes[1].iter() {
        assert_eq!(man.nodes[*id].unwrap().var, VarID(1));
    }

    for _ in 0..count {
        let mut man = man.copy();
        for i in 1..(levels - 2) / 2 {
            let result1 = man.partial_swap(VarID(i), VarID(i + 1), &SwapContext::new(), bdd);
            man.persist_swap(result1.1);
            assert!(testcase.verify_against(&man, bdd));
            let result2 = man.partial_swap(VarID(i), VarID(i + 1), &SwapContext::new(), bdd);
            man.persist_swap(result2.1);
            assert_eq!(result1.0.abs(), result2.0.abs(), "i: {}", i);
            assert_eq!(man.sat_count(bdd).to_u128(), expected);
            assert!(testcase.verify_against(&man, bdd));
        }
        assert!(testcase.verify_against(&man, bdd));
    }

    assert_eq!(man.sat_count(bdd).to_u128(), expected);

    // partial swap with later resolve
    for _ in 0..count {
        let mut man = man.copy();
        for i in 1..(levels - 2) / 2 {
            let result1 = man.partial_swap(VarID(i), VarID(i + 1), &SwapContext::new(), bdd);
            let result2 = man.partial_swap(VarID(i), VarID(i + 1), &result1.1, bdd);
            man.persist_swap(result2.1);
            assert_eq!(result1.0.abs(), result2.0.abs());
            assert_eq!(man.sat_count(bdd).to_u128(), expected);
            assert!(testcase.verify_against(&man, bdd));
        }
        assert!(testcase.verify_against(&man, bdd));
    }

    assert_eq!(man.sat_count(bdd).to_u128(), expected);
}

#[test]
fn swapping_twice_undoes_the_measured_change() {
    let testcase = random_1();
    let root = testcase.f;
    let mut man = testcase.man.copy();
    man.purge_retain(root);
    let before = man.count_active(root) as isize;
    let (d1, ctx) = man.partial_swap(VarID(3), VarID(4), &SwapContext::new(), root);
    let (d2, ctx2) = man.partial_swap(VarID(3), VarID(4), &ctx, root);
    assert_eq!(d2, -d1);
    assert_eq!(ctx2.permute_swaps(&man.var2level), man.var2level);
    man.persist_swap(ctx);
    assert_eq!(man.count_active(root) as isize, before + d1);
}

/// The terminals of the hand-built node lists: the 1 terminal, then the 0 terminal. Each
/// entry of a list is (ID, variable, high child, low child).
const TERMINALS: (NodeID, NodeID) = (NodeID(1), NodeID(0));

#[test]
fn reduce_redundant() {
    let nodes = vec![
        // Node 2: Low:0, High: 1
        (NodeID(2), VarID(3), NodeID(1), NodeID(0)),
        // Node 3: Low=High=2
        (NodeID(3), VarID(2), NodeID(2), NodeID(2)),
        // Node 4 (f): Low=High=3
        (NodeID(4), VarID(1), NodeID(3), NodeID(3)),
    ];
    let f = NodeID(4);
    let (man, f) = DDManager::reduce(&nodes, vec![4, 1, 2, 3], TERMINALS, f);
    let f_node = man.nodes[f.0].unwrap();
    assert!(f_node.low == NodeID(0));
    assert!(f_node.high == NodeID(1));
}

#[test]
fn reduce_duplicate() {
    let nodes = vec![
        // Node 2: Low=0, High=1
        (NodeID(2), VarID(3), NodeID(1), NodeID(0)),
        // Duplicate node 3: Low=0, High=1
        (NodeID(3), VarID(3), NodeID(1), NodeID(0)),
        // Node 4: Low=1, High=2
        (NodeID(4), VarID(2), NodeID(2), NodeID(1)),
        // Node 5 (f): Low=3, High=4
        (NodeID(5), VarID(1), NodeID(4), NodeID(3)),
    ];
    let f = NodeID(5);
    let (man, f) = DDManager::reduce(&nodes, vec![4, 1, 2, 3], TERMINALS, f);
    let f_node = man.nodes[f.0].unwrap();

    let t_node_id = f_node.high;
    let t_node = man.nodes[t_node_id.0].unwrap();
    assert!(f_node.low == t_node.high);
}

#[test]
fn reduce_combined() {
    let nodes = vec![
        // Node 2: Low=0, High=1
        (NodeID(2), VarID(3), NodeID(1), NodeID(0)),
        // Duplicate node 3: Low=0, High=1
        (NodeID(3), VarID(3), NodeID(1), NodeID(0)),
        // Node 4: Low=2, High=2
        (NodeID(4), VarID(2), NodeID(2), NodeID(2)),
        // Node 5: Low=3, High=2
        (NodeID(5), VarID(2), NodeID(2), NodeID(3)),
        // Node 6 (f): Low=5, High=4
        (NodeID(6), VarID(1), NodeID(4), NodeID(5)),
    ];
    let f = NodeID(6);
    let (man, f) = DDManager::reduce(&nodes, vec![4, 1, 2, 3], TERMINALS, f);
    let f_node = man.nodes[f.0].unwrap();
    assert_eq!(f_node.high, NodeID(1));
    assert_eq!(f_node.low, NodeID(0));
}

#[test]
fn reduce_multirooted() {
    let nodes = vec![
        // Node 2: Low=0, High=1
        (NodeID(2), VarID(3), NodeID(1), NodeID(0)),
        // Node 3: Low=1, High=0
        (NodeID(3), VarID(3), NodeID(0), NodeID(1)),
    ];
    let f = NodeID(2);
    let (man, f) = DDManager::reduce(&nodes, vec![4, 1, 2, 3], TERMINALS, f);
    let f_node = man.nodes[f.0].unwrap();
    assert_eq!(f_node.high, NodeID(1));
    assert_eq!(f_node.low, NodeID(0));
    // Both nodes should still be present, but the IDs may have changed.
    assert_eq!(man.nodes.len(), 2 + 2);
    assert_eq!(man.var2nodes[3].len(), 2);
}

#[test]
fn find_best_position_in_range_takes_the_first_least_size() {
    let testcase = random_1();
    let root = testcase.f;
    let mut man = testcase.man.copy();
    man.purge_retain(root);
    let before = man.count_active(root) as isize;
    let (best, ctx) = find_best_position_in_range(&man, VarID(1), None, (1, 8), SwapContext::new(), root);

    // the same walk by hand: variable 1 moves down one level at a time
    let mut changes = vec![0isize];
    let mut cur = SwapContext::new();
    let mut total = 0;
    for level in 1..8 {
        let a = cur.var_at_level(level, &man.var2level).unwrap();
        let b = cur.var_at_level(level + 1, &man.var2level).unwrap();
        assert_eq!(a, VarID(1));
        let (d, next) = man.partial_swap(a, b, &cur, root);
        total += d;
        changes.push(total);
        cur = next;
    }
    let least = *changes.iter().min().unwrap();
    assert_eq!(best, least);
    let at = changes.iter().position(|c| *c == least).unwrap();
    assert_eq!(ctx.all_swaps_in_result.len(), at);

    let mut moved = man.copy();
    moved.persist_swap(ctx);
    assert_eq!(moved.count_active(root) as isize, before + best);
    assert_eq!(moved.sat_count(root).to_u128(), Some(132));
}

#[test]
fn find_best_position_in_range_stops_after_too_much_growth() {
    let testcase = random_1();
    let root = testcase.f;
    let mut man = testcase.man.copy();
    man.purge_retain(root);
    // with no growth allowed, the walk ends at the first step that does not shrink the diagram
    let (best, ctx) = find_best_position_in_range(&man, VarID(8), Some(0), (1, 8), SwapContext::new(), root);
    let (free_best, _) = find_best_position_in_range(&man, VarID(8), None, (1, 8), SwapContext::new(), root);
    assert!(best <= 0);
    assert!(free_best <= best);
    let mut moved = man.copy();
    let before = man.count_active(root) as isize;
    moved.persist_swap(ctx);
    assert_eq!(moved.count_active(root) as isize, before + best);
}

#[test]
fn sift_single_var_in_range_takes_the_better_side() {
    let testcase = random_1();
    let root = testcase.f;
    let mut man = testcase.man.copy();
    man.purge_retain(root);
    let before = man.count_active(root) as isize;
    let (up, up_ctx) = find_best_position_in_range(&man, VarID(4), None, (1, 4), SwapContext::new(), root);
    let (down, down_ctx) = find_best_position_in_range(&man, VarID(4), None, (4, 8), SwapContext::new(), root);
    let (e, ctx) = sift_single_var_in_range(&man, VarID(4), None, (1, 8), SwapContext::new(), root);
    let (best, best_len) = if down < up || (down == up && down_ctx.all_swaps_in_result.len() < up_ctx.all_swaps_in_result.len()) {
        (down, down_ctx.all_swaps_in_result.len())
    } else {
        (up, up_ctx.all_swaps_in_result.len())
    };
    if best >= 0 {
        assert_eq!(e, 0);
        assert!(ctx.all_swaps_in_result.is_empty());
    } else {
        assert_eq!(e, best);
        assert_eq!(ctx.all_swaps_in_result.len(), best_len);
    }
    let mut moved = man.copy();
    moved.persist_swap(ctx);
    assert_eq!(moved.count_active(root) as isize, before + e);
    assert!(testcase.verify_against(&moved, root));
}

#[test]
fn window_permutation_does_not_grow_the_diagram() {
    let testcase = random_1();
    let root = testcase.f;
    let mut man = testcase.man.copy();
    man.purge_retain(root);
    let size_before = man.count_active(root);
    let result = WindowPermutation {}.compute_concurrent_dvo(&man, None, &(2, 6), SwapContext::new(), root);
    man.persist_swap(result);
    let size_after = man.count_active(root);
    assert!(size_after <= size_before);
    assert!(testcase.verify_against(&man, root));
}

#[test]
fn window_permutation_leaves_a_wide_window_alone() {
    let testcase = random_1();
    let root = testcase.f;
    let mut man = testcase.man.copy();
    man.purge_retain(root);
    let result = WindowPermutation {}.compute_concurrent_dvo(&man, None, &(1, 8), SwapContext::new(), root);
    assert!(result.all_swaps_in_result.is_empty());
}

#[test]
fn concurrent_sifting_of_a_range_does_not_grow_the_diagram() {
    let testcase = random_1();
    let root = testcase.f;
    let mut man = testcase.man.copy();
    man.purge_retain(root);
    let size_before = man.count_active(root);
    let result = Sifting {}.compute_concurrent_dvo(&man, None, &(1, 8), SwapContext::new(), root);
    man.persist_swap(result);
    let size_after = man.count_active(root);
    assert!(size_after <= size_before);
    assert!(testcase.verify_against(&man, root));
    assert_eq!(man.sat_count(root).to_u128(), Some(132));
}

#[test]
fn time_size_limit_runs_when_the_interval_has_passed() {
    let (mut man, f) = interleaved();
    let mut schedule = TimeSizeLimit::new(
        std::time::Duration::from_secs(3600),
        usize::MAX,
        Box::new(DVOScheduleEnum::AlwaysUntilConvergence(AlwaysUntilConvergence {})),
    );
    // neither the interval has passed nor is the limit exceeded: nothing happens
    let (r, ran) = schedule.run_dvo_when(false, 0, &mut man, f);
    assert!(!ran);
    assert_eq!(r, f);
    assert_eq!(man.count_active(f), 8);
    // the interval has passed: the underlying schedule runs
    let (r, ran) = schedule.run_dvo_when(true, 0, &mut man, f);
    assert!(ran);
    assert_eq!(man.count_active(r), 6);
    assert!(man.verify(r, &[2, 4]));
}

use obddimal::bdd_node::VarID;
use obddimal::dddmp::parse_bcdd_from_dddmp_file;

fn lines(text: &str) -> Vec<String> {
    text.lines().map(|l| l.to_string()).collect()
}

const XOR_LIKE: &str = ".ver DDDMP-2.0
.mode A
.varinfo 0
.dd f
.nnodes 3
.nvars 2
.nsuppvars 2
.suppvarnames x1 x2
.ids 0 1
.permids 0 1
.nroots 1
.rootids 3
.nodes
1 T 1 0 0
2 1 1 1 -1
3 0 0 2 -1
.end
";

#[test]
fn dddmp_header_and_nodes_are_read() {
    let b = parse_bcdd_from_dddmp_file(&lines(XOR_LIKE)).unwrap();
    assert_eq!(b.roots, vec![3]);
    assert_eq!(b.varorder, vec![3, 1, 2]);
    assert_eq!(b.nodes.len(), 3);
    assert_eq!(b.nodes.get(&1), Some(&(VarID(0), 0, 0)));
    assert_eq!(b.nodes.get(&2), Some(&(VarID(2), 1, -1)));
    assert_eq!(b.nodes.get(&3), Some(&(VarID(1), 2, -1)));
    assert_eq!(b.terminal_ids, (1, None));
    assert!(!b.add);
}

#[test]
fn dddmp_free_variables_take_the_free_levels() {
    let text = XOR_LIKE
        .replace(".nvars 2", ".nvars 3")
        .replace(".ids 0 1", ".ids 0 2")
        .replace(".permids 0 1", ".permids 1 0");
    let b = parse_bcdd_from_dddmp_file(&lines(&text)).unwrap();
    assert_eq!(b.varorder, vec![4, 2, 3, 1]);
}

#[test]
fn dddmp_later_header_lines_win() {
    let text = XOR_LIKE.replace(".nroots 1", ".rootids 2\n.nroots 1");
    let b = parse_bcdd_from_dddmp_file(&lines(&text)).unwrap();
    assert_eq!(b.roots, vec![3]);
}

#[test]
fn dddmp_add_mode_reads_both_terminals() {
    let text = ".add
.nnodes 3
.nvars 1
.nsuppvars 1
.ids 0
.permids 0
.rootids 3
.nodes
1 T 1 0 0
2 T 0 0 0
3 0 0 1 2
.end";
    let b = parse_bcdd_from_dddmp_file(&lines(text)).unwrap();
    assert!(b.add);
    assert_eq!(b.terminal_ids, (1, Some(2)));
    assert_eq!(b.nodes.get(&3), Some(&(VarID(1), 1, 2)));
    assert_eq!(b.varorder, vec![2, 1]);
}

fn error_of(text: &str) -> String {
    match parse_bcdd_from_dddmp_file(&lines(text)) {
        Ok(_) => panic!("expected an error"),
        Err(e) => e,
    }
}

#[test]
fn dddmp_errors_name_the_problem() {
    assert_eq!(error_of(&XOR_LIKE.replace(".nnodes 3\n", "")), ".nnodes missing!");
    assert_eq!(error_of(&XOR_LIKE.replace(".nnodes 3", ".nnodes 3 4")), ".nnodes line invalid!");
    assert_eq!(error_of(&XOR_LIKE.replace(".nsuppvars 2\n", "")), ".nsuppvars missing!");
    assert_eq!(error_of(&XOR_LIKE.replace(".nvars 2", ".nvars")), ".nvars line invalid!");
    assert_eq!(error_of(&XOR_LIKE.replace(".ids 0 1\n", "")), ".ids missing!");
    assert_eq!(error_of(&XOR_LIKE.replace(".permids 0 1\n", "")), ".permids missing!");
    assert_eq!(error_of(&XOR_LIKE.replace(".ids 0 1", ".ids 0")), ".ids line invalid!");
    assert_eq!(error_of(&XOR_LIKE.replace(".permids 0 1", ".permids 0")), ".permids line invalid!");
    assert_eq!(error_of(&XOR_LIKE.replace(".rootids 3\n", "")), ".rootids missing!");
    assert_eq!(error_of(&XOR_LIKE.replace(".rootids 3", ".rootids")), ".rootids line invalid!");
    assert_eq!(error_of(&XOR_LIKE.replace(".nnodes 3", ".nnodes x")), "invalid digit found in string");
    assert_eq!(error_of(&XOR_LIKE.replace(".nodes\n1 T 1 0 0\n2 1 1 1 -1\n3 0 0 2 -1\n.end\n", ".nodes\n")), "Node list missing in dddmp file!");
    assert_eq!(error_of(&XOR_LIKE.replace("2 1 1 1 -1", "2 1 1 1")), "Node list contains unexpected line!");
    assert_eq!(error_of(&XOR_LIKE.replace(".nnodes 3", ".nnodes 4")), "Node list ended unexpectedly!");
    assert_eq!(error_of(&XOR_LIKE.replace("1 T 1 0 0", "1 5 1 0 0")), "Terminal node missing!");
    assert_eq!(error_of(&XOR_LIKE.replace(".rootids 3", ".rootids 7")), "Root node not existant in BDD!");
    let add = ".add\n.nnodes 1\n.nvars 0\n.nsuppvars 0\n.ids\n.permids\n.rootids 1\n.nodes\n1 T 2 0 0\n.end";
    assert_eq!(error_of(add), "Terminal Node not supported");
}

use obddimal::bdd_manager::DDManager;

#[test]
fn dddmp_load_follows_complemented_edges() {
    let (man, roots) = DDManager::load_from_dddmp_file(&lines(XOR_LIKE)).unwrap();
    assert_eq!(man.var2level, vec![3, 1, 2]);
    assert_eq!(roots.len(), 1);
    // x1 and x2
    assert!(man.verify(roots[0], &[1, 2]));
    assert!(!man.verify(roots[0], &[1]));
    assert!(!man.verify(roots[0], &[2]));
    assert_eq!(man.sat_count(roots[0]).to_u128(), Some(1));
}

#[test]
fn dddmp_load_negated_root() {
    let text = XOR_LIKE.replace(".rootids 3", ".rootids -3");
    let (man, roots) = DDManager::load_from_dddmp_file(&lines(&text)).unwrap();
    assert!(!man.verify(roots[0], &[1, 2]));
    assert!(man.verify(roots[0], &[1]));
    assert_eq!(man.sat_count(roots[0]).to_u128(), Some(3));
}

#[test]
fn dddmp_load_both_polarities_of_a_child() {
    // node 4: x1 ? x2 : not x2
    let text = XOR_LIKE
        .replace(".nnodes 3", ".nnodes 4")
        .replace(".rootids 3", ".rootids 4 3")
        .replace("3 0 0 2 -1\n", "3 0 0 2 -1\n4 0 0 2 -2\n");
    let (man, roots) = DDManager::load_from_dddmp_file(&lines(&text)).unwrap();
    assert_eq!(roots.len(), 2);
    assert!(man.verify(roots[0], &[1, 2]));
    assert!(man.verify(roots[0], &[]));
    assert!(!man.verify(roots[0], &[1]));
    assert!(!man.verify(roots[0], &[2]));
    assert_eq!(man.sat_count(roots[0]).to_u128(), Some(2));
    assert_eq!(man.sat_count(roots[1]).to_u128(), Some(1));
}

#[test]
fn dddmp_load_without_complemented_edges() {
    let text = ".add
.nnodes 3
.nvars 1
.nsuppvars 1
.ids 0
.permids 0
.rootids 3
.nodes
1 T 1 0 0
2 T 0 0 0
3 0 0 1 2
.end";
    let (man, roots) = DDManager::load_from_dddmp_file(&lines(text)).unwrap();
    assert!(man.verify(roots[0], &[1]));
    assert!(!man.verify(roots[0], &[]));
    assert_eq!(man.sat_count(roots[0]).to_u128(), Some(1));
}

#[test]
fn dddmp_load_reports_parse_errors() {
    match DDManager::load_from_dddmp_file(&lines(&XOR_LIKE.replace(".nnodes 3\n", ""))) {
        Ok(_) => panic!("expected an error"),
        Err(e) => assert_eq!(e, ".nnodes missing!"),
    }
}

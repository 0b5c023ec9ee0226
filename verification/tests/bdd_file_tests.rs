use obddimal::bdd_file::{loadable, BddFile, StoredBdd};
use obddimal::bdd_manager::DDManager;
use obddimal::bdd_node::NodeID;
use obddimal::graph::NodeStatistics;

fn stored(nodes: &str, roots: Vec<usize>, statistics: Option<Vec<(String, NodeStatistics)>>) -> BddFile {
    BddFile {
        statistics,
        bdd: StoredBdd {
            order: vec![5, 1, 2, 3, 4],
            roots: roots.into_iter().map(NodeID).collect(),
            nodes: nodes.to_string(),
        },
    }
}

/// x1 ? (x2 | x3) : x3 with root 4, and x3 with root 2.
const SIMPLE: &str = "\n4 1 3 2\n3 2 1 2\n2 3 1 0\n1 0 1 1\n0 0 0 0";

fn error_of(file: BddFile) -> String {
    match DDManager::load_from_bdd_file_object_with_statistics(file) {
        Ok(_) => panic!("expected an error"),
        Err(e) => e,
    }
}

#[test]
fn stored_diagram_is_read_with_its_statistics() {
    let statistics = vec![
        ("4".to_string(), NodeStatistics { void: Some(false), count: Some(10) }),
        ("2".to_string(), NodeStatistics { void: Some(false), count: None }),
    ];
    let (man, roots, stats) =
        DDManager::load_from_bdd_file_object_with_statistics(stored(SIMPLE, vec![4, 2], Some(statistics))).unwrap();
    assert_eq!(man.var2level, vec![5, 1, 2, 3, 4]);
    assert_eq!(roots.len(), 2);
    assert_eq!(man.sat_count(roots[0]).to_u128(), Some(10));
    assert_eq!(man.sat_count(roots[1]).to_u128(), Some(8));
    assert!(man.verify(roots[0], &[1, 2]));
    assert!(man.verify(roots[0], &[3]));
    assert!(!man.verify(roots[0], &[1]));
    let stats = stats.unwrap();
    assert_eq!(stats.len(), 2);
    assert_eq!(stats[0], (roots[0], NodeStatistics { void: Some(false), count: Some(10) }));
    assert_eq!(stats[1], (roots[1], NodeStatistics { void: Some(false), count: None }));
}

#[test]
fn stored_diagram_without_statistics() {
    let text = "4 1 3 2\r\n\r\n   \n3 2 1 2\n2 3 1 0\n1 0 1 1\n0 0 0 0\n";
    let (man, roots, stats) =
        DDManager::load_from_bdd_file_object_with_statistics(stored(text, vec![2], None)).unwrap();
    assert!(stats.is_none());
    assert_eq!(man.sat_count(roots[0]).to_u128(), Some(8));
}

#[test]
fn later_lines_replace_earlier_ones() {
    // node 2 is first x3, then x4
    let text = "2 3 1 0\n1 0 1 1\n0 0 0 0\n2 4 0 1";
    let (man, roots, _) = DDManager::load_from_bdd_file_object_with_statistics(stored(text, vec![2], None)).unwrap();
    assert!(man.verify(roots[0], &[]));
    assert!(!man.verify(roots[0], &[4]));
    assert!(man.verify(roots[0], &[3]));
}

#[test]
fn stored_diagram_errors() {
    assert_eq!(error_of(stored("4 1 3\n1 0 1 1\n0 0 0 0", vec![4], None)), "Node list contains unexpected line!");
    assert_eq!(error_of(stored("4 1 x 2\n1 0 1 1\n0 0 0 0", vec![4], None)), "invalid digit found in string");
    assert_eq!(error_of(stored("5 1 7 7\n1 0 1 1\n0 0 0 0", vec![5], None)), "Invalid terminal node!");
    assert_eq!(error_of(stored(SIMPLE, vec![9], None)), "Root node not existant in BDD!");
    assert_eq!(error_of(stored("2 3 1 0\n1 0 1 1", vec![2], None)), "Terminal nodes missing!");
    let statistics = vec![("two".to_string(), NodeStatistics { void: None, count: None })];
    assert_eq!(error_of(stored(SIMPLE, vec![4], Some(statistics))), "invalid digit found in string");
}

/// x1 & x2 in a fresh manager: the node of x2 in slot 2, that of x1 in slot 3.
fn conjunction() -> (DDManager, NodeID) {
    let nodes = vec![
        (NodeID(5), obddimal::bdd_node::VarID(1), NodeID(6), NodeID(9)),
        (NodeID(6), obddimal::bdd_node::VarID(2), NodeID(7), NodeID(9)),
        (NodeID(7), obddimal::bdd_node::VarID(0), NodeID(7), NodeID(7)),
        (NodeID(9), obddimal::bdd_node::VarID(0), NodeID(9), NodeID(9)),
    ];
    let (man, roots) = DDManager::new().load_bdd_from_nodelist(&nodes, vec![3, 1, 2], &vec![NodeID(5)], (NodeID(7), NodeID(9)));
    (man, roots[0])
}

#[test]
fn generated_object_lists_every_node() {
    let (man, f) = conjunction();
    assert_eq!(f, NodeID(3));
    let stats = vec![(f, NodeStatistics { void: Some(false), count: Some(1) })];
    let file = man.generate_bdd_file_object(vec![f], Some(stats));
    assert_eq!(file.bdd.order, vec![3, 1, 2]);
    assert_eq!(file.bdd.roots, vec![NodeID(3)]);
    assert_eq!(file.bdd.nodes, "\n0 0 0 0\n1 0 1 1\n2 2 1 0\n3 1 2 0");
    let written = file.statistics.unwrap();
    assert_eq!(written, vec![("3".to_string(), NodeStatistics { void: Some(false), count: Some(1) })]);
}

#[test]
fn written_diagram_reads_back_with_its_functions() {
    let (man, f) = conjunction();
    let stats = vec![(f, NodeStatistics { void: Some(false), count: Some(1) })];
    let file = man.generate_bdd_file_object(vec![f], Some(stats));
    let (back, roots, stats) = DDManager::load_from_bdd_file_object_with_statistics(file).unwrap();
    assert_eq!(back.var2level, man.var2level);
    assert_eq!(back.sat_count(roots[0]).to_u128(), man.sat_count(f).to_u128());
    assert!(back.verify(roots[0], &[1, 2]));
    assert!(!back.verify(roots[0], &[1]));
    assert_eq!(stats.unwrap(), vec![(roots[0], NodeStatistics { void: Some(false), count: Some(1) })]);
    // a larger diagram written and read back keeps its model count
    let (big, big_roots, _) = DDManager::load_from_bdd_file_object_with_statistics(stored(SIMPLE, vec![4, 2], None)).unwrap();
    let again = big.generate_bdd_file_object(vec![big_roots[0], big_roots[1]], None);
    let (back2, r2, _) = DDManager::load_from_bdd_file_object_with_statistics(again).unwrap();
    assert_eq!(back2.sat_count(r2[0]).to_u128(), Some(10));
    assert_eq!(back2.sat_count(r2[1]).to_u128(), Some(8));
}

#[test]
fn graphviz_of_a_conjunction() {
    let (man, f) = conjunction();
    let expected = [
        "digraph G {\n",
        "newrank=true;\n",
        "\"1\" [shape = \"box\"];\n",
        "\"0\" [shape = \"box\"];\n",
        "subgraph cluster_1 {\nrank=same;\n",
        "\"3\" [label=\"Var:1\\n3\"];\n",
        "}\n\n",
        "subgraph cluster_2 {\nrank=same;\n",
        "\"2\" [label=\"Var:2\\n2\"];\n",
        "}\n\n",
        "\"3\" -> \"0\" [style = \"dotted\"];\n",
        "\"3\" -> \"2\";\n",
        "\"2\" -> \"0\" [style = \"dotted\"];\n",
        "\"2\" -> \"1\";\n",
        "}\n",
    ]
    .concat();
    assert_eq!(man.graphviz(f), expected);
}

#[test]
fn graphviz_of_a_terminal() {
    let (man, _) = conjunction();
    let expected = "digraph G {\nnewrank=true;\n\"1\" [shape = \"box\"];\n\"0\" [shape = \"box\"];\n}\n";
    assert_eq!(man.graphviz(NodeID(1)), expected);
}

#[test]
fn loadable_accepts_a_fitting_diagram() {
    assert!(loadable(&stored(SIMPLE, vec![4, 2], None)));
    let statistics = vec![("4".to_string(), NodeStatistics { void: None, count: Some(1) })];
    assert!(loadable(&stored(SIMPLE, vec![4], Some(statistics))));
    // a key that is no number is the loader's own error, not a misfit
    let statistics = vec![("x".to_string(), NodeStatistics { void: None, count: Some(1) })];
    assert!(loadable(&stored(SIMPLE, vec![4], Some(statistics))));
    // a text the loader refuses is left to the loader
    assert!(loadable(&stored("\n4 1 3 2", vec![4], None)));
}

#[test]
fn loadable_refuses_what_does_not_fit() {
    // a level twice in the order
    let mut f = stored(SIMPLE, vec![4], None);
    f.bdd.order = vec![5, 1, 2, 3, 3];
    assert!(!loadable(&f));
    // a child above its parent
    let upside = "\n4 1 3 2\n3 2 1 2\n2 3 3 0\n1 0 1 1\n0 0 0 0";
    assert!(!loadable(&stored(upside, vec![4], None)));
    // a child that is not in the list
    let dangling = "\n4 1 7 2\n2 3 1 0\n1 0 1 1\n0 0 0 0";
    assert!(!loadable(&stored(dangling, vec![4], None)));
    // statistics of a node that is not in the list
    let statistics = vec![("9".to_string(), NodeStatistics { void: None, count: Some(1) })];
    assert!(!loadable(&stored(SIMPLE, vec![4], Some(statistics))));
}

use obddimal::dvo::{median, merge_ranges, Options, DVOScheduleEnum, SiftingAtThreshold, SwapContext, ThresholdMethod, HotspotMethod, EqualSplitMethod, AreaSelectionEnum};
use obddimal::bdd_node::{NodeID, VarID};
use obddimal::bdd_manager::DDManager;
use obddimal::area::split_ranges_by_node_count;

#[test]
fn merge_ranges_test() {
    let ranges = vec![(0, 1), (2, 3), (4, 5), (6, 7), (8, 9)];
    let result = merge_ranges(&ranges);
    assert_eq!(result, vec![(0, 9)]);

    let ranges = vec![(0, 1), (8, 9), (2, 3), (6, 7)];
    let result = merge_ranges(&ranges);
    assert_eq!(result, vec![(0, 3), (6, 9)]);

    let ranges = vec![(0, 3), (8, 9), (2, 3), (6, 10)];
    let result = merge_ranges(&ranges);
    assert_eq!(result, vec![(0, 3), (6, 10)]);
}

#[test]
fn merge_ranges_keeps_separate_areas_apart() {
    assert_eq!(merge_ranges(&vec![(5, 6), (1, 2)]), vec![(1, 2), (5, 6)]);
    // a range inside another leaves it as it is
    assert_eq!(merge_ranges(&vec![(1, 10), (3, 4)]), vec![(1, 10)]);
    assert_eq!(merge_ranges(&vec![]), vec![(0, 0)]);
}

#[test]
fn median_of_odd_and_even_lists() {
    assert_eq!(median(&[5, 1, 3]), 3);
    assert_eq!(median(&[4, 1, 3, 2]), 3);
    assert_eq!(median(&[7]), 7);
    assert_eq!(median(&[2, 2, 1, 2]), 2);
}

#[test]
fn options_builders() {
    let o = Options::default();
    assert!(!o.progressbars);
    assert!(matches!(o.dvo, DVOScheduleEnum::NoDVOSchedule(_)));
    let o = o.with_progressbars().with_dvo(DVOScheduleEnum::SiftingAtThreshold(SiftingAtThreshold::new(5)));
    assert!(o.progressbars);
    match o.dvo {
        DVOScheduleEnum::SiftingAtThreshold(s) => assert_eq!(s.underlying.active_nodes_threshold, 5),
        _ => panic!("schedule not kept"),
    }
}

#[test]
fn swap_context_tracks_levels() {
    let ctx = SwapContext { all_swaps_in_result: vec![(VarID(1), VarID(2))] };
    let v2l = vec![4, 1, 2, 3];
    assert_eq!(ctx.permute_swaps(&v2l), vec![4, 2, 1, 3]);
    assert_eq!(ctx.var_at_level(1, &v2l), Some(VarID(2)));
    assert_eq!(ctx.var_at_level_post_calc(1, &v2l), Some(VarID(1)));
    assert_eq!(ctx.var2level(&v2l, 1), 2);
    assert_eq!(ctx.get_swaps_in_result(), vec![(VarID(1), VarID(2))]);
    assert_eq!(ctx.var_at_level(7, &v2l), None);
    assert_eq!(SwapContext::new().get_swaps_in_result(), vec![]);
}

/// (x1 & x3) | (x2 & x4) in the order 1, 2, 3, 4: one node on level 1, two on levels 2 and 3,
/// one on level 4 and the two terminals on level 5.
fn sample_manager() -> DDManager {
    let nodes = vec![
        (NodeID(10), VarID(1), NodeID(11), NodeID(12)),
        (NodeID(11), VarID(2), NodeID(13), NodeID(14)),
        (NodeID(12), VarID(2), NodeID(15), NodeID(2)),
        (NodeID(13), VarID(3), NodeID(3), NodeID(15)),
        (NodeID(14), VarID(3), NodeID(3), NodeID(2)),
        (NodeID(15), VarID(4), NodeID(3), NodeID(2)),
        (NodeID(3), VarID(0), NodeID(3), NodeID(3)),
        (NodeID(2), VarID(0), NodeID(2), NodeID(2)),
    ];
    let (man, roots) =
        DDManager::new().load_bdd_from_nodelist(&nodes, vec![5, 1, 2, 3, 4], &vec![NodeID(10)], (NodeID(3), NodeID(2)));
    assert_eq!(man.count_active(roots[0]), 8);
    man
}

#[test]
fn node_counts_per_level() {
    let man = sample_manager();
    assert_eq!(man.calculate_node_count(), vec![0, 1, 2, 2, 1, 2]);
}

#[test]
fn connection_distances_per_level() {
    let man = sample_manager();
    // edges into terminals (and into nodes of variable 1) count nothing
    assert_eq!(man.calculate_connection_distance(), vec![0, 2, 4, 1, 0, 0]);
}

#[test]
fn threshold_method_selects_levels_above_the_median() {
    let man = sample_manager();
    let method = ThresholdMethod::new();
    assert_eq!(method.select_areas(&man, (0, 6)), vec![(1, 2)]);
    let chosen = AreaSelectionEnum::ThresholdMethod(ThresholdMethod::new());
    assert_eq!(chosen.select_areas(&man, (0, 6)), vec![(1, 2)]);
}

#[test]
fn threshold_method_for_one_distribution() {
    let method = ThresholdMethod::new();
    // median 1; levels 2, 3 and 7 lie above it, 7 is more than two after 3
    let areas = method.select_areas_for((0, 10), vec![0, 1, 5, 7, 0, 0, 0, 9, 1, 0]);
    assert_eq!(areas, vec![(2, 3), (7, 7)]);
    // nothing above the median: the empty range
    assert_eq!(method.select_areas_for((0, 4), vec![1, 1, 1, 1]), vec![(0, 0)]);
}

#[test]
fn hotspot_method_selects_local_maxima() {
    let man = sample_manager();
    let method = HotspotMethod { surrounding_area: 1 };
    assert_eq!(method.select_areas(&man, (0, 6)), vec![(1, 3)]);
    let chosen = AreaSelectionEnum::HotspotMethod(HotspotMethod { surrounding_area: 1 });
    assert_eq!(chosen.select_areas(&man, (0, 6)), vec![(1, 3)]);
}

#[test]
fn hotspot_method_for_one_distribution() {
    let method = HotspotMethod { surrounding_area: 0 };
    // maxima at 2 and 5
    assert_eq!(method.select_areas_for((0, 8), vec![0, 1, 4, 2, 2, 6, 1, 0]), vec![(2, 2), (5, 5)]);
    let method = HotspotMethod { surrounding_area: 1 };
    assert_eq!(method.select_areas_for((0, 8), vec![0, 1, 4, 2, 2, 6, 1, 0]), vec![(1, 6)]);
}

#[test]
fn equal_split_method_cuts_by_node_count() {
    let man = sample_manager();
    let method = EqualSplitMethod::new(2);
    // 8 nodes over 2 splits: levels 1 to 4 hold 6 nodes, cut into slices of 3
    assert_eq!(method.select_areas(&man, (0, 6)), vec![(1, 2), (3, 4)]);
    let chosen = AreaSelectionEnum::EqualSplitMethod(EqualSplitMethod::new(2));
    assert_eq!(chosen.select_areas(&man, (0, 6)), vec![(1, 2), (3, 4)]);
}

#[test]
fn split_ranges_keeps_small_and_drops_tiny_ranges() {
    let counts = vec![1, 2, 3, 4, 5, 6];
    // without a size the ranges stay
    assert_eq!(split_ranges_by_node_count(&vec![(0, 1), (2, 5)], None, &counts), vec![(0, 1), (2, 5)]);
    // (0, 1) is too small; (2, 5) holds 18 nodes, within 20
    assert_eq!(split_ranges_by_node_count(&vec![(0, 1), (2, 5)], Some(20), &counts), vec![(2, 5)]);
    // 18 nodes for areas of 7: 3 pieces of 6 nodes
    assert_eq!(split_ranges_by_node_count(&vec![(2, 5)], Some(7), &counts), vec![(2, 3), (4, 5)]);
    // areas of no nodes: each level on its own
    assert_eq!(split_ranges_by_node_count(&vec![(2, 5)], Some(0), &counts), vec![(2, 2), (3, 3), (4, 4), (5, 5)]);
}

#[test]
fn swap_context_finds_each_variable_on_its_level() {
    let ctx = SwapContext { all_swaps_in_result: vec![(VarID(1), VarID(2)), (VarID(2), VarID(3)), (VarID(1), VarID(3))] };
    let v2l = vec![4usize, 1, 2, 3];
    for var in 0..v2l.len() {
        let level = ctx.var2level(&v2l, var);
        assert_eq!(ctx.var_at_level(level, &v2l), Some(VarID(var)));
    }
}

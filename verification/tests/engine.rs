use netcrit::analyses::criticality::loop_condition::CritLoopCondition;
use netcrit::analyses::criticality::loop_condition::MaxLoopCondition;
use netcrit::analyses::criticality::loop_condition::run_to_exhaustion;
use netcrit::analyses::criticality::vis_gen::RandomGen;
use netcrit::analyses::criticality::vis_gen::VisGen;
use netcrit::analyses::criticality::vis_gen::visibility_flag;
use netcrit::analyses::criticality::single_sample_data;
use netcrit::analyses::criticality::Criticality;
use netcrit::analyses::criticality::GraphCritData;
use netcrit::analyses::criticality::NodeCritData;
use netcrit::network::Graph;
use netcrit::node_map::IdSet;
use netcrit::node_map::NodeValueMap;
use netcrit::roll_up::MAX_OPERABILITY;
use netcrit::roll_up::MIN_OPERABILITY;
use netcrit::roll_up::OrRule;
use netcrit::roll_up::RollUp;
use netcrit::util::split_range;
use rand::SeedableRng;

fn fresh_gen(ids: IdSet, off_chances: NodeValueMap<u64>) -> RandomGen {
    RandomGen { rng: rand::rngs::StdRng::from_entropy(), ids, off_chances }
}

fn id_set(ids: &[u32]) -> IdSet {
    let mut s = IdSet::new();
    for id in ids {
        s.insert(*id);
    }
    s
}

#[test]
fn split_range_partitions_evenly() {
    let out = split_range(0, 9, 3);
    assert_eq!(out, vec![(0, 3), (3, 6), (6, 9)]);
}

#[test]
fn split_range_last_piece_absorbs_remainder() {
    let out = split_range(0, 10, 3);
    assert_eq!(out, vec![(0, 3), (3, 6), (6, 10)]);
}

#[test]
fn split_range_respects_nonzero_start() {
    let out = split_range(5, 10, 2);
    assert_eq!(out, vec![(5, 7), (7, 10)]);
    // contiguous, gap-free, covering [start, max]
    assert_eq!(out[0].0, 5);
    assert_eq!(out[0].1, out[1].0);
    assert_eq!(out[1].1, 10);
}

#[test]
fn max_loop_condition_counts_down() {
    // stop() returns false exactly `max` times before returning true
    let mut c = MaxLoopCondition { max: 5, index: 0 };
    let mut falses: u32 = 0;
    while !c.stop() {
        falses += 1;
        assert!(falses <= 5);
    }
    assert_eq!(falses, 5);
    assert!(c.stop());
}

#[test]
fn run_to_exhaustion_counts_the_budget() {
    let mut c = MaxLoopCondition { max: 7, index: 2 };
    assert_eq!(run_to_exhaustion(&mut c), 5);
    assert_eq!(run_to_exhaustion(&mut c), 0);
}

#[test]
fn split_to_threads_budgets_sum_to_whole() {
    let c = MaxLoopCondition { max: 10, index: 0 };
    let pieces = c.split_to_threads(3);
    assert_eq!(pieces.len(), 3);
    let total: u64 = pieces.iter().map(|p| p.max - p.index).sum();
    assert_eq!(total, 10);
}

#[test]
fn or_rule_leaf_is_fully_operable() {
    let rule = OrRule {};
    let children: Vec<u32> = vec![];
    let mut vis = NodeValueMap::<u8>::new();
    vis.insert(7, 0); // even sampled not visible
    let values = NodeValueMap::<u64>::new();
    assert_eq!(rule.get_value(7, &children, &vis, &values), MAX_OPERABILITY);
}

#[test]
fn or_rule_invisible_node_has_no_operability() {
    let rule = OrRule {};
    let children: Vec<u32> = vec![1];
    let mut vis = NodeValueMap::<u8>::new();
    vis.insert(7, 0);
    let mut values = NodeValueMap::<u64>::new();
    values.insert(1, MAX_OPERABILITY);
    assert_eq!(rule.get_value(7, &children, &vis, &values), MIN_OPERABILITY);
}

#[test]
fn or_rule_combines_by_maximum() {
    // 0.2, 0.7, 0.4 as fixed-point values: the maximum 0.7 wins
    let rule = OrRule {};
    let children: Vec<u32> = vec![1, 2, 3];
    let vis = NodeValueMap::<u8>::new();
    let mut values = NodeValueMap::<u64>::new();
    values.insert(1, 200);
    values.insert(2, 700);
    values.insert(3, 400);
    assert_eq!(rule.get_value(7, &children, &vis, &values), 700);
    assert_eq!(rule.compute_val(7, &children, &values), 700);
}

#[test]
fn or_rule_missing_child_short_circuits() {
    let rule = OrRule {};
    let children: Vec<u32> = vec![1, 2];
    let mut values = NodeValueMap::<u64>::new();
    values.insert(1, 200);
    assert_eq!(rule.compute_val(7, &children, &values), MAX_OPERABILITY);
}

#[test]
fn visibility_flag_thresholds() {
    // the draw reaching the off chance means not visible
    assert_eq!(visibility_flag(0, 0), 0);
    assert_eq!(visibility_flag(500, 500), 0);
    assert_eq!(visibility_flag(499, 500), 1);
    assert_eq!(visibility_flag(999, 1000), 1);
}

#[test]
fn random_gen_samples_every_id_with_a_flag() {
    let mut gen = fresh_gen(id_set(&[1, 2, 3]), NodeValueMap::new());
    for _ in 0..10 {
        let sample = gen.next_states();
        for id in [1u32, 2, 3] {
            let flag = sample.get(id).unwrap();
            assert!(flag == 0 || flag == 1);
        }
        assert!(sample.get(4).is_none());
    }
}

#[test]
fn random_gen_split_keeps_ids() {
    let gen = fresh_gen(id_set(&[1, 2]), NodeValueMap::new());
    let mut copies = gen.split_to_threads(3);
    assert_eq!(copies.len(), 3);
    for copy in copies.iter_mut() {
        let sample = copy.next_states();
        assert!(sample.get(1).is_some());
        assert!(sample.get(2).is_some());
    }
}

#[test]
fn node_crit_data_adds_fieldwise() {
    let mut a = NodeCritData { sum_end_on: 10, sum_end_off: 3 };
    a.add(&NodeCritData { sum_end_on: 5, sum_end_off: 7 });
    assert_eq!(a, NodeCritData { sum_end_on: 15, sum_end_off: 10 });
}

fn aggregate(rows: u64, end: u64, per_node: &[(u32, u64, u64)]) -> GraphCritData {
    let mut node_data = NodeValueMap::new();
    for (id, on, off) in per_node {
        node_data.insert(*id, NodeCritData { sum_end_on: *on, sum_end_off: *off });
    }
    GraphCritData { row_count: rows, end_op_sum: end, node_data }
}

#[test]
fn aggregate_merge_adds_fieldwise() {
    let mut a = aggregate(2, 1500, &[(20, 1000, 0), (21, 0, 500)]);
    let b = aggregate(3, 2000, &[(20, 300, 700), (21, 1000, 1000)]);
    a.add(&b);
    assert_eq!(a.row_count, 5);
    assert_eq!(a.end_op_sum, 3500);
    assert_eq!(a.node_data.get(20).unwrap(), NodeCritData { sum_end_on: 1300, sum_end_off: 700 });
    assert_eq!(a.node_data.get(21).unwrap(), NodeCritData { sum_end_on: 1000, sum_end_off: 1500 });
}

#[test]
fn aggregate_merge_is_commutative_on_values() {
    let mut ab = aggregate(1, 700, &[(20, 700, 0)]);
    ab.add(&aggregate(2, 900, &[(20, 100, 800)]));
    let mut ba = aggregate(2, 900, &[(20, 100, 800)]);
    ba.add(&aggregate(1, 700, &[(20, 700, 0)]));
    assert_eq!(ab.row_count, ba.row_count);
    assert_eq!(ab.end_op_sum, ba.end_op_sum);
    assert_eq!(ab.node_data.get(20).unwrap(), ba.node_data.get(20).unwrap());
}

#[test]
fn aggregate_merge_is_associative_on_values() {
    let a = aggregate(1, 100, &[(20, 100, 0)]);
    let b = aggregate(2, 200, &[(20, 0, 200)]);
    let c = aggregate(3, 300, &[(20, 300, 0)]);

    let mut left = aggregate(1, 100, &[(20, 100, 0)]);
    left.add(&b);
    left.add(&c);

    let mut bc = aggregate(2, 200, &[(20, 0, 200)]);
    bc.add(&c);
    let mut right = a;
    right.add(&bc);

    assert_eq!(left.row_count, right.row_count);
    assert_eq!(left.end_op_sum, right.end_op_sum);
    assert_eq!(left.node_data.get(20).unwrap(), right.node_data.get(20).unwrap());
}

#[test]
fn single_sample_credits_one_side_per_node() {
    let mut result = NodeValueMap::<u64>::new();
    result.insert(10, 1000);
    result.insert(20, 700);
    result.insert(21, 400);
    result.insert(30, 900);
    let mut sample = NodeValueMap::<u8>::new();
    sample.insert(20, 1);
    sample.insert(21, 0);
    let dynamic = id_set(&[20, 21]);
    let d = single_sample_data(&result, &sample, &dynamic, 30);
    assert_eq!(d.row_count, 1);
    assert_eq!(d.end_op_sum, 900);
    assert_eq!(d.node_data.get(20).unwrap(), NodeCritData { sum_end_on: 700, sum_end_off: 0 });
    assert_eq!(d.node_data.get(21).unwrap(), NodeCritData { sum_end_on: 0, sum_end_off: 400 });
    assert!(d.node_data.get(10).is_none());
}

#[test]
fn single_sample_treats_absent_ids_as_visible() {
    let mut result = NodeValueMap::<u64>::new();
    result.insert(20, 300);
    result.insert(30, 300);
    let sample = NodeValueMap::<u8>::new();
    let dynamic = id_set(&[20]);
    let d = single_sample_data(&result, &sample, &dynamic, 30);
    assert_eq!(d.node_data.get(20).unwrap(), NodeCritData { sum_end_on: 300, sum_end_off: 0 });
}

fn chain_criticality(
    max_iterations: u64,
    threads: u8,
    off_chances: NodeValueMap<u64>,
) -> Criticality<RandomGen, MaxLoopCondition, OrRule> {
    // leaf(10) -> mid(20) -> top(30), with mid the only dynamic node
    let mut graph = Graph::new();
    graph.add_node("leaf".to_string(), 10);
    graph.add_node("mid".to_string(), 20);
    graph.add_node("top".to_string(), 30);
    graph.add_edge(10, 20);
    graph.add_edge(20, 30);
    let l_map = graph.links_map();
    let start_id = Graph::get_start_id(&l_map).unwrap();
    let end_id = Graph::get_end_id(&l_map).unwrap();
    graph.add_static_node(start_id);
    graph.add_static_node(end_id);
    let dynamic_ids = id_set(&[20]);
    Criticality {
        threads,
        graph,
        dynamic_ids: dynamic_ids.duplicate(),
        vis_gen: fresh_gen(dynamic_ids, off_chances),
        loop_condition: MaxLoopCondition { max: max_iterations, index: 0 },
        roll_up_rule: OrRule {},
        l_map,
        start_id,
        end_id,
    }
}

#[test]
fn sampling_loop_accepts_at_most_the_budget() {
    // a budget of 5 iterations never yields more than 5 accepted samples
    for _ in 0..5 {
        let crit = chain_criticality(5, 1, NodeValueMap::new());
        let results = crit.analyze();
        assert_eq!(results.len(), 1);
        assert!(results[0].row_count <= 5);
        // a positive budget always admits the first, never-duplicate sample
        assert!(results[0].row_count >= 1);
    }
}

#[test]
fn analyze_returns_one_aggregate_per_worker() {
    let crit = chain_criticality(9, 3, NodeValueMap::new());
    let results = crit.analyze();
    assert_eq!(results.len(), 3);
    let total: u64 = results.iter().map(|r| r.row_count).sum();
    assert!(total <= 9);
    assert!(total >= 1);
    for r in &results {
        assert!(r.end_op_sum <= r.row_count * MAX_OPERABILITY);
        assert!(r.node_data.get(20).is_some());
    }
}

#[test]
fn always_visible_chain_keeps_top_fully_operable() {
    // an off chance of the full scale means the draw is always below
    // it, so the dynamic node is visible in every sample
    let mut off_chances = NodeValueMap::new();
    off_chances.insert(20, MAX_OPERABILITY);
    let crit = chain_criticality(5, 1, off_chances);
    let results = crit.analyze();
    assert_eq!(results.len(), 1);
    let data = &results[0];
    // every sample is the same, so exactly one is accepted
    assert_eq!(data.row_count, 1);
    assert_eq!(data.end_op_sum, data.row_count * MAX_OPERABILITY);
    let mid = data.node_data.get(20).unwrap();
    assert_eq!(mid.sum_end_on, data.row_count * MAX_OPERABILITY);
    assert_eq!(mid.sum_end_off, 0);
}

#[test]
fn never_visible_chain_zeroes_the_node() {
    // an off chance of zero means the draw always reaches it, so the
    // dynamic node is not visible in any sample
    let mut off_chances = NodeValueMap::new();
    off_chances.insert(20, 0);
    let crit = chain_criticality(5, 1, off_chances);
    let results = crit.analyze();
    let data = &results[0];
    assert_eq!(data.row_count, 1);
    // mid is invisible, so mid's value is 0; top still sees only mid
    // and a missing value short-circuits nothing here: top reads mid's 0
    assert_eq!(data.end_op_sum, 0);
    let mid = data.node_data.get(20).unwrap();
    assert_eq!(mid.sum_end_on, 0);
    assert_eq!(mid.sum_end_off, 0);
}

#[test]
fn roll_up_state_propagates_along_the_chain() {
    let mut graph = Graph::new();
    graph.add_node("leaf".to_string(), 10);
    graph.add_node("mid".to_string(), 20);
    graph.add_node("top".to_string(), 30);
    graph.add_edge(10, 20);
    graph.add_edge(20, 30);
    let l_map = graph.links_map();
    let path = Graph::get_bfs_path(&l_map, 10);

    let rule = OrRule {};
    let mut vis = NodeValueMap::<u8>::new();
    vis.insert(20, 0); // mid sampled not visible
    let state = graph.roll_up_state(&path, &l_map, &rule, &vis);
    assert_eq!(state.get(10).unwrap(), MAX_OPERABILITY);
    assert_eq!(state.get(20).unwrap(), MIN_OPERABILITY);
    assert_eq!(state.get(30).unwrap(), MIN_OPERABILITY);

    let mut vis_on = NodeValueMap::<u8>::new();
    vis_on.insert(20, 1);
    let state_on = graph.roll_up_state(&path, &l_map, &rule, &vis_on);
    assert_eq!(state_on.get(30).unwrap(), MAX_OPERABILITY);
}

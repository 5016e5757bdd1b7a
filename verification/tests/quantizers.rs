use demixer::estimators::cost::CostTracker;
use demixer::history::tree::context::Context;
use demixer::history::tree::direction::Direction;
use demixer::history::tree::node::CostTrackers;
use demixer::history::tree::node_child::NodeIndex;
use demixer::history::window::{InputWindow, WindowIndex};
use demixer::util::quantizers::{OccurrenceCountQuantizer, quantize_cost_trackers, quantize_distance};

#[test]
fn distances_fall_into_decades() {
    assert_eq!(quantize_distance(0), 0);
    assert_eq!(quantize_distance(99), 0);
    assert_eq!(quantize_distance(100), 1);
    assert_eq!(quantize_distance(999), 1);
    assert_eq!(quantize_distance(1_000), 2);
    assert_eq!(quantize_distance(9_999), 2);
    assert_eq!(quantize_distance(10_000), 3);
    assert_eq!(quantize_distance(usize::MAX), 3);
}

fn trackers(stationary: u16, non_stationary: u16) -> CostTrackers {
    CostTrackers::new(CostTracker::new(stationary), CostTracker::new(non_stationary))
}

#[test]
fn cost_trackers_fall_into_ratio_buckets() {
    // the stationary cost against the non-stationary one of 1000
    assert_eq!(quantize_cost_trackers(&trackers(600, 1000)), 0);
    assert_eq!(quantize_cost_trackers(&trackers(800, 1000)), 1);
    assert_eq!(quantize_cost_trackers(&trackers(950, 1000)), 2);
    assert_eq!(quantize_cost_trackers(&trackers(1000, 1000)), 3);
    assert_eq!(quantize_cost_trackers(&trackers(1200, 1000)), 4);
    assert_eq!(quantize_cost_trackers(&trackers(1500, 1000)), 5);
    assert_eq!(quantize_cost_trackers(&trackers(u16::MAX, 0)), 5);
    assert_eq!(quantize_cost_trackers(&trackers(0, u16::MAX)), 0);
}

#[test]
fn occurrence_counts_fall_into_logarithmic_buckets() {
    let buckets: Vec<usize> = [0u16, 1, 2, 3, 4, 5, 6, 7, 8, 12, 16]
        .iter().map(|&c| OccurrenceCountQuantizer::quantize(c)).collect();
    assert_eq!(buckets, vec![0, 1, 2, 3, 4, 4, 5, 5, 6, 7, 8]);
    assert_eq!(OccurrenceCountQuantizer::max_output(), 31);
}

#[test]
fn context_prepared_for_test_moves_back_and_forgets_its_node() {
    let mut window = InputWindow::new(10, 0);
    for _ in 0..6 {
        window.advance_cursor();
    }
    let context = Context {
        suffix_index: WindowIndex::new(5),
        node_index: NodeIndex::new(3),
        incoming_edge_visits_count: 4,
        in_leaf: true,
        direction_from_parent: Some(Direction::Left),
    };
    let prepared = context.prepare_for_test(2, &window);
    assert_eq!(prepared.suffix_index.raw(), 3);
    assert_eq!(prepared.node_index.raw(), 0x7fff_ffff);
    assert_eq!(prepared.incoming_edge_visits_count, 0);
    assert!(prepared.in_leaf);
    assert_eq!(prepared.direction_from_parent, Some(Direction::Left));
}

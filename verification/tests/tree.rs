use demixer::bit::Bit;
use demixer::history::CollectedContextStates;
use demixer::history::tree::TreeHistorySource;
use demixer::history::tree::node::CostTrackers;
use demixer::lut::LookUpTables;
use demixer::history::tree::TreeState;
use demixer::history::window::{InputWindow, WindowIndex};

fn feed(text: &[u8], max_order: usize) -> Vec<usize> {
    let luts = LookUpTables::new();
    let mut source = TreeHistorySource::new(1000, max_order, &luts);
    let mut counts = Vec::new();
    for &byte in text.iter() {
        source.start_new_byte().expect("consistent tree");
        for bit_index in (0..8).rev() {
            let mut states = CollectedContextStates::new(max_order);
            source.gather_history_states(&mut states).expect("consistent tree");
            counts.push(states.items().len());
            let trackers: Vec<CostTrackers> = states.items().iter()
                .filter(|state| state.is_for_node())
                .map(|_| CostTrackers::default_trackers())
                .collect();
            let bit = if (byte >> bit_index) & 1 == 1 { Bit::One } else { Bit::Zero };
            source.process_input_bit(bit, &trackers).expect("consistent tree");
        }
    }
    counts
}

#[test]
fn first_byte_has_no_context() {
    let counts = feed(b"a", 3);
    assert!(counts.iter().all(|&c| c == 0));
}

#[test]
fn repeated_text_finds_longer_contexts() {
    let text = b"abracadabra abracadabra abracadabra";
    let max_order = 4;
    let counts = feed(text, max_order);
    assert!(counts.iter().all(|&c| c <= max_order + 1));
    let last_byte_counts = &counts[counts.len() - 8..];
    assert!(last_byte_counts.iter().all(|&c| c >= 2), "{:?}", last_byte_counts);
}

#[test]
fn tree_keeps_integrity_between_bytes() {
    let luts = LookUpTables::new();
    let max_order = 3;
    let mut source = TreeHistorySource::new(1000, max_order, &luts);
    let text = b"abracadabra abracadabra, cadabra abra; zzzzzzzz";
    for &byte in text.iter() {
        source.start_new_byte().expect("consistent tree");
        assert!(source.check_integrity_on_next_byte());
        for bit_index in (0..8).rev() {
            let mut states = CollectedContextStates::new(max_order);
            source.gather_history_states(&mut states).expect("consistent tree");
            let trackers: Vec<CostTrackers> = states.items().iter()
                .filter(|state| state.is_for_node())
                .map(|_| CostTrackers::default_trackers())
                .collect();
            let bit = if (byte >> bit_index) & 1 == 1 { Bit::One } else { Bit::Zero };
            source.process_input_bit(bit, &trackers).expect("consistent tree");
        }
    }
}

#[test]
fn sliding_window_keeps_integrity() {
    let luts = LookUpTables::new();
    let max_order = 2;
    let mut source = TreeHistorySource::new(16, max_order, &luts);
    let text = b"the quick brown fox jumps over the lazy dog, the quick brown fox";
    for &byte in text.iter() {
        source.start_new_byte().expect("consistent tree");
        assert!(source.check_integrity_on_next_byte());
        for bit_index in (0..8).rev() {
            let mut states = CollectedContextStates::new(max_order);
            source.gather_history_states(&mut states).expect("consistent tree");
            let trackers: Vec<CostTrackers> = states.items().iter()
                .filter(|state| state.is_for_node())
                .map(|_| CostTrackers::default_trackers())
                .collect();
            let bit = if (byte >> bit_index) & 1 == 1 { Bit::One } else { Bit::Zero };
            source.process_input_bit(bit, &trackers).expect("consistent tree");
        }
    }
}

#[test]
fn repeated_byte_slides_through_a_small_window() {
    let luts = LookUpTables::new();
    let max_order = 3;
    let mut source = TreeHistorySource::new(4, max_order, &luts);
    for k in 0..10usize {
        source.start_new_byte().expect("a tree of one repeated byte has no inner node to lose");
        let window_size = if k + 1 < 4 { k + 1 } else { 4 };
        for bit_index in (0..8).rev() {
            let mut states = CollectedContextStates::new(max_order);
            source.gather_history_states(&mut states).expect("consistent tree");
            let expected = if max_order + 1 < window_size - 1 { max_order + 1 } else { window_size - 1 };
            assert_eq!(states.items().len(), expected);
            let bit = if (b'z' >> bit_index) & 1 == 1 { Bit::One } else { Bit::Zero };
            source.process_input_bit(bit, &[]).expect("consistent tree");
        }
    }
}

#[test]
fn removing_the_roots_last_leaf_leaves_a_degenerate_tree() {
    let luts = LookUpTables::new();
    let mut h = TreeHistorySource::new(2, 1, &luts);
    h.start_new_byte().expect("consistent tree");
    for _ in 0..8 {
        h.process_input_bit(Bit::Zero, &[]).expect("consistent tree");
    }
    h.start_new_byte().expect("consistent tree");
    h.process_input_bit(Bit::One, &[]).expect("consistent tree");
    for _ in 0..7 {
        h.process_input_bit(Bit::Zero, &[]).expect("consistent tree");
    }
    assert_eq!(h.tree.tree_state(), TreeState::Proper);
    h.tree.remove_leftmost_suffix(&mut h.active_contexts).expect("consistent tree");
    assert_eq!(h.tree.tree_state(), TreeState::Degenerate);
    assert_eq!(h.tree.nodes().live_nodes_count(), 0);
    assert_eq!(h.active_contexts.count(), 0);
    assert!(h.tree.window.start() == WindowIndex::new(1));
    assert_eq!(h.tree.window.size(), 1);
}

#[test]
fn suffixes_are_visited_oldest_first() {
    let mut w = InputWindow::new(4, 0);
    for _ in 0..6 {
        if w.size() == w.max_size() {
            w.advance_start();
        }
        w.advance_cursor();
    }
    let visits = w.for_each_suffix(|index| index.raw());
    let starts: Vec<usize> = visits.iter().map(|(index, _)| index.raw()).collect();
    let results: Vec<usize> = visits.iter().map(|(_, r)| *r).collect();
    assert_eq!(starts, vec![2, 3, 0, 1]);
    assert_eq!(results, vec![2, 3, 0, 1]);
}

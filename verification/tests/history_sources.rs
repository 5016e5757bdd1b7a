use demixer::bit::Bit;
use demixer::history::CollectedContextStates;
use demixer::history::ContextState;
use demixer::history::fat_map::FatMapHistorySource;
use demixer::history::naive::NaiveHistorySource;
use demixer::history::tree::TreeHistorySource;
use demixer::history::tree::node::CostTrackers;
use demixer::lut::LookUpTables;

fn summary(state: &ContextState) -> (bool, usize, u16) {
    (state.is_for_node(), state.last_occurrence_distance(), state.occurrence_count())
}

fn bit_of(byte: u8, bit_index: usize) -> Bit {
    if (byte >> bit_index) & 1 == 1 { Bit::One } else { Bit::Zero }
}

fn node_trackers(states: &CollectedContextStates) -> Vec<CostTrackers> {
    states.items().iter()
        .filter(|state| state.is_for_node())
        .map(|_| CostTrackers::default_trackers())
        .collect()
}

/// Runs both sources over a text and returns, for every bit, the summaries
/// of the states that each of them gathered.
fn run_both(text: &[u8], max_order: usize)
            -> Vec<(Vec<(bool, usize, u16)>, Vec<(bool, usize, u16)>)> {
    let luts = LookUpTables::new();
    let mut naive = NaiveHistorySource::new(1000, max_order, &luts);
    let mut fat = FatMapHistorySource::new(1000, max_order, &luts);
    let mut result = Vec::new();
    for &byte in text.iter() {
        naive.start_new_byte();
        fat.start_new_byte();
        for bit_index in (0..8).rev() {
            let mut naive_states = CollectedContextStates::new(max_order);
            naive.gather_history_states(&mut naive_states);
            let mut fat_states = CollectedContextStates::new(max_order);
            fat.gather_history_states(&mut fat_states);
            result.push((
                naive_states.items().iter().map(summary).collect(),
                fat_states.items().iter().map(summary).collect(),
            ));
            let bit = bit_of(byte, bit_index);
            naive.process_input_bit(bit, &node_trackers(&naive_states));
            fat.process_input_bit(bit, &node_trackers(&fat_states));
        }
    }
    result
}

#[test]
fn fat_map_agrees_with_naive_scan() {
    let text = b"abracadabra abracadabra, cadabra abra";
    for (naive_states, fat_states) in run_both(text, 4) {
        assert_eq!(naive_states, fat_states);
    }
}

#[test]
fn first_bit_has_no_context() {
    let luts = LookUpTables::new();
    let mut fat = FatMapHistorySource::new(100, 3, &luts);
    fat.start_new_byte();
    let mut states = CollectedContextStates::new(3);
    fat.gather_history_states(&mut states);
    assert_eq!(states.items().len(), 0);
}

fn feed_fat<'a>(fat: &mut FatMapHistorySource<'a>, byte: u8, max_order: usize) {
    fat.start_new_byte();
    for bit_index in (0..8).rev() {
        let mut states = CollectedContextStates::new(max_order);
        fat.gather_history_states(&mut states);
        fat.process_input_bit(bit_of(byte, bit_index), &node_trackers(&states));
    }
}

#[test]
fn repeated_byte_is_an_edge_then_a_node() {
    let luts = LookUpTables::new();
    let mut fat = FatMapHistorySource::new(100, 2, &luts);
    // After one 'a' (0b0110_0001) the empty context of the top bit has seen
    // a zero once, one byte before: an edge at distance 1; the context of
    // one 'a' has not been seen yet.
    feed_fat(&mut fat, b'a', 2);
    fat.start_new_byte();
    let mut states = CollectedContextStates::new(2);
    fat.gather_history_states(&mut states);
    assert_eq!(states.items().len(), 1);
    assert_eq!(summary(&states.items()[0]), (false, 1, 1));

    // A one as the top bit after a zero makes that context a node.
    let luts = LookUpTables::new();
    let mut fat = FatMapHistorySource::new(100, 2, &luts);
    feed_fat(&mut fat, b'a', 2);
    feed_fat(&mut fat, 0x80, 2);
    fat.start_new_byte();
    let mut states = CollectedContextStates::new(2);
    fat.gather_history_states(&mut states);
    assert_eq!(states.items().len(), 1);
    assert!(states.items()[0].is_for_node());
    assert_eq!(states.items()[0].last_occurrence_distance(), 1);
}

#[test]
fn naive_source_counts_repeated_contexts() {
    let text = b"aaaa";
    let results = run_both(text, 1);
    // At the top bit of the last byte the order-0 context was seen three
    // times, each time followed by a zero.
    let (naive_states, _) = &results[3 * 8];
    assert_eq!(naive_states[0], (false, 1, 3));
}

#[test]
fn tree_agrees_with_naive_scan() {
    let luts = LookUpTables::new();
    let max_order = 3;
    let mut naive = NaiveHistorySource::new(1000, max_order, &luts);
    let mut tree = TreeHistorySource::new(1000, max_order, &luts);
    let text = b"abracadabra abracadabra, cadabra abra; aaaaaaaa bbbb";
    for &byte in text.iter() {
        naive.start_new_byte();
        tree.start_new_byte().expect("consistent tree");
        for bit_index in (0..8).rev() {
            let mut naive_states = CollectedContextStates::new(max_order);
            naive.gather_history_states(&mut naive_states);
            let mut tree_states = CollectedContextStates::new(max_order);
            tree.gather_history_states(&mut tree_states).expect("consistent tree");
            let expected: Vec<_> = naive_states.items().iter().map(summary).collect();
            let found: Vec<_> = tree_states.items().iter().map(summary).collect();
            assert_eq!(expected, found);
            let bit = bit_of(byte, bit_index);
            naive.process_input_bit(bit, &node_trackers(&naive_states));
            tree.process_input_bit(bit, &node_trackers(&tree_states)).expect("consistent tree");
        }
    }
}

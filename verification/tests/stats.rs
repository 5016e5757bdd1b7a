use demixer::bit::Bit;
use demixer::entropy::FinalProbability;
use demixer::fixed_point::{FixI64, FixU32};
use demixer::history::{CollectedContextStates, ContextState};
use demixer::lut::LookUpTables;
use demixer::predictor::stats::{PredictionStatistics, PredictionStatisticsType};
use demixer::util::last_bytes::LastBytesCache;

#[test]
fn statistics_count_bits_and_bytes() {
    let luts = LookUpTables::new();
    let mut stats = PredictionStatistics::new(4, &luts);
    let mut last_bytes = LastBytesCache::new();
    let contexts = CollectedContextStates::new(4);
    for byte in [0x41u8, 0x42u8].iter() {
        last_bytes.start_new_byte();
        stats.start_new_byte(&last_bytes);
        for bit_index in (0..8).rev() {
            let bit = if (byte >> bit_index) & 1 == 1 { Bit::One } else { Bit::Zero };
            stats.on_next_bit(bit, &contexts, FinalProbability::new(2048, 12));
            last_bytes.on_next_bit(bit);
        }
    }
    last_bytes.start_new_byte();
    stats.start_new_byte(&last_bytes);
    assert_eq!(stats.total_bytes(), 3);
    assert_eq!(stats.total_contexts_count(), 0);
    assert_eq!(stats.per_symbol_counts()[0x41], 1);
    assert_eq!(stats.per_symbol_counts()[0x42], 1);
    assert_eq!(stats.per_symbol_costs()[0x41].raw(), 0);
    assert_eq!(stats.total_cost().raw(), 0);
    assert_eq!(stats.per_order_counts().iter().sum::<usize>(), 0);
    assert_eq!(stats.per_order_occurrences().len(), 25);
    assert_ne!(PredictionStatisticsType::TotalCostUsingLuts, PredictionStatisticsType::AverageContextLength);
}

#[test]
fn statistics_sort_costs_by_class_of_contexts() {
    let luts = LookUpTables::new();
    let mut stats = PredictionStatistics::new(4, &luts);
    let mut last_bytes = LastBytesCache::new();
    let mut contexts = CollectedContextStates::new(4);
    contexts.push(ContextState::ForEdge { last_occurrence_distance: 5, occurrence_count: 3, repeated_bit: Bit::One });
    contexts.push(ContextState::ForEdge { last_occurrence_distance: 9, occurrence_count: 7, repeated_bit: Bit::Zero });
    last_bytes.start_new_byte();
    stats.start_new_byte(&last_bytes);
    stats.on_next_bit(Bit::Zero, &contexts, FinalProbability::new(1024, 12));
    stats.on_next_bit(Bit::One, &contexts, FinalProbability::new(1024, 12));
    // one order above zero, two edge contexts: class 1 * 5 + 2
    assert_eq!(stats.per_order_counts()[7], 2);
    assert_eq!(stats.per_order_occurrences()[7], 14);
    assert_eq!(stats.total_contexts_count(), 4);
    // a zero at 1/4 costs two bits, a one at 3/4 about 0.415 bits
    assert_eq!(stats.per_order_costs()[7].raw(), stats.total_cost().raw());
    assert!(stats.total_cost().raw() > 2 * 2048 + 800 && stats.total_cost().raw() < 2 * 2048 + 900);
}

#[test]
fn statistics_totals_add_up() {
    let luts = LookUpTables::new();
    let mut stats = PredictionStatistics::new(4, &luts);
    let mut last_bytes = LastBytesCache::new();
    let mut short = CollectedContextStates::new(4);
    short.push(ContextState::ForEdge { last_occurrence_distance: 1, occurrence_count: 2, repeated_bit: Bit::One });
    let mut long = CollectedContextStates::new(4);
    long.push(ContextState::ForEdge { last_occurrence_distance: 1, occurrence_count: 2, repeated_bit: Bit::One });
    long.push(ContextState::ForEdge { last_occurrence_distance: 4, occurrence_count: 1, repeated_bit: Bit::Zero });
    long.push(ContextState::ForEdge { last_occurrence_distance: 4, occurrence_count: 1, repeated_bit: Bit::Zero });
    for (n, byte) in b"demixer".iter().enumerate() {
        last_bytes.start_new_byte();
        stats.start_new_byte(&last_bytes);
        for bit_index in (0..8).rev() {
            let bit = if (byte >> bit_index) & 1 == 1 { Bit::One } else { Bit::Zero };
            let contexts = if (n + bit_index) % 2 == 0 { &short } else { &long };
            let probability = FinalProbability::new(500 + 400 * bit_index as u32, 12);
            stats.on_next_bit(bit, contexts, probability);
            last_bytes.on_next_bit(bit);
        }
    }
    last_bytes.start_new_byte();
    stats.start_new_byte(&last_bytes);
    let by_class: i64 = stats.per_order_costs().iter().map(|c| c.raw()).sum();
    let by_value: i64 = stats.per_symbol_costs().iter().map(|c| c.raw()).sum();
    assert_eq!(by_class, stats.total_cost().raw());
    assert_eq!(by_value, stats.total_cost().raw());
    assert_eq!(stats.per_symbol_counts().iter().sum::<usize>() as u64, stats.total_bytes() - 1);
    assert_eq!(stats.per_symbol_counts()[b'e' as usize], 2);
}

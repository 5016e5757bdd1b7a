use demixer::bit::Bit;
use demixer::estimators::cost::CostTracker;
use demixer::estimators::decelerating::DeceleratingEstimator;
use demixer::fixed_point::{FixI32, FixU32};
use demixer::fixed_point::types::{FractOnlyU32, StretchedProbD};
use demixer::history::state::bits_runs::BitsRunsTracker;
use demixer::history::state::recent_bits::RecentBitsStateFactory;
use demixer::history::tree::node::CostTrackers;
use demixer::history::{CollectedContextStates, ContextState};
use demixer::lut::LookUpTables;
use demixer::mixing::mixer::{FixedSizeMixer, Mixer, MixerData, Mixer3, Mixer4};
use demixer::predictor::chain::ContextsChainPredictionMixer;
use demixer::predictor::kits::MixersWithIndexer;
use demixer::predictor::post_process::apm_factor_indexes;
use demixer::predictor::single::SingleContextPredictor;
use demixer::predictor::{Predictor, MAX_ORDER};
use demixer::util::indexer::{Indexer, Indexer3};

fn node_state(distance: usize) -> ContextState {
    ContextState::ForNode {
        last_occurrence_distance: distance,
        probability_estimator: DeceleratingEstimator::new(),
        bit_history: RecentBitsStateFactory::new().for_bit_run(Bit::Zero, 3),
        cost_trackers: CostTrackers::default_trackers(),
    }
}

fn even() -> (FractOnlyU32, StretchedProbD) {
    (FractOnlyU32::half(), StretchedProbD::zero())
}

fn marked_trackers(k: u16) -> CostTrackers {
    CostTrackers::new(CostTracker::new(100 + k), CostTracker::new(200 + k))
}

#[test]
fn edge_and_node_mixers_start_as_the_chain_builds_them() {
    assert_eq!(SingleContextPredictor::edge_mixer_extra_dimensions(), vec![4, 2]);
    assert_eq!(SingleContextPredictor::node_mixer_extra_dimensions(), vec![6, 4, 32]);
    let edge = SingleContextPredictor::new_edge_mixer();
    let node = SingleContextPredictor::new_node_mixer();
    assert_eq!(edge.size(), 4);
    assert_eq!(node.size(), 3);
    assert_eq!(Mixer4::SIZE, 4);
    assert_eq!(Mixer3::SIZE, 3);
}

#[test]
fn single_context_predictor_update_gives_back_node_trackers() {
    let luts = LookUpTables::new();
    let mut predictor = SingleContextPredictor::new(&luts);
    let mut node_kit = MixersWithIndexer::new(|| Mixer3::new(15, false), Indexer3::new(vec![6, 4, 32]));
    let state = node_state(5);
    predictor.predict(&mut node_kit, &state, b'a', even(), even(), BitsRunsTracker::new(), &luts);
    let given = marked_trackers(7);
    let r = predictor.update(&mut node_kit, &state, Bit::One, given, &luts);
    assert_eq!(r, Some(given));
}

#[test]
fn chain_without_contexts_predicts_one_half() {
    let luts = LookUpTables::new();
    let mut chain = ContextsChainPredictionMixer::new(MAX_ORDER, &luts);
    let contexts = CollectedContextStates::new(MAX_ORDER);
    let (sq, st) = chain.predict(&contexts, 1, &[], &[], &[]);
    assert_eq!(sq.raw(), 0x4000_0000);
    assert_eq!(st.raw(), 0);
    let trackers = chain.update(Bit::Zero, &contexts, &[]);
    assert!(trackers.is_empty());
}

#[test]
fn chain_update_gives_back_the_trackers_of_node_contexts_in_order() {
    let luts = LookUpTables::new();
    let mut chain = ContextsChainPredictionMixer::new(MAX_ORDER, &luts);
    let mut contexts = CollectedContextStates::new(MAX_ORDER);
    contexts.push(node_state(3));
    contexts.push(node_state(9));
    contexts.push(ContextState::ForEdge { last_occurrence_distance: 4, occurrence_count: 2, repeated_bit: Bit::One });
    let estimators = [DeceleratingEstimator::new(); 3];
    let directs = [even(); 3];
    let runs = [BitsRunsTracker::new(); 3];
    let (sq, st) = chain.predict(&contexts, 1, &estimators, &directs, &runs);
    assert!(sq.raw() > 0 && sq.raw() < 1 << 31);
    assert!(st.raw() > -12 * 0x20_0000 && st.raw() < 12 * 0x20_0000);
    let given = [marked_trackers(1), marked_trackers(2), marked_trackers(3)];
    let trackers = chain.update(Bit::One, &contexts, &given);
    assert_eq!(trackers, vec![marked_trackers(1), marked_trackers(2)]);
}

#[test]
fn predictor_codes_a_text_with_valid_probabilities() {
    let luts = LookUpTables::new();
    let mut predictor = Predictor::new(&luts);
    let estimators = [DeceleratingEstimator::new(); MAX_ORDER + 1];
    let directs = [even(); MAX_ORDER + 1];
    let runs = [BitsRunsTracker::new(); MAX_ORDER + 1];
    let trackers = [CostTrackers::default_trackers(); MAX_ORDER + 1];
    let mut first = None;
    for &byte in b"abracadabra" {
        predictor.start_new_byte().expect("consistent history");
        for bit_index in (0..8).rev() {
            let p = predictor.predict(&estimators, &directs, &runs).expect("a prediction");
            assert!(p.raw() > 0 && p.raw() < 4096);
            if first.is_none() {
                first = Some(p.raw());
            }
            let row = predictor.pending_row_index().expect("a pending row");
            let (left, right) = apm_factor_indexes(row, 1);
            assert!(left < 13 && right < 13);
            let bit = Bit::from_bool((byte >> bit_index) & 1 == 1);
            predictor.update(bit, &trackers).expect("consistent history");
        }
    }
    let first = first.unwrap();
    assert!(first > 1900 && first < 2200, "{}", first);
}


#[test]
fn squash_and_stretch_fall_by_at_most_one_unit() {
    let luts = LookUpTables::new();
    let squash = luts.squash_lut();
    let mut previous = 0u32;
    let mut largest_fall = 0u32;
    let mut raw = -12 * 0x20_0000;
    while raw < 12 * 0x20_0000 {
        let r = squash.squash(StretchedProbD::new(raw, 21)).raw();
        if r < previous {
            largest_fall = largest_fall.max(previous - r);
        }
        previous = r;
        raw += 3;
    }
    assert_eq!(largest_fall, 1);
    assert_eq!(squash.squash(StretchedProbD::new(-24706918, 21)).raw(), 16439);
    assert_eq!(squash.squash(StretchedProbD::new(-24706917, 21)).raw(), 16438);
    let stretch = luts.stretch_lut();
    let mut previous = i32::MIN;
    let mut largest_fall = 0i32;
    let mut x = 1u32;
    while x < 0x8000_0000 {
        let r = stretch.stretch(FractOnlyU32::new(x, 31)).raw();
        if r < previous {
            largest_fall = largest_fall.max(previous - r);
        }
        previous = r;
        x += 97;
    }
    assert_eq!(largest_fall, 1);
    assert_eq!(stretch.stretch(FractOnlyU32::new(2343042, 31)).raw(), -14301549);
    assert_eq!(stretch.stretch(FractOnlyU32::new(2343043, 31)).raw(), -14301550);
}

use demixer::history::ContextState;
use demixer::history::state::bits_runs::BitsRunsTracker;
use demixer::history::state::recent_bits::RecentBitsStateFactory;
use demixer::history::tree::node::CostTrackers;
use demixer::estimators::decelerating::DeceleratingEstimator;
use demixer::mixing::mixer::Mixer4;
use demixer::predictor::single::SingleContextPredictor;
use demixer::bit::Bit;
use demixer::fixed_point::{FixI32, FixU32};
use demixer::fixed_point::types::{FractOnlyU32, StretchedProbD};
use demixer::lut::LookUpTables;
use demixer::mixing::mixer::{FixedSizeMixer, Mixer, Mixer3};
use demixer::predictor::kits::{EstimatorsWithIndexer, MixersWithIndexer};
use demixer::predictor::post_process::{PredictionFinalizer, apm_factor_indexes};
use demixer::util::indexer::{Indexer, Indexer2, Indexer3};
use demixer::util::last_bytes::LastBytesCache;

#[test]
fn estimators_learn_from_coded_bits() {
    let luts = LookUpTables::new();
    let mut kit = EstimatorsWithIndexer::new(Indexer2::new(vec![3, 4]));
    let (sq, st) = kit.predict(&luts, &[1, 2]);
    assert_eq!(sq.raw(), 0x4000_0000);
    assert_eq!(st.raw(), 0);
    kit.update(Bit::Zero, &luts);
    let (sq, st) = kit.predict(&luts, &[1, 2]);
    assert!(sq.raw() > 0x4000_0000);
    assert!(st.raw() > 0);
    kit.update(Bit::One, &luts);
    let (other, _) = kit.predict(&luts, &[2, 2]);
    assert_eq!(other.raw(), 0x4000_0000);
    kit.update(Bit::One, &luts);
}

#[test]
fn mixers_are_chosen_by_all_sub_indexes() {
    let luts = LookUpTables::new();
    let mut kit = MixersWithIndexer::new(|| Mixer3::new(15, false), Indexer3::new(vec![2, 3, 2]));
    let st = StretchedProbD::new(1 << 20, 21);
    let sq = luts.squash_lut().squash(st);
    let inputs = [(sq, st), (FractOnlyU32::half(), StretchedProbD::zero()), (sq, st)];
    kit.pre_predict(&[1]);
    let (mixed_sq, mixed_st) = kit.predict(&[2, 0], &inputs, &luts);
    assert_eq!(mixed_st.raw(), st.raw());
    assert_eq!(mixed_sq.raw(), sq.raw());
    let result = kit.update(Bit::Zero, 700, &luts);
    assert_eq!(result.0.raw(), mixed_sq.raw());
    kit.pre_predict(&[1, 2]);
    let (_, after_st) = kit.predict(&[0], &inputs, &luts);
    assert!(after_st.raw() > st.raw());
    assert!(kit.current_mixer().weight(0).raw() > 1 << 21);
    kit.update(Bit::One, 700, &luts);
}

#[test]
fn apm_factor_indexes_grow_away_from_the_middle() {
    assert_eq!(apm_factor_indexes(24, 1), (0, 2));
    assert_eq!(apm_factor_indexes(23, 1), (2, 0));
    assert_eq!(apm_factor_indexes(26, 1), (4, 6));
    assert_eq!(apm_factor_indexes(20, 1), (8, 6));
    assert_eq!(apm_factor_indexes(12, 0), (0, 1));
}

#[test]
fn finalizer_refines_and_learns() {
    let luts = LookUpTables::new();
    let mut finalizer = PredictionFinalizer::new(&luts);
    let mut last_bytes = LastBytesCache::new();
    last_bytes.start_new_byte();
    let half = FractOnlyU32::half();
    let zero = StretchedProbD::zero();
    for contexts_count in 0..6usize {
        let p = finalizer.refine(half, zero, contexts_count, &last_bytes).expect("refinable");
        assert!(p.raw() > 1900 && p.raw() < 2200, "{}", p.raw());
        finalizer.update(Bit::Zero, contexts_count, &last_bytes);
    }
    let p = finalizer.refine(half, zero, 1, &last_bytes).expect("refinable");
    assert!(p.raw() >= 2048);
    finalizer.update(Bit::Zero, 1, &last_bytes);
}

#[test]
fn single_context_predictor_mixes_even_node_predictions_evenly() {
    let luts = LookUpTables::new();
    let mut predictor = SingleContextPredictor::new(&luts);
    let mut node_kit = MixersWithIndexer::new(|| Mixer3::new(15, false), Indexer3::new(vec![6, 4, 32]));
    let state = ContextState::ForNode {
        last_occurrence_distance: 5,
        probability_estimator: DeceleratingEstimator::new(),
        bit_history: RecentBitsStateFactory::new().for_bit_run(Bit::Zero, 3),
        cost_trackers: CostTrackers::default_trackers(),
    };
    let even = (FractOnlyU32::half(), StretchedProbD::zero());
    let (sq, st) = predictor.predict(&mut node_kit, &state, b'a', even, even, BitsRunsTracker::new(), &luts);
    assert_eq!(st.raw(), 0);
    assert_eq!(sq.raw(), luts.squash_lut().squash(StretchedProbD::zero()).raw());
    let mut edge_kit = MixersWithIndexer::new(|| Mixer4::new(15, false), Indexer2::new(vec![4, 2]));
    let edge = ContextState::ForEdge { last_occurrence_distance: 5, occurrence_count: 3, repeated_bit: Bit::One };
    let mut second = SingleContextPredictor::new(&luts);
    let (edge_sq, _) = second.predict(&mut edge_kit, &edge, b'a', even, even, BitsRunsTracker::new(), &luts);
    assert!(edge_sq.raw() > 0 && edge_sq.raw() < 1 << 31);
}

#[test]
fn stretch_is_odd_about_one_half() {
    let luts = LookUpTables::new();
    let stretch = luts.stretch_lut();
    assert_eq!(stretch.stretch(FractOnlyU32::half()).raw(), 0);
    for raw in [1u32, 0x200, 0x1234_5678, 0x3fff_ffff, 0x4000_0001, 0x7fff_fe00, 0x7fff_ffff] {
        let p = FractOnlyU32::new(raw, 31);
        let flipped = FractOnlyU32::new(0x8000_0000 - raw, 31);
        assert_eq!(stretch.stretch(flipped).raw(), -stretch.stretch(p).raw());
    }
}

#[test]
fn squash_of_zero_is_one_half() {
    let luts = LookUpTables::new();
    assert_eq!(luts.squash_lut().squash(StretchedProbD::zero()).raw(), 0x4000_0000);
}

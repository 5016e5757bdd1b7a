use demixer::bit::Bit;
use demixer::fixed_point::{FixI32, FixU32};
use demixer::fixed_point::types::{FractOnlyU32, StretchedProbD};
use demixer::lut::LookUpTables;
use demixer::mixing::mixer::{FixedSizeMixer, Mixer, MixerData, Mixer2, Mixer4, MixerN};

#[test]
fn neutral_mixer_mixes_to_an_even_prediction() {
    let luts = LookUpTables::new();
    let mut mixer = Mixer2::new(0, true);
    mixer.set_input(0, FractOnlyU32::new(0x6000_0000, 31), StretchedProbD::new(1 << 21, 21));
    mixer.set_input(1, FractOnlyU32::new(0x2000_0000, 31), StretchedProbD::new(-(3 << 21), 21));
    let (sq, st) = mixer.mix_all(luts.squash_lut());
    assert_eq!(st.raw(), 0);
    assert_eq!(sq.raw(), luts.squash_lut().squash(StretchedProbD::zero()).raw());
}

#[test]
fn trusting_mixer_passes_its_first_input() {
    let luts = LookUpTables::new();
    let mut mixer = MixerN::new(3, 0, false);
    let st0 = StretchedProbD::new(-(5 << 20) + 12345, 21);
    mixer.set_input(0, FractOnlyU32::new(0x1000_0000, 31), st0);
    mixer.set_input(1, FractOnlyU32::new(0x7000_0000, 31), StretchedProbD::new(7 << 21, 21));
    mixer.set_input(2, FractOnlyU32::new(0x4000_0000, 31), StretchedProbD::new(0, 21));
    let (_, st) = mixer.mix_all(luts.squash_lut());
    assert_eq!(st.raw(), st0.raw());
    assert_eq!(mixer.weight(0).raw(), 1 << 21);
    assert_eq!(mixer.weight(1).raw(), 0);
}

#[test]
fn update_moves_weights_towards_the_coded_bit() {
    let luts = LookUpTables::new();
    let mut mixer = Mixer4::new(10, true);
    let st = StretchedProbD::new(2 << 21, 21);
    let sq = luts.squash_lut().squash(st);
    for i in 0..4 {
        mixer.set_input(i, sq, st);
    }
    let (mixed_sq, _) = mixer.mix_all(luts.squash_lut());
    mixer.update_and_reset(Bit::Zero, mixed_sq, 20, luts.d_estimator_rates());
    for i in 0..4 {
        assert!(mixer.weight(i).raw() > 0);
    }
    assert_eq!(mixer.common().inputs_mask, 0);
    assert_eq!(mixer.common().update_factor_index, 11);
    for i in 0..4 {
        mixer.set_input(i, sq, st);
    }
    let (mixed_sq, _) = mixer.mix_all(luts.squash_lut());
    let before = mixer.weight(0).raw();
    mixer.update_and_reset(Bit::One, mixed_sq, 11, luts.d_estimator_rates());
    assert!(mixer.weight(0).raw() < before);
    assert_eq!(mixer.common().update_factor_index, 11);
}

#[test]
fn set_input_is_read_back() {
    let mut mixer = Mixer2::new(5, false);
    let sq = FractOnlyU32::new(0x1234_5678, 31);
    let st = StretchedProbD::new(-77777, 21);
    mixer.set_input(1, sq, st);
    assert_eq!(mixer.prediction_sq(1).raw(), sq.raw());
    assert_eq!(mixer.prediction_st(1).raw(), st.raw());
    assert_eq!(mixer.common().inputs_mask, 2);
    assert_eq!(mixer.size(), 2);
}

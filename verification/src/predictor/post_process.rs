use vstd::prelude::*;
use vstd::arithmetic::power2::{pow2, lemma2_to64};
use crate::bit::Bit;
use crate::entropy::FinalProbability;
use crate::fixed_point::{FixI32, FixU32, scaled_down_unsigned};
use crate::fixed_point::{fix_u32, fix_u64};
use crate::fixed_point::types::{FractOnlyU32, StretchedProbD, interval_index_spec};
use crate::lut::LookUpTables;
use crate::lut::apm::ApmWeightingLut;
use crate::lut::stretch::stretch_spec;
use crate::lut::squash::squash_spec;
use crate::mixing::apm::{
    AdaptiveProbabilityMap, mapping_size, refine_ok, refine_value, apm_initial, apm_refined, apm_updated,
};
use crate::mixing::mixer::{
    Mixer, MixerData, MixerN, mixer_ok, all_inputs_set, mixed_stretched, updated_weight, error_step,
    next_update_factor_index, initial_inputs,
};
use crate::util::last_bytes::{LastBytesCache, unfinished_spec, hash01_spec, hash02_spec, hash03_spec};
use super::kits::{mix_predictions, with_predictions, predictions_ok};

verus! {

/// Stretched predictions are split into intervals of one half to pick a row
/// of mixers.
pub const INDEX_SCALE_DOWN_BITS: u8 = 1;

/// The number of rows of mixers: one per interval of the stretched domain.
pub const MIXER_ROWS: usize = 48;

/// The rates of the probability maps' updates, by distance from the middle
/// interval.
pub open spec fn factors_spec() -> Seq<u8> {
    seq![4u8, 4u8, 4u8, 5u8, 5u8, 6u8, 6u8, 7u8, 7u8, 8u8, 8u8, 9u8, 9u8]
}

/// The update rate at `index`.
fn factor_at(index: usize) -> (r: u8)
    requires
        index < 13,
    ensures
        r == factors_spec()[index as int],
{
    let factors: [u8; 13] = [4, 4, 4, 5, 5, 6, 6, 7, 7, 8, 8, 9, 9];
    proof {
        assert(factors@ =~= factors_spec());
    }
    factors[index]
}

/// The number of contexts, quantized to the column of mixers: up to one,
/// two, three, or more.
pub open spec fn quantized_contexts_count(contexts_count: int) -> int {
    if contexts_count <= 1 {
        0
    } else if contexts_count == 2 {
        1
    } else if contexts_count == 3 {
        2
    } else {
        3
    }
}

/// The column of mixers for a number of contexts.
fn quantize_contexts_count(contexts_count: usize) -> (r: usize)
    ensures
        r == quantized_contexts_count(contexts_count as int),
{
    match contexts_count {
        0 | 1 => 0,
        2 => 1,
        3 => 2,
        _ => 3,
    }
}

/// The indexes of the update rates of the left and the right stop for an
/// interval: its distance from the middle, counted towards the outside for
/// the outer stop, scaled up by `2^scale_down_bits`.
pub open spec fn apm_factor_indexes_spec(scaled_interval_index: usize, scale_down_bits: u8) -> (usize, usize) {
    let middle = (12 * pow2(scale_down_bits as nat)) as usize;
    let (left, right) = if scaled_interval_index < middle {
        let f = (middle - scaled_interval_index - 1) as usize;
        ((f + 1) as usize, f)
    } else {
        let f = (scaled_interval_index - middle) as usize;
        (f, (f + 1) as usize)
    };
    (left << scale_down_bits, right << scale_down_bits)
}

/// The indexes of the update rates of the two stops around an interval.
pub fn apm_factor_indexes(scaled_interval_index: usize, scale_down_bits: u8) -> (r: (usize, usize))
    requires
        scale_down_bits <= 21,
    ensures
        r == apm_factor_indexes_spec(scaled_interval_index, scale_down_bits),
{
    let middle = StretchedProbD::zero().to_interval_index(scale_down_bits);
    proof {
        crate::fixed_point::lemma_pow2_bounds(21);
        vstd::arithmetic::power2::lemma_pow2_strictly_increases(scale_down_bits as nat, 22);
        lemma2_to64();
        assert(middle == 12 * pow2(scale_down_bits as nat));
    }
    let middle_index = middle as usize;
    let (left_factor_index, right_factor_index) = if scaled_interval_index < middle_index {
        let factor_index = middle_index - scaled_interval_index - 1;
        (factor_index + 1, factor_index)
    } else {
        let factor_index = scaled_interval_index - middle_index;
        (factor_index, factor_index + 1)
    };
    (left_factor_index << scale_down_bits, right_factor_index << scale_down_bits)
}

/// What an adaptive probability map refines an input to, when the
/// refinement succeeds and gives a probability above zero.
pub open spec fn apm_stage(lut: ApmWeightingLut, mappings: Seq<FractOnlyU32>, start: int, sq: int, st: int) -> Option<int> {
    if refine_ok(lut, mappings, start, sq, st) && refine_value(lut, mappings, start, sq, st) > 0 {
        Some(refine_value(lut, mappings, start, sq, st))
    } else {
        None
    }
}

/// Three parts of the input probability and one part of its order-0
/// refinement, rounded.
pub open spec fn first_mix(sq: int, refined: int) -> int {
    scaled_down_unsigned(3 * sq + refined, 2, u64::MAX as int)
}

/// The slot of the mixer at a row and a column.
pub open spec fn mixer_slot(row: int, column: int) -> int {
    row * 4 + column
}

/// One refinement by an adaptive probability map; nothing when it fails or
/// gives zero.
fn refine_stage(
    apm: &mut AdaptiveProbabilityMap,
    context: usize,
    input_sq: FractOnlyU32,
    input_st: StretchedProbD,
    lut: &ApmWeightingLut,
) -> (r: Option<FractOnlyU32>)
    requires
        old(apm).wf(),
        lut.wf(),
        lut.bits() == old(apm).bits(),
        old(apm).saved_index() == -1,
        context < old(apm).contexts(),
        -12 * 0x20_0000 <= input_st.raw_of() < 12 * 0x20_0000,
    ensures
        r is Some <==> apm_stage(
            *lut,
            old(apm).mappings_view(),
            context * mapping_size(old(apm).bits() as nat),
            input_sq.raw_of() as int,
            input_st.raw_of() as int,
        ) is Some,
        r matches Some(p) ==> {
            &&& Some(p.raw_of() as int) == apm_stage(
                *lut,
                old(apm).mappings_view(),
                context * mapping_size(old(apm).bits() as nat),
                input_sq.raw_of() as int,
                input_st.raw_of() as int,
            )
            &&& 0 < p.raw_of() < 0x8000_0000
            &&& apm_refined(*old(apm), *final(apm), *lut, input_sq.raw_of() as int, input_st.raw_of() as int)
            &&& final(apm).saved_index() >= 0
        },
{
    match apm.refine(context, input_sq, input_st, lut) {
        Some(p) => {
            if p.raw() == 0 {
                None
            } else {
                Some(p)
            }
        },
        None => None,
    }
}

/// The final stage of prediction: refines the mixed prediction of the
/// contexts by adaptive probability maps of the last bytes, and mixes the
/// refinements by a mixer chosen by the stretched prediction and the number
/// of contexts.
pub struct PredictionFinalizer<'a> {
    luts: &'a LookUpTables,
    phase0_order0: AdaptiveProbabilityMap,
    phase1_order1: AdaptiveProbabilityMap,
    phase1_order2: AdaptiveProbabilityMap,
    phase1_order3: AdaptiveProbabilityMap,
    mixers: Vec<MixerN>,
    mixers_row_index_opt: Option<usize>,
    mixing_result_opt: Option<(FractOnlyU32, StretchedProbD)>,
}

impl<'a> PredictionFinalizer<'a> {
    pub closed spec fn luts_of(&self) -> LookUpTables {
        *self.luts
    }

    /// The map of the unfinished byte.
    pub closed spec fn phase0_of(&self) -> AdaptiveProbabilityMap {
        self.phase0_order0
    }

    /// The maps of the unfinished byte with one, two or three previous
    /// bytes.
    pub closed spec fn phase1_of(&self, order: int) -> AdaptiveProbabilityMap {
        if order == 1 {
            self.phase1_order1
        } else if order == 2 {
            self.phase1_order2
        } else {
            self.phase1_order3
        }
    }

    /// The mixers, four per row.
    pub closed spec fn mixers_of(&self) -> Seq<MixerN> {
        self.mixers@
    }

    /// The row of the last prediction, while it waits for its update.
    pub closed spec fn row_index_of(&self) -> Option<usize> {
        self.mixers_row_index_opt
    }

    /// The mixing result of the last prediction, while it waits for its
    /// update.
    pub closed spec fn mixing_result_of(&self) -> Option<(FractOnlyU32, StretchedProbD)> {
        self.mixing_result_opt
    }

    /// Valid tables, maps of 256 and 65536 contexts, and 48 rows of valid
    /// mixers of two to five inputs.
    pub closed spec fn wf(&self) -> bool {
        &&& self.luts.wf()
        &&& self.phase0_order0.wf()
        &&& self.phase0_order0.bits() == 0
        &&& self.phase0_order0.contexts() == 256
        &&& forall|k: int| 1 <= k <= 3 ==> {
            &&& (#[trigger] self.phase1_of(k)).wf()
            &&& self.phase1_of(k).bits() == 1
            &&& self.phase1_of(k).contexts() == 0x1_0000
        }
        &&& self.mixers@.len() == MIXER_ROWS * 4
        &&& forall|i: int| 0 <= i < self.mixers@.len() ==> {
            &&& mixer_ok((#[trigger] self.mixers@[i]).inputs_of(), self.mixers@[i].common_of())
            &&& self.mixers@[i].inputs_of().len() == i % 4 + 2
        }
    }

    /// Between a prediction's update and the next prediction: nothing
    /// pending.
    pub closed spec fn idle(&self) -> bool {
        &&& self.mixers_row_index_opt is None
        &&& self.mixing_result_opt is None
        &&& self.phase0_order0.saved_index() == -1
        &&& forall|k: int| 1 <= k <= 3 ==> (#[trigger] self.phase1_of(k)).saved_index() == -1
        &&& forall|i: int| 0 <= i < self.mixers@.len() ==> (#[trigger] self.mixers@[i]).common_of().inputs_mask == 0
    }

    /// After a prediction for a column, before its update: the row and the
    /// result saved, the maps of that column refined, and only the mixer of
    /// that row and column given all its inputs.
    pub closed spec fn awaiting_update(&self, column: int) -> bool {
        &&& self.mixers_row_index_opt matches Some(row) && row < MIXER_ROWS && {
            let slot = mixer_slot(row as int, column);
            &&& all_inputs_set(self.mixers@[slot].common_of(), (column + 2) as nat)
            &&& forall|i: int| 0 <= i < self.mixers@.len() && i != slot ==>
                (#[trigger] self.mixers@[i]).common_of().inputs_mask == 0
        }
        &&& 0 <= column <= 3
        &&& self.mixing_result_opt matches Some(res) && 1 <= res.0.raw_of() < 0x8000_0000
        &&& self.phase0_order0.saved_index() >= 0
        &&& forall|k: int| 1 <= k <= 3 ==> (if k <= column {
            (#[trigger] self.phase1_of(k)).saved_index() >= 0
        } else {
            self.phase1_of(k).saved_index() == -1
        })
    }

    /// The raw predictions that the mixer of a column is given, in order,
    /// when every refinement succeeds with a probability above zero: the
    /// input, its refinement by the unfinished byte, then its refinements by
    /// longer contexts, which refine the first mix of the first two.
    #[verifier::opaque]
    pub open spec fn stage_predictions(
        &self,
        sq: int,
        st: int,
        column: int,
        byte: int,
        hash1: int,
        hash2: int,
        hash3: int,
    ) -> Option<Seq<(int, int)>> {
        let table = self.luts_of().stretch_of().table();
        let lut1 = self.luts_of().apm_of(1);
        let s0 = apm_stage(self.luts_of().apm_of(0), self.phase0_of().mappings_view(), byte * mapping_size(0), sq, st);
        let p0 = match s0 {
            Some(v) => v,
            None => 0,
        };
        let mix_sq = first_mix(sq, p0);
        let mix_st = stretch_spec(table, mix_sq as u32);
        let s1 = apm_stage(lut1, self.phase1_of(1).mappings_view(), hash1 * mapping_size(1), mix_sq, mix_st);
        let s2 = apm_stage(lut1, self.phase1_of(2).mappings_view(), hash2 * mapping_size(1), mix_sq, mix_st);
        let s3 = apm_stage(lut1, self.phase1_of(3).mappings_view(), hash3 * mapping_size(1), mix_sq, mix_st);
        if s0 is None || mix_sq == 0 || (column >= 1 && s1 is None) || (column >= 2 && s2 is None) || (column >= 3
            && s3 is None) {
            None
        } else {
            let base = seq![(sq, st), (p0, stretch_spec(table, p0 as u32))];
            let with1 = if column >= 1 {
                base.push((s1.unwrap(), stretch_spec(table, s1.unwrap() as u32)))
            } else {
                base
            };
            let with2 = if column >= 2 {
                with1.push((s2.unwrap(), stretch_spec(table, s2.unwrap() as u32)))
            } else {
                with1
            };
            let with3 = if column >= 3 {
                with2.push((s3.unwrap(), stretch_spec(table, s3.unwrap() as u32)))
            } else {
                with2
            };
            Some(with3)
        }
    }

    /// A finalizer whose maps map each stop to itself and whose mixers all
    /// start trusting their first input.
    pub fn new(luts: &'a LookUpTables) -> (r: Self)
        requires
            luts.wf(),
        ensures
            r.wf(),
            r.idle(),
            r.luts_of() == *luts,
            apm_initial(r.phase0_of(), 256, 0, luts.squash_of().table()),
            forall|k: int| 1 <= k <= 3 ==> apm_initial(#[trigger] r.phase1_of(k), 0x1_0000, 1, luts.squash_of().table()),
            forall|i: int| 0 <= i < r.mixers_of().len() ==> {
                &&& initial_inputs((#[trigger] r.mixers_of()[i]).inputs_of(), false)
                &&& r.mixers_of()[i].common_of().update_factor_index == 100
            },
    {
        proof {
            luts.lemma_wf();
        }
        let squash_lut = luts.squash_lut();
        let phase0_order0 = AdaptiveProbabilityMap::new(256, 0, squash_lut);
        let phase1_order1 = AdaptiveProbabilityMap::new(256 * 256, INDEX_SCALE_DOWN_BITS, squash_lut);
        let phase1_order2 = AdaptiveProbabilityMap::new(256 * 256, INDEX_SCALE_DOWN_BITS, squash_lut);
        let phase1_order3 = AdaptiveProbabilityMap::new(256 * 256, INDEX_SCALE_DOWN_BITS, squash_lut);
        let rows = StretchedProbD::intervals_count(INDEX_SCALE_DOWN_BITS) as usize;
        proof {
            lemma2_to64();
            assert(rows == MIXER_ROWS);
        }
        let count = rows * 4;
        let mut mixers: Vec<MixerN> = Vec::new();
        let mut i: usize = 0;
        while i < count
            invariant
                i <= count,
                count == MIXER_ROWS * 4,
                mixers@.len() == i,
                forall|j: int| 0 <= j < i ==> {
                    &&& mixer_ok((#[trigger] mixers@[j]).inputs_of(), mixers@[j].common_of())
                    &&& mixers@[j].inputs_of().len() == j % 4 + 2
                    &&& mixers@[j].common_of().inputs_mask == 0
                    &&& mixers@[j].common_of().update_factor_index == 100
                    &&& initial_inputs(mixers@[j].inputs_of(), false)
                },
            decreases count - i,
        {
            mixers.push(MixerN::new(i % 4 + 2, 100, false));
            i += 1;
        }
        PredictionFinalizer {
            luts,
            phase0_order0,
            phase1_order1,
            phase1_order2,
            phase1_order3,
            mixers,
            mixers_row_index_opt: None,
            mixing_result_opt: None,
        }
    }

    /// The predictions that the mixer of a column is given: the input and
    /// its refinements; nothing when a refinement fails or gives zero.
    fn refine_predictions(
        &mut self,
        input_sq: FractOnlyU32,
        input_st: StretchedProbD,
        column: usize,
        last_bytes: &LastBytesCache,
    ) -> (r: Option<Vec<(FractOnlyU32, StretchedProbD)>>)
        requires
            old(self).wf(),
            old(self).idle(),
            column <= 3,
            FractOnlyU32::raw_ok(input_sq.raw_of()),
            -12 * 0x20_0000 <= input_st.raw_of() < 12 * 0x20_0000,
            last_bytes.wf(),
            last_bytes.bit_index_of() >= 0,
        ensures
            ({
                let sq = input_sq.raw_of() as int;
                let st = input_st.raw_of() as int;
                let cache = last_bytes.cache();
                let bit_index = last_bytes.bit_index_of();
                let preds = old(self).stage_predictions(
                    sq,
                    st,
                    column as int,
                    unfinished_spec(cache, bit_index) as int,
                    hash01_spec(cache, bit_index) as int,
                    hash02_spec(cache, bit_index) as int,
                    hash03_spec(cache, bit_index) as int,
                );
                let mix_sq = first_mix(sq, preds.unwrap()[1].0);
                let mix_st = stretch_spec(old(self).luts_of().stretch_of().table(), mix_sq as u32);
                &&& (r is Some <==> preds is Some)
                &&& r matches Some(v) ==> {
                    &&& v@.len() == preds.unwrap().len()
                    &&& v@.len() == column + 2
                    &&& predictions_ok(v@)
                    &&& forall|i: int| 0 <= i < v@.len() ==> (#[trigger] v@[i]).0.raw_of() == preds.unwrap()[i].0
                        && v@[i].1.raw_of() == preds.unwrap()[i].1
                    &&& final(self).wf()
                    &&& final(self).luts == old(self).luts
                    &&& final(self).mixers == old(self).mixers
                    &&& final(self).mixers_row_index_opt == old(self).mixers_row_index_opt
                    &&& final(self).mixing_result_opt == old(self).mixing_result_opt
                    &&& apm_refined(old(self).phase0_of(), final(self).phase0_of(), old(self).luts_of().apm_of(0), sq, st)
                    &&& final(self).phase0_of().saved_index() >= 0
                    &&& forall|k: int| 1 <= k <= 3 ==> (if k <= column {
                        &&& apm_refined(
                            old(self).phase1_of(k),
                            #[trigger] final(self).phase1_of(k),
                            old(self).luts_of().apm_of(1),
                            mix_sq,
                            mix_st,
                        )
                        &&& final(self).phase1_of(k).saved_index() >= 0
                    } else {
                        final(self).phase1_of(k) == old(self).phase1_of(k)
                    })
                }
            }),
    {
        proof {
            self.luts.lemma_wf();
            lemma2_to64();
        }
        proof {
            reveal(PredictionFinalizer::stage_predictions);
        }
        let luts = self.luts;
        let stretch_lut = luts.stretch_lut();
        let ghost sq = input_sq.raw_of() as int;
        let byte = last_bytes.unfinished_byte().raw() as usize;
        let apm_lut0 = luts.apm_lut(0);
        let apm_lut1 = luts.apm_lut(INDEX_SCALE_DOWN_BITS);
        let p0_o0_sq = match refine_stage(&mut self.phase0_order0, byte, input_sq, input_st, apm_lut0) {
            Some(p) => p,
            None => return None,
        };
        let p0_mix_sq_raw = fix_u64::scaled_down(input_sq.raw() as u64 * 3 + p0_o0_sq.raw() as u64, 2);
        proof {
            crate::fixed_point::lemma_scaled_down_unsigned_error(3 * sq + p0_o0_sq.raw_of(), 2, u64::MAX as int);
        }
        if p0_mix_sq_raw == 0 {
            return None;
        }
        let p0_mix_sq = FractOnlyU32::new(p0_mix_sq_raw as u32, 31);
        let p0_mix_st = stretch_lut.stretch(p0_mix_sq);
        let mut predictions: Vec<(FractOnlyU32, StretchedProbD)> = Vec::new();
        predictions.push((input_sq, input_st));
        predictions.push((p0_o0_sq, stretch_lut.stretch(p0_o0_sq)));
        if column >= 1 {
            let context = last_bytes.hash01_16() as usize;
            match refine_stage(&mut self.phase1_order1, context, p0_mix_sq, p0_mix_st, apm_lut1) {
                Some(p) => predictions.push((p, stretch_lut.stretch(p))),
                None => return None,
            }
        }
        if column >= 2 {
            let context = last_bytes.hash02_16() as usize;
            match refine_stage(&mut self.phase1_order2, context, p0_mix_sq, p0_mix_st, apm_lut1) {
                Some(p) => predictions.push((p, stretch_lut.stretch(p))),
                None => return None,
            }
        }
        if column >= 3 {
            let context = last_bytes.hash03_16() as usize;
            match refine_stage(&mut self.phase1_order3, context, p0_mix_sq, p0_mix_st, apm_lut1) {
                Some(p) => predictions.push((p, stretch_lut.stretch(p))),
                None => return None,
            }
        }
        Some(predictions)
    }

    /// Gives the mixer at a row and a column, with no input set, its
    /// predictions and mixes them; saves the row and the result.
    fn mix_and_save(
        &mut self,
        row: usize,
        column: usize,
        predictions: &[(FractOnlyU32, StretchedProbD)],
    ) -> (r: (FractOnlyU32, StretchedProbD))
        requires
            old(self).wf(),
            row < MIXER_ROWS,
            column <= 3,
            forall|i: int| 0 <= i < old(self).mixers@.len() ==> (#[trigger] old(self).mixers@[i]).common_of().inputs_mask == 0,
            predictions@.len() == column + 2,
            predictions_ok(predictions@),
        ensures
            ({
                let slot = mixer_slot(row as int, column as int);
                let before = old(self).mixers@[slot];
                let after = final(self).mixers@[slot];
                &&& final(self).wf()
                &&& final(self).luts == old(self).luts
                &&& final(self).phase0_order0 == old(self).phase0_order0
                &&& final(self).phase1_order1 == old(self).phase1_order1
                &&& final(self).phase1_order2 == old(self).phase1_order2
                &&& final(self).phase1_order3 == old(self).phase1_order3
                &&& final(self).mixers_row_index_opt == Some(row)
                &&& final(self).mixing_result_opt == Some(r)
                &&& final(self).mixers@.len() == old(self).mixers@.len()
                &&& forall|j: int| 0 <= j < old(self).mixers@.len() && j != slot ==>
                    #[trigger] final(self).mixers@[j] == old(self).mixers@[j]
                &&& after.inputs_of() == with_predictions(before.inputs_of(), predictions@)
                &&& all_inputs_set(after.common_of(), (column + 2) as nat)
                &&& after.common_of().update_factor_index == before.common_of().update_factor_index
                &&& r.1.raw_of() == mixed_stretched(after.inputs_of())
                &&& r.0.raw_of() == squash_spec(old(self).luts_of().squash_of().table(), r.1.raw_of() as int)
                &&& 1 <= r.0.raw_of() < 0x8000_0000
            }),
    {
        proof {
            self.luts.lemma_wf();
        }
        let slot = row * 4 + column;
        proof {
            assert(self.mixers@[slot as int].inputs_of().len() == slot % 4 + 2);
            assert(slot % 4 == column);
        }
        let mixed = mix_predictions(&mut self.mixers[slot], predictions, self.luts.squash_lut());
        self.mixers_row_index_opt = Some(row);
        self.mixing_result_opt = Some(mixed);
        proof {
            assert forall|i: int| 0 <= i < self.mixers@.len() implies {
                &&& mixer_ok((#[trigger] self.mixers@[i]).inputs_of(), self.mixers@[i].common_of())
                &&& self.mixers@[i].inputs_of().len() == i % 4 + 2
            } by {
                if i != slot {
                    assert(self.mixers@[i] == old(self).mixers@[i]);
                }
            }
            assert forall|k: int| 1 <= k <= 3 implies (#[trigger] self.phase1_of(k)) == old(self).phase1_of(k) by {}
        }
        mixed
    }

    /// Refines a prediction of bit 0 (`input_sq`, stretched `input_st`)
    /// made from `contexts_count` contexts into the final probability.
    /// Nothing when a refinement fails or gives zero, or when the result
    /// rounds to 0 or 1 with 12 fractional bits.
    #[verifier::rlimit(60)]
    pub fn refine(
        &mut self,
        input_sq: FractOnlyU32,
        input_st: StretchedProbD,
        contexts_count: usize,
        last_bytes: &LastBytesCache,
    ) -> (r: Option<FinalProbability>)
        requires
            old(self).wf(),
            old(self).idle(),
            FractOnlyU32::raw_ok(input_sq.raw_of()),
            -12 * 0x20_0000 <= input_st.raw_of() < 12 * 0x20_0000,
            last_bytes.wf(),
            last_bytes.bit_index_of() >= 0,
        ensures
            refined(*old(self), *final(self), input_sq, input_st, contexts_count, *last_bytes, r),

    {
        proof {
            reveal(refined);
        }
        proof {
            self.luts.lemma_wf();
            lemma2_to64();
        }
        let row = input_st.to_interval_index(INDEX_SCALE_DOWN_BITS) as usize;
        let column = quantize_contexts_count(contexts_count);
        let ghost st = input_st.raw_of() as int;
        proof {
            assert(st / 0x10_0000 < 24) by (nonlinear_arith)
                requires st < 12 * 0x20_0000;
            assert(row < MIXER_ROWS);
        }
        let predictions = match self.refine_predictions(input_sq, input_st, column, last_bytes) {
            Some(v) => v,
            None => return None,
        };
        let ghost mid = *self;
        let mixed = self.mix_and_save(row, column, predictions.as_slice());
        proof {
            assert forall|k: int| 1 <= k <= 3 implies (#[trigger] self.phase1_of(k)) == mid.phase1_of(k) by {}
            assert forall|k: int| 1 <= k <= 3 implies (if k <= column {
                (#[trigger] self.phase1_of(k)).saved_index() >= 0
            } else {
                self.phase1_of(k).saved_index() == -1
            }) by {
                assert(mid.phase1_of(k) == self.phase1_of(k));
                if k > column {
                    assert(mid.phase1_of(k) == old(self).phase1_of(k));
                }
            }
            let slot = mixer_slot(row as int, column as int);
            assert forall|i: int| 0 <= i < self.mixers@.len() && i != slot implies
                (#[trigger] self.mixers@[i]).common_of().inputs_mask == 0 by {
                assert(self.mixers@[i] == old(self).mixers@[i]);
            }
        }
        let rounded = fix_u32::scaled_down(mixed.0.raw(), 19);
        if rounded == 0 || rounded >= 4096 {
            return None;
        }
        Some(fix_u32::to_fix_u32(&mixed.0))
    }

    /// The row of the last prediction, while it waits for its update.
    pub fn pending_row_index(&self) -> (r: Option<usize>)
        ensures
            r == self.row_index_of(),
    {
        self.mixers_row_index_opt
    }

    /// Teaches the maps and the mixer of the last prediction, made from
    /// `contexts_count` contexts, the coded bit; the maps' update rates grow
    /// with the distance of the prediction's row from the middle.
    #[verifier::rlimit(40)]
    pub fn update(&mut self, input_bit: Bit, contexts_count: usize, last_bytes: &LastBytesCache)
        requires
            old(self).wf(),
            old(self).awaiting_update(quantized_contexts_count(contexts_count as int)),
            last_bytes.wf(),
            last_bytes.bit_index_of() >= 0,
            apm_factor_indexes_spec(old(self).row_index_of().unwrap(), INDEX_SCALE_DOWN_BITS).0 < 13,
            apm_factor_indexes_spec(old(self).row_index_of().unwrap(), INDEX_SCALE_DOWN_BITS).1 < 13,
        ensures
            finalizer_updated(*old(self), *final(self), input_bit, contexts_count, *last_bytes),

    {
        proof {
            self.luts.lemma_wf();
            assert(self.phase1_of(1) == self.phase1_order1);
            assert(self.phase1_of(2) == self.phase1_order2);
            assert(self.phase1_of(3) == self.phase1_order3);
        }
        let row = self.mixers_row_index_opt.unwrap();
        let indexes = apm_factor_indexes(row, INDEX_SCALE_DOWN_BITS);
        let left_factor = factor_at(indexes.0);
        let right_factor = factor_at(indexes.1);
        let column = quantize_contexts_count(contexts_count);
        let byte = last_bytes.unfinished_byte().raw() as usize;
        self.phase0_order0.update_predictions(byte, input_bit, left_factor + 3, right_factor + 3, false);
        if column >= 1 {
            let context = last_bytes.hash01_16() as usize;
            self.phase1_order1.update_predictions(context, input_bit, left_factor, right_factor, false);
        }
        if column >= 2 {
            let context = last_bytes.hash02_16() as usize;
            self.phase1_order2.update_predictions(context, input_bit, left_factor, right_factor, false);
        }
        if column >= 3 {
            let context = last_bytes.hash03_16() as usize;
            self.phase1_order3.update_predictions(context, input_bit, left_factor, right_factor, false);
        }
        let ghost mid = *self;
        self.update_mixer(input_bit, row, column);
        proof {
            assert forall|k: int| 1 <= k <= 3 implies (#[trigger] self.phase1_of(k)) == mid.phase1_of(k) by {}
            assert forall|k: int| 1 <= k <= 3 implies (#[trigger] self.phase1_of(k)).saved_index() == -1 by {
                assert(mid.phase1_of(k) == self.phase1_of(k));
                if k > column {
                    assert(mid.phase1_of(k) == old(self).phase1_of(k));
                }
            }
        }
    }

    /// Teaches the mixer at a row and a column, which has all its inputs
    /// set, the coded bit, and forgets the pending prediction.
    fn update_mixer(&mut self, input_bit: Bit, row: usize, column: usize)
        requires
            old(self).wf(),
            row < MIXER_ROWS,
            column <= 3,
            old(self).mixers_row_index_opt == Some(row),
            old(self).mixing_result_opt matches Some(res) && 1 <= res.0.raw_of() < 0x8000_0000,
            all_inputs_set(old(self).mixers@[mixer_slot(row as int, column as int)].common_of(), (column + 2) as nat),
            forall|i: int| 0 <= i < old(self).mixers@.len() && i != mixer_slot(row as int, column as int) ==>
                (#[trigger] old(self).mixers@[i]).common_of().inputs_mask == 0,
        ensures
            ({
                let slot = mixer_slot(row as int, column as int);
                let before = old(self).mixers@[slot];
                let after = final(self).mixers@[slot];
                let step = error_step(
                    input_bit,
                    old(self).mixing_result_opt.unwrap().0.raw_of() as int,
                    old(self).luts_of().rates_of().factor(before.common_of().update_factor_index as int),
                );
                &&& final(self).wf()
                &&& final(self).luts == old(self).luts
                &&& final(self).phase0_order0 == old(self).phase0_order0
                &&& final(self).phase1_order1 == old(self).phase1_order1
                &&& final(self).phase1_order2 == old(self).phase1_order2
                &&& final(self).phase1_order3 == old(self).phase1_order3
                &&& final(self).mixers_row_index_opt is None
                &&& final(self).mixing_result_opt is None
                &&& final(self).mixers@.len() == old(self).mixers@.len()
                &&& forall|j: int| 0 <= j < old(self).mixers@.len() && j != slot ==>
                    #[trigger] final(self).mixers@[j] == old(self).mixers@[j]
                &&& forall|i: int| 0 <= i < final(self).mixers@.len() ==>
                    (#[trigger] final(self).mixers@[i]).common_of().inputs_mask == 0
                &&& after.inputs_of().len() == before.inputs_of().len()
                &&& forall|i: int| 0 <= i < before.inputs_of().len() ==> {
                    &&& (#[trigger] after.inputs_of()[i]).weight.raw_of()
                        == updated_weight(before.inputs_of()[i], input_bit, step)
                    &&& after.inputs_of()[i].prediction_sq == before.inputs_of()[i].prediction_sq
                    &&& after.inputs_of()[i].prediction_st == before.inputs_of()[i].prediction_st
                }
                &&& after.common_of().update_factor_index == next_update_factor_index(
                    before.common_of().update_factor_index as int,
                    1000,
                )
            }),
    {
        proof {
            self.luts.lemma_wf();
        }
        let slot = row * 4 + column;
        proof {
            assert(self.mixers@[slot as int].inputs_of().len() == slot % 4 + 2);
            assert(slot % 4 == column);
        }
        let mixing_result = self.mixing_result_opt.unwrap();
        self.mixing_result_opt = None;
        self.mixers_row_index_opt = None;
        self.mixers[slot].update_and_reset(input_bit, mixing_result.0, 1000, self.luts.d_estimator_rates());
        proof {
            assert forall|i: int| 0 <= i < self.mixers@.len() implies {
                &&& mixer_ok((#[trigger] self.mixers@[i]).inputs_of(), self.mixers@[i].common_of())
                &&& self.mixers@[i].inputs_of().len() == i % 4 + 2
                &&& self.mixers@[i].common_of().inputs_mask == 0
            } by {
                if i != slot {
                    assert(self.mixers@[i] == old(self).mixers@[i]);
                }
            }
            assert forall|k: int| 1 <= k <= 3 implies (#[trigger] self.phase1_of(k)) == old(self).phase1_of(k) by {}
        }
    }
}

/// What refining a prediction does, as `PredictionFinalizer::refine`
/// states it.
#[verifier::opaque]
pub open spec fn refined<'a>(fin0: PredictionFinalizer<'a>, fin1: PredictionFinalizer<'a>, input_sq: FractOnlyU32, input_st: StretchedProbD, contexts_count: usize, last_bytes: LastBytesCache, r: Option<FinalProbability>) -> bool {
    &&& ({
            let sq = input_sq.raw_of() as int;
            let st = input_st.raw_of() as int;
            let row = interval_index_spec(st, 1);
            let column = quantized_contexts_count(contexts_count as int);
            let cache = last_bytes.cache();
            let bit_index = last_bytes.bit_index_of();
            let preds = fin0.stage_predictions(
                sq,
                st,
                column,
                unfinished_spec(cache, bit_index) as int,
                hash01_spec(cache, bit_index) as int,
                hash02_spec(cache, bit_index) as int,
                hash03_spec(cache, bit_index) as int,
            );
            let slot = mixer_slot(row, column);
            let before = fin0.mixers_of()[slot];
            let after = fin1.mixers_of()[slot];
            let mixed_st = mixed_stretched(after.inputs_of());
            let mixed_sq = squash_spec(fin0.luts_of().squash_of().table(), mixed_st);
            let rounded = scaled_down_unsigned(mixed_sq, 19, u32::MAX as int);
            let mix_sq = first_mix(sq, preds.unwrap()[1].0);
            let mix_st = stretch_spec(fin0.luts_of().stretch_of().table(), mix_sq as u32);
            &&& preds is None ==> r is None
            &&& preds is Some ==> {
                &&& fin1.wf()
                &&& fin1.awaiting_update(column)
                &&& fin1.luts_of() == fin0.luts_of()
                &&& fin1.row_index_of() == Some(row as usize)
                &&& fin1.mixing_result_of() matches Some(res) && res.0.raw_of() == mixed_sq
                    && res.1.raw_of() == mixed_st
                &&& apm_refined(fin0.phase0_of(), fin1.phase0_of(), fin0.luts_of().apm_of(0), sq, st)
                &&& forall|k: int| 1 <= k <= 3 ==> (if k <= column {
                    apm_refined(
                        fin0.phase1_of(k),
                        #[trigger] fin1.phase1_of(k),
                        fin0.luts_of().apm_of(1),
                        mix_sq,
                        mix_st,
                    )
                } else {
                    fin1.phase1_of(k) == fin0.phase1_of(k)
                })
                &&& fin1.mixers_of().len() == fin0.mixers_of().len()
                &&& forall|j: int| 0 <= j < fin0.mixers_of().len() && j != slot ==>
                    #[trigger] fin1.mixers_of()[j] == fin0.mixers_of()[j]
                &&& after.inputs_of().len() == preds.unwrap().len()
                &&& forall|i: int| 0 <= i < preds.unwrap().len() ==> {
                    &&& (#[trigger] after.inputs_of()[i]).weight == before.inputs_of()[i].weight
                    &&& after.inputs_of()[i].prediction_sq.raw_of() == preds.unwrap()[i].0
                    &&& after.inputs_of()[i].prediction_st.raw_of() == preds.unwrap()[i].1
                }
                &&& after.common_of().update_factor_index == before.common_of().update_factor_index
                &&& (r is Some <==> 0 < rounded < 4096)
                &&& (r matches Some(p) ==> p.raw_of() == rounded)
            }
        })
}

/// What teaching the finalizer the coded bit does, as
/// `PredictionFinalizer::update` states it.
pub open spec fn finalizer_updated<'a>(fin0: PredictionFinalizer<'a>, fin1: PredictionFinalizer<'a>, input_bit: Bit, contexts_count: usize, last_bytes: LastBytesCache) -> bool {
    &&& ({
            let row = fin0.row_index_of().unwrap();
            let column = quantized_contexts_count(contexts_count as int);
            let slot = mixer_slot(row as int, column);
            let indexes = apm_factor_indexes_spec(row, INDEX_SCALE_DOWN_BITS);
            let left_factor = factors_spec()[indexes.0 as int] as int;
            let right_factor = factors_spec()[indexes.1 as int] as int;
            let cache = last_bytes.cache();
            let bit_index = last_bytes.bit_index_of();
            let mixed_sq = fin0.mixing_result_of().unwrap().0.raw_of() as int;
            let before = fin0.mixers_of()[slot];
            let after = fin1.mixers_of()[slot];
            let step = error_step(
                input_bit,
                mixed_sq,
                fin0.luts_of().rates_of().factor(before.common_of().update_factor_index as int),
            );
            &&& fin1.wf()
            &&& fin1.idle()
            &&& fin1.luts_of() == fin0.luts_of()
            &&& apm_updated(
                fin0.phase0_of(),
                fin1.phase0_of(),
                unfinished_spec(cache, bit_index) as int,
                input_bit,
                left_factor + 3,
                right_factor + 3,
                false,
            )
            &&& (if column >= 1 {
                apm_updated(
                    fin0.phase1_of(1),
                    fin1.phase1_of(1),
                    hash01_spec(cache, bit_index) as int,
                    input_bit,
                    left_factor,
                    right_factor,
                    false,
                )
            } else {
                fin1.phase1_of(1) == fin0.phase1_of(1)
            })
            &&& (if column >= 2 {
                apm_updated(
                    fin0.phase1_of(2),
                    fin1.phase1_of(2),
                    hash02_spec(cache, bit_index) as int,
                    input_bit,
                    left_factor,
                    right_factor,
                    false,
                )
            } else {
                fin1.phase1_of(2) == fin0.phase1_of(2)
            })
            &&& (if column >= 3 {
                apm_updated(
                    fin0.phase1_of(3),
                    fin1.phase1_of(3),
                    hash03_spec(cache, bit_index) as int,
                    input_bit,
                    left_factor,
                    right_factor,
                    false,
                )
            } else {
                fin1.phase1_of(3) == fin0.phase1_of(3)
            })
            &&& fin1.mixers_of().len() == fin0.mixers_of().len()
            &&& forall|j: int| 0 <= j < fin0.mixers_of().len() && j != slot ==>
                #[trigger] fin1.mixers_of()[j] == fin0.mixers_of()[j]
            &&& after.inputs_of().len() == before.inputs_of().len()
            &&& forall|i: int| 0 <= i < before.inputs_of().len() ==> {
                &&& (#[trigger] after.inputs_of()[i]).weight.raw_of()
                    == updated_weight(before.inputs_of()[i], input_bit, step)
                &&& after.inputs_of()[i].prediction_sq == before.inputs_of()[i].prediction_sq
                &&& after.inputs_of()[i].prediction_st == before.inputs_of()[i].prediction_st
            }
            &&& after.common_of().inputs_mask == 0
            &&& after.common_of().update_factor_index == next_update_factor_index(
                before.common_of().update_factor_index as int,
                1000,
            )
        })
}

} // verus!

pub mod estimator;
pub mod cost;
pub mod log2;
pub mod stretch;
pub mod squash;
pub mod apm;

use vstd::prelude::*;
use crate::history::state::recent_bits::RecentBitsStateFactory;
use self::cost::CostTrackersLut;
use self::estimator::{DeceleratingEstimatorLut, DeceleratingEstimatorCache};
use self::log2::Log2Lut;
use self::stretch::{StretchLut, table_ok};
use self::squash::{SquashLut, squash_table_ok};
use self::apm::ApmWeightingLut;

verus! {

/// The tables that the model shares.
pub struct LookUpTables {
    log2_lut: Log2Lut,
    d_estimator_rates: DeceleratingEstimatorLut,
    d_estimator_cache: DeceleratingEstimatorCache,
    cost_trackers_lut: CostTrackersLut,
    history_state_factory: RecentBitsStateFactory,
    stretch_lut: StretchLut,
    squash_lut: SquashLut,
    apm_luts: [ApmWeightingLut; 3],
}

impl LookUpTables {
    /// Every table is in range.
    pub closed spec fn wf(&self) -> bool {
        &&& self.log2_lut.wf()
        &&& self.d_estimator_rates.wf()
        &&& self.d_estimator_cache.wf()
        &&& table_ok(self.stretch_lut.table())
        &&& squash_table_ok(self.squash_lut.table())
        &&& forall|i: int| 0 <= i < 3 ==> (#[trigger] self.apm_luts@[i]).wf() && self.apm_luts@[i].bits() == i
    }

    pub closed spec fn stretch_of(&self) -> StretchLut {
        self.stretch_lut
    }

    pub closed spec fn squash_of(&self) -> SquashLut {
        self.squash_lut
    }

    pub closed spec fn apm_of(&self, bits: int) -> ApmWeightingLut {
        self.apm_luts@[bits]
    }

    pub closed spec fn log2_lut_of(&self) -> Log2Lut {
        self.log2_lut
    }

    pub closed spec fn rates_of(&self) -> DeceleratingEstimatorLut {
        self.d_estimator_rates
    }

    pub closed spec fn cache_of(&self) -> DeceleratingEstimatorCache {
        self.d_estimator_cache
    }

    pub closed spec fn cost_lut_of(&self) -> CostTrackersLut {
        self.cost_trackers_lut
    }

    pub proof fn lemma_wf(&self)
        requires
            self.wf(),
        ensures
            self.log2_lut_of().wf(),
            self.rates_of().wf(),
            self.cache_of().wf(),
            table_ok(self.stretch_of().table()),
            squash_table_ok(self.squash_of().table()),
            forall|i: int| 0 <= i < 3 ==> (#[trigger] self.apm_of(i)).wf() && self.apm_of(i).bits() == i,
    {
    }

    pub fn new() -> (r: LookUpTables)
        ensures
            r.wf(),
    {
        let log2_lut = Log2Lut::new();
        let d_estimator_rates = DeceleratingEstimatorLut::make_default();
        let d_estimator_cache = DeceleratingEstimatorCache::new(&d_estimator_rates);
        let cost_trackers_lut = CostTrackersLut::new(&log2_lut, &d_estimator_rates);
        let stretch_lut = StretchLut::new();
        let squash_lut = SquashLut::new(&stretch_lut);
        let apm_luts = [
            ApmWeightingLut::new(0, &squash_lut),
            ApmWeightingLut::new(1, &squash_lut),
            ApmWeightingLut::new(2, &squash_lut),
        ];
        LookUpTables {
            log2_lut,
            d_estimator_rates,
            d_estimator_cache,
            cost_trackers_lut,
            history_state_factory: RecentBitsStateFactory::new(),
            stretch_lut,
            squash_lut,
            apm_luts,
        }
    }

    pub fn log2_lut(&self) -> (r: &Log2Lut)
        ensures
            *r == self.log2_lut_of(),
    {
        &self.log2_lut
    }

    pub fn d_estimator_rates(&self) -> (r: &DeceleratingEstimatorLut)
        ensures
            *r == self.rates_of(),
    {
        &self.d_estimator_rates
    }

    pub fn d_estimator_cache(&self) -> (r: &DeceleratingEstimatorCache)
        ensures
            *r == self.cache_of(),
    {
        &self.d_estimator_cache
    }

    pub fn cost_trackers_lut(&self) -> (r: &CostTrackersLut)
        ensures
            *r == self.cost_lut_of(),
    {
        &self.cost_trackers_lut
    }

    pub fn history_state_factory(&self) -> (r: &RecentBitsStateFactory) {
        &self.history_state_factory
    }

    pub fn stretch_lut(&self) -> (r: &StretchLut)
        ensures
            *r == self.stretch_of(),
    {
        &self.stretch_lut
    }

    pub fn squash_lut(&self) -> (r: &SquashLut)
        ensures
            *r == self.squash_of(),
    {
        &self.squash_lut
    }

    /// The weighting table for interval stops `2^bits` apart.
    pub fn apm_lut(&self, stretched_fract_index_bits: u8) -> (r: &ApmWeightingLut)
        requires
            stretched_fract_index_bits <= 2,
        ensures
            *r == self.apm_of(stretched_fract_index_bits as int),
    {
        &self.apm_luts[stretched_fract_index_bits as usize]
    }
}

} // verus!

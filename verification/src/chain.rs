//! The stages of one group: what they are built from, and the values that the
//! running filters follow.
use crate::dsp::{DspParam, DspSpec, DspSpecView, EqBandSpec};
use crate::float::Float32;
use crate::model::{DspStageConfig, DspStageView};
use crate::sample::{DomainError, Format};
use vstd::prelude::*;

verus! {

/// A band can be built at a sample rate: its frequency lies above zero and
/// below half the rate, and its q is positive and finite.
pub open spec fn band_fits(band: EqBandSpec, sample_rate: nat) -> bool {
    let zero = Float32 { bits: 0 };
    zero.less(band.freq_hz) && band.freq_hz.below_half(sample_rate) && zero.less(band.q)
        && band.q.finite()
}

pub fn validate_eq_band(band: &EqBandSpec, sample_rate: u32) -> (r: Result<(), DomainError>)
    ensures
        r == if band_fits(*band, sample_rate as nat) {
            Ok::<(), DomainError>(())
        } else {
            Err::<(), DomainError>(
                DomainError::InvalidEqBand { freq_hz: band.freq_hz, q: band.q },
            )
        },
{
    if band.freq_hz.is_positive() && band.freq_hz.is_below_half(sample_rate)
        && band.q.is_positive() && band.q.is_finite() {
        Ok(())
    } else {
        Err(DomainError::InvalidEqBand { freq_hz: band.freq_hz, q: band.q })
    }
}

/// The first band, from `from` on, that cannot be built.
pub open spec fn first_unfit(bands: Seq<EqBandSpec>, sample_rate: nat, from: int) -> Option<
    EqBandSpec,
>
    decreases bands.len() - from,
{
    if from < 0 || from >= bands.len() {
        None
    } else if !band_fits(bands[from], sample_rate) {
        Some(bands[from])
    } else {
        first_unfit(bands, sample_rate, from + 1)
    }
}

/// The first band of a stage that cannot be built.
pub open spec fn unfit_in(spec: DspSpecView, sample_rate: nat) -> Option<EqBandSpec> {
    match spec {
        DspSpecView::Eq { bands } => first_unfit(bands, sample_rate, 0),
        DspSpecView::Limiter { ceiling_db } => None,
    }
}

/// The first band of the stages, from stage `from` on, that cannot be built.
pub open spec fn unfit_from(specs: Seq<DspSpecView>, sample_rate: nat, from: int) -> Option<
    EqBandSpec,
>
    decreases specs.len() - from,
{
    if from < 0 || from >= specs.len() {
        None
    } else {
        match unfit_in(specs[from], sample_rate) {
            Some(band) => Some(band),
            None => unfit_from(specs, sample_rate, from + 1),
        }
    }
}

/// The stages of a chain in the state that they start in: none bypassed.
pub open spec fn fresh(specs: Seq<DspSpecView>) -> Seq<DspStageView> {
    Seq::new(specs.len(), |i: int| DspStageView { spec: specs[i], bypassed: false })
}

/// The bands with one of them replaced; a position that there is none at
/// changes nothing.
pub open spec fn with_band(bands: Seq<EqBandSpec>, at: int, band: EqBandSpec) -> Seq<EqBandSpec> {
    if 0 <= at < bands.len() {
        bands.update(at, band)
    } else {
        bands
    }
}

/// A stage after one of its parameters was set. A parameter of another kind of
/// stage changes nothing.
pub open spec fn tuned(spec: DspSpecView, param: DspParam) -> DspSpecView {
    match (spec, param) {
        (DspSpecView::Eq { bands }, DspParam::EqBand { band, spec }) => DspSpecView::Eq {
            bands: with_band(bands, band as int, spec),
        },
        (DspSpecView::Limiter { ceiling_db }, DspParam::LimiterCeilingDb(db)) => {
            DspSpecView::Limiter { ceiling_db: db }
        },
        _ => spec,
    }
}

/// The chain after a parameter of one stage was set. A stage that is not there
/// is passed over: the command may be older than the chain.
pub open spec fn chain_tuned(stages: Seq<DspStageView>, stage: int, param: DspParam) -> Seq<
    DspStageView,
> {
    if 0 <= stage < stages.len() {
        stages.update(
            stage,
            DspStageView { spec: tuned(stages[stage].spec, param), ..stages[stage] },
        )
    } else {
        stages
    }
}

/// The chain after one stage was bypassed or taken back in.
pub open spec fn chain_bypassed(stages: Seq<DspStageView>, stage: int, bypassed: bool) -> Seq<
    DspStageView,
> {
    if 0 <= stage < stages.len() {
        stages.update(stage, DspStageView { bypassed, ..stages[stage] })
    } else {
        stages
    }
}

/// The stages of one group, in the order that the signal passes them.
#[derive(Debug)]
pub struct DspChain {
    pub stages: Vec<DspStageConfig>,
}

impl DeepView for DspChain {
    type V = Seq<DspStageView>;

    open spec fn deep_view(&self) -> Seq<DspStageView> {
        self.stages.deep_view()
    }
}

pub fn check_bands(bands: &Vec<EqBandSpec>, sample_rate: u32) -> (r: Result<(), DomainError>)
    ensures
        r == match first_unfit(bands.deep_view(), sample_rate as nat, 0) {
            None => Ok::<(), DomainError>(()),
            Some(band) => Err::<(), DomainError>(
                DomainError::InvalidEqBand { freq_hz: band.freq_hz, q: band.q },
            ),
        },
{
    let mut i: usize = 0;
    while i < bands.len()
        invariant
            i <= bands.len(),
            first_unfit(bands.deep_view(), sample_rate as nat, 0) == first_unfit(
                bands.deep_view(),
                sample_rate as nat,
                i as int,
            ),
        decreases bands.len() - i,
    {
        assert(bands.deep_view()[i as int] == bands@[i as int]);
        match validate_eq_band(&bands[i], sample_rate) {
            Ok(()) => {},
            Err(e) => {
                return Err(e);
            },
        }
        i = i + 1;
    }
    Ok(())
}

fn tune(spec: &mut DspSpec, param: DspParam)
    ensures
        final(spec).deep_view() == tuned(old(spec).deep_view(), param),
{
    match spec {
        DspSpec::Eq { bands } => match param {
            DspParam::EqBand { band, spec } => {
                let ghost before = bands.deep_view();
                if band < bands.len() {
                    bands[band] = spec;
                }
                assert(bands.deep_view() =~= with_band(before, band as int, spec));
            },
            DspParam::LimiterCeilingDb(db) => {},
        },
        DspSpec::Limiter { ceiling_db } => match param {
            DspParam::EqBand { band, spec } => {},
            DspParam::LimiterCeilingDb(db) => {
                *ceiling_db = db;
            },
        },
    }
}

impl DspChain {
    /// The chain of a list of stages at a format, refused where a band of an
    /// equaliser cannot be built at its sample rate.
    pub fn new(specs: &Vec<DspSpec>, fmt: Format) -> (r: Result<DspChain, DomainError>)
        ensures
            match unfit_from(specs.deep_view(), fmt.sample_rate as nat, 0) {
                None => r matches Ok(chain) && chain.deep_view() == fresh(specs.deep_view()),
                Some(band) => r == Err::<DspChain, DomainError>(
                    DomainError::InvalidEqBand { freq_hz: band.freq_hz, q: band.q },
                ),
            },
    {
        let mut stages: Vec<DspStageConfig> = Vec::new();
        let mut i: usize = 0;
        while i < specs.len()
            invariant
                i <= specs.len(),
                stages.deep_view() == fresh(specs.deep_view()).take(i as int),
                unfit_from(specs.deep_view(), fmt.sample_rate as nat, 0) == unfit_from(
                    specs.deep_view(),
                    fmt.sample_rate as nat,
                    i as int,
                ),
            decreases specs.len() - i,
        {
            assert(specs.deep_view()[i as int] == specs@[i as int].deep_view());
            match &specs[i] {
                DspSpec::Eq { bands } => match check_bands(bands, fmt.sample_rate) {
                    Ok(()) => {},
                    Err(e) => {
                        return Err(e);
                    },
                },
                DspSpec::Limiter { ceiling_db } => {},
            }
            let ghost before = stages.deep_view();
            stages.push(DspStageConfig { spec: specs[i].clone(), bypassed: false });
            i = i + 1;
            assert(stages.deep_view() =~= before.push(fresh(specs.deep_view())[i - 1]));
            assert(fresh(specs.deep_view()).take(i as int) =~= before.push(
                fresh(specs.deep_view())[i - 1],
            ));
        }
        assert(fresh(specs.deep_view()).take(i as int) =~= fresh(specs.deep_view()));
        Ok(DspChain { stages })
    }

    /// Sets a new target for one parameter of one stage.
    pub fn set_param(&mut self, stage: usize, param: DspParam)
        ensures
            final(self).deep_view() == chain_tuned(old(self).deep_view(), stage as int, param),
    {
        if stage < self.stages.len() {
            let ghost before = self.deep_view();
            assert(before[stage as int] == self.stages@[stage as int].deep_view());
            tune(&mut self.stages[stage].spec, param);
            assert(self.deep_view() =~= chain_tuned(before, stage as int, param));
        }
    }

    /// Bypasses one stage, or takes it back in.
    pub fn set_bypass(&mut self, stage: usize, bypassed: bool)
        ensures
            final(self).deep_view() == chain_bypassed(
                old(self).deep_view(),
                stage as int,
                bypassed,
            ),
    {
        if stage < self.stages.len() {
            let ghost before = self.deep_view();
            let current = &mut self.stages[stage];
            current.bypassed = bypassed;
            assert(self.deep_view() =~= chain_bypassed(before, stage as int, bypassed));
        }
    }
}

/// Setting a parameter never changes how many stages there are, nor any stage
/// but the one it names.
pub proof fn tuning_stays_in_its_stage(
    stages: Seq<DspStageView>,
    stage: int,
    param: DspParam,
    other: int,
)
    requires
        0 <= other < stages.len(),
        other != stage,
    ensures
        chain_tuned(stages, stage, param).len() == stages.len(),
        chain_tuned(stages, stage, param)[other] == stages[other],
{
}

} // verus!

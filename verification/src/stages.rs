//! The stages of a group while they run: an equaliser or a limiter each, with
//! what it remembers.
use crate::dsp::{DspParam, DspSpec, DspSpecView, EqBandSpec};
use crate::dynamics::{limited, limiter_fresh, Limiter};
use crate::equalizer::{
    band_cleared, eq_fresh, eq_retuned, equalized, passes_band, retuned, row_runs, EqBandView,
    ParametricEq, ParametricEqView,
};
use crate::float::Float32;
use crate::model::{DspStageConfig, DspStageView};
use crate::numbers::one_is_one;
use crate::ramp::{crossfades, Arithmetic, BypassRamp, ONE_BITS};
use crate::sample::Format;
use vstd::prelude::*;

verus! {

/// One stage of a chain.
#[derive(Debug)]
pub enum DspStage {
    Eq(ParametricEq),
    Limiter(Limiter),
}

/// What a [`DspStage`] holds.
pub enum RunningView {
    Eq(ParametricEqView),
    Limiter(Limiter),
}

impl DeepView for DspStage {
    type V = RunningView;

    open spec fn deep_view(&self) -> RunningView {
        match self {
            DspStage::Eq(eq) => RunningView::Eq(eq.deep_view()),
            DspStage::Limiter(limiter) => RunningView::Limiter(*limiter),
        }
    }
}

impl RunningView {
    pub open spec fn wf(self) -> bool {
        match self {
            RunningView::Eq(eq) => eq.wf(),
            RunningView::Limiter(limiter) => limiter.wf(),
        }
    }
}

/// A stage that rests at what it is built from.
pub open spec fn stage_fresh<A: Arithmetic>(
    a: A,
    spec: DspSpecView,
    fmt: Format,
    stage: RunningView,
) -> bool {
    match (spec, stage) {
        (DspSpecView::Eq { bands }, RunningView::Eq(eq)) => eq_fresh(a, bands, fmt, eq),
        (DspSpecView::Limiter { ceiling_db }, RunningView::Limiter(limiter)) => limiter_fresh(
            a,
            ceiling_db,
            fmt,
            limiter,
        ),
        _ => false,
    }
}

/// A stage can make `out` of a block.
pub open spec fn stage_runs<A: Arithmetic>(
    a: A,
    stage: RunningView,
    block: Seq<Float32>,
    after: RunningView,
    out: Seq<Float32>,
) -> bool {
    match (stage, after) {
        (RunningView::Eq(eq), RunningView::Eq(later)) => equalized(a, eq, block, later, out),
        (RunningView::Limiter(limiter), RunningView::Limiter(later)) => limited(
            a,
            limiter,
            block,
            later,
            out,
        ),
        _ => false,
    }
}

/// A limiter on its way to another ceiling.
pub open spec fn ceiling_set<A: Arithmetic>(
    a: A,
    limiter: Limiter,
    ceiling_db: Float32,
    after: Limiter,
) -> bool {
    exists|ceiling: Float32| #[trigger]
        call_ensures(A::linear, (&a, ceiling_db), ceiling) && after == (Limiter {
            ceiling: limiter.ceiling.toward(ceiling),
            ..limiter
        })
}

/// A stage after one of its parameters was set. A parameter of another kind of
/// stage changes nothing.
pub open spec fn param_set<A: Arithmetic>(
    a: A,
    stage: RunningView,
    param: DspParam,
    after: RunningView,
) -> bool {
    match (stage, param) {
        (RunningView::Eq(eq), DspParam::EqBand { band, spec }) => after == RunningView::Eq(
            eq_retuned(eq, band as int, spec),
        ),
        (RunningView::Limiter(limiter), DspParam::LimiterCeilingDb(db)) => after matches
            RunningView::Limiter(later) && ceiling_set(a, limiter, db, later),
        _ => after == stage,
    }
}

/// A stage that is passed over from now on, or no longer.
pub open spec fn bypass_set(stage: RunningView, bypassed: bool) -> RunningView {
    match stage {
        RunningView::Eq(eq) => RunningView::Eq(
            ParametricEqView { bypass: eq.bypass.toward(bypassed), ..eq },
        ),
        RunningView::Limiter(limiter) => RunningView::Limiter(
            Limiter { bypass: limiter.bypass.toward(bypassed), ..limiter },
        ),
    }
}

/// A stage that has forgotten what it heard.
pub open spec fn cleared(stage: RunningView) -> RunningView {
    match stage {
        RunningView::Eq(eq) => RunningView::Eq(
            ParametricEqView {
                bands: eq.bands.map_values(|band: EqBandView| band_cleared(band)),
                ..eq
            },
        ),
        RunningView::Limiter(limiter) => RunningView::Limiter(
            Limiter { envelope: Float32 { bits: ONE_BITS }, engaged: false, ..limiter },
        ),
    }
}

/// The bands of a row on their way to a list of numbers.
pub open spec fn row_retuned(row: Seq<EqBandView>, bands: Seq<EqBandSpec>) -> Seq<EqBandView> {
    Seq::new(
        row.len(),
        |b: int|
            if b < bands.len() {
                retuned(row[b], bands[b])
            } else {
                row[b]
            },
    )
}

/// A stage is built for so many channels as this one would be, and of as many
/// parts.
pub open spec fn shaped_like(stage: RunningView, spec: DspSpecView, channels: nat) -> bool {
    match (stage, spec) {
        (RunningView::Eq(eq), DspSpecView::Eq { bands }) => eq.wf() && eq.channels == channels
            && eq.bands.len() == bands.len(),
        (RunningView::Limiter(limiter), DspSpecView::Limiter { ceiling_db }) => limiter.channels
            == channels,
        _ => false,
    }
}

/// A stage on its way to the settings of a configuration.
pub open spec fn stage_tuned<A: Arithmetic>(
    a: A,
    stage: RunningView,
    config: DspStageView,
    after: RunningView,
) -> bool {
    match (stage, config.spec) {
        (RunningView::Eq(eq), DspSpecView::Eq { bands }) => after == RunningView::Eq(
            ParametricEqView {
                bands: row_retuned(eq.bands, bands),
                bypass: eq.bypass.toward(config.bypassed),
                ..eq
            },
        ),
        (RunningView::Limiter(limiter), DspSpecView::Limiter { ceiling_db }) => after matches
            RunningView::Limiter(later) && ceiling_set(
            a,
            Limiter { bypass: limiter.bypass.toward(config.bypassed), ..limiter },
            ceiling_db,
            later,
        ),
        _ => after == stage,
    }
}

fn retune_row(eq: &mut ParametricEq, bands: &Vec<EqBandSpec>)
    ensures
        final(eq).deep_view() == (ParametricEqView {
            bands: row_retuned(old(eq).deep_view().bands, bands.deep_view()),
            ..old(eq).deep_view()
        }),
{
    let ghost first = eq.deep_view();
    let mut b: usize = 0;
    while b < bands.len()
        invariant
            b <= bands@.len(),
            eq.deep_view() == (ParametricEqView { bands: eq.deep_view().bands, ..first }),
            eq.deep_view().bands == row_retuned(first.bands, bands.deep_view().take(b as int)),
        decreases bands@.len() - b,
    {
        let ghost row = eq.deep_view().bands;
        assert(bands.deep_view()[b as int] == bands@[b as int]);
        eq.set_band(b, bands[b]);
        b = b + 1;
        assert(eq.deep_view().bands =~= row_retuned(
            first.bands,
            bands.deep_view().take(b as int),
        ));
    }
    assert(bands.deep_view().take(b as int) =~= bands.deep_view());
}

impl DspStage {
    /// A stage at rest.
    pub fn at_rest<A: Arithmetic>(a: &A, spec: &DspSpec, fmt: Format) -> (r: DspStage)
        requires
            fmt.channels > 0,
        ensures
            r.deep_view().wf(),
            stage_fresh(*a, spec.deep_view(), fmt, r.deep_view()),
    {
        match spec {
            DspSpec::Eq { bands } => {
                let eq = ParametricEq::at_rest(a, bands, fmt);
                assert(bands.deep_view() =~= bands@);
                DspStage::Eq(eq)
            },
            DspSpec::Limiter { ceiling_db } => DspStage::Limiter(Limiter::new(a, *ceiling_db, fmt)),
        }
    }

    /// Lets a block pass the stage.
    pub fn process<A: Arithmetic>(&mut self, a: &A, block: &mut Vec<Float32>)
        requires
            old(self).deep_view().wf(),
        ensures
            final(self).deep_view().wf(),
            stage_runs(
                *a,
                old(self).deep_view(),
                old(block)@,
                final(self).deep_view(),
                final(block)@,
            ),
    {
        match self {
            DspStage::Eq(eq) => eq.process(a, block),
            DspStage::Limiter(limiter) => limiter.process(a, block),
        }
    }

    /// Sets a new target for one parameter.
    pub fn set_param<A: Arithmetic>(&mut self, a: &A, param: DspParam)
        ensures
            param_set(*a, old(self).deep_view(), param, final(self).deep_view()),
    {
        match self {
            DspStage::Eq(eq) => match param {
                DspParam::EqBand { band, spec } => eq.set_band(band, spec),
                DspParam::LimiterCeilingDb(db) => {},
            },
            DspStage::Limiter(limiter) => match param {
                DspParam::EqBand { band, spec } => {},
                DspParam::LimiterCeilingDb(db) => limiter.set_ceiling(a, db),
            },
        }
    }

    fn is_shaped_like(&self, spec: &DspSpec, channels: u16) -> (r: bool)
        ensures
            r == shaped_like(self.deep_view(), spec.deep_view(), channels as nat),
    {
        match (self, spec) {
            (DspStage::Eq(eq), DspSpec::Eq { bands }) => eq.is_sound() && eq.channels
                == channels as usize && eq.bands.len() == bands.len(),
            (DspStage::Limiter(limiter), DspSpec::Limiter { ceiling_db }) => limiter.channels
                == channels as usize,
            _ => false,
        }
    }

    /// Sets all targets as a configuration says.
    pub fn tune<A: Arithmetic>(&mut self, a: &A, config: &DspStageConfig)
        ensures
            stage_tuned(*a, old(self).deep_view(), config.deep_view(), final(self).deep_view()),
            old(self).deep_view().wf() ==> final(self).deep_view().wf(),
    {
        match self {
            DspStage::Eq(eq) => match &config.spec {
                DspSpec::Eq { bands } => {
                    eq.set_bypass(config.bypassed);
                    retune_row(eq, bands);
                },
                DspSpec::Limiter { ceiling_db } => {},
            },
            DspStage::Limiter(limiter) => match &config.spec {
                DspSpec::Eq { bands } => {},
                DspSpec::Limiter { ceiling_db } => {
                    limiter.set_bypass(config.bypassed);
                    limiter.set_ceiling(a, *ceiling_db);
                },
            },
        }
    }

    /// Fades the stage out, or back in.
    pub fn set_bypass(&mut self, bypassed: bool)
        ensures
            final(self).deep_view() == bypass_set(old(self).deep_view(), bypassed),
    {
        match self {
            DspStage::Eq(eq) => eq.set_bypass(bypassed),
            DspStage::Limiter(limiter) => limiter.set_bypass(bypassed),
        }
    }

    /// Forgets what was heard.
    pub fn reset(&mut self)
        ensures
            final(self).deep_view() == cleared(old(self).deep_view()),
    {
        match self {
            DspStage::Eq(eq) => eq.reset(),
            DspStage::Limiter(limiter) => limiter.reset(),
        }
    }
}

/// The running stages of one group.
#[derive(Debug)]
pub struct Rack {
    pub format: Format,
    pub stages: Vec<DspStage>,
}

/// What a [`Rack`] holds.
pub struct RackView {
    pub format: Format,
    pub stages: Seq<RunningView>,
}

impl DeepView for Rack {
    type V = RackView;

    open spec fn deep_view(&self) -> RackView {
        RackView { format: self.format, stages: self.stages.deep_view() }
    }
}

impl RackView {
    /// The stage at a position can go on under a configuration.
    pub open spec fn keeps(self, at: int, config: DspStageView) -> bool {
        0 <= at < self.stages.len() && shaped_like(
            self.stages[at],
            config.spec,
            self.format.channels as nat,
        )
    }
}

/// A rack can make `out` of a block in its stage at a position. A stage that is
/// there and shaped as the configuration says goes on; any other is built anew,
/// and what came after it is gone. Either way it goes to the settings of the
/// configuration.
pub open spec fn rack_runs<A: Arithmetic>(
    a: A,
    rack: RackView,
    at: int,
    config: DspStageView,
    block: Seq<Float32>,
    after: RackView,
    out: Seq<Float32>,
) -> bool {
    &&& after.format == rack.format
    &&& after.stages.len() == if rack.keeps(at, config) {
        rack.stages.len()
    } else {
        (at + 1) as nat
    }
    &&& forall|i: int|
        0 <= i < after.stages.len() && i != at ==> #[trigger] after.stages[i] == rack.stages[i]
    &&& exists|ready: RunningView, set: RunningView|
        {
            &&& if rack.keeps(at, config) {
                ready == rack.stages[at]
            } else {
                stage_fresh(a, config.spec, rack.format, ready)
            }
            &&& #[trigger] stage_tuned(a, ready, config, set)
            &&& stage_runs(a, set, block, after.stages[at], out)
        }
}

impl Rack {
    /// A rack without stages.
    pub fn new(format: Format) -> (r: Rack)
        ensures
            r.deep_view() == (RackView { format, stages: Seq::empty() }),
    {
        let r = Rack { format, stages: Vec::new() };
        assert(r.deep_view().stages =~= Seq::empty());
        r
    }

    /// Lets a block pass one stage.
    pub fn process<A: Arithmetic>(
        &mut self,
        a: &A,
        at: usize,
        config: &DspStageConfig,
        block: &mut Vec<Float32>,
    )
        requires
            old(self).format.channels > 0,
            at <= old(self).stages@.len(),
        ensures
            rack_runs(
                *a,
                old(self).deep_view(),
                at as int,
                config.deep_view(),
                old(block)@,
                final(self).deep_view(),
                final(block)@,
            ),
    {
        let ghost first = self.deep_view();
        let keeps: bool = at < self.stages.len() && self.stages[at].is_shaped_like(
            &config.spec,
            self.format.channels,
        );
        if !keeps {
            self.stages.truncate(at);
            let stage = DspStage::at_rest(a, &config.spec, self.format);
            self.stages.push(stage);
        }
        let ghost ready = self.deep_view();
        proof {
            assert(keeps == first.keeps(at as int, config.deep_view())) by {
                if at < first.stages.len() {
                    assert(first.stages[at as int] == first.stages[at as int]);
                }
            }
            assert forall|i: int| 0 <= i < at implies ready.stages[i] == first.stages[i] by {
            }
            assert(ready.stages[at as int] == self.stages@[at as int].deep_view());
        }
        self.stages[at].tune(a, config);
        let ghost set = self.deep_view();
        assert(set.stages =~= ready.stages.update(at as int, self.stages@[at as int].deep_view()));
        self.stages[at].process(a, block);
        proof {
            let after = self.deep_view();
            assert(after.stages =~= ready.stages.update(
                at as int,
                self.stages@[at as int].deep_view(),
            ));
            assert(stage_tuned(
                *a,
                ready.stages[at as int],
                config.deep_view(),
                set.stages[at as int],
            ));
        }
    }
}

/// A stage goes to the settings of a configuration.
pub open spec fn goes_to<A: Arithmetic>(a: A, stage: RunningView, config: DspStageView) -> bool {
    match (stage, config.spec) {
        (RunningView::Eq(eq), DspSpecView::Eq { bands }) => {
            &&& eq.bands.len() == bands.len()
            &&& forall|b: int|
                0 <= b < bands.len() ==> (#[trigger] eq.bands[b]).freq.target == bands[b].freq_hz
                    && eq.bands[b].gain_db.target == bands[b].gain_db && eq.bands[b].q.target
                    == bands[b].q
            &&& goes_to_bypass(eq.bypass, config.bypassed)
        },
        (RunningView::Limiter(limiter), DspSpecView::Limiter { ceiling_db }) => {
            &&& call_ensures(A::linear, (&a, ceiling_db), limiter.ceiling.target)
            &&& goes_to_bypass(limiter.bypass, config.bypassed)
        },
        _ => false,
    }
}

/// A fade goes out where a stage is passed over, and in elsewhere.
pub open spec fn goes_to_bypass(bypass: BypassRamp, bypassed: bool) -> bool {
    if bypassed {
        bypass.mix.target.bits == 0
    } else {
        bypass.mix.target.is_quotient(1, 1)
    }
}

/// Whatever a rack did before, its stage goes to the settings that it is configured
/// with, and every stage before it is left as it was.
pub proof fn a_stage_goes_to_its_configuration<A: Arithmetic>(
    a: A,
    rack: RackView,
    at: int,
    config: DspStageView,
    block: Seq<Float32>,
    after: RackView,
    out: Seq<Float32>,
    i: int,
)
    requires
        0 <= at <= rack.stages.len(),
        rack_runs(a, rack, at, config, block, after, out),
    ensures
        at < after.stages.len(),
        goes_to(a, after.stages[at], config),
        0 <= i < at ==> after.stages[i] == rack.stages[i],
{
    let (ready, set) = choose|ready: RunningView, set: RunningView|
        {
            &&& if rack.keeps(at, config) {
                ready == rack.stages[at]
            } else {
                stage_fresh(a, config.spec, rack.format, ready)
            }
            &&& #[trigger] stage_tuned(a, ready, config, set)
            &&& stage_runs(a, set, block, after.stages[at], out)
        };
    one_is_one();
    assert(goes_to(a, set, config));
    match (set, after.stages[at], config.spec) {
        (RunningView::Eq(eq), RunningView::Eq(later), DspSpecView::Eq { bands }) => {
            let signals = choose|signals: Seq<Seq<Float32>>| #[trigger]
                row_runs(a, eq, block, signals, later) && crossfades(
                    a,
                    eq.bypass.mix,
                    block,
                    signals.last(),
                    eq.channels as int,
                    later.bypass.mix,
                    out,
                );
            assert forall|b: int| 0 <= b < bands.len() implies (
            #[trigger] later.bands[b]).freq.target == bands[b].freq_hz
                && later.bands[b].gain_db.target == bands[b].gain_db && later.bands[b].q.target
                == bands[b].q by {
                assert(passes_band(a, eq, signals, later, b));
                assert(eq.bands[b].freq.target == bands[b].freq_hz);
            }
        },
        _ => {},
    }
}

/// A stage that goes on has forgotten nothing of what it heard, and one that was
/// cleared has forgotten all of it, but not its settings.
pub proof fn only_clearing_forgets<A: Arithmetic>(
    a: A,
    stage: RunningView,
    config: DspStageView,
    set: RunningView,
    b: int,
    c: int,
)
    requires
        stage_tuned(a, stage, config, set),
    ensures
        match (stage, set, cleared(stage)) {
            (RunningView::Eq(eq), RunningView::Eq(then), RunningView::Eq(empty)) => 0 <= b
                < eq.bands.len() ==> {
                &&& then.bands.len() == eq.bands.len() == empty.bands.len()
                &&& then.bands[b].memories == eq.bands[b].memories
                &&& then.bands[b].freq.current == eq.bands[b].freq.current
                &&& then.bands[b].gain_db.current == eq.bands[b].gain_db.current
                &&& then.bands[b].q.current == eq.bands[b].q.current
                &&& empty.bands[b].freq == eq.bands[b].freq
                &&& empty.bands[b].gain_db == eq.bands[b].gain_db
                &&& empty.bands[b].q == eq.bands[b].q
                &&& empty.bypass == eq.bypass
                &&& 0 <= c < eq.bands[b].memories.len() ==> empty.bands[b].memories[c].z1.bits == 0
                    && empty.bands[b].memories[c].z2.bits == 0
            },
            (
                RunningView::Limiter(limiter),
                RunningView::Limiter(then),
                RunningView::Limiter(empty),
            ) => {
                &&& then.envelope == limiter.envelope
                &&& then.engaged == limiter.engaged
                &&& then.ceiling.current == limiter.ceiling.current
                &&& empty.envelope.is_quotient(1, 1)
                &&& !empty.engaged
                &&& empty.ceiling == limiter.ceiling
                &&& empty.bypass == limiter.bypass
                &&& empty.attack_coeff == limiter.attack_coeff
                &&& empty.release_coeff == limiter.release_coeff
            },
            _ => false,
        },
{
    one_is_one();
}

} // verus!

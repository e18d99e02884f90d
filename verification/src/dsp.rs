//! The shape of the DSP stages a group can carry.
use crate::float::Float32;
use vstd::prelude::*;

verus! {

/// One peaking band of a parametric equaliser.
#[derive(Debug, Clone, Copy, PartialEq)]
pub struct EqBandSpec {
    pub freq_hz: Float32,
    pub gain_db: Float32,
    pub q: Float32,
}

impl DeepView for EqBandSpec {
    type V = EqBandSpec;

    open spec fn deep_view(&self) -> EqBandSpec {
        *self
    }
}

/// What a DSP stage is built from.
#[derive(Debug, PartialEq)]
pub enum DspSpec {
    Eq { bands: Vec<EqBandSpec> },
    Limiter { ceiling_db: Float32 },
}

/// What a stage holds.
pub enum DspSpecView {
    Eq { bands: Seq<EqBandSpec> },
    Limiter { ceiling_db: Float32 },
}

impl DeepView for DspSpec {
    type V = DspSpecView;

    open spec fn deep_view(&self) -> DspSpecView {
        match self {
            DspSpec::Eq { bands } => DspSpecView::Eq { bands: bands.deep_view() },
            DspSpec::Limiter { ceiling_db } => DspSpecView::Limiter { ceiling_db: *ceiling_db },
        }
    }
}

/// A live change to one parameter of a stage.
#[derive(Debug, Clone, Copy, PartialEq)]
pub enum DspParam {
    EqBand { band: usize, spec: EqBandSpec },
    LimiterCeilingDb(Float32),
}

impl EqBandSpec {
    /// Whether the numbers of two bands are equal, one by one.
    pub open spec fn equals(self, other: EqBandSpec) -> bool {
        self.freq_hz.equals(other.freq_hz) && self.gain_db.equals(other.gain_db) && self.q.equals(
            other.q,
        )
    }

    pub fn same(self, other: EqBandSpec) -> (r: bool)
        ensures
            r == self.equals(other),
    {
        self.freq_hz.same(other.freq_hz) && self.gain_db.same(other.gain_db) && self.q.same(other.q)
    }
}

/// Whether two band lists have equal bands in the same order.
pub open spec fn bands_equal(a: Seq<EqBandSpec>, b: Seq<EqBandSpec>) -> bool {
    a.len() == b.len() && forall|i: int| 0 <= i < a.len() ==> (#[trigger] a[i]).equals(b[i])
}

impl DspSpecView {
    /// Whether two stages are of one kind and hold equal numbers.
    pub open spec fn equals(self, other: DspSpecView) -> bool {
        match (self, other) {
            (DspSpecView::Eq { bands: a }, DspSpecView::Eq { bands: b }) => bands_equal(a, b),
            (
                DspSpecView::Limiter { ceiling_db: a },
                DspSpecView::Limiter { ceiling_db: b },
            ) => a.equals(b),
            _ => false,
        }
    }
}

/// A copy of a band list.
pub fn copy_bands(bands: &Vec<EqBandSpec>) -> (r: Vec<EqBandSpec>)
    ensures
        r@ == bands@,
{
    let mut out: Vec<EqBandSpec> = Vec::new();
    let mut i: usize = 0;
    while i < bands.len()
        invariant
            i <= bands.len(),
            out@ == bands@.take(i as int),
        decreases bands.len() - i,
    {
        out.push(bands[i]);
        i = i + 1;
        assert(bands@.take(i as int) == bands@.take(i - 1).push(bands@[i - 1]));
    }
    assert(bands@.take(i as int) == bands@);
    out
}

/// Whether two band lists have equal bands in the same order.
pub fn same_bands(a: &Vec<EqBandSpec>, b: &Vec<EqBandSpec>) -> (r: bool)
    ensures
        r == bands_equal(a.deep_view(), b.deep_view()),
{
    if a.len() != b.len() {
        return false;
    }
    let mut i: usize = 0;
    while i < a.len()
        invariant
            i <= a.len() == b.len(),
            forall|j: int|
                0 <= j < i ==> (#[trigger] a.deep_view()[j]).equals(b.deep_view()[j]),
        decreases a.len() - i,
    {
        if !a[i].same(b[i]) {
            assert(!a.deep_view()[i as int].equals(b.deep_view()[i as int]));
            return false;
        }
        i = i + 1;
    }
    true
}

impl Clone for DspSpec {
    fn clone(&self) -> (r: DspSpec)
        ensures
            r.deep_view() == self.deep_view(),
    {
        match self {
            DspSpec::Eq { bands } => DspSpec::Eq { bands: copy_bands(bands) },
            DspSpec::Limiter { ceiling_db } => DspSpec::Limiter { ceiling_db: *ceiling_db },
        }
    }
}

impl DspSpec {
    /// Whether two stages are of one kind and hold equal numbers.
    pub fn same(&self, other: &DspSpec) -> (r: bool)
        ensures
            r == self.deep_view().equals(other.deep_view()),
    {
        match (self, other) {
            (DspSpec::Eq { bands: a }, DspSpec::Eq { bands: b }) => same_bands(a, b),
            (
                DspSpec::Limiter { ceiling_db: a },
                DspSpec::Limiter { ceiling_db: b },
            ) => a.same(*b),
            _ => false,
        }
    }
}

} // verus!

//! How loud a conversion between channel layouts can get.
use crate::channel::{gathers, level_number, loudest, ChannelMatrix, Level};
use crate::float::Float32;
use crate::span::adds;
use vstd::prelude::*;

verus! {

/// Numbers as whole multiples of a small one, and how far arithmetic on them may
/// be off.
pub struct Scale {
    pub worth: spec_fn(Float32) -> int,
    /// What one is worth.
    pub unit: int,
    /// What the largest number is worth that occurs.
    pub reach: int,
    /// How far a single result may be off; nothing where no result is rounded.
    pub slack: int,
}

pub open spec fn magnitude(n: int) -> int {
    if n < 0 {
        -n
    } else {
        n
    }
}

impl Scale {
    /// A number that is not negative, and not too large.
    pub open spec fn has(self, x: Float32) -> bool {
        0 <= (self.worth)(x) <= self.reach
    }

    /// The levels of a matrix are worth what they say, and numbers are ordered
    /// by their worth.
    pub open spec fn fits(self) -> bool {
        &&& 0 < self.unit <= self.reach
        &&& 0 <= self.slack
        &&& (self.worth)(level_number(Level::Off)) == 0
        &&& (self.worth)(level_number(Level::Unity)) == self.unit
        &&& 0 <= (self.worth)(level_number(Level::Fold)) <= self.unit
        &&& forall|a: Float32, b: Float32|
            self.has(a) && self.has(b) ==> (#[trigger] a.less(b) <==> (self.worth)(a) < (
            self.worth)(b))
    }

    /// Levels are added up, give or take the slack.
    pub open spec fn adds_up<F: Fn(Float32, Float32) -> Float32>(self, plus: F) -> bool {
        forall|a: Float32, b: Float32, r: Float32|
            self.has(a) && 0 <= (self.worth)(b) <= self.unit && #[trigger] call_ensures(
                plus,
                (a, b),
                r,
            ) ==> {
                let exact = (self.worth)(a) + (self.worth)(b);
                0 <= (self.worth)(r) && exact - self.slack <= (self.worth)(r) <= exact + self.slack
            }
    }

    /// Levels are divided, give or take the slack.
    pub open spec fn divides<G: Fn(Float32, Float32) -> Float32>(self, divide: G) -> bool {
        forall|a: Float32, b: Float32, r: Float32|
            0 <= (self.worth)(a) <= self.unit < (self.worth)(b) <= self.reach
                && #[trigger] call_ensures(divide, (a, b), r) ==> 0 <= (self.worth)(r) && (
            self.worth)(r) * (self.worth)(b) <= (self.worth)(a) * self.unit + self.slack * (
            self.worth)(b)
    }

    /// A sample at its factor is added to a sum, give or take the slack.
    pub open spec fn gathers_up<T, H: Fn(T, usize, T) -> T>(
        self,
        sample: spec_fn(T) -> int,
        factors: Seq<Float32>,
        mac: H,
    ) -> bool {
        forall|a: T, k: usize, x: T, r: T|
            k < factors.len() && magnitude(sample(a)) <= self.reach && magnitude(sample(x))
                <= self.unit && #[trigger] call_ensures(mac, (a, k, x), r) ==> magnitude(sample(r))
                * self.unit <= magnitude(sample(a)) * self.unit + (self.worth)(factors[k as int])
                * magnitude(sample(x)) + self.slack * self.unit
    }

    /// What the first `n` numbers from `row` on are worth together.
    pub open spec fn together(self, numbers: Seq<Float32>, row: int, n: int) -> int
        decreases n,
    {
        if n <= 0 {
            0
        } else {
            self.together(numbers, row, n - 1) + (self.worth)(numbers[row + n - 1])
        }
    }
}

proof fn lemma_levels(scale: Scale, matrix: ChannelMatrix, k: int)
    requires
        scale.fits(),
        0 <= k < matrix.coef@.len(),
    ensures
        0 <= (scale.worth)(matrix.numbers()[k]) <= scale.unit,
{
    match matrix.coef@[k] {
        Level::Off => {},
        Level::Unity => {},
        Level::Fold => {},
    }
}

proof fn lemma_row_sum<F: Fn(Float32, Float32) -> Float32>(
    scale: Scale,
    matrix: ChannelMatrix,
    plus: F,
    row: int,
    n: int,
    terms: Seq<Float32>,
    sum: Float32,
)
    requires
        scale.fits(),
        scale.adds_up(plus),
        0 <= n,
        0 <= row,
        row + n <= matrix.coef@.len(),
        n * (scale.unit + scale.slack) <= scale.reach,
        terms == matrix.numbers().subrange(row, row + n),
        adds(plus, Float32 { bits: 0 }, terms, sum),
    ensures
        0 <= (scale.worth)(sum) <= n * (scale.unit + scale.slack),
        scale.together(matrix.numbers(), row, n) <= (scale.worth)(sum) + n * scale.slack,
    decreases n,
{
    if n == 0 {
        assert(0 * (scale.unit + scale.slack) == 0 && 0 * scale.slack == 0) by (nonlinear_arith);
    } else {
        let mid = choose|mid: Float32|
            adds(plus, Float32 { bits: 0 }, terms.drop_last(), mid) && #[trigger] call_ensures(
                plus,
                (mid, terms.last()),
                sum,
            );
        assert(terms.drop_last() =~= matrix.numbers().subrange(row, row + (n - 1)));
        let step = scale.unit + scale.slack;
        assert(n * step == (n - 1) * step + step && n * scale.slack == (n - 1) * scale.slack
            + scale.slack) by (nonlinear_arith);
        lemma_row_sum(scale, matrix, plus, row, n - 1, terms.drop_last(), mid);
        lemma_levels(scale, matrix, row + n - 1);
        assert(terms.last() == matrix.numbers()[row + n - 1]);
        assert(scale.has(mid));
    }
}

proof fn lemma_loudest(scale: Scale, sums: Seq<Float32>, n: int, m: int)
    requires
        scale.fits(),
        0 <= m < n <= sums.len(),
        forall|i: int| 0 <= i < n ==> scale.has(#[trigger] sums[i]),
    ensures
        scale.has(loudest(sums, n)),
        (scale.worth)(sums[m]) <= (scale.worth)(loudest(sums, n)),
    decreases n,
{
    let before = loudest(sums, n - 1);
    assert(scale.has(sums[n - 1]));
    if n == 1 {
        assert(before == (Float32 { bits: 0 }));
        assert(before == level_number(Level::Off));
        assert(scale.has(before));
    } else if m < n - 1 {
        lemma_loudest(scale, sums, n - 1, m);
    } else {
        lemma_loudest(scale, sums, n - 1, 0);
    }
    assert(before.less(sums[n - 1]) <==> (scale.worth)(before) < (scale.worth)(sums[n - 1]));
}

/// What the factors of a row are worth, where its levels were divided.
proof fn lemma_divided<G: Fn(Float32, Float32) -> Float32>(
    scale: Scale,
    matrix: ChannelMatrix,
    divide: G,
    sums: Seq<Float32>,
    factors: Seq<Float32>,
    row: int,
    n: int,
)
    requires
        scale.fits(),
        scale.divides(divide),
        matrix.divides_by(divide, sums, factors),
        scale.has(loudest(sums, sums.len() as int)),
        (Float32 { bits: 0x3f80_0000 }).less(loudest(sums, sums.len() as int)),
        0 <= row,
        0 <= n,
        row + n <= factors.len(),
    ensures
        ({
            let top = (scale.worth)(loudest(sums, sums.len() as int));
            &&& scale.unit < top
            &&& 0 <= scale.together(factors, row, n)
            &&& scale.together(factors, row, n) * top <= scale.together(matrix.numbers(), row, n)
                * scale.unit + n * scale.slack * top
        }),
    decreases n,
{
    let loud = loudest(sums, sums.len() as int);
    let top = (scale.worth)(loud);
    assert(level_number(Level::Unity) == (Float32 { bits: 0x3f80_0000 }));
    assert(scale.has(level_number(Level::Unity)));
    assert((Float32 { bits: 0x3f80_0000 }).less(loud) <==> scale.unit < top);
    if n == 0 {
        assert(0 * top == 0 && 0 * scale.unit == 0 && 0 * scale.slack * top == 0)
            by (nonlinear_arith);
    } else {
        lemma_divided(scale, matrix, divide, sums, factors, row, n - 1);
        let k = row + n - 1;
        lemma_levels(scale, matrix, k);
        assert(call_ensures(divide, (matrix.numbers()[k], loud), factors[k]));
        let so_far = scale.together(factors, row, n - 1);
        let levels = scale.together(matrix.numbers(), row, n - 1);
        let factor = (scale.worth)(factors[k]);
        let level = (scale.worth)(matrix.numbers()[k]);
        assert((so_far + factor) * top <= (levels + level) * scale.unit + n * scale.slack * top)
            by (nonlinear_arith)
            requires
                so_far * top <= levels * scale.unit + (n - 1) * scale.slack * top,
                factor * top <= level * scale.unit + scale.slack * top,
        ;
    }
}

proof fn lemma_undivided(scale: Scale, a: Seq<Float32>, b: Seq<Float32>, row: int, n: int)
    requires
        0 <= row,
        forall|k: int| row <= k < row + n ==> #[trigger] a[k] == b[k],
    ensures
        scale.together(a, row, n) == scale.together(b, row, n),
    decreases n,
{
    if n > 0 {
        lemma_undivided(scale, a, b, row, n - 1);
    }
}

proof fn lemma_gathered<T, H: Fn(T, usize, T) -> T>(
    scale: Scale,
    sample: spec_fn(T) -> int,
    factors: Seq<Float32>,
    mac: H,
    silence: T,
    frame: Seq<T>,
    row: int,
    n: int,
    value: T,
)
    requires
        scale.fits(),
        scale.gathers_up(sample, factors, mac),
        sample(silence) == 0,
        0 <= row,
        0 <= n <= frame.len(),
        row + n <= factors.len() <= usize::MAX,
        forall|c: int|
            0 <= c < n ==> magnitude(sample(#[trigger] frame[c])) <= scale.unit,
        forall|k: int| 0 <= k < factors.len() ==> 0 <= (scale.worth)(#[trigger] factors[k]),
        scale.together(factors, row, n) + n * scale.slack <= scale.reach,
        gathers(mac, silence, frame, row, n, value),
    ensures
        magnitude(sample(value)) <= scale.together(factors, row, n) + n * scale.slack,
    decreases n,
{
    if n == 0 {
        assert(0 * scale.slack == 0) by (nonlinear_arith);
    } else {
        let before = choose|before: T|
            gathers(mac, silence, frame, row, n - 1, before) && #[trigger] call_ensures(
                mac,
                (before, (row + n - 1) as usize, frame[n - 1]),
                value,
            );
        let k = row + n - 1;
        let factor = (scale.worth)(factors[k]);
        assert(0 <= factor);
        assert(n * scale.slack == (n - 1) * scale.slack + scale.slack) by (nonlinear_arith);
        lemma_gathered(scale, sample, factors, mac, silence, frame, row, n - 1, before);
        let a = magnitude(sample(before));
        let x = magnitude(sample(frame[n - 1]));
        let r = magnitude(sample(value));
        assert(x <= scale.unit);
        assert(r <= a + factor + scale.slack) by (nonlinear_arith)
            requires
                r * scale.unit <= a * scale.unit + factor * x + scale.slack * scale.unit,
                0 <= factor,
                0 <= x <= scale.unit,
                0 < scale.unit,
        ;
    }
}

/// A conversion does not get louder than full scale: where no sample of a frame
/// is above one, nothing is that the frame is converted to, whatever the layouts
/// are, up to what is rounded on the way.
pub proof fn a_conversion_keeps_below_full_scale<
    T,
    F: Fn(Float32, Float32) -> Float32,
    G: Fn(Float32, Float32) -> Float32,
    H: Fn(T, usize, T) -> T,
>(
    scale: Scale,
    sample: spec_fn(T) -> int,
    matrix: ChannelMatrix,
    plus: F,
    divide: G,
    factors: Seq<Float32>,
    mac: H,
    silence: T,
    frame: Seq<T>,
    m: int,
    value: T,
)
    requires
        matrix.wf(),
        !matrix.identity,
        matrix.balances(plus, divide, factors),
        0 <= m < matrix.out_ch,
        frame.len() == matrix.in_ch,
        gathers(mac, silence, frame, m * matrix.in_ch, matrix.in_ch as int, value),
        scale.fits(),
        scale.adds_up(plus),
        scale.divides(divide),
        scale.gathers_up(sample, factors, mac),
        (matrix.in_ch + 1) * (scale.unit + 3 * scale.slack) <= scale.reach,
        sample(silence) == 0,
        forall|c: int|
            0 <= c < frame.len() ==> magnitude(sample(#[trigger] frame[c])) <= scale.unit,
    ensures
        magnitude(sample(value)) <= scale.unit + 3 * matrix.in_ch * scale.slack,
{
    let n = matrix.in_ch as int;
    let unit = scale.unit;
    let slack = scale.slack;
    let row = m * n;
    let len = matrix.coef@.len() as int;
    assert(0 <= n * slack && 3 * n * slack == 3 * (n * slack) && 2 * n * slack == 2 * (n * slack)
        && (n + 1) * (unit + 3 * slack) == n * (unit + slack) + 2 * (n * slack) + unit + 3 * slack
        && (n + 1) * (unit + 3 * slack) == n * unit + 3 * (n * slack) + unit + 3 * slack && 0 <= n
        * unit && 0 <= n * (unit + slack)) by (nonlinear_arith)
        requires
            0 <= n,
            0 <= slack,
            0 < unit,
    ;
    assert(0 <= row && row + n <= len && (m + 1) * n == row + n) by (nonlinear_arith)
        requires
            0 <= m < matrix.out_ch,
            0 <= n,
            len == matrix.out_ch * n,
            row == m * n,
    ;
    if n == 0 {
        assert(3 * n * slack == 0) by (nonlinear_arith)
            requires
                n == 0,
        ;
    } else {
        let sums = choose|sums: Seq<Float32>|
            {
                &&& sums.len() == matrix.row_count()
                &&& #[trigger] matrix.sums_rows(plus, sums)
                &&& matrix.divides_by(divide, sums, factors)
            };
        assert(matrix.row_count() == matrix.out_ch) by {
            vstd::arithmetic::div_mod::lemma_fundamental_div_mod_converse(
                len,
                n,
                matrix.out_ch as int,
                0,
            );
            assert(len == matrix.out_ch as int * n + 0);
        }
        assert forall|i: int| 0 <= i < sums.len() implies scale.has(#[trigger] sums[i]) by {
            assert(0 <= i * n && i * n + n <= len && (i + 1) * n == i * n + n) by (nonlinear_arith)
                requires
                    0 <= i < matrix.out_ch,
                    0 <= n,
                    len == matrix.out_ch * n,
            ;
            lemma_row_sum(
                scale,
                matrix,
                plus,
                i * n,
                n,
                matrix.numbers().subrange(i * n, (i + 1) * n),
                sums[i],
            );
        }
        lemma_row_sum(
            scale,
            matrix,
            plus,
            row,
            n,
            matrix.numbers().subrange(row, (m + 1) * n),
            sums[m],
        );
        lemma_loudest(scale, sums, sums.len() as int, m);
        let loud = loudest(sums, sums.len() as int);
        let top = (scale.worth)(loud);
        let levels = scale.together(matrix.numbers(), row, n);
        let total = scale.together(factors, row, n);
        assert(level_number(Level::Unity) == (Float32 { bits: 0x3f80_0000 }));
        assert(scale.has(level_number(Level::Unity)));
        assert((Float32 { bits: 0x3f80_0000 }).less(loud) <==> unit < top);
        assert(levels <= top + n * slack);
        if (Float32 { bits: 0x3f80_0000 }).less(loud) {
            lemma_divided(scale, matrix, divide, sums, factors, row, n);
            assert(total <= unit + 2 * (n * slack)) by (nonlinear_arith)
                requires
                    total * top <= levels * unit + n * slack * top,
                    levels <= top + n * slack,
                    0 < unit < top,
                    0 <= n * slack,
            ;
            assert forall|k: int| 0 <= k < factors.len() implies 0 <= (scale.worth)(
                #[trigger] factors[k],
            ) by {
                lemma_levels(scale, matrix, k);
                assert(call_ensures(divide, (matrix.numbers()[k], loud), factors[k]));
            }
        } else {
            lemma_undivided(scale, factors, matrix.numbers(), row, n);
            assert forall|k: int| 0 <= k < factors.len() implies 0 <= (scale.worth)(
                #[trigger] factors[k],
            ) by {
                lemma_levels(scale, matrix, k);
                assert(factors[k] == matrix.numbers()[k]);
            }
        }
        assert(matrix.coef.len() <= usize::MAX);
        lemma_gathered(scale, sample, factors, mac, silence, frame, row, n, value);
    }
}

} // verus!

//! Overlap-save computes the convolution, as accurately as the transform does.
use crate::convolve::{
    block_convolved, convolved, inverts, keeps_length, partitions, segment, sums_bins, transforms,
    Carried, PartitionedConvolver, Transform,
};
use vstd::prelude::*;

verus! {

/// The sum of the first `n` terms.
pub open spec fn total(term: spec_fn(int) -> int, n: int) -> int
    decreases n,
{
    if n <= 0 {
        0
    } else {
        total(term, n - 1) + term(n - 1)
    }
}

/// A sample of a signal, with silence before it and behind it.
pub open spec fn sample_at<T>(signal: Seq<T>, silence: T, i: int) -> T {
    if 0 <= i < signal.len() {
        signal[i]
    } else {
        silence
    }
}

/// Sample `n` of the convolution of a signal with the first `taps` samples of an
/// impulse.
pub open spec fn convolution<T>(
    number: spec_fn(T) -> int,
    silence: T,
    impulse: Seq<T>,
    signal: Seq<T>,
    taps: int,
    n: int,
) -> int {
    total(
        |m: int|
            number(sample_at(impulse, silence, m)) * number(sample_at(signal, silence, n - m)),
        taps,
    )
}

/// Sample `i` of the circular convolution of a window with a kernel of the same
/// length.
pub open spec fn circular<T>(
    number: spec_fn(T) -> int,
    window: Seq<T>,
    kernel: Seq<T>,
    i: int,
) -> int {
    let len = window.len() as int;
    total(|k: int| number(kernel[k]) * number(window[(i - k) % len]), len)
}

/// How accurate a transform is.
pub struct Accuracy {
    /// What stands for one.
    pub unit: int,
    /// The largest number that is ever transformed.
    pub range: int,
    /// How many products are ever summed.
    pub terms: int,
    /// How far a result may be off, as a product of two numbers.
    pub slack: int,
}

impl Accuracy {
    /// A number is no larger than those that are transformed.
    pub open spec fn covers(self, number: int) -> bool {
        -self.range <= number <= self.range
    }

    /// A number is as close as it has to be to a sum of products.
    pub open spec fn near(self, number: int, wanted: int) -> bool {
        wanted - self.slack <= self.unit * number <= wanted + self.slack
    }

    /// All numbers of some windows are small enough.
    pub open spec fn covers_all<T>(self, number: spec_fn(T) -> int, windows: Seq<Seq<T>>) -> bool {
        forall|j: int, i: int|
            0 <= j < windows.len() && 0 <= i < windows[j].len() ==> self.covers(
                number(#[trigger] windows[j][i]),
            )
    }

    /// All numbers of a signal are small enough.
    pub open spec fn covers_signal<T>(self, number: spec_fn(T) -> int, signal: Seq<T>) -> bool {
        forall|i: int| 0 <= i < signal.len() ==> self.covers(number(#[trigger] signal[i]))
    }
}

/// Some spectra are those of windows of one length.
pub open spec fn are_spectra<T, S, F: Transform<T, S>>(
    f: F,
    len: nat,
    windows: Seq<Seq<T>>,
    spectra: Seq<Seq<S>>,
) -> bool {
    &&& windows.len() == spectra.len()
    &&& forall|j: int|
        0 <= j < windows.len() ==> (#[trigger] windows[j]).len() == len && transforms(
            f,
            windows[j],
            spectra[j],
        )
}

/// What the sum of some products of spectra is read as: the sum of the circular
/// convolutions of their windows, or close to it.
pub open spec fn reads_products<T, S, F: Transform<T, S>>(
    f: F,
    number: spec_fn(T) -> int,
    accuracy: Accuracy,
    zero: S,
    len: nat,
    windows: Seq<Seq<T>>,
    kernels: Seq<Seq<T>>,
    line: Seq<Seq<S>>,
    filters: Seq<Seq<S>>,
    sums: Seq<S>,
    answer: Seq<T>,
) -> bool {
    windows.len() == kernels.len() <= accuracy.terms && accuracy.covers_all(number, windows) && accuracy.covers_all(
        number,
        kernels,
    ) && are_spectra(f, len, windows, line) && are_spectra(
        f,
        len,
        kernels,
        filters,
    ) && sums.len() == len && sums_bins::<T, S, F>(f, zero, line, filters, sums) && inverts(
        f,
        sums,
        answer,
    ) ==> forall|i: int|
        0 <= i < len ==> accuracy.near(
            number(#[trigger] answer[i]),
            total(|j: int| circular(number, windows[j], kernels[j], i), windows.len() as int),
        )
}

/// A transform on which the product of spectra is the spectrum of the circular
/// convolution, as closely as is asked for, and silence has the spectrum zero.
/// Without any slack, and with one for a unit, the transform does not round.
pub open spec fn is_accurate<T, S, F: Transform<T, S>>(
    f: F,
    number: spec_fn(T) -> int,
    accuracy: Accuracy,
    zero: S,
    silence: T,
    len: nat,
) -> bool {
    &&& number(silence) == 0
    &&& transforms(f, Seq::new(len, |i: int| silence), Seq::new(len, |i: int| zero))
    &&& forall|
        windows: Seq<Seq<T>>,
        kernels: Seq<Seq<T>>,
        line: Seq<Seq<S>>,
        filters: Seq<Seq<S>>,
        sums: Seq<S>,
        answer: Seq<T>,
    | #[trigger]
        reads_products(
            f,
            number,
            accuracy,
            zero,
            len,
            windows,
            kernels,
            line,
            filters,
            sums,
            answer,
        )
}

proof fn lemma_total_same(a: spec_fn(int) -> int, b: spec_fn(int) -> int, n: int)
    requires
        forall|k: int| 0 <= k < n ==> #[trigger] a(k) == b(k),
    ensures
        total(a, n) == total(b, n),
    decreases n,
{
    if n > 0 {
        lemma_total_same(a, b, n - 1);
    }
}

proof fn lemma_total_split(term: spec_fn(int) -> int, a: int, b: int)
    requires
        0 <= a,
        0 <= b,
    ensures
        total(term, a + b) == total(term, a) + total(|k: int| term(a + k), b),
    decreases b,
{
    if b > 0 {
        lemma_total_split(term, a, b - 1);
    }
}

proof fn lemma_total_nothing(term: spec_fn(int) -> int, n: int)
    requires
        forall|k: int| 0 <= k < n ==> #[trigger] term(k) == 0,
    ensures
        total(term, n) == 0,
    decreases n,
{
    if n > 0 {
        lemma_total_nothing(term, n - 1);
    }
}

proof fn lemma_total_parts(term: spec_fn(int) -> int, p: int, parts: int)
    requires
        0 <= p,
        0 <= parts,
    ensures
        total(term, parts * p) == total(|j: int| total(|k: int| term(j * p + k), p), parts),
    decreases parts,
{
    let inner = |j: int| total(|k: int| term(j * p + k), p);
    if parts == 0 {
        assert(parts * p == 0) by (nonlinear_arith)
            requires
                parts == 0,
        ;
    } else {
        lemma_total_parts(term, p, parts - 1);
        let a = (parts - 1) * p;
        assert(0 <= a && parts * p == a + p) by (nonlinear_arith)
            requires
                a == (parts - 1) * p,
                0 <= p,
                1 <= parts,
        ;
        lemma_total_split(term, a, p);
        lemma_total_same(|k: int| term(a + k), |k: int| term((parts - 1) * p + k), p);
    }
}

/// Two partitions of a signal, from `start` on.
spec fn window_at<T>(signal: Seq<T>, silence: T, p: nat, start: int) -> Seq<T> {
    Seq::new(2 * p, |i: int| sample_at(signal, silence, start + i))
}

/// What a window gives with one partition of an impulse, in its later half.
proof fn lemma_later_half<T>(
    number: spec_fn(T) -> int,
    silence: T,
    impulse: Seq<T>,
    signal: Seq<T>,
    p: nat,
    j: int,
    b: int,
    i: int,
)
    requires
        number(silence) == 0,
        0 <= i < p,
        0 <= j,
    ensures
        circular(
            number,
            window_at(signal, silence, p, (b - 1 - j) * p),
            segment(impulse, silence, p, j),
            p + i,
        ) == total(
            |k: int|
                number(sample_at(impulse, silence, j * p + k)) * number(
                    sample_at(signal, silence, b * p + i - (j * p + k)),
                ),
            p as int,
        ),
{
    let len = 2 * p as int;
    let window = window_at(signal, silence, p, (b - 1 - j) * p);
    let kernel = segment(impulse, silence, p, j);
    let term = |k: int| number(kernel[k]) * number(window[(p + i - k) % len]);
    let wanted = |k: int|
        number(sample_at(impulse, silence, j * p + k)) * number(
            sample_at(signal, silence, b * p + i - (j * p + k)),
        );
    lemma_total_split(term, p as int, p as int);
    let later = |k: int| term(p + k);
    assert forall|k: int| 0 <= k < p implies #[trigger] later(k) == 0 by {
        assert(kernel[p + k] == silence);
        assert(0 * number(window[(p + i - (p + k)) % len]) == 0) by (nonlinear_arith);
    }
    lemma_total_nothing(later, p as int);
    assert(0 <= j * p) by (nonlinear_arith)
        requires
            0 <= j,
    ;
    assert((b - 1 - j) * p + p == b * p - j * p) by (nonlinear_arith);
    assert forall|k: int| 0 <= k < p implies #[trigger] term(k) == wanted(k) by {
        vstd::arithmetic::div_mod::lemma_small_mod((p + i - k) as nat, len as nat);
        assert(window[p + i - k] == sample_at(signal, silence, (b - 1 - j) * p + (p + i - k)));
        assert(kernel[k] == sample_at(impulse, silence, j * p + k));
    }
    lemma_total_same(term, wanted, p as int);
}

/// What is carried after `b` blocks of a signal.
spec fn carries<T, S, F: Transform<T, S>>(
    f: F,
    silence: T,
    signal: Seq<T>,
    p: nat,
    parts: nat,
    b: int,
    carried: Carried<T, S>,
) -> bool {
    &&& carried.prev == Seq::new(p, |i: int| sample_at(signal, silence, (b - 1) * p + i))
    &&& carried.line.len() == parts
    &&& forall|j: int|
        0 <= j < parts ==> transforms(
            f,
            window_at(signal, silence, p, (b - 2 - j) * p),
            #[trigger] carried.line[j],
        )
}

proof fn lemma_one_block<T, S, F: Transform<T, S>>(
    f: F,
    number: spec_fn(T) -> int,
    accuracy: Accuracy,
    zero: S,
    silence: T,
    impulse: Seq<T>,
    filters: Seq<Seq<S>>,
    signal: Seq<T>,
    p: nat,
    b: int,
    before: Carried<T, S>,
    after: Carried<T, S>,
    answer: Seq<T>,
)
    requires
        p >= 1,
        0 <= b,
        (b + 1) * p <= signal.len(),
        keeps_length(f),
        is_accurate(f, number, accuracy, zero, silence, 2 * p),
        accuracy.range >= 0,
        filters.len() <= accuracy.terms,
        accuracy.covers_signal(number, signal),
        accuracy.covers_signal(number, impulse),
        filters.len() >= 1,
        forall|k: int|
            0 <= k < filters.len() ==> transforms(
                f,
                segment(impulse, silence, p, k),
                #[trigger] filters[k],
            ),
        carries(f, silence, signal, p, filters.len(), b, before),
        block_convolved(
            f,
            zero,
            filters,
            before,
            signal.subrange(b * p, (b + 1) * p),
            after,
            answer,
        ),
    ensures
        carries(f, silence, signal, p, filters.len(), b + 1, after),
        answer.len() == p,
        forall|i: int|
            0 <= i < p ==> accuracy.near(
                number(#[trigger] answer[i]),
                convolution(
                    number,
                    silence,
                    impulse,
                    signal,
                    filters.len() * p as int,
                    b * p + i,
                ),
            ),
{
    let parts = filters.len();
    assert(0 <= b * p && (b + 1) * p == b * p + p && (b - 1) * p == b * p - p && ((b + 1) - 1) * p
        == b * p) by (nonlinear_arith)
        requires
            0 <= b,
    ;
    let block = signal.subrange(b * p, (b + 1) * p);
    assert(block.len() == p);
    // The line moves on by one window.
    assert(before.prev + block =~= window_at(signal, silence, p, (b - 1) * p));
    assert forall|j: int| 0 <= j < parts implies transforms(
        f,
        window_at(signal, silence, p, ((b + 1) - 2 - j) * p),
        #[trigger] after.line[j],
    ) by {
        if j == 0 {
            assert(((b + 1) - 2 - j) == b - 1);
        } else {
            assert(after.line[j] == before.line[j - 1]);
            assert(((b + 1) - 2 - j) == b - 2 - (j - 1));
        }
    }
    assert(after.prev =~= Seq::new(p, |i: int| sample_at(signal, silence, ((b + 1) - 1) * p + i)));
    let mid = choose|mid: (Seq<S>, Seq<T>)| #[trigger]
        inverts(f, mid.0, mid.1) && {
            &&& mid.0.len() == 2 * block.len()
            &&& sums_bins::<T, S, F>(f, zero, after.line, filters, mid.0)
            &&& answer == mid.1.skip(block.len() as int)
        };
    let windows = Seq::new(parts, |j: int| window_at(signal, silence, p, (b - 1 - j) * p));
    let kernels = Seq::new(parts, |j: int| segment(impulse, silence, p, j));
    assert forall|j: int| 0 <= j < parts implies (#[trigger] windows[j]).len() == 2 * p
        && transforms(f, windows[j], after.line[j]) by {
        assert(((b + 1) - 2 - j) == b - 1 - j);
        assert(after.line[j] == after.line[j]);
    }
    assert forall|j: int| 0 <= j < parts implies (#[trigger] kernels[j]).len() == 2 * p
        && transforms(f, kernels[j], filters[j]) by {
        assert(filters[j] == filters[j]);
    }
    assert(are_spectra(f, 2 * p, windows, after.line));
    assert(are_spectra(f, 2 * p, kernels, filters));
    assert(accuracy.covers_all(number, windows));
    assert(accuracy.covers_all(number, kernels));
    assert(reads_products(
        f,
        number,
        accuracy,
        zero,
        2 * p,
        windows,
        kernels,
        after.line,
        filters,
        mid.0,
        mid.1,
    ));
    assert(mid.1.len() == mid.0.len());
    assert forall|i: int| 0 <= i < p implies accuracy.near(
        number(#[trigger] answer[i]),
        convolution(
            number,
            silence,
            impulse,
            signal,
            filters.len() * p as int,
            b * p + i,
        ),
    ) by {
        assert(answer[i] == mid.1[p + i]);
        let product = |m: int|
            number(sample_at(impulse, silence, m)) * number(
                sample_at(signal, silence, b * p + i - m),
            );
        let by_part = |j: int| circular(number, windows[j], kernels[j], p + i);
        let wanted = |j: int| total(|k: int| product(j * p + k), p as int);
        assert forall|j: int| 0 <= j < parts implies #[trigger] by_part(j) == wanted(j) by {
            lemma_later_half(number, silence, impulse, signal, p, j, b, i);
            lemma_total_same(
                |k: int|
                    number(sample_at(impulse, silence, j * p + k)) * number(
                        sample_at(signal, silence, b * p + i - (j * p + k)),
                    ),
                |k: int| product(j * p + k),
                p as int,
            );
        }
        lemma_total_same(by_part, wanted, parts as int);
        lemma_total_parts(product, p as int, parts as int);
        lemma_total_same(
            product,
            |m: int|
                number(sample_at(impulse, silence, m)) * number(
                    sample_at(signal, silence, b * p + i - m),
                ),
            parts * p as int,
        );
    }
}

proof fn lemma_all_blocks<T, S, F: Transform<T, S>>(
    f: F,
    number: spec_fn(T) -> int,
    accuracy: Accuracy,
    zero: S,
    silence: T,
    impulse: Seq<T>,
    filters: Seq<Seq<S>>,
    signal: Seq<T>,
    p: nat,
    k: int,
    before: Carried<T, S>,
    after: Carried<T, S>,
    out: Seq<T>,
)
    requires
        p >= 1,
        0 <= k,
        k * p <= signal.len(),
        keeps_length(f),
        is_accurate(f, number, accuracy, zero, silence, 2 * p),
        accuracy.range >= 0,
        filters.len() <= accuracy.terms,
        accuracy.covers_signal(number, signal),
        accuracy.covers_signal(number, impulse),
        filters.len() >= 1,
        forall|j: int|
            0 <= j < filters.len() ==> transforms(
                f,
                segment(impulse, silence, p, j),
                #[trigger] filters[j],
            ),
        carries(f, silence, signal, p, filters.len(), 0, before),
        convolved(f, zero, filters, before, signal, p, k, after, out),
    ensures
        carries(f, silence, signal, p, filters.len(), k, after),
        out.len() == k * p,
        forall|n: int|
            0 <= n < k * p ==> accuracy.near(
                number(#[trigger] out[n]),
                convolution(
                    number,
                    silence,
                    impulse,
                    signal,
                    filters.len() * p as int,
                    n,
                ),
            ),
    decreases k,
{
    if k <= 0 {
        assert(k * p == 0) by (nonlinear_arith)
            requires
                k == 0,
        ;
    } else {
        let mid = choose|mid: (Carried<T, S>, Seq<T>, Seq<T>)|
            #![trigger block_convolved(f, zero, filters, mid.0, signal.subrange((k - 1) * p, k * p), after, mid.2)]
            {
                &&& convolved(f, zero, filters, before, signal, p, k - 1, mid.0, mid.1)
                &&& block_convolved(
                    f,
                    zero,
                    filters,
                    mid.0,
                    signal.subrange((k - 1) * p, k * p),
                    after,
                    mid.2,
                )
                &&& out == mid.1 + mid.2
            };
        assert((k - 1) * p + p == k * p) by (nonlinear_arith);
        lemma_all_blocks(
            f,
            number,
            accuracy,
            zero,
            silence,
            impulse,
            filters,
            signal,
            p,
            k - 1,
            before,
            mid.0,
            mid.1,
        );
        assert((k - 1) + 1 == k);
        lemma_one_block(
            f,
            number,
            accuracy,
            zero,
            silence,
            impulse,
            filters,
            signal,
            p,
            k - 1,
            mid.0,
            after,
            mid.2,
        );
        assert forall|n: int| 0 <= n < k * p implies accuracy.near(
            number(#[trigger] out[n]),
            convolution(
                number,
                silence,
                impulse,
                signal,
                filters.len() * p as int,
                n,
            ),
        ) by {
            let cut = (k - 1) * p;
            if n < cut {
                assert(out[n] == mid.1[n]);
            } else {
                assert(out[n] == mid.2[n - cut]);
                assert(cut + (n - cut) == n);
            }
        }
    }
}

proof fn lemma_taps<T>(
    number: spec_fn(T) -> int,
    silence: T,
    impulse: Seq<T>,
    signal: Seq<T>,
    taps: int,
    n: int,
)
    requires
        number(silence) == 0,
        impulse.len() <= taps,
    ensures
        convolution(number, silence, impulse, signal, taps, n) == convolution(
            number,
            silence,
            impulse,
            signal,
            impulse.len() as int,
            n,
        ),
{
    let term = |m: int|
        number(sample_at(impulse, silence, m)) * number(sample_at(signal, silence, n - m));
    let len = impulse.len() as int;
    lemma_total_split(term, len, taps - len);
    let rest = |k: int| term(len + k);
    assert forall|k: int| 0 <= k < taps - len implies #[trigger] rest(k) == 0 by {
        assert(sample_at(impulse, silence, len + k) == silence);
        assert(0 * number(sample_at(signal, silence, n - (len + k))) == 0) by (nonlinear_arith);
    }
    lemma_total_nothing(rest, taps - len);
}

proof fn lemma_partitions_cover(len: nat, p: nat)
    requires
        p >= 1,
    ensures
        partitions(len, p) >= 1,
        partitions(len, p) * p >= len,
{
    if len <= p {
        assert(1 * p == p) by (nonlinear_arith);
    } else {
        let n = (len + p - 1) as int;
        vstd::arithmetic::div_mod::lemma_fundamental_div_mod(n, p as int);
        let q = n / (p as int);
        assert(q * p == p * q) by (nonlinear_arith);
        assert(q >= 1) by (nonlinear_arith)
            requires
                n == p * q + n % (p as int),
                0 <= n % (p as int) < p,
                n >= p,
                p >= 1,
        ;
    }
}

/// A convolver that was just made.
pub open spec fn is_fresh<T: Copy, S: Copy, F: Transform<T, S>>(
    c: PartitionedConvolver<T, S, F>,
    silence: T,
    impulse: Seq<T>,
) -> bool {
    &&& c.ready()
    &&& c.gathered() == Seq::<T>::empty()
    &&& c.queued() == Seq::new(c.block(), |i: int| silence)
    &&& c.filter().len() == partitions(impulse.len(), c.block())
    &&& forall|k: int|
        0 <= k < c.filter().len() ==> transforms(
            c.arithmetic(),
            segment(impulse, silence, c.block(), k),
            #[trigger] c.filter()[k],
        )
    &&& c.carried() == (Carried {
        line: Seq::new(
            c.filter().len(),
            |j: int| Seq::new(2 * c.block(), |i: int| c.nothing()),
        ),
        prev: Seq::new(c.block(), |i: int| silence),
    })
}

/// A convolver convolves: one partition of silence comes out first, and then the
/// convolution of what goes in with the impulse, however long that is. No sample
/// is further off than a single block of the transform can be; where the
/// transform does not round, none is off at all.
pub proof fn a_convolver_convolves<T: Copy, S: Copy, F: Transform<T, S>>(
    start: PartitionedConvolver<T, S, F>,
    number: spec_fn(T) -> int,
    accuracy: Accuracy,
    silence: T,
    impulse: Seq<T>,
    x: Seq<T>,
    end: PartitionedConvolver<T, S, F>,
    y: Seq<T>,
)
    requires
        start.block() >= 1,
        keeps_length(start.arithmetic()),
        is_accurate(
            start.arithmetic(),
            number,
            accuracy,
            start.nothing(),
            silence,
            2 * start.block(),
        ),
        accuracy.range >= 0,
        start.filter().len() <= accuracy.terms,
        accuracy.covers_signal(number, impulse),
        accuracy.covers_signal(number, x),
        is_fresh(start, silence, impulse),
        start.ran(x, end, y),
    ensures
        y.len() == x.len(),
        forall|n: int| 0 <= n < start.block() && n < y.len() ==> #[trigger] y[n] == silence,
        forall|n: int|
            start.block() <= n < y.len() ==> accuracy.near(
                number(#[trigger] y[n]),
                convolution(
                    number,
                    silence,
                    impulse,
                    x,
                    impulse.len() as int,
                    n - start.block(),
                ),
            ),
{
    let p = start.block();
    let f = start.arithmetic();
    let filters = start.filter();
    let before = start.carried();
    let stream = start.gathered() + x;
    assert(stream =~= x);
    let blocks = (x.len() / p) as int;
    let all = y + end.queued();
    let out = all.skip(p as int);
    lemma_partitions_cover(impulse.len(), p);
    vstd::arithmetic::div_mod::lemma_fundamental_div_mod(x.len() as int, p as int);
    assert(blocks * p == p * blocks) by (nonlinear_arith);
    assert(0 <= blocks) by {
        vstd::arithmetic::div_mod::lemma_div_pos_is_pos(x.len() as int, p as int);
    }
    assert(carries(f, silence, x, p, filters.len(), 0, before)) by {
        assert forall|j: int| 0 <= j < filters.len() implies transforms(
            f,
            window_at(x, silence, p, (0 - 2 - j) * p),
            #[trigger] before.line[j],
        ) by {
            assert((0 - 2 - j) * p <= -2 * p) by (nonlinear_arith)
                requires
                    0 <= j,
            ;
            assert(window_at(x, silence, p, (0 - 2 - j) * p) =~= Seq::new(
                2 * p,
                |i: int| silence,
            ));
            assert(before.line[j] =~= Seq::new(2 * p, |i: int| start.nothing()));
        }
        assert((0 - 1) * p == -p) by (nonlinear_arith);
        assert(before.prev =~= Seq::new(p, |i: int| sample_at(x, silence, (0 - 1) * p + i)));
    }
    lemma_all_blocks(
        f,
        number,
        accuracy,
        start.nothing(),
        silence,
        impulse,
        filters,
        x,
        p,
        blocks,
        before,
        end.carried(),
        out,
    );
    assert forall|n: int| 0 <= n < p && n < y.len() implies #[trigger] y[n] == silence by {
        assert(all[n] == y[n]);
        assert(start.queued()[n] == all.subrange(0, p as int)[n]);
    }
    assert forall|n: int| p <= n < y.len() implies accuracy.near(
        number(#[trigger] y[n]),
        convolution(
            number,
            silence,
            impulse,
            x,
            impulse.len() as int,
            n - p,
        ),
    ) by {
        assert(out[n - p] == all[n]);
        assert(all[n] == y[n]);
        lemma_taps(number, silence, impulse, x, filters.len() * p as int, n - p);
    }
}

} // verus!

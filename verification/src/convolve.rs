//! Convolution in partitions: samples go in and come out one by one, one
//! partition later, and whole blocks are convolved by overlap-save.
//!
//! What a spectrum is, and the arithmetic on it, is the transform's.
use vstd::prelude::*;

verus! {

/// The arithmetic of a convolution on samples `T` and spectra of bins `S`.
pub trait Transform<T, S>: Sized {
    /// The spectrum of a window.
    fn forward(&self, window: Vec<T>) -> Vec<S>;

    /// A sum with the product of two bins added.
    fn gather(&self, sum: S, x: S, h: S) -> S;

    /// The window of a spectrum.
    fn inverse(&self, spectrum: Vec<S>) -> Vec<T>;
}

/// [`Transform::forward`] can answer a window with a spectrum.
pub open spec fn transforms<T, S, F: Transform<T, S>>(f: F, window: Seq<T>, spectrum: Seq<S>) -> bool {
    exists|asked: Vec<T>, answer: Vec<S>|
        asked@ == window && answer@ == spectrum && #[trigger] call_ensures(
            F::forward,
            (&f, asked),
            answer,
        )
}

/// [`Transform::inverse`] can answer a spectrum with a window.
pub open spec fn inverts<T, S, F: Transform<T, S>>(f: F, spectrum: Seq<S>, window: Seq<T>) -> bool {
    exists|asked: Vec<S>, answer: Vec<T>|
        asked@ == spectrum && answer@ == window && #[trigger] call_ensures(
            F::inverse,
            (&f, asked),
            answer,
        )
}

/// A spectrum has as many bins as its window has samples.
pub open spec fn keeps_length<T, S, F: Transform<T, S>>(f: F) -> bool {
    &&& forall|window: Vec<T>, spectrum: Vec<S>| #[trigger]
        call_ensures(F::forward, (&f, window), spectrum) ==> spectrum@.len() == window@.len()
    &&& forall|spectrum: Vec<S>, window: Vec<T>| #[trigger]
        call_ensures(F::inverse, (&f, spectrum), window) ==> window@.len() == spectrum@.len()
}

/// Bin `i` of the first `n` spectra, each times its filter, can add up to
/// `sum`.
pub open spec fn sums_upto<T, S, F: Transform<T, S>>(
    f: F,
    zero: S,
    line: Seq<Seq<S>>,
    filters: Seq<Seq<S>>,
    i: int,
    n: int,
    sum: S,
) -> bool
    decreases n,
{
    if n <= 0 {
        sum == zero
    } else {
        exists|mid: S|
            sums_upto::<T, S, F>(f, zero, line, filters, i, n - 1, mid) && #[trigger] call_ensures(
                F::gather,
                (&f, mid, line[n - 1][i], filters[n - 1][i]),
                sum,
            )
    }
}

/// Every bin of `sums` is the sum over all spectra of the line.
pub open spec fn sums_bins<T, S, F: Transform<T, S>>(
    f: F,
    zero: S,
    line: Seq<Seq<S>>,
    filters: Seq<Seq<S>>,
    sums: Seq<S>,
) -> bool {
    forall|i: int|
        0 <= i < sums.len() ==> sums_upto::<T, S, F>(
            f,
            zero,
            line,
            filters,
            i,
            filters.len() as int,
            #[trigger] sums[i],
        )
}

/// What is carried from block to block: the spectra of the last windows, newest
/// first, and the last block.
#[verifier::ext_equal]
pub struct Carried<T, S> {
    pub line: Seq<Seq<S>>,
    pub prev: Seq<T>,
}

/// One block by overlap-save: the spectrum of the last block and this one goes
/// to the front of the line, and the answer is the later half of the window
/// whose spectrum is the sum of the line times the filters.
pub open spec fn block_convolved<T, S, F: Transform<T, S>>(
    f: F,
    zero: S,
    filters: Seq<Seq<S>>,
    before: Carried<T, S>,
    block: Seq<T>,
    after: Carried<T, S>,
    answer: Seq<T>,
) -> bool {
    &&& transforms(f, before.prev + block, after.line[0])
    &&& after.line == seq![after.line[0]] + before.line.drop_last()
    &&& after.prev == block
    &&& exists|mid: (Seq<S>, Seq<T>)| #[trigger]
        inverts(f, mid.0, mid.1) && {
            &&& mid.0.len() == 2 * block.len()
            &&& sums_bins::<T, S, F>(f, zero, after.line, filters, mid.0)
            &&& answer == mid.1.skip(block.len() as int)
        }
}

/// The first `k` blocks of a stream can become `out`, one after the other.
pub open spec fn convolved<T, S, F: Transform<T, S>>(
    f: F,
    zero: S,
    filters: Seq<Seq<S>>,
    before: Carried<T, S>,
    stream: Seq<T>,
    block: nat,
    k: int,
    after: Carried<T, S>,
    out: Seq<T>,
) -> bool
    decreases k,
{
    if k <= 0 {
        after == before && out == Seq::<T>::empty()
    } else {
        exists|mid: (Carried<T, S>, Seq<T>, Seq<T>)|
            #![trigger block_convolved(f, zero, filters, mid.0, stream.subrange((k - 1) * block, k * block), after, mid.2)]
            {
                &&& convolved(f, zero, filters, before, stream, block, k - 1, mid.0, mid.1)
                &&& block_convolved(
                    f,
                    zero,
                    filters,
                    mid.0,
                    stream.subrange((k - 1) * block, k * block),
                    after,
                    mid.2,
                )
                &&& out == mid.1 + mid.2
            }
    }
}

/// How many partitions an impulse has: one at least.
pub open spec fn partitions(len: nat, partition: nat) -> nat {
    if len <= partition {
        1
    } else {
        (len + partition - 1) as nat / partition
    }
}

/// Partition `k` of an impulse, with as much silence behind it as it is long.
pub open spec fn segment<T>(impulse: Seq<T>, silence: T, partition: nat, k: int) -> Seq<T> {
    Seq::new(
        2 * partition,
        |i: int|
            if i < partition && k * partition + i < impulse.len() {
                impulse[k * partition + i]
            } else {
                silence
            },
    )
}

/// A convolution with one impulse.
#[derive(Debug)]
pub struct PartitionedConvolver<T, S, F> {
    transform: F,
    partition: usize,
    zero: S,
    filters: Vec<Vec<S>>,
    delay_line: Vec<Vec<S>>,
    prev_block: Vec<T>,
    in_buf: Vec<T>,
    /// A ring of two partitions.
    out_buf: Vec<T>,
    out_head: usize,
    out_len: usize,
}

/// The contents of a list of lists.
pub open spec fn rows<S>(all: Seq<Vec<S>>) -> Seq<Seq<S>> {
    Seq::new(all.len(), |j: int| all[j]@)
}

/// `n` times the same.
fn repeated<T: Copy>(x: T, n: usize) -> (r: Vec<T>)
    ensures
        r@ == Seq::new(n as nat, |i: int| x),
{
    let mut out: Vec<T> = Vec::new();
    let mut i: usize = 0;
    while i < n
        invariant
            i <= n,
            out@ == Seq::new(i as nat, |k: int| x),
        decreases n - i,
    {
        out.push(x);
        i = i + 1;
        assert(out@ =~= Seq::new(i as nat, |k: int| x));
    }
    out
}

/// Both lists in one.
fn one_after_the_other<T: Copy>(a: &Vec<T>, b: &Vec<T>) -> (r: Vec<T>)
    ensures
        r@ == a@ + b@,
{
    let mut out: Vec<T> = Vec::new();
    let mut i: usize = 0;
    while i < a.len()
        invariant
            i <= a@.len(),
            out@ == a@.take(i as int),
        decreases a@.len() - i,
    {
        out.push(a[i]);
        i = i + 1;
        assert(out@ =~= a@.take(i as int));
    }
    let mut i: usize = 0;
    assert(out@ =~= a@ + b@.take(0));
    while i < b.len()
        invariant
            i <= b@.len(),
            out@ == a@ + b@.take(i as int),
        decreases b@.len() - i,
    {
        out.push(b[i]);
        i = i + 1;
        assert(out@ =~= a@ + b@.take(i as int));
    }
    assert(out@ =~= a@ + b@);
    out
}

/// Partition `k` of an impulse, with as much silence behind it.
fn segment_of<T: Copy>(impulse: &[T], silence: T, partition: usize, k: usize) -> (r: Vec<T>)
    requires
        partition <= usize::MAX / 4,
        k * partition <= impulse@.len(),
    ensures
        r@ == segment(impulse@, silence, partition as nat, k as int),
{
    let len: usize = impulse.len();
    let start: usize = k * partition;
    let mut out: Vec<T> = Vec::new();
    let mut i: usize = 0;
    while i < 2 * partition
        invariant
            partition <= usize::MAX / 4,
            start == k * partition,
            start <= len == impulse@.len(),
            i <= 2 * partition,
            out@ == segment(impulse@, silence, partition as nat, k as int).take(i as int),
        decreases 2 * partition - i,
    {
        let x = if i < partition && i < len - start {
            impulse[start + i]
        } else {
            silence
        };
        out.push(x);
        i = i + 1;
        assert(out@ =~= segment(impulse@, silence, partition as nat, k as int).take(i as int));
    }
    assert(out@ =~= segment(impulse@, silence, partition as nat, k as int));
    out
}

impl<T: Copy, S: Copy, F: Transform<T, S>> PartitionedConvolver<T, S, F> {
    /// Filters, line and ring have the sizes that the partition asks for.
    pub closed spec fn wf(self) -> bool {
        &&& 1 <= self.partition <= usize::MAX / 4
        &&& self.out_buf@.len() == 2 * self.partition
        &&& self.out_head < 2 * self.partition
        &&& self.out_len <= 2 * self.partition
        &&& self.in_buf@.len() < self.partition
        &&& self.prev_block@.len() == self.partition
        &&& self.filters@.len() == self.delay_line@.len() >= 1
        &&& forall|j: int|
            0 <= j < self.filters@.len() ==> (#[trigger] self.filters@[j])@.len() == 2
                * self.partition
        &&& forall|j: int|
            0 <= j < self.delay_line@.len() ==> (#[trigger] self.delay_line@[j])@.len() == 2
                * self.partition
        &&& keeps_length(self.transform)
    }

    /// How many samples make a block.
    pub closed spec fn block(self) -> nat {
        self.partition as nat
    }

    /// What went in since the last block.
    pub closed spec fn gathered(self) -> Seq<T> {
        self.in_buf@
    }

    /// What is to come out next.
    pub closed spec fn queued(self) -> Seq<T> {
        Seq::new(
            self.out_len as nat,
            |i: int| self.out_buf@[(self.out_head + i) % (2 * self.partition)],
        )
    }

    pub closed spec fn carried(self) -> Carried<T, S> {
        Carried { line: rows(self.delay_line@), prev: self.prev_block@ }
    }

    /// The spectra of the partitions of the impulse.
    pub closed spec fn filter(self) -> Seq<Seq<S>> {
        rows(self.filters@)
    }

    pub closed spec fn arithmetic(self) -> F {
        self.transform
    }

    /// The bin of a spectrum without signal.
    pub closed spec fn nothing(self) -> S {
        self.zero
    }

    /// The impulse, the arithmetic and the size of blocks are those of `other`.
    pub open spec fn alike(self, other: Self) -> bool {
        &&& self.block() == other.block()
        &&& self.filter() == other.filter()
        &&& self.arithmetic() == other.arithmetic()
        &&& self.nothing() == other.nothing()
    }

    /// Between two samples: what waits at both ends is one partition.
    pub open spec fn ready(self) -> bool {
        self.wf() && self.queued().len() + self.gathered().len() == self.block()
    }

    /// A sample has gone in and none has come out for it yet.
    pub open spec fn owing(self) -> bool {
        self.wf() && self.queued().len() + self.gathered().len() == self.block() + 1
    }

    /// A convolution with an impulse, in partitions of that size (of one where
    /// it is zero). One partition of silence comes out first.
    pub fn new(transform: F, zero: S, silence: T, impulse: &[T], partition: usize) -> (r: Self)
        requires
            partition <= usize::MAX / 4,
            keeps_length(transform),
        ensures
            r.ready(),
            r.arithmetic() == transform,
            r.nothing() == zero,
            r.block() == if partition == 0 {
                1
            } else {
                partition as nat
            },
            r.gathered() == Seq::<T>::empty(),
            r.queued() == Seq::new(r.block(), |i: int| silence),
            r.filter().len() == partitions(impulse@.len(), r.block()),
            forall|k: int|
                0 <= k < r.filter().len() ==> transforms(
                    transform,
                    segment(impulse@, silence, r.block(), k),
                    #[trigger] r.filter()[k],
                ),
            r.carried() == (Carried {
                line: Seq::new(
                    r.filter().len(),
                    |j: int| Seq::new(2 * r.block(), |i: int| zero),
                ),
                prev: Seq::new(r.block(), |i: int| silence),
            }),
    {
        let partition: usize = if partition == 0 {
            1
        } else {
            partition
        };
        let len: usize = impulse.len();
        let mut filters: Vec<Vec<S>> = Vec::new();
        let mut delay_line: Vec<Vec<S>> = Vec::new();
        let mut k: usize = 0;
        let mut start: usize = 0;
        while k == 0 || start < len
            invariant
                1 <= partition <= usize::MAX / 4,
                len == impulse@.len(),
                start == if k * partition <= len {
                    (k * partition) as int
                } else {
                    len as int
                },
                k > 0 ==> (k - 1) * partition < len || k == 1,
                k <= len + 1,
                filters@.len() == delay_line@.len() == k,
                keeps_length(transform),
                forall|j: int|
                    0 <= j < k ==> transforms(
                        transform,
                        segment(impulse@, silence, partition as nat, j),
                        (#[trigger] filters@[j])@,
                    ) && filters@[j]@.len() == 2 * partition,
                forall|j: int|
                    0 <= j < k ==> (#[trigger] delay_line@[j])@ == Seq::new(
                        (2 * partition) as nat,
                        |i: int| zero,
                    ),
            decreases len + 1 - k,
        {
            assert(k * partition <= len) by (nonlinear_arith)
                requires
                    k == 0 || start < len,
                    start == if k * partition <= len {
                        (k * partition) as int
                    } else {
                        len as int
                    },
            ;
            assert(k <= k * partition) by (nonlinear_arith)
                requires
                    1 <= partition,
            ;
            let window = segment_of(impulse, silence, partition, k);
            let ghost asked = window;
            let spectrum = transform.forward(window);
            assert(call_ensures(F::forward, (&transform, asked), spectrum));
            filters.push(spectrum);
            delay_line.push(repeated(zero, 2 * partition));
            assert((k + 1) * partition == k * partition + partition) by (nonlinear_arith);
            start = if partition <= len - start {
                start + partition
            } else {
                len
            };
            k = k + 1;
        }
        let r = PartitionedConvolver {
            transform,
            partition,
            zero,
            filters,
            delay_line,
            prev_block: repeated(silence, partition),
            in_buf: Vec::new(),
            out_buf: repeated(silence, 2 * partition),
            out_head: 0,
            out_len: partition,
        };
        proof {
            assert(r.queued() =~= Seq::new(r.block(), |i: int| silence)) by {
                assert forall|i: int| 0 <= i < partition implies r.queued()[i] == silence by {
                    vstd::arithmetic::div_mod::lemma_small_mod(i as nat, (2 * partition) as nat);
                }
            }
            lemma_partitions(len as nat, partition as nat, k as nat);
            assert(r.carried().line =~= Seq::new(
                r.filter().len(),
                |j: int| Seq::new(2 * r.block(), |i: int| zero),
            ));
        }
        r
    }

    /// Convolves a whole block.
    fn run_block(&mut self, block: Vec<T>) -> (r: Vec<T>)
        requires
            old(self).wf(),
            block@.len() == old(self).block(),
        ensures
            final(self).wf(),
            final(self).alike(*old(self)),
            final(self).gathered() == old(self).gathered(),
            final(self).queued() == old(self).queued(),
            r@.len() == old(self).block(),
            block_convolved(
                old(self).arithmetic(),
                old(self).nothing(),
                old(self).filter(),
                old(self).carried(),
                block@,
                final(self).carried(),
                r@,
            ),
    {
        let partition: usize = self.partition;
        let window = one_after_the_other(&self.prev_block, &block);
        let ghost asked = window;
        let spectrum = self.transform.forward(window);
        assert(call_ensures(F::forward, (&self.transform, asked), spectrum));
        let ghost newest = spectrum@;
        self.delay_line.pop();
        self.delay_line.insert(0, spectrum);
        let ghost line = rows(self.delay_line@);
        let ghost filters = rows(self.filters@);
        assert(line =~= seq![newest] + rows(old(self).delay_line@).drop_last());

        let count: usize = self.filters.len();
        let mut sums: Vec<S> = Vec::new();
        let mut i: usize = 0;
        while i < 2 * partition
            invariant
                partition == self.partition <= usize::MAX / 4,
                i <= 2 * partition,
                sums@.len() == i,
                count == self.filters@.len() == self.delay_line@.len(),
                line == rows(self.delay_line@),
                filters == rows(self.filters@),
                forall|j: int|
                    0 <= j < count ==> (#[trigger] self.filters@[j])@.len() == 2 * partition,
                forall|j: int|
                    0 <= j < count ==> (#[trigger] self.delay_line@[j])@.len() == 2 * partition,
                sums_bins::<T, S, F>(self.transform, self.zero, line, filters, sums@),
            decreases 2 * partition - i,
        {
            let mut sum: S = self.zero;
            let mut j: usize = 0;
            while j < count
                invariant
                    partition == self.partition <= usize::MAX / 4,
                    i < 2 * partition,
                    j <= count,
                    count == self.filters@.len() == self.delay_line@.len(),
                    line == rows(self.delay_line@),
                    filters == rows(self.filters@),
                    forall|j: int|
                        0 <= j < count ==> (#[trigger] self.filters@[j])@.len() == 2 * partition,
                    forall|j: int|
                        0 <= j < count ==> (#[trigger] self.delay_line@[j])@.len() == 2 * partition,
                    sums_upto::<T, S, F>(
                        self.transform,
                        self.zero,
                        line,
                        filters,
                        i as int,
                        j as int,
                        sum,
                    ),
                decreases count - j,
            {
                let x = self.delay_line[j][i];
                let h = self.filters[j][i];
                let next = self.transform.gather(sum, x, h);
                assert(call_ensures(
                    F::gather,
                    (&self.transform, sum, line[j as int][i as int], filters[j as int][i as int]),
                    next,
                ));
                j = j + 1;
                sum = next;
            }
            sums.push(sum);
            i = i + 1;
        }
        let ghost summed = sums;
        let whole = self.transform.inverse(sums);
        proof {
            assert(call_ensures(F::inverse, (&self.transform, summed), whole));
            let mid = (summed@, whole@);
            assert(inverts(self.transform, mid.0, mid.1));
        }
        let mut answer: Vec<T> = Vec::new();
        let mut i: usize = 0;
        while i < partition
            invariant
                i <= partition <= usize::MAX / 4,
                whole@.len() == 2 * partition,
                answer@ == whole@.subrange(partition as int, partition + i),
            decreases partition - i,
        {
            answer.push(whole[partition + i]);
            i = i + 1;
            assert(answer@ =~= whole@.subrange(partition as int, partition + i));
        }
        assert(answer@ =~= whole@.skip(partition as int));
        self.prev_block = block;
        proof {
            assert(self.carried().line =~= line);
            assert(self.queued() =~= old(self).queued());
            assert(self.filter() =~= old(self).filter());
        }
        answer
    }

    fn push_output(&mut self, x: T)
        requires
            old(self).wf(),
            old(self).queued().len() < 2 * old(self).block(),
        ensures
            final(self).wf(),
            final(self).alike(*old(self)),
            final(self).carried() == old(self).carried(),
            final(self).gathered() == old(self).gathered(),
            final(self).queued() == old(self).queued().push(x),
    {
        let cap: usize = 2 * self.partition;
        let at: usize = (self.out_head + self.out_len) % cap;
        self.out_buf[at] = x;
        self.out_len = self.out_len + 1;
        let ghost head = self.out_head as int;
        let ghost len = old(self).out_len as int;
        assert(self.queued() =~= old(self).queued().push(x)) by {
            assert forall|i: int| 0 <= i < len implies self.queued()[i] == old(self).queued()[i] by {
                lemma_ring_apart(head, i, len, cap as int);
            }
        }
    }

    fn pop_output(&mut self) -> (r: T)
        requires
            old(self).owing(),
        ensures
            final(self).ready(),
            final(self).alike(*old(self)),
            final(self).carried() == old(self).carried(),
            final(self).gathered() == old(self).gathered(),
            r == old(self).queued()[0],
            final(self).queued() == old(self).queued().skip(1),
    {
        let cap: usize = 2 * self.partition;
        assert(self.queued().len() == self.out_len);
        let ghost head = self.out_head as int;
        assert(head % (cap as int) == head) by {
            vstd::arithmetic::div_mod::lemma_small_mod(head as nat, cap as nat);
        }
        let v = self.out_buf[self.out_head];
        self.out_head = (self.out_head + 1) % cap;
        self.out_len = self.out_len - 1;
        assert(self.queued() =~= old(self).queued().skip(1)) by {
            assert forall|i: int| 0 <= i < self.out_len implies self.queued()[i] == old(
                self).queued()[i + 1] by {
                assert(((head + 1) % (cap as int) + i) % (cap as int) == (head + 1 + i) % (
                cap as int)) by {
                    vstd::arithmetic::div_mod::lemma_add_mod_noop(head + 1, i, cap as int);
                    vstd::arithmetic::div_mod::lemma_add_mod_noop(
                        (head + 1) % (cap as int),
                        i,
                        cap as int,
                    );
                    vstd::arithmetic::div_mod::lemma_mod_twice(head + 1, cap as int);
                }
            }
        }
        v
    }

    /// What goes in one by one comes out one by one. What went in is cut into
    /// blocks, what the blocks become queues up behind what was queued, and
    /// what comes out is the front of that queue.
    pub open spec fn ran(self, input: Seq<T>, after: Self, output: Seq<T>) -> bool {
        let stream = self.gathered() + input;
        let blocks = stream.len() / self.block();
        &&& after.alike(self)
        &&& output.len() == input.len()
        &&& after.gathered() == stream.skip((blocks * self.block()) as int)
        &&& self.queued().is_prefix_of(output + after.queued())
        &&& convolved(
            self.arithmetic(),
            self.nothing(),
            self.filter(),
            self.carried(),
            stream,
            self.block(),
            blocks as int,
            after.carried(),
            (output + after.queued()).skip(self.queued().len() as int),
        )
    }

    /// Runs samples through the convolution: as many come out as go in.
    pub fn process(&mut self, input: &[T]) -> (r: Vec<T>)
        requires
            old(self).ready(),
        ensures
            final(self).ready(),
            old(self).ran(input@, *final(self), r@),
    {
        let ghost first = *self;
        let ghost block = self.block();
        let ghost stream = self.gathered() + input@;
        let ghost start = self.gathered().len() as int;
        let ghost queue = self.queued();
        let ghost mut k: int = 0;
        let ghost mut outs: Seq<T> = Seq::empty();
        let mut output: Vec<T> = Vec::new();
        let mut i: usize = 0;
        assert(stream.subrange(0, start) =~= self.gathered());
        assert(output@ + self.queued() =~= queue + outs);
        while i < input.len()
            invariant
                i <= input@.len(),
                self.ready(),
                self.alike(first),
                block == first.block(),
                block >= 1,
                stream == first.gathered() + input@,
                start == first.gathered().len(),
                queue == first.queued(),
                0 <= k,
                k * block <= start + i < (k + 1) * block,
                self.gathered() == stream.subrange(k * block, start + i),
                output@.len() == i,
                output@ + self.queued() == queue + outs,
                convolved(
                    first.arithmetic(),
                    first.nothing(),
                    first.filter(),
                    first.carried(),
                    stream,
                    block,
                    k,
                    self.carried(),
                    outs,
                ),
            decreases input@.len() - i,
        {
            let ghost before = self.queued();
            let ghost gathered = self.gathered();
            let ghost earlier = self.carried();
            assert(stream[start + i] == input@[i as int]);
            assert(gathered.push(input@[i as int]) =~= stream.subrange(k * block, start + i + 1));
            if self.in_buf.len() + 1 < self.partition {
                self.in_buf.push(input[i]);
                assert(start + i + 1 < (k + 1) * block) by (nonlinear_arith)
                    requires
                        gathered.len() + 1 < block,
                        gathered.len() == start + i - k * block,
                ;
                assert(self.queued() =~= before);
                assert(self.filter() =~= first.filter());
                assert(self.carried() =~= earlier);
            } else {
                let mut full: Vec<T> = Vec::new();
                std::mem::swap(&mut full, &mut self.in_buf);
                full.push(input[i]);
                assert(start + i + 1 == (k + 1) * block) by (nonlinear_arith)
                    requires
                        gathered.len() + 1 == block,
                        gathered.len() == start + i - k * block,
                ;
                assert(self.queued() =~= before);
                assert(self.filter() =~= first.filter());
                assert(self.carried() =~= earlier);
                let ghost asked = full@;
                let answer = self.run_block(full);
                let ghost later = self.carried();
                let mut n: usize = 0;
                assert(before + answer@.take(0) =~= before);
                while n < answer.len()
                    invariant
                        n <= answer@.len(),
                        self.wf(),
                        self.alike(first),
                        block == first.block(),
                        answer@.len() == block,
                        before.len() == 1,
                        self.carried() == later,
                        self.gathered() == Seq::<T>::empty(),
                        self.queued() == before + answer@.take(n as int),
                    decreases answer@.len() - n,
                {
                    self.push_output(answer[n]);
                    n = n + 1;
                    assert(before + answer@.take(n as int) =~= (before + answer@.take(
                        n - 1,
                    )).push(answer@[n - 1]));
                }
                proof {
                    assert(answer@.take(n as int) =~= answer@);
                    let mid = (earlier, outs, answer@);
                    k = k + 1;
                    assert(block_convolved(
                        first.arithmetic(),
                        first.nothing(),
                        first.filter(),
                        mid.0,
                        stream.subrange((k - 1) * block, k * block),
                        later,
                        mid.2,
                    ));
                    assert(output@ + self.queued() =~= (output@ + before) + answer@);
                    assert(queue + (outs + answer@) =~= (queue + outs) + answer@);
                    outs = outs + answer@;
                    assert(k * block < (k + 1) * block) by (nonlinear_arith)
                        requires
                            block >= 1,
                    ;
                    assert(self.gathered() =~= stream.subrange(k * block, start + i + 1));
                }
            }
            assert(output@ + self.queued() =~= queue + outs);
            let y = self.pop_output();
            output.push(y);
            i = i + 1;
            assert(output@ + self.queued() =~= queue + outs);
        }
        proof {
            vstd::arithmetic::div_mod::lemma_fundamental_div_mod_converse(
                stream.len() as int,
                block as int,
                k,
                stream.len() - k * block,
            );
            assert(stream.subrange(k * block, start + i) =~= stream.skip(k * block));
            assert((queue + outs).skip(queue.len() as int) =~= outs);
        }
        output
    }
}

proof fn lemma_partitions(len: nat, partition: nat, k: nat)
    requires
        1 <= partition,
        1 <= k,
        k * partition >= len,
        (k - 1) * partition < len || k == 1,
    ensures
        k == partitions(len, partition),
{
    if len > partition {
        assert(k > 1) by (nonlinear_arith)
            requires
                k * partition >= len,
                len > partition,
                1 <= k,
        ;
        let r = len + partition - 1 - k * partition;
        assert((k - 1) * partition == k * partition - partition) by (nonlinear_arith);
        vstd::arithmetic::div_mod::lemma_fundamental_div_mod_converse(
            len + partition - 1,
            partition as int,
            k as int,
            r,
        );
    } else if k > 1 {
        assert((k - 1) * partition >= partition) by (nonlinear_arith)
            requires
                k > 1,
        ;
    }
}

proof fn lemma_ring_apart(head: int, i: int, len: int, cap: int)
    requires
        0 <= head < cap,
        0 <= i < len < cap,
    ensures
        (head + i) % cap != (head + len) % cap,
{
    let a = head + i;
    let b = head + len;
    vstd::arithmetic::div_mod::lemma_fundamental_div_mod(a, cap);
    vstd::arithmetic::div_mod::lemma_fundamental_div_mod(b, cap);
    let qa = a / cap;
    let qb = b / cap;
    if a % cap == b % cap {
        assert((qb - qa) * cap == b - a) by (nonlinear_arith)
            requires
                a == cap * qa + a % cap,
                b == cap * qb + b % cap,
                a % cap == b % cap,
        ;
        assert(false) by (nonlinear_arith)
            requires
                (qb - qa) * cap == b - a,
                0 < b - a < cap,
        ;
    }
}

/// The first `k` blocks only depend on the samples in them.
proof fn lemma_same_blocks<T, S, F: Transform<T, S>>(
    f: F,
    zero: S,
    filters: Seq<Seq<S>>,
    before: Carried<T, S>,
    stream: Seq<T>,
    other: Seq<T>,
    block: nat,
    k: int,
    after: Carried<T, S>,
    out: Seq<T>,
)
    requires
        convolved(f, zero, filters, before, stream, block, k, after, out),
        0 <= k * block <= stream.len(),
        k * block <= other.len(),
        forall|i: int| 0 <= i < k * block ==> stream[i] == other[i],
    ensures
        convolved(f, zero, filters, before, other, block, k, after, out),
    decreases k,
{
    if k > 0 {
        let mid = choose|mid: (Carried<T, S>, Seq<T>, Seq<T>)|
            #![trigger block_convolved(f, zero, filters, mid.0, stream.subrange((k - 1) * block, k * block), after, mid.2)]
            {
                &&& convolved(f, zero, filters, before, stream, block, k - 1, mid.0, mid.1)
                &&& block_convolved(
                    f,
                    zero,
                    filters,
                    mid.0,
                    stream.subrange((k - 1) * block, k * block),
                    after,
                    mid.2,
                )
                &&& out == mid.1 + mid.2
            };
        assert(0 <= (k - 1) * block <= k * block) by (nonlinear_arith)
            requires
                k > 0,
        ;
        lemma_same_blocks(f, zero, filters, before, stream, other, block, k - 1, mid.0, mid.1);
        assert(stream.subrange((k - 1) * block, k * block) =~= other.subrange(
            (k - 1) * block,
            k * block,
        ));
    }
}

/// Blocks after blocks are the blocks of the whole stream.
proof fn lemma_blocks_join<T, S, F: Transform<T, S>>(
    f: F,
    zero: S,
    filters: Seq<Seq<S>>,
    start: Carried<T, S>,
    first: int,
    middle: Carried<T, S>,
    early: Seq<T>,
    stream: Seq<T>,
    block: nat,
    k: int,
    after: Carried<T, S>,
    late: Seq<T>,
)
    requires
        0 <= first,
        0 <= k,
        0 <= first * block <= stream.len(),
        (first + k) * block <= stream.len(),
        convolved(f, zero, filters, start, stream, block, first, middle, early),
        convolved(
            f,
            zero,
            filters,
            middle,
            stream.skip(first * block),
            block,
            k,
            after,
            late,
        ),
    ensures
        convolved(f, zero, filters, start, stream, block, first + k, after, early + late),
    decreases k,
{
    let rest = stream.skip(first * block);
    if k <= 0 {
        assert(early + late =~= early);
    } else {
        let mid = choose|mid: (Carried<T, S>, Seq<T>, Seq<T>)|
            #![trigger block_convolved(f, zero, filters, mid.0, rest.subrange((k - 1) * block, k * block), after, mid.2)]
            {
                &&& convolved(f, zero, filters, middle, rest, block, k - 1, mid.0, mid.1)
                &&& block_convolved(
                    f,
                    zero,
                    filters,
                    mid.0,
                    rest.subrange((k - 1) * block, k * block),
                    after,
                    mid.2,
                )
                &&& late == mid.1 + mid.2
            };
        let n = first + k;
        assert(n * block == first * block + k * block) by (nonlinear_arith)
            requires
                n == first + k,
        ;
        assert((n - 1) * block == first * block + (k - 1) * block) by (nonlinear_arith)
            requires
                n == first + k,
        ;
        assert(0 <= (k - 1) * block <= k * block) by (nonlinear_arith)
            requires
                k > 0,
        ;
        lemma_blocks_join(
            f,
            zero,
            filters,
            start,
            first,
            middle,
            early,
            stream,
            block,
            k - 1,
            mid.0,
            mid.1,
        );
        assert(rest.subrange((k - 1) * block, k * block) =~= stream.subrange(
            (n - 1) * block,
            n * block,
        ));
        let joined = (mid.0, early + mid.1, mid.2);
        assert(early + late =~= joined.1 + joined.2);
        assert(block_convolved(
            f,
            zero,
            filters,
            joined.0,
            stream.subrange((n - 1) * block, n * block),
            after,
            joined.2,
        ));
    }
}

/// How a signal is cut into calls does not matter: two calls, one after the
/// other, do what one call with both inputs does.
pub proof fn calls_join<T: Copy, S: Copy, F: Transform<T, S>>(
    start: PartitionedConvolver<T, S, F>,
    x: Seq<T>,
    middle: PartitionedConvolver<T, S, F>,
    u: Seq<T>,
    y: Seq<T>,
    end: PartitionedConvolver<T, S, F>,
    v: Seq<T>,
)
    requires
        start.ready(),
        start.ran(x, middle, u),
        middle.ran(y, end, v),
    ensures
        start.ran(x + y, end, u + v),
{
    let p = start.block();
    assert(p >= 1);
    let head = start.gathered() + x;
    let tail = middle.gathered() + y;
    let whole = start.gathered() + (x + y);
    let first = head.len() as int / p as int;
    let k = tail.len() as int / p as int;
    let cut = first * p;
    vstd::arithmetic::div_mod::lemma_fundamental_div_mod(head.len() as int, p as int);
    vstd::arithmetic::div_mod::lemma_fundamental_div_mod(tail.len() as int, p as int);
    assert(p * first == first * p) by (nonlinear_arith);
    assert(p * k == k * p) by (nonlinear_arith);
    assert(0 <= first && 0 <= k) by {
        vstd::arithmetic::div_mod::lemma_div_pos_is_pos(head.len() as int, p as int);
        vstd::arithmetic::div_mod::lemma_div_pos_is_pos(tail.len() as int, p as int);
    }
    assert(0 <= cut) by (nonlinear_arith)
        requires
            0 <= first,
            cut == first * p,
    ;
    assert(whole.skip(cut) =~= tail);
    assert((first + k) * p == cut + k * p) by (nonlinear_arith)
        requires
            cut == first * p,
    ;
    vstd::arithmetic::div_mod::lemma_fundamental_div_mod_converse(
        whole.len() as int,
        p as int,
        first + k,
        whole.len() - (cut + k * p),
    );
    let early = (u + middle.queued()).skip(start.queued().len() as int);
    let late = (v + end.queued()).skip(middle.queued().len() as int);
    assert forall|i: int| 0 <= i < cut implies head[i] == whole[i] by {}
    lemma_same_blocks(
        start.arithmetic(),
        start.nothing(),
        start.filter(),
        start.carried(),
        head,
        whole,
        p,
        first,
        middle.carried(),
        early,
    );
    lemma_blocks_join(
        start.arithmetic(),
        start.nothing(),
        start.filter(),
        start.carried(),
        first,
        middle.carried(),
        early,
        whole,
        p,
        k,
        end.carried(),
        late,
    );
    assert(whole.skip((first + k) * p) =~= tail.skip(k * p));
    assert(v + end.queued() =~= middle.queued() + late);
    assert((u + v) + end.queued() =~= (u + middle.queued()) + late);
    assert(((u + v) + end.queued()).skip(start.queued().len() as int) =~= early + late);
}

} // verus!

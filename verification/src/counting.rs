//! A byte counter that travels with a stream.

use vstd::prelude::*;

verus! {

/// A stream together with the number of bytes that have passed through it.
///
/// The counter is advanced by `record`, once for every transfer on the
/// wrapped stream, and cleared by `reset`.
pub struct CountingIO<I> {
    inner: I,
    count: u64,
}

/// Sum of a sequence of byte counts.
pub open spec fn sum(counts: Seq<nat>) -> nat
    decreases counts.len(),
{
    if counts.len() == 0 {
        0
    } else {
        sum(counts.drop_last()) + counts.last()
    }
}

/// The counters of a list of counted streams, in order.
pub open spec fn counts_of<I>(channels: Seq<CountingIO<I>>) -> Seq<nat> {
    Seq::new(channels.len(), |i: int| channels[i].counted())
}

/// The sum of the first `k` counts is at most the sum of all.
pub proof fn lemma_sum_prefix(counts: Seq<nat>, k: int)
    requires
        0 <= k <= counts.len(),
    ensures
        sum(counts.take(k)) <= sum(counts),
    decreases counts.len(),
{
    if k == counts.len() {
        assert(counts.take(k) =~= counts);
    } else {
        lemma_sum_prefix(counts.drop_last(), k);
        assert(counts.drop_last().take(k) =~= counts.take(k));
    }
}

/// Counts that are all zero add up to zero.
pub proof fn lemma_sum_zero(counts: Seq<nat>)
    requires
        forall|i: int| 0 <= i < counts.len() ==> #[trigger] counts[i] == 0,
    ensures
        sum(counts) == 0,
    decreases counts.len(),
{
    if counts.len() > 0 {
        lemma_sum_zero(counts.drop_last());
    }
}

/// Where every count grows by its share, the sum grows by the sum of the
/// shares.
pub proof fn lemma_sum_grows(before: Seq<nat>, shares: Seq<nat>, after: Seq<nat>)
    requires
        before.len() == shares.len(),
        before.len() == after.len(),
        forall|i: int| 0 <= i < after.len() ==> #[trigger] after[i] == before[i] + shares[i],
    ensures
        sum(after) == sum(before) + sum(shares),
    decreases after.len(),
{
    if after.len() > 0 {
        lemma_sum_grows(before.drop_last(), shares.drop_last(), after.drop_last());
    }
}

impl<I> CountingIO<I> {
    /// The number of bytes counted so far.
    pub closed spec fn counted(&self) -> nat {
        self.count as nat
    }

    /// The wrapped stream.
    pub closed spec fn wrapped(&self) -> I {
        self.inner
    }

    /// Wraps `inner`, with the counter at zero.
    pub fn new(inner: I) -> (io: Self)
        ensures
            io.counted() == 0,
            io.wrapped() == inner,
    {
        Self { inner, count: 0 }
    }

    /// Returns the number of bytes counted so far.
    pub fn count(&self) -> (count: u64)
        ensures
            count == self.counted(),
    {
        self.count
    }

    /// Returns a reference to the wrapped stream.
    pub fn inner(&self) -> (inner: &I)
        ensures
            *inner == self.wrapped(),
    {
        &self.inner
    }

    /// Returns a mutable reference to the wrapped stream. The counter stays
    /// as it is, whatever is done through the reference.
    pub fn inner_mut(&mut self) -> (inner: &mut I)
        ensures
            *inner == old(self).wrapped(),
            final(self).wrapped() == *final(inner),
            final(self).counted() == old(self).counted(),
    {
        &mut self.inner
    }

    /// Gives the wrapped stream back and drops the counter.
    pub fn into_inner(self) -> (inner: I)
        ensures
            inner == self.wrapped(),
    {
        self.inner
    }

    /// Sets the counter to zero.
    pub fn reset(&mut self)
        ensures
            final(self).counted() == 0,
            final(self).wrapped() == old(self).wrapped(),
    {
        self.count = 0;
    }

    /// Counts `bytes` more bytes: to be called after every read or write on
    /// the wrapped stream, with the number of bytes that it moved.
    pub fn record(&mut self, bytes: usize)
        requires
            old(self).counted() + bytes <= u64::MAX,
        ensures
            final(self).counted() == old(self).counted() + bytes,
            final(self).wrapped() == old(self).wrapped(),
    {
        self.count = self.count + bytes as u64;
    }

    /// Counts what one read or write on the wrapped stream moved: the bytes
    /// of a transfer that succeeded, nothing for one that failed.
    pub fn record_outcome<E>(&mut self, outcome: &Result<usize, E>)
        requires
            old(self).counted() + moved(*outcome) <= u64::MAX,
        ensures
            final(self).counted() == old(self).counted() + moved(*outcome),
            final(self).wrapped() == old(self).wrapped(),
    {
        match outcome {
            Ok(bytes) => {
                self.record(*bytes);
            },
            Err(_) => {},
        }
    }
}

/// The number of bytes that a read or write with `outcome` moved.
pub open spec fn moved<E>(outcome: Result<usize, E>) -> nat {
    match outcome {
        Ok(bytes) => bytes as nat,
        Err(_) => 0,
    }
}

/// Adds up the counters of `channels`.
pub fn total_count<I>(channels: &Vec<CountingIO<I>>) -> (total: u64)
    requires
        sum(counts_of(channels@)) <= u64::MAX,
    ensures
        total == sum(counts_of(channels@)),
{
    let ghost counts = counts_of(channels@);
    let mut total: u64 = 0;
    let mut i: usize = 0;
    while i < channels.len()
        invariant
            i <= channels@.len(),
            counts == counts_of(channels@),
            sum(counts) <= u64::MAX,
            total == sum(counts.take(i as int)),
        decreases channels@.len() - i,
    {
        proof {
            lemma_sum_prefix(counts, i + 1);
            assert(counts.take(i + 1).drop_last() =~= counts.take(i as int));
        }
        total = total + channels[i].count();
        i += 1;
    }
    assert(counts.take(i as int) =~= counts);
    total
}

/// The counters behind a list of references to counted streams, in order.
pub open spec fn counts_of_refs<I>(channels: Seq<&CountingIO<I>>) -> Seq<nat> {
    Seq::new(channels.len(), |i: int| channels[i].counted())
}

/// Adds up the counters behind `channels`. `None` where the sum does not
/// fit a `u64`.
pub fn checked_total<I>(channels: &Vec<&CountingIO<I>>) -> (total: Option<u64>)
    ensures
        match total {
            Some(t) => t == sum(counts_of_refs(channels@)),
            None => sum(counts_of_refs(channels@)) > u64::MAX,
        },
{
    let ghost counts = counts_of_refs(channels@);
    let mut total: u64 = 0;
    let mut i: usize = 0;
    while i < channels.len()
        invariant
            i <= channels@.len(),
            counts == counts_of_refs(channels@),
            total == sum(counts.take(i as int)),
        decreases channels@.len() - i,
    {
        let count: u64 = channels[i].count();
        proof {
            lemma_sum_prefix(counts, i + 1);
            assert(counts.take(i + 1).drop_last() =~= counts.take(i as int));
            assert(sum(counts.take(i + 1)) == total + count);
        }
        if count > u64::MAX - total {
            return None;
        }
        total = total + count;
        i += 1;
    }
    assert(counts.take(i as int) =~= counts);
    Some(total)
}

/// Sets the counter of every one of `channels` to zero.
pub fn reset_all<I>(channels: &mut Vec<CountingIO<I>>)
    ensures
        final(channels)@.len() == old(channels)@.len(),
        forall|k: int|
            0 <= k < old(channels)@.len() ==> (#[trigger] final(channels)@[k]).counted() == 0
                && final(channels)@[k].wrapped() == old(channels)@[k].wrapped(),
{
    let mut i: usize = 0;
    while i < channels.len()
        invariant
            i <= channels@.len(),
            channels@.len() == old(channels)@.len(),
            forall|k: int|
                0 <= k < i ==> (#[trigger] channels@[k]).counted() == 0 && channels@[k].wrapped()
                    == old(channels)@[k].wrapped(),
            forall|k: int| i <= k < channels@.len() ==> channels@[k] == old(channels)@[k],
        decreases channels@.len() - i,
    {
        channels[i].reset();
        i += 1;
    }
}

} // verus!

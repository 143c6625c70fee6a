//! The inverse multiplexer: a fixed, ordered set of channels over which one
//! message at a time is sent in chunks.
//!
//! `IMuxSync` is driven with one thread per channel, `IMuxAsync` with one
//! task per channel. Both keep the channels and answer what each of them has
//! to carry; moving the bytes is left to the code that owns the runtime.

use crate::counting::{counts_of, reset_all, sum, total_count, CountingIO};
use crate::frame::{lemma_count_after_reset, lemma_count_after_write, wire};
use crate::plan::{chunk_end, chunk_size_spec, chunk_start};
use vstd::prelude::*;

verus! {

/// The first failure among the outcomes of the channels' transfers, in the
/// order given; `None` where every transfer succeeded.
pub open spec fn first_failure<E>(outcomes: Seq<Result<(), E>>) -> Option<E>
    decreases outcomes.len(),
{
    if outcomes.len() == 0 {
        None
    } else {
        match outcomes[0] {
            Err(e) => Some(e),
            Ok(_) => first_failure(outcomes.skip(1)),
        }
    }
}

/// A transfer has a failure to report exactly when one of its channels
/// failed, and the failure reported is that of a channel.
pub proof fn lemma_first_failure<E>(outcomes: Seq<Result<(), E>>)
    ensures
        first_failure(outcomes) is None <==> forall|i: int|
            0 <= i < outcomes.len() ==> (#[trigger] outcomes[i]) is Ok,
        first_failure(outcomes) is Some ==> exists|i: int|
            0 <= i < outcomes.len() && #[trigger] outcomes[i] == Err::<(), E>(
                first_failure(outcomes)->0,
            ),
    decreases outcomes.len(),
{
    if outcomes.len() > 0 {
        let rest = outcomes.skip(1);
        lemma_first_failure(rest);
        match outcomes[0] {
            Err(e) => {},
            Ok(_) => {
                assert forall|i: int| 0 <= i < rest.len() implies rest[i] == outcomes[i + 1] by {}
                if first_failure(rest) is None {
                    assert forall|i: int| 0 <= i < outcomes.len() implies (
                    #[trigger] outcomes[i]) is Ok by {
                        if i > 0 {
                            assert(rest[i - 1] is Ok);
                        }
                    }
                } else {
                    let i = choose|i: int|
                        0 <= i < rest.len() && #[trigger] rest[i] == Err::<(), E>(
                            first_failure(rest)->0,
                        );
                    assert(outcomes[i + 1] == rest[i]);
                }
            },
        }
    }
}

/// Folds the outcomes of the channels' transfers into the outcome of the
/// whole transfer: success where every channel succeeded, else the first
/// failure in the order given.
pub fn aggregate<E>(outcomes: Vec<Result<(), E>>) -> (outcome: Result<(), E>)
    ensures
        match outcome {
            Ok(_) => first_failure(outcomes@) is None,
            Err(e) => first_failure(outcomes@) == Some(e),
        },
        outcome is Ok <==> forall|i: int|
            0 <= i < outcomes@.len() ==> (#[trigger] outcomes@[i]) is Ok,
{
    let ghost all = outcomes@;
    proof {
        lemma_first_failure(all);
    }
    let mut rest = outcomes;
    let mut found: Result<(), E> = Ok(());
    assert(all.skip(all.len() as int) =~= Seq::<Result<(), E>>::empty());
    while rest.len() > 0
        invariant
            rest@.len() <= all.len(),
            rest@ == all.take(rest@.len() as int),
            match found {
                Ok(_) => first_failure(all.skip(rest@.len() as int)) is None,
                Err(e) => first_failure(all.skip(rest@.len() as int)) == Some(e),
            },
        decreases rest@.len(),
    {
        let ghost k = rest@.len() - 1;
        let last = rest.pop();
        proof {
            assert(rest@ =~= all.take(k));
            assert(all.skip(k).skip(1) =~= all.skip(k + 1));
            assert(all.skip(k)[0] == all[k]);
        }
        match last {
            Some(Err(e)) => {
                found = Err(e);
            },
            _ => {},
        }
    }
    assert(all.skip(0) =~= all);
    found
}

/// Borrows every element of `items` mutably at once, in order.
fn borrow_each<'a, I>(items: &'a mut Vec<I>) -> (refs: Vec<&'a mut I>)
    ensures
        refs@.len() == old(items)@.len(),
        final(items)@.len() == old(items)@.len(),
        forall|i: int| 0 <= i < refs@.len() ==> *(#[trigger] refs@[i]) == old(items)@[i],
        forall|i: int| 0 <= i < refs@.len() ==> final(items)@[i] == *final(#[trigger] refs@[i]),
{
    let ghost before = items@;
    let ghost after = final(items)@;
    let mut refs: Vec<&'a mut I> = Vec::new();
    let mut rest: &'a mut [I] = items.as_mut_slice();
    while rest.len() > 0
        invariant
            refs@.len() + rest@.len() == before.len(),
            rest@ =~= before.skip(refs@.len() as int),
            forall|k: int| 0 <= k < refs@.len() ==> *(#[trigger] refs@[k]) == before[k],
            after =~= Seq::new(refs@.len(), |k: int| *final(refs@[k])) + final(rest)@,
        decreases rest@.len(),
    {
        let ghost done = refs@;
        let ghost rest_fin = final(rest)@;
        let (head, tail) = { rest }.split_at_mut(1);
        let ghost head_fin = final(head)@;
        match head.first_mut() {
            Some(first) => {
                let ghost first_fin = *final(first);
                assert(head_fin =~= seq![first_fin]);
                refs.push(first);
            },
            None => {},
        }
        rest = tail;
        proof {
            assert(rest_fin == head_fin + final(rest)@);
            assert(Seq::new(refs@.len(), |k: int| *final(refs@[k])) =~= Seq::new(
                done.len(),
                |k: int| *final(done[k]),
            ) + head_fin);
        }
    }
    refs
}

/// An inverse multiplexer whose channels are driven in parallel, one thread
/// for each.
pub struct IMuxSync<I> {
    channels: Vec<I>,
}

/// An inverse multiplexer whose channels are driven concurrently on one
/// thread, one task for each.
pub struct IMuxAsync<I> {
    channels: Vec<I>,
}

impl<I> IMuxSync<I> {
    /// The channels, in the order in which they were given.
    pub closed spec fn channels(&self) -> Seq<I> {
        self.channels@
    }

    /// The set of channels is not empty. It is so from `new` on: nothing
    /// adds or removes a channel.
    pub open spec fn wf(&self) -> bool {
        self.channels().len() >= 1
    }

    /// Makes an inverse multiplexer over `channels`, of which there is at
    /// least one.
    pub fn new(channels: Vec<I>) -> (mux: Self)
        requires
            channels@.len() >= 1,
        ensures
            mux.wf(),
            mux.channels() == channels@,
    {
        Self { channels }
    }

    /// Gives the channels back, in their order.
    pub fn into_inner(self) -> (channels: Vec<I>)
        ensures
            channels@ == self.channels(),
    {
        self.channels
    }

    /// Returns a reference to each channel, in their order.
    pub fn get_ref(&self) -> (refs: Vec<&I>)
        ensures
            refs@.len() == self.channels().len(),
            forall|i: int| 0 <= i < refs@.len() ==> *(#[trigger] refs@[i]) == self.channels()[i],
    {
        let mut refs: Vec<&I> = Vec::new();
        let mut i: usize = 0;
        while i < self.channels.len()
            invariant
                i <= self.channels@.len(),
                refs@.len() == i,
                forall|k: int| 0 <= k < i ==> *(#[trigger] refs@[k]) == self.channels@[k],
            decreases self.channels@.len() - i,
        {
            refs.push(&self.channels[i]);
            i += 1;
        }
        refs
    }

    /// Returns a mutable reference to each channel, in their order. The set
    /// of channels keeps its length; each channel ends as it is left through
    /// its reference.
    pub fn get_mut_ref(&mut self) -> (refs: Vec<&mut I>)
        ensures
            refs@.len() == old(self).channels().len(),
            final(self).channels().len() == old(self).channels().len(),
            final(self).wf() == old(self).wf(),
            forall|i: int|
                0 <= i < refs@.len() ==> *(#[trigger] refs@[i]) == old(self).channels()[i],
            forall|i: int|
                0 <= i < refs@.len() ==> final(self).channels()[i] == *final(#[trigger] refs@[i]),
    {
        borrow_each(&mut self.channels)
    }

    /// Returns the number of channels.
    pub fn channel_count(&self) -> (n: usize)
        ensures
            n == self.channels().len(),
    {
        self.channels.len()
    }

    /// Returns the chunk size for a message of `len` bytes.
    pub fn chunk_size(&self, len: usize) -> (size: usize)
        requires
            self.wf(),
        ensures
            size == chunk_size_spec(self.channels().len(), len as nat),
    {
        crate::plan::chunk_size(self.channels.len(), len)
    }

    /// Returns the byte range `[start, end)` of a message of `len` bytes
    /// that the channel at `index` carries.
    pub fn chunk_range(&self, len: usize, index: usize) -> (range: (usize, usize))
        requires
            index < self.channels().len(),
        ensures
            range.0 == chunk_start(self.channels().len(), len as nat, index as nat),
            range.1 == chunk_end(self.channels().len(), len as nat, index as nat),
            range.0 <= range.1 <= len,
    {
        crate::plan::chunk_range(self.channels.len(), len, index)
    }

}

impl<I> IMuxSync<CountingIO<I>> {
    /// Returns the number of bytes counted on all channels together.
    pub fn count(&self) -> (total: u64)
        requires
            sum(counts_of(self.channels())) <= u64::MAX,
        ensures
            total == sum(counts_of(self.channels())),
    {
        total_count(&self.channels)
    }

    /// Sets the counter of every channel to zero.
    pub fn reset(&mut self)
        ensures
            final(self).channels().len() == old(self).channels().len(),
            final(self).wf() == old(self).wf(),
            forall|k: int|
                0 <= k < old(self).channels().len() ==> (
                #[trigger] final(self).channels()[k]).counted() == 0
                    && final(self).channels()[k].wrapped() == old(self).channels()[k].wrapped(),
    {
        reset_all(&mut self.channels);
    }
}

impl<I> IMuxAsync<I> {
    /// The channels, in the order in which they were given.
    pub closed spec fn channels(&self) -> Seq<I> {
        self.channels@
    }

    /// The set of channels is not empty. It is so from `new` on: nothing
    /// adds or removes a channel.
    pub open spec fn wf(&self) -> bool {
        self.channels().len() >= 1
    }

    /// Makes an inverse multiplexer over `channels`, of which there is at
    /// least one.
    pub fn new(channels: Vec<I>) -> (mux: Self)
        requires
            channels@.len() >= 1,
        ensures
            mux.wf(),
            mux.channels() == channels@,
    {
        Self { channels }
    }

    /// Gives the channels back, in their order.
    pub fn into_inner(self) -> (channels: Vec<I>)
        ensures
            channels@ == self.channels(),
    {
        self.channels
    }

    /// Returns a reference to each channel, in their order.
    pub fn get_ref(&self) -> (refs: Vec<&I>)
        ensures
            refs@.len() == self.channels().len(),
            forall|i: int| 0 <= i < refs@.len() ==> *(#[trigger] refs@[i]) == self.channels()[i],
    {
        let mut refs: Vec<&I> = Vec::new();
        let mut i: usize = 0;
        while i < self.channels.len()
            invariant
                i <= self.channels@.len(),
                refs@.len() == i,
                forall|k: int| 0 <= k < i ==> *(#[trigger] refs@[k]) == self.channels@[k],
            decreases self.channels@.len() - i,
        {
            refs.push(&self.channels[i]);
            i += 1;
        }
        refs
    }

    /// Returns a mutable reference to each channel, in their order. The set
    /// of channels keeps its length; each channel ends as it is left through
    /// its reference.
    pub fn get_mut_ref(&mut self) -> (refs: Vec<&mut I>)
        ensures
            refs@.len() == old(self).channels().len(),
            final(self).channels().len() == old(self).channels().len(),
            final(self).wf() == old(self).wf(),
            forall|i: int|
                0 <= i < refs@.len() ==> *(#[trigger] refs@[i]) == old(self).channels()[i],
            forall|i: int|
                0 <= i < refs@.len() ==> final(self).channels()[i] == *final(#[trigger] refs@[i]),
    {
        borrow_each(&mut self.channels)
    }

    /// Returns the number of channels.
    pub fn channel_count(&self) -> (n: usize)
        ensures
            n == self.channels().len(),
    {
        self.channels.len()
    }

    /// Returns the chunk size for a message of `len` bytes.
    pub fn chunk_size(&self, len: usize) -> (size: usize)
        requires
            self.wf(),
        ensures
            size == chunk_size_spec(self.channels().len(), len as nat),
    {
        crate::plan::chunk_size(self.channels.len(), len)
    }

    /// Returns the byte range `[start, end)` of a message of `len` bytes
    /// that the channel at `index` carries.
    pub fn chunk_range(&self, len: usize, index: usize) -> (range: (usize, usize))
        requires
            index < self.channels().len(),
        ensures
            range.0 == chunk_start(self.channels().len(), len as nat, index as nat),
            range.1 == chunk_end(self.channels().len(), len as nat, index as nat),
            range.0 <= range.1 <= len,
    {
        crate::plan::chunk_range(self.channels.len(), len, index)
    }

}

impl<I> IMuxAsync<CountingIO<I>> {
    /// Returns the number of bytes counted on all channels together.
    pub fn count(&self) -> (total: u64)
        requires
            sum(counts_of(self.channels())) <= u64::MAX,
        ensures
            total == sum(counts_of(self.channels())),
    {
        total_count(&self.channels)
    }

    /// Sets the counter of every channel to zero.
    pub fn reset(&mut self)
        ensures
            final(self).channels().len() == old(self).channels().len(),
            final(self).wf() == old(self).wf(),
            forall|k: int|
                0 <= k < old(self).channels().len() ==> (
                #[trigger] final(self).channels()[k]).counted() == 0
                    && final(self).channels()[k].wrapped() == old(self).channels()[k].wrapped(),
    {
        reset_all(&mut self.channels);
    }
}

/// Counting, for `IMuxSync`: after `reset`, one write of `msg`, counted by
/// every channel, puts the total at `8 + len`, whatever was counted before
/// the reset. `cleared` is the multiplexer as `reset` left it, `written` as
/// the write left it. The total fits a `u64`, which is what `count` asks,
/// where `8 + len` does.
pub proof fn lemma_sync_count_after_reset_and_write<I>(
    cleared: IMuxSync<CountingIO<I>>,
    written: IMuxSync<CountingIO<I>>,
    msg: Seq<u8>,
)
    requires
        cleared.wf(),
        written.channels().len() == cleared.channels().len(),
        msg.len() <= usize::MAX,
        8 + msg.len() <= u64::MAX,
        forall|i: int|
            0 <= i < cleared.channels().len() ==> (#[trigger] cleared.channels()[i]).counted()
                == 0,
        forall|i: int|
            0 <= i < written.channels().len() ==> (#[trigger] written.channels()[i]).counted()
                == cleared.channels()[i].counted() + wire(cleared.channels().len(), msg)[i].len(),
    ensures
        sum(counts_of(written.channels())) == 8 + msg.len(),
        sum(counts_of(written.channels())) <= u64::MAX,
{
    lemma_count_after_reset(cleared.channels());
    lemma_count_after_write(cleared.channels(), written.channels(), msg);
}

/// Counting, for `IMuxAsync`: after `reset`, one write of `msg`, counted by
/// every channel, puts the total at `8 + len`, whatever was counted before
/// the reset. `cleared` is the multiplexer as `reset` left it, `written` as
/// the write left it. The total fits a `u64`, which is what `count` asks,
/// where `8 + len` does.
pub proof fn lemma_async_count_after_reset_and_write<I>(
    cleared: IMuxAsync<CountingIO<I>>,
    written: IMuxAsync<CountingIO<I>>,
    msg: Seq<u8>,
)
    requires
        cleared.wf(),
        written.channels().len() == cleared.channels().len(),
        msg.len() <= usize::MAX,
        8 + msg.len() <= u64::MAX,
        forall|i: int|
            0 <= i < cleared.channels().len() ==> (#[trigger] cleared.channels()[i]).counted()
                == 0,
        forall|i: int|
            0 <= i < written.channels().len() ==> (#[trigger] written.channels()[i]).counted()
                == cleared.channels()[i].counted() + wire(cleared.channels().len(), msg)[i].len(),
    ensures
        sum(counts_of(written.channels())) == 8 + msg.len(),
        sum(counts_of(written.channels())) <= u64::MAX,
{
    lemma_count_after_reset(cleared.channels());
    lemma_count_after_write(cleared.channels(), written.channels(), msg);
}

} // verus!

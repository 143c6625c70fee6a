//! The chunk plan: how a message of known length is partitioned over a fixed
//! number of channels.

use vstd::prelude::*;

verus! {

/// No channel is handed a chunk smaller than this, unless the message ends.
pub const MIN_CHUNK_SIZE: usize = 8192;

/// `len / n`, rounded up.
pub open spec fn ceil_div(len: nat, n: nat) -> nat
    recommends
        n >= 1,
{
    ((len + n - 1) / (n as int)) as nat
}

/// The chunk size for a message of `len` bytes over `n` channels: the
/// per-channel share, rounded up, but never less than `MIN_CHUNK_SIZE`.
pub open spec fn chunk_size_spec(n: nat, len: nat) -> nat
    recommends
        n >= 1,
{
    if ceil_div(len, n) >= 8192 {
        ceil_div(len, n)
    } else {
        8192
    }
}

/// First byte of the message that channel `i` carries.
pub open spec fn chunk_start(n: nat, len: nat, i: nat) -> nat {
    if i * chunk_size_spec(n, len) <= len {
        i * chunk_size_spec(n, len)
    } else {
        len
    }
}

/// One past the last byte of the message that channel `i` carries.
pub open spec fn chunk_end(n: nat, len: nat, i: nat) -> nat {
    chunk_start(n, len, i + 1)
}

/// The channel that carries byte `b` of the message.
pub open spec fn chunk_owner(n: nat, len: nat, b: nat) -> nat {
    b / chunk_size_spec(n, len)
}

pub proof fn lemma_ceil_div(len: nat, n: nat)
    requires
        n >= 1,
    ensures
        len == 0 ==> ceil_div(len, n) == 0,
        len > 0 ==> ceil_div(len, n) == (len - 1) / (n as int) + 1,
        ceil_div(len, n) <= len,
        ceil_div(len, n) * n >= len,
{
    if len > 0 {
        vstd::arithmetic::div_mod::lemma_div_plus_one(len - 1, n as int);
        let q = (len - 1) / (n as int);
        assert(0 <= q <= len - 1 && (q + 1) * n >= len) by (nonlinear_arith)
            requires
                q == (len - 1) / (n as int),
                n >= 1,
                len >= 1,
        ;
    } else {
        assert((n - 1) / (n as int) == 0) by (nonlinear_arith)
            requires
                n >= 1,
        ;
    }
}

/// The chunk size is positive, and `n` chunks of that size hold the message.
pub proof fn lemma_chunk_size_bounds(n: nat, len: nat)
    requires
        n >= 1,
    ensures
        chunk_size_spec(n, len) >= 8192,
        chunk_size_spec(n, len) >= ceil_div(len, n),
        n * chunk_size_spec(n, len) >= len,
        len <= 8192 * n ==> chunk_size_spec(n, len) == 8192,
        len > 8192 * n ==> chunk_size_spec(n, len) == ceil_div(len, n),
{
    lemma_ceil_div(len, n);
    let c = ceil_div(len, n);
    let s = chunk_size_spec(n, len);
    assert(n * s >= len) by (nonlinear_arith)
        requires
            s >= c,
            c * n >= len,
    ;
    if len > 0 {
        let q = (len - 1) / (n as int);
        assert(len <= 8192 * n ==> q + 1 <= 8192) by (nonlinear_arith)
            requires
                q == (len - 1) / (n as int),
                n >= 1,
                len >= 1,
        ;
        assert(len > 8192 * n ==> q + 1 > 8192) by (nonlinear_arith)
            requires
                q == (len - 1) / (n as int),
                n >= 1,
                len >= 1,
        ;
    }
}

/// The first chunk starts at the first byte.
pub proof fn lemma_chunk_start_zero(n: nat, len: nat)
    ensures
        chunk_start(n, len, 0) == 0,
{
    let s = chunk_size_spec(n, len);
    assert(0 * s == 0) by (nonlinear_arith);
}

/// Where the chunk boundaries lie, relative to the chunk size.
pub proof fn lemma_chunk_bounds(n: nat, len: nat, i: nat)
    requires
        n >= 1,
    ensures
        chunk_start(n, len, i) <= chunk_end(n, len, i) <= len,
        chunk_end(n, len, i) - chunk_start(n, len, i) <= chunk_size_spec(n, len),
        i * chunk_size_spec(n, len) <= len ==> chunk_start(n, len, i) == i * chunk_size_spec(
            n,
            len,
        ),
        i >= n ==> chunk_start(n, len, i) == len,
{
    lemma_chunk_size_bounds(n, len);
    let s = chunk_size_spec(n, len);
    assert((i + 1) * s == i * s + s) by (nonlinear_arith);
    if i >= n {
        assert(i * s >= len) by (nonlinear_arith)
            requires
                i >= n,
                n * s >= len,
                s >= 0,
        ;
    }
}

/// Chunk coverage: the `n` chunk ranges are well formed, follow one another
/// from `0` to `len` without a gap, and every byte of the message lies in the
/// range of exactly one channel, the one that `chunk_owner` names.
pub proof fn lemma_chunk_coverage(n: nat, len: nat)
    requires
        n >= 1,
    ensures
        chunk_start(n, len, 0) == 0,
        chunk_end(n, len, (n - 1) as nat) == len,
        forall|i: nat|
            i < n ==> chunk_start(n, len, i) <= #[trigger] chunk_end(n, len, i) <= len,
        forall|i: nat| #[trigger] chunk_end(n, len, i) == chunk_start(n, len, i + 1),
        forall|b: nat|
            b < len ==> {
                let i = #[trigger] chunk_owner(n, len, b);
                i < n && chunk_start(n, len, i) <= b < chunk_end(n, len, i)
            },
        forall|i: nat, b: nat|
            chunk_start(n, len, i) <= b < #[trigger] chunk_end(n, len, i) ==> b < len && i
                == #[trigger] chunk_owner(n, len, b),
{
    lemma_chunk_size_bounds(n, len);
    lemma_chunk_start_zero(n, len);
    let s = chunk_size_spec(n, len);
    lemma_chunk_bounds(n, len, n);
    assert(chunk_end(n, len, (n - 1) as nat) == chunk_start(n, len, n));
    assert forall|i: nat| i < n implies chunk_start(n, len, i) <= #[trigger] chunk_end(n, len, i)
        <= len by {
        lemma_chunk_bounds(n, len, i);
    }
    assert forall|b: nat| b < len implies ({
        let i = #[trigger] chunk_owner(n, len, b);
        i < n && chunk_start(n, len, i) <= b < chunk_end(n, len, i)
    }) by {
        lemma_owner(n, len, b);
    }
    assert forall|i: nat, b: nat|
        chunk_start(n, len, i) <= b < #[trigger] chunk_end(n, len, i) implies b < len && i
        == #[trigger] chunk_owner(n, len, b) by {
        lemma_chunk_bounds(n, len, i);
        assert((i + 1) * s == i * s + s) by (nonlinear_arith);
        assert(i * s <= b < (i + 1) * s);
        assert(b / s == i) by (nonlinear_arith)
            requires
                i * s <= b < i * s + s,
                s > 0,
        ;
    }
}

/// Byte `b` of the message lies in the range of channel `chunk_owner(b)`, at
/// offset `b - owner * chunk_size`.
pub proof fn lemma_owner(n: nat, len: nat, b: nat)
    requires
        n >= 1,
        b < len,
    ensures
        chunk_owner(n, len, b) < n,
        chunk_start(n, len, chunk_owner(n, len, b)) == chunk_owner(n, len, b) * chunk_size_spec(
            n,
            len,
        ),
        chunk_start(n, len, chunk_owner(n, len, b)) <= b < chunk_end(
            n,
            len,
            chunk_owner(n, len, b),
        ),
{
    lemma_chunk_size_bounds(n, len);
    let s = chunk_size_spec(n, len);
    let i = chunk_owner(n, len, b);
    assert(i * s <= b < (i + 1) * s && i < n) by (nonlinear_arith)
        requires
            i == b / s,
            s > 0,
            b < len,
            n * s >= len,
            n >= 1,
    ;
}

/// Computes the chunk size for a message of `len` bytes over
/// `channel_count` channels.
pub fn chunk_size(channel_count: usize, len: usize) -> (size: usize)
    requires
        channel_count >= 1,
    ensures
        size == chunk_size_spec(channel_count as nat, len as nat),
{
    proof {
        lemma_ceil_div(len as nat, channel_count as nat);
    }
    let share: usize = if len == 0 {
        0
    } else {
        (len - 1) / channel_count + 1
    };
    if share >= MIN_CHUNK_SIZE {
        share
    } else {
        MIN_CHUNK_SIZE
    }
}

/// Computes the byte range `[start, end)` of the message that channel
/// `index` carries. A channel behind the end of the message gets the empty
/// range `[len, len)`.
pub fn chunk_range(channel_count: usize, len: usize, index: usize) -> (range: (usize, usize))
    requires
        channel_count >= 1,
        index < channel_count,
    ensures
        range.0 == chunk_start(channel_count as nat, len as nat, index as nat),
        range.1 == chunk_end(channel_count as nat, len as nat, index as nat),
        range.0 <= range.1 <= len,
{
    let size: usize = chunk_size(channel_count, len);
    let whole: usize = len / size;
    proof {
        lemma_chunk_bounds(channel_count as nat, len as nat, index as nat);
        let s = size as int;
        let w = whole as int;
        let l = len as int;
        assert(forall|k: int| 0 <= k <= w ==> #[trigger] (k * s) <= l) by (nonlinear_arith)
            requires
                w == l / s,
                s > 0,
                l >= 0,
        ;
        assert(forall|k: int| k > w ==> #[trigger] (k * s) > l) by (nonlinear_arith)
            requires
                w == l / s,
                s > 0,
                l >= 0,
        ;
    }
    let start: usize = if index <= whole {
        index * size
    } else {
        len
    };
    let end: usize = if index < whole {
        (index + 1) * size
    } else {
        len
    };
    (start, end)
}

/// `ranges` is the chunk plan for a message of `len` bytes over `n`
/// channels: entry `i` is the byte range `[start, end)` of channel `i`.
pub open spec fn is_plan(ranges: Seq<(usize, usize)>, n: nat, len: nat) -> bool {
    &&& ranges.len() == n
    &&& forall|i: int|
        0 <= i < n ==> (#[trigger] ranges[i]).0 == chunk_start(n, len, i as nat) && ranges[i].1
            == chunk_end(n, len, i as nat)
}

/// Computes the whole chunk plan: the byte range of every channel, in the
/// channels' order.
pub fn chunk_ranges(channel_count: usize, len: usize) -> (ranges: Vec<(usize, usize)>)
    requires
        channel_count >= 1,
    ensures
        is_plan(ranges@, channel_count as nat, len as nat),
{
    let mut ranges: Vec<(usize, usize)> = Vec::new();
    let mut i: usize = 0;
    while i < channel_count
        invariant
            channel_count >= 1,
            i <= channel_count,
            ranges@.len() == i,
            forall|k: int|
                0 <= k < i ==> (#[trigger] ranges@[k]).0 == chunk_start(
                    channel_count as nat,
                    len as nat,
                    k as nat,
                ) && ranges@[k].1 == chunk_end(channel_count as nat, len as nat, k as nat),
        decreases channel_count - i,
    {
        ranges.push(chunk_range(channel_count, len, i));
        i += 1;
    }
    ranges
}

} // verus!

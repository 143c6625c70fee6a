//! The wire framing of one message: an eight-byte little-endian length on
//! the first channel, then the payload, cut into chunks by the chunk plan.

use crate::counting::{counts_of, lemma_sum_grows, lemma_sum_zero, sum, CountingIO};
use crate::plan::{
    chunk_end, chunk_owner, chunk_range, chunk_start, lemma_chunk_bounds, lemma_chunk_coverage,
    lemma_chunk_start_zero, lemma_owner,
};
use vstd::bytes::{
    lemma_auto_spec_u64_to_from_le_bytes, spec_u64_from_le_bytes, spec_u64_to_le_bytes,
    u64_from_le_bytes, u64_to_le_bytes,
};
use vstd::prelude::*;
use vstd::slice::slice_subrange;

verus! {

/// Number of bytes of the length header.
pub const HEADER_LEN: usize = 8;

/// The header of a message of `len` bytes: `len` as a `u64`, least
/// significant byte first.
pub open spec fn header(len: nat) -> Seq<u8>
    recommends
        len <= u64::MAX,
{
    spec_u64_to_le_bytes(len as u64)
}

/// The length that a header announces, where `bytes` is a header and the
/// length fits this machine's `usize`.
pub open spec fn decode_header_spec(bytes: Seq<u8>) -> Option<nat> {
    if bytes.len() == 8 && spec_u64_from_le_bytes(bytes) <= usize::MAX {
        Some(spec_u64_from_le_bytes(bytes) as nat)
    } else {
        None
    }
}

/// The part of `msg` that channel `i` of `n` carries.
pub open spec fn chunk(n: nat, msg: Seq<u8>, i: nat) -> Seq<u8> {
    msg.subrange(chunk_start(n, msg.len(), i) as int, chunk_end(n, msg.len(), i) as int)
}

/// What each of the `n` channels carries for `msg`: the first channel the
/// header and its chunk, every other channel its chunk alone.
pub open spec fn wire(n: nat, msg: Seq<u8>) -> Seq<Seq<u8>> {
    Seq::new(
        n,
        |i: int|
            if i == 0 {
                header(msg.len()) + chunk(n, msg, 0)
            } else {
                chunk(n, msg, i as nat)
            },
    )
}

/// The payload bytes among what arrived on channel `i`: on the first channel
/// what follows the header, on the others everything.
pub open spec fn body(streams: Seq<Seq<u8>>, i: nat) -> Seq<u8> {
    if i == 0 {
        streams[0].skip(8)
    } else {
        streams[i as int]
    }
}

/// Every channel delivered exactly the bytes that the chunk plan gives it for
/// a message of `len` bytes.
pub open spec fn well_framed(streams: Seq<Seq<u8>>, len: nat) -> bool {
    forall|i: nat|
        i < streams.len() ==> (#[trigger] body(streams, i)).len() == chunk_end(
            streams.len(),
            len,
            i,
        ) - chunk_start(streams.len(), len, i)
}

/// The message of `len` bytes put together from the channels' payloads: byte
/// `b` is taken from the channel that owns it.
pub open spec fn joined(streams: Seq<Seq<u8>>, len: nat) -> Seq<u8> {
    Seq::new(
        len,
        |b: int|
            body(streams, chunk_owner(streams.len(), len, b as nat))[b - chunk_start(
                streams.len(),
                len,
                chunk_owner(streams.len(), len, b as nat),
            )],
    )
}

/// The message that `streams` holds, one entry per channel, or `None` where
/// the first channel has no complete header, the announced length does not
/// fit a `usize`, or a channel delivered more or fewer bytes than planned.
pub open spec fn receive_spec(streams: Seq<Seq<u8>>) -> Option<Seq<u8>> {
    if streams.len() >= 1 && streams[0].len() >= 8 {
        match decode_header_spec(streams[0].take(8)) {
            Some(len) => if well_framed(streams, len) {
                Some(joined(streams, len))
            } else {
                None
            },
            None => None,
        }
    } else {
        None
    }
}

/// The byte sequences held by a list of buffers.
pub open spec fn contents(buffers: &Vec<Vec<u8>>) -> Seq<Seq<u8>> {
    Seq::new(buffers@.len(), |i: int| buffers@[i]@)
}

/// The number of bytes on each channel.
pub open spec fn lengths(streams: Seq<Seq<u8>>) -> Seq<nat> {
    Seq::new(streams.len(), |i: int| streams[i].len())
}

/// Encodes the length header of a message of `len` bytes.
pub fn encode_header(len: usize) -> (bytes: Vec<u8>)
    ensures
        bytes@ == header(len as nat),
        bytes@.len() == 8,
{
    u64_to_le_bytes(len as u64)
}

/// Decodes a length header. `None` where `bytes` is not eight bytes long or
/// announces more bytes than a `usize` can count.
pub fn decode_header(bytes: &[u8]) -> (len: Option<usize>)
    ensures
        match len {
            Some(l) => decode_header_spec(bytes@) == Some(l as nat),
            None => decode_header_spec(bytes@) is None,
        },
{
    if bytes.len() != HEADER_LEN {
        return None;
    }
    let announced: u64 = u64_from_le_bytes(bytes);
    if announced <= usize::MAX as u64 {
        Some(announced as usize)
    } else {
        None
    }
}

/// A header decodes to the length it was made from.
pub proof fn lemma_header_round_trip(len: nat)
    requires
        len <= usize::MAX,
    ensures
        header(len).len() == 8,
        decode_header_spec(header(len)) == Some(len),
{
    lemma_auto_spec_u64_to_from_le_bytes();
}

/// Cuts `buf` into what each of `channel_count` channels has to send.
pub fn split(channel_count: usize, buf: &[u8]) -> (out: Vec<Vec<u8>>)
    requires
        channel_count >= 1,
    ensures
        contents(&out) == wire(channel_count as nat, buf@),
{
    let len: usize = buf.len();
    let mut out: Vec<Vec<u8>> = Vec::new();
    let mut i: usize = 0;
    while i < channel_count
        invariant
            channel_count >= 1,
            i <= channel_count,
            len == buf@.len(),
            out@.len() == i,
            forall|k: int| 0 <= k < i ==> (#[trigger] out@[k])@ == wire(channel_count as nat, buf@)[k],
        decreases channel_count - i,
    {
        let (start, end) = chunk_range(channel_count, len, i);
        let mut piece: Vec<u8> = if i == 0 {
            encode_header(len)
        } else {
            Vec::new()
        };
        let ghost lead = piece@;
        piece.extend_from_slice(slice_subrange(buf, start, end));
        assert(piece@ =~= lead + buf@.subrange(start as int, end as int));
        out.push(piece);
        i += 1;
    }
    assert(contents(&out) =~= wire(channel_count as nat, buf@));
    out
}

/// Puts a message together from what arrived on each channel. Fails unless
/// `streams` is exactly what `split` makes of some message.
pub fn receive(streams: &Vec<Vec<u8>>) -> (msg: Option<Vec<u8>>)
    ensures
        match msg {
            Some(m) => receive_spec(contents(streams)) == Some(m@),
            None => receive_spec(contents(streams)) is None,
        },
{
    let n: usize = streams.len();
    if n == 0 {
        return None;
    }
    let first: &[u8] = streams[0].as_slice();
    if first.len() < HEADER_LEN {
        return None;
    }
    let len: usize = match decode_header(slice_subrange(first, 0, HEADER_LEN)) {
        Some(l) => l,
        None => {
            return None;
        },
    };
    let ghost all = contents(streams);
    assert(all[0].take(8) =~= first@.subrange(0, 8));
    proof {
        lemma_chunk_start_zero(n as nat, len as nat);
    }
    let mut msg: Vec<u8> = Vec::new();
    let mut i: usize = 0;
    while i < n
        invariant
            n == streams@.len(),
            n >= 1,
            i <= n,
            all == contents(streams),
            first@ == streams@[0]@,
            first@.len() >= 8,
            decode_header_spec(all[0].take(8)) == Some(len as nat),
            msg@.len() == chunk_start(n as nat, len as nat, i as nat),
            forall|k: nat|
                k < i ==> (#[trigger] body(all, k)).len() == chunk_end(n as nat, len as nat, k)
                    - chunk_start(n as nat, len as nat, k),
            forall|b: int|
                0 <= b < msg@.len() ==> #[trigger] msg@[b] == joined(all, len as nat)[b],
        decreases n - i,
    {
        let (start, end) = chunk_range(n, len, i);
        let part: &[u8] = if i == 0 {
            slice_subrange(first, HEADER_LEN, first.len())
        } else {
            streams[i].as_slice()
        };
        assert(part@ =~= body(all, i as nat));
        if part.len() != end - start {
            assert(!well_framed(all, len as nat));
            return None;
        }
        let ghost before = msg@;
        msg.extend_from_slice(part);
        proof {
            lemma_chunk_coverage(n as nat, len as nat);
            assert forall|b: int| 0 <= b < msg@.len() implies #[trigger] msg@[b] == joined(
                all,
                len as nat,
            )[b] by {
                if b >= before.len() {
                    assert(chunk_start(n as nat, len as nat, i as nat) <= b < chunk_end(
                        n as nat,
                        len as nat,
                        i as nat,
                    ));
                    assert(chunk_owner(n as nat, len as nat, b as nat) == i);
                    assert(msg@[b] == part@[b - before.len()]);
                }
            }
        }
        i += 1;
    }
    proof {
        lemma_chunk_bounds(n as nat, len as nat, n as nat);
        assert(well_framed(all, len as nat));
        assert(msg@ =~= joined(all, len as nat));
    }
    Some(msg)
}

/// Round trip: what `split` makes of a message, `receive` turns back into
/// that message, whatever the number of channels.
pub proof fn lemma_round_trip(n: nat, msg: Seq<u8>)
    requires
        n >= 1,
        msg.len() <= usize::MAX,
    ensures
        receive_spec(wire(n, msg)) == Some(msg),
{
    let streams = wire(n, msg);
    let len = msg.len();
    lemma_header_round_trip(len);
    assert(streams[0].take(8) =~= header(len));
    assert(body(streams, 0) =~= chunk(n, msg, 0));
    assert forall|i: nat| i < streams.len() implies (#[trigger] body(streams, i)).len()
        == chunk_end(n, len, i) - chunk_start(n, len, i) by {
        lemma_chunk_bounds(n, len, i);
    }
    assert forall|b: int| 0 <= b < len implies #[trigger] joined(streams, len)[b] == msg[b] by {
        lemma_owner(n, len, b as nat);
        let i = chunk_owner(n, len, b as nat);
        lemma_chunk_bounds(n, len, i);
        assert(body(streams, i) =~= chunk(n, msg, i));
    }
    assert(joined(streams, len) =~= msg);
}

/// Nothing but a whole message is accepted: where `receive` yields a message,
/// the channels delivered exactly what `split` makes of it, so a channel
/// that delivered too little, or too much, fails the whole transfer.
pub proof fn lemma_receive_exact(streams: Seq<Seq<u8>>)
    requires
        receive_spec(streams) is Some,
    ensures
        streams == wire(streams.len(), receive_spec(streams)->0),
{
    let n = streams.len();
    let msg = receive_spec(streams)->0;
    let len = decode_header_spec(streams[0].take(8))->0;
    lemma_auto_spec_u64_to_from_le_bytes();
    assert(header(len) == streams[0].take(8));
    assert(msg.len() == len);
    assert forall|i: int| 0 <= i < n implies #[trigger] wire(n, msg)[i] == streams[i] by {
        lemma_chunk_bounds(n, len, i as nat);
        lemma_chunk_coverage(n, len);
        let part = body(streams, i as nat);
        let start = chunk_start(n, len, i as nat);
        assert(part.len() == chunk_end(n, len, i as nat) - start);
        assert forall|j: int| 0 <= j < part.len() implies chunk(n, msg, i as nat)[j]
            == part[j] by {
            let b = (start + j) as nat;
            assert(start <= b < chunk_end(n, len, i as nat));
            assert(chunk_owner(n, len, b) == i);
        }
        assert(chunk(n, msg, i as nat) =~= part);
        if i == 0 {
            assert(streams[0].take(8) + streams[0].skip(8) =~= streams[0]);
        }
    }
    assert(wire(n, msg) =~= streams);
}

/// Counting: where every channel counts what it carries for `msg`, the
/// counters together grow by the eight header bytes and the length of `msg`,
/// whatever they held before.
pub proof fn lemma_count_after_write<I>(
    before: Seq<CountingIO<I>>,
    after: Seq<CountingIO<I>>,
    msg: Seq<u8>,
)
    requires
        before.len() >= 1,
        before.len() == after.len(),
        msg.len() <= usize::MAX,
        forall|i: int|
            0 <= i < after.len() ==> (#[trigger] after[i]).counted() == before[i].counted() + wire(
                before.len(),
                msg,
            )[i].len(),
    ensures
        sum(counts_of(after)) == sum(counts_of(before)) + 8 + msg.len(),
{
    lemma_wire_total(before.len(), msg);
    lemma_sum_grows(counts_of(before), lengths(wire(before.len(), msg)), counts_of(after));
}

/// Counting: after a reset the counters add up to zero, so the first write
/// after it is counted as `8 + len`, whatever was counted before the reset.
pub proof fn lemma_count_after_reset<I>(channels: Seq<CountingIO<I>>)
    requires
        forall|i: int| 0 <= i < channels.len() ==> (#[trigger] channels[i]).counted() == 0,
    ensures
        sum(counts_of(channels)) == 0,
{
    lemma_sum_zero(counts_of(channels));
}

/// The parts laid end to end.
pub open spec fn glued(parts: Seq<Seq<u8>>) -> Seq<u8>
    decreases parts.len(),
{
    if parts.len() == 0 {
        Seq::empty()
    } else {
        glued(parts.drop_last()) + parts.last()
    }
}

/// The chunks of the first `k` channels, laid end to end, are the message up
/// to the start of chunk `k`.
proof fn lemma_glued_chunks(n: nat, msg: Seq<u8>, k: nat)
    requires
        n >= 1,
    ensures
        glued(Seq::new(k, |i: int| chunk(n, msg, i as nat))) == msg.take(
            chunk_start(n, msg.len(), k) as int,
        ),
    decreases k,
{
    let len = msg.len();
    let parts = Seq::new(k, |i: int| chunk(n, msg, i as nat));
    if k == 0 {
        assert(parts.len() == 0);
        assert(glued(parts) == Seq::<u8>::empty());
        lemma_chunk_start_zero(n, len);
        assert(msg.take(0) =~= Seq::<u8>::empty());
    } else {
        let j = (k - 1) as nat;
        let shorter = Seq::new(j, |i: int| chunk(n, msg, i as nat));
        let from = chunk_start(n, len, j) as int;
        let to = chunk_start(n, len, k) as int;
        lemma_glued_chunks(n, msg, j);
        lemma_chunk_bounds(n, len, j);
        assert(chunk_end(n, len, j) == chunk_start(n, len, k));
        assert(0 <= from <= to <= len);
        assert(parts.len() == k);
        assert(parts.drop_last() =~= shorter);
        assert(parts.last() == chunk(n, msg, j));
        assert(parts.last() == msg.subrange(from, to));
        assert(glued(parts) == glued(parts.drop_last()) + parts.last());
        assert(glued(parts.drop_last()) == msg.take(from));
        assert(msg.take(from) + msg.subrange(from, to) =~= msg.take(to));
    }
}

/// Cuts `buf` into the chunk of each of `channel_count` channels, without
/// copying.
pub fn chunks<'a>(buf: &'a [u8], channel_count: usize) -> (parts: Vec<&'a [u8]>)
    requires
        channel_count >= 1,
    ensures
        parts@.len() == channel_count,
        forall|i: int|
            #![trigger parts@[i]]
            0 <= i < channel_count ==> parts@[i]@ == chunk(channel_count as nat, buf@, i as nat),
{
    let len: usize = buf.len();
    let mut parts: Vec<&'a [u8]> = Vec::new();
    let mut i: usize = 0;
    while i < channel_count
        invariant
            channel_count >= 1,
            i <= channel_count,
            len == buf@.len(),
            parts@.len() == i,
            forall|k: int|
                #![trigger parts@[k]]
                0 <= k < i ==> parts@[k]@ == chunk(channel_count as nat, buf@, k as nat),
        decreases channel_count - i,
    {
        let (start, end) = chunk_range(channel_count, len, i);
        parts.push(slice_subrange(buf, start, end));
        i += 1;
    }
    parts
}

/// Cuts `buf`, the buffer for a message to come, into the chunk of each of
/// `channel_count` channels, to be filled in place: the buffer ends as what
/// the chunks end as, laid end to end.
pub fn chunks_mut<'a>(buf: &'a mut [u8], channel_count: usize) -> (parts: Vec<&'a mut [u8]>)
    requires
        channel_count >= 1,
    ensures
        parts@.len() == channel_count,
        forall|i: int|
            #![trigger parts@[i]]
            0 <= i < channel_count ==> parts@[i]@ == chunk(
                channel_count as nat,
                old(buf)@,
                i as nat,
            ),
        final(buf)@ == glued(Seq::new(channel_count as nat, |i: int| final(parts@[i])@)),
{
    let ghost before = buf@;
    let ghost after = final(buf)@;
    let len: usize = buf.len();
    let mut parts: Vec<&'a mut [u8]> = Vec::new();
    let mut rest: &'a mut [u8] = buf;
    let mut i: usize = 0;
    proof {
        lemma_chunk_start_zero(channel_count as nat, len as nat);
        assert(before.skip(0) =~= before);
    }
    while i < channel_count
        invariant
            channel_count >= 1,
            i <= channel_count,
            len == before.len(),
            parts@.len() == i,
            rest@ =~= before.skip(chunk_start(channel_count as nat, len as nat, i as nat) as int),
            forall|k: int|
                #![trigger parts@[k]]
                0 <= k < i ==> parts@[k]@ == chunk(channel_count as nat, before, k as nat),
            after =~= glued(Seq::new(i as nat, |k: int| final(parts@[k])@)) + final(rest)@,
        decreases channel_count - i,
    {
        let ghost done = Seq::new(i as nat, |k: int| final(parts@[k])@);
        let ghost rest_fin = final(rest)@;
        let (start, end) = chunk_range(channel_count, len, i);
        proof {
            lemma_chunk_bounds(channel_count as nat, len as nat, i as nat);
        }
        let (head, tail) = { rest }.split_at_mut(end - start);
        let ghost head_fin = final(head)@;
        assert(head@ =~= chunk(channel_count as nat, before, i as nat));
        parts.push(head);
        rest = tail;
        i += 1;
        proof {
            let grown = Seq::new(i as nat, |k: int| final(parts@[k])@);
            assert(grown.drop_last() =~= done);
            assert(grown.last() == head_fin);
            assert(rest_fin == head_fin + final(rest)@);
        }
    }
    proof {
        lemma_chunk_bounds(channel_count as nat, len as nat, channel_count as nat);
        assert(rest@.len() == 0);
    }
    parts
}

/// Filling in place: the chunks of a message, laid end to end, are the
/// message. So a buffer cut by `chunks_mut`, each chunk of which was filled
/// with that channel's chunk of `msg`, ends as `msg`.
pub proof fn lemma_chunks_rejoin(n: nat, msg: Seq<u8>)
    requires
        n >= 1,
    ensures
        glued(Seq::new(n, |i: int| chunk(n, msg, i as nat))) == msg,
{
    lemma_glued_chunks(n, msg, n);
    lemma_chunk_bounds(n, msg.len(), n);
    assert(msg.take(msg.len() as int) =~= msg);
}

/// Round trip in place: a receiver that cuts a buffer of the announced
/// length with `chunks_mut`, and fills each part with what the sender's
/// `chunks` cut from `msg` for the same channel, ends with `msg`. `buf` is
/// the receiver's buffer, `filled` what its parts end as.
pub proof fn lemma_round_trip_in_place(n: nat, msg: Seq<u8>, buf: Seq<u8>, filled: Seq<Seq<u8>>)
    requires
        n >= 1,
        msg.len() <= usize::MAX,
        decode_header_spec(header(msg.len())) == Some(buf.len()),
        filled.len() == n,
        forall|i: int| 0 <= i < n ==> #[trigger] filled[i] == chunk(n, msg, i as nat),
    ensures
        buf.len() == msg.len(),
        forall|i: int|
            0 <= i < n ==> (#[trigger] chunk(n, buf, i as nat)).len() == chunk(
                n,
                msg,
                i as nat,
            ).len(),
        glued(filled) == msg,
{
    lemma_header_round_trip(msg.len());
    lemma_chunks_rejoin(n, msg);
    assert(filled =~= Seq::new(n, |i: int| chunk(n, msg, i as nat)));
    assert forall|i: int| 0 <= i < n implies (#[trigger] chunk(n, buf, i as nat)).len() == chunk(
        n,
        msg,
        i as nat,
    ).len() by {
        lemma_chunk_bounds(n, msg.len(), i as nat);
    }
}

/// The first `k` channels together carry the header and the message up to
/// the start of chunk `k`.
proof fn lemma_wire_prefix_total(n: nat, msg: Seq<u8>, k: nat)
    requires
        n >= 1,
        1 <= k <= n,
        msg.len() <= usize::MAX,
    ensures
        sum(lengths(wire(n, msg)).take(k as int)) == 8 + chunk_start(n, msg.len(), k),
    decreases k,
{
    let all = lengths(wire(n, msg));
    let part = all.take(k as int);
    lemma_header_round_trip(msg.len());
    lemma_chunk_bounds(n, msg.len(), (k - 1) as nat);
    assert(part.drop_last() =~= all.take(k - 1));
    if k == 1 {
        lemma_chunk_start_zero(n, msg.len());
        assert(sum(all.take(0)) == 0);
    } else {
        lemma_wire_prefix_total(n, msg, (k - 1) as nat);
    }
}

/// Counting: all channels together carry the eight header bytes and every
/// payload byte once.
pub proof fn lemma_wire_total(n: nat, msg: Seq<u8>)
    requires
        n >= 1,
        msg.len() <= usize::MAX,
    ensures
        sum(lengths(wire(n, msg))) == 8 + msg.len(),
{
    let all = lengths(wire(n, msg));
    lemma_wire_prefix_total(n, msg, n);
    lemma_chunk_bounds(n, msg.len(), n);
    assert(all.take(n as int) =~= all);
}

} // verus!

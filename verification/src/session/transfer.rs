//! What a whole transfer promises.

use crate::control::negotiation;
use crate::control::negotiation::ChannelInfo;
use crate::protocol::control;
use crate::protocol::control::MessageModel;
use crate::receiver::commit::CommitModel;
use crate::receiver::delivery;
use crate::receiver::interleaving;
use crate::receiver::interleaving::{Arrival, SentChunk};
use crate::receiver::ordering;
use crate::receiver::ordering::OrdererModel;
use crate::receiver::reassembly::ReassemblerModel;
use crate::receiver::sequence;
use crate::sender::batching;
use crate::sender::parallel_splitter;
use crate::sender::parallel_splitter::RawChunk;
use crate::sender::splitter;
use crate::session::receive;
use crate::session::send;
use crate::wire;
use vstd::prelude::*;

verus! {

/// The chunks of a stream whose payloads are given: numbered from 0 on.
pub open spec fn chunks_of(payloads: Seq<Seq<u8>>) -> Seq<SentChunk> {
    Seq::new(payloads.len(), |i: int| SentChunk { number: i as u64, data: payloads[i] })
}

/// All fragments of the chunks, one chunk after the other.
pub open spec fn all_fragments(chunks: Seq<SentChunk>, size: nat) -> Seq<Seq<u8>>
    decreases chunks.len(),
{
    if chunks.len() == 0 {
        Seq::empty()
    } else {
        all_fragments(chunks.drop_last(), size) + chunks.last().fragments(size)
    }
}

/// The bytes that are written for what was handed on.
pub open spec fn written(commits: Seq<CommitModel>) -> Seq<u8>
    decreases commits.len(),
{
    if commits.len() == 0 {
        Seq::empty()
    } else {
        written(commits.drop_last()) + commits.last().data
    }
}

/// A splitter sends the fragments of the chunks of its stream.
pub proof fn lemma_splitter_sends_the_chunks(payloads: Seq<Seq<u8>>, size: nat)
    requires
        payloads.len() <= 0x1_0000_0000,
    ensures
        splitter::stream_fragments(payloads, 0, size) == all_fragments(chunks_of(payloads), size),
    decreases payloads.len(),
{
    if payloads.len() > 0 {
        lemma_splitter_sends_the_chunks(payloads.drop_last(), size);
        assert(chunks_of(payloads).drop_last() =~= chunks_of(payloads.drop_last()));
        let number = 0u64.wrapping_add((payloads.len() - 1) as u64);
        assert(number == payloads.len() - 1);
        assert((number as u32) as u64 == number);
    }
}

/// What was read, chunk by chunk.
pub open spec fn read_of(raw: Seq<RawChunk>) -> Seq<Seq<u8>> {
    Seq::new(raw.len(), |i: int| raw[i].data@)
}

/// Several chunkers send what a single one sends: together, the chunks numbered
/// in the order in which they were read get the same fragments, byte for byte and in
/// the same batches, and the bytes counted are those that were read. The receiver
/// cannot tell the difference.
pub proof fn lemma_chunkers_send_the_same(raw: Seq<RawChunk>, size: nat)
    requires
        raw.len() <= 0x1_0000_0000,
        forall|i: int| 0 <= i < raw.len() ==> (#[trigger] raw[i]).chunk_id == i,
    ensures
        parallel_splitter::framed(raw, size) == splitter::stream_fragments(
            read_of(raw),
            0,
            size,
        ),
        batching::all_batches(parallel_splitter::framed(raw, size)) == batching::all_batches(
            splitter::stream_fragments(read_of(raw), 0, size),
        ),
        batching::unbatched(batching::all_batches(parallel_splitter::framed(raw, size)))
            == splitter::stream_fragments(read_of(raw), 0, size),
        parallel_splitter::total_bytes(raw) == wire::total_len(read_of(raw)),
    decreases raw.len(),
{
    let payloads = read_of(raw);
    if raw.len() > 0 {
        let rest = raw.drop_last();
        assert forall|i: int| 0 <= i < rest.len() implies (#[trigger] rest[i]).chunk_id == i by {
            assert(raw[i].chunk_id == i);
        }
        lemma_chunkers_send_the_same(rest, size);
        assert(payloads.drop_last() =~= read_of(rest));
        assert(raw[raw.len() - 1].chunk_id == raw.len() - 1);
        let number = 0u64.wrapping_add((raw.len() - 1) as u64);
        assert((number as u32) as u64 == number);
    }
    batching::lemma_batches_hold_everything(parallel_splitter::framed(raw, size));
}

/// What is written for the chunks in order is the stream.
pub proof fn lemma_written_is_the_stream(payloads: Seq<Seq<u8>>)
    requires
        payloads.len() <= u64::MAX,
    ensures
        written(sequence::commits_of(delivered_stream(payloads))) == wire::concat(payloads),
    decreases payloads.len(),
{
    let delivered = delivered_stream(payloads);
    let commits = sequence::commits_of(delivered);
    if payloads.len() > 0 {
        let rest = payloads.drop_last();
        lemma_written_is_the_stream(rest);
        let k = payloads.len() - 1;
        sequence::lemma_commit_recovers_payload(k as u64, payloads[k]);
        assert(commits.drop_last() =~= sequence::commits_of(delivered_stream(rest)));
        assert(commits.last() == ordering::commit_of(delivered[k]));
    }
}

/// What reassemblers hand on for the payloads of a stream, in order.
pub open spec fn delivered_stream(payloads: Seq<Seq<u8>>) -> Seq<Seq<u8>> {
    Seq::new(payloads.len(), |i: int| delivery::delivered(i as u64, payloads[i]))
}

/// Whatever the order in which the chunks of a stream leave the reassemblers, one
/// of them or several, and however often, the bytes written are the bytes read, and no chunk waits
/// any more.
pub proof fn lemma_chunks_are_written_in_order(
    o: OrdererModel,
    payloads: Seq<Seq<u8>>,
    order: Seq<int>,
)
    requires
        payloads.len() < u64::MAX,
        delivery::covers(order, payloads.len()),
        o.wf(),
        o.is_idle(),
        o.sent.len() == 0,
        o.next == 0,
        !o.closed,
        payloads.len() <= o.capacity,
        forall|k: int|
            0 <= k < order.len() ==> #[trigger] sequence::is_uncrowded(
                o,
                sequence::arranged(delivered_stream(payloads), order),
                k,
            ),
    ensures
        ({
            let out = sequence::after_pushes(
                o,
                sequence::arranged(delivered_stream(payloads), order),
            );
            &&& written(out.sent) == wire::concat(payloads)
            &&& out.sent.len() == payloads.len()
            &&& out.is_idle()
            &&& out.received == o.received + order.len()
        }),
{
    let delivered = delivered_stream(payloads);
    assert forall|i: int| 0 <= i < delivered.len() implies ordering::sequence_of(
        #[trigger] delivered[i],
    ) == o.next + i by {
        sequence::lemma_commit_recovers_payload(i as u64, payloads[i]);
        assert(ordering::commit_of(delivered[i]).sequence_number == i as u64);
    }
    sequence::lemma_order_restored(o, delivered, order);
    lemma_written_is_the_stream(payloads);
    assert(o.sent + sequence::commits_of(delivered) =~= sequence::commits_of(delivered));
}

/// Up to 2^32 chunks can be told apart by what their fragments say.
proof fn lemma_ids_differ(payloads: Seq<Seq<u8>>)
    requires
        payloads.len() <= 0x1_0000_0000,
    ensures
        forall|c: int, d: int|
            0 <= c < d < payloads.len() ==> (#[trigger] chunks_of(payloads)[c]).id() != (
            #[trigger] chunks_of(payloads)[d]).id(),
{
    let chunks = chunks_of(payloads);
    assert forall|c: int, d: int| 0 <= c < d < chunks.len() implies (#[trigger] chunks[c]).id() != (
    #[trigger] chunks[d]).id() by {
        assert(chunks[c].number == c && chunks[d].number == d);
        assert((c as u64) as u32 == c);
        assert((d as u64) as u32 == d);
    }
}

/// What was sent arrives. A stream is cut into payloads, framed, and sent as
/// fragments, which come in any order whatever, those of different chunks mixed
/// with each other. Once all came, the bytes written are the bytes read, nothing
/// waits any more, and each chunk was handed on once.
///
/// This holds where each payload fits the header of its chunk, where there is
/// always memory for the fragments and room for the chunks that wait, and for up
/// to 2^32 chunks, as fragments name their chunk in 32 bits.
pub proof fn lemma_stream_arrives(
    m: ReassemblerModel,
    o: OrdererModel,
    payloads: Seq<Seq<u8>>,
    size: nat,
    arrivals: Seq<Arrival>,
    times: Seq<nat>,
)
    requires
        payloads.len() <= 0x1_0000_0000,
        size > 0,
        forall|i: int|
            0 <= i < payloads.len() ==> (#[trigger] chunks_of(payloads)[i]).fits(size),
        interleaving::all_come_once(chunks_of(payloads), size, arrivals),
        times.len() == arrivals.len(),
        m.chunks.len() == 0,
        m.sent.len() == 0,
        !m.closed,
        payloads.len() <= m.capacity,
        forall|k: int|
            0 <= k < arrivals.len() ==> #[trigger] interleaving::has_memory(
                m,
                chunks_of(payloads),
                size,
                arrivals,
                times,
                k,
            ),
        o.wf(),
        o.is_idle(),
        o.sent.len() == 0,
        o.next == 0,
        !o.closed,
        payloads.len() <= o.capacity,
        forall|k: int|
            0 <= k < payloads.len() ==> #[trigger] sequence::is_uncrowded(
                o,
                interleaving::after_arrivals(m, chunks_of(payloads), size, arrivals, times).sent,
                k,
            ),
    ensures
        ({
            let r = interleaving::after_arrivals(m, chunks_of(payloads), size, arrivals, times);
            let out = sequence::after_pushes(o, r.sent);
            &&& written(out.sent) == wire::concat(payloads)
            &&& out.sent.len() == payloads.len()
            &&& r.chunks.len() == 0
            &&& out.is_idle()
            &&& out.received == o.received + payloads.len()
        }),
{
    let chunks = chunks_of(payloads);
    lemma_ids_differ(payloads);
    let order = interleaving::lemma_every_chunk_is_delivered(m, chunks, size, arrivals, times);
    let r = interleaving::after_arrivals(m, chunks, size, arrivals, times);
    let delivered = delivered_stream(payloads);
    assert(r.sent =~= sequence::arranged(delivered, order)) by {
        assert forall|j: int| 0 <= j < order.len() implies r.sent[j] == delivered[order[j]] by {
            assert(0 <= order[j] < chunks.len());
            assert(chunks[order[j]].delivered() == delivered[order[j]]);
        }
    }
    lemma_chunks_are_written_in_order(o, payloads, order);
}

/// What was sent arrives, also where fragments come more than once: as after a
/// reconnect, when the stream is sent again from its beginning. Once every fragment
/// came at least once, the bytes written are the bytes read, each chunk was written
/// once, and none waits to be written.
///
/// This holds under the same conditions as where each fragment comes once; room to
/// hand chunks on is needed for those that come again, too.
pub proof fn lemma_stream_arrives_despite_repeats(
    m: ReassemblerModel,
    o: OrdererModel,
    payloads: Seq<Seq<u8>>,
    size: nat,
    arrivals: Seq<Arrival>,
    times: Seq<nat>,
)
    requires
        payloads.len() <= 0x1_0000_0000,
        size > 0,
        forall|i: int|
            0 <= i < payloads.len() ==> (#[trigger] chunks_of(payloads)[i]).fits(size),
        interleaving::all_come(chunks_of(payloads), size, arrivals),
        times.len() == arrivals.len(),
        m.chunks.len() == 0,
        m.sent.len() == 0,
        !m.closed,
        forall|k: int|
            0 <= k < arrivals.len() ==> #[trigger] interleaving::has_memory(
                m,
                chunks_of(payloads),
                size,
                arrivals,
                times,
                k,
            ),
        forall|k: int|
            0 <= k < arrivals.len() ==> #[trigger] interleaving::has_room(
                m,
                chunks_of(payloads),
                size,
                arrivals,
                times,
                k,
            ),
        o.wf(),
        o.is_idle(),
        o.sent.len() == 0,
        o.next == 0,
        !o.closed,
        payloads.len() <= o.capacity,
        ({
            let r = interleaving::after_arrivals(m, chunks_of(payloads), size, arrivals, times);
            forall|k: int|
                0 <= k < r.sent.len() ==> #[trigger] sequence::is_uncrowded(o, r.sent, k)
        }),
    ensures
        ({
            let r = interleaving::after_arrivals(m, chunks_of(payloads), size, arrivals, times);
            let out = sequence::after_pushes(o, r.sent);
            &&& written(out.sent) == wire::concat(payloads)
            &&& out.sent.len() == payloads.len()
            &&& out.is_idle()
            &&& out.received == o.received + r.sent.len()
        }),
{
    let chunks = chunks_of(payloads);
    lemma_ids_differ(payloads);
    let order = interleaving::lemma_every_chunk_is_delivered_despite_repeats(
        m,
        chunks,
        size,
        arrivals,
        times,
    );
    let r = interleaving::after_arrivals(m, chunks, size, arrivals, times);
    let delivered = delivered_stream(payloads);
    assert(r.sent =~= sequence::arranged(delivered, order)) by {
        assert forall|j: int| 0 <= j < order.len() implies r.sent[j] == delivered[order[j]] by {
            assert(0 <= order[j] < chunks.len());
            assert(chunks[order[j]].delivered() == delivered[order[j]]);
        }
    }
    lemma_chunks_are_written_in_order(o, payloads, order);
}

/// The sender takes a file for transferred exactly where the receiver found the
/// checksum to be the one that the sender announced. A file that was refused or
/// could not be written is never taken for transferred. The answer says so after
/// its way over the wire, too.
pub proof fn lemma_file_is_accepted_where_intact(expected: u32, computed: u32, rest: Seq<u8>)
    ensures
        send::accepted_hash(receive::file_verdict(expected, computed)) == (if expected
            == computed {
            Some(expected)
        } else {
            None
        }),
        send::accepted_hash(receive::refusal()) is None,
        control::decoded(receive::file_verdict(expected, computed).encoded() + rest)
            == receive::file_verdict(expected, computed),
        control::decoded(receive::refusal().encoded() + rest) == receive::refusal(),
{
    control::lemma_message_round_trip(receive::file_verdict(expected, computed), rest);
    control::lemma_message_round_trip(receive::refusal(), rest);
}

/// The channels that a sender collects from the answers, after the
/// acknowledgement, until no more come.
pub open spec fn collected_channels(msgs: Seq<MessageModel>) -> Seq<ChannelInfo>
    decreases msgs.len(),
{
    if msgs.len() == 0 {
        Seq::empty()
    } else {
        let before = collected_channels(msgs.drop_last());
        match msgs.last() {
            MessageModel::ChannelOpened { channel_id, port } => before.push(
                ChannelInfo { channel_id, port },
            ),
            _ => before,
        }
    }
}

/// From one message at most one channel is collected.
pub proof fn lemma_collects_one()
    ensures
        forall|m: MessageModel| #[trigger]
            collected_channels(seq![m]) == (match m {
                MessageModel::ChannelOpened { channel_id, port } => seq![
                    ChannelInfo { channel_id, port },
                ],
                _ => Seq::empty(),
            }),
{
    assert forall|m: MessageModel| #[trigger]
        collected_channels(seq![m]) == (match m {
            MessageModel::ChannelOpened { channel_id, port } => seq![
                ChannelInfo { channel_id, port },
            ],
            _ => Seq::empty(),
        }) by {
        reveal_with_fuel(collected_channels, 2);
        assert(seq![m].drop_last() =~= Seq::empty());
        assert(seq![m].last() == m);
    }
}

/// After a reconnect both sides have the same channels.
pub proof fn lemma_reconnect_agrees(ports: Seq<Option<u16>>)
    ensures
        receive::reconnect_replies(ports)[0] is Ack,
        collected_channels(receive::reconnect_replies(ports).skip(1))
            == negotiation::opened_channels(ports),
{
    let channels = negotiation::opened_channels(ports);
    let replies = receive::reconnect_replies(ports);
    assert(replies.skip(1) =~= negotiation::announcements(channels));
    lemma_collects_announced(channels);
}

proof fn lemma_collects_announced(channels: Seq<ChannelInfo>)
    ensures
        collected_channels(negotiation::announcements(channels)) == channels,
    decreases channels.len(),
{
    let msgs = negotiation::announcements(channels);
    if channels.len() > 0 {
        lemma_collects_announced(channels.drop_last());
        assert(msgs.drop_last() =~= negotiation::announcements(channels.drop_last()));
        assert(channels.drop_last().push(channels.last()) =~= channels);
    } else {
        assert(collected_channels(msgs) =~= channels);
    }
}

} // verus!

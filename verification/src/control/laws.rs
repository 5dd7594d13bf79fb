//! What the two sides of a control connection tell each other, and when.

use crate::control::client;
use crate::control::negotiation;
use crate::control::negotiation::{ChannelInfo, NegotiationConfig, NegotiationStep};
use crate::protocol::control::MessageModel;
use crate::control::server;
use crate::wire;
use vstd::arithmetic::power2::{lemma2_to64, lemma_pow2_pos, lemma_pow2_unfold, pow2};
use vstd::prelude::*;

verus! {

/// Which bits of a request say what: the lowest eight bits the datagram size, the next
/// eight the largest chunk, the next eight the smallest chunk, the next six the number
/// of channels, and the upper two whether LZ4 and Zstandard are supported. Of a field
/// that has more bits, the lowest are taken.
#[verifier::spinoff_prover]
pub proof fn lemma_request_bits(config: NegotiationConfig)
    ensures
        ({
            let f = config.features();
            &&& 0 <= f <= u32::MAX
            &&& f % 256 == config.mtu % 256
            &&& f / 256 % 256 == config.max_chunk % 256
            &&& f / 65536 % 256 == config.min_chunk % 256
            &&& f / 16777216 % 64 == config.channel_count % 64
            &&& f / 1073741824 % 2 == (if config.compression_lz4 {
                1int
            } else {
                0
            })
            &&& f / 2147483648 == (if config.compression_zstd {
                1int
            } else {
                0
            })
        }),
{
    let z: int = if config.compression_zstd {
        1
    } else {
        0
    };
    let l: int = if config.compression_lz4 {
        1
    } else {
        0
    };
    let a = config.channel_count as int % 64;
    let b = config.min_chunk as int % 256;
    let c = config.max_chunk as int % 256;
    let d = config.mtu as int % 256;
    let f = config.features();
    let high = z * 128 + l * 64 + a;
    assert(f == high * 16777216 + (b * 65536 + c * 256 + d));
    assert(f / 16777216 == high);
    assert(high % 64 == a);
    assert(f / 65536 == high * 256 + b);
    assert(f / 256 == (high * 256 + b) * 256 + c);
    assert(f / 1073741824 == z * 2 + l);
    assert(f / 2147483648 == z);
}

/// Every combination of feature bits is a request, and the bits of what was read are
/// those that came.
pub proof fn lemma_request_is_read_whole(features: u32)
    ensures
        NegotiationConfig::of_features(features).features() == features,
        NegotiationConfig::of_features(features).channel_count < 64,
        NegotiationConfig::of_features(features).min_chunk < 256,
        NegotiationConfig::of_features(features).max_chunk < 256,
        NegotiationConfig::of_features(features).mtu < 256,
{
    let f = features as int;
    let top = f / 0x100_0000;
    assert(f / 0x4000_0000 == top / 0x40);
    assert(f / 0x8000_0000 == top / 0x80);
    assert(f == top * 0x100_0000 + f / 0x1_0000 % 0x100 * 0x1_0000 + f / 0x100 % 0x100 * 0x100 + f
        % 0x100);
}

/// The channels are those that got a port, each under its number, in the order of the
/// numbers.
pub proof fn lemma_opened_channels(ports: Seq<Option<u16>>)
    requires
        ports.len() <= u16::MAX,
    ensures
        ({
            let channels = negotiation::opened_channels(ports);
            &&& channels.len() <= ports.len()
            &&& forall|k: int|
                0 <= k < channels.len() ==> {
                    &&& (#[trigger] channels[k]).channel_id < ports.len()
                    &&& ports[channels[k].channel_id as int] == Some(channels[k].port)
                }
            &&& forall|j: int, k: int|
                0 <= j < k < channels.len() ==> (#[trigger] channels[j]).channel_id < (
                #[trigger] channels[k]).channel_id
            &&& forall|i: int|
                0 <= i < ports.len() && (#[trigger] ports[i]) is Some ==> exists|k: int|
                    0 <= k < channels.len() && (#[trigger] channels[k]).channel_id == i
        }),
    decreases ports.len(),
{
    if ports.len() > 0 {
        let fewer = ports.drop_last();
        let before = negotiation::opened_channels(fewer);
        let channels = negotiation::opened_channels(ports);
        lemma_opened_channels(fewer);
        assert forall|k: int| 0 <= k < channels.len() implies {
            &&& (#[trigger] channels[k]).channel_id < ports.len()
            &&& ports[channels[k].channel_id as int] == Some(channels[k].port)
        } by {
            if k < before.len() {
                assert(channels[k] == before[k]);
                assert(fewer[before[k].channel_id as int] == ports[before[k].channel_id as int]);
            }
        }
        assert forall|i: int| 0 <= i < ports.len() && (#[trigger] ports[i]) is Some implies exists|
            k: int,
        |
            0 <= k < channels.len() && (#[trigger] channels[k]).channel_id == i by {
            if i < fewer.len() {
                assert(fewer[i] == ports[i]);
                let k = choose|k: int|
                    0 <= k < before.len() && (#[trigger] before[k]).channel_id == i;
                assert(channels[k] == before[k]);
            } else {
                assert(channels[channels.len() - 1].channel_id == i);
            }
        }
    }
}

/// The receiver confirms first. Then it names each open channel in turn, or reports
/// an error where there is none.
pub proof fn lemma_answers(channels: Seq<ChannelInfo>)
    ensures
        ({
            let msgs = negotiation::answers(channels);
            &&& msgs[0] == (MessageModel::Ack { sequence_number: 0 })
            &&& channels.len() == 0 ==> msgs.len() == 2 && msgs[1] == (MessageModel::Error {
                code: 1,
                detail: 0,
            })
            &&& channels.len() > 0 ==> msgs.len() == channels.len() + 1
            &&& forall|k: int|
                0 <= k < channels.len() ==> (#[trigger] msgs[k + 1]
                    == MessageModel::ChannelOpened {
                    channel_id: channels[k].channel_id,
                    port: channels[k].port,
                })
        }),
{
}

/// What the sender makes of the answers: after a confirmation it takes the channels
/// that are named, up to as many as it asked for or to the first other message. What
/// comes after that does not matter.
pub proof fn lemma_sender_takes_what_is_named(
    requested: nat,
    sequence_number: u64,
    channels: Seq<ChannelInfo>,
    rest: Seq<MessageModel>,
)
    requires
        channels.len() <= requested,
        channels.len() == requested || (rest.len() > 0 && !(rest[0] is ChannelOpened)),
    ensures
        ({
            let ack = MessageModel::Ack { sequence_number };
            let named = Seq::new(
                channels.len(),
                |k: int|
                    MessageModel::ChannelOpened {
                        channel_id: channels[k].channel_id,
                        port: channels[k].port,
                    },
            );
            negotiation::negotiated(requested, seq![ack] + named + rest) == Some(
                if channels.len() > 0 {
                    Ok(channels)
                } else {
                    Err("no channels could be opened"@)
                },
            )
        }),
{
    let ack = MessageModel::Ack { sequence_number };
    let named = Seq::new(
        channels.len(),
        |k: int|
            MessageModel::ChannelOpened {
                channel_id: channels[k].channel_id,
                port: channels[k].port,
            },
    );
    let msgs = seq![ack] + named + rest;
    assert(msgs[0] == ack);
    assert(msgs.drop_first() =~= named + rest);
    assert((named + rest).skip(0) =~= named + rest);
    assert(channels.take(0) =~= Seq::empty());
    lemma_collects_from(requested, channels, named + rest, 0);
}

proof fn lemma_collects_from(
    requested: nat,
    channels: Seq<ChannelInfo>,
    msgs: Seq<MessageModel>,
    k: int,
)
    requires
        0 <= k <= channels.len() <= requested,
        channels.len() <= msgs.len(),
        forall|i: int|
            0 <= i < channels.len() ==> #[trigger] msgs[i] == (MessageModel::ChannelOpened {
                channel_id: channels[i].channel_id,
                port: channels[i].port,
            }),
        channels.len() == requested || (msgs.len() > channels.len()
            && !(msgs[channels.len() as int] is ChannelOpened)),
    ensures
        negotiation::collected(requested, channels.take(k), msgs.skip(k)) == Some(
            if channels.len() > 0 {
                Ok(channels)
            } else {
                Err("no channels could be opened"@)
            },
        ),
    decreases channels.len() - k,
{
    if k < channels.len() {
        assert(msgs.skip(k)[0] == msgs[k]);
        assert(msgs.skip(k).drop_first() =~= msgs.skip(k + 1));
        assert(channels.take(k).push(channels[k]) =~= channels.take(k + 1));
        lemma_collects_from(requested, channels, msgs, k + 1);
    } else {
        assert(channels.take(k) =~= channels);
        if channels.len() < requested {
            assert(msgs.skip(k)[0] == msgs[k]);
        }
    }
}

/// Where the first answer is no confirmation, the sender reports that, and an error as
/// a rejection. Without an answer it waits.
pub proof fn lemma_sender_needs_a_confirmation(requested: nat, msgs: Seq<MessageModel>)
    ensures
        negotiation::negotiated(requested, Seq::empty()) is None,
        msgs.len() > 0 && msgs[0] is Error ==> negotiation::negotiated(requested, msgs) == Some(
            Err::<Seq<ChannelInfo>, Seq<char>>("receiver rejected negotiation"@),
        ),
        msgs.len() > 0 && !(msgs[0] is Error) && !(msgs[0] is Ack) ==> negotiation::negotiated(
            requested,
            msgs,
        ) == Some(Err::<Seq<ChannelInfo>, Seq<char>>("expected Ack during negotiation"@)),
{
}

/// A frame is the number of bytes of its body, in four bytes, and the body.
pub proof fn lemma_frame_layout(body: Seq<u8>)
    requires
        body.len() <= u32::MAX,
    ensures
        client::frame(body).len() == body.len() + 4,
        wire::un32(client::frame(body), 0) == body.len(),
        client::frame(body).skip(4) == body,
{
    let f = client::frame(body);
    assert(f.subrange(0, 4) =~= wire::be32(body.len() as u32));
    wire::lemma_un32(f, 0, body.len() as u32);
    assert(f.skip(4) =~= body);
}

/// The wait after the first attempt is the one that was asked for. Each later one is
/// twice as long as the one before, up to one minute.
pub proof fn lemma_waits_double_up_to_a_minute(initial_ns: u64, k: nat)
    requires
        k >= 1,
    ensures
        server::delay_after(initial_ns, 1) == initial_ns,
        k > 1 ==> server::delay_after(initial_ns, k) == (if initial_ns * pow2((k - 1) as nat)
            <= 60_000_000_000 {
            initial_ns * pow2((k - 1) as nat)
        } else {
            60_000_000_000
        }),
    decreases k,
{
    lemma2_to64();
    if k > 1 {
        let j = (k - 1) as nat;
        lemma_waits_double_up_to_a_minute(initial_ns, j);
        lemma_pow2_unfold(j);
        lemma_pow2_pos((j - 1) as nat);
        let p = pow2((j - 1) as nat) as int;
        assert(initial_ns * (2 * p) == 2 * (initial_ns * p)) by (nonlinear_arith);
        assert(initial_ns * p >= initial_ns) by (nonlinear_arith)
            requires
                p >= 1,
                initial_ns >= 0,
        ;
    }
}

/// Once no more channels are expected, the sender goes on with those it has heard of, or
/// fails where it has heard of none.
pub proof fn lemma_conclusion(step: NegotiationStep, channels: Seq<ChannelInfo>)
    requires
        negotiation::concluded(step, channels),
    ensures
        step is Done <==> channels.len() > 0,
        step is Failed <==> channels.len() == 0,
        step matches NegotiationStep::Done(result) ==> result.channels@ == channels,
        step matches NegotiationStep::Failed(e) ==> e is Protocol && e->Protocol_0@
            == "no channels could be opened"@,
{
}

} // verus!

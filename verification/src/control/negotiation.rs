//! Agreeing on the data channels.

use crate::control::client::ControlError;
use crate::error;
use crate::protocol::control::{ControlMessage, MessageModel};
use crate::text;
use vstd::prelude::*;
use vstd::string::*;

verus! {

/// Feature bit: LZ4 compression is supported.
pub const FEATURE_COMPRESSION_LZ4: u32 = 0x4000_0000;

/// Feature bit: Zstandard compression is supported.
pub const FEATURE_COMPRESSION_ZSTD: u32 = 0x8000_0000;

/// How long each step may take, in nanoseconds.
pub const NEGOTIATION_TIMEOUT_NS: u64 = 30_000_000_000;

/// The version of the protocol.
pub const PROTOCOL_VERSION: u16 = 1;

/// Why a negotiation failed.
#[derive(Debug)]
pub enum NegotiationError {
    Control(ControlError),
    Protocol(&'static str),
    Timeout,
    Io(std::io::Error),
}

impl NegotiationError {
    /// Whether `shown` is the message for the error.
    pub open spec fn is_message(self, shown: Seq<char>) -> bool {
        match self {
            NegotiationError::Control(e) => exists|t: Seq<char>|
                #[trigger] e.is_message(t) && shown == "control error: "@ + t,
            NegotiationError::Protocol(msg) => shown == "protocol error: "@ + msg@,
            NegotiationError::Timeout => shown == "timeout"@,
            NegotiationError::Io(e) => exists|t: Seq<char>|
                #[trigger] error::io_text(e, t) && shown == "I/O error: "@ + t,
        }
    }

    /// The message for the error.
    pub fn to_string(&self) -> (r: String)
        ensures
            self.is_message(r@),
            match self {
                NegotiationError::Control(e) => exists|t: Seq<char>|
                    #[trigger] e.is_message(t) && r@ == "control error: "@ + t,
                NegotiationError::Protocol(msg) => r@ == "protocol error: "@ + msg@,
                NegotiationError::Timeout => r@ == "timeout"@,
                NegotiationError::Io(e) => exists|t: Seq<char>|
                    #[trigger] error::io_text(*e, t) && r@ == "I/O error: "@ + t,
            },
    {
        match self {
            NegotiationError::Control(e) => {
                let t = e.to_string();
                text::joined("control error: ", t.as_str())
            },
            NegotiationError::Protocol(msg) => text::joined("protocol error: ", msg),
            NegotiationError::Timeout => "timeout".to_owned(),
            NegotiationError::Io(e) => {
                let t = e.to_string();
                assert(error::io_text(*e, t@));
                text::joined("I/O error: ", t.as_str())
            },
        }
    }
}

impl From<ControlError> for NegotiationError {
    fn from(e: ControlError) -> (r: NegotiationError) {
        NegotiationError::Control(e)
    }
}

impl vstd::std_specs::convert::FromSpecImpl<ControlError> for NegotiationError {
    open spec fn obeys_from_spec() -> bool {
        true
    }

    open spec fn from_spec(e: ControlError) -> NegotiationError {
        NegotiationError::Control(e)
    }
}

impl From<std::io::Error> for NegotiationError {
    fn from(e: std::io::Error) -> (r: NegotiationError) {
        NegotiationError::Io(e)
    }
}

impl vstd::std_specs::convert::FromSpecImpl<std::io::Error> for NegotiationError {
    open spec fn obeys_from_spec() -> bool {
        true
    }

    open spec fn from_spec(e: std::io::Error) -> NegotiationError {
        NegotiationError::Io(e)
    }
}

/// What the sender asks for. Sizes are given by their logarithm to base 2.
#[derive(Debug, Clone, Copy, PartialEq, Eq, Structural)]
pub struct NegotiationConfig {
    pub channel_count: u8,
    pub min_chunk: u32,
    pub max_chunk: u32,
    pub mtu: u32,
    pub compression_lz4: bool,
    pub compression_zstd: bool,
}

impl NegotiationConfig {
    /// The feature bits: from the top, one bit each for Zstandard and LZ4, six
    /// bits for the number of channels, and eight bits each for the smallest
    /// chunk, the largest chunk and the datagram size.
    pub open spec fn features(self) -> int {
        (if self.compression_zstd {
            0x8000_0000int
        } else {
            0
        }) + (if self.compression_lz4 {
            0x4000_0000int
        } else {
            0
        }) + self.channel_count as int % 0x40 * 0x100_0000 + self.min_chunk as int % 0x100 * 0x1_0000
            + self.max_chunk as int % 0x100 * 0x100 + self.mtu as int % 0x100
    }

    /// What the feature bits say.
    pub open spec fn of_features(features: u32) -> NegotiationConfig {
        NegotiationConfig {
            channel_count: (features / 0x100_0000 % 0x40) as u8,
            min_chunk: features / 0x1_0000 % 0x100,
            max_chunk: features / 0x100 % 0x100,
            mtu: features % 0x100,
            compression_lz4: features / 0x4000_0000 % 2 == 1,
            compression_zstd: features / 0x8000_0000 == 1,
        }
    }

    /// Whether every field fits its bits.
    pub open spec fn fits(self) -> bool {
        &&& self.channel_count < 0x40
        &&& self.min_chunk < 0x100
        &&& self.max_chunk < 0x100
        &&& self.mtu < 0x100
    }

    /// Packs the request into the feature bits.
    pub fn to_features(self) -> (r: u32)
        ensures
            r == self.features(),
    {
        let mut features: u32 = 0;
        if self.compression_lz4 {
            features = features | FEATURE_COMPRESSION_LZ4;
        }
        if self.compression_zstd {
            features = features | FEATURE_COMPRESSION_ZSTD;
        }
        let cc: u32 = (self.channel_count as u32) & 0x3F;
        let min: u32 = self.min_chunk & 0xFF;
        let max: u32 = self.max_chunk & 0xFF;
        let mtu: u32 = self.mtu & 0xFF;
        proof {
            let z: u32 = if self.compression_zstd {
                0x8000_0000
            } else {
                0
            };
            let l: u32 = if self.compression_lz4 {
                0x4000_0000
            } else {
                0
            };
            let (a, b, c, d) = (
                self.channel_count as u32,
                self.min_chunk,
                self.max_chunk,
                self.mtu,
            );
            assert(0u32 | 0x4000_0000u32 == 0x4000_0000u32) by (bit_vector);
            assert(0u32 | 0x8000_0000u32 == 0x8000_0000u32) by (bit_vector);
            assert(0x4000_0000u32 | 0x8000_0000u32 == 0xC000_0000u32) by (bit_vector);
            assert(features == z + l);
            let f = features;
            assert((f == 0 || f == 0x4000_0000 || f == 0x8000_0000 || f == 0xC000_0000) ==> f | ((a
                & 0x3F) << 24) | ((b & 0xFF) << 16) | ((c & 0xFF) << 8) | (d & 0xFF) == f + (a
                % 0x40) * 0x100_0000 + (b % 0x100) * 0x1_0000 + (c % 0x100) * 0x100 + d % 0x100)
                by (bit_vector);
        }
        features | (cc << 24) | (min << 16) | (max << 8) | mtu
    }

    /// Unpacks the feature bits.
    pub fn from_features(features: u32) -> (r: NegotiationConfig)
        ensures
            r == NegotiationConfig::of_features(features),
    {
        proof {
            assert((features >> 24) & 0x3F == features / 0x100_0000 % 0x40) by (bit_vector);
            assert((features >> 16) & 0xFF == features / 0x1_0000 % 0x100) by (bit_vector);
            assert((features >> 8) & 0xFF == features / 0x100 % 0x100) by (bit_vector);
            assert(features & 0xFF == features % 0x100) by (bit_vector);
            assert((features & 0x4000_0000 != 0) == (features / 0x4000_0000 % 2 == 1))
                by (bit_vector);
            assert((features & 0x8000_0000 != 0) == (features / 0x8000_0000 == 1))
                by (bit_vector);
        }
        NegotiationConfig {
            channel_count: ((features >> 24) & 0x3F) as u8,
            min_chunk: (features >> 16) & 0xFF,
            max_chunk: (features >> 8) & 0xFF,
            mtu: features & 0xFF,
            compression_lz4: features & FEATURE_COMPRESSION_LZ4 != 0,
            compression_zstd: features & FEATURE_COMPRESSION_ZSTD != 0,
        }
    }
}

/// A request whose fields fit comes back from its feature bits.
pub proof fn lemma_features_round_trip(config: NegotiationConfig)
    requires
        config.fits(),
    ensures
        0 <= config.features() <= u32::MAX,
        NegotiationConfig::of_features(config.features() as u32) == config,
{
    let z: int = if config.compression_zstd {
        1
    } else {
        0
    };
    let l: int = if config.compression_lz4 {
        1
    } else {
        0
    };
    let (a, b, c, d) = (
        config.channel_count as int,
        config.min_chunk as int,
        config.max_chunk as int,
        config.mtu as int,
    );
    let f = config.features();
    let high = z * 0x80 + l * 0x40 + a;
    assert(f == high * 0x100_0000 + (b * 0x1_0000 + c * 0x100 + d));
    assert(f / 0x100_0000 == high);
    assert(high % 0x40 == a);
    assert(f / 0x1_0000 == high * 0x100 + b);
    assert(f / 0x100 == (high * 0x100 + b) * 0x100 + c);
    assert(f % 0x100 == d);
    assert(f / 0x4000_0000 == z * 2 + l);
    assert(f / 0x8000_0000 == z);
}

/// The compression bits and the other fields do not touch each other: the
/// lower 30 bits are the same whatever compression is supported, and the upper
/// two are the same whatever the other fields are.
pub proof fn lemma_compression_bits_do_not_interfere(
    config: NegotiationConfig,
    other: NegotiationConfig,
)
    ensures
        config.channel_count == other.channel_count && config.min_chunk == other.min_chunk
            && config.max_chunk == other.max_chunk && config.mtu == other.mtu ==> config.features()
            % 0x4000_0000 == other.features() % 0x4000_0000,
        config.compression_lz4 == other.compression_lz4 && config.compression_zstd
            == other.compression_zstd ==> config.features() / 0x4000_0000 == other.features()
            / 0x4000_0000,
{
}

/// An open channel.
#[derive(Debug, Clone, Copy, PartialEq, Eq, Structural)]
pub struct ChannelInfo {
    pub channel_id: u16,
    pub port: u16,
}

/// The channels that a negotiation opened.
#[derive(Debug, Clone)]
pub struct NegotiationResult {
    pub channels: Vec<ChannelInfo>,
}

/// Where the sender's side of a negotiation stands.
#[derive(Debug, Clone, Copy, PartialEq, Eq, Structural)]
pub enum NegotiationPhase {
    /// The receiver's answer to the request comes next.
    AwaitAck,
    /// Messages about open channels come next.
    AwaitChannels,
    /// The outcome is known.
    Finished,
}

/// What the sender does next.
#[derive(Debug)]
pub enum NegotiationStep {
    /// Receive another message.
    Receive,
    /// Go on with these channels.
    Done(NegotiationResult),
    /// Report the error.
    Failed(NegotiationError),
}

/// The sender's side of a negotiation.
pub struct SenderNegotiation {
    pub requested: usize,
    pub phase: NegotiationPhase,
    pub channels: Vec<ChannelInfo>,
}

/// What follows once no more channels are expected.
pub open spec fn concluded(step: NegotiationStep, channels: Seq<ChannelInfo>) -> bool {
    if channels.len() == 0 {
        step is Failed && step->Failed_0 is Protocol && step->Failed_0->Protocol_0@
            == "no channels could be opened"@
    } else {
        step is Done && step->Done_0.channels@ == channels
    }
}

impl SenderNegotiation {
    /// Starts a negotiation. Returned with it is the message to send first.
    pub fn start(config: NegotiationConfig) -> (r: (SenderNegotiation, ControlMessage))
        ensures
            r.0.requested == config.channel_count,
            r.0.phase == NegotiationPhase::AwaitAck,
            r.0.channels@ == Seq::<ChannelInfo>::empty(),
            r.1@ == (MessageModel::Hello {
                protocol_version: PROTOCOL_VERSION,
                features: config.features() as u32,
            }),
            r.1@->Hello_protocol_version == 1,
    {
        let hello = ControlMessage::Hello {
            protocol_version: PROTOCOL_VERSION,
            features: config.to_features(),
        };
        let n = SenderNegotiation {
            requested: config.channel_count as usize,
            phase: NegotiationPhase::AwaitAck,
            channels: Vec::new(),
        };
        (n, hello)
    }

    /// Takes in a message of the receiver: first its answer to the request,
    /// then one message for each open channel, until all that were asked for
    /// came or something else comes.
    pub fn on_message(&mut self, msg: &ControlMessage) -> (r: NegotiationStep)
        requires
            old(self).phase != NegotiationPhase::Finished,
            old(self).phase == NegotiationPhase::AwaitChannels ==> old(self).channels@.len()
                < old(self).requested,
            old(self).phase == NegotiationPhase::AwaitAck ==> old(self).channels@.len() == 0,
        ensures
            final(self).requested == old(self).requested,
            r is Receive <==> final(self).phase == NegotiationPhase::AwaitChannels,
            !(r is Receive) <==> final(self).phase == NegotiationPhase::Finished,
            r is Receive ==> final(self).channels@.len() < final(self).requested,
            match old(self).phase {
                NegotiationPhase::AwaitAck => final(self).channels@ == old(self).channels@
                    && match msg@ {
                    MessageModel::Ack { .. } => if old(self).requested == 0 {
                        concluded(r, Seq::empty())
                    } else {
                        r is Receive
                    },
                    MessageModel::Error { .. } => r is Failed && r->Failed_0 is Protocol
                        && r->Failed_0->Protocol_0@ == "receiver rejected negotiation"@,
                    _ => r is Failed && r->Failed_0 is Protocol && r->Failed_0->Protocol_0@
                        == "expected Ack during negotiation"@,
                },
                _ => match msg@ {
                    MessageModel::ChannelOpened { channel_id, port } => {
                        let channels = old(self).channels@.push(ChannelInfo { channel_id, port });
                        &&& final(self).channels@ == channels || r is Done
                        &&& if channels.len() == old(self).requested {
                            concluded(r, channels)
                        } else {
                            r is Receive
                        }
                    },
                    _ => concluded(r, old(self).channels@),
                },
            },
    {
        match self.phase {
            NegotiationPhase::AwaitAck => match msg {
                ControlMessage::Ack { .. } => {
                    if self.requested == 0 {
                        return self.conclude();
                    }
                    self.phase = NegotiationPhase::AwaitChannels;
                    NegotiationStep::Receive
                },
                ControlMessage::Error { .. } => {
                    self.phase = NegotiationPhase::Finished;
                    NegotiationStep::Failed(
                        NegotiationError::Protocol("receiver rejected negotiation"),
                    )
                },
                _ => {
                    self.phase = NegotiationPhase::Finished;
                    NegotiationStep::Failed(
                        NegotiationError::Protocol("expected Ack during negotiation"),
                    )
                },
            },
            _ => match msg {
                ControlMessage::ChannelOpened { channel_id, port } => {
                    self.channels.push(ChannelInfo { channel_id: *channel_id, port: *port });
                    if self.channels.len() == self.requested {
                        self.conclude()
                    } else {
                        NegotiationStep::Receive
                    }
                },
                _ => self.conclude(),
            },
        }
    }

    /// No more channels are expected.
    fn conclude(&mut self) -> (r: NegotiationStep)
        ensures
            concluded(r, old(self).channels@),
            final(self).phase == NegotiationPhase::Finished,
            final(self).requested == old(self).requested,
            old(self).channels@.len() == 0 ==> final(self).channels@ == old(self).channels@,
    {
        self.phase = NegotiationPhase::Finished;
        if self.channels.len() == 0 {
            return NegotiationStep::Failed(
                NegotiationError::Protocol("no channels could be opened"),
            );
        }
        let mut channels: Vec<ChannelInfo> = Vec::new();
        channels.append(&mut self.channels);
        NegotiationStep::Done(NegotiationResult { channels })
    }
}

/// The channels for the ports that could be opened; `ports[i]` is the port for
/// the channel `i`, or nothing where it could not be opened.
pub open spec fn opened_channels(ports: Seq<Option<u16>>) -> Seq<ChannelInfo>
    decreases ports.len(),
{
    if ports.len() == 0 {
        Seq::empty()
    } else {
        let before = opened_channels(ports.drop_last());
        match ports.last() {
            Some(port) => before.push(ChannelInfo { channel_id: (ports.len() - 1) as u16, port }),
            None => before,
        }
    }
}

/// What the receiver answers: the acknowledgement, then either a message for
/// each open channel or an error.
pub open spec fn answers(channels: Seq<ChannelInfo>) -> Seq<MessageModel> {
    let ack = MessageModel::Ack { sequence_number: 0 };
    if channels.len() == 0 {
        seq![ack, MessageModel::Error { code: 1, detail: 0 }]
    } else {
        seq![ack] + announcements(channels)
    }
}

/// What the messages say.
pub open spec fn message_models(msgs: Seq<ControlMessage>) -> Seq<MessageModel> {
    Seq::new(msgs.len(), |i: int| msgs[i]@)
}

/// The receiver's side: takes in the sender's first message. What it asks for
/// tells how many channels to open.
pub fn accept_hello(msg: &ControlMessage) -> (r: Result<NegotiationConfig, NegotiationError>)
    ensures
        match msg@ {
            MessageModel::Hello { features, .. } => r is Ok && r->Ok_0
                == NegotiationConfig::of_features(features),
            MessageModel::Error { .. } => r is Err && r->Err_0 is Protocol
                && r->Err_0->Protocol_0@ == "sender sent error instead of Hello"@,
            _ => r is Err && r->Err_0 is Protocol && r->Err_0->Protocol_0@
                == "expected Hello during negotiation"@,
        },
{
    match msg {
        ControlMessage::Hello { features, .. } => Ok(NegotiationConfig::from_features(*features)),
        ControlMessage::Error { .. } => Err(
            NegotiationError::Protocol("sender sent error instead of Hello"),
        ),
        _ => Err(NegotiationError::Protocol("expected Hello during negotiation")),
    }
}

/// Lists the channels for the ports that could be opened.
pub fn list_channels(ports: &Vec<Option<u16>>) -> (r: Vec<ChannelInfo>)
    requires
        ports@.len() <= u16::MAX,
    ensures
        r@ == opened_channels(ports@),
{
    let mut channels: Vec<ChannelInfo> = Vec::new();
    let mut i: usize = 0;
    assert(ports@.take(0) =~= Seq::empty());
    while i < ports.len()
        invariant
            i <= ports@.len(),
            ports@.len() <= u16::MAX,
            channels@ == opened_channels(ports@.take(i as int)),
        decreases ports@.len() - i,
    {
        assert(ports@.take(i + 1).drop_last() =~= ports@.take(i as int));
        match ports[i] {
            Some(port) => {
                channels.push(ChannelInfo { channel_id: i as u16, port });
            },
            None => {},
        }
        i = i + 1;
    }
    assert(ports@.take(i as int) =~= ports@);
    channels
}

/// The messages about the open channels.
pub open spec fn announcements(channels: Seq<ChannelInfo>) -> Seq<MessageModel> {
    Seq::new(
        channels.len(),
        |i: int|
            MessageModel::ChannelOpened {
                channel_id: channels[i].channel_id,
                port: channels[i].port,
            },
    )
}

/// Adds a message for each open channel.
pub fn announce_channels(channels: &Vec<ChannelInfo>, msgs: &mut Vec<ControlMessage>)
    ensures
        message_models(final(msgs)@) == message_models(old(msgs)@) + announcements(channels@),
{
    let ghost before = message_models(msgs@);
    let mut k: usize = 0;
    assert(message_models(msgs@) =~= before + announcements(channels@).take(0));
    while k < channels.len()
        invariant
            k <= channels@.len(),
            message_models(msgs@) == before + announcements(channels@).take(k as int),
        decreases channels@.len() - k,
    {
        let msg = ControlMessage::ChannelOpened {
            channel_id: channels[k].channel_id,
            port: channels[k].port,
        };
        proof {
            let all = announcements(channels@);
            assert(message_models(msgs@.push(msg)) =~= message_models(msgs@).push(msg@));
            assert(all[k as int] == msg@);
            assert(before + all.take(k + 1) =~= (before + all.take(k as int)).push(all[k as int]));
        }
        msgs.push(msg);
        k = k + 1;
    }
    assert(announcements(channels@).take(k as int) =~= announcements(channels@));
}

/// The receiver's side: `ports` tells for each channel asked for the port it
/// got, or that it could not be opened. Returns the messages to send, and the
/// outcome once they are sent.
pub fn accept_channels(ports: &Vec<Option<u16>>) -> (r: (
    Vec<ControlMessage>,
    Result<NegotiationResult, NegotiationError>,
))
    requires
        ports@.len() <= u16::MAX,
    ensures
        message_models(r.0@) == answers(opened_channels(ports@)),
        match r.1 {
            Ok(result) => opened_channels(ports@).len() > 0 && result.channels@ == opened_channels(
                ports@,
            ),
            Err(e) => opened_channels(ports@).len() == 0 && e is Protocol && e->Protocol_0@
                == "no channels could be opened"@,
        },
{
    let channels = list_channels(ports);
    let mut msgs: Vec<ControlMessage> = Vec::new();
    msgs.push(ControlMessage::Ack { sequence_number: 0 });
    if channels.len() == 0 {
        msgs.push(ControlMessage::Error { code: 1, detail: 0 });
        assert(message_models(msgs@) =~= answers(channels@));
        return (msgs, Err(NegotiationError::Protocol("no channels could be opened")));
    }
    assert(message_models(msgs@) =~= seq![MessageModel::Ack { sequence_number: 0 }]);
    announce_channels(&channels, &mut msgs);
    (msgs, Ok(NegotiationResult { channels }))
}

/// The receiver's side as a whole: its answer to the sender's first message,
/// given the ports that could be opened for the channels asked for.
pub fn accept_negotiation(hello: &ControlMessage, ports: &Vec<Option<u16>>) -> (r: (
    Vec<ControlMessage>,
    Result<(NegotiationConfig, NegotiationResult), NegotiationError>,
))
    requires
        hello@ matches MessageModel::Hello { features, .. } ==> ports@.len()
            == NegotiationConfig::of_features(features).channel_count,
    ensures
        match hello@ {
            MessageModel::Hello { features, .. } => {
                let channels = opened_channels(ports@);
                &&& message_models(r.0@) == answers(channels)
                &&& match r.1 {
                    Ok((config, result)) => channels.len() > 0 && config
                        == NegotiationConfig::of_features(features) && result.channels@ == channels,
                    Err(e) => channels.len() == 0 && e is Protocol && e->Protocol_0@
                        == "no channels could be opened"@,
                }
            },
            MessageModel::Error { .. } => r.0@.len() == 0 && r.1 is Err && r.1->Err_0 is Protocol
                && r.1->Err_0->Protocol_0@ == "sender sent error instead of Hello"@,
            _ => r.0@.len() == 0 && r.1 is Err && r.1->Err_0 is Protocol && r.1->Err_0->Protocol_0@
                == "expected Hello during negotiation"@,
        },
{
    let config = match accept_hello(hello) {
        Ok(config) => config,
        Err(e) => {
            return (Vec::new(), Err(e));
        },
    };
    let (msgs, outcome) = accept_channels(ports);
    match outcome {
        Ok(result) => (msgs, Ok((config, result))),
        Err(e) => (msgs, Err(e)),
    }
}

/// What the sender concludes once no more channels are expected.
pub open spec fn conclusion(channels: Seq<ChannelInfo>) -> Result<Seq<ChannelInfo>, Seq<char>> {
    if channels.len() == 0 {
        Err("no channels could be opened"@)
    } else {
        Ok(channels)
    }
}

/// The outcome for the sender that has heard of `channels` and then gets
/// `msgs`; nothing where it waits for more.
pub open spec fn collected(
    requested: nat,
    channels: Seq<ChannelInfo>,
    msgs: Seq<MessageModel>,
) -> Option<Result<Seq<ChannelInfo>, Seq<char>>>
    decreases msgs.len(),
{
    if channels.len() >= requested {
        Some(conclusion(channels))
    } else if msgs.len() == 0 {
        None
    } else {
        match msgs[0] {
            MessageModel::ChannelOpened { channel_id, port } => collected(
                requested,
                channels.push(ChannelInfo { channel_id, port }),
                msgs.drop_first(),
            ),
            _ => Some(conclusion(channels)),
        }
    }
}

/// The outcome for the sender that asked for `requested` channels and gets
/// `msgs`; nothing where it waits for more.
pub open spec fn negotiated(requested: nat, msgs: Seq<MessageModel>) -> Option<
    Result<Seq<ChannelInfo>, Seq<char>>,
> {
    if msgs.len() == 0 {
        None
    } else {
        match msgs[0] {
            MessageModel::Ack { .. } => collected(requested, Seq::empty(), msgs.drop_first()),
            MessageModel::Error { .. } => Some(Err("receiver rejected negotiation"@)),
            _ => Some(Err("expected Ack during negotiation"@)),
        }
    }
}

/// Whether `r` is the outcome `m`.
pub open spec fn same_outcome(
    r: Option<Result<NegotiationResult, NegotiationError>>,
    m: Option<Result<Seq<ChannelInfo>, Seq<char>>>,
) -> bool {
    match r {
        None => m is None,
        Some(Ok(result)) => m is Some && m->Some_0 is Ok && m->Some_0->Ok_0 == result.channels@,
        Some(Err(e)) => m is Some && m->Some_0 is Err && e is Protocol && m->Some_0->Err_0
            == e->Protocol_0@,
    }
}

/// The sender's side as a whole: the outcome of asking for channels, given the
/// messages that came back; nothing where it has to wait for more.
pub fn negotiate(config: NegotiationConfig, msgs: &Vec<ControlMessage>) -> (r: Option<
    Result<NegotiationResult, NegotiationError>,
>)
    ensures
        same_outcome(r, negotiated(config.channel_count as nat, message_models(msgs@))),
        ({
            let m = negotiated(config.channel_count as nat, message_models(msgs@));
            &&& r is None <==> m is None
            &&& r matches Some(Ok(result)) ==> m == Some(
                Ok::<Seq<ChannelInfo>, Seq<char>>(result.channels@),
            )
            &&& r matches Some(Err(e)) ==> e is Protocol && m == Some(
                Err::<Seq<ChannelInfo>, Seq<char>>(e->Protocol_0@),
            )
        }),
{
    let ghost all = message_models(msgs@);
    let (mut n, _) = SenderNegotiation::start(config);
    let mut i: usize = 0;
    assert(all.skip(0) =~= all);
    while i < msgs.len()
        invariant
            0 <= i <= msgs@.len(),
            all == message_models(msgs@),
            n.requested == config.channel_count,
            n.phase == NegotiationPhase::AwaitAck ==> i == 0 && n.channels@.len() == 0,
            n.phase == NegotiationPhase::AwaitChannels ==> n.channels@.len() < n.requested
                && negotiated(config.channel_count as nat, all) == collected(
                config.channel_count as nat,
                n.channels@,
                all.skip(i as int),
            ),
            n.phase != NegotiationPhase::Finished,
        decreases msgs@.len() - i,
    {
        let ghost before = n;
        proof {
            reveal_with_fuel(collected, 2);
        }
        assert(all.skip(i as int)[0] == msgs@[i as int]@);
        assert(all.skip(i as int).drop_first() =~= all.skip(i + 1));
        assert(i == 0 ==> all.skip(i as int) =~= all);
        match n.on_message(&msgs[i]) {
            NegotiationStep::Receive => {},
            NegotiationStep::Done(result) => {
                return Some(Ok(result));
            },
            NegotiationStep::Failed(e) => {
                return Some(Err(e));
            },
        }
        i = i + 1;
        assert(before.phase == NegotiationPhase::AwaitAck ==> n.channels@ =~= Seq::empty());
    }
    assert(all.skip(i as int) =~= Seq::empty());
    None
}

/// Both sides agree. Where the receiver opened every channel asked for, the
/// sender ends up with exactly those channels; where it opened none, both
/// report that no channel could be opened. Where it opened some of them only, the
/// sender waits for more after the last answer, and comes to no end of its own.
pub proof fn lemma_both_sides_agree(ports: Seq<Option<u16>>)
    ensures
        ({
            let channels = opened_channels(ports);
            let outcome = negotiated(ports.len(), answers(channels));
            &&& channels.len() == ports.len() && ports.len() > 0 ==> outcome is Some
                && outcome->Some_0 is Ok && outcome->Some_0->Ok_0 == channels
            &&& channels.len() == 0 ==> outcome is Some && outcome->Some_0 is Err
                && outcome->Some_0->Err_0 == "no channels could be opened"@
            &&& 0 < channels.len() < ports.len() ==> outcome is None
        }),
{
    let channels = opened_channels(ports);
    let msgs = answers(channels).drop_first();
    if channels.len() > 0 {
        assert(channels.take(0) =~= Seq::empty());
        assert(msgs.skip(0) =~= msgs);
        lemma_collects_all(channels, 0);
        if channels.len() < ports.len() {
            lemma_waits_for_more(ports.len(), channels, 0);
        }
    } else {
        assert(msgs.len() == 1);
        assert(msgs[0] == (MessageModel::Error { code: 1, detail: 0 }));
    }
}

/// From the messages about open channels the sender collects the channels.
proof fn lemma_collects_all(channels: Seq<ChannelInfo>, k: int)
    requires
        0 <= k <= channels.len(),
        channels.len() > 0,
    ensures
        ({
            let outcome = collected(
                channels.len(),
                channels.take(k),
                answers(channels).drop_first().skip(k),
            );
            outcome is Some && outcome->Some_0 is Ok && outcome->Some_0->Ok_0 == channels
        }),
    decreases channels.len() - k,
{
    let msgs = answers(channels).drop_first();
    if k < channels.len() {
        assert(msgs.skip(k)[0] == msgs[k]);
        assert(msgs[k] == (MessageModel::ChannelOpened {
            channel_id: channels[k].channel_id,
            port: channels[k].port,
        }));
        assert(msgs.skip(k).drop_first() =~= msgs.skip(k + 1));
        assert(channels.take(k).push(channels[k]) =~= channels.take(k + 1));
        lemma_collects_all(channels, k + 1);
    } else {
        assert(channels.take(k) =~= channels);
    }
}

/// After the messages about fewer channels than asked for, the sender waits.
proof fn lemma_waits_for_more(requested: nat, channels: Seq<ChannelInfo>, k: int)
    requires
        0 <= k <= channels.len(),
        0 < channels.len() < requested,
    ensures
        collected(requested, channels.take(k), answers(channels).drop_first().skip(k)) is None,
    decreases channels.len() - k,
{
    let msgs = answers(channels).drop_first();
    if k < channels.len() {
        assert(msgs.skip(k)[0] == msgs[k]);
        assert(msgs[k] == (MessageModel::ChannelOpened {
            channel_id: channels[k].channel_id,
            port: channels[k].port,
        }));
        assert(msgs.skip(k).drop_first() =~= msgs.skip(k + 1));
        assert(channels.take(k).push(channels[k]) =~= channels.take(k + 1));
        lemma_waits_for_more(requested, channels, k + 1);
    } else {
        assert(msgs.skip(k) =~= Seq::empty());
    }
}

} // verus!

# braid

Bulk transfer of files and streams over UDP. A sender cuts its input into
chunks, compresses them, cuts each chunk into fragments and spreads the
fragments over several UDP channels. A receiver puts the chunks together again,
orders them and writes them out. A TCP connection beside the data carries the
negotiation, flow control, acknowledgements and, for files, the checksum of the
whole.

The library under `src/` holds all that is decided and computed, with contracts
that Verus proves. `app/` is the program around it: arguments, sockets, files,
timers and signals.

## Layout of the library

| module | what it holds |
|---|---|
| `protocol` | headers of fragments and chunks, control messages, checksums |
| `compress` | LZ4 compression of chunk payloads |
| `sender` | framing, splitting, queues, pacing, fairness and health of channels, send workers |
| `receiver` | reassembly of chunks, their order, the commit gate |
| `flow` | levels of the receive buffer and how the sender reacts to them |
| `adaptive` | sizes of chunks and windows, number of channels |
| `control` | framing, negotiation and the two ends of the control connection |
| `file_mode` | names, checksums and the state of a file transfer |
| `session` | the two sides of a transfer as a whole |
| `buffer`, `channel` | pool and ring of buffers, bounded queues |
| `progress`, `shutdown`, `cli`, `text`, `time`, `wire`, `error` | what the rest stands on |

Time is passed in as nanoseconds and queues are values of the library, so every
step is a function of its arguments.

## What is proved

Each public function states its result exactly, mostly as a step of a model:
`reassembler.model()` after a fragment is the model before it, stepped by the
fragment's bytes. On these models stand the laws, public proof functions whose
names start with `lemma_`. The one that the rest leads to is
`session::transfer::lemma_stream_arrives`: if every fragment comes, in any
order, the bytes written are the bytes read. Beside it stand
`lemma_stream_arrives_despite_repeats`, for fragments that come more than once,
and `session::sharding::lemma_sharded_stream_arrives`, for several reassemblers.
Where gaps are given up on the way, `receiver::late::lemma_nothing_is_lost` says
that whatever comes is still handed on, once.

What is believed and not proved is marked `external_body` or
`assume_specification`, each with a comment that says what is claimed: the
CRC-32 and LZ4 crates, a few functions of the standard library's strings and
clocks.

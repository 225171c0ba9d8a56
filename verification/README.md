# AudioRelayPlus

Carries the microphone of a phone to a PC without interruptions. The phone sends small packets
over UDP (Wi-Fi) or TCP (USB); the receiver smooths out loss, reordering and clock drift and plays
the result, or offers it as a virtual microphone.

The library in `src/` holds what is decided and what is computed on whole numbers, bytes and text,
written in Verus with its contracts proved:

| module | what it holds |
|---|---|
| `protocol`, `bytes`, `text` | the packets: parsing, building, framing over TCP |
| `jitter`, `packets` | the adaptive jitter buffer |
| `decoder` | PCM16, and the fallbacks around an Opus decoder |
| `engine`, `event_log` | the session of a client, what each packet does to it, the event log |
| `resampler`, `playout` | the window of a resampler, handing samples to a device |
| `soundpad` | sounds that are mixed into the stream |
| `aec` | the framing around an echo canceller |
| `sender`, `rng`, `analyze` | the test tools: a sender over a bad network, the search for interruptions |
| `host` | names and devices of the host |

The modules `jitter_laws`, `playback_laws`, `pull_laws`, `protocol_laws`, `engine_laws` and
`aec_laws` state what holds over several operations: that what is sent is heard, that it does not
matter how pulls are cut, that packets survive being written and read, that a session is opened,
kept and closed as the protocol says, that the echo framer loses and repeats nothing.

Samples are of any type to the library. The program in `app/` plays floating-point samples. What is
computed on them stands there: the linear resampling, the gain and the soft limit, the smoothing of
the servo, the level of a recording. It also holds the sockets, files, threads, audio devices and
the window.

`tests/` runs the library on concrete values, among them a simulated bad network.

# RustCast

Stream audio from sources (FIFOs, Spotify Connect, the system's own audio) over
multicast UDP to any number of synchronized clients, with zero or more servers.
Every client renders the same sample at the same instant: packets carry the
wall-clock time at which they play, and clients hold an estimate of the server's
clock.

`src/` is the library: what is decided, as functions with contracts that Verus
proves. `app/` is the programs around it: sockets, threads, files, HTTP and the
sound card. `tests/` runs the library on concrete values.

| module | what it decides |
| --- | --- |
| `wire` | the messages, addresses and sample formats |
| `pcm` | what a sample becomes in a wire format, and how close it stays |
| `sync` | the estimate of a server's clock; a client's settings; who listens |
| `stream` | how a source is cut into packets, stamped, repeated and addressed |
| `source::network` | the jitter buffer; switching between sources |
| `source::pipe`, `source::pulse`, `source::librespot` | capturing audio |
| `client`, `player` | where a chunk goes in the output queue; channel routing; identity |
| `catalog` | which sources exist, and on which server |
| `supervisor` | the sources that a server runs |
| `metrics`, `events` | telemetry, its history, and what a viewer is sent |
| `clients`, `groups`, `config` | what is remembered |
| `api`, `reconcile` | what an edit changes, and what is pushed to clients |
| `delaytest` | when each speaker was heard in a recording |
| `units`, `text`, `lists`, `assoc`, `order` | times and volumes, text, lists, keyed stores, ordering |

Times are integers: flicks (1/705,600,000 s) where fractions of a millisecond
matter, milliseconds since the epoch, or nanoseconds of a monotonic clock. The
library reads no clock but through `wire::now_epoch_ms`.

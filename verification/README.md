# relaybay

A media relay: one process that accepts a live stream over one protocol and
serves it over another.

```
encoder ──RTMP──▶ relaybay ──RTSP──▶ player
```

Every protocol here carries the same coded pictures and sound and differs only
in the wrapper. A picture that arrives over RTMP leaves over RTSP as the same
bytes, so relaying is repackaging and never decoding. That is the central thing
this crate proves: see `src/relay.rs`.

## Layout

- `src/` is the library. Every function in it is verified by Verus against a
  contract that says exactly what it returns, over sequences of bytes and
  characters. It does no I/O.
  - `codec`, `track`, `unit`, `time`: what a stream is
  - `rtmp`: handshake, chunk stream, AMF0, FLV tags, the publishing session,
    and the connection they make up
  - `path`: who publishes to what, what a reader that joins is given, and what
    one that fell behind skips
  - `rtp`: access units cut into packets
  - `rtsp`: messages, SDP, the playing session, and its connection
  - `relay`: the two ends put together
  - `buffer`, `text`: bytes and characters, and the contracts of the outside
    functions the proofs rest on
- `app/` is the program around it: sockets, locks, queues and the runtime.
- `tests/` drives the library with no runtime at all.

## Laws

What holds of several functions at once is stated as a proof function whose name
begins with `law_`: that what was written reads back, that pieces of a
connection read as the whole does, that a reader starts and resumes at a
keyframe, that a displaced publisher changes nothing, that every request is
answered first.

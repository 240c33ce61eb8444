//! RTMP: the protocol an encoder publishes with.
//!
//! One TCP connection carries audio, video and the commands that set a
//! session up, all interleaved. Reading it is a few layers, and this module
//! is one submodule per layer:
//!
//! - [`handshake`] opens the connection, and says where the rest begins.
//! - [`chunk`] cuts messages into pieces small enough to interleave, and
//!   puts them back together; [`chunk_laws`] says that the two fit.
//! - [`amf0`] reads and writes the values a command message is made of.
//! - [`flv`] reads and writes what sits in front of the coded bytes in an
//!   audio or video message.
//! - [`session`] decides what all of that means: what to answer, what a
//!   publisher has said it is sending, and which units come out.
//! - [`server`] puts them together into a connection.
//!
//! None of those does any I/O. Each is fed what has arrived and asked what
//! it makes of it, so a whole publish can be driven in a test with no
//! runtime, and so the driver above can be replaced without any of them
//! changing. That boundary is the point: everything under it is protocol.
//!
//! # What each message turns into
//!
//! | Message | Comes back as |
//! | ------- | ------------- |
//! | `connect` | window size, peer bandwidth, chunk size, `_result` |
//! | `createStream` | `_result(1)` |
//! | `publish` | Stream Begin, `onStatus` |
//! | a sequence header | nothing: it is kept |
//! | a frame | [`session::Action::Publish`] the first time, then [`session::Action::Unit`] |
//!
//! The order inside one answer matters. [`session::Action::SetChunkSize`]
//! follows the message that announces it, because the peer goes on reading
//! at the old size until that message reaches it, and the announcement
//! itself would be the first thing chunked wrongly.
//!
//! # Where a path comes from
//!
//! A sequence header is kept and answered with nothing. The description is
//! settled at the first frame instead, and only then does the path appear.
//! Until that moment a publisher has connected, been accepted, and produced
//! nothing any reader could be given.
//!
//! ```text
//! flv::read_video → SequenceHeader → h264::AvcConfig::parse
//!                                      ├─ parameters      → the description
//!                                      └─ nal_length_size → kept on the connection
//!
//!                 → Picture         → h264::split_length_prefixed
//!                                      └─ Vec<Nal>        → VideoUnit
//! ```
//!
//! The prefix width never reaches a track: it says how RTMP framed this
//! payload, not what the stream is.

pub mod amf0;
pub mod amf0_laws;
pub mod chunk;
pub mod chunk_laws;
pub mod chunk_layout;
pub mod flv;
pub mod handshake;
pub mod server;
pub mod session;
pub mod session_laws;

//! What goes back and forth on an RTSP connection.
//!
//! Two things share the socket, and telling them apart is the first thing
//! this does:
//!
//! ```text
//! DESCRIBE rtsp://host/live/cam1 RTSP/1.0\r\n   a request, in text
//! CSeq: 2\r\n
//! \r\n
//!
//! $ 00 05 dc  … 1500 bytes …                    media, in binary
//! ```
//!
//! The second form is how RTP travels when a client asked for it over the
//! same connection rather than over UDP. It begins with a dollar sign, which
//! no request line can, and says its own length, so a reader that finds one
//! skips exactly that far and keeps going.
//!
//! # Why this looks like HTTP and is not
//!
//! The syntax is HTTP's: a method, a URI, a version, then headers, then an
//! optional body counted by `Content-Length`. The differences are what stop
//! an HTTP server from being one of these. Requests go both ways, a session
//! spans many of them and is named in a header rather than a cookie, and the
//! binary frames above arrive between them on a connection an HTTP parser
//! would give up on.

use crate::buffer::{
    advance, be16, get_u16, lemma_num16_amid, lemma_widths, num16, octets, pending, put_slice,
    put_u16, put_u8, Contents,
};
use crate::text::{
    before, characters, decimal, ends_with, has_end, has_start, lacks, lemma_decimal_reads,
    lemma_split_joined, lemma_unsplit, lines, number_of, parts_between, position, push_decimal,
    push_text, read_number, same_but_case, same_chars, same_ignoring_case, same_text,
    split_at_each, split_at_first, split_lines, split_once, split_words, starts_with, text_of,
    texts, trim, trim_chars, utf8, words, Edge,
};
use bytes::{Bytes, BytesMut};
use vstd::prelude::*;
use vstd::slice::slice_subrange;
use vstd::utf8::{decode_utf8, encode_utf8, valid_utf8};

verus! {

broadcast use lemma_widths;

/// How large the head of a request may be. Anything RTSP sends is a few
/// hundred bytes; the cap is so that a peer sending header bytes forever
/// does not make a server hold them.
pub const MAX_HEAD: usize = 8 * 1024;

/// How large a request body may be. Only `ANNOUNCE` and `SET_PARAMETER`
/// carry one, and an SDP is small.
pub const MAX_BODY: usize = 64 * 1024;

/// What a request asks for.
#[derive(Clone, Debug, PartialEq, Eq)]
pub enum Method {
    /// What this server can do.
    Options,
    /// What the stream is, answered with SDP.
    Describe,
    /// Where to send one track, and how.
    Setup,
    /// Start sending.
    Play,
    /// Stop sending, without giving up the session.
    Pause,
    /// Give up the session.
    Teardown,
    /// A question about the session, and in practice a way of saying the
    /// client is still there.
    GetParameter,
    /// An answer to one, which nothing here has.
    SetParameter,
    /// A client describing a stream it is about to send.
    Announce,
    /// A client asking to send one.
    Record,
    /// Anything else, kept so that a reply can say what was refused.
    Other(String),
}

/// What a [`Method`] is.
pub enum MethodView {
    Options,
    Describe,
    Setup,
    Play,
    Pause,
    Teardown,
    GetParameter,
    SetParameter,
    Announce,
    Record,
    Other(Seq<char>),
}

impl View for Method {
    type V = MethodView;

    open spec fn view(&self) -> MethodView {
        match *self {
            Method::Options => MethodView::Options,
            Method::Describe => MethodView::Describe,
            Method::Setup => MethodView::Setup,
            Method::Play => MethodView::Play,
            Method::Pause => MethodView::Pause,
            Method::Teardown => MethodView::Teardown,
            Method::GetParameter => MethodView::GetParameter,
            Method::SetParameter => MethodView::SetParameter,
            Method::Announce => MethodView::Announce,
            Method::Record => MethodView::Record,
            Method::Other(name) => MethodView::Other(name@),
        }
    }
}

/// The method a word stands for.
pub open spec fn method_of(word: Seq<char>) -> MethodView {
    if word == "OPTIONS"@ {
        MethodView::Options
    } else if word == "DESCRIBE"@ {
        MethodView::Describe
    } else if word == "SETUP"@ {
        MethodView::Setup
    } else if word == "PLAY"@ {
        MethodView::Play
    } else if word == "PAUSE"@ {
        MethodView::Pause
    } else if word == "TEARDOWN"@ {
        MethodView::Teardown
    } else if word == "GET_PARAMETER"@ {
        MethodView::GetParameter
    } else if word == "SET_PARAMETER"@ {
        MethodView::SetParameter
    } else if word == "ANNOUNCE"@ {
        MethodView::Announce
    } else if word == "RECORD"@ {
        MethodView::Record
    } else {
        MethodView::Other(word)
    }
}

impl MethodView {
    /// The word this is written as.
    pub open spec fn word(self) -> Seq<char> {
        match self {
            MethodView::Options => "OPTIONS"@,
            MethodView::Describe => "DESCRIBE"@,
            MethodView::Setup => "SETUP"@,
            MethodView::Play => "PLAY"@,
            MethodView::Pause => "PAUSE"@,
            MethodView::Teardown => "TEARDOWN"@,
            MethodView::GetParameter => "GET_PARAMETER"@,
            MethodView::SetParameter => "SET_PARAMETER"@,
            MethodView::Announce => "ANNOUNCE"@,
            MethodView::Record => "RECORD"@,
            MethodView::Other(word) => word,
        }
    }
}

impl Method {
    /// The method a word stands for.
    pub fn parse(text: &str) -> (method: Self)
        ensures
            method@ == method_of(text@),
            method@.word() == text@,
    {
        if same_text(text, "OPTIONS") {
            Self::Options
        } else if same_text(text, "DESCRIBE") {
            Self::Describe
        } else if same_text(text, "SETUP") {
            Self::Setup
        } else if same_text(text, "PLAY") {
            Self::Play
        } else if same_text(text, "PAUSE") {
            Self::Pause
        } else if same_text(text, "TEARDOWN") {
            Self::Teardown
        } else if same_text(text, "GET_PARAMETER") {
            Self::GetParameter
        } else if same_text(text, "SET_PARAMETER") {
            Self::SetParameter
        } else if same_text(text, "ANNOUNCE") {
            Self::Announce
        } else if same_text(text, "RECORD") {
            Self::Record
        } else {
            Self::Other(text.to_owned())
        }
    }

    /// The word this is written as.
    pub fn name(&self) -> (name: &str)
        ensures
            name@ == self@.word(),
    {
        match self {
            Self::Options => "OPTIONS",
            Self::Describe => "DESCRIBE",
            Self::Setup => "SETUP",
            Self::Play => "PLAY",
            Self::Pause => "PAUSE",
            Self::Teardown => "TEARDOWN",
            Self::GetParameter => "GET_PARAMETER",
            Self::SetParameter => "SET_PARAMETER",
            Self::Announce => "ANNOUNCE",
            Self::Record => "RECORD",
            Self::Other(name) => name.as_str(),
        }
    }
}

/// A response's code and the words that go beside it.
///
/// The words are for a person reading a packet capture; no client reads
/// them, and every client reads the number.
#[derive(Clone, Copy, Debug, PartialEq, Eq)]
pub struct Status(pub u16, pub &'static str);

impl Status {
    pub fn ok() -> (status: Self)
        ensures
            status == Status(200, "OK"),
    {
        Self(200, "OK")
    }

    pub fn bad_request() -> (status: Self)
        ensures
            status == Status(400, "Bad Request"),
    {
        Self(400, "Bad Request")
    }

    pub fn not_found() -> (status: Self)
        ensures
            status == Status(404, "Not Found"),
    {
        Self(404, "Not Found")
    }

    pub fn method_not_allowed() -> (status: Self)
        ensures
            status == Status(405, "Method Not Allowed"),
    {
        Self(405, "Method Not Allowed")
    }

    pub fn session_not_found() -> (status: Self)
        ensures
            status == Status(454, "Session Not Found"),
    {
        Self(454, "Session Not Found")
    }

    pub fn method_not_valid() -> (status: Self)
        ensures
            status == Status(455, "Method Not Valid In This State"),
    {
        Self(455, "Method Not Valid In This State")
    }

    pub fn unsupported_transport() -> (status: Self)
        ensures
            status == Status(461, "Unsupported Transport"),
    {
        Self(461, "Unsupported Transport")
    }

    pub fn internal_error() -> (status: Self)
        ensures
            status == Status(500, "Internal Server Error"),
    {
        Self(500, "Internal Server Error")
    }

    pub fn not_implemented() -> (status: Self)
        ensures
            status == Status(501, "Not Implemented"),
    {
        Self(501, "Not Implemented")
    }
}

/// A request's or a response's headers, in the order they were written.
///
/// Order is kept because a capture read by a person is easier to follow when
/// the answer's headers sit where the question's did. Lookup ignores case,
/// which clients rely on.
#[derive(Clone, Debug, PartialEq, Eq)]
pub struct Headers(Vec<(String, String)>);

/// What a [`Headers`] holds: names and values, in order.
impl View for Headers {
    type V = Seq<(Seq<char>, Seq<char>)>;

    closed spec fn view(&self) -> Seq<(Seq<char>, Seq<char>)> {
        self.0@.map_values(|header: (String, String)| (header.0@, header.1@))
    }
}

/// The first value under a name, whatever case it was written in.
pub open spec fn header(headers: Seq<(Seq<char>, Seq<char>)>, name: Seq<char>) -> Option<Seq<char>>
    decreases headers.len(),
{
    if headers.len() == 0 {
        None
    } else if same_but_case(headers.first().0, name) {
        Some(headers.first().1)
    } else {
        header(headers.drop_first(), name)
    }
}

impl Headers {
    /// No headers.
    pub fn new() -> (headers: Self)
        ensures
            headers@ == Seq::<(Seq<char>, Seq<char>)>::empty(),
    {
        let headers = Self(Vec::new());
        assert(headers@ =~= Seq::empty());
        headers
    }

    /// The first value under `name`, whatever case it was written in.
    pub fn get(&self, name: &str) -> (value: Option<&str>)
        ensures
            match value {
                Some(value) => header(self@, name@) == Some(value@),
                None => header(self@, name@) is None,
            },
    {
        let mut i: usize = 0;
        assert(self@.skip(0) =~= self@);
        while i < self.0.len()
            invariant
                i <= self.0@.len(),
                self@.len() == self.0@.len(),
                header(self@, name@) == header(self@.skip(i as int), name@),
            decreases self.0@.len() - i,
        {
            assert(self@.skip(i as int).drop_first() =~= self@.skip(i + 1));
            assert(self@.skip(i as int).first() == self@[i as int]);
            let one: &(String, String) = &self.0[i];
            if same_ignoring_case(one.0.as_str(), name) {
                return Some(one.1.as_str());
            }
            i = i + 1;
        }
        None
    }

    /// Adds one, keeping whatever is already there.
    pub fn push(&mut self, name: &str, value: &str)
        ensures
            final(self)@ == old(self)@.push((name@, value@)),
    {
        self.0.push((name.to_owned(), value.to_owned()));
        assert(self@ =~= old(self)@.push((name@, value@)));
    }

    /// Adds one and hands the headers back, for building a response in one
    /// expression.
    #[must_use]
    pub fn with(self, name: &str, value: &str) -> (headers: Self)
        ensures
            headers@ == self@.push((name@, value@)),
    {
        let mut headers = self;
        headers.push(name, value);
        headers
    }

    /// Every header, in order.
    pub fn iter(&self) -> (headers: Vec<(&str, &str)>)
        ensures
            headers@.map_values(|header: (&str, &str)| (header.0@, header.1@)) == self@,
    {
        let mut headers: Vec<(&str, &str)> = Vec::new();
        let mut i: usize = 0;
        while i < self.0.len()
            invariant
                i <= self.0@.len(),
                headers@.len() == i,
                forall|j: int|
                    0 <= j < i ==> (#[trigger] headers@[j]).0@ == self.0@[j].0@ && headers@[j].1@
                        == self.0@[j].1@,
            decreases self.0@.len() - i,
        {
            let one: &(String, String) = &self.0[i];
            headers.push((one.0.as_str(), one.1.as_str()));
            i = i + 1;
        }
        assert(headers@.map_values(|header: (&str, &str)| (header.0@, header.1@)) =~= self@);
        headers
    }
}

impl Default for Headers {
    fn default() -> (headers: Self)
        ensures
            headers@ == Seq::<(Seq<char>, Seq<char>)>::empty(),
    {
        Self::new()
    }
}

/// One request from a client.
#[derive(Clone, Debug, PartialEq, Eq)]
pub struct Request {
    pub method: Method,
    pub uri: String,
    pub headers: Headers,
    pub body: Bytes,
}

/// What a [`Request`] says.
pub struct RequestView {
    pub method: MethodView,
    pub uri: Seq<char>,
    pub headers: Seq<(Seq<char>, Seq<char>)>,
    pub body: Seq<u8>,
}

impl View for Request {
    type V = RequestView;

    open spec fn view(&self) -> RequestView {
        RequestView {
            method: self.method@,
            uri: self.uri@,
            headers: self.headers@,
            body: self.body@,
        }
    }
}

impl RequestView {
    /// The sequence number this request has to be answered with.
    pub open spec fn sequence(self) -> Option<Seq<char>> {
        header(self.headers, "CSeq"@)
    }

    /// The session this belongs to. The part after the first semicolon is not
    /// the id.
    pub open spec fn session(self) -> Option<Seq<char>> {
        match header(self.headers, "Session"@) {
            Some(value) => Some(trim(before(value, ';'), Edge::Whitespace)),
            None => None,
        }
    }
}

impl Request {
    /// The sequence number this request has to be answered with.
    ///
    /// Every request carries one and every answer repeats it, which is how a
    /// client pairs them up on a connection where it may have several
    /// outstanding.
    pub fn sequence(&self) -> (sequence: Option<&str>)
        ensures
            match sequence {
                Some(sequence) => self@.sequence() == Some(sequence@),
                None => self@.sequence() is None,
            },
    {
        self.headers.get("CSeq")
    }

    /// The session this belongs to, once one has been set up.
    ///
    /// Some clients write `Session: <id>;timeout=60`, so the part after the
    /// first semicolon is not the id.
    pub fn session(&self) -> (session: Option<String>)
        ensures
            match session {
                Some(session) => self@.session() == Some(session@),
                None => self@.session() is None,
            },
    {
        match self.headers.get("Session") {
            Some(value) => {
                let letters = characters(value);
                let end: usize = position(letters.as_slice(), ';');
                let id = slice_subrange(letters.as_slice(), 0, end);
                assert(id@ =~= before(value@, ';'));
                Some(text_of(trim_chars(id, Edge::Whitespace)))
            },
            None => None,
        }
    }
}

/// One answer.
#[derive(Clone, Debug, PartialEq, Eq)]
pub struct Response {
    pub status: Status,
    pub headers: Headers,
    pub body: Bytes,
}

/// What a [`Response`] says.
pub struct ResponseView {
    pub status: Status,
    pub headers: Seq<(Seq<char>, Seq<char>)>,
    pub body: Seq<u8>,
}

impl View for Response {
    type V = ResponseView;

    open spec fn view(&self) -> ResponseView {
        ResponseView { status: self.status, headers: self.headers@, body: self.body@ }
    }
}

/// Headers as they are written.
pub open spec fn headers_text(headers: Seq<(Seq<char>, Seq<char>)>) -> Seq<char>
    decreases headers.len(),
{
    if headers.len() == 0 {
        Seq::empty()
    } else {
        headers_text(headers.drop_last()) + headers.last().0 + ": "@ + headers.last().1 + "\r\n"@
    }
}

/// The text in front of an answer's body. Its length is said here rather than
/// asked for, because it is not a fact about the answer but about the bytes it
/// is being turned into.
pub open spec fn response_head(response: ResponseView) -> Seq<char> {
    "RTSP/1.0 "@ + decimal(response.status.0 as nat) + " "@ + response.status.1@ + "\r\n"@
        + headers_text(response.headers) + "Content-Length: "@ + decimal(response.body.len())
        + "\r\n\r\n"@
}

impl ResponseView {
    /// The answer with a header more.
    pub open spec fn with(self, name: Seq<char>, value: Seq<char>) -> ResponseView {
        ResponseView { headers: self.headers.push((name, value)), ..self }
    }
}

/// An answer with a status and nothing else.
pub open spec fn bare_response(status: Status) -> ResponseView {
    ResponseView { status, headers: Seq::empty(), body: Seq::empty() }
}

impl Response {
    /// An answer with a status and nothing else, which most of them are.
    pub fn new(status: Status) -> (response: Self)
        ensures
            response@ == bare_response(status),
    {
        Self { status, headers: Headers::new(), body: Bytes::new() }
    }

    /// Adds a header.
    #[must_use]
    pub fn with(self, name: &str, value: &str) -> (response: Self)
        ensures
            response@ == self@.with(name@, value@),
    {
        Self { status: self.status, headers: self.headers.with(name, value), body: self.body }
    }

    /// Adds a body, and the type it is in.
    #[must_use]
    pub fn with_body(self, content_type: &str, body: Bytes) -> (response: Self)
        ensures
            response@ == (ResponseView { body: body@, ..self@.with("Content-Type"@, content_type@) }),
    {
        Self {
            status: self.status,
            headers: self.headers.with("Content-Type", content_type),
            body,
        }
    }

    /// Writes the answer out.
    ///
    /// `Content-Length` is written here rather than being asked for: one that
    /// disagreed with the body would leave a client reading the next response
    /// as part of this one.
    pub fn to_bytes(&self) -> (bytes: Bytes)
        ensures
            bytes@ == encode_utf8(response_head(self@)) + self@.body,
    {
        let body = octets(&self.body);
        let mut head = String::new();
        push_text(&mut head, "RTSP/1.0 ");
        push_decimal(&mut head, self.status.0 as u64);
        push_text(&mut head, " ");
        push_text(&mut head, self.status.1);
        push_text(&mut head, "\r\n");
        let ghost first = head@;
        assert(first =~= "RTSP/1.0 "@ + decimal(self.status.0 as nat) + " "@ + self.status.1@
            + "\r\n"@);
        let headers = self.headers.iter();
        let ghost all = self.headers@;
        let mut i: usize = 0;
        assert(all.take(0) =~= Seq::empty());
        assert(head@ =~= first + headers_text(all.take(0)));
        while i < headers.len()
            invariant
                i <= headers@.len(),
                headers@.map_values(|header: (&str, &str)| (header.0@, header.1@)) == all,
                head@ == first + headers_text(all.take(i as int)),
            decreases headers@.len() - i,
        {
            let ghost written = head@;
            let (name, value): (&str, &str) = headers[i];
            proof {
                assert(all.take(i + 1).drop_last() =~= all.take(i as int));
                let views = headers@.map_values(|header: (&str, &str)| (header.0@, header.1@));
                assert(all[i as int] == views[i as int]);
                assert(all.take(i + 1).last() == (name@, value@));
            }
            push_text(&mut head, name);
            push_text(&mut head, ": ");
            push_text(&mut head, value);
            push_text(&mut head, "\r\n");
            assert(head@ =~= written + name@ + ": "@ + value@ + "\r\n"@);
            assert(head@ =~= first + headers_text(all.take(i + 1)));
            i = i + 1;
        }
        assert(all.take(i as int) =~= all);
        push_text(&mut head, "Content-Length: ");
        push_decimal(&mut head, body.len() as u64);
        push_text(&mut head, "\r\n\r\n");
        assert(head@ =~= response_head(self@));
        let mut out = BytesMut::new();
        put_slice(&mut out, head.as_str().as_bytes());
        put_slice(&mut out, body);
        assert(out@ =~= encode_utf8(response_head(self@)) + self@.body);
        out.freeze()
    }
}

/// What arrived on the connection.
#[derive(Clone, Debug, PartialEq, Eq)]
pub enum Incoming {
    /// A request, in text.
    Request(Request),
    /// A frame of RTP or RTCP, on the channel a `SETUP` agreed.
    Interleaved { channel: u8, data: Bytes },
}

/// What arrived on the connection.
pub enum IncomingView {
    Request(RequestView),
    Interleaved { channel: u8, data: Seq<u8> },
}

impl View for Incoming {
    type V = IncomingView;

    open spec fn view(&self) -> IncomingView {
        match *self {
            Incoming::Request(request) => IncomingView::Request(request@),
            Incoming::Interleaved { channel, data } => IncomingView::Interleaved {
                channel,
                data: data@,
            },
        }
    }
}

/// What can be wrong with what arrived.
#[derive(Debug, PartialEq, Eq)]
pub enum RtspError {
    /// A first line that is not a method, a URI and a version.
    MalformedRequestLine(String),
    /// A header line with no colon in it.
    MalformedHeader(String),
    /// A version this does not speak. There has only ever been 1.0.
    UnsupportedVersion(String),
    /// A `Content-Length` that is not a number.
    MalformedContentLength(String),
    /// A request head longer than [`MAX_HEAD`], or a body longer than
    /// [`MAX_BODY`].
    TooLong { part: &'static str, limit: usize },
    /// Bytes that are neither a request nor a frame. Refused rather than
    /// skipped past: a connection that is out of step does not come back
    /// into it, and reading on would turn one client's confusion into a
    /// stream of nonsense.
    NotRtsp,
}

/// What a [`RtspError`] says.
pub enum RtspErrorView {
    MalformedRequestLine(Seq<char>),
    MalformedHeader(Seq<char>),
    UnsupportedVersion(Seq<char>),
    MalformedContentLength(Seq<char>),
    TooLong { part: &'static str, limit: usize },
    NotRtsp,
}

impl View for RtspError {
    type V = RtspErrorView;

    open spec fn view(&self) -> RtspErrorView {
        match *self {
            RtspError::MalformedRequestLine(line) => RtspErrorView::MalformedRequestLine(line@),
            RtspError::MalformedHeader(line) => RtspErrorView::MalformedHeader(line@),
            RtspError::UnsupportedVersion(version) => RtspErrorView::UnsupportedVersion(version@),
            RtspError::MalformedContentLength(stated) => RtspErrorView::MalformedContentLength(
                stated@,
            ),
            RtspError::TooLong { part, limit } => RtspErrorView::TooLong { part, limit },
            RtspError::NotRtsp => RtspErrorView::NotRtsp,
        }
    }
}

/// What is at the front of a buffer, and how much of the buffer it is; `None`
/// where it is not all there.
pub open spec fn incoming(s: Seq<u8>) -> Result<Option<(IncomingView, int)>, RtspErrorView> {
    if s.len() == 0 {
        Ok(None)
    } else if s[0] == 0x24 {
        Ok(interleaved_at_front(s))
    } else if letter(s[0]) {
        request_at_front(s)
    } else {
        Err(RtspErrorView::NotRtsp)
    }
}

/// Whether a byte is an ASCII letter, as a method begins with.
pub open spec fn letter(byte: u8) -> bool {
    0x41 <= byte <= 0x5a || 0x61 <= byte <= 0x7a
}

/// The frame at the front of a buffer that begins with a dollar sign: a
/// channel, a length in two bytes, and as many bytes as it says.
pub open spec fn interleaved_at_front(s: Seq<u8>) -> Option<(IncomingView, int)> {
    if s.len() < 4 || s.len() < 4 + num16(s, 2) {
        None
    } else {
        Some(
            (
                IncomingView::Interleaved {
                    channel: s[1],
                    data: s.subrange(4, 4 + num16(s, 2)),
                },
                4 + num16(s, 2),
            ),
        )
    }
}

/// Whether the blank line that ends a head stands at `at`, with the end of the
/// line before it.
pub open spec fn blank_line(s: Seq<u8>, at: int) -> bool {
    at + 4 <= s.len() && s[at] == 0x0d && s[at + 1] == 0x0a && s[at + 2] == 0x0d && s[at + 3]
        == 0x0a
}

/// Whether what there is from `at` on is the first of the blank line that ends
/// a head, and not all of it.
pub open spec fn blank_line_begun(s: Seq<u8>, at: int) -> bool {
    &&& 0 <= at <= s.len() < at + 4
    &&& at < s.len() ==> s[at] == 0x0d
    &&& at + 1 < s.len() ==> s[at + 1] == 0x0a
    &&& at + 2 < s.len() ==> s[at + 2] == 0x0d
}

/// Whether a head that has not ended may still end within the limit: it has not
/// reached it, or it has and its blank line is under way.
pub open spec fn may_end(s: Seq<u8>) -> bool {
    s.len() <= MAX_HEAD || exists|at: int|
        at <= MAX_HEAD && #[trigger] blank_line_begun(s, at)
}

/// Where the head that is under way at `from` ends.
pub open spec fn head_end(s: Seq<u8>, from: int) -> Option<int>
    decreases s.len() - from,
{
    if from + 4 > s.len() {
        None
    } else if blank_line(s, from) {
        Some(from)
    } else {
        head_end(s, from + 1)
    }
}

/// The headers that some lines are, or the first of them that is not one.
pub open spec fn headers_of(lines: Seq<Seq<char>>) -> Result<
    Seq<(Seq<char>, Seq<char>)>,
    RtspErrorView,
>
    decreases lines.len(),
{
    if lines.len() == 0 {
        Ok(Seq::empty())
    } else {
        match headers_of(lines.drop_last()) {
            Err(error) => Err(error),
            Ok(headers) => match split_once(lines.last(), ':') {
                None => Err(RtspErrorView::MalformedHeader(lines.last())),
                Some((name, value)) => Ok(
                    headers.push((trim(name, Edge::Whitespace), trim(value, Edge::Whitespace))),
                ),
            },
        }
    }
}

/// What the head of a request says: its method, its URI and its headers.
pub struct Head {
    pub method: Seq<char>,
    pub uri: Seq<char>,
    pub headers: Seq<(Seq<char>, Seq<char>)>,
}

/// What a head says, or what is wrong with it.
pub open spec fn head_of(text: Seq<char>) -> Result<Head, RtspErrorView> {
    let all = lines(text, 0);
    let first = words(all[0]);
    if first.len() != 3 {
        Err(RtspErrorView::MalformedRequestLine(all[0]))
    } else if first[2] != "RTSP/1.0"@ {
        Err(RtspErrorView::UnsupportedVersion(first[2]))
    } else {
        match headers_of(all.drop_first()) {
            Err(error) => Err(error),
            Ok(headers) => Ok(Head { method: first[0], uri: first[1], headers }),
        }
    }
}

/// How long the body that headers announce is.
pub open spec fn body_length(headers: Seq<(Seq<char>, Seq<char>)>) -> Result<nat, RtspErrorView> {
    match header(headers, "Content-Length"@) {
        None => Ok(0),
        Some(stated) => match number_of(trim(stated, Edge::Whitespace), usize::MAX as nat) {
            None => Err(RtspErrorView::MalformedContentLength(stated)),
            Some(length) => if length > MAX_BODY {
                Err(RtspErrorView::TooLong { part: "request body", limit: MAX_BODY })
            } else {
                Ok(length)
            },
        },
    }
}

/// The request at the front of a buffer that begins with a letter.
pub open spec fn request_at_front(s: Seq<u8>) -> Result<
    Option<(IncomingView, int)>,
    RtspErrorView,
> {
    match head_end(s, 0) {
        None => if may_end(s) {
            Ok(None)
        } else {
            Err(RtspErrorView::TooLong { part: "request head", limit: MAX_HEAD })
        },
        Some(end) => if end > MAX_HEAD {
            Err(RtspErrorView::TooLong { part: "request head", limit: MAX_HEAD })
        } else if !valid_utf8(s.take(end)) {
            Err(RtspErrorView::NotRtsp)
        } else {
            match head_of(decode_utf8(s.take(end))) {
                Err(error) => Err(error),
                Ok(head) => match body_length(head.headers) {
                    Err(error) => Err(error),
                    Ok(length) => if s.len() < end + 4 + length {
                        Ok(None)
                    } else {
                        Ok(
                            Some(
                                (
                                    IncomingView::Request(
                                        RequestView {
                                            method: method_of(head.method),
                                            uri: head.uri,
                                            headers: head.headers,
                                            body: s.subrange(end + 4, end + 4 + length),
                                        },
                                    ),
                                    end + 4 + length,
                                ),
                            ),
                        )
                    },
                },
            }
        },
    }
}

/// Takes the next thing out of `buf`, or `None` if there is not one there
/// yet.
///
/// Consumes only what it returns. A request that is half here leaves all of
/// itself behind, so a caller reads more into the same buffer and calls
/// again.
pub fn read(buf: &mut BytesMut) -> (outcome: Result<Option<Incoming>, RtspError>)
    ensures
        match outcome {
            Ok(Some(arrived)) => incoming(old(buf)@) matches Ok(Some((view, used))) && view
                == arrived@ && 0 < used <= old(buf)@.len() && final(buf)@ == old(buf)@.skip(used),
            Ok(None) => incoming(old(buf)@) == Ok::<_, RtspErrorView>(None::<(IncomingView, int)>)
                && final(buf)@ == old(buf)@,
            Err(error) => incoming(old(buf)@) == Err::<Option<(IncomingView, int)>, _>(error@)
                && final(buf)@ == old(buf)@,
        },
{
    let bytes = pending(buf);
    if bytes.len() == 0 {
        return Ok(None);
    }
    let first: u8 = bytes[0];
    if first == 0x24 {
        return Ok(read_interleaved(buf));
    }
    if (0x41 <= first && first <= 0x5a) || (0x61 <= first && first <= 0x7a) {
        return read_request(buf);
    }
    Err(RtspError::NotRtsp)
}

fn read_interleaved(buf: &mut BytesMut) -> (frame: Option<Incoming>)
    ensures
        match frame {
            Some(frame) => interleaved_at_front(old(buf)@) matches Some((view, used)) && view
                == frame@ && 0 < used <= old(buf)@.len() && final(buf)@ == old(buf)@.skip(used),
            None => interleaved_at_front(old(buf)@) is None && final(buf)@ == old(buf)@,
        },
{
    let bytes = pending(buf);
    let ghost s = bytes@;
    if bytes.len() < 4 {
        return None;
    }
    let channel: u8 = bytes[1];
    let length: usize = get_u16(bytes, 2) as usize;
    if bytes.len() - 4 < length {
        return None;
    }
    advance(buf, 4);
    let data = buf.split_to(length).freeze();
    assert(data@ =~= s.subrange(4, 4 + length));
    assert(buf@ =~= s.skip(4 + length));
    Some(Incoming::Interleaved { channel, data })
}

fn find_head_end(bytes: &[u8]) -> (end: Option<usize>)
    ensures
        match end {
            Some(end) => head_end(bytes@, 0) == Some(end as int) && end + 4 <= bytes@.len(),
            None => head_end(bytes@, 0) is None,
        },
{
    let mut at: usize = 0;
    while bytes.len() - at >= 4
        invariant
            at <= bytes@.len(),
            head_end(bytes@, 0) == head_end(bytes@, at as int),
        decreases bytes@.len() - at,
    {
        if bytes[at] == 0x0d && bytes[at + 1] == 0x0a && bytes[at + 2] == 0x0d && bytes[at + 3]
            == 0x0a {
            return Some(at);
        }
        at = at + 1;
    }
    None
}

/// Whether a head that has not ended may still end within the limit.
fn may_still_end(bytes: &[u8]) -> (may: bool)
    ensures
        may == may_end(bytes@),
{
    if bytes.len() <= MAX_HEAD {
        return true;
    }
    if bytes.len() > MAX_HEAD + 3 {
        return false;
    }
    let mut at: usize = bytes.len() - 3;
    while at <= MAX_HEAD
        invariant
            MAX_HEAD < bytes@.len() <= MAX_HEAD + 3,
            bytes@.len() - 3 <= at <= MAX_HEAD + 1,
            forall|i: int| i < at ==> !#[trigger] blank_line_begun(bytes@, i),
        decreases MAX_HEAD + 1 - at,
    {
        if bytes[at] == 0x0d && (bytes.len() - at < 2 || bytes[at + 1] == 0x0a) && (bytes.len() - at
            < 3 || bytes[at + 2] == 0x0d) {
            assert(blank_line_begun(bytes@, at as int));
            return true;
        }
        at = at + 1;
    }
    false
}

proof fn lemma_refused_headers_stay(lines: Seq<Seq<char>>, count: int)
    requires
        0 <= count <= lines.len(),
        headers_of(lines.take(count)) is Err,
    ensures
        headers_of(lines) == headers_of(lines.take(count)),
    decreases lines.len() - count,
{
    if count < lines.len() {
        assert(lines.take(count + 1).drop_last() =~= lines.take(count));
        lemma_refused_headers_stay(lines, count + 1);
    } else {
        assert(lines.take(count) =~= lines);
    }
}

/// Reads the header lines of a head, which are those after the first.
fn read_headers(all: &Vec<&[char]>) -> (outcome: Result<Headers, RtspError>)
    requires
        all@.len() > 0,
    ensures
        match outcome {
            Ok(headers) => headers_of(texts(all@).drop_first()) == Ok::<_, RtspErrorView>(headers@),
            Err(error) => headers_of(texts(all@).drop_first()) == Err::<
                Seq<(Seq<char>, Seq<char>)>,
                _,
            >(error@),
        },
{
    let ghost rest = texts(all@).drop_first();
    let mut headers = Headers::new();
    let mut i: usize = 1;
    assert(rest.take(0) =~= Seq::empty());
    while i < all.len()
        invariant
            1 <= i <= all@.len(),
            rest == texts(all@).drop_first(),
            headers_of(rest.take(i - 1)) == Ok::<_, RtspErrorView>(headers@),
        decreases all@.len() - i,
    {
        let line: &[char] = all[i];
        proof {
            assert(rest.take(i as int).drop_last() =~= rest.take(i - 1));
            assert(rest.take(i as int).last() == line@);
        }
        match split_at_first(line, ':') {
            Some((name, value)) => {
                let name = text_of(trim_chars(name, Edge::Whitespace));
                let value = text_of(trim_chars(value, Edge::Whitespace));
                headers.push(name.as_str(), value.as_str());
            },
            None => {
                proof {
                    lemma_refused_headers_stay(rest, i as int);
                }
                return Err(RtspError::MalformedHeader(text_of(line)));
            },
        }
        i = i + 1;
    }
    assert(rest.take(i - 1) =~= rest);
    Ok(headers)
}

/// Reads the head of a request: its method, its URI and its headers.
fn read_head(text: &str) -> (outcome: Result<(String, String, Headers), RtspError>)
    ensures
        match outcome {
            Ok((method, uri, headers)) => head_of(text@) == Ok::<_, RtspErrorView>(
                Head { method: method@, uri: uri@, headers: headers@ },
            ),
            Err(error) => head_of(text@) == Err::<Head, _>(error@),
        },
{
    let letters = characters(text);
    let all = split_lines(letters.as_slice());
    assert(texts(all@)[0] == all@[0]@);
    let first = split_words(all[0]);
    if first.len() != 3 {
        return Err(RtspError::MalformedRequestLine(text_of(all[0])));
    }
    assert(texts(first@)[0] == first@[0]@ && texts(first@)[1] == first@[1]@ && texts(first@)[2]
        == first@[2]@);
    if !same_chars(first[2], "RTSP/1.0") {
        return Err(RtspError::UnsupportedVersion(text_of(first[2])));
    }
    match read_headers(&all) {
        Ok(headers) => Ok((text_of(first[0]), text_of(first[1]), headers)),
        Err(error) => Err(error),
    }
}

/// Reads how long the body that headers announce is.
fn read_body_length(headers: &Headers) -> (outcome: Result<usize, RtspError>)
    ensures
        match outcome {
            Ok(length) => body_length(headers@) == Ok::<_, RtspErrorView>(length as nat) && length
                <= MAX_BODY,
            Err(error) => body_length(headers@) == Err::<nat, _>(error@),
        },
{
    match headers.get("Content-Length") {
        None => Ok(0),
        Some(stated) => {
            let letters = characters(stated);
            match read_number(
                trim_chars(letters.as_slice(), Edge::Whitespace),
                usize::MAX as u64,
            ) {
                None => Err(RtspError::MalformedContentLength(stated.to_owned())),
                Some(length) => if length > MAX_BODY as u64 {
                    Err(RtspError::TooLong { part: "request body", limit: MAX_BODY })
                } else {
                    Ok(length as usize)
                },
            }
        },
    }
}

fn read_request(buf: &mut BytesMut) -> (outcome: Result<Option<Incoming>, RtspError>)
    ensures
        match outcome {
            Ok(Some(arrived)) => request_at_front(old(buf)@) matches Ok(Some((view, used))) && view
                == arrived@ && 0 < used <= old(buf)@.len() && final(buf)@ == old(buf)@.skip(used),
            Ok(None) => request_at_front(old(buf)@) == Ok::<_, RtspErrorView>(
                None::<(IncomingView, int)>,
            ) && final(buf)@ == old(buf)@,
            Err(error) => request_at_front(old(buf)@) == Err::<Option<(IncomingView, int)>, _>(
                error@,
            ) && final(buf)@ == old(buf)@,
        },
{
    let bytes = pending(buf);
    let ghost s = bytes@;
    let end: usize = match find_head_end(bytes) {
        Some(end) => end,
        None => {
            if may_still_end(bytes) {
                return Ok(None);
            }
            return Err(RtspError::TooLong { part: "request head", limit: MAX_HEAD });
        },
    };
    if end > MAX_HEAD {
        return Err(RtspError::TooLong { part: "request head", limit: MAX_HEAD });
    }
    // The head, without the blank line that ends it.
    let head = slice_subrange(bytes, 0, end);
    assert(head@ =~= s.take(end as int));
    let (method, uri, headers): (String, String, Headers) = match utf8(head) {
        Some(text) => match read_head(text) {
            Ok(read) => read,
            Err(error) => {
                return Err(error);
            },
        },
        None => {
            return Err(RtspError::NotRtsp);
        },
    };
    let length: usize = match read_body_length(&headers) {
        Ok(length) => length,
        Err(error) => {
            return Err(error);
        },
    };
    let start: usize = end + 4;
    if bytes.len() - start < length {
        return Ok(None);
    }
    let method = Method::parse(method.as_str());
    advance(buf, start);
    let body = buf.split_to(length).freeze();
    assert(body@ =~= s.subrange(start as int, start + length));
    assert(buf@ =~= s.skip(start + length));
    Ok(Some(Incoming::Request(Request { method, uri, headers, body })))
}

/// A packet in the four bytes that let it share the connection with requests.
pub open spec fn framed(channel: u8, packet: Seq<u8>) -> Seq<u8> {
    seq![0x24u8, channel] + be16(packet.len() as int) + packet
}

/// Wraps a packet in the four bytes that let it share the connection with
/// requests. See the module docs.
///
/// Fails for a packet too long for the two bytes that count it, which no
/// packetizer here produces.
pub fn interleave(out: &mut BytesMut, channel: u8, packet: &[u8]) -> (outcome: Result<
    (),
    RtspError,
>)
    ensures
        outcome is Ok <==> packet@.len() <= 0xffff,
        outcome is Ok ==> final(out)@ == old(out)@ + framed(channel, packet@),
        outcome matches Err(error) ==> final(out)@ == old(out)@ && error@ == (
        RtspErrorView::TooLong { part: "interleaved frame", limit: 0xffff }),
{
    if packet.len() > 0xffff {
        return Err(RtspError::TooLong { part: "interleaved frame", limit: 0xffff });
    }
    put_u8(out, 0x24);
    put_u8(out, channel);
    put_u16(out, packet.len() as u16);
    put_slice(out, packet);
    assert(out@ =~= old(out)@ + framed(channel, packet@));
    Ok(())
}

/// A framed packet reads back as itself on its channel, whatever follows it,
/// and what follows is left.
pub proof fn law_interleaved_frames_read_back(channel: u8, packet: Seq<u8>, rest: Seq<u8>)
    requires
        packet.len() <= 0xffff,
    ensures
        incoming(framed(channel, packet) + rest) == Ok::<_, RtspErrorView>(
            Some(
                (
                    IncomingView::Interleaved { channel, data: packet },
                    framed(channel, packet).len() as int,
                ),
            ),
        ),
        (framed(channel, packet) + rest).skip(framed(channel, packet).len() as int) == rest,
{
    let head = seq![0x24u8, channel];
    let s = framed(channel, packet) + rest;
    assert(s =~= head + be16(packet.len() as int) + (packet + rest));
    lemma_num16_amid(head, packet.len() as int, packet + rest);
    assert(s[0] == head[0] && s[1] == head[1]);
    assert(s.subrange(4, (4 + packet.len()) as int) =~= packet);
    assert(s.skip((4 + packet.len()) as int) =~= rest);
}

/// What has arrived whole, or is refused, reads the same whatever arrives after
/// it.
pub proof fn law_more_bytes_change_nothing(s: Seq<u8>, more: Seq<u8>)
    requires
        incoming(s) != Ok::<_, RtspErrorView>(None::<(IncomingView, int)>),
    ensures
        incoming(s + more) == incoming(s),
{
    let t = s + more;
    assert(t[0] == s[0]);
    if s[0] == 0x24 {
        assert(t[1] == s[1] && t[2] == s[2] && t[3] == s[3]);
        assert(t.subrange(4, 4 + num16(s, 2)) =~= s.subrange(4, 4 + num16(s, 2)));
    } else if !letter(s[0]) {
    } else if head_end(s, 0) is Some {
        lemma_head_end_stays(s, more, 0);
        let end = head_end(s, 0)->0;
        assert(t.take(end) =~= s.take(end));
        if incoming(s) is Ok {
            let head = head_of(decode_utf8(s.take(end)))->Ok_0;
            let length = body_length(head.headers)->Ok_0;
            assert(t.subrange(end + 4, end + 4 + length) =~= s.subrange(
                end + 4,
                end + 4 + length,
            ));
        }
    } else if head_end(t, 0) is Some {
        lemma_head_end_stays(t, Seq::empty(), 0);
        let end = head_end(t, 0)->0;
        if end + 4 <= s.len() {
            assert(t[end] == s[end] && t[end + 1] == s[end + 1] && t[end + 2] == s[end + 2] && t[end
                + 3] == s[end + 3]);
            lemma_head_end_found(s, 0, end);
        } else if end <= MAX_HEAD {
            assert(blank_line_begun(s, end));
        }
    } else if may_end(t) {
        let at = choose|at: int| at <= MAX_HEAD && #[trigger] blank_line_begun(t, at);
        assert(blank_line_begun(s, at));
    }
}

proof fn lemma_head_end_stays(s: Seq<u8>, more: Seq<u8>, from: int)
    requires
        0 <= from,
        head_end(s, from) is Some,
    ensures
        head_end(s + more, from) == head_end(s, from),
        from <= head_end(s, from)->0,
        blank_line(s, head_end(s, from)->0),
    decreases s.len() - from,
{
    let t = s + more;
    assert(t[from] == s[from] && t[from + 1] == s[from + 1] && t[from + 2] == s[from + 2] && t[from
        + 3] == s[from + 3]);
    if !blank_line(s, from) {
        lemma_head_end_stays(s, more, from + 1);
    }
}

/// A word that is no method's is kept, and every method goes by the word it is
/// written as.
pub proof fn law_methods_round_trip(word: Seq<char>)
    ensures
        method_of(word).word() == word,
        method_of(method_of(word).word()) == method_of(word),
{
}

/// A message that has not all arrived reads as nothing yet, wherever it is cut.
pub proof fn law_part_of_a_message_waits(s: Seq<u8>, cut: int)
    requires
        incoming(s) matches Ok(Some((_, used))) && 0 <= cut < used,
    ensures
        incoming(s.take(cut)) == Ok::<_, RtspErrorView>(None::<(IncomingView, int)>),
{
    let t = s.take(cut);
    if cut == 0 {
    } else if s[0] == 0x24 {
        if cut >= 4 {
            assert(t[2] == s[2] && t[3] == s[3]);
        }
    } else {
        assert(t + s.skip(cut) =~= s);
        lemma_head_end_stays(s, Seq::empty(), 0);
        let end = head_end(s, 0)->0;
        if head_end(t, 0) is Some {
            lemma_head_end_stays(t, s.skip(cut), 0);
            assert(t.take(end) =~= s.take(end));
        } else if cut >= end + 4 {
            assert(t[end] == s[end] && t[end + 1] == s[end + 1] && t[end + 2] == s[end + 2] && t[end
                + 3] == s[end + 3]);
            lemma_head_end_found(t, 0, end);
        } else if cut > MAX_HEAD {
            assert(blank_line_begun(t, end));
        }
    }
}

/// A head ends where its blank line is, or before.
proof fn lemma_head_end_found(s: Seq<u8>, from: int, at: int)
    requires
        0 <= from <= at,
        blank_line(s, at),
    ensures
        head_end(s, from) is Some,
    decreases at - from,
{
    if from < at {
        lemma_head_end_found(s, from + 1, at);
    }
}

/// Where a client wants one track's packets sent, and how.
#[allow(inconsistent_fields)]
#[derive(Clone, Copy, Debug, PartialEq, Eq, Structural)]
pub enum Transport {
    /// On this connection, as interleaved frames. Two channels: the packets
    /// on the first, the reports about them on the second.
    Interleaved { rtp: u8, rtcp: u8 },
    /// To a pair of ports over UDP.
    Udp { rtp: u16, rtcp: u16 },
}

/// The two numbers that `a-b` is, which is how both channels and ports are
/// written.
pub open spec fn pair_of(value: Seq<char>) -> Option<(u16, u16)> {
    match split_once(value, '-') {
        None => None,
        Some((first, second)) => match (
            number_of(trim(first, Edge::Whitespace), 0xffff),
            number_of(trim(second, Edge::Whitespace), 0xffff),
        ) {
            (Some(first), Some(second)) => Some((first as u16, second as u16)),
            _ => None,
        },
    }
}

/// The numbers that the last of the parameters of a name gives.
pub open spec fn parameter(parts: Seq<Seq<char>>, name: Seq<char>) -> Option<(u16, u16)>
    decreases parts.len(),
{
    if parts.len() == 0 {
        None
    } else {
        match split_once(trim(parts.last(), Edge::Whitespace), '=') {
            Some((stated, value)) if stated == name => pair_of(value),
            _ => parameter(parts.drop_last(), name),
        }
    }
}

/// Whether one of some parts is `multicast`.
pub open spec fn asks_for_multicast(parts: Seq<Seq<char>>) -> bool {
    exists|i: int|
        0 <= i < parts.len() && trim(#[trigger] parts[i], Edge::Whitespace) == "multicast"@
}

/// What one form that a `Transport` header offers asks for, if this can express
/// it.
pub open spec fn offer_of(text: Seq<char>) -> Option<Transport> {
    let parts = parts_between(text, ';');
    let protocol = trim(parts[0], Edge::Whitespace);
    let parameters = parts.drop_first();
    if !starts_with(protocol, "RTP/AVP"@) || asks_for_multicast(parameters) {
        None
    } else if ends_with(protocol, "/TCP"@) {
        match parameter(parameters, "interleaved"@) {
            Some((rtp, rtcp)) if rtp <= 0xff && rtcp <= 0xff => Some(
                Transport::Interleaved { rtp: rtp as u8, rtcp: rtcp as u8 },
            ),
            _ => None,
        }
    } else {
        match parameter(parameters, "client_port"@) {
            Some((rtp, rtcp)) => Some(Transport::Udp { rtp, rtcp }),
            None => None,
        }
    }
}

/// What forms of transport ask for, in order, but for those that this cannot
/// express.
pub open spec fn offers_of(forms: Seq<Seq<char>>) -> Seq<Transport>
    decreases forms.len(),
{
    if forms.len() == 0 {
        Seq::empty()
    } else {
        match offer_of(forms.last()) {
            Some(transport) => offers_of(forms.drop_last()).push(transport),
            None => offers_of(forms.drop_last()),
        }
    }
}

/// What a `Transport` header offers.
pub open spec fn offers(header: Seq<char>) -> Seq<Transport> {
    offers_of(parts_between(header, ','))
}

/// The header that a `SETUP` is answered with.
pub open spec fn transport_header(transport: Transport, server: Option<(u16, u16)>) -> Seq<char> {
    match transport {
        Transport::Interleaved { rtp, rtcp } => "RTP/AVP/TCP;unicast;interleaved="@ + decimal(
            rtp as nat,
        ) + "-"@ + decimal(rtcp as nat),
        Transport::Udp { rtp, rtcp } => {
            let header = "RTP/AVP;unicast;client_port="@ + decimal(rtp as nat) + "-"@ + decimal(
                rtcp as nat,
            );
            match server {
                Some((rtp, rtcp)) => header + ";server_port="@ + decimal(rtp as nat) + "-"@
                    + decimal(rtcp as nat),
                None => header,
            }
        },
    }
}

impl Transport {
    /// Reads a `Transport` header, taking the first form it offers that this
    /// can express.
    ///
    /// A client lists what it will accept, in the order it would prefer, so
    /// refusing the whole header because one of them is multicast would turn
    /// down an offer that also included something workable.
    pub fn parse(header: &str) -> (transport: Option<Self>)
        ensures
            match transport {
                Some(transport) => offers(header@).len() > 0 && transport == offers(
                    header@,
                ).first(),
                None => offers(header@).len() == 0,
            },
    {
        let offered = Self::offered(header);
        if offered.len() > 0 {
            Some(offered[0])
        } else {
            None
        }
    }

    /// Every form the header offers that this can express, in the order the
    /// client would prefer them.
    ///
    /// What a caller that can do some of them and not others reads instead
    /// of [`Transport::parse`]: which ones those are is a fact about the
    /// server rather than about the header.
    pub fn offered(header: &str) -> (offered: Vec<Self>)
        ensures
            offered@ == offers(header@),
    {
        let letters = characters(header);
        let forms = split_at_each(letters.as_slice(), ',');
        let ghost all = texts(forms@);
        let mut offered: Vec<Self> = Vec::new();
        let mut i: usize = 0;
        assert(all.take(0) =~= Seq::empty());
        while i < forms.len()
            invariant
                i <= forms@.len(),
                all == texts(forms@),
                offered@ == offers_of(all.take(i as int)),
            decreases forms@.len() - i,
        {
            proof {
                assert(all.take(i + 1).drop_last() =~= all.take(i as int));
                assert(all.take(i + 1).last() == forms@[i as int]@);
            }
            match Self::parse_one(forms[i]) {
                Some(transport) => {
                    offered.push(transport);
                },
                None => {},
            }
            i = i + 1;
        }
        assert(all.take(i as int) =~= all);
        offered
    }

    fn parse_one(form: &[char]) -> (transport: Option<Self>)
        ensures
            transport == offer_of(form@),
    {
        let parts = split_at_each(form, ';');
        let ghost all = texts(parts@);
        assert(all.len() > 0 && all[0] == parts@[0]@);
        let protocol = trim_chars(parts[0], Edge::Whitespace);
        if !has_start(protocol, "RTP/AVP") {
            return None;
        }
        let interleaved: bool = has_end(protocol, "/TCP");
        let mut ports: Option<(u16, u16)> = None;
        let mut channels: Option<(u16, u16)> = None;
        let mut multicast: bool = false;
        let ghost parameters = all.drop_first();
        let mut i: usize = 1;
        assert(parameters.take(0) =~= Seq::empty());
        while i < parts.len()
            invariant
                1 <= i <= parts@.len(),
                parameters == texts(parts@).drop_first(),
                ports == parameter(parameters.take(i - 1), "client_port"@),
                channels == parameter(parameters.take(i - 1), "interleaved"@),
                multicast == asks_for_multicast(parameters.take(i - 1)),
            decreases parts@.len() - i,
        {
            let part = trim_chars(parts[i], Edge::Whitespace);
            let ghost before = parameters.take(i - 1);
            let ghost now = parameters.take(i as int);
            proof {
                assert(now.drop_last() =~= before);
                assert(now.last() == parts@[i as int]@);
                lemma_multicast_so_far(now);
            }
            match split_at_first(part, '=') {
                Some((name, value)) => {
                    if same_chars(name, "interleaved") {
                        channels = pair(value);
                    } else if same_chars(name, "client_port") {
                        ports = pair(value);
                    }
                    proof {
                        lemma_parameters_are_apart();
                    }
                },
                None => {},
            }
            // Nothing that is `multicast` has an equals sign in it.
            if same_chars(part, "multicast") {
                multicast = true;
            }
            i = i + 1;
        }
        assert(parameters.take(i - 1) =~= parameters);
        // Every reader here is one client on one connection. Multicast is a
        // different shape of stream, not a different address for this one.
        if multicast {
            return None;
        }
        if interleaved {
            match channels {
                Some((rtp, rtcp)) => if rtp <= 0xff && rtcp <= 0xff {
                    Some(Self::Interleaved { rtp: rtp as u8, rtcp: rtcp as u8 })
                } else {
                    None
                },
                None => None,
            }
        } else {
            match ports {
                Some((rtp, rtcp)) => Some(Self::Udp { rtp, rtcp }),
                None => None,
            }
        }
    }

    /// Writes the header a `SETUP` is answered with.
    pub fn to_header(self, server: Option<(u16, u16)>) -> (header: String)
        ensures
            header@ == transport_header(self, server),
    {
        let mut header = String::new();
        match self {
            Self::Interleaved { rtp, rtcp } => {
                push_text(&mut header, "RTP/AVP/TCP;unicast;interleaved=");
                push_pair(&mut header, rtp as u16, rtcp as u16);
            },
            Self::Udp { rtp, rtcp } => {
                push_text(&mut header, "RTP/AVP;unicast;client_port=");
                push_pair(&mut header, rtp, rtcp);
                match server {
                    Some((rtp, rtcp)) => {
                        push_text(&mut header, ";server_port=");
                        push_pair(&mut header, rtp, rtcp);
                    },
                    None => {},
                }
            },
        }
        assert(header@ =~= transport_header(self, server));
        header
    }
}

proof fn lemma_multicast_so_far(parts: Seq<Seq<char>>)
    requires
        parts.len() > 0,
    ensures
        asks_for_multicast(parts) == (asks_for_multicast(parts.drop_last()) || trim(
            parts.last(),
            Edge::Whitespace,
        ) == "multicast"@),
{
    let fewer = parts.drop_last();
    if asks_for_multicast(fewer) {
        let i = choose|i: int|
            0 <= i < fewer.len() && trim(#[trigger] fewer[i], Edge::Whitespace) == "multicast"@;
        assert(parts[i] == fewer[i]);
    }
    if asks_for_multicast(parts) {
        let i = choose|i: int|
            0 <= i < parts.len() && trim(#[trigger] parts[i], Edge::Whitespace) == "multicast"@;
        if i < fewer.len() {
            assert(fewer[i] == parts[i]);
        }
    }
}

proof fn lemma_parameters_are_apart()
    ensures
        "interleaved"@ != "client_port"@,
{
    reveal_strlit("interleaved");
    reveal_strlit("client_port");
    assert("interleaved"@[0] != "client_port"@[0]);
}

/// Reads `a-b`, which is how both channels and ports are written.
fn pair(value: &[char]) -> (numbers: Option<(u16, u16)>)
    ensures
        numbers == pair_of(value@),
{
    match split_at_first(value, '-') {
        Some((first, second)) => match (
            read_number(trim_chars(first, Edge::Whitespace), 0xffff),
            read_number(trim_chars(second, Edge::Whitespace), 0xffff),
        ) {
            (Some(first), Some(second)) => Some((first as u16, second as u16)),
            _ => None,
        },
        None => None,
    }
}

/// Appends `a-b`.
fn push_pair(text: &mut String, first: u16, second: u16)
    ensures
        final(text)@ == old(text)@ + decimal(first as nat) + "-"@ + decimal(second as nat),
{
    push_decimal(text, first as u64);
    push_text(text, "-");
    push_decimal(text, second as u64);
}

/// A pair that was written reads back.
proof fn lemma_pair_reads(first: u16, second: u16)
    ensures
        pair_of(decimal(first as nat) + "-"@ + decimal(second as nat)) == Some((first, second)),
{
    let (a, b) = (decimal(first as nat), decimal(second as nat));
    lemma_decimal_reads(first as nat);
    lemma_decimal_reads(second as nat);
    reveal_strlit("-");
    assert(a + "-"@ + b =~= a.push('-') + b);
    lemma_split_joined(a, '-', b);
    assert(trim(a, Edge::Whitespace) == a);
    assert(trim(b, Edge::Whitespace) == b);
}

/// A parameter as it is written.
spec fn written(name: Seq<char>, first: u16, second: u16) -> Seq<char> {
    name.push('=') + (decimal(first as nat) + "-"@ + decimal(second as nat))
}

/// Whether a text is letters, digits, underscores and slashes.
spec fn plain(text: Seq<char>) -> bool {
    text.len() > 0 && forall|i: int|
        0 <= i < text.len() ==> ('a' <= #[trigger] text[i] <= 'z' || 'A' <= text[i] <= 'Z'
            || text[i] == '_' || text[i] == '/')
}

/// What a parameter that was written has in it: nothing that parameters and
/// forms are split at, and nothing to trim.
proof fn lemma_written(name: Seq<char>, first: u16, second: u16)
    requires
        plain(name),
    ensures
        lacks(written(name, first, second), ';'),
        lacks(written(name, first, second), ','),
        written(name, first, second).len() > 0,
        trim(written(name, first, second), Edge::Whitespace) == written(name, first, second),
        split_once(written(name, first, second), '=') == Some(
            (name, decimal(first as nat) + "-"@ + decimal(second as nat)),
        ),
        pair_of(decimal(first as nat) + "-"@ + decimal(second as nat)) == Some((first, second)),
{
    let value = decimal(first as nat) + "-"@ + decimal(second as nat);
    let text = written(name, first, second);
    lemma_decimal_reads(first as nat);
    lemma_decimal_reads(second as nat);
    lemma_pair_reads(first, second);
    reveal_strlit("-");
    assert(lacks(name, '='));
    lemma_split_joined(name, '=', value);
    assert(text.first() == name[0]);
    assert(text.last() == decimal(second as nat).last());
}

/// Parts that were put together with semicolons come apart again.
proof fn lemma_three_parts(a: Seq<char>, b: Seq<char>, c: Seq<char>)
    requires
        lacks(a, ';'),
        lacks(b, ';'),
        lacks(c, ';'),
    ensures
        parts_between(a.push(';') + (b.push(';') + c), ';') == seq![a, b, c],
{
    lemma_split_joined(a, ';', b.push(';') + c);
    lemma_split_joined(b, ';', c);
    lemma_unsplit(c, ';');
    assert(seq![a] + (seq![b] + seq![c]) =~= seq![a, b, c]);
}

/// What is not `multicast` after trimming does not ask for it.
proof fn lemma_unicast(name: Seq<char>, first: u16, second: u16)
    requires
        plain(name),
        name[0] != 'm',
    ensures
        trim("unicast"@, Edge::Whitespace) == "unicast"@,
        "unicast"@ != "multicast"@,
        split_once("unicast"@, '=') is None,
        written(name, first, second) != "multicast"@,
{
    reveal_strlit("unicast");
    reveal_strlit("multicast");
    assert("unicast"@[0] != "multicast"@[0]);
    assert(written(name, first, second)[0] == name[0]);
    lemma_unsplit("unicast"@, '=');
}

proof fn lemma_interleaved_header(rtp: u8, rtcp: u8)
    ensures
        offer_of(transport_header(Transport::Interleaved { rtp, rtcp }, None)) == Some(
            Transport::Interleaved { rtp, rtcp },
        ),
        lacks(transport_header(Transport::Interleaved { rtp, rtcp }, None), ','),
{
    law_channels_fit_a_byte(rtp as u16, rtcp as u16);
    reveal_strlit("RTP/AVP/TCP;unicast;interleaved=");
    reveal_strlit("-");
    lemma_decimal_reads(rtp as nat);
    lemma_decimal_reads(rtcp as nat);
}

/// Channels on the connection are offered as a pair of numbers, each of one byte: a
/// pair that does not fit is no offer.
#[verifier::spinoff_prover]
#[verifier::rlimit(30)]
pub proof fn law_channels_fit_a_byte(rtp: u16, rtcp: u16)
    ensures
        offer_of(
            "RTP/AVP/TCP;unicast;interleaved="@ + decimal(rtp as nat) + "-"@ + decimal(rtcp as nat),
        ) == if rtp <= 255 && rtcp <= 255 {
            Some(Transport::Interleaved { rtp: rtp as u8, rtcp: rtcp as u8 })
        } else {
            None
        },
{
    let header = "RTP/AVP/TCP;unicast;interleaved="@ + decimal(rtp as nat) + "-"@ + decimal(
        rtcp as nat,
    );
    let (protocol, cast, name) = ("RTP/AVP/TCP"@, "unicast"@, "interleaved"@);
    let last = written(name, rtp, rtcp);
    reveal_strlit("RTP/AVP/TCP;unicast;interleaved=");
    reveal_strlit("RTP/AVP/TCP");
    reveal_strlit("RTP/AVP");
    reveal_strlit("/TCP");
    reveal_strlit("unicast");
    reveal_strlit("interleaved");
    assert(plain(name));
    lemma_written(name, rtp, rtcp);
    lemma_unicast(name, rtp, rtcp);
    assert(header =~= protocol.push(';') + (cast.push(';') + last));
    lemma_three_parts(protocol, cast, last);
    assert(protocol.take(7) =~= "RTP/AVP"@);
    assert(protocol.skip(7) =~= "/TCP"@);
    let parameters = seq![protocol, cast, last].drop_first();
    assert(parameters =~= seq![cast, last]);
    assert(!asks_for_multicast(parameters));
    assert(parameter(parameters, name) == Some((rtp, rtcp)));
}

/// What the parameters of a UDP form read as.
proof fn lemma_client_port(rtp: u16, rtcp: u16)
    ensures
        plain("client_port"@),
        !asks_for_multicast(seq!["unicast"@, written("client_port"@, rtp, rtcp)]),
        parameter(seq!["unicast"@, written("client_port"@, rtp, rtcp)], "client_port"@) == Some(
            (rtp, rtcp),
        ),
{
    let name = "client_port"@;
    reveal_strlit("client_port");
    assert(plain(name));
    lemma_written(name, rtp, rtcp);
    lemma_unicast(name, rtp, rtcp);
}

/// A UDP form, as `RTP/AVP` and some parameters after it.
#[verifier::spinoff_prover]
#[verifier::rlimit(30)]
proof fn lemma_udp_form(rest: Seq<char>, parameters: Seq<Seq<char>>, rtp: u16, rtcp: u16)
    requires
        parts_between(rest, ';') == parameters,
        !asks_for_multicast(parameters),
        parameter(parameters, "client_port"@) == Some((rtp, rtcp)),
    ensures
        offer_of("RTP/AVP"@.push(';') + rest) == Some(Transport::Udp { rtp, rtcp }),
{
    let protocol = "RTP/AVP"@;
    reveal_strlit("RTP/AVP");
    reveal_strlit("/TCP");
    assert(protocol.take(7) =~= "RTP/AVP"@);
    assert(protocol.skip(3)[1] != "/TCP"@[1]);
    lemma_split_joined(protocol, ';', rest);
    assert((seq![protocol] + parameters).drop_first() =~= parameters);
    assert(trim(protocol, Edge::Whitespace) == protocol);
}

#[verifier::spinoff_prover]
#[verifier::rlimit(30)]
proof fn lemma_udp_header(rtp: u16, rtcp: u16)
    ensures
        offer_of(transport_header(Transport::Udp { rtp, rtcp }, None)) == Some(
            Transport::Udp { rtp, rtcp },
        ),
        lacks(transport_header(Transport::Udp { rtp, rtcp }, None), ','),
        transport_header(Transport::Udp { rtp, rtcp }, None) == "RTP/AVP"@.push(';') + (
        "unicast"@.push(';') + written("client_port"@, rtp, rtcp)),
{
    let header = transport_header(Transport::Udp { rtp, rtcp }, None);
    let (cast, name) = ("unicast"@, "client_port"@);
    let last = written(name, rtp, rtcp);
    lemma_client_port(rtp, rtcp);
    lemma_written(name, rtp, rtcp);
    assert(header =~= "RTP/AVP"@.push(';') + (cast.push(';') + last)) by {
        reveal_strlit("RTP/AVP;unicast;client_port=");
        reveal_strlit("RTP/AVP");
        reveal_strlit("unicast");
        reveal_strlit("client_port");
    }
    reveal_strlit("RTP/AVP");
    reveal_strlit("unicast");
    lemma_split_joined(cast, ';', last);
    lemma_unsplit(last, ';');
    assert(seq![cast] + seq![last] =~= seq![cast, last]);
    lemma_udp_form(cast.push(';') + last, seq![cast, last], rtp, rtcp);
}

/// The parameters of a UDP form as they are written, the server's ports last.
spec fn parameters_text(rtp: u16, rtcp: u16, ours: u16, reports: u16) -> Seq<char> {
    "unicast"@.push(';') + (written("client_port"@, rtp, rtcp).push(';') + written(
        "server_port"@,
        ours,
        reports,
    ))
}

/// How a UDP form with the server's ports is put together.
proof fn lemma_header_with_ports(rtp: u16, rtcp: u16, ours: u16, reports: u16)
    ensures
        transport_header(Transport::Udp { rtp, rtcp }, Some((ours, reports))) == "RTP/AVP"@.push(
            ';',
        ) + parameters_text(rtp, rtcp, ours, reports),
        lacks(transport_header(Transport::Udp { rtp, rtcp }, Some((ours, reports))), ','),
{
    let header = transport_header(Transport::Udp { rtp, rtcp }, Some((ours, reports)));
    let start = transport_header(Transport::Udp { rtp, rtcp }, None);
    let extra = written("server_port"@, ours, reports);
    lemma_udp_header(rtp, rtcp);
    assert(header =~= start.push(';') + extra) by {
        reveal_strlit(";server_port=");
        reveal_strlit("server_port");
    }
    assert(plain("server_port"@)) by {
        reveal_strlit("server_port");
    }
    lemma_written("server_port"@, ours, reports);
    assert(start.push(';') + extra =~= "RTP/AVP"@.push(';') + parameters_text(
        rtp,
        rtcp,
        ours,
        reports,
    ));
}

/// What the parameters of a UDP form with the server's ports read as.
#[verifier::spinoff_prover]
#[verifier::rlimit(30)]
proof fn lemma_parameters_with_ports(rtp: u16, rtcp: u16, ours: u16, reports: u16)
    ensures
        ({
            let parameters = seq![
                "unicast"@,
                written("client_port"@, rtp, rtcp),
                written("server_port"@, ours, reports),
            ];
            &&& parts_between(parameters_text(rtp, rtcp, ours, reports), ';') == parameters
            &&& !asks_for_multicast(parameters)
            &&& parameter(parameters, "client_port"@) == Some((rtp, rtcp))
        }),
{
    let (cast, name, other) = ("unicast"@, "client_port"@, "server_port"@);
    let last = written(name, rtp, rtcp);
    let extra = written(other, ours, reports);
    lemma_client_port(rtp, rtcp);
    lemma_written(name, rtp, rtcp);
    assert(plain(other) && other[0] == 's') by {
        reveal_strlit("server_port");
    }
    lemma_written(other, ours, reports);
    lemma_unicast(other, ours, reports);
    assert(lacks(cast, ';')) by {
        reveal_strlit("unicast");
    }
    lemma_three_parts(cast, last, extra);
    let parameters = seq![cast, last, extra];
    let fewer = seq![cast, last];
    assert(parameters.drop_last() =~= fewer);
    lemma_multicast_so_far(parameters);
    assert(other != name) by {
        reveal_strlit("client_port");
    }
    assert(parameter(parameters, name) == parameter(fewer, name));
}

proof fn lemma_udp_header_with_ports(rtp: u16, rtcp: u16, ours: u16, reports: u16)
    ensures
        offer_of(transport_header(Transport::Udp { rtp, rtcp }, Some((ours, reports)))) == Some(
            Transport::Udp { rtp, rtcp },
        ),
{
    lemma_header_with_ports(rtp, rtcp, ours, reports);
    lemma_parameters_with_ports(rtp, rtcp, ours, reports);
    lemma_udp_form(
        parameters_text(rtp, rtcp, ours, reports),
        seq![
            "unicast"@,
            written("client_port"@, rtp, rtcp),
            written("server_port"@, ours, reports),
        ],
        rtp,
        rtcp,
    );
}

/// A transport that was written into the header of an answer reads back from
/// it, as the one form that is there.
pub proof fn law_transport_headers_round_trip(transport: Transport, server: Option<(u16, u16)>)
    ensures
        offers(transport_header(transport, server)) == seq![transport],
{
    let header = transport_header(transport, server);
    match transport {
        Transport::Interleaved { rtp, rtcp } => {
            lemma_interleaved_header(rtp, rtcp);
        },
        Transport::Udp { rtp, rtcp } => match server {
            Some((ours, reports)) => {
                lemma_header_with_ports(rtp, rtcp, ours, reports);
                lemma_udp_header_with_ports(rtp, rtcp, ours, reports);
            },
            None => {
                lemma_udp_header(rtp, rtcp);
            },
        },
    }
    lemma_unsplit(header, ',');
    assert(seq![header].drop_last() =~= Seq::empty());
    assert(offers_of(Seq::empty()) =~= Seq::empty());
    assert(offers(header) =~= seq![transport]);
}

} // verus!

//! What an RTSP connection means, with the socket left out.
//!
//! Requests go in and what to do about them comes back: an answer to write,
//! a stream to attach to, a session to end. As on the RTMP side it holds no
//! socket and waits for nothing, so a whole play can be driven in a test.
//!
//! # The exchange
//!
//! ```text
//! OPTIONS                       ──▶  the methods this answers
//! DESCRIBE rtsp://h/live/cam1   ──▶  the SDP, and the base its controls
//!                                    are relative to
//! SETUP    …/trackID=0          ──▶  a session id, and the transport agreed
//! SETUP    …/trackID=1          ──▶  the same session, a second track
//! PLAY     rtsp://h/live/cam1   ──▶  Play { path, tracks }, and packets
//!                                    start
//! TEARDOWN                      ──▶  Teardown
//! ```
//!
//! # Nothing here fails
//!
//! A request this cannot answer is answered with a status saying so, not
//! with an error that ends the connection. RTSP is a conversation: a client
//! that asks for a path which does not exist, or a transport this cannot
//! provide, is expected to be told and to ask for something else. Only bytes
//! that are not RTSP at all end a connection, and that is decided one layer
//! down in [`super::message`].
//!
//! # Why the session asks for a description rather than holding one
//!
//! `DESCRIBE` needs to know what a path is, and what a path is lives in a
//! registry full of channels and locks. Taking a lookup as an argument keeps
//! that on the far side of this module's edge: what arrives here is a
//! description or nothing, and the answer is the same either way.

use crate::buffer::{be32, lemma_be32, lemma_widths, text_bytes, Contents};
use crate::rtsp::message::{
    bare_response, header, offers, transport_header, Method, MethodView, Request, RequestView,
    Response, ResponseView, Status, Transport,
};
use crate::rtsp::sdp;
use crate::rtsp::sdp::{control_of, sdp_text};
use crate::splitmix::{law_spreading_keeps_counters_apart, spread, spread_out};
use crate::text::{
    before, characters, decimal, hex_byte, hex_text, lacks, lemma_decimal_reads, lemma_split_joined,
    lemma_unsplit, number_of, position, push_decimal, push_hex, push_text, read_number,
    same_but_case, same_ignoring_case, same_text, split_at_first, split_once, text_of, trim,
    trim_chars, trim_end, trim_start, Edge,
};
use crate::track::{CodecView, Description, TrackId};
use std::sync::Arc;
use vstd::prelude::*;
use vstd::slice::slice_subrange;
use vstd::utf8::encode_utf8;

verus! {

broadcast use lemma_widths;

/// The methods this answers, as `OPTIONS` reports them.
pub const PUBLIC: &'static str = "OPTIONS, DESCRIBE, SETUP, PLAY, PAUSE, TEARDOWN, GET_PARAMETER";

/// How long a client may go without a word before its session may be
/// dropped. Written into the `Session` header so a client knows to send
/// `GET_PARAMETER` if it has nothing else to say.
pub const TIMEOUT: u32 = 60;

/// One track a client has asked for, and where it wants it.
#[derive(Clone, Copy, Debug, PartialEq, Eq)]
pub struct Setup {
    pub track: TrackId,
    pub transport: Transport,
}

/// What a [`Setup`] says.
pub struct SetupView {
    pub track: nat,
    pub transport: Transport,
}

impl View for Setup {
    type V = SetupView;

    open spec fn view(&self) -> SetupView {
        SetupView { track: self.track.spec_index(), transport: self.transport }
    }
}

/// What each of a list of setups says.
pub open spec fn setups(tracks: Seq<Setup>) -> Seq<SetupView> {
    tracks.map_values(|setup: Setup| setup@)
}

/// What the session wants done.
#[derive(Clone, Debug, PartialEq, Eq)]
pub enum Action {
    /// Write this answer.
    Respond(Box<Response>),
    /// Attach to this path and start sending the tracks that were set up.
    ///
    /// Follows the answer that tells the client the same thing, because a
    /// packet arriving before the response to `PLAY` is a packet for a
    /// stream the client has not been told has started.
    Play { path: String, tracks: Vec<Setup> },
    /// Stop sending, and keep the session.
    Pause,
    /// The session is over.
    Teardown,
}

/// What an [`Action`] asks for.
pub enum ActionView {
    Respond(ResponseView),
    Play { path: Seq<char>, tracks: Seq<SetupView> },
    Pause,
    Teardown,
}

impl View for Action {
    type V = ActionView;

    open spec fn view(&self) -> ActionView {
        match *self {
            Action::Respond(response) => ActionView::Respond(response@),
            Action::Play { path, tracks } => ActionView::Play { path: path@, tracks: setups(tracks@) },
            Action::Pause => ActionView::Pause,
            Action::Teardown => ActionView::Teardown,
        }
    }
}

/// What each of a list of actions asks for.
pub open spec fn actions(list: Seq<Action>) -> Seq<ActionView> {
    list.map_values(|action: Action| action@)
}

/// How far a session is.
#[derive(Clone, Copy, Debug, PartialEq, Eq, Structural)]
pub enum State {
    /// Nothing has been set up.
    Init,
    /// At least one track has, and the client has not said to start.
    Ready,
    /// Sending.
    Playing,
}

/// One RTSP connection's state.
pub struct Session {
    state: State,
    id: String,
    /// The path every request on this connection has to name, once one has.
    /// `DESCRIBE` and `SETUP` are held to it; the others act on what those
    /// named.
    path: Option<String>,
    tracks: Vec<Setup>,
    udp: bool,
}

/// What a [`Session`] is.
pub struct SessionView {
    pub state: State,
    pub id: Seq<char>,
    /// The path every request on this connection has to name, once one has.
    pub path: Option<Seq<char>>,
    pub tracks: Seq<SetupView>,
    /// Whether a track may be set up over UDP.
    pub udp: bool,
}

impl View for Session {
    type V = SessionView;

    closed spec fn view(&self) -> SessionView {
        SessionView {
            state: self.state,
            id: self.id@,
            path: match self.path {
                Some(path) => Some(path@),
                None => None,
            },
            tracks: setups(self.tracks@),
            udp: self.udp,
        }
    }
}

/// The id of the session with a number: eight hex digits, which its low 32 bits
/// decide, spread out so that consecutive connections do not get consecutive
/// ids.
pub open spec fn session_id(number: u64) -> Seq<char> {
    hex_text(be32(spread_out((number % 0x1_0000_0000) as u32) as int))
}

/// A connection that has said nothing yet.
pub open spec fn fresh_session(number: u64) -> SessionView {
    SessionView {
        state: State::Init,
        id: session_id(number),
        path: None,
        tracks: Seq::empty(),
        udp: true,
    }
}

/// Whether a scheme ends at `at`: a colon and two slashes.
pub open spec fn scheme_ends(uri: Seq<char>, at: int) -> bool {
    at + 3 <= uri.len() && uri[at] == ':' && uri[at + 1] == '/' && uri[at + 2] == '/'
}

/// Where a scheme ends at or after `from`.
pub open spec fn scheme_end(uri: Seq<char>, from: int) -> Option<int>
    decreases uri.len() - from,
{
    if from + 3 > uri.len() {
        None
    } else if scheme_ends(uri, from) {
        Some(from)
    } else {
        scheme_end(uri, from + 1)
    }
}

/// What follows the authority of a URI, which ends at the first slash; or all
/// of it, where it has no scheme and so no authority.
pub open spec fn after_authority(uri: Seq<char>) -> Seq<char> {
    match scheme_end(uri, 0) {
        Some(at) => match split_once(uri.skip(at + 3), '/') {
            Some((_, path)) => path,
            None => Seq::empty(),
        },
        None => uri,
    }
}

/// The path part of a URI: not the scheme, the host, the query or the slashes
/// around it.
pub open spec fn path_in(uri: Seq<char>) -> Seq<char> {
    trim(before(after_authority(uri), '?'), Edge::Slash)
}

/// Where the last slash of a text is.
pub open spec fn last_slash(text: Seq<char>) -> Option<int>
    decreases text.len(),
{
    if text.len() == 0 {
        None
    } else if text.last() == '/' {
        Some(text.len() - 1)
    } else {
        last_slash(text.drop_last())
    }
}

/// Whether a name is one that clients write for a track.
pub open spec fn names_a_track(name: Seq<char>) -> bool {
    same_but_case(name, "trackid"@) || same_but_case(name, "streamid"@) || same_but_case(
        name,
        "track"@,
    )
}

/// The stream and the track that a path names: its last segment is a track
/// where it is a track's name, an equals sign and a number.
pub open spec fn stream_and_track(path: Seq<char>) -> (Seq<char>, Option<nat>) {
    match last_slash(path) {
        None => (path, None),
        Some(at) => match split_once(path.skip(at + 1), '=') {
            None => (path, None),
            Some((name, index)) => match number_of(index, usize::MAX as nat) {
                Some(index) if names_a_track(name) => (path.take(at), Some(index)),
                _ => (path, None),
            },
        },
    }
}

/// What the controls of a description are relative to: the URI that it was
/// asked for by, ending in one slash.
pub open spec fn content_base(uri: Seq<char>) -> Seq<char> {
    trim_end(uri, Edge::Slash).push('/')
}

/// An answer with the sequence number it answers.
pub open spec fn reply_to(request: RequestView, status: Status) -> ResponseView {
    bare_response(status).with(
        "CSeq"@,
        match request.sequence() {
            Some(sequence) => sequence,
            None => "0"@,
        },
    )
}

/// The first transport of a list that a session takes.
pub open spec fn first_taken(offered: Seq<Transport>, udp: bool) -> Option<Transport>
    decreases offered.len(),
{
    if offered.len() == 0 {
        None
    } else if udp || offered.first() is Interleaved {
        Some(offered.first())
    } else {
        first_taken(offered.drop_first(), udp)
    }
}

/// Whether a path is another than the one a session is about.
pub open spec fn strays(session: SessionView, path: Seq<char>) -> bool {
    session.path is Some && session.path != Some(path)
}

/// The path a request asks the description of, where it asks for one.
pub open spec fn asked_for(session: SessionView, request: RequestView) -> Option<Seq<char>> {
    match request.method {
        MethodView::Describe => {
            let path = path_in(request.uri);
            if strays(session, path) {
                None
            } else {
                Some(path)
            }
        },
        MethodView::Setup => {
            let path = stream_and_track(path_in(request.uri)).0;
            if session.state == State::Playing || strays(session, path) {
                None
            } else {
                Some(path)
            }
        },
        _ => None,
    }
}

/// A session and one answer.
pub open spec fn answered(session: SessionView, response: ResponseView) -> (
    SessionView,
    Seq<ActionView>,
) {
    (session, seq![ActionView::Respond(response)])
}

/// What `DESCRIBE` does.
pub open spec fn described(
    session: SessionView,
    request: RequestView,
    found: Option<Seq<CodecView>>,
) -> (SessionView, Seq<ActionView>) {
    let path = path_in(request.uri);
    match found {
        Some(codecs) if !strays(session, path) => {
            let response = reply_to(request, Status(200, "OK")).with(
                "Content-Base"@,
                content_base(request.uri),
            ).with("Content-Type"@, "application/sdp"@);
            answered(
                SessionView { path: Some(path), ..session },
                ResponseView { body: encode_utf8(sdp_text(codecs, path)), ..response },
            )
        },
        _ => answered(session, reply_to(request, Status(404, "Not Found"))),
    }
}

/// The tracks with one more, which is the only one of its index.
pub open spec fn with_setup(tracks: Seq<SetupView>, setup: SetupView) -> Seq<SetupView> {
    tracks.filter(|other: SetupView| other.track != setup.track).push(setup)
}

/// What `SETUP` does.
pub open spec fn set_up(
    session: SessionView,
    request: RequestView,
    found: Option<Seq<CodecView>>,
) -> (SessionView, Seq<ActionView>) {
    let (path, index) = stream_and_track(path_in(request.uri));
    if session.state == State::Playing {
        answered(session, reply_to(request, Status(455, "Method Not Valid In This State")))
    } else if strays(session, path) {
        answered(session, reply_to(request, Status(404, "Not Found")))
    } else if found is None || index is None || index->0 >= found->0.len() {
        answered(session, reply_to(request, Status(404, "Not Found")))
    } else {
        let taken = match header(request.headers, "Transport"@) {
            None => None,
            Some(stated) => first_taken(offers(stated), session.udp),
        };
        match taken {
            None => answered(session, reply_to(request, Status(461, "Unsupported Transport"))),
            Some(transport) => answered(
                SessionView {
                    path: Some(path),
                    tracks: with_setup(session.tracks, SetupView { track: index->0, transport }),
                    state: State::Ready,
                    ..session
                },
                reply_to(request, Status(200, "OK")).with(
                    "Session"@,
                    session.id + ";timeout="@ + decimal(TIMEOUT as nat),
                ).with("Transport"@, transport_header(transport, None)),
            ),
        }
    }
}

/// What `PLAY` does.
pub open spec fn played(session: SessionView, request: RequestView) -> (
    SessionView,
    Seq<ActionView>,
) {
    match session.path {
        Some(path) if session.state != State::Init => (
            SessionView { state: State::Playing, ..session },
            seq![
                ActionView::Respond(
                    reply_to(request, Status(200, "OK")).with("Session"@, session.id),
                ),
                ActionView::Play { path, tracks: session.tracks },
            ],
        ),
        _ => answered(
            session,
            reply_to(request, Status(455, "Method Not Valid In This State")),
        ),
    }
}

/// What `PAUSE` does.
pub open spec fn paused(session: SessionView, request: RequestView) -> (
    SessionView,
    Seq<ActionView>,
) {
    if session.state == State::Playing {
        (
            SessionView { state: State::Ready, ..session },
            seq![
                ActionView::Respond(
                    reply_to(request, Status(200, "OK")).with("Session"@, session.id),
                ),
                ActionView::Pause,
            ],
        )
    } else {
        answered(session, reply_to(request, Status(455, "Method Not Valid In This State")))
    }
}

/// What a request does to a session, and what is to be done about it.
/// `found` is what is published on the path that [`asked_for`] says, if
/// anything is.
pub open spec fn handled(
    session: SessionView,
    request: RequestView,
    found: Option<Seq<CodecView>>,
) -> (SessionView, Seq<ActionView>) {
    match request.method {
        MethodView::Options => answered(
            session,
            reply_to(request, Status(200, "OK")).with("Public"@, PUBLIC@),
        ),
        MethodView::Describe => described(session, request, found),
        MethodView::Setup => set_up(session, request, found),
        MethodView::Play => played(session, request),
        MethodView::Pause => paused(session, request),
        MethodView::Teardown => (
            session,
            seq![
                ActionView::Respond(
                    reply_to(request, Status(200, "OK")).with("Session"@, session.id),
                ),
                ActionView::Teardown,
            ],
        ),
        MethodView::GetParameter => answered(
            session,
            reply_to(request, Status(200, "OK")).with("Session"@, session.id),
        ),
        _ => answered(session, reply_to(request, Status(405, "Method Not Allowed"))),
    }
}

/// The codecs of a description, if there is one.
pub open spec fn codecs_of(found: Option<&Description>) -> Option<Seq<CodecView>> {
    match found {
        Some(description) => Some(description@),
        None => None,
    }
}

/// The codecs of a shared description, if there is one.
pub open spec fn shared_codecs(found: Option<Arc<Description>>) -> Option<Seq<CodecView>> {
    match found {
        Some(description) => Some((*description)@),
        None => None,
    }
}

impl Session {
    /// A connection that has said nothing yet.
    ///
    /// Connections are to be numbered one after another: then no two share an
    /// id, for as many connections as eight hex digits can tell apart. See
    /// [`law_sessions_do_not_share_an_id`].
    pub fn new(number: u64) -> (session: Self)
        ensures
            session@ == fresh_session(number),
    {
        let mixed: u32 = spread((number % 0x1_0000_0000) as u32);
        // Eight hex digits, spread out so that consecutive connections
        // do not get consecutive ids. Nothing depends on them being hard
        // to guess; a client only ever repeats the one it was given.
        let mut id = String::new();
        push_hex(&mut id, (mixed / 0x100_0000) as u8);
        push_hex(&mut id, (mixed / 0x1_0000 % 0x100) as u8);
        push_hex(&mut id, (mixed / 0x100 % 0x100) as u8);
        push_hex(&mut id, (mixed % 0x100) as u8);
        proof {
            let bytes = be32(mixed as int);
            reveal(be32);
            reveal_with_fuel(hex_text, 5);
            assert(id@ =~= hex_text(bytes));
        }
        let session = Self {
            state: State::Init,
            id,
            path: None,
            tracks: Vec::new(),
            udp: true,
        };
        assert(session@.tracks =~= Seq::empty());
        session
    }

    /// Says whether a track may be set up over UDP.
    ///
    /// A server that does not send it says so, and a client that will take
    /// nothing else is answered that its transport is unsupported, which is
    /// what makes it ask again for the connection it already has.
    #[must_use]
    pub fn accepting_udp(self, udp: bool) -> (session: Self)
        ensures
            session@ == (SessionView { udp, ..self@ }),
    {
        Self { udp, ..self }
    }

    /// The session id a client repeats on every request after `SETUP`.
    pub fn id(&self) -> (id: &str)
        ensures
            id@ == self@.id,
    {
        self.id.as_str()
    }

    /// The path this connection is reading, once one has been named.
    pub fn path(&self) -> (path: Option<&str>)
        ensures
            match path {
                Some(path) => self@.path == Some(path@),
                None => self@.path is None,
            },
    {
        match &self.path {
            Some(path) => Some(path.as_str()),
            None => None,
        }
    }

    /// Takes one request and says what to do about it.
    ///
    /// `describe` is asked what a path is, and answers `None` for one
    /// nothing is publishing to. See the module docs on why it is an
    /// argument.
    pub fn handle<F: FnOnce(&str) -> Option<Arc<Description>>>(
        &mut self,
        request: &Request,
        describe: F,
    ) -> (todo: Vec<Action>)
        requires
            forall|path: &str| #[trigger] describe.requires((path,)),
        ensures
            match asked_for(old(self)@, request@) {
                Some(path) => exists|asked: &str, found: Option<Arc<Description>>|
                    {
                        &&& asked@ == path
                        &&& #[trigger] describe.ensures((asked,), found)
                        &&& (final(self)@, actions(todo@)) == handled(
                            old(self)@,
                            request@,
                            shared_codecs(found),
                        )
                    },
                None => (final(self)@, actions(todo@)) == handled(old(self)@, request@, None),
            },
    {
        match self.asks(request) {
            Some(path) => {
                let asked: &str = path.as_str();
                let found = describe(asked);
                match &found {
                    Some(description) => self.answer(request, Some(&**description)),
                    None => self.answer(request, None),
                }
            },
            None => self.answer(request, None),
        }
    }

    /// Whether a path is another than the one this session is about.
    fn is_about_another(&self, path: &str) -> (another: bool)
        ensures
            another == strays(self@, path@),
    {
        match &self.path {
            Some(first) => !same_text(first.as_str(), path),
            None => false,
        }
    }

    /// Which path a request asks the description of, if it asks for one.
    pub fn asks(&self, request: &Request) -> (path: Option<String>)
        ensures
            match path {
                Some(path) => asked_for(self@, request@) == Some(path@),
                None => asked_for(self@, request@) is None,
            },
    {
        match &request.method {
            Method::Describe => {
                let path = path_of(request.uri.as_str());
                if self.is_about_another(path.as_str()) {
                    return None;
                }
                Some(path)
            },
            Method::Setup => {
                let (path, _): (String, Option<usize>) = split_track(
                    path_of(request.uri.as_str()).as_str(),
                );
                match self.state {
                    State::Playing => {
                        return None;
                    },
                    _ => {},
                }
                if self.is_about_another(path.as_str()) {
                    return None;
                }
                Some(path)
            },
            _ => None,
        }
    }

    /// Takes one request, and what is published on the path it asks about,
    /// and says what to do about it.
    pub fn answer(&mut self, request: &Request, found: Option<&Description>) -> (todo: Vec<Action>)
        ensures
            (final(self)@, actions(todo@)) == handled(old(self)@, request@, codecs_of(found)),
    {
        match &request.method {
            Method::Options => {
                let response = reply(request, Status::ok()).with("Public", PUBLIC);
                one_answer(response)
            },
            Method::Describe => self.describe(request, found),
            Method::Setup => self.setup(request, found),
            Method::Play => self.play(request),
            Method::Pause => self.pause(request),
            Method::Teardown => {
                let response = reply(request, Status::ok()).with("Session", self.id.as_str());
                answer_and(response, Action::Teardown)
            },
            // A way of saying nothing, which is what a client sends to show
            // it is still there.
            Method::GetParameter => {
                let response = reply(request, Status::ok()).with("Session", self.id.as_str());
                one_answer(response)
            },
            // This serves streams; it does not take them. RTMP is how one
            // gets in.
            _ => one_answer(reply(request, Status::method_not_allowed())),
        }
    }

    fn describe(&mut self, request: &Request, found: Option<&Description>) -> (todo: Vec<Action>)
        ensures
            (final(self)@, actions(todo@)) == described(old(self)@, request@, codecs_of(found)),
    {
        let path = path_of(request.uri.as_str());
        // A client that names a second path is confused about which stream it
        // is watching, as in `setup`.
        if self.is_about_another(path.as_str()) {
            return one_answer(reply(request, Status::not_found()));
        }
        let description: &Description = match found {
            Some(description) => description,
            None => {
                return one_answer(reply(request, Status::not_found()));
            },
        };
        // What the SDP's relative controls are resolved against. It has to
        // end in a slash, or a client appending `trackID=0` produces the
        // path with the last segment replaced rather than extended.
        let base = base_of(request.uri.as_str());
        let text = sdp::describe(description, path.as_str());
        let response = reply(request, Status::ok()).with("Content-Base", base.as_str()).with_body(
            "application/sdp",
            text_bytes(text),
        );
        self.path = Some(path);
        one_answer(response)
    }

    fn setup(&mut self, request: &Request, found: Option<&Description>) -> (todo: Vec<Action>)
        ensures
            (final(self)@, actions(todo@)) == set_up(old(self)@, request@, codecs_of(found)),
    {
        match self.state {
            // Adding a track to a stream already running would leave the two
            // starting at different moments, and nothing asks for it.
            State::Playing => {
                return one_answer(reply(request, Status::method_not_valid()));
            },
            _ => {},
        }
        let (path, index): (String, Option<usize>) = split_track(
            path_of(request.uri.as_str()).as_str(),
        );
        // Every track of a session comes from one path. A client that named
        // two is confused about which stream it is watching.
        if self.is_about_another(path.as_str()) {
            return one_answer(reply(request, Status::not_found()));
        }
        let description: &Description = match found {
            Some(description) => description,
            None => {
                return one_answer(reply(request, Status::not_found()));
            },
        };
        // Without a track in the URI there is nothing to set up: the client
        // read the SDP and every media section in it named one.
        let tracks = description.tracks();
        let track: TrackId = match index {
            Some(index) => if index < tracks.len() {
                tracks[index].id()
            } else {
                return one_answer(reply(request, Status::not_found()));
            },
            None => {
                return one_answer(reply(request, Status::not_found()));
            },
        };
        let transport: Transport = match self.choose_transport(request) {
            Some(transport) => transport,
            None => {
                return one_answer(reply(request, Status::unsupported_transport()));
            },
        };
        let mut named = String::new();
        push_text(&mut named, self.id.as_str());
        push_text(&mut named, ";timeout=");
        push_decimal(&mut named, TIMEOUT as u64);
        let agreed = transport.to_header(None);
        self.path = Some(path);
        // A client that sets the same track up twice means the second one.
        self.replace(Setup { track, transport });
        self.state = State::Ready;
        one_answer(
            reply(request, Status::ok()).with("Session", named.as_str()).with(
                "Transport",
                agreed.as_str(),
            ),
        )
    }

    /// The first transport a request offers that this session takes.
    fn choose_transport(&self, request: &Request) -> (chosen: Option<Transport>)
        ensures
            chosen == (match header(request@.headers, "Transport"@) {
                None => None,
                Some(stated) => first_taken(offers(stated), self@.udp),
            }),
    {
        let offered: Vec<Transport> = match request.headers.get("Transport") {
            Some(stated) => Transport::offered(stated),
            None => {
                return None;
            },
        };
        let ghost all = offered@;
        let mut i: usize = 0;
        assert(all.skip(0) =~= all);
        while i < offered.len()
            invariant
                i <= offered@.len(),
                all == offered@,
                header(request@.headers, "Transport"@) matches Some(stated) && all == offers(stated),
                self@.udp == self.udp,
                first_taken(all, self.udp) == first_taken(all.skip(i as int), self.udp),
            decreases offered@.len() - i,
        {
            let transport: Transport = offered[i];
            assert(all.skip(i as int).first() == transport);
            assert(all.skip(i as int).drop_first() =~= all.skip(i + 1));
            let interleaved: bool = match transport {
                Transport::Interleaved { .. } => true,
                Transport::Udp { .. } => false,
            };
            if self.udp || interleaved {
                return Some(transport);
            }
            i = i + 1;
        }
        None
    }

    /// Adds a track in place of any of the same index.
    fn replace(&mut self, setup: Setup)
        ensures
            final(self)@ == (SessionView {
                tracks: with_setup(old(self)@.tracks, setup@),
                ..old(self)@
            }),
    {
        let ghost all = self@.tracks;
        let ghost other = |kept: SetupView| kept.track != setup@.track;
        let mut tracks: Vec<Setup> = Vec::new();
        let mut i: usize = 0;
        assert(all.take(0) =~= Seq::empty());
        assert(setups(tracks@) =~= all.take(0).filter(other)) by {
            reveal(Seq::filter);
        }
        while i < self.tracks.len()
            invariant
                i <= self.tracks@.len(),
                all == setups(self.tracks@),
                other == (|kept: SetupView| kept.track != setup@.track),
                setups(tracks@) == all.take(i as int).filter(other),
            decreases self.tracks@.len() - i,
        {
            let ghost before = tracks@;
            proof {
                assert(all.take(i + 1).drop_last() =~= all.take(i as int));
                reveal(Seq::filter);
            }
            let kept: Setup = self.tracks[i];
            if !kept.track.same(setup.track) {
                tracks.push(kept);
                assert(setups(tracks@) =~= setups(before).push(kept@));
            }
            i = i + 1;
        }
        assert(all.take(i as int) =~= all);
        let ghost before = tracks@;
        tracks.push(setup);
        assert(setups(tracks@) =~= setups(before).push(setup@));
        self.tracks = tracks;
    }

    fn play(&mut self, request: &Request) -> (todo: Vec<Action>)
        ensures
            (final(self)@, actions(todo@)) == played(old(self)@, request@),
    {
        let path: String = match (&self.state, &self.path) {
            (State::Ready, Some(path)) => path.clone(),
            (State::Playing, Some(path)) => path.clone(),
            _ => {
                return one_answer(reply(request, Status::method_not_valid()));
            },
        };
        self.state = State::Playing;
        let response = reply(request, Status::ok()).with("Session", self.id.as_str());
        let mut tracks: Vec<Setup> = Vec::new();
        let mut i: usize = 0;
        while i < self.tracks.len()
            invariant
                i <= self.tracks@.len(),
                tracks@ == self.tracks@.take(i as int),
            decreases self.tracks@.len() - i,
        {
            tracks.push(self.tracks[i]);
            i = i + 1;
            assert(tracks@ =~= self.tracks@.take(i as int));
        }
        assert(tracks@ =~= self.tracks@);
        // After the answer, never before: a packet for a stream the
        // client has not been told has started is a packet it discards.
        answer_and(response, Action::Play { path, tracks })
    }

    fn pause(&mut self, request: &Request) -> (todo: Vec<Action>)
        ensures
            (final(self)@, actions(todo@)) == paused(old(self)@, request@),
    {
        match self.state {
            State::Playing => {},
            _ => {
                return one_answer(reply(request, Status::method_not_valid()));
            },
        }
        self.state = State::Ready;
        let response = reply(request, Status::ok()).with("Session", self.id.as_str());
        answer_and(response, Action::Pause)
    }
}

/// An answer with the sequence number it answers, which every one carries.
fn reply(request: &Request, status: Status) -> (response: Response)
    ensures
        response@ == reply_to(request@, status),
{
    let sequence: &str = match request.sequence() {
        Some(sequence) => sequence,
        None => "0",
    };
    Response::new(status).with("CSeq", sequence)
}

/// One answer, and nothing else to do.
fn one_answer(response: Response) -> (todo: Vec<Action>)
    ensures
        actions(todo@) == seq![ActionView::Respond(response@)],
{
    let mut todo: Vec<Action> = Vec::new();
    todo.push(Action::Respond(Box::new(response)));
    assert(actions(todo@) =~= seq![ActionView::Respond(response@)]);
    todo
}

/// One answer, and then one thing to do.
fn answer_and(response: Response, action: Action) -> (todo: Vec<Action>)
    ensures
        actions(todo@) == seq![ActionView::Respond(response@), action@],
{
    let mut todo: Vec<Action> = Vec::new();
    todo.push(Action::Respond(Box::new(response)));
    todo.push(action);
    assert(actions(todo@) =~= seq![ActionView::Respond(response@), action@]);
    todo
}

/// What the controls of a description that was asked for by `uri` are relative
/// to.
fn base_of(uri: &str) -> (base: String)
    ensures
        base@ == content_base(uri@),
{
    let letters = characters(uri);
    let ghost all = letters@;
    let mut to: usize = letters.len();
    assert(all.take(to as int) =~= all);
    while to > 0 && letters[to - 1] == '/'
        invariant
            to <= letters@.len(),
            all == letters@,
            trim_end(all, Edge::Slash) == trim_end(all.take(to as int), Edge::Slash),
        decreases to,
    {
        assert(all.take(to as int).drop_last() =~= all.take(to - 1));
        to = to - 1;
    }
    let kept = slice_subrange(letters.as_slice(), 0, to);
    assert(kept@ =~= all.take(to as int));
    let mut base = text_of(kept);
    base.push('/');
    base
}

/// The path part of a request URI, without the scheme, the host or the
/// slashes around it.
///
/// `rtsp://host:8554/live/cam1/` becomes `live/cam1`. A URI that is not
/// absolute is taken as a path already, which is what `OPTIONS *` and a few
/// clients send.
pub fn path_of(uri: &str) -> (path: String)
    ensures
        path@ == path_in(uri@),
{
    let letters = characters(uri);
    let all: &[char] = letters.as_slice();
    let path: &[char] = match find_scheme_end(all) {
        // Past the authority, which ends at the first slash.
        Some(at) => {
            let length: usize = all.len();
            let rest = slice_subrange(all, at + 3, length);
            assert(rest@ =~= uri@.skip(at + 3));
            match split_at_first(rest, '/') {
                Some((_, path)) => path,
                None => {
                    let none = slice_subrange(all, 0, 0);
                    assert(none@ =~= Seq::empty());
                    none
                },
            }
        },
        None => all,
    };
    assert(path@ == after_authority(uri@));
    // A query is a token or a hint, not part of the name, for the same reason
    // RTMP's stream keys lose theirs.
    let end: usize = position(path, '?');
    let path = slice_subrange(path, 0, end);
    assert(path@ =~= before(after_authority(uri@), '?'));
    text_of(trim_chars(path, Edge::Slash))
}

fn find_scheme_end(uri: &[char]) -> (at: Option<usize>)
    ensures
        match at {
            Some(at) => scheme_end(uri@, 0) == Some(at as int) && at + 3 <= uri@.len(),
            None => scheme_end(uri@, 0) is None,
        },
{
    let mut at: usize = 0;
    while uri.len() - at >= 3
        invariant
            at <= uri@.len(),
            scheme_end(uri@, 0) == scheme_end(uri@, at as int),
        decreases uri@.len() - at,
    {
        if uri[at] == ':' && uri[at + 1] == '/' && uri[at + 2] == '/' {
            return Some(at);
        }
        at = at + 1;
    }
    None
}

fn find_last_slash(text: &[char]) -> (at: Option<usize>)
    ensures
        match at {
            Some(at) => last_slash(text@) == Some(at as int) && at < text@.len(),
            None => last_slash(text@) is None,
        },
{
    let mut to: usize = text.len();
    assert(text@.take(to as int) =~= text@);
    while to > 0
        invariant
            to <= text@.len(),
            last_slash(text@) == last_slash(text@.take(to as int)),
        decreases to,
    {
        assert(text@.take(to as int).drop_last() =~= text@.take(to - 1));
        if text[to - 1] == '/' {
            return Some(to - 1);
        }
        to = to - 1;
    }
    None
}

/// Splits a `SETUP` path into the stream and the track it names.
///
/// The last segment of a `SETUP` URI is the control the SDP gave that track.
/// Clients write it three ways and mean the same thing by all of them.
pub fn split_track(path: &str) -> (parts: (String, Option<usize>))
    ensures
        parts.0@ == stream_and_track(path@).0,
        match parts.1 {
            Some(index) => stream_and_track(path@).1 == Some(index as nat),
            None => stream_and_track(path@).1 is None,
        },
{
    let letters = characters(path);
    let all: &[char] = letters.as_slice();
    let at: usize = match find_last_slash(all) {
        Some(at) => at,
        None => {
            return (path.to_owned(), None);
        },
    };
    let stream = slice_subrange(all, 0, at);
    let length: usize = all.len();
    let last = slice_subrange(all, at + 1, length);
    assert(stream@ =~= path@.take(at as int));
    assert(last@ =~= path@.skip(at + 1));
    match split_at_first(last, '=') {
        Some((name, index)) => {
            let name = text_of(name);
            let known: bool = same_ignoring_case(name.as_str(), "trackid") || same_ignoring_case(
                name.as_str(),
                "streamid",
            ) || same_ignoring_case(name.as_str(), "track");
            match read_number(index, usize::MAX as u64) {
                Some(index) if known => (text_of(stream), Some(index as usize)),
                _ => (path.to_owned(), None),
            }
        },
        None => (path.to_owned(), None),
    }
}

/// Whether a session is one that requests can lead to: it has tracks exactly
/// when it has been set up, a path whenever it has tracks, and no track twice.
pub open spec fn well_formed(session: SessionView) -> bool {
    &&& session.state == State::Init <==> session.tracks.len() == 0
    &&& session.tracks.len() > 0 ==> session.path is Some
    &&& forall|i: int, j: int|
        0 <= i < j < session.tracks.len() ==> (#[trigger] session.tracks[i]).track != (
        #[trigger] session.tracks[j]).track
}

/// A session starts as one that requests can lead to, and whatever is asked of
/// it, it stays one.
pub proof fn law_sessions_stay_well_formed(
    number: u64,
    session: SessionView,
    request: RequestView,
    found: Option<Seq<CodecView>>,
)
    requires
        well_formed(session),
    ensures
        well_formed(fresh_session(number)),
        well_formed(handled(session, request, found).0),
{
    if request.method is Setup {
        let after = set_up(session, request, found).0;
        if after.state == State::Ready && after.tracks != session.tracks {
            let setup = after.tracks.last();
            lemma_kept_setups(session.tracks, setup.track);
        }
    }
}

/// The setups of other tracks are kept, each once and in order.
proof fn lemma_kept_setups(tracks: Seq<SetupView>, track: nat)
    requires
        forall|i: int, j: int|
            0 <= i < j < tracks.len() ==> (#[trigger] tracks[i]).track != (
            #[trigger] tracks[j]).track,
    ensures
        ({
            let kept = tracks.filter(|other: SetupView| other.track != track);
            &&& forall|i: int| 0 <= i < kept.len() ==> (#[trigger] kept[i]).track != track
            &&& forall|i: int| 0 <= i < kept.len() ==> tracks.contains(#[trigger] kept[i])
            &&& forall|i: int, j: int|
                0 <= i < j < kept.len() ==> (#[trigger] kept[i]).track != (
                #[trigger] kept[j]).track
        }),
    decreases tracks.len(),
{
    let keep = |other: SetupView| other.track != track;
    reveal(Seq::filter);
    let kept = tracks.filter(keep);
    if tracks.len() > 0 {
        let fewer = tracks.drop_last();
        lemma_kept_setups(fewer, track);
        let before = fewer.filter(keep);
        assert forall|i: int| 0 <= i < before.len() implies (#[trigger] before[i]).track
            != tracks.last().track && tracks.contains(before[i]) by {
            assert(fewer.contains(before[i]));
            let k = choose|k: int| 0 <= k < fewer.len() && fewer[k] == before[i];
            assert(tracks[k] == before[i]);
            assert(tracks[k].track != tracks[tracks.len() - 1].track);
        }
        if keep(tracks.last()) {
            assert(kept =~= before.push(tracks.last()));
            assert(tracks.contains(tracks.last())) by {
                assert(tracks[tracks.len() - 1] == tracks.last());
            }
        } else {
            assert(kept =~= before);
        }
    }
}

/// A byte is two hex digits, and no other byte is the same two.
proof fn lemma_hex_byte(byte: u8)
    ensures
        hex_byte(byte).len() == 2,
        is_hex_digit(hex_byte(byte)[0]) && is_hex_digit(hex_byte(byte)[1]),
        forall|other: u8| #[trigger] hex_byte(other) == hex_byte(byte) ==> other == byte,
{
    assert forall|other: u8| #[trigger] hex_byte(other) == hex_byte(byte) implies other == byte by {
        assert(hex_byte(other)[0] == hex_byte(byte)[0]);
        assert(hex_byte(other)[1] == hex_byte(byte)[1]);
    }
}

/// Bytes are two hex digits each, and no others as many are the same digits.
proof fn lemma_hex_text(bytes: Seq<u8>)
    ensures
        hex_text(bytes).len() == 2 * bytes.len(),
        forall|i: int| 0 <= i < hex_text(bytes).len() ==> is_hex_digit(#[trigger] hex_text(bytes)[i]),
        forall|other: Seq<u8>|
            other.len() == bytes.len() && #[trigger] hex_text(other) == hex_text(bytes) ==> other
                == bytes,
    decreases bytes.len(),
{
    if bytes.len() > 0 {
        lemma_hex_text(bytes.drop_last());
        lemma_hex_byte(bytes.last());
    }
    assert forall|other: Seq<u8>|
        other.len() == bytes.len() && #[trigger] hex_text(other) == hex_text(bytes) implies other
        == bytes by {
        if bytes.len() > 0 {
            let (front, back) = (hex_text(bytes.drop_last()), hex_byte(bytes.last()));
            let (before, after) = (hex_text(other.drop_last()), hex_byte(other.last()));
            assert(front + back == before + after);
            assert(back.len() == 2 && after.len() == 2);
            assert(front.len() == before.len());
            assert(front =~= (front + back).take(front.len() as int));
            assert(before =~= (before + after).take(front.len() as int));
            assert(back =~= (front + back).skip(front.len() as int));
            assert(after =~= (before + after).skip(front.len() as int));
            assert(other.drop_last() == bytes.drop_last());
            assert(other =~= other.drop_last().push(other.last()));
            assert(bytes =~= bytes.drop_last().push(bytes.last()));
        } else {
            assert(other =~= bytes);
        }
    }
}

/// Whether a character is a hexadecimal digit, in lower case.
pub open spec fn is_hex_digit(c: char) -> bool {
    '0' <= c <= '9' || 'a' <= c <= 'f'
}

/// No two connections share an id, so long as their numbers differ in the 32
/// bits that eight hex digits can tell apart: as many connections in a row as
/// there are ids. Every id is eight hex digits in lower case.
pub proof fn law_sessions_do_not_share_an_id(first: u64, second: u64)
    requires
        first % 0x1_0000_0000 != second % 0x1_0000_0000,
    ensures
        session_id(first) != session_id(second),
        session_id(first).len() == 8,
        forall|i: int| 0 <= i < 8 ==> is_hex_digit(#[trigger] session_id(first)[i]),
        fresh_session(first).id == session_id(first),
        fresh_session(first).path is None,
{
    let a = spread_out((first % 0x1_0000_0000) as u32);
    let b = spread_out((second % 0x1_0000_0000) as u32);
    law_spreading_keeps_counters_apart(
        (first % 0x1_0000_0000) as u32,
        (second % 0x1_0000_0000) as u32,
    );
    lemma_be32(a as int);
    lemma_be32(b as int);
    lemma_hex_text(be32(a as int));
    lemma_hex_text(be32(b as int));
}

/// Every request is answered, once and before anything else is done about it.
pub proof fn law_every_request_is_answered_first(
    session: SessionView,
    request: RequestView,
    found: Option<Seq<CodecView>>,
)
    ensures
        ({
            let todo = handled(session, request, found).1;
            &&& 1 <= todo.len() <= 2
            &&& todo[0] is Respond
            &&& todo.len() == 2 ==> todo[1] !is Respond
        }),
{
}

/// Every answer carries the sequence number of the request it answers, or a
/// zero where that had none.
pub proof fn law_answers_carry_their_sequence(
    session: SessionView,
    request: RequestView,
    found: Option<Seq<CodecView>>,
)
    ensures
        handled(session, request, found).1[0] matches ActionView::Respond(response) && header(
            response.headers,
            "CSeq"@,
        ) == (match request.sequence() {
            Some(sequence) => Some(sequence),
            None => Some("0"@),
        }),
{
    let response = handled(session, request, found).1[0]->Respond_0;
    assert(response.headers.first().0 == "CSeq"@);
    assert(same_but_case("CSeq"@, "CSeq"@));
}

/// A request that is refused changes nothing, and ends nothing.
pub proof fn law_refusals_change_nothing(
    session: SessionView,
    request: RequestView,
    found: Option<Seq<CodecView>>,
)
    requires
        handled(session, request, found).1[0] matches ActionView::Respond(response)
            && response.status.0 != 200,
    ensures
        handled(session, request, found).0 == session,
        handled(session, request, found).1.len() == 1,
{
}

/// A path nothing is publishing to is answered as not found, and so is another
/// than the one the session is about.
pub proof fn law_unknown_paths_are_not_found(
    session: SessionView,
    request: RequestView,
    found: Option<Seq<CodecView>>,
)
    requires
        request.method is Describe || request.method is Setup,
        request.method is Setup ==> session.state != State::Playing,
        found is None || (request.method is Describe && strays(session, path_in(request.uri))) || (
        request.method is Setup && strays(session, stream_and_track(path_in(request.uri)).0)),
    ensures
        handled(session, request, found) == answered(
            session,
            reply_to(request, Status(404, "Not Found")),
        ),
{
}

/// Nothing moves a session to another path: the one that plays is the one that
/// every track was set up on.
pub proof fn law_tracks_come_from_one_path(
    session: SessionView,
    request: RequestView,
    found: Option<Seq<CodecView>>,
)
    requires
        session.path is Some,
    ensures
        handled(session, request, found).0.path == session.path,
        handled(session, request, found).0.tracks != session.tracks ==> stream_and_track(
            path_in(request.uri),
        ).0 == session.path->0,
        handled(session, request, found).1.last() matches ActionView::Play { path, tracks }
            ==> path == session.path->0 && tracks == session.tracks,
{
}

/// Setting a track up twice keeps the second answer: the track is there once,
/// with the transport agreed last, and every other is as it was.
pub proof fn law_setting_up_again_replaces(
    session: SessionView,
    request: RequestView,
    found: Option<Seq<CodecView>>,
)
    requires
        well_formed(session),
        request.method is Setup,
        handled(session, request, found).1[0] matches ActionView::Respond(response)
            && response.status.0 == 200,
    ensures
        ({
            let after = handled(session, request, found).0;
            let setup = after.tracks.last();
            &&& after.state == State::Ready
            &&& after.tracks == with_setup(session.tracks, setup)
            &&& Some(setup.track) == stream_and_track(path_in(request.uri)).1
            &&& forall|i: int|
                0 <= i < after.tracks.len() - 1 ==> (#[trigger] after.tracks[i]).track
                    != setup.track && session.tracks.contains(after.tracks[i])
        }),
{
    let after = handled(session, request, found).0;
    lemma_kept_setups(session.tracks, after.tracks.last().track);
}

/// What was set up is what plays, and pausing keeps it: played again, the same
/// tracks of the same path start.
pub proof fn law_pausing_keeps_the_session(session: SessionView, pause: RequestView, play: RequestView)
    requires
        well_formed(session),
        session.state == State::Playing,
        pause.method is Pause,
        play.method is Play,
    ensures
        ({
            let (waiting, told) = handled(session, pause, None);
            let (playing, started) = handled(waiting, play, None);
            &&& told.len() == 2 && told[1] == ActionView::Pause
            &&& playing == session
            &&& started.len() == 2 && started[1] == (ActionView::Play {
                path: session.path->0,
                tracks: session.tracks,
            })
        }),
{
}

/// Nothing plays that was not set up, and nothing is set up in the middle of
/// playing.
pub proof fn law_methods_wait_their_turn(
    session: SessionView,
    request: RequestView,
    found: Option<Seq<CodecView>>,
)
    requires
        (session.state == State::Init && request.method is Play) || (session.state
            == State::Playing && request.method is Setup) || (session.state != State::Playing
            && request.method is Pause),
    ensures
        handled(session, request, found) == answered(
            session,
            reply_to(request, Status(455, "Method Not Valid In This State")),
        ),
{
}

/// A session that does not take UDP never sets a track up over it.
pub proof fn law_udp_only_where_it_is_taken(
    session: SessionView,
    request: RequestView,
    found: Option<Seq<CodecView>>,
    index: int,
)
    requires
        !session.udp,
        forall|i: int|
            0 <= i < session.tracks.len() ==> (#[trigger] session.tracks[i]).transport
                is Interleaved,
        0 <= index < handled(session, request, found).0.tracks.len(),
    ensures
        handled(session, request, found).0.tracks[index].transport is Interleaved,
        !handled(session, request, found).0.udp,
{
    let after = handled(session, request, found).0;
    if request.method is Setup && after.tracks != session.tracks {
        let stated = header(request.headers, "Transport"@)->0;
        lemma_taken_is_interleaved(offers(stated));
        lemma_filter_keeps_members(session.tracks, after.tracks.last().track);
        if index < after.tracks.len() - 1 {
            let kept = session.tracks.filter(
                |other: SetupView| other.track != after.tracks.last().track,
            );
            assert(after.tracks[index] == kept[index]);
        }
    }
}

proof fn lemma_taken_is_interleaved(offered: Seq<Transport>)
    ensures
        first_taken(offered, false) matches Some(transport) ==> transport is Interleaved,
    decreases offered.len(),
{
    if offered.len() > 0 {
        lemma_taken_is_interleaved(offered.drop_first());
    }
}

proof fn lemma_filter_keeps_members(tracks: Seq<SetupView>, track: nat)
    ensures
        ({
            let kept = tracks.filter(|other: SetupView| other.track != track);
            forall|i: int| 0 <= i < kept.len() ==> tracks.contains(#[trigger] kept[i])
        }),
    decreases tracks.len(),
{
    reveal(Seq::filter);
    let keep = |other: SetupView| other.track != track;
    if tracks.len() > 0 {
        let fewer = tracks.drop_last();
        lemma_filter_keeps_members(fewer, track);
        let kept = tracks.filter(keep);
        assert forall|i: int| 0 <= i < kept.len() implies tracks.contains(#[trigger] kept[i]) by {
            let before = fewer.filter(keep);
            if i < before.len() {
                assert(kept[i] == before[i]);
                assert(fewer.contains(before[i]));
                let k = choose|k: int| 0 <= k < fewer.len() && fewer[k] == before[i];
                assert(tracks[k] == kept[i]);
            } else {
                assert(tracks[tracks.len() - 1] == kept[i]);
            }
        }
    }
}

/// A scheme ends where it first does.
proof fn lemma_scheme_end(uri: Seq<char>, from: int)
    requires
        0 <= from,
    ensures
        match scheme_end(uri, from) {
            Some(at) => from <= at && scheme_ends(uri, at) && forall|i: int|
                from <= i < at ==> !(#[trigger] scheme_ends(uri, i)),
            None => forall|i: int| from <= i ==> !(#[trigger] scheme_ends(uri, i)),
        },
    decreases uri.len() - from,
{
    if from + 3 <= uri.len() && !scheme_ends(uri, from) {
        lemma_scheme_end(uri, from + 1);
    }
}

/// What is cut from the end of a text is slashes, and nothing more is left to
/// cut.
proof fn lemma_cut_end(text: Seq<char>)
    ensures
        trim_end(text, Edge::Slash).len() <= text.len(),
        trim_end(text, Edge::Slash) == text.take(trim_end(text, Edge::Slash).len() as int),
        trim_end(text, Edge::Slash).len() > 0 ==> trim_end(text, Edge::Slash).last() != '/',
        forall|i: int| trim_end(text, Edge::Slash).len() <= i < text.len() ==> text[i] == '/',
    decreases text.len(),
{
    if text.len() > 0 && text.last() == '/' {
        lemma_cut_end(text.drop_last());
        assert forall|i: int|
            trim_end(text, Edge::Slash).len() <= i < text.len() implies text[i] == '/' by {
            if i < text.len() - 1 {
                assert(text.drop_last()[i] == '/');
            }
        }
    }
    assert(trim_end(text, Edge::Slash) =~= text.take(trim_end(text, Edge::Slash).len() as int));
}

/// What is cut from the start of a text is slashes, and nothing more is left to
/// cut.
proof fn lemma_cut_start(text: Seq<char>)
    ensures
        trim_start(text, Edge::Slash).len() <= text.len(),
        trim_start(text, Edge::Slash) == text.skip(
            text.len() - trim_start(text, Edge::Slash).len(),
        ),
        trim_start(text, Edge::Slash).len() > 0 ==> trim_start(text, Edge::Slash).first() != '/',
        forall|i: int|
            0 <= i < text.len() - trim_start(text, Edge::Slash).len() ==> text[i] == '/',
    decreases text.len(),
{
    if text.len() > 0 && text.first() == '/' {
        lemma_cut_start(text.drop_first());
        assert forall|i: int|
            0 <= i < text.len() - trim_start(text, Edge::Slash).len() implies text[i] == '/' by {
            if i > 0 {
                assert(text.drop_first()[i - 1] == '/');
            }
        }
    }
    assert(trim_start(text, Edge::Slash) =~= text.skip(
        text.len() - trim_start(text, Edge::Slash).len(),
    ));
}

/// A text with `count` slashes in front, and then something else, is what
/// follows them when they are cut.
proof fn lemma_start_is_cut(text: Seq<char>, count: int)
    requires
        0 <= count < text.len(),
        text[count] != '/',
        forall|i: int| 0 <= i < count ==> text[i] == '/',
    ensures
        trim_start(text, Edge::Slash) == text.skip(count),
    decreases count,
{
    if count > 0 {
        lemma_start_is_cut(text.drop_first(), count - 1);
        assert(text.drop_first().skip(count - 1) =~= text.skip(count));
    } else {
        assert(text.skip(0) =~= text);
    }
}

/// A control put behind a path and a slash stays there when the path's own
/// slashes are cut.
proof fn lemma_control_stays(path: Seq<char>, control: Seq<char>)
    requires
        trim(path, Edge::Slash).len() > 0,
        control.len() > 0,
        lacks(control, '/'),
    ensures
        trim(trim_end(path, Edge::Slash).push('/') + control, Edge::Slash) == trim(
            path,
            Edge::Slash,
        ).push('/') + control,
{
    let start = trim_start(path, Edge::Slash);
    let count = path.len() - start.len();
    lemma_cut_start(path);
    lemma_cut_end(start);
    lemma_cut_end(path);
    let kept = trim_end(path, Edge::Slash);
    let inner = trim(path, Edge::Slash);
    assert(path[count] == start[0]);
    assert(kept.len() > count);
    let last = inner.len() - 1;
    assert(inner[last] == start[last]);
    assert(start[last] == path[count + last]);
    if kept.len() < count + inner.len() {
        assert(path[count + last] == '/');
    }
    if kept.len() > count + inner.len() {
        assert(kept.last() == path[kept.len() - 1]);
        assert(start[kept.len() - 1 - count] == path[kept.len() - 1]);
    }
    let whole = kept.push('/') + control;
    assert forall|i: int| 0 <= i < count implies whole[i] == '/' by {
        assert(whole[i] == path[i]);
    }
    assert(whole[count] == path[count]);
    lemma_start_is_cut(whole, count);
    assert(whole.skip(count) =~= inner.push('/') + control);
    assert(whole.skip(count).last() == control.last());
}

/// The last slash of a text is the one before a part with none.
proof fn lemma_last_slash(before: Seq<char>, last: Seq<char>)
    requires
        lacks(last, '/'),
    ensures
        last_slash(before.push('/') + last) == Some(before.len() as int),
    decreases last.len(),
{
    let text = before.push('/') + last;
    if last.len() > 0 {
        assert(text.last() == last.last());
        assert(text.drop_last() =~= before.push('/') + last.drop_last());
        lemma_last_slash(before, last.drop_last());
    } else {
        assert(text.last() == '/');
    }
}

proof fn lemma_control(index: nat)
    requires
        index <= usize::MAX,
    ensures
        control_of(index).len() > 0,
        lacks(control_of(index), '/'),
        lacks(control_of(index), ':'),
        lacks(control_of(index), '?'),
        forall|stream: Seq<char>| #[trigger]
            stream_and_track(stream.push('/') + control_of(index)) == (stream, Some(index)),
{
    let control = control_of(index);
    let name = "trackID"@;
    let digits = decimal(index);
    lemma_decimal_reads(index);
    reveal_strlit("trackID=");
    reveal_strlit("trackID");
    reveal_strlit("trackid");
    assert(control =~= name.push('=') + digits);
    lemma_split_joined(name, '=', digits);
    assert(same_but_case(name, "trackid"@));
    assert forall|stream: Seq<char>| #[trigger]
        stream_and_track(stream.push('/') + control) == (stream, Some(index)) by {
        let path = stream.push('/') + control;
        lemma_last_slash(stream, control);
        assert(path.skip(stream.len() as int + 1) =~= control);
        assert(path.take(stream.len() as int) =~= stream);
    }
}

/// What is cut from the end of a text is cut from the end of its rest.
proof fn lemma_cut_end_of_rest(text: Seq<char>, from: int)
    requires
        0 <= from < trim_end(text, Edge::Slash).len(),
    ensures
        trim_end(text.skip(from), Edge::Slash) == trim_end(text, Edge::Slash).skip(from),
    decreases text.len(),
{
    lemma_cut_end(text);
    if text.len() > 0 && text.last() == '/' {
        lemma_cut_end(text.drop_last());
        lemma_cut_end_of_rest(text.drop_last(), from);
        assert(text.skip(from).drop_last() =~= text.drop_last().skip(from));
        assert(text.skip(from).last() == text.last());
    } else {
        assert(text.skip(from).last() == text.last());
    }
}

/// A control put behind the base of a URI without a scheme is behind its path.
#[verifier::spinoff_prover]
#[verifier::rlimit(30)]
proof fn lemma_base_extends_a_path(uri: Seq<char>, control: Seq<char>)
    requires
        lacks(uri, '?'),
        path_in(uri).len() > 0,
        control.len() > 0,
        lacks(control, '/'),
        lacks(control, ':'),
        lacks(control, '?'),
        scheme_end(uri, 0) is None,
    ensures
        path_in(content_base(uri) + control) == path_in(uri).push('/') + control,
{
    let kept = trim_end(uri, Edge::Slash);
    let whole = kept.push('/') + control;
    let count = kept.len() as int;
    lemma_cut_end(uri);
    lemma_scheme_end(uri, 0);
    lemma_scheme_end(whole, 0);
    assert(forall|i: int| 0 <= i < count ==> whole[i] == uri[i]);
    assert(lacks(whole, '?'));
    lemma_unsplit(uri, '?');
    assert forall|i: int| 0 <= i implies !(#[trigger] scheme_ends(whole, i)) by {
        if scheme_ends(whole, i) {
            assert(!scheme_ends(uri, i));
            assert(i + 2 >= count);
            assert(whole[i + 1] == '/' && whole[i + 2] == '/');
            assert(i + 1 <= count);
            assert(whole[count] == '/');
            if i + 2 == count {
                assert(whole[count - 1] == kept.last());
            } else {
                assert(whole[count + 1] == control[0]);
            }
        }
    }
    assert(scheme_end(whole, 0) is None);
    lemma_unsplit(whole, '?');
    lemma_control_stays(uri, control);
}

/// A control put behind the base of a URI with a scheme is behind its path.
#[verifier::spinoff_prover]
#[verifier::rlimit(30)]
proof fn lemma_base_extends_the_path_of_a_host(uri: Seq<char>, control: Seq<char>)
    requires
        lacks(uri, '?'),
        path_in(uri).len() > 0,
        control.len() > 0,
        lacks(control, '/'),
        lacks(control, ':'),
        lacks(control, '?'),
        scheme_end(uri, 0) is Some,
    ensures
        path_in(content_base(uri) + control) == path_in(uri).push('/') + control,
{
    let at = scheme_end(uri, 0)->0;
    let kept = trim_end(uri, Edge::Slash);
    let whole = kept.push('/') + control;
    let count = kept.len() as int;
    lemma_cut_end(uri);
    lemma_scheme_end(uri, 0);
    lemma_scheme_end(whole, 0);
    assert(forall|i: int| 0 <= i < count ==> whole[i] == uri[i]);
    assert(lacks(whole, '?'));
    let rest = uri.skip(at + 3);
    let host = before(rest, '/');
    let path = after_authority(uri);
    assert(lacks(path, '?')) by {
        assert forall|i: int| 0 <= i < path.len() implies path[i] != '?' by {
            if host.len() < rest.len() {
                assert(path[i] == uri[at + 3 + host.len() + 1 + i]);
            }
        }
    }
    lemma_unsplit(path, '?');
    assert(trim(path, Edge::Slash).len() > 0);
    assert(host.len() < rest.len()) by {
        if host.len() >= rest.len() {
            assert(trim(Seq::<char>::empty(), Edge::Slash) =~= Seq::empty());
        }
    }
    let from = at + 3 + host.len() + 1;
    assert(path =~= uri.skip(from));
    // The path has more than slashes in it, so the cut ends past its
    // start.
    assert(count > from) by {
        lemma_cut_start(path);
        lemma_cut_end(trim_start(path, Edge::Slash));
        let start = trim_start(path, Edge::Slash);
        assert(start.len() > 0);
        assert(start[0] == uri[from + (path.len() - start.len())]);
    }
    lemma_cut_end_of_rest(uri, from);
    lemma_control_stays(path, control);
    // The scheme and the host are where they were.
    assert(scheme_ends(whole, at));
    assert forall|i: int| 0 <= i < at implies !(#[trigger] scheme_ends(whole, i)) by {
        assert(!scheme_ends(uri, i));
    }
    assert(scheme_end(whole, 0) == Some(at));
    lemma_host(rest);
    let other = whole.skip(at + 3);
    let after = whole.skip(from);
    assert(host =~= rest.take(host.len() as int));
    assert(other =~= host.push('/') + after) by {
        assert(rest[host.len() as int] == '/');
    }
    lemma_split_joined(host, '/', after);
    assert(after =~= kept.skip(from).push('/') + control);
    assert(after_authority(whole) == after);
    assert(lacks(after, '?'));
    lemma_unsplit(after, '?');
}

/// A control put behind the base of a URI is behind the URI's path.
proof fn lemma_base_extends_the_path(uri: Seq<char>, control: Seq<char>)
    requires
        lacks(uri, '?'),
        path_in(uri).len() > 0,
        control.len() > 0,
        lacks(control, '/'),
        lacks(control, ':'),
        lacks(control, '?'),
    ensures
        path_in(content_base(uri) + control) == path_in(uri).push('/') + control,
{
    if scheme_end(uri, 0) is None {
        lemma_base_extends_a_path(uri, control);
    } else {
        lemma_base_extends_the_path_of_a_host(uri, control);
    }
}

/// What is before the first slash has none in it, and is followed by one.
proof fn lemma_host(rest: Seq<char>)
    ensures
        lacks(before(rest, '/'), '/'),
        before(rest, '/').len() <= rest.len(),
        before(rest, '/') == rest.take(before(rest, '/').len() as int),
        before(rest, '/').len() < rest.len() ==> rest[before(rest, '/').len() as int] == '/',
    decreases rest.len(),
{
    if rest.len() > 0 && rest.first() != '/' {
        lemma_host(rest.drop_first());
    }
    assert(before(rest, '/') =~= rest.take(before(rest, '/').len() as int));
}

/// The control that a description gives a track, put behind the base that the
/// answer states, names that track of the path that was described.
///
/// Asked of a URI that has a path. Not of one with a query, which would swallow
/// what is put behind it.
pub proof fn law_controls_name_their_tracks(uri: Seq<char>, index: nat)
    requires
        lacks(uri, '?'),
        path_in(uri).len() > 0,
        index <= usize::MAX,
    ensures
        stream_and_track(path_in(content_base(uri) + control_of(index))) == (
            path_in(uri),
            Some(index),
        ),
{
    lemma_control(index);
    lemma_base_extends_the_path(uri, control_of(index));
}

} // verus!

//! What a session's answers are to the client that asked: which status each
//! request gets, what the answer says, and what it does to the session.

use crate::rtsp::message::{
    header, law_transport_headers_round_trip, offers, RequestView,
    ResponseView, Status, Transport,
};
use crate::rtsp::sdp::sdp_text;
use crate::rtsp::session::{
    after_authority, asked_for, content_base, first_taken, handled, last_slash, path_in,
    scheme_end, scheme_ends, stream_and_track, strays, with_setup, ActionView, SessionView,
    SetupView, State,
};
use crate::text::{
    decimal, lacks, law_numbers_read_back, law_trimming_takes_off_the_edges,
    lemma_decimal_reads, lemma_split_joined, lemma_unsplit, lower, same_but_case, Edge,
};
use crate::track::CodecView;
use vstd::prelude::*;
use vstd::utf8::encode_utf8;

verus! {

/// The answer to a request.
pub open spec fn answer(
    session: SessionView,
    request: RequestView,
    found: Option<Seq<CodecView>>,
) -> ResponseView {
    handled(session, request, found).1[0]->Respond_0
}

/// The status that each method is answered with, by the state the session is in
/// and whether the stream was found.
pub proof fn law_statuses(
    session: SessionView,
    request: RequestView,
    found: Option<Seq<CodecView>>,
)
    ensures
        ({
            let status = answer(session, request, found).status;
            &&& request.method is Options || request.method is GetParameter || request.method
                is Teardown ==> status == Status(200, "OK")
            &&& request.method is Describe ==> status == if found is Some && !strays(
                session,
                path_in(request.uri),
            ) {
                Status(200, "OK")
            } else {
                Status(404, "Not Found")
            }
            &&& request.method is Play ==> status == if session.path is Some && session.state
                != State::Init {
                Status(200, "OK")
            } else {
                Status(455, "Method Not Valid In This State")
            }
            &&& request.method is Pause ==> status == if session.state == State::Playing {
                Status(200, "OK")
            } else {
                Status(455, "Method Not Valid In This State")
            }
            &&& request.method is SetParameter || request.method is Announce || request.method
                is Record || request.method is Other ==> status == Status(
                405,
                "Method Not Allowed",
            )
        }),
{
}

/// What follows an answer: playing starts what was set up on the path, pausing and
/// tearing down say so, and nothing else asks for anything.
pub proof fn law_what_follows_an_answer(
    session: SessionView,
    request: RequestView,
    found: Option<Seq<CodecView>>,
)
    ensures
        ({
            let (after, todo) = handled(session, request, found);
            let ok = answer(session, request, found).status.0 == 200;
            &&& todo.len() == 2 <==> ok && (request.method is Play || request.method is Pause
                || request.method is Teardown)
            &&& ok && request.method is Play ==> todo[1] == (ActionView::Play {
                path: session.path->0,
                tracks: session.tracks,
            }) && after == (SessionView { state: State::Playing, ..session })
            &&& ok && request.method is Pause ==> todo[1] == ActionView::Pause && after == (
            SessionView { state: State::Ready, ..session })
            &&& request.method is Teardown ==> todo[1] == ActionView::Teardown && after == session
        }),
{
}

/// Whether an answer's header has a value.
pub open spec fn answers(response: ResponseView, name: Seq<char>, value: Seq<char>) -> bool {
    exists|i: int| 0 <= i < response.headers.len() && #[trigger] response.headers[i] == (name, value)
}

/// A stream that is there is described: the answer's body is its description under
/// the path that was asked for, and the answer says what that is and what the
/// controls in it are relative to. The session is about that path from then on.
pub proof fn law_streams_are_described(
    session: SessionView,
    request: RequestView,
    codecs: Seq<CodecView>,
)
    requires
        request.method is Describe,
        session.path is None || session.path == Some(path_in(request.uri)),
    ensures
        ({
            let response = answer(session, request, Some(codecs));
            let after = handled(session, request, Some(codecs)).0;
            &&& response.status == Status(200, "OK")
            &&& response.body == encode_utf8(sdp_text(codecs, path_in(request.uri)))
            &&& answers(response, "Content-Type"@, "application/sdp"@)
            &&& answers(response, "Content-Base"@, content_base(request.uri))
            &&& after == (SessionView { path: Some(path_in(request.uri)), ..session })
        }),
{
    let response = answer(session, request, Some(codecs));
    assert(response.headers[1] == ("Content-Base"@, content_base(request.uri)));
    assert(response.headers[2] == ("Content-Type"@, "application/sdp"@));
}

/// A track is set up in the first form that was offered and can be taken: any, or
/// where UDP is not taken the first on the connection. The answer states the
/// session and that form, in a header that reads as it.
pub proof fn law_tracks_are_set_up_as_offered(
    session: SessionView,
    request: RequestView,
    codecs: Seq<CodecView>,
    at: int,
)
    requires
        request.method is Setup,
        session.state != State::Playing,
        ({
            let (path, index) = stream_and_track(path_in(request.uri));
            &&& session.path is None || session.path == Some(path)
            &&& index matches Some(index) && index < codecs.len()
        }),
        header(request.headers, "Transport"@) matches Some(stated) && {
            &&& 0 <= at < offers(stated).len()
            &&& session.udp || offers(stated)[at] is Interleaved
            &&& forall|i: int|
                0 <= i < at ==> !session.udp && #[trigger] offers(stated)[i] is Udp
        },
    ensures
        ({
            let (path, index) = stream_and_track(path_in(request.uri));
            let transport = offers(header(request.headers, "Transport"@)->0)[at];
            let (response, after) = (
                answer(session, request, Some(codecs)),
                handled(session, request, Some(codecs)).0,
            );
            &&& response.status == Status(200, "OK")
            &&& response.headers.len() == 3
            &&& response.headers[1] == ("Session"@, session.id + ";timeout=60"@)
            &&& response.headers[2].0 == "Transport"@ && offers(response.headers[2].1) == seq![
                transport,
            ]
            &&& after.path == Some(path) && after.state == State::Ready
            &&& after.id == session.id && after.udp == session.udp
            &&& after.tracks.last() == (SetupView { track: index->0, transport })
        }),
{
    let stated = header(request.headers, "Transport"@)->0;
    let transport = offers(stated)[at];
    lemma_first_taken(offers(stated), session.udp, at);
    law_transport_headers_round_trip(transport, None);
    assert(";timeout="@ + decimal(60) == ";timeout=60"@) by {
        reveal_strlit(";timeout=");
        reveal_strlit(";timeout=60");
        reveal_with_fuel(decimal, 3);
        assert(decimal(60) =~= seq!['6', '0']);
        assert(";timeout="@ + decimal(60) =~= ";timeout=60"@);
    }
    assert(session.id + ";timeout="@ + decimal(60) =~= session.id + (";timeout="@ + decimal(60)));
}

proof fn lemma_first_taken(offered: Seq<Transport>, udp: bool, at: int)
    requires
        0 <= at < offered.len(),
        udp || offered[at] is Interleaved,
        forall|i: int| 0 <= i < at ==> !udp && #[trigger] offered[i] is Udp,
    ensures
        first_taken(offered, udp) == Some(offered[at]),
    decreases at,
{
    if at > 0 {
        assert(offered[0] is Udp);
        let rest = offered.drop_first();
        assert forall|i: int| 0 <= i < at - 1 implies !udp && #[trigger] rest[i] is Udp by {
            assert(rest[i] == offered[i + 1]);
        }
        lemma_first_taken(rest, udp, at - 1);
    }
}

/// What a client offers and cannot be taken is refused as that, and a track that
/// the stream does not have is not found.
pub proof fn law_setups_that_cannot_be_met(
    session: SessionView,
    request: RequestView,
    codecs: Seq<CodecView>,
)
    requires
        request.method is Setup,
        session.state != State::Playing,
        session.path is None || session.path == Some(
            stream_and_track(path_in(request.uri)).0,
        ),
    ensures
        ({
            let index = stream_and_track(path_in(request.uri)).1;
            let status = answer(session, request, Some(codecs)).status;
            &&& index is None || index->0 >= codecs.len() ==> status == Status(404, "Not Found")
            &&& index is Some && index->0 < codecs.len() && header(
                request.headers,
                "Transport"@,
            ) is None ==> status == Status(461, "Unsupported Transport")
            &&& index is Some && index->0 < codecs.len() ==> (header(
                request.headers,
                "Transport"@,
            ) matches Some(stated) ==> {
                &&& offers(stated).len() == 0 ==> status == Status(461, "Unsupported Transport")
                &&& !session.udp && (forall|i: int|
                    0 <= i < offers(stated).len() ==> #[trigger] offers(stated)[i] is Udp)
                    ==> status == Status(461, "Unsupported Transport")
            })
        }),
{
    if let Some(stated) = header(request.headers, "Transport"@) {
        lemma_none_taken(offers(stated), session.udp);
    }
}

proof fn lemma_none_taken(offered: Seq<Transport>, udp: bool)
    ensures
        !udp && (forall|i: int| 0 <= i < offered.len() ==> #[trigger] offered[i] is Udp)
            ==> first_taken(offered, udp) is None,
    decreases offered.len(),
{
    if offered.len() > 0 {
        let rest = offered.drop_first();
        lemma_none_taken(rest, udp);
        if forall|i: int| 0 <= i < offered.len() ==> #[trigger] offered[i] is Udp {
            assert(offered[0] is Udp);
            assert forall|i: int| 0 <= i < rest.len() implies #[trigger] rest[i] is Udp by {
                assert(rest[i] == offered[i + 1]);
            }
        }
    }
}

/// A track set up again is the last of the tracks, and the others stay as they
/// were, in their order.
pub proof fn law_other_tracks_stay_set_up(
    first: Seq<SetupView>,
    again: SetupView,
    then: Seq<SetupView>,
    setup: SetupView,
)
    requires
        again.track == setup.track,
        forall|i: int| 0 <= i < first.len() ==> (#[trigger] first[i]).track != setup.track,
        forall|i: int| 0 <= i < then.len() ==> (#[trigger] then[i]).track != setup.track,
    ensures
        with_setup(first + seq![again] + then, setup) == first + then + seq![setup],
        with_setup(first, setup) == first + seq![setup],
{
    let keep = |other: SetupView| other.track != setup.track;
    lemma_all_kept(first, keep);
    lemma_all_kept(then, keep);
    Seq::filter_distributes_over_add(first, seq![again], keep);
    Seq::filter_distributes_over_add(first + seq![again], then, keep);
    assert(seq![again].filter(keep) =~= Seq::empty()) by {
        reveal(Seq::filter);
        assert(seq![again].drop_last() =~= Seq::empty());
        reveal_with_fuel(Seq::filter, 2);
    }
    assert(with_setup(first + seq![again] + then, setup) =~= first + then + seq![setup]);
    assert(with_setup(first, setup) =~= first + seq![setup]);
}

proof fn lemma_all_kept(tracks: Seq<SetupView>, keep: spec_fn(SetupView) -> bool)
    requires
        forall|i: int| 0 <= i < tracks.len() ==> keep(#[trigger] tracks[i]),
    ensures
        tracks.filter(keep) == tracks,
    decreases tracks.len(),
{
    reveal(Seq::filter);
    if tracks.len() > 0 {
        let fewer = tracks.drop_last();
        assert forall|i: int| 0 <= i < fewer.len() implies keep(#[trigger] fewer[i]) by {
            assert(fewer[i] == tracks[i]);
        }
        lemma_all_kept(fewer, keep);
        assert(keep(tracks[tracks.len() - 1]));
        assert(tracks.filter(keep) =~= tracks);
    } else {
        assert(tracks.filter(keep) =~= tracks);
    }
}

proof fn lemma_scheme_at(uri: Seq<char>, from: int, at: int)
    requires
        0 <= from <= at,
        scheme_ends(uri, at),
        forall|i: int| from <= i < at ==> uri[i] != ':',
    ensures
        scheme_end(uri, from) == Some(at),
    decreases at - from,
{
    if from < at {
        lemma_scheme_at(uri, from + 1, at);
    }
}

/// The path in a URI is what stands after the host, without the query and without
/// the slashes at its ends.
pub proof fn law_paths_stand_after_the_host(
    scheme: Seq<char>,
    host: Seq<char>,
    left: Seq<char>,
    path: Seq<char>,
    right: Seq<char>,
    query: Seq<char>,
)
    requires
        lacks(scheme, ':'),
        lacks(host, '/'),
        forall|i: int| 0 <= i < left.len() ==> left[i] == '/',
        forall|i: int| 0 <= i < right.len() ==> right[i] == '/',
        lacks(path, '?'),
        path.len() > 0 ==> path.first() != '/' && path.last() != '/',
    ensures
        ({
            let address = scheme + "://"@ + host;
            let whole = address + "/"@ + left + path + right;
            &&& path_in(whole) == path
            &&& path_in(whole + "?"@ + query) == path
            &&& path_in(address) == Seq::<char>::empty()
        }),
{
    reveal_strlit("://");
    reveal_strlit("/");
    reveal_strlit("?");
    let none = Seq::<char>::empty();
    let inner = left + path + right;
    let address = scheme + "://"@ + host;
    let whole = address + "/"@ + left + path + right;
    assert(lacks(inner, '?')) by {
        assert forall|i: int| 0 <= i < inner.len() implies inner[i] != '?' by {
            if i < left.len() {
                assert(inner[i] == left[i]);
            } else if i < left.len() + path.len() {
                assert(inner[i] == path[i - left.len()]);
            } else {
                assert(inner[i] == right[i - left.len() - path.len()]);
            }
        }
    }
    law_trimming_takes_off_the_edges(left, path, right, Edge::Slash);
    assert(whole =~= address + seq!['/'] + inner);
    lemma_after_authority(scheme, host, inner);
    lemma_unsplit(inner, '?');
    let asked = inner + "?"@ + query;
    assert(whole + "?"@ + query =~= address + seq!['/'] + asked);
    lemma_after_authority(scheme, host, asked);
    assert(asked =~= inner.push('?') + query);
    lemma_split_joined(inner, '?', query);
    let at = scheme.len() as int;
    assert(forall|i: int| 0 <= i < at ==> address[i] == scheme[i]);
    assert(address[at] == "://"@[0] && address[at + 1] == "://"@[1] && address[at + 2]
        == "://"@[2]);
    lemma_scheme_at(address, 0, at);
    assert(address.skip(at + 3) =~= host);
    lemma_unsplit(host, '/');
    law_trimming_takes_off_the_edges(none, none, none, Edge::Slash);
    assert(none + none + none =~= none);
    lemma_unsplit(none, '?');
}

proof fn lemma_after_authority(scheme: Seq<char>, host: Seq<char>, rest: Seq<char>)
    requires
        lacks(scheme, ':'),
        lacks(host, '/'),
    ensures
        after_authority(scheme + "://"@ + host + seq!['/'] + rest) == rest,
{
    reveal_strlit("://");
    let uri = scheme + "://"@ + host + seq!['/'] + rest;
    let at = scheme.len() as int;
    assert(forall|i: int| 0 <= i < at ==> uri[i] == scheme[i]);
    assert(uri[at] == "://"@[0] && uri[at + 1] == "://"@[1] && uri[at + 2] == "://"@[2]);
    lemma_scheme_at(uri, 0, at);
    assert(uri.skip(at + 3) =~= host.push('/') + rest);
    lemma_split_joined(host, '/', rest);
}

/// A path that ends in a track's name and number names that track of the rest, in
/// any of the three ways that clients write it and in whatever case; a path whose
/// last part says nothing of the kind names a stream and no track.
pub proof fn law_tracks_are_named_at_the_end(
    stream: Seq<char>,
    name: Seq<char>,
    index: nat,
    last: Seq<char>,
)
    requires
        index <= usize::MAX,
        same_but_case(name, "trackID"@) || same_but_case(name, "streamid"@) || same_but_case(
            name,
            "track"@,
        ),
        lacks(last, '/') && lacks(last, '='),
    ensures
        stream_and_track(stream + "/"@ + name + "="@ + decimal(index)) == (stream, Some(index)),
        stream_and_track(stream + "/"@ + last) == (stream + "/"@ + last, None::<nat>),
        stream_and_track(last) == (last, None::<nat>),
{
    reveal_strlit("/");
    reveal_strlit("=");
    lemma_names_are_plain(name);
    lemma_decimal_reads(index);
    law_numbers_read_back(index, usize::MAX as nat, decimal(index));
    let control = name + "="@ + decimal(index);
    let whole = stream + "/"@ + name + "="@ + decimal(index);
    assert(whole =~= stream.push('/') + control);
    assert(control =~= name.push('=') + decimal(index));
    assert(lacks(control, '/'));
    lemma_split_joined(name, '=', decimal(index));
    lemma_last_slash_at(stream, control);
    assert(whole.skip(stream.len() as int + 1) =~= control);
    assert(whole.take(stream.len() as int) =~= stream);
    let other = stream + "/"@ + last;
    assert(other =~= stream.push('/') + last);
    lemma_last_slash_at(stream, last);
    assert(other.skip(stream.len() as int + 1) =~= last);
    lemma_unsplit(last, '=');
    lemma_no_slash(last);
}

proof fn lemma_names_are_plain(name: Seq<char>)
    requires
        same_but_case(name, "trackID"@) || same_but_case(name, "streamid"@) || same_but_case(
            name,
            "track"@,
        ),
    ensures
        lacks(name, '=') && lacks(name, '/'),
        same_but_case(name, "trackid"@) || same_but_case(name, "streamid"@) || same_but_case(
            name,
            "track"@,
        ),
{
    reveal_strlit("trackID");
    reveal_strlit("trackid");
    reveal_strlit("streamid");
    reveal_strlit("track");
    assert forall|i: int| 0 <= i < name.len() implies name[i] != '=' && name[i] != '/' by {
        assert(lower(name[i]) == lower(name[i]));
    }
    if same_but_case(name, "trackID"@) {
        assert(same_but_case(name, "trackid"@)) by {
            assert forall|i: int| 0 <= i < name.len() implies lower(#[trigger] name[i])
                == lower("trackid"@[i]) by {
                assert(lower(name[i]) == lower("trackID"@[i]));
            }
        }
    }
}

proof fn lemma_last_slash_at(before: Seq<char>, last: Seq<char>)
    requires
        lacks(last, '/'),
    ensures
        last_slash(before.push('/') + last) == Some(before.len() as int),
    decreases last.len(),
{
    let text = before.push('/') + last;
    if last.len() > 0 {
        assert(text.last() == last.last());
        assert(text.drop_last() =~= before.push('/') + last.drop_last());
        lemma_last_slash_at(before, last.drop_last());
    } else {
        assert(text.last() == '/');
    }
}

proof fn lemma_no_slash(text: Seq<char>)
    requires
        lacks(text, '/'),
    ensures
        last_slash(text) is None,
    decreases text.len(),
{
    if text.len() > 0 {
        assert(text.last() == text[text.len() - 1]);
        lemma_no_slash(text.drop_last());
    }
}

/// What controls are relative to is the URI that was asked for with one slash at
/// its end, however many it had.
pub proof fn law_the_base_ends_in_one_slash(uri: Seq<char>, slashes: Seq<char>)
    requires
        uri.len() > 0 ==> uri.last() != '/',
        forall|i: int| 0 <= i < slashes.len() ==> slashes[i] == '/',
    ensures
        content_base(uri + slashes) == uri + "/"@,
    decreases slashes.len(),
{
    reveal_strlit("/");
    if slashes.len() == 0 {
        assert(uri + slashes =~= uri);
        assert(uri.push('/') =~= uri + "/"@);
    } else {
        let fewer = slashes.drop_last();
        assert((uri + slashes).last() == slashes[slashes.len() - 1]);
        assert((uri + slashes).drop_last() =~= uri + fewer);
        law_the_base_ends_in_one_slash(uri, fewer);
    }
}

/// What a session asks to have looked up is the path that the answer is about: an
/// answer that depends on a stream is one for which that stream's path was asked
/// for, and it is the path that the session is then about.
pub proof fn law_what_is_answered_was_asked_for(
    session: SessionView,
    request: RequestView,
    found: Option<Seq<CodecView>>,
)
    ensures
        asked_for(session, request) is None ==> handled(session, request, found) == handled(
            session,
            request,
            None,
        ),
        asked_for(session, request) matches Some(path) ==> {
            &&& request.method is Describe || request.method is Setup
            &&& answer(session, request, found).status.0 == 200 ==> handled(
                session,
                request,
                found,
            ).0.path == Some(path)
        },
{
}

/// What the headers of an answer are: the sequence of the request first, or a zero
/// where it has none; what can be asked for, the session, or what was set up; and of
/// a refusal nothing more. Only a description has a body.
pub proof fn law_answers_have_their_headers(
    session: SessionView,
    request: RequestView,
    found: Option<Seq<CodecView>>,
)
    ensures
        ({
            let response = answer(session, request, found);
            let sequence = (
                "CSeq"@,
                match header(request.headers, "CSeq"@) {
                    Some(sequence) => sequence,
                    None => "0"@,
                },
            );
            let ok = response.status.0 == 200;
            &&& response.headers.len() > 0 && response.headers[0] == sequence
            &&& !ok ==> response.headers.len() == 1
            &&& !(ok && request.method is Describe) ==> response.body.len() == 0
            &&& request.method is Options ==> response.headers.len() == 2 && response.headers[1]
                == ("Public"@, "OPTIONS, DESCRIBE, SETUP, PLAY, PAUSE, TEARDOWN, GET_PARAMETER"@)
            &&& ok && (request.method is Play || request.method is Pause || request.method
                is Teardown || request.method is GetParameter) ==> response.headers.len() == 2
                && response.headers[1] == ("Session"@, session.id)
            &&& ok && request.method is Describe ==> response.headers.len() == 3
        }),
{
}

/// Only three things change what a session is about: being described gives it a path,
/// setting up gives it tracks too, and playing and pausing change what it does.
pub proof fn law_sessions_change_by_what_succeeds(
    session: SessionView,
    request: RequestView,
    found: Option<Seq<CodecView>>,
)
    ensures
        ({
            let after = handled(session, request, found).0;
            &&& after.id == session.id && after.udp == session.udp
            &&& after.tracks != session.tracks ==> request.method is Setup
            &&& after.path != session.path ==> request.method is Setup || request.method
                is Describe
            &&& after.state != session.state ==> request.method is Setup || request.method is Play
                || request.method is Pause
        }),
{
}

} // verus!

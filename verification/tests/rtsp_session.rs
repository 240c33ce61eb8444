use bytes::Bytes;
use relaybay::codec::{aac, h264};
use relaybay::rtsp::message::{Headers, Method, Request, Response, Status, Transport};
use relaybay::rtsp::session::{path_of, split_track, Action, Session};
use relaybay::track::{Codec, Description};
use std::sync::Arc;

fn description() -> Arc<Description> {
    Arc::new(
        Description::new(vec![
            Codec::H264(h264::Parameters {
                sps: vec![
                    h264::Nal::new(Bytes::from_static(&[0x67, 0x42, 0xc0, 0x1e])).unwrap(),
                ],
                pps: vec![h264::Nal::new(Bytes::from_static(&[0x68, 0xce])).unwrap()],
            }),
            Codec::Aac(aac::Parameters::parse(Bytes::from_static(&[0x12, 0x10])).unwrap()),
        ])
        .unwrap(),
    )
}

fn known(path: &str) -> Option<Arc<Description>> {
    (path == "live/cam1").then(description)
}

fn nothing(_: &str) -> Option<Arc<Description>> {
    None
}

fn request(method: Method, uri: &str, headers: &[(&str, &str)]) -> Request {
    let mut all = Headers::new().with("CSeq", "7");
    for (name, value) in headers {
        all.push(name, *value);
    }
    Request {
        method,
        uri: uri.to_owned(),
        headers: all,
        body: Bytes::new(),
    }
}

fn response(actions: &[Action]) -> &Response {
    match actions.first() {
        Some(Action::Respond(response)) => response,
        other => panic!("an answer, got {other:?}"),
    }
}

fn interleaved(rtp: u8, rtcp: u8) -> String {
    format!("RTP/AVP/TCP;unicast;interleaved={rtp}-{rtcp}")
}

/// A session that has described and set up both tracks.
fn ready() -> Session {
    let mut session = Session::new(0);
    session.handle(&request(Method::Describe, "rtsp://h/live/cam1", &[]), known);
    for (index, channels) in [(0, interleaved(0, 1)), (1, interleaved(2, 3))] {
        session.handle(
            &request(
                Method::Setup,
                &format!("rtsp://h/live/cam1/trackID={index}"),
                &[("Transport", &channels)],
            ),
            known,
        );
    }
    session
}

#[test]
fn options_says_what_this_answers() {
    let actions = Session::new(0).handle(&request(Method::Options, "*", &[]), nothing);
    let response = response(&actions);
    assert_eq!(response.status, Status::ok());
    assert_eq!(response.headers.get("CSeq"), Some("7"));
    for method in ["DESCRIBE", "SETUP", "PLAY", "TEARDOWN"] {
        assert!(response.headers.get("Public").unwrap().contains(method));
    }
}

#[test]
fn describe_answers_with_the_sdp_and_where_its_controls_point() {
    let mut session = Session::new(0);
    let actions = session.handle(
        &request(Method::Describe, "rtsp://h:8554/live/cam1", &[]),
        known,
    );
    let response = response(&actions);

    assert_eq!(response.status, Status::ok());
    assert_eq!(
        response.headers.get("Content-Type"),
        Some("application/sdp")
    );
    // The base has to end in a slash, or appending `trackID=0` replaces
    // the last segment instead of extending it.
    assert_eq!(
        response.headers.get("Content-Base"),
        Some("rtsp://h:8554/live/cam1/")
    );
    let sdp = String::from_utf8(response.body.to_vec()).unwrap();
    assert!(sdp.contains("m=video"));
    assert!(sdp.contains("a=control:trackID=1"));
    assert_eq!(session.path(), Some("live/cam1"));
}

#[test]
fn session_describing_a_path_nothing_is_publishing_to_is_answered_not_found() {
    let actions = Session::new(0).handle(
        &request(Method::Describe, "rtsp://h/live/nobody", &[]),
        nothing,
    );
    assert_eq!(response(&actions).status, Status::not_found());
}

#[test]
fn setup_agrees_a_transport_and_names_the_session() {
    let mut session = Session::new(0);
    let actions = session.handle(
        &request(
            Method::Setup,
            "rtsp://h/live/cam1/trackID=0",
            &[("Transport", &interleaved(0, 1))],
        ),
        known,
    );
    let response = response(&actions);

    assert_eq!(response.status, Status::ok());
    assert_eq!(
        response.headers.get("Transport"),
        Some("RTP/AVP/TCP;unicast;interleaved=0-1")
    );
    // The id, and how long the client may go quiet.
    let named = response.headers.get("Session").unwrap();
    assert!(named.starts_with(session.id()), "{named}");
    assert!(named.contains("timeout=60"), "{named}");
}

#[test]
fn the_ways_clients_write_a_track_all_name_the_same_one() {
    for control in ["trackID=1", "trackId=1", "streamid=1", "track=1"] {
        let mut session = Session::new(0);
        session.handle(
            &request(
                Method::Setup,
                &format!("rtsp://h/live/cam1/{control}"),
                &[("Transport", &interleaved(0, 1))],
            ),
            known,
        );
        let actions = session.handle(&request(Method::Play, "rtsp://h/live/cam1", &[]), known);
        let Some(Action::Play { tracks, .. }) = actions.get(1) else {
            panic!("{control}: a play")
        };
        assert_eq!(tracks[0].track.index(), 1, "{control}");
    }
}

#[test]
fn a_track_the_stream_does_not_have_is_answered_not_found() {
    let mut session = Session::new(0);
    for uri in [
        "rtsp://h/live/cam1/trackID=9",
        // No track named at all: the SDP gave every media section one.
        "rtsp://h/live/cam1",
    ] {
        let actions = session.handle(
            &request(Method::Setup, uri, &[("Transport", &interleaved(0, 1))]),
            known,
        );
        assert_eq!(response(&actions).status, Status::not_found(), "{uri}");
    }
}

#[test]
fn a_transport_this_cannot_provide_is_answered_as_such() {
    let mut session = Session::new(0);
    for header in ["RTP/AVP;multicast;port=5000-5001", "RAW/RAW/UDP;unicast"] {
        let actions = session.handle(
            &request(
                Method::Setup,
                "rtsp://h/live/cam1/trackID=0",
                &[("Transport", header)],
            ),
            known,
        );
        assert_eq!(
            response(&actions).status,
            Status::unsupported_transport(),
            "{header}"
        );
    }
}

#[test]
fn every_track_of_a_session_has_to_come_from_one_stream() {
    let mut session = Session::new(0);
    session.handle(
        &request(
            Method::Setup,
            "rtsp://h/live/cam1/trackID=0",
            &[("Transport", &interleaved(0, 1))],
        ),
        known,
    );
    let actions = session.handle(
        &request(
            Method::Setup,
            "rtsp://h/live/other/trackID=0",
            &[("Transport", &interleaved(2, 3))],
        ),
        |path| (path == "live/other").then(description),
    );
    assert_eq!(response(&actions).status, Status::not_found());
}

#[test]
fn play_answers_first_and_starts_second() {
    let mut session = ready();
    let actions = session.handle(&request(Method::Play, "rtsp://h/live/cam1", &[]), known);

    // A packet for a stream the client has not been told has started is
    // a packet it throws away.
    assert!(matches!(actions[0], Action::Respond(_)));
    let Action::Play { path, tracks } = &actions[1] else {
        panic!("a play, got {:?}", actions[1])
    };
    assert_eq!(path, "live/cam1");
    assert_eq!(tracks.len(), 2);
    assert_eq!(tracks[0].track.index(), 0);
    assert_eq!(
        tracks[1].transport,
        Transport::Interleaved { rtp: 2, rtcp: 3 }
    );
    assert_eq!(
        response(&actions).headers.get("Session"),
        Some(session.id())
    );
}

#[test]
fn setting_a_track_up_twice_keeps_the_second_answer() {
    let mut session = Session::new(0);
    for channels in [interleaved(0, 1), interleaved(4, 5)] {
        session.handle(
            &request(
                Method::Setup,
                "rtsp://h/live/cam1/trackID=0",
                &[("Transport", &channels)],
            ),
            known,
        );
    }
    let actions = session.handle(&request(Method::Play, "rtsp://h/live/cam1", &[]), known);
    let Some(Action::Play { tracks, .. }) = actions.get(1) else {
        panic!("a play")
    };
    assert_eq!(tracks.len(), 1);
    assert_eq!(
        tracks[0].transport,
        Transport::Interleaved { rtp: 4, rtcp: 5 }
    );
}

#[test]
fn playing_before_setting_anything_up_is_refused_without_ending_anything() {
    let mut session = Session::new(0);
    let actions = session.handle(&request(Method::Play, "rtsp://h/live/cam1", &[]), known);
    assert_eq!(response(&actions).status, Status::method_not_valid());
    assert_eq!(actions.len(), 1, "the connection goes on");
}

#[test]
fn pausing_stops_the_packets_and_playing_starts_them_again() {
    let mut session = ready();
    session.handle(&request(Method::Play, "rtsp://h/live/cam1", &[]), known);

    let actions = session.handle(&request(Method::Pause, "rtsp://h/live/cam1", &[]), known);
    assert_eq!(response(&actions).status, Status::ok());
    assert_eq!(actions[1], Action::Pause);

    let actions = session.handle(&request(Method::Play, "rtsp://h/live/cam1", &[]), known);
    assert!(matches!(actions[1], Action::Play { .. }));
}

#[test]
fn setting_up_another_track_mid_stream_is_refused() {
    let mut session = ready();
    session.handle(&request(Method::Play, "rtsp://h/live/cam1", &[]), known);
    let actions = session.handle(
        &request(
            Method::Setup,
            "rtsp://h/live/cam1/trackID=1",
            &[("Transport", &interleaved(6, 7))],
        ),
        known,
    );
    assert_eq!(response(&actions).status, Status::method_not_valid());
}

#[test]
fn teardown_answers_and_then_ends_it() {
    let mut session = ready();
    let actions = session.handle(&request(Method::Teardown, "rtsp://h/live/cam1", &[]), known);
    assert_eq!(response(&actions).status, Status::ok());
    assert_eq!(actions[1], Action::Teardown);
}

#[test]
fn a_client_saying_nothing_is_answered_that_it_was_heard() {
    let mut session = ready();
    let actions = session.handle(
        &request(Method::GetParameter, "rtsp://h/live/cam1", &[]),
        known,
    );
    assert_eq!(response(&actions).status, Status::ok());
    assert_eq!(actions.len(), 1);
}

#[test]
fn a_client_trying_to_publish_is_turned_down() {
    // This serves streams and does not take them; RTMP is how one gets
    // in. Turned down rather than ignored, so the client stops asking.
    let mut session = Session::new(0);
    for method in [Method::Announce, Method::Record] {
        let actions = session.handle(&request(method, "rtsp://h/live/cam1", &[]), known);
        assert_eq!(response(&actions).status, Status::method_not_allowed());
    }
}

#[test]
fn every_answer_carries_the_sequence_it_answers() {
    let mut session = ready();
    for method in [
        Method::Options,
        Method::Describe,
        Method::Play,
        Method::GetParameter,
        Method::Teardown,
    ] {
        let actions = session.handle(&request(method, "rtsp://h/live/cam1", &[]), known);
        assert_eq!(response(&actions).headers.get("CSeq"), Some("7"));
    }
}

#[test]
fn a_uri_reads_as_the_path_inside_it() {
    assert_eq!(path_of("rtsp://host/live/cam1"), "live/cam1");
    assert_eq!(path_of("rtsp://host:8554/live/cam1/"), "live/cam1");
    assert_eq!(path_of("rtsp://host/live/cam1?token=abc"), "live/cam1");
    assert_eq!(path_of("/live/cam1"), "live/cam1");
    assert_eq!(path_of("rtsp://host"), "");
    assert_eq!(path_of("*"), "*");
}

#[test]
fn a_last_segment_that_is_not_a_track_stays_part_of_the_path() {
    // A stream may legitimately be called anything, and a path segment
    // with an equals sign in it is not a control.
    assert_eq!(
        split_track("live/cam=1"),
        ("live/cam=1".to_owned(), None),
        "not a name this knows"
    );
    assert_eq!(
        split_track("live/trackID=x"),
        ("live/trackID=x".to_owned(), None),
        "not a number"
    );
    assert_eq!(
        split_track("live/cam1"),
        ("live/cam1".to_owned(), None),
        "no control at all"
    );
}

#[test]
fn two_sessions_do_not_share_an_id() {
    assert_ne!(Session::new(0).id(), Session::new(1).id());
}

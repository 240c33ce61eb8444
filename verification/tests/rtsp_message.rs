use bytes::{BufMut, Bytes, BytesMut};
use relaybay::rtsp::message::{
    interleave, read, Incoming, Method, Request, Response, RtspError, Status, Transport, MAX_BODY,
    MAX_HEAD,
};

fn buffer(text: &str) -> BytesMut {
    BytesMut::from(text.as_bytes())
}

fn request(buf: &mut BytesMut) -> Request {
    match read(buf).unwrap() {
        Some(Incoming::Request(request)) => request,
        other => panic!("a request, got {other:?}"),
    }
}

#[test]
fn a_request_reads_as_its_parts() {
    let mut buf = buffer(
        "DESCRIBE rtsp://host/live/cam1 RTSP/1.0\r\n\
         CSeq: 2\r\n\
         Accept: application/sdp\r\n\
         User-Agent: LibVLC/3.0\r\n\
         \r\n",
    );
    let request = request(&mut buf);

    assert_eq!(request.method, Method::Describe);
    assert_eq!(request.uri, "rtsp://host/live/cam1");
    assert_eq!(request.sequence(), Some("2"));
    assert_eq!(request.headers.get("Accept"), Some("application/sdp"));
    assert!(request.body.is_empty());
    assert!(buf.is_empty());
}

#[test]
fn a_header_is_found_whatever_case_it_was_written_in() {
    let mut buf = buffer("OPTIONS * RTSP/1.0\r\ncseq: 1\r\nSESSION: abc\r\n\r\n");
    let request = request(&mut buf);
    assert_eq!(request.sequence(), Some("1"));
    assert_eq!(request.session().as_deref(), Some("abc"));
}

#[test]
fn a_session_id_is_not_the_timeout_beside_it() {
    let mut buf = buffer("PLAY rtsp://h/s RTSP/1.0\r\nSession: 1234abcd;timeout=60\r\n\r\n");
    assert_eq!(request(&mut buf).session().as_deref(), Some("1234abcd"));
}

#[test]
fn a_request_with_a_body_waits_for_all_of_it() {
    let head = "ANNOUNCE rtsp://h/s RTSP/1.0\r\nCSeq: 1\r\nContent-Length: 10\r\n\r\n";
    let mut buf = buffer(head);
    assert_eq!(read(&mut buf).unwrap(), None, "the body has not arrived");
    assert_eq!(buf.len(), head.len(), "and nothing was consumed");

    buf.put_slice(b"v=0\r\ns=x\r\n");
    let request = request(&mut buf);
    assert_eq!(&request.body[..], b"v=0\r\ns=x\r\n");
    assert!(buf.is_empty());
}

#[test]
fn a_request_arriving_a_byte_at_a_time_reads_the_same() {
    let whole = "SETUP rtsp://h/s/trackID=0 RTSP/1.0\r\n\
                 CSeq: 3\r\n\
                 Transport: RTP/AVP/TCP;unicast;interleaved=0-1\r\n\
                 \r\n";
    let mut buf = BytesMut::new();
    for (index, byte) in whole.bytes().enumerate() {
        buf.put_u8(byte);
        let read = read(&mut buf).unwrap();
        if index + 1 < whole.len() {
            assert_eq!(read, None, "at {index}");
            assert_eq!(buf.len(), index + 1, "nothing consumed at {index}");
        } else {
            assert!(matches!(read, Some(Incoming::Request(_))));
            assert!(buf.is_empty());
        }
    }
}

#[test]
fn two_requests_in_one_read_both_come_out() {
    let mut buf = buffer(
        "OPTIONS * RTSP/1.0\r\nCSeq: 1\r\n\r\nDESCRIBE rtsp://h/s RTSP/1.0\r\nCSeq: 2\r\n\r\n",
    );
    assert_eq!(request(&mut buf).method, Method::Options);
    assert_eq!(request(&mut buf).method, Method::Describe);
    assert_eq!(read(&mut buf).unwrap(), None);
}

#[test]
fn a_frame_of_media_between_requests_is_read_as_one() {
    let mut buf = BytesMut::new();
    interleave(&mut buf, 1, &[0x80, 0xc9, 0x00, 0x01]).unwrap();
    buf.put_slice(b"OPTIONS * RTSP/1.0\r\nCSeq: 9\r\n\r\n");

    assert_eq!(
        read(&mut buf).unwrap(),
        Some(Incoming::Interleaved {
            channel: 1,
            data: Bytes::from_static(&[0x80, 0xc9, 0x00, 0x01])
        })
    );
    assert_eq!(request(&mut buf).sequence(), Some("9"));
}

#[test]
fn a_frame_that_is_half_here_consumes_nothing() {
    let mut whole = BytesMut::new();
    interleave(&mut whole, 0, &[0xab; 200]).unwrap();
    for cut in 0..whole.len() {
        let mut buf = whole.clone().split_to(cut);
        assert_eq!(read(&mut buf).unwrap(), None, "{cut}");
        assert_eq!(buf.len(), cut, "{cut}");
    }
}

#[test]
fn a_response_writes_its_own_content_length() {
    let response = Response::new(Status::ok())
        .with("CSeq", "2")
        .with_body("application/sdp", Bytes::from_static(b"v=0\r\n"));
    let written = String::from_utf8(response.to_bytes().to_vec()).unwrap();

    assert_eq!(
        written,
        "RTSP/1.0 200 OK\r\n\
         CSeq: 2\r\n\
         Content-Type: application/sdp\r\n\
         Content-Length: 5\r\n\
         \r\n\
         v=0\r\n"
    );
}

#[test]
fn a_response_with_no_body_still_says_so() {
    // A client that read no length would wait for a body that is not
    // coming.
    let written = Response::new(Status::ok()).with("CSeq", "1").to_bytes();
    assert!(String::from_utf8_lossy(&written).contains("Content-Length: 0"));
}

#[test]
fn a_transport_over_the_connection_reads_as_its_channels() {
    assert_eq!(
        Transport::parse("RTP/AVP/TCP;unicast;interleaved=0-1"),
        Some(Transport::Interleaved { rtp: 0, rtcp: 1 })
    );
    assert_eq!(
        Transport::parse("RTP/AVP/TCP;interleaved=4-5;unicast"),
        Some(Transport::Interleaved { rtp: 4, rtcp: 5 })
    );
}

#[test]
fn a_transport_over_udp_reads_as_its_ports() {
    assert_eq!(
        Transport::parse("RTP/AVP;unicast;client_port=8000-8001"),
        Some(Transport::Udp {
            rtp: 8000,
            rtcp: 8001
        })
    );
    assert_eq!(
        Transport::parse("RTP/AVP/UDP;unicast;client_port=50000-50001;mode=play"),
        Some(Transport::Udp {
            rtp: 50000,
            rtcp: 50001
        })
    );
}

#[test]
fn the_first_thing_offered_that_works_is_taken() {
    // A client lists what it will accept, best first. Turning the whole
    // header down over one entry would refuse an offer that had
    // something workable in it.
    assert_eq!(
        Transport::parse(
            "RTP/AVP;multicast;port=5000-5001,RTP/AVP/TCP;unicast;interleaved=0-1"
        ),
        Some(Transport::Interleaved { rtp: 0, rtcp: 1 })
    );
}

#[test]
fn a_transport_this_cannot_do_reads_as_nothing() {
    assert_eq!(Transport::parse("RTP/AVP;multicast;port=5000-5001"), None);
    assert_eq!(Transport::parse("RAW/RAW/UDP;unicast;port=5000"), None);
    // Interleaved without the channels to interleave on.
    assert_eq!(Transport::parse("RTP/AVP/TCP;unicast"), None);
}

#[test]
fn a_transport_header_round_trips() {
    let interleaved = Transport::Interleaved { rtp: 2, rtcp: 3 };
    assert_eq!(
        Transport::parse(&interleaved.to_header(None)),
        Some(interleaved)
    );

    let udp = Transport::Udp {
        rtp: 8000,
        rtcp: 8001,
    };
    let header = udp.to_header(Some((9000, 9001)));
    assert!(header.contains("server_port=9000-9001"));
    assert_eq!(Transport::parse(&header), Some(udp));
}

#[test]
fn a_request_line_that_is_not_one_is_refused() {
    let mut buf = buffer("DESCRIBE\r\nCSeq: 1\r\n\r\n");
    assert_eq!(
        read(&mut buf),
        Err(RtspError::MalformedRequestLine("DESCRIBE".to_owned()))
    );
}

#[test]
fn a_version_that_does_not_exist_is_refused() {
    let mut buf = buffer("OPTIONS * RTSP/2.0\r\nCSeq: 1\r\n\r\n");
    assert_eq!(
        read(&mut buf),
        Err(RtspError::UnsupportedVersion("RTSP/2.0".to_owned()))
    );
}

#[test]
fn a_header_with_no_name_is_refused() {
    let mut buf = buffer("OPTIONS * RTSP/1.0\r\nnonsense\r\n\r\n");
    assert_eq!(
        read(&mut buf),
        Err(RtspError::MalformedHeader("nonsense".to_owned()))
    );
}

#[test]
fn bytes_that_are_neither_are_refused_rather_than_skipped() {
    // A connection out of step does not come back into it, and reading
    // on would turn one client's confusion into a stream of nonsense.
    let mut buf = buffer("\x01\x02\x03");
    assert_eq!(read(&mut buf), Err(RtspError::NotRtsp));
}

#[test]
fn a_head_that_never_ends_is_refused() {
    let mut buf = BytesMut::new();
    buf.put_slice(b"OPTIONS * RTSP/1.0\r\n");
    buf.put_slice(&vec![b'x'; MAX_HEAD]);
    assert_eq!(
        read(&mut buf),
        Err(RtspError::TooLong {
            part: "request head",
            limit: MAX_HEAD
        })
    );
}

#[test]
fn a_body_larger_than_anything_rtsp_sends_is_refused() {
    let mut buf = buffer(&format!(
        "ANNOUNCE rtsp://h/s RTSP/1.0\r\nContent-Length: {}\r\n\r\n",
        MAX_BODY + 1
    ));
    assert_eq!(
        read(&mut buf),
        Err(RtspError::TooLong {
            part: "request body",
            limit: MAX_BODY
        })
    );
}

#[test]
fn a_method_round_trips_through_its_name() {
    for method in [
        Method::Options,
        Method::Describe,
        Method::Setup,
        Method::Play,
        Method::Pause,
        Method::Teardown,
        Method::GetParameter,
        Method::SetParameter,
        Method::Announce,
        Method::Record,
        Method::Other("REDIRECT".to_owned()),
    ] {
        assert_eq!(Method::parse(method.name()), method);
    }
}

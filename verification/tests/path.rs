use bytes::Bytes;
use relaybay::codec::{aac, h264};
use relaybay::path::{Feed, Next, Reader, Registry, BACKLOG, CACHE_LIMIT};
use relaybay::time::MediaTime;
use relaybay::track::{Codec, Description, TrackId};
use relaybay::unit::{AudioPayload, AudioUnit, Unit, VideoPayload, VideoUnit};

fn description() -> Description {
    Description::new(vec![
        Codec::H264(h264::Parameters {
            sps: vec![h264::Nal::new(Bytes::from_static(&[0x67, 0x42, 0xc0, 0x1e])).unwrap()],
            pps: vec![h264::Nal::new(Bytes::from_static(&[0x68, 0xce])).unwrap()],
        }),
        Codec::Aac(aac::Parameters::parse(Bytes::from_static(&[0x12, 0x10])).unwrap()),
    ])
    .unwrap()
}

fn track(index: usize) -> TrackId {
    description().tracks()[index].id()
}

/// A picture, keyframe or not, at `pts` milliseconds.
fn picture(pts: u64, keyframe: bool) -> Unit {
    let header = if keyframe { 0x65 } else { 0x41 };
    Unit::Video(VideoUnit::new(
        track(0),
        VideoPayload::H264(vec![
            h264::Nal::new(Bytes::from_owner(vec![header, pts as u8])).unwrap(),
        ]),
        MediaTime::from_millis(pts),
        MediaTime::from_millis(pts),
    ))
}

fn sound(pts: u64) -> Unit {
    Unit::Audio(AudioUnit {
        track: track(1),
        payload: AudioPayload::Aac(Bytes::from_owner(vec![0x21, pts as u8])),
        pts: MediaTime::from_millis(pts),
    })
}

/// Everything a reader was given on joining.
fn drain(reader: &mut Reader) -> Vec<Unit> {
    let mut units = Vec::new();
    while let Some(unit) = reader.take() {
        units.push(unit);
    }
    units
}

/// What a reader makes of a unit that arrives.
fn arrives(reader: &mut Reader, unit: Unit) -> Option<Unit> {
    match reader.receive(Feed::Unit(unit)) {
        Next::Unit(unit) => Some(unit),
        Next::Wait => None,
        Next::Ended => panic!("the stream is not over"),
    }
}

#[test]
fn a_reader_gets_what_a_publisher_sends() {
    let mut registry = Registry::new();
    let (token, _) = registry.publish("live/cam1", description());
    let (joined, _, mut reader) = registry.read("live/cam1").expect("a stream");
    assert_eq!(joined, token);

    for unit in [picture(0, true), sound(10)] {
        assert!(registry.push("live/cam1", token, &unit));
        assert_eq!(reader.take(), None);
        assert_eq!(arrives(&mut reader, unit.clone()), Some(unit));
    }
}

#[test]
fn a_reader_is_told_what_the_stream_is_before_anything_else() {
    let mut registry = Registry::new();
    registry.publish("live/cam1", description());
    let (_, told, _) = registry.read("live/cam1").unwrap();
    assert_eq!(told, description());
    assert_eq!(registry.describe("live/cam1"), Some(&description()));
    assert_eq!(registry.describe("live/cam2"), None);
}

#[test]
fn reading_a_name_nothing_is_published_to_finds_nothing() {
    let registry = Registry::new();
    assert!(registry.read("live/cam1").is_none());
}

#[test]
fn a_reader_that_joins_late_starts_at_the_last_keyframe() {
    let mut registry = Registry::new();
    let (token, _) = registry.publish("live/cam1", description());

    for unit in [
        picture(0, true),
        picture(33, false),
        // A second group. The first is no longer worth handing anyone.
        picture(66, true),
        sound(70),
        picture(99, false),
    ] {
        registry.push("live/cam1", token, &unit);
    }

    let (_, _, mut reader) = registry.read("live/cam1").unwrap();
    assert_eq!(
        drain(&mut reader),
        vec![picture(66, true), sound(70), picture(99, false)]
    );
}

#[test]
fn a_reader_that_joins_before_any_keyframe_gets_nothing_to_start_on() {
    let mut registry = Registry::new();
    let (token, _) = registry.publish("live/cam1", description());
    registry.push("live/cam1", token, &picture(0, false));

    let (_, _, mut reader) = registry.read("live/cam1").unwrap();
    assert_eq!(drain(&mut reader), vec![picture(0, false)]);
}

#[test]
fn nothing_sent_while_a_reader_is_attaching_falls_between() {
    let mut registry = Registry::new();
    let (token, _) = registry.publish("live/cam1", description());
    registry.push("live/cam1", token, &picture(0, true));

    let (_, _, mut reader) = registry.read("live/cam1").unwrap();
    assert!(registry.push("live/cam1", token, &picture(33, false)));

    // The keyframe from the cache, then the one that arrived after joining,
    // and neither twice.
    assert_eq!(drain(&mut reader), vec![picture(0, true)]);
    assert_eq!(
        arrives(&mut reader, picture(33, false)),
        Some(picture(33, false))
    );
}

#[test]
fn a_reader_that_falls_behind_skips_to_where_it_can_start_again() {
    let mut registry = Registry::new();
    registry.publish("live/cam1", description());
    let (_, _, mut reader) = registry.read("live/cam1").unwrap();

    // The backlog was overrun without reading any of it: the oldest are lost.
    let sent = BACKLOG as u64 + 10;
    let lost = sent + 2 - BACKLOG as u64;
    assert!(matches!(reader.receive(Feed::Lagged(lost)), Next::Wait));
    for n in lost..sent {
        assert_eq!(arrives(&mut reader, picture(n, false)), None);
    }

    // Not the oldest thing still in the queue: the next picture the
    // stream can be started at.
    assert_eq!(
        arrives(&mut reader, picture(9000, true)),
        Some(picture(9000, true))
    );
    assert_eq!(
        arrives(&mut reader, picture(9001, false)),
        Some(picture(9001, false))
    );
    assert!(reader.skipped() > 0);
    // Those that were lost, and those that were passed over.
    assert_eq!(reader.skipped(), sent);
}

#[test]
fn sound_on_the_way_to_a_keyframe_is_skipped_and_counted() {
    let mut registry = Registry::new();
    registry.publish("live/cam1", description());
    let (_, _, mut reader) = registry.read("live/cam1").unwrap();

    assert_eq!(arrives(&mut reader, sound(1)), Some(sound(1)));
    assert!(matches!(reader.receive(Feed::Lagged(3)), Next::Wait));
    assert_eq!(arrives(&mut reader, sound(2)), None);
    assert!(matches!(reader.receive(Feed::Lagged(2)), Next::Wait));
    assert_eq!(arrives(&mut reader, picture(3, false)), None);
    assert_eq!(
        arrives(&mut reader, picture(4, true)),
        Some(picture(4, true))
    );
    assert_eq!(reader.skipped(), 7);
    assert_eq!(arrives(&mut reader, sound(5)), Some(sound(5)));
    assert_eq!(reader.skipped(), 7);
}

#[test]
fn a_publisher_that_no_reader_is_keeping_up_with_is_not_slowed_down() {
    let mut registry = Registry::new();
    let (token, _) = registry.publish("live/cam1", description());
    registry.read("live/cam1").unwrap();

    for n in 0..BACKLOG as u64 * 4 {
        assert!(registry.push("live/cam1", token, &picture(n, n % 30 == 0)));
    }
}

#[test]
fn a_reader_learns_when_the_publisher_goes() {
    let mut registry = Registry::new();
    let (token, _) = registry.publish("live/cam1", description());
    let (_, _, mut reader) = registry.read("live/cam1").unwrap();
    assert!(registry.push("live/cam1", token, &picture(0, true)));
    assert!(registry.leave("live/cam1", token));

    assert_eq!(
        arrives(&mut reader, picture(0, true)),
        Some(picture(0, true))
    );
    assert!(matches!(reader.receive(Feed::Closed), Next::Ended));
    assert!(registry.read("live/cam1").is_none());
    assert!(!registry.leave("live/cam1", token), "it has gone already");
}

#[test]
fn a_second_publisher_takes_the_path_and_the_first_is_told() {
    let mut registry = Registry::new();
    let (first, displaced) = registry.publish("live/cam1", description());
    assert_eq!(displaced, None);
    let (_, _, mut reader) = registry.read("live/cam1").unwrap();

    let (second, displaced) = registry.publish("live/cam1", description());
    assert_eq!(displaced, Some(first));
    assert_ne!(first, second);

    // Its readers end with it rather than being moved across, since the new
    // stream is described separately.
    assert!(matches!(reader.receive(Feed::Closed), Next::Ended));

    // And what it pushes now goes nowhere.
    assert!(!registry.push("live/cam1", first, &picture(0, true)));
    let (joined, _, mut moved) = registry.read("live/cam1").unwrap();
    assert_eq!(joined, second);
    assert_eq!(drain(&mut moved), vec![]);
    assert!(registry.push("live/cam1", second, &picture(50, true)));
    assert_eq!(
        arrives(&mut moved, picture(50, true)),
        Some(picture(50, true))
    );
}

#[test]
fn a_displaced_publisher_does_not_take_the_path_with_it() {
    let mut registry = Registry::new();
    let (first, _) = registry.publish("live/cam1", description());
    let (second, _) = registry.publish("live/cam1", description());
    assert!(!registry.leave("live/cam1", first));

    let (joined, _, mut reader) = registry
        .read("live/cam1")
        .expect("the second is still there");
    assert_eq!(joined, second);
    assert!(registry.push("live/cam1", second, &picture(0, true)));
    assert_eq!(
        arrives(&mut reader, picture(0, true)),
        Some(picture(0, true))
    );
}

#[test]
fn a_group_too_long_to_keep_is_not_kept_in_halves() {
    let mut registry = Registry::new();
    let (token, _) = registry.publish("live/cam1", description());

    registry.push("live/cam1", token, &picture(0, true));
    let huge = Unit::Video(VideoUnit::new(
        track(0),
        VideoPayload::H264(vec![
            h264::Nal::new(Bytes::from_owner(vec![0x41; CACHE_LIMIT + 1])).unwrap(),
        ]),
        MediaTime::zero(),
        MediaTime::zero(),
    ));
    registry.push("live/cam1", token, &huge);
    registry.push("live/cam1", token, &picture(66, false));

    // Half a group would not start a reader, so none of it is offered.
    let (_, _, mut reader) = registry.read("live/cam1").unwrap();
    assert!(drain(&mut reader).is_empty());

    // And the next keyframe puts it back to work.
    registry.push("live/cam1", token, &picture(99, true));
    let (_, _, mut reader) = registry.read("live/cam1").unwrap();
    assert_eq!(drain(&mut reader), vec![picture(99, true)]);
}

#[test]
fn a_stream_with_no_pictures_keeps_what_it_can_and_drops_the_oldest() {
    let description = Description::new(vec![Codec::Aac(
        aac::Parameters::parse(Bytes::from_static(&[0x12, 0x10])).unwrap(),
    )])
    .unwrap();
    let only = description.tracks()[0].id();
    let mut registry = Registry::new();
    let (token, _) = registry.publish("live/radio", description);

    // Nothing here opens a group, so the cache can only drop the oldest,
    // which is correct, since every frame of sound stands alone.
    let big = CACHE_LIMIT / 4 + 1;
    for n in 0..6u64 {
        registry.push(
            "live/radio",
            token,
            &Unit::Audio(AudioUnit {
                track: only,
                payload: AudioPayload::Aac(Bytes::from_owner(vec![n as u8; big])),
                pts: MediaTime::from_millis(n),
            }),
        );
    }

    let (_, _, mut reader) = registry.read("live/radio").unwrap();
    let held = drain(&mut reader);
    assert!(!held.is_empty(), "sound is still worth handing over");
    assert!(held.len() < 6, "and not all of it was kept");
    // Three of them fit, and they are the last three.
    assert_eq!(
        held.iter().map(Unit::pts).collect::<Vec<_>>(),
        [3, 4, 5].map(MediaTime::from_millis)
    );
}

#[test]
fn the_registry_lists_what_is_being_published() {
    let mut registry = Registry::new();
    let (first, _) = registry.publish("live/cam1", description());
    registry.publish("live/cam2", description());

    let mut names = registry.names();
    names.sort();
    assert_eq!(names, ["live/cam1", "live/cam2"]);

    registry.leave("live/cam1", first);
    assert_eq!(registry.names(), ["live/cam2"]);
}

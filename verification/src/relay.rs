//! What the parts come to together: that relaying is repackaging.
//!
//! A picture that arrives over RTMP leaves over RTSP as the same bytes in a
//! different wrapper, and so does a frame of sound. An ingest takes off one
//! framing, an egress puts on another, and what a client has after taking that
//! one off again is what the publisher put in. Nothing here runs: it is what the
//! contracts of the two ends say of each other.

use crate::codec::h264::{
    has, law_config_round_trips, law_length_prefixed_round_trips, length_prefixed, prefix_width,
    record_of, AvcConfigView, NalType,
};
use crate::rtmp::chunk::{MessageType, MessageView};
use crate::rtmp::flv::{
    audio_bytes, fits24, law_audio_tags_round_trip, law_video_tags_round_trip, video_bytes,
    AudioTagView, VideoTagView,
};
use crate::rtmp::session;
use crate::rtmp::session::{in_step, stated_codecs, stated_tracks, ActionView, SessionView, Stage};
use crate::rtp;
use crate::rtp::h264::{carriable, law_units_come_back_whole, reassembled, received, Received};
use crate::rtp::{header_of, law_header_reads_back, Piece, StreamView, HEADER_SIZE, MTU};
use crate::rtsp::server::{
    bound_at, frames_in, law_frames_read_back, law_no_packet_is_left_out, packets_for, pieces_of,
    sent, BoundView, PacketizerView,
};
use crate::track::{undescribable, CodecView};
use crate::unit::UnitView;
use vstd::prelude::*;

verus! {

/// The payloads of frames' packets, as a client finds them: what follows each
/// packet's header.
pub open spec fn packet_payloads(frames: Seq<(u8, Seq<u8>)>) -> Seq<Seq<u8>> {
    frames.map_values(|frame: (u8, Seq<u8>)| frame.1.skip(HEADER_SIZE as int))
}

/// The units a client has after some payloads of pictures, in order.
pub open spec fn watched(payloads: Seq<Seq<u8>>) -> Received
    decreases payloads.len(),
{
    if payloads.len() == 0 {
        Received { units: Seq::empty(), open: Seq::empty() }
    } else {
        received(watched(payloads.drop_last()), payloads.last())
    }
}

/// The frame a client has after some payloads of sound, in order: what follows
/// the sizes in front of each.
pub open spec fn heard(payloads: Seq<Seq<u8>>) -> Seq<u8>
    decreases payloads.len(),
{
    if payloads.len() == 0 {
        Seq::empty()
    } else {
        payloads.first().skip(rtp::aac::PREFIX as int) + heard(payloads.drop_first())
    }
}

/// Whether frames are all on the channel of the track they are of, and all say
/// when the unit they carry belongs, as its stream's clock counts it.
pub open spec fn all_of_one_moment(
    frames: Seq<(u8, Seq<u8>)>,
    bound: BoundView,
    unit: UnitView,
) -> bool {
    forall|i: int|
        0 <= i < frames.len() ==> (#[trigger] frames[i]).0 == bound.channel && header_of(
            frames[i].1,
        ).timestamp == bound.packetizer.stream().timestamp(unit.pts())
}

/// What a client that reads what was sent of a unit finds in the packets.
proof fn lemma_payloads_arrive(bound: Seq<BoundView>, at: int, unit: UnitView)
    requires
        bound_at(bound, unit.track(), 0) == Some(at),
        bound[at].packetizer.stream().mtu == MTU,
        bound[at].packetizer.stream().payload_type < 0x80,
    ensures
        ({
            let frames = frames_in(sent(bound, unit).1);
            let pieces = pieces_of(bound[at].packetizer, unit);
            &&& all_of_one_moment(frames, bound[at], unit)
            &&& packet_payloads(frames) == pieces.map_values(
                |piece: Piece| piece.prefix + piece.body,
            )
        }),
{
    let one = bound[at];
    let stream = one.packetizer.stream();
    let timestamp = stream.timestamp(unit.pts());
    let pieces = pieces_of(one.packetizer, unit);
    let packets = packets_for(one.packetizer, unit);
    assert forall|i: int| 0 <= i < packets.len() implies (#[trigger] packets[i]).len()
        <= 0xffff by {
        law_no_packet_is_left_out(one.packetizer, unit, i);
    }
    law_frames_read_back(one.channel, packets);
    let frames = frames_in(sent(bound, unit).1);
    assert(frames.len() == packets.len() == pieces.len());
    assert forall|i: int| 0 <= i < pieces.len() implies packet_payloads(frames)[i]
        == pieces[i].prefix + pieces[i].body && (#[trigger] frames[i]).0 == one.channel
        && header_of(frames[i].1).timestamp == timestamp by {
        law_header_reads_back(stream.advanced(i as nat), timestamp, pieces[i]);
        assert(frames[i] == (one.channel, packets[i]));
    }
    assert(packet_payloads(frames) =~= pieces.map_values(
        |piece: Piece| piece.prefix + piece.body,
    ));
}

proof fn lemma_watched_reassembles(pieces: Seq<Piece>)
    ensures
        watched(pieces.map_values(|piece: Piece| piece.prefix + piece.body)) == reassembled(
            Received { units: Seq::empty(), open: Seq::empty() },
            pieces,
        ),
    decreases pieces.len(),
{
    let payloads = pieces.map_values(|piece: Piece| piece.prefix + piece.body);
    if pieces.len() > 0 {
        lemma_watched_reassembles(pieces.drop_last());
        assert(payloads.drop_last() =~= pieces.drop_last().map_values(
            |piece: Piece| piece.prefix + piece.body,
        ));
    }
}

proof fn lemma_heard_joins(pieces: Seq<Piece>)
    requires
        forall|i: int|
            0 <= i < pieces.len() ==> (#[trigger] pieces[i]).prefix.len() == rtp::aac::PREFIX,
    ensures
        heard(pieces.map_values(|piece: Piece| piece.prefix + piece.body)) == rtp::aac::joined(
            pieces,
        ),
    decreases pieces.len(),
{
    let payloads = pieces.map_values(|piece: Piece| piece.prefix + piece.body);
    if pieces.len() > 0 {
        lemma_heard_joins(pieces.drop_first());
        assert(payloads.drop_first() =~= pieces.drop_first().map_values(
            |piece: Piece| piece.prefix + piece.body,
        ));
        let first = pieces.first();
        assert((first.prefix + first.body).skip(rtp::aac::PREFIX as int) =~= first.body);
    }
}

/// A picture that arrives over RTMP leaves over RTSP as the same NAL units:
/// whatever the width of the prefixes they came with, and however many packets
/// each is cut into, a client that puts the packets together has the units the
/// publisher sent, all of them and in order, and is told when they belong.
///
/// Asked of units that RTP can carry, and of a connection on which the stream's
/// video track was set up.
pub proof fn law_pictures_pass_through_unchanged(
    s: SessionView,
    message: MessageView,
    keyframe: bool,
    composition_time: i32,
    nalus: Seq<Seq<u8>>,
    bound: Seq<BoundView>,
    at: int,
    stream: StreamView,
)
    requires
        in_step(s),
        s.stage == Stage::Publishing,
        s.video is Some,
        undescribable(stated_codecs(s)) is None,
        message.kind == MessageType::Video,
        fits24(composition_time as int),
        forall|i: int| 0 <= i < nalus.len() ==> (#[trigger] nalus[i]).len() <= usize::MAX,
        carriable(nalus),
        length_prefixed(nalus, s.video->0.nal_length_size) matches Ok(data) && message.payload
            == video_bytes(VideoTagView::Picture { keyframe, composition_time, data }),
        bound_at(bound, 0, 0) == Some(at),
        bound[at].packetizer == PacketizerView::H264(stream),
        stream.mtu == MTU,
        stream.payload_type < 0x80,
    ensures
        session::handled(s, message).outcome matches Ok(actions) && actions.last() matches
            ActionView::Unit(unit) && {
            let frames = frames_in(sent(bound, unit).1);
            &&& unit matches UnitView::Video { nalus: carried, keyframe, .. } && carried == nalus
                && keyframe == has(nalus, NalType::Idr)
            &&& all_of_one_moment(frames, bound[at], unit)
            &&& watched(packet_payloads(frames)) == (Received { units: nalus, open: Seq::empty() })
        },
{
    let size = s.video->0.nal_length_size;
    let data = length_prefixed(nalus, size)->Ok_0;
    law_video_tags_round_trip(VideoTagView::Picture { keyframe, composition_time, data });
    law_length_prefixed_round_trips(nalus, size);
    let actions = session::handled(s, message).outcome->Ok_0;
    let unit = actions.last()->Unit_0;
    assert(unit.track() == 0);
    lemma_payloads_arrive(bound, at, unit);
    lemma_watched_reassembles(pieces_of(bound[at].packetizer, unit));
    law_units_come_back_whole(nalus, nalus.len(), stream.budget());
    assert(nalus.take(nalus.len() as int) =~= nalus);
}

/// A frame of sound that arrives over RTMP leaves over RTSP as the same bytes: a
/// client that puts its packets together has the frame the publisher sent, and
/// is told when it belongs.
///
/// Asked of a frame whose size RTP can state, and of a connection on which the
/// stream's audio track was set up.
pub proof fn law_sound_passes_through_unchanged(
    s: SessionView,
    message: MessageView,
    frame: Seq<u8>,
    bound: Seq<BoundView>,
    at: int,
    stream: StreamView,
)
    requires
        in_step(s),
        s.stage == Stage::Publishing,
        s.audio is Some,
        undescribable(stated_codecs(s)) is None,
        message.kind == MessageType::Audio,
        message.payload == audio_bytes(AudioTagView::Frame(frame)),
        frame.len() <= rtp::aac::MAX_ACCESS_UNIT,
        bound_at(bound, stated_tracks(s).audio->0, 0) == Some(at),
        bound[at].packetizer == PacketizerView::Aac(stream),
        stream.mtu == MTU,
        stream.payload_type < 0x80,
    ensures
        session::handled(s, message).outcome matches Ok(actions) && actions.last() matches
            ActionView::Unit(unit) && {
            let frames = frames_in(sent(bound, unit).1);
            &&& unit matches UnitView::Audio { frame: carried, .. } && carried == frame
            &&& all_of_one_moment(frames, bound[at], unit)
            &&& heard(packet_payloads(frames)) == frame
        },
{
    law_audio_tags_round_trip(AudioTagView::Frame(frame));
    let actions = session::handled(s, message).outcome->Ok_0;
    let unit = actions.last()->Unit_0;
    lemma_payloads_arrive(bound, at, unit);
    rtp::aac::law_frame_comes_back_whole(frame, stream.budget());
    let pieces = pieces_of(bound[at].packetizer, unit);
    lemma_heard_joins(pieces);
}

/// The parameter sets a publisher states in its sequence header are the ones
/// its stream is described with, and so the ones every reader is told.
pub proof fn law_parameter_sets_reach_the_description(
    s: SessionView,
    message: MessageView,
    config: AvcConfigView,
)
    requires
        s.stage == Stage::Publishing,
        s.video is None,
        s.published is None,
        1 <= config.parameters.sps.len() <= 31,
        1 <= config.parameters.pps.len() <= 255,
        prefix_width(config.nal_length_size),
        forall|i: int|
            0 <= i < config.parameters.sps.len() ==> (#[trigger] config.parameters.sps[i]).len()
                > 0,
        forall|i: int|
            0 <= i < config.parameters.pps.len() ==> (#[trigger] config.parameters.pps[i]).len()
                > 0,
        message.kind == MessageType::Video,
        record_of(config) matches Ok(record) && message.payload == video_bytes(
            VideoTagView::SequenceHeader(record),
        ),
    ensures
        ({
            let taken = session::handled(s, message);
            &&& taken.outcome matches Ok(actions) && actions.len() == 0
            &&& stated_codecs(taken.session).len() > 0
            &&& stated_codecs(taken.session)[0] == CodecView::H264(config.parameters)
            &&& undescribable(stated_codecs(taken.session)) is None
        }),
{
    law_config_round_trips(config);
    let record = record_of(config)->Ok_0;
    law_video_tags_round_trip(VideoTagView::SequenceHeader(record));
    reveal_with_fuel(crate::track::first_unplayable, 3);
}

} // verus!

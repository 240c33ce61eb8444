//! What is in front of the coded bytes in an audio or video message.
//!
//! RTMP does not put media straight into a message. It puts an FLV tag body
//! there, the same few bytes a `.flv` file uses, and the media follows that.
//! The tag says which codec, which kind of frame, and whether these bytes are
//! the stream's parameters or a frame of it.
//!
//! ```text
//! video: [frame type | codec][packet type][composition time :24][payload]
//! audio: [format | rate | size | type][packet type][payload]
//! ```
//!
//! # Where a description comes from
//!
//! Packet type 0 is not media. It is the record a decoder is configured
//! with, an `AVCDecoderConfigurationRecord` for video, an
//! `AudioSpecificConfig` for audio, sent once, before anything else on that
//! track. That is the message a [`crate::track::Description`] is built from,
//! and until it has arrived a publisher has sent nothing that can be served.
//!
//! # The signed field
//!
//! A video tag's composition time is how far a picture's presentation time
//! is from its decode time, and it is a **signed** 24-bit number. A stream
//! with B-frames sends negative ones. Read as unsigned, `-1` becomes
//! 16 777 215: a presentation time four and a half hours into the future,
//! on a picture that should have been shown a millisecond ago.

use crate::buffer::{
    be24, get_u24, lemma_num24_amid, lemma_widths, num24, octets, put_slice, put_u24, put_u8, slice,
    Contents,
};
use crate::text::{hex_byte, push_hex, push_text};
use bytes::{Bytes, BytesMut};
use vstd::prelude::*;

verus! {

broadcast use lemma_widths;

/// H.264, and the only video codec a legacy tag carries here.
pub const AVC: u8 = 7;

/// AAC, and the only audio codec a legacy tag carries here.
pub const AAC: u8 = 10;

/// What can be wrong with a tag.
#[derive(Debug, PartialEq, Eq)]
pub enum FlvError {
    /// The tag ended before its header did.
    Truncated { offset: usize, needed: usize },
    /// A video codec this does not read. Named rather than passed through:
    /// the bytes after the first mean different things per codec, so an
    /// unrecognized one is a payload of unknown shape.
    UnreadVideoCodec(u8),
    /// An audio codec this does not read.
    UnreadAudioFormat(u8),
    /// The extended tag header that enhanced RTMP uses to carry HEVC, AV1
    /// and VP9. A different header shape, not a codec id, which is why it is
    /// its own error.
    Enhanced { codec: String },
    /// A packet type outside the three a tag defines.
    UnknownPacketType(u8),
    /// A composition time too large for the three bytes that carry it.
    CompositionTimeTooLarge(i32),
}

/// What a [`FlvError`] says.
pub enum FlvErrorView {
    Truncated { offset: nat, needed: nat },
    UnreadVideoCodec(u8),
    UnreadAudioFormat(u8),
    Enhanced { codec: Seq<char> },
    UnknownPacketType(u8),
    CompositionTimeTooLarge(i32),
}

impl View for FlvError {
    type V = FlvErrorView;

    open spec fn view(&self) -> FlvErrorView {
        match *self {
            FlvError::Truncated { offset, needed } => FlvErrorView::Truncated {
                offset: offset as nat,
                needed: needed as nat,
            },
            FlvError::UnreadVideoCodec(codec) => FlvErrorView::UnreadVideoCodec(codec),
            FlvError::UnreadAudioFormat(format) => FlvErrorView::UnreadAudioFormat(format),
            FlvError::Enhanced { codec } => FlvErrorView::Enhanced { codec: codec@ },
            FlvError::UnknownPacketType(kind) => FlvErrorView::UnknownPacketType(kind),
            FlvError::CompositionTimeTooLarge(time) => FlvErrorView::CompositionTimeTooLarge(time),
        }
    }
}

/// What a video message carries.
#[derive(Debug, PartialEq, Eq)]
pub enum VideoTag {
    /// The `AVCDecoderConfigurationRecord` a decoder is set up from, which
    /// arrives once before any picture. See [`crate::codec::h264::AvcConfig`].
    SequenceHeader(Bytes),
    /// One access unit, still length-prefixed at the width the sequence
    /// header declared.
    Picture {
        /// What the publisher said this is. The answer a unit carries is
        /// read from the NAL units themselves instead, because that is what a
        /// decoder will do, and encoders that set this wrong exist. This is
        /// here because a tag going back out has to state something.
        keyframe: bool,
        /// How far this picture's presentation time is from its decode
        /// time, in milliseconds. Zero without B-frames, negative with them.
        composition_time: i32,
        /// The access unit, length-prefixed.
        data: Bytes,
    },
    /// The end of the sequence: no more pictures on this track. Carries
    /// nothing.
    End,
}

/// What a [`VideoTag`] says.
pub enum VideoTagView {
    SequenceHeader(Seq<u8>),
    Picture { keyframe: bool, composition_time: i32, data: Seq<u8> },
    End,
}

impl View for VideoTag {
    type V = VideoTagView;

    open spec fn view(&self) -> VideoTagView {
        match *self {
            VideoTag::SequenceHeader(record) => VideoTagView::SequenceHeader(record@),
            VideoTag::Picture { keyframe, composition_time, data } => VideoTagView::Picture {
                keyframe,
                composition_time,
                data: data@,
            },
            VideoTag::End => VideoTagView::End,
        }
    }
}

impl Clone for VideoTag {
    fn clone(&self) -> (copy: Self)
        ensures
            copy@ == self@,
    {
        match self {
            VideoTag::SequenceHeader(record) => VideoTag::SequenceHeader(record.clone()),
            VideoTag::Picture { keyframe, composition_time, data } => VideoTag::Picture {
                keyframe: *keyframe,
                composition_time: *composition_time,
                data: data.clone(),
            },
            VideoTag::End => VideoTag::End,
        }
    }
}

/// What an audio message carries.
#[derive(Debug, PartialEq, Eq)]
pub enum AudioTag {
    /// The `AudioSpecificConfig` a decoder is set up from, which arrives
    /// once before any frame. See [`crate::codec::aac::Parameters`].
    SequenceHeader(Bytes),
    /// One raw access unit, with no ADTS header.
    Frame(Bytes),
}

/// What an [`AudioTag`] says.
pub enum AudioTagView {
    SequenceHeader(Seq<u8>),
    Frame(Seq<u8>),
}

impl View for AudioTag {
    type V = AudioTagView;

    open spec fn view(&self) -> AudioTagView {
        match *self {
            AudioTag::SequenceHeader(record) => AudioTagView::SequenceHeader(record@),
            AudioTag::Frame(frame) => AudioTagView::Frame(frame@),
        }
    }
}

impl Clone for AudioTag {
    fn clone(&self) -> (copy: Self)
        ensures
            copy@ == self@,
    {
        match self {
            AudioTag::SequenceHeader(record) => AudioTag::SequenceHeader(record.clone()),
            AudioTag::Frame(frame) => AudioTag::Frame(frame.clone()),
        }
    }
}

/// What is wrong with a tag that ends before its first `count` bytes do.
pub open spec fn cut_short(s: Seq<u8>, count: nat) -> FlvErrorView {
    FlvErrorView::Truncated { offset: s.len(), needed: (count - s.len()) as nat }
}

/// Whether a byte is a printing ASCII character other than a space.
pub open spec fn graphic(byte: u8) -> bool {
    0x21 <= byte <= 0x7e
}

/// A FourCC as something a person can read: the four characters, or the bytes
/// where they are not all characters.
pub open spec fn fourcc_name(s: Seq<u8>) -> Seq<char> {
    if s.len() < 5 {
        "an unstated codec"@
    } else if graphic(s[1]) && graphic(s[2]) && graphic(s[3]) && graphic(s[4]) {
        seq![s[1] as char, s[2] as char, s[3] as char, s[4] as char]
    } else {
        "["@ + hex_byte(s[1]) + ", "@ + hex_byte(s[2]) + ", "@ + hex_byte(s[3]) + ", "@ + hex_byte(
            s[4],
        ) + "]"@
    }
}

/// The signed number a three-byte field writes.
pub open spec fn signed24(field: int) -> int {
    if field < 0x80_0000 {
        field
    } else {
        field - 0x100_0000
    }
}

/// What a video message's payload says, or what is wrong with it.
///
/// Enhanced RTMP moved the codec out of four bits and into a FourCC, and says
/// so with the top bit. Frame type 1 is a keyframe and 4 is a keyframe a
/// server generated.
pub open spec fn video_of(s: Seq<u8>) -> Result<VideoTagView, FlvErrorView> {
    if s.len() < 1 {
        Err(cut_short(s, 1))
    } else if s[0] >= 0x80 {
        Err(FlvErrorView::Enhanced { codec: fourcc_name(s) })
    } else if s[0] % 16 != AVC {
        Err(FlvErrorView::UnreadVideoCodec(s[0] % 16))
    } else if s.len() < 2 {
        Err(cut_short(s, 2))
    } else if s[1] > 2 {
        Err(FlvErrorView::UnknownPacketType(s[1]))
    } else if s[1] == 2 {
        Ok(VideoTagView::End)
    } else if s.len() < 5 {
        Err(cut_short(s, 5))
    } else if s[1] == 0 {
        Ok(VideoTagView::SequenceHeader(s.skip(5)))
    } else {
        Ok(
            VideoTagView::Picture {
                keyframe: s[0] / 16 == 1 || s[0] / 16 == 4,
                composition_time: signed24(num24(s, 2)) as i32,
                data: s.skip(5),
            },
        )
    }
}

/// What an audio message's payload says, or what is wrong with it.
pub open spec fn audio_of(s: Seq<u8>) -> Result<AudioTagView, FlvErrorView> {
    if s.len() < 1 {
        Err(cut_short(s, 1))
    } else if s[0] / 16 != AAC {
        Err(FlvErrorView::UnreadAudioFormat(s[0] / 16))
    } else if s.len() < 2 {
        Err(cut_short(s, 2))
    } else if s[1] == 0 {
        Ok(AudioTagView::SequenceHeader(s.skip(2)))
    } else if s[1] == 1 {
        Ok(AudioTagView::Frame(s.skip(2)))
    } else {
        Err(FlvErrorView::UnknownPacketType(s[1]))
    }
}

/// Whether a composition time fits the field that carries it.
pub open spec fn fits24(value: int) -> bool {
    -0x80_0000 <= value < 0x80_0000
}

/// A video message's payload.
pub open spec fn video_bytes(tag: VideoTagView) -> Seq<u8> {
    match tag {
        VideoTagView::SequenceHeader(record) => seq![0x17u8, 0, 0, 0, 0] + record,
        VideoTagView::Picture { keyframe, composition_time, data } => seq![
            if keyframe {
                0x17u8
            } else {
                0x27u8
            },
            1,
        ] + be24(
            if composition_time < 0 {
                composition_time + 0x100_0000
            } else {
                composition_time as int
            },
        ) + data,
        VideoTagView::End => seq![0x17u8, 2, 0, 0, 0],
    }
}

/// An audio message's payload. The three fields after the format are 44 kHz,
/// 16-bit and stereo, as AAC requires, whatever the stream is.
pub open spec fn audio_bytes(tag: AudioTagView) -> Seq<u8> {
    match tag {
        AudioTagView::SequenceHeader(record) => seq![0xafu8, 0] + record,
        AudioTagView::Frame(frame) => seq![0xafu8, 1] + frame,
    }
}

/// Whether the first `count` bytes of a tag are there.
fn need(data: &[u8], count: usize) -> (outcome: Result<(), FlvError>)
    ensures
        outcome is Ok <==> data@.len() >= count,
        outcome matches Err(error) ==> error@ == cut_short(data@, count as nat),
{
    if data.len() < count {
        Err(FlvError::Truncated { offset: data.len(), needed: count - data.len() })
    } else {
        Ok(())
    }
}

/// Reads a video message's payload.
pub fn read_video(data: &Bytes) -> (outcome: Result<VideoTag, FlvError>)
    ensures
        match outcome {
            Ok(tag) => video_of(data@) == Ok::<_, FlvErrorView>(tag@),
            Err(error) => video_of(data@) == Err::<VideoTagView, _>(error@),
        },
{
    let bytes = octets(data);
    match need(bytes, 1) {
        Ok(()) => {},
        Err(error) => {
            return Err(error);
        },
    }
    let first: u8 = bytes[0];
    if first >= 0x80 {
        return Err(FlvError::Enhanced { codec: fourcc(bytes) });
    }
    if first % 16 != AVC {
        return Err(FlvError::UnreadVideoCodec(first % 16));
    }
    match need(bytes, 2) {
        Ok(()) => {},
        Err(error) => {
            return Err(error);
        },
    }
    let packet_type: u8 = bytes[1];
    if packet_type > 2 {
        return Err(FlvError::UnknownPacketType(packet_type));
    }
    if packet_type == 2 {
        return Ok(VideoTag::End);
    }
    match need(bytes, 5) {
        Ok(()) => {},
        Err(error) => {
            return Err(error);
        },
    }
    let rest = slice(data, 5, bytes.len());
    assert(rest@ =~= data@.skip(5));
    if packet_type == 0 {
        return Ok(VideoTag::SequenceHeader(rest));
    }
    let field: u32 = get_u24(bytes, 2);
    let composition_time: i32 = if field < 0x80_0000 {
        field as i32
    } else {
        field as i32 - 0x100_0000
    };
    Ok(
        VideoTag::Picture {
            keyframe: first / 16 == 1 || first / 16 == 4,
            composition_time,
            data: rest,
        },
    )
}

/// Reads an audio message's payload.
///
/// The sample rate, sample size and channel count in the first byte are read
/// past rather than read. For AAC they are required to say 44 kHz, 16-bit
/// and stereo whatever the stream actually is, and the true values are in
/// the `AudioSpecificConfig`.
pub fn read_audio(data: &Bytes) -> (outcome: Result<AudioTag, FlvError>)
    ensures
        match outcome {
            Ok(tag) => audio_of(data@) == Ok::<_, FlvErrorView>(tag@),
            Err(error) => audio_of(data@) == Err::<AudioTagView, _>(error@),
        },
{
    let bytes = octets(data);
    match need(bytes, 1) {
        Ok(()) => {},
        Err(error) => {
            return Err(error);
        },
    }
    let format: u8 = bytes[0] / 16;
    if format != AAC {
        return Err(FlvError::UnreadAudioFormat(format));
    }
    match need(bytes, 2) {
        Ok(()) => {},
        Err(error) => {
            return Err(error);
        },
    }
    let rest = slice(data, 2, bytes.len());
    assert(rest@ =~= data@.skip(2));
    match bytes[1] {
        0 => Ok(AudioTag::SequenceHeader(rest)),
        1 => Ok(AudioTag::Frame(rest)),
        other => Err(FlvError::UnknownPacketType(other)),
    }
}

/// Writes a video message's payload.
pub fn write_video(tag: &VideoTag) -> (outcome: Result<Bytes, FlvError>)
    ensures
        outcome is Ok <==> (tag@ matches VideoTagView::Picture { composition_time, .. } ==> fits24(
            composition_time as int,
        )),
        outcome matches Ok(data) ==> data@ == video_bytes(tag@),
        outcome matches Err(error) ==> error@ == FlvErrorView::CompositionTimeTooLarge(
            tag@->composition_time,
        ),
{
    let mut out = BytesMut::new();
    match tag {
        VideoTag::SequenceHeader(record) => {
            put_head(&mut out, 0x10 + AVC, 0);
            put_u8(&mut out, 0);
            put_u8(&mut out, 0);
            put_u8(&mut out, 0);
            put_slice(&mut out, octets(record));
        },
        VideoTag::Picture { keyframe, composition_time, data } => {
            let value: i32 = *composition_time;
            if value < -0x80_0000 || value >= 0x80_0000 {
                return Err(FlvError::CompositionTimeTooLarge(value));
            }
            let frame_type: u8 = if *keyframe {
                0x10
            } else {
                0x20
            };
            put_head(&mut out, frame_type + AVC, 1);
            put_u24(
                &mut out,
                if value < 0 {
                    (value + 0x100_0000) as u32
                } else {
                    value as u32
                },
            );
            put_slice(&mut out, octets(data));
        },
        VideoTag::End => {
            put_head(&mut out, 0x10 + AVC, 2);
            put_u8(&mut out, 0);
            put_u8(&mut out, 0);
            put_u8(&mut out, 0);
        },
    }
    let data = out.freeze();
    assert(data@ =~= video_bytes(tag@));
    Ok(data)
}

/// Appends the two bytes both kinds of tag begin with.
fn put_head(out: &mut BytesMut, first: u8, packet_type: u8)
    ensures
        final(out)@ == old(out)@ + seq![first, packet_type],
{
    put_u8(out, first);
    put_u8(out, packet_type);
    assert(out@ =~= old(out)@ + seq![first, packet_type]);
}

/// Writes an audio message's payload.
///
/// The three fields after the format are written as AAC requires, 44 kHz,
/// 16-bit, stereo, whatever the stream is. See [`read_audio`].
pub fn write_audio(tag: &AudioTag) -> (data: Bytes)
    ensures
        data@ == audio_bytes(tag@),
{
    let mut out = BytesMut::new();
    match tag {
        AudioTag::SequenceHeader(record) => {
            put_head(&mut out, AAC * 16 + 0x0f, 0);
            put_slice(&mut out, octets(record));
        },
        AudioTag::Frame(frame) => {
            put_head(&mut out, AAC * 16 + 0x0f, 1);
            put_slice(&mut out, octets(frame));
        },
    }
    let data = out.freeze();
    assert(data@ =~= audio_bytes(tag@));
    data
}

fn is_graphic(byte: u8) -> (graphic: bool)
    ensures
        graphic == self::graphic(byte),
{
    0x21 <= byte && byte <= 0x7e
}

/// A FourCC as something a person can read, for an error message.
fn fourcc(bytes: &[u8]) -> (name: String)
    ensures
        name@ == fourcc_name(bytes@),
{
    if bytes.len() < 5 {
        return "an unstated codec".to_owned();
    }
    let mut name = String::new();
    if is_graphic(bytes[1]) && is_graphic(bytes[2]) && is_graphic(bytes[3]) && is_graphic(
        bytes[4],
    ) {
        name.push(bytes[1] as char);
        name.push(bytes[2] as char);
        name.push(bytes[3] as char);
        name.push(bytes[4] as char);
        assert(name@ =~= fourcc_name(bytes@));
        return name;
    }
    push_text(&mut name, "[");
    push_hex(&mut name, bytes[1]);
    push_text(&mut name, ", ");
    push_hex(&mut name, bytes[2]);
    push_text(&mut name, ", ");
    push_hex(&mut name, bytes[3]);
    push_text(&mut name, ", ");
    push_hex(&mut name, bytes[4]);
    push_text(&mut name, "]");
    assert(name@ =~= fourcc_name(bytes@));
    name
}

/// A video tag that can be written reads back as it was, whatever its
/// composition time.
pub proof fn law_video_tags_round_trip(tag: VideoTagView)
    requires
        tag matches VideoTagView::Picture { composition_time, .. } ==> fits24(
            composition_time as int,
        ),
    ensures
        video_of(video_bytes(tag)) == Ok::<_, FlvErrorView>(tag),
{
    let s = video_bytes(tag);
    match tag {
        VideoTagView::SequenceHeader(record) => {
            assert(s.skip(5) =~= record);
        },
        VideoTagView::Picture { keyframe, composition_time, data } => {
            let head = seq![
                if keyframe {
                    0x17u8
                } else {
                    0x27u8
                },
                1,
            ];
            let field = if composition_time < 0 {
                composition_time + 0x100_0000
            } else {
                composition_time as int
            };
            lemma_num24_amid(head, field, data);
            assert(s[0] == head[0] && s[1] == head[1]);
            assert(s.skip(5) =~= data);
        },
        VideoTagView::End => {},
    }
}

/// An audio tag reads back as it was written.
pub proof fn law_audio_tags_round_trip(tag: AudioTagView)
    ensures
        audio_of(audio_bytes(tag)) == Ok::<_, FlvErrorView>(tag),
{
    let s = audio_bytes(tag);
    match tag {
        AudioTagView::SequenceHeader(record) => {
            assert(s.skip(2) =~= record);
        },
        AudioTagView::Frame(frame) => {
            assert(s.skip(2) =~= frame);
        },
    }
}

/// A video message by its bytes: the frame type over the codec in the first, which is
/// H.264's or nothing that is read; the packet type in the second; then three bytes
/// of composition time, signed and the highest first; and then what it carries.
pub proof fn law_video_by_its_bytes(s: Seq<u8>)
    requires
        s.len() >= 5,
    ensures
        ({
            let field = s[2] * 0x1_0000 + s[3] * 0x100 + s[4];
            let codec = s[0] % 16;
            &&& s[0] >= 0x80 ==> (video_of(s) matches Err(error) && error is Enhanced)
            &&& s[0] < 0x80 && codec != 7 ==> video_of(s) == Err::<VideoTagView, _>(
                FlvErrorView::UnreadVideoCodec(codec),
            )
            &&& s[0] < 0x80 && codec == 7 ==> video_of(s) == (if s[1] == 0 {
                Ok(VideoTagView::SequenceHeader(s.skip(5)))
            } else if s[1] == 1 {
                Ok(
                    VideoTagView::Picture {
                        keyframe: s[0] / 16 == 1 || s[0] / 16 == 4,
                        composition_time: (if field < 0x80_0000 {
                            field
                        } else {
                            field - 0x100_0000
                        }) as i32,
                        data: s.skip(5),
                    },
                )
            } else if s[1] == 2 {
                Ok(VideoTagView::End)
            } else {
                Err(FlvErrorView::UnknownPacketType(s[1]))
            })
        }),
{
}

/// A video message needs its five bytes, but for the one that ends the sequence,
/// which needs two, and one that is not read anyway, which needs one.
pub proof fn law_short_video_is_truncated(s: Seq<u8>)
    requires
        s.len() < 5,
    ensures
        s.len() == 0 ==> video_of(s) == Err::<VideoTagView, _>(
            FlvErrorView::Truncated { offset: 0, needed: 1 },
        ),
        s.len() > 0 && s[0] < 0x80 && s[0] % 16 == 7 ==> video_of(s) == (if s.len() == 1 {
            Err(FlvErrorView::Truncated { offset: 1, needed: 1 })
        } else if s[1] == 2 {
            Ok(VideoTagView::End)
        } else if s[1] > 2 {
            Err(FlvErrorView::UnknownPacketType(s[1]))
        } else {
            Err(FlvErrorView::Truncated { offset: s.len(), needed: (5 - s.len()) as nat })
        }),
{
}

/// An audio message by its bytes: the format in the top half of the first, which is
/// AAC's or nothing that is read, and the packet type in the second. What the lower
/// half of the first says is nothing to anyone.
pub proof fn law_audio_by_its_bytes(s: Seq<u8>)
    ensures
        s.len() == 0 ==> audio_of(s) == Err::<AudioTagView, _>(
            FlvErrorView::Truncated { offset: 0, needed: 1 },
        ),
        s.len() > 0 && s[0] / 16 != 10 ==> audio_of(s) == Err::<AudioTagView, _>(
            FlvErrorView::UnreadAudioFormat(s[0] / 16),
        ),
        s.len() == 1 && s[0] / 16 == 10 ==> audio_of(s) == Err::<AudioTagView, _>(
            FlvErrorView::Truncated { offset: 1, needed: 1 },
        ),
        s.len() >= 2 && s[0] / 16 == 10 ==> audio_of(s) == (if s[1] == 0 {
            Ok(AudioTagView::SequenceHeader(s.skip(2)))
        } else if s[1] == 1 {
            Ok(AudioTagView::Frame(s.skip(2)))
        } else {
            Err(FlvErrorView::UnknownPacketType(s[1]))
        }),
{
}

/// The tags that are written, by their bytes: H.264 as a keyframe or as none, and AAC
/// as 44 kHz, 16 bits and stereo.
pub proof fn law_tags_are_written_by_their_bytes(
    keyframe: bool,
    composition_time: i32,
    data: Seq<u8>,
)
    requires
        -0x80_0000 <= composition_time < 0x80_0000,
    ensures
        ({
            let s = video_bytes(VideoTagView::Picture { keyframe, composition_time, data });
            let field = s[2] * 0x1_0000 + s[3] * 0x100 + s[4];
            &&& s.len() == 5 + data.len()
            &&& s[0] == (if keyframe {
                0x17u8
            } else {
                0x27u8
            }) && s[1] == 1
            &&& field == composition_time || field == composition_time + 0x100_0000
            &&& s.skip(5) == data
        }),
        video_bytes(VideoTagView::SequenceHeader(data)) == seq![0x17u8, 0, 0, 0, 0] + data,
        video_bytes(VideoTagView::End) == seq![0x17u8, 2, 0, 0, 0],
        audio_bytes(AudioTagView::SequenceHeader(data)) == seq![0xafu8, 0] + data,
        audio_bytes(AudioTagView::Frame(data)) == seq![0xafu8, 1] + data,
{
    let field = if composition_time < 0 {
        composition_time + 0x100_0000
    } else {
        composition_time as int
    };
    let head = seq![
        if keyframe {
            0x17u8
        } else {
            0x27u8
        },
        1,
    ];
    let s = video_bytes(VideoTagView::Picture { keyframe, composition_time, data });
    assert(s =~= head + be24(field) + data);
    lemma_num24_amid(head, field, data);
    assert(s.skip(5) =~= data);
}

/// A codec that comes with a name of four letters is named by them.
pub proof fn law_extended_codecs_are_named(s: Seq<u8>)
    requires
        s.len() >= 5,
        s[0] >= 0x80,
        forall|i: int| 1 <= i < 5 ==> 0x21 <= #[trigger] s[i] <= 0x7e,
    ensures
        video_of(s) == Err::<VideoTagView, _>(
            FlvErrorView::Enhanced {
                codec: seq![s[1] as char, s[2] as char, s[3] as char, s[4] as char],
            },
        ),
{
    assert(graphic(s[1]) && graphic(s[2]) && graphic(s[3]) && graphic(s[4]));
}

} // verus!

//! Writing a [`Description`] as the text RTSP answers `DESCRIBE` with.
//!
//! SDP is a list of one-letter fields, and what a reader takes from it is
//! the same set of facts a track description already holds: what the codecs
//! are, what a decoder has to be given, and which clock the timestamps count
//! in. So this is a notation and nothing more; no decision is made here that
//! is not already in the description.
//!
//! ```text
//! v=0
//! o=- 0 0 IN IP4 0.0.0.0
//! s=live/cam1
//! c=IN IP4 0.0.0.0
//! t=0 0
//! a=control:*
//! m=video 0 RTP/AVP 96
//! a=rtpmap:96 H264/90000
//! a=fmtp:96 packetization-mode=1; profile-level-id=42c01e; sprop-parameter-sets=Z0LAHtkA,aM48gA==
//! a=control:trackID=0
//! ```
//!
//! # Where the parameter sets go
//!
//! In the `fmtp` line, base64-encoded, rather than in the stream. A reader
//! that has the SDP can start on the first picture it is sent; one that had
//! to wait for the parameter sets in-band would wait for the publisher to
//! repeat them, which many never do.
//!
//! # The addresses are zero
//!
//! `c=` and the port in each `m=` line say nothing on purpose. Where the
//! packets go is settled per track by `SETUP`, which the client sends after
//! reading this: either a pair of its own UDP ports or a pair of channels
//! on the connection the SDP arrived on. An address here would be a second
//! answer to a question already asked elsewhere.

use crate::buffer::{octets, Contents};
use crate::codec::aac::{fields_of, Fields};
use crate::codec::h264::{profile_level_of, units, Nal, ParametersView};
use crate::codec::{aac, h264};
use crate::rtp::payload_type;
use crate::text::{
    before, characters, decimal, digits_value, hex_byte, hex_bytes, hex_text, lacks,
    law_hexadecimal_reads_back, law_parts_add_up, lemma_decimal_reads, lemma_line_reads, lemma_split_joined,
    lemma_unsplit, lines, parts_between, push_decimal, push_hex, push_text, split_once, starts_with,
};
use crate::track::{Codec, CodecView, Description, Track};
use vstd::prelude::*;

verus! {

/// A line, with what ends it.
pub open spec fn line(text: Seq<char>) -> Seq<char> {
    text + "\r\n"@
}

/// Whether a character is a control character, as Unicode has it.
pub open spec fn is_control(c: char) -> bool {
    c as u32 <= 0x1f || 0x7f <= c as u32 <= 0x9f
}

/// A name kept to one line.
pub open spec fn sanitized(name: Seq<char>) -> Seq<char> {
    name.map_values(
        |c: char|
            if is_control(c) {
                ' '
            } else {
                c
            },
    )
}

/// The character that base64 writes six bits as.
pub open spec fn base64_digit(n: int) -> char {
    if n < 26 {
        (0x41 + n) as u8 as char
    } else if n < 52 {
        (0x61 + (n - 26)) as u8 as char
    } else if n < 62 {
        (0x30 + (n - 52)) as u8 as char
    } else if n == 62 {
        '+'
    } else {
        '/'
    }
}

/// One to three bytes in base64: one character per six bits, and a pad for
/// every byte the group is short.
pub open spec fn base64_group(group: Seq<u8>) -> Seq<char> {
    let second = if group.len() > 1 {
        group[1] as int
    } else {
        0
    };
    let third = if group.len() > 2 {
        group[2] as int
    } else {
        0
    };
    seq![
        base64_digit(group[0] as int / 4),
        base64_digit(group[0] as int % 4 * 16 + second / 16),
        if group.len() > 1 {
            base64_digit(second % 16 * 4 + third / 64)
        } else {
            '='
        },
        if group.len() > 2 {
            base64_digit(third % 64)
        } else {
            '='
        },
    ]
}

/// Bytes in base64.
pub open spec fn base64_text(bytes: Seq<u8>) -> Seq<char>
    decreases bytes.len(),
{
    if bytes.len() == 0 {
        Seq::empty()
    } else if bytes.len() <= 3 {
        base64_group(bytes)
    } else {
        base64_group(bytes.take(3)) + base64_text(bytes.skip(3))
    }
}

/// Sets in base64, with commas between them.
pub open spec fn sets_text(sets: Seq<Seq<u8>>) -> Seq<char>
    decreases sets.len(),
{
    if sets.len() == 0 {
        Seq::empty()
    } else if sets.len() == 1 {
        base64_text(sets[0])
    } else {
        sets_text(sets.drop_last()) + ","@ + base64_text(sets.last())
    }
}

/// What a decoder of a video track has to be given, as an attribute.
pub open spec fn video_format(parameters: ParametersView) -> Seq<char> {
    let sets = parameters.sps + parameters.pps;
    "a=fmtp:"@ + decimal(payload_type::VIDEO as nat) + " packetization-mode=1"@ + (
    match profile_level_of(parameters.sps) {
        Ok(profile) => "; profile-level-id="@ + hex_text(profile),
        Err(_) => Seq::empty(),
    }) + (if sets.len() > 0 {
        "; sprop-parameter-sets="@ + sets_text(sets)
    } else {
        Seq::empty()
    })
}

/// The lines of a video track.
pub open spec fn video_text(parameters: ParametersView) -> Seq<char> {
    line("m=video 0 RTP/AVP "@ + decimal(payload_type::VIDEO as nat)) + line(
        "a=rtpmap:"@ + decimal(payload_type::VIDEO as nat) + " H264/90000"@,
    ) + line(video_format(parameters))
}

/// The lines of an audio track. The three widths are not fixed by the format,
/// which is why they are stated: a receiver reads the access unit headers with
/// whatever this says.
pub open spec fn audio_text(record: Seq<u8>, fields: Fields) -> Seq<char> {
    line("m=audio 0 RTP/AVP "@ + decimal(payload_type::AUDIO as nat)) + line(
        "a=rtpmap:"@ + decimal(payload_type::AUDIO as nat) + " mpeg4-generic/"@ + decimal(
            fields.sample_rate,
        ) + "/"@ + decimal(fields.channels),
    ) + line(
        "a=fmtp:"@ + decimal(payload_type::AUDIO as nat)
            + " profile-level-id=1; mode=AAC-hbr; sizelength=13; indexlength=3; indexdeltalength=3; config="@
            + hex_text(record),
    )
}

/// The control of a track: what a client puts behind the `Content-Base` to
/// name it.
pub open spec fn control_of(index: nat) -> Seq<char> {
    "trackID="@ + decimal(index)
}

/// The lines of one track. Its control is relative to the `Content-Base` the
/// response states, and names the track by the index its units carry.
pub open spec fn track_text(codec: CodecView, index: nat) -> Seq<char> {
    (match codec {
        CodecView::H264(parameters) => video_text(parameters),
        CodecView::Aac(record) => audio_text(record, fields_of(record)->Ok_0),
    }) + line("a=control:"@ + control_of(index))
}

/// The lines of the first `count` tracks.
pub open spec fn tracks_text(codecs: Seq<CodecView>, count: nat) -> Seq<char>
    decreases count,
{
    if count == 0 {
        Seq::empty()
    } else {
        tracks_text(codecs, (count - 1) as nat) + track_text(
            codecs[count - 1],
            (count - 1) as nat,
        )
    }
}

/// The lines in front of the tracks.
pub open spec fn preamble(name: Seq<char>) -> Seq<char> {
    line("v=0"@) + line("o=- 0 0 IN IP4 0.0.0.0"@) + line("s="@ + sanitized(name)) + line(
        "c=IN IP4 0.0.0.0"@,
    ) + line("t=0 0"@) + line("a=control:*"@)
}

/// A description as SDP.
pub open spec fn sdp_text(codecs: Seq<CodecView>, name: Seq<char>) -> Seq<char> {
    preamble(name) + tracks_text(codecs, codecs.len())
}

/// Writes the description as SDP.
///
/// `name` is what a player shows for the stream; the path it was asked for
/// is the natural thing to pass.
pub fn describe(description: &Description, name: &str) -> (text: String)
    ensures
        text@ == sdp_text(description@, name@),
{
    let mut out = String::new();
    // Version 0, which is the only one. The origin's fields are a username,
    // a session id, a version and an address, none of which mean anything
    // for a live stream that is not being negotiated.
    push_line(&mut out, "v=0");
    push_line(&mut out, "o=- 0 0 IN IP4 0.0.0.0");
    let name_shown = sanitize(name);
    push_text(&mut out, "s=");
    push_line(&mut out, name_shown.as_str());
    push_line(&mut out, "c=IN IP4 0.0.0.0");
    // A live stream has no beginning and no end to seek within.
    push_line(&mut out, "t=0 0");
    push_line(&mut out, "a=control:*");
    assert(out@ =~= preamble(name@));
    let tracks = description.tracks();
    let mut i: usize = 0;
    assert(out@ =~= preamble(name@) + tracks_text(description@, 0));
    while i < tracks.len()
        invariant
            i <= tracks@.len() == description@.len(),
            forall|j: int|
                0 <= j < tracks@.len() ==> (#[trigger] tracks@[j])@.index == j && tracks@[j]@.codec
                    == description@[j],
            out@ == preamble(name@) + tracks_text(description@, i as nat),
        decreases tracks@.len() - i,
    {
        let ghost before = out@;
        push_track(&mut out, &tracks[i]);
        proof {
            let more = track_text(description@[i as int], i as nat);
            assert(out@ == before + more);
            assert(out@ =~= preamble(name@) + (tracks_text(description@, i as nat) + more));
        }
        i = i + 1;
    }
    out
}

/// Appends the lines of one track.
fn push_track(out: &mut String, track: &Track)
    ensures
        final(out)@ == old(out)@ + track_text(track@.codec, track@.index),
{
    match track.codec() {
        Codec::H264(parameters) => {
            video(out, parameters);
        },
        Codec::Aac(parameters) => {
            audio(out, parameters);
        },
    }
    let ghost body = out@;
    // Relative to the `Content-Base` the response states, which is what
    // a client appends to build the URI it sends `SETUP` to.
    push_text(out, "a=control:");
    push_text(out, "trackID=");
    push_decimal(out, track.id().index() as u64);
    push_text(out, "\r\n");
    assert(out@ =~= body + line("a=control:"@ + control_of(track@.index)));
    assert(out@ =~= old(out)@ + track_text(track@.codec, track@.index));
}

/// Appends a line.
fn push_line(out: &mut String, text: &str)
    ensures
        final(out)@ == old(out)@ + line(text@),
{
    push_text(out, text);
    push_text(out, "\r\n");
    assert(out@ =~= old(out)@ + line(text@));
}

fn video(out: &mut String, parameters: &h264::Parameters)
    ensures
        final(out)@ == old(out)@ + video_text(parameters@),
{
    // Port 0: see the module docs on why there is no address here.
    push_text(out, "m=video 0 RTP/AVP ");
    push_decimal(out, payload_type::VIDEO as u64);
    push_text(out, "\r\n");
    push_text(out, "a=rtpmap:");
    push_decimal(out, payload_type::VIDEO as u64);
    push_line(out, " H264/90000");
    let ghost before = out@;
    push_text(out, "a=fmtp:");
    push_decimal(out, payload_type::VIDEO as u64);
    push_text(out, " packetization-mode=1");
    // The three bytes a decoder checks before it agrees to try. Absent from
    // a description whose SPS is too short to hold them, which is a stream
    // nothing could play anyway. The line is still worth sending without
    // it, because the parameter sets after it are what actually configure.
    match parameters.profile_level() {
        Ok(profile) => {
            push_text(out, "; profile-level-id=");
            let digits = hex(profile);
            push_text(out, digits.as_str());
        },
        Err(_) => {},
    }
    if parameters.sps.len() > 0 || parameters.pps.len() > 0 {
        push_text(out, "; sprop-parameter-sets=");
        push_sets(out, &parameters.sps, &parameters.pps);
    }
    assert(out@ =~= before + video_format(parameters@));
    push_text(out, "\r\n");
    assert(out@ =~= old(out)@ + video_text(parameters@));
}

/// Appends the sets of both kinds in base64, with commas between them.
fn push_sets(out: &mut String, sps: &Vec<Nal>, pps: &Vec<Nal>)
    ensures
        final(out)@ == old(out)@ + sets_text(units(sps@) + units(pps@)),
{
    let ghost start = out@;
    let ghost none = Seq::<Seq<u8>>::empty();
    assert(start =~= start + sets_text(none));
    push_list(out, sps, true, Ghost(start), Ghost(none));
    assert(none + units(sps@) =~= units(sps@));
    push_list(out, pps, sps.len() == 0, Ghost(start), Ghost(units(sps@)));
}

/// Appends sets in base64 after those that are there, which `first` says there
/// are none of.
fn push_list(
    out: &mut String,
    sets: &Vec<Nal>,
    first: bool,
    Ghost(start): Ghost<Seq<char>>,
    Ghost(done): Ghost<Seq<Seq<u8>>>,
)
    requires
        old(out)@ == start + sets_text(done),
        first == (done.len() == 0),
    ensures
        final(out)@ == start + sets_text(done + units(sets@)),
{
    let ghost all = units(sets@);
    let mut i: usize = 0;
    assert(done + all.take(0) =~= done);
    while i < sets.len()
        invariant
            i <= sets@.len(),
            all == units(sets@),
            first == (done.len() == 0),
            out@ == start + sets_text(done + all.take(i as int)),
        decreases sets@.len() - i,
    {
        let ghost now = done + all.take(i as int);
        let ghost next = done + all.take(i + 1);
        proof {
            assert(next.drop_last() =~= now);
            assert(next.last() == sets@[i as int]@);
        }
        if !(first && i == 0) {
            push_text(out, ",");
        }
        let set = base64(octets(sets[i].data()));
        push_text(out, set.as_str());
        assert(out@ =~= start + sets_text(next));
        i = i + 1;
    }
    assert(all.take(i as int) =~= all);
}

fn audio(out: &mut String, parameters: &aac::Parameters)
    ensures
        final(out)@ == old(out)@ + audio_text(parameters@, fields_of(parameters@)->Ok_0),
{
    let rate: u32 = parameters.sample_rate();
    let channels: u8 = parameters.channels();
    push_text(out, "m=audio 0 RTP/AVP ");
    push_decimal(out, payload_type::AUDIO as u64);
    push_text(out, "\r\n");
    push_text(out, "a=rtpmap:");
    push_decimal(out, payload_type::AUDIO as u64);
    push_text(out, " mpeg4-generic/");
    push_decimal(out, rate as u64);
    push_text(out, "/");
    push_decimal(out, channels as u64);
    push_text(out, "\r\n");
    // The three widths are not fixed by the specification, which is why they
    // are stated: a receiver reads the AU headers with whatever this says.
    // See [`crate::rtp::aac`].
    push_text(out, "a=fmtp:");
    push_decimal(out, payload_type::AUDIO as u64);
    push_text(
        out,
        " profile-level-id=1; mode=AAC-hbr; sizelength=13; indexlength=3; indexdeltalength=3; config=",
    );
    let digits = hex(octets(parameters.config()));
    push_line(out, digits.as_str());
    assert(out@ =~= old(out)@ + audio_text(parameters@, fields_of(parameters@)->Ok_0));
}

/// Keeps a name to one line. A newline in the middle of an `s=` field would
/// end the field and start whatever came after it as a new one.
fn sanitize(name: &str) -> (kept: String)
    ensures
        kept@ == sanitized(name@),
{
    let letters = characters(name);
    let mut kept = String::new();
    let mut i: usize = 0;
    while i < letters.len()
        invariant
            letters@ == name@,
            i <= letters@.len(),
            kept@ == sanitized(name@).take(i as int),
        decreases letters@.len() - i,
    {
        let c: char = letters[i];
        let n: u32 = c as u32;
        if n <= 0x1f || (0x7f <= n && n <= 0x9f) {
            kept.push(' ');
        } else {
            kept.push(c);
        }
        i = i + 1;
        assert(kept@ =~= sanitized(name@).take(i as int));
    }
    assert(kept@ =~= sanitized(name@));
    kept
}

/// Bytes in two hexadecimal digits each.
pub fn hex(bytes: &[u8]) -> (text: String)
    ensures
        text@ == hex_text(bytes@),
{
    let mut text = String::new();
    let mut i: usize = 0;
    assert(text@ =~= hex_text(bytes@.take(0)));
    while i < bytes.len()
        invariant
            i <= bytes@.len(),
            text@ == hex_text(bytes@.take(i as int)),
        decreases bytes@.len() - i,
    {
        assert(bytes@.take(i + 1).drop_last() =~= bytes@.take(i as int));
        push_hex(&mut text, bytes[i]);
        i = i + 1;
    }
    assert(bytes@.take(i as int) =~= bytes@);
    text
}

/// The character that base64 writes six bits as.
fn digit(n: u8) -> (c: char)
    requires
        n < 64,
    ensures
        c == base64_digit(n as int),
{
    if n < 26 {
        (0x41 + n) as char
    } else if n < 52 {
        (0x61 + (n - 26)) as char
    } else if n < 62 {
        (0x30 + (n - 52)) as char
    } else if n == 62 {
        '+'
    } else {
        '/'
    }
}

/// Base64, which is how SDP carries bytes.
///
/// Written out rather than depended on: it is the only place in the crate
/// that needs it, and a dependency an application has to compile is a worse
/// trade than a few lines.
pub fn base64(bytes: &[u8]) -> (text: String)
    ensures
        text@ == base64_text(bytes@),
{
    let mut text = String::new();
    let mut from: usize = 0;
    assert(bytes@.skip(0) =~= bytes@);
    assert(text@ + base64_text(bytes@.skip(0)) =~= base64_text(bytes@));
    while from < bytes.len()
        invariant
            from <= bytes@.len(),
            text@ + base64_text(bytes@.skip(from as int)) == base64_text(bytes@),
        decreases bytes@.len() - from,
    {
        let left: usize = bytes.len() - from;
        let count: usize = if left < 3 {
            left
        } else {
            3
        };
        let ghost rest = bytes@.skip(from as int);
        let ghost group = rest.take(count as int);
        let ghost before = text@;
        let first: u8 = bytes[from];
        let second: u8 = if count > 1 {
            bytes[from + 1]
        } else {
            0
        };
        let third: u8 = if count > 2 {
            bytes[from + 2]
        } else {
            0
        };
        // One character per six bits, and a pad for every byte the last
        // group was short.
        text.push(digit(first / 4));
        text.push(digit(first % 4 * 16 + second / 16));
        text.push(
            if count > 1 {
                digit(second % 16 * 4 + third / 64)
            } else {
                '='
            },
        );
        text.push(
            if count > 2 {
                digit(third % 64)
            } else {
                '='
            },
        );
        proof {
            assert(text@ =~= before + base64_group(group));
            let after = bytes@.skip(from + count);
            assert(after =~= rest.skip(count as int));
            if rest.len() <= 3 {
                assert(group =~= rest);
                assert(base64_text(after) =~= Seq::empty());
            }
            assert(base64_text(rest) =~= base64_group(group) + base64_text(after));
            assert(text@ + base64_text(after) =~= before + base64_text(rest));
        }
        from = from + count;
    }
    assert(text@ + base64_text(bytes@.skip(from as int)) =~= text@);
    text
}

/// A name cannot end the field it is in: it is shown with its control
/// characters as spaces, and as long as it was.
pub proof fn law_name_stays_in_its_field(name: Seq<char>)
    ensures
        sanitized(name).len() == name.len(),
        forall|i: int|
            0 <= i < name.len() ==> !is_control(#[trigger] sanitized(name)[i]) && (sanitized(
                name,
            )[i] == name[i] || is_control(name[i])),
{
}

/// The six bits that a character of base64 stands for.
pub open spec fn base64_value(c: char) -> int {
    if 'A' <= c <= 'Z' {
        c as int - 0x41
    } else if 'a' <= c <= 'z' {
        c as int - 0x61 + 26
    } else if '0' <= c <= '9' {
        c as int - 0x30 + 52
    } else if c == '+' {
        62
    } else {
        63
    }
}

/// The bytes that four characters of base64 stand for, less one for each pad.
pub open spec fn group_value(a: char, b: char, c: char, d: char) -> Seq<u8> {
    let first = (base64_value(a) * 4 + base64_value(b) / 16) as u8;
    let second = (base64_value(b) % 16 * 16 + base64_value(c) / 4) as u8;
    let third = (base64_value(c) % 4 * 64 + base64_value(d)) as u8;
    if c == '=' {
        seq![first]
    } else if d == '=' {
        seq![first, second]
    } else {
        seq![first, second, third]
    }
}

/// The bytes that a text in base64 stands for.
pub open spec fn base64_bytes(text: Seq<char>) -> Seq<u8>
    decreases text.len(),
{
    if text.len() < 4 {
        Seq::empty()
    } else {
        group_value(text[0], text[1], text[2], text[3]) + base64_bytes(text.skip(4))
    }
}

proof fn lemma_digit_value(n: int)
    requires
        0 <= n < 64,
    ensures
        base64_value(base64_digit(n)) == n,
        base64_digit(n) != '=',
{
}

proof fn lemma_group_value(group: Seq<u8>)
    requires
        1 <= group.len() <= 3,
    ensures
        base64_group(group).len() == 4,
        ({
            let text = base64_group(group);
            group_value(text[0], text[1], text[2], text[3]) == group
        }),
{
    let text = base64_group(group);
    let first = group[0] as int;
    let second = if group.len() > 1 {
        group[1] as int
    } else {
        0
    };
    let third = if group.len() > 2 {
        group[2] as int
    } else {
        0
    };
    lemma_digit_value(first / 4);
    lemma_digit_value(first % 4 * 16 + second / 16);
    lemma_digit_value(second % 16 * 4 + third / 64);
    lemma_digit_value(third % 64);
    assert(group_value(text[0], text[1], text[2], text[3]) =~= group);
}

/// What was written in base64 reads back.
pub proof fn law_base64_reads_back(bytes: Seq<u8>)
    ensures
        base64_bytes(base64_text(bytes)) == bytes,
    decreases bytes.len(),
{
    let text = base64_text(bytes);
    if bytes.len() == 0 {
        assert(base64_bytes(text) =~= bytes);
    } else if bytes.len() <= 3 {
        lemma_group_value(bytes);
        assert(base64_bytes(text.skip(4)) =~= Seq::empty());
        assert(base64_bytes(text) =~= bytes);
    } else {
        let group = bytes.take(3);
        lemma_group_value(group);
        law_base64_reads_back(bytes.skip(3));
        assert(text.skip(4) =~= base64_text(bytes.skip(3)));
        assert(group + bytes.skip(3) =~= bytes);
    }
}

/// Whether a text is whole lines, each ended by a carriage return and a line
/// feed, with neither of them anywhere else.
pub open spec fn whole_lines(text: Seq<char>) -> bool {
    &&& text.len() > 0 ==> text.last() == '\n'
    &&& forall|i: int|
        0 <= i < text.len() && #[trigger] text[i] == '\n' ==> i > 0 && text[i - 1] == '\r'
    &&& forall|i: int|
        0 <= i < text.len() && #[trigger] text[i] == '\r' ==> i + 1 < text.len() && text[i + 1]
            == '\n'
}

/// Whether a text has nothing in it that ends a line.
pub open spec fn one_line(text: Seq<char>) -> bool {
    lacks(text, '\r') && lacks(text, '\n')
}

proof fn lemma_line_is_whole(text: Seq<char>)
    requires
        one_line(text),
    ensures
        whole_lines(line(text)),
{
    reveal_strlit("\r\n");
}

proof fn lemma_lines_join(a: Seq<char>, b: Seq<char>)
    requires
        whole_lines(a),
        whole_lines(b),
    ensures
        whole_lines(a + b),
{
    let text = a + b;
    assert forall|i: int| 0 <= i < text.len() && #[trigger] text[i] == '\n' implies i > 0 && text[i
        - 1] == '\r' by {
        if i < a.len() {
            assert(a[i] == '\n');
        } else {
            assert(b[i - a.len()] == '\n');
        }
    }
    assert forall|i: int| 0 <= i < text.len() && #[trigger] text[i] == '\r' implies i + 1
        < text.len() && text[i + 1] == '\n' by {
        if i < a.len() {
            assert(a[i] == '\r');
        } else {
            assert(b[i - a.len()] == '\r');
        }
    }
}

proof fn lemma_one_line_joins(a: Seq<char>, b: Seq<char>)
    requires
        one_line(a),
        one_line(b),
    ensures
        one_line(a + b),
{
}

proof fn lemma_decimal_is_one_line(n: nat)
    ensures
        one_line(decimal(n)),
{
    lemma_decimal_reads(n);
}

proof fn lemma_hex_is_one_line(bytes: Seq<u8>)
    ensures
        one_line(hex_text(bytes)),
    decreases bytes.len(),
{
    if bytes.len() > 0 {
        lemma_hex_is_one_line(bytes.drop_last());
        assert(one_line(hex_byte(bytes.last())));
    }
}

proof fn lemma_base64_is_one_line(bytes: Seq<u8>)
    ensures
        one_line(base64_text(bytes)),
    decreases bytes.len(),
{
    if bytes.len() > 3 {
        lemma_base64_is_one_line(bytes.skip(3));
        assert(one_line(base64_group(bytes.take(3))));
    } else if bytes.len() > 0 {
        assert(one_line(base64_group(bytes)));
    }
}

proof fn lemma_sets_are_one_line(sets: Seq<Seq<u8>>)
    ensures
        one_line(sets_text(sets)),
    decreases sets.len(),
{
    reveal_strlit(",");
    if sets.len() == 1 {
        lemma_base64_is_one_line(sets[0]);
    } else if sets.len() > 1 {
        lemma_sets_are_one_line(sets.drop_last());
        lemma_base64_is_one_line(sets.last());
    }
}

proof fn lemma_format_is_one_line(parameters: ParametersView)
    ensures
        one_line(video_format(parameters)),
{
    let kind = decimal(payload_type::VIDEO as nat);
    lemma_decimal_is_one_line(payload_type::VIDEO as nat);
    let sets = parameters.sps + parameters.pps;
    lemma_sets_are_one_line(sets);
    let start = "a=fmtp:"@ + kind + " packetization-mode=1"@;
    assert(one_line(start)) by {
        reveal_strlit("a=fmtp:");
        reveal_strlit(" packetization-mode=1");
    }
    let profile = match profile_level_of(parameters.sps) {
        Ok(profile) => "; profile-level-id="@ + hex_text(profile),
        Err(_) => Seq::empty(),
    };
    assert(one_line(profile)) by {
        reveal_strlit("; profile-level-id=");
        lemma_hex_is_one_line(profile_level_of(parameters.sps)->Ok_0);
    }
    let listed = if sets.len() > 0 {
        "; sprop-parameter-sets="@ + sets_text(sets)
    } else {
        Seq::empty()
    };
    assert(one_line(listed)) by {
        reveal_strlit("; sprop-parameter-sets=");
    }
    lemma_one_line_joins(start, profile);
    lemma_one_line_joins(start + profile, listed);
}

proof fn lemma_video_is_whole_lines(parameters: ParametersView)
    ensures
        whole_lines(video_text(parameters)),
{
    let kind = decimal(payload_type::VIDEO as nat);
    lemma_decimal_is_one_line(payload_type::VIDEO as nat);
    lemma_format_is_one_line(parameters);
    let first = "m=video 0 RTP/AVP "@ + kind;
    assert(one_line(first)) by {
        reveal_strlit("m=video 0 RTP/AVP ");
    }
    let second = "a=rtpmap:"@ + kind + " H264/90000"@;
    assert(one_line(second)) by {
        reveal_strlit("a=rtpmap:");
        reveal_strlit(" H264/90000");
    }
    lemma_line_is_whole(first);
    lemma_line_is_whole(second);
    lemma_line_is_whole(video_format(parameters));
    lemma_lines_join(line(first), line(second));
    lemma_lines_join(line(first) + line(second), line(video_format(parameters)));
}

proof fn lemma_audio_is_whole_lines(record: Seq<u8>, fields: Fields)
    ensures
        whole_lines(audio_text(record, fields)),
{
    let kind = decimal(payload_type::AUDIO as nat);
    lemma_decimal_is_one_line(payload_type::AUDIO as nat);
    let first = "m=audio 0 RTP/AVP "@ + kind;
    assert(one_line(first)) by {
        reveal_strlit("m=audio 0 RTP/AVP ");
    }
    let second = "a=rtpmap:"@ + kind + " mpeg4-generic/"@ + decimal(fields.sample_rate) + "/"@
        + decimal(fields.channels);
    assert(one_line(second)) by {
        reveal_strlit("a=rtpmap:");
        reveal_strlit(" mpeg4-generic/");
        reveal_strlit("/");
        lemma_decimal_is_one_line(fields.sample_rate);
        lemma_decimal_is_one_line(fields.channels);
    }
    let third = "a=fmtp:"@ + kind
        + " profile-level-id=1; mode=AAC-hbr; sizelength=13; indexlength=3; indexdeltalength=3; config="@
        + hex_text(record);
    assert(one_line(third)) by {
        reveal_strlit("a=fmtp:");
        reveal_strlit(
            " profile-level-id=1; mode=AAC-hbr; sizelength=13; indexlength=3; indexdeltalength=3; config=",
        );
        lemma_hex_is_one_line(record);
    }
    lemma_line_is_whole(first);
    lemma_line_is_whole(second);
    lemma_line_is_whole(third);
    lemma_lines_join(line(first), line(second));
    lemma_lines_join(line(first) + line(second), line(third));
}

proof fn lemma_tracks_are_whole_lines(codecs: Seq<CodecView>, count: nat)
    ensures
        whole_lines(tracks_text(codecs, count)),
    decreases count,
{
    if count > 0 {
        let index = (count - 1) as nat;
        let codec = codecs[count - 1];
        lemma_tracks_are_whole_lines(codecs, index);
        let body = match codec {
            CodecView::H264(parameters) => video_text(parameters),
            CodecView::Aac(record) => audio_text(record, fields_of(record)->Ok_0),
        };
        match codec {
            CodecView::H264(parameters) => {
                lemma_video_is_whole_lines(parameters);
            },
            CodecView::Aac(record) => {
                lemma_audio_is_whole_lines(record, fields_of(record)->Ok_0);
            },
        }
        let control = "a=control:"@ + control_of(index);
        lemma_decimal_is_one_line(index);
        assert(one_line(control)) by {
            reveal_strlit("a=control:");
            reveal_strlit("trackID=");
        }
        lemma_line_is_whole(control);
        lemma_lines_join(body, line(control));
        lemma_lines_join(tracks_text(codecs, index), track_text(codec, index));
    }
}

/// Every line of the SDP of a stream is ended by a carriage return and a line
/// feed, and nothing else in it ends a line, whatever the stream is called.
pub proof fn law_sdp_is_whole_lines(codecs: Seq<CodecView>, name: Seq<char>)
    ensures
        whole_lines(sdp_text(codecs, name)),
{
    lemma_tracks_are_whole_lines(codecs, codecs.len());
    let shown = "s="@ + sanitized(name);
    law_name_stays_in_its_field(name);
    assert(one_line(shown)) by {
        reveal_strlit("s=");
    }
    assert(one_line("v=0"@)) by {
        reveal_strlit("v=0");
    }
    assert(one_line("o=- 0 0 IN IP4 0.0.0.0"@)) by {
        reveal_strlit("o=- 0 0 IN IP4 0.0.0.0");
    }
    assert(one_line("c=IN IP4 0.0.0.0"@)) by {
        reveal_strlit("c=IN IP4 0.0.0.0");
    }
    assert(one_line("t=0 0"@)) by {
        reveal_strlit("t=0 0");
    }
    assert(one_line("a=control:*"@)) by {
        reveal_strlit("a=control:*");
    }
    let (a, b, c, d, e, f) = (
        line("v=0"@),
        line("o=- 0 0 IN IP4 0.0.0.0"@),
        line(shown),
        line("c=IN IP4 0.0.0.0"@),
        line("t=0 0"@),
        line("a=control:*"@),
    );
    lemma_line_is_whole("v=0"@);
    lemma_line_is_whole("o=- 0 0 IN IP4 0.0.0.0"@);
    lemma_line_is_whole(shown);
    lemma_line_is_whole("c=IN IP4 0.0.0.0"@);
    lemma_line_is_whole("t=0 0"@);
    lemma_line_is_whole("a=control:*"@);
    lemma_lines_join(a, b);
    lemma_lines_join(a + b, c);
    lemma_lines_join(a + b + c, d);
    lemma_lines_join(a + b + c + d, e);
    lemma_lines_join(a + b + c + d + e, f);
    lemma_lines_join(preamble(name), tracks_text(codecs, codecs.len()));
}

/// The payload type that an `rtpmap` line is about: the number in front of its
/// first space.
pub open spec fn stated_type(text: Seq<char>) -> nat {
    let (_, rest) = split_once(text, ':')->0;
    let (number, _) = split_once(rest, ' ')->0;
    digits_value(number)
}

/// The clock rate that an `rtpmap` line states: the number after the encoding.
pub open spec fn stated_rate(text: Seq<char>) -> nat {
    let (_, rest) = split_once(text, '/')->0;
    digits_value(before(rest, '/'))
}

/// The channel count that an `rtpmap` line states: the number after the rate.
pub open spec fn stated_channels(text: Seq<char>) -> nat {
    let (_, rest) = split_once(text, '/')->0;
    let (_, number) = split_once(rest, '/')->0;
    digits_value(number)
}

/// The four lines of a section, with the nothing that follows the last.
proof fn lemma_section(a: Seq<char>, b: Seq<char>, c: Seq<char>, d: Seq<char>, rest: Seq<char>)
    requires
        one_line(a) && one_line(b) && one_line(c) && one_line(d),
    ensures
        lines(line(a) + line(b) + line(c) + line(d) + rest, 0) == seq![a, b, c, d] + lines(rest, 0),
{
    let third = line(d) + rest;
    let second = line(c) + third;
    let first = line(b) + second;
    assert(line(a) + line(b) + line(c) + line(d) + rest =~= a + "\r\n"@ + first);
    assert(first =~= b + "\r\n"@ + second);
    assert(second =~= c + "\r\n"@ + third);
    assert(third =~= d + "\r\n"@ + rest);
    lemma_line_reads(a, first);
    lemma_line_reads(b, second);
    lemma_line_reads(c, third);
    lemma_line_reads(d, rest);
    assert(seq![a] + (seq![b] + (seq![c] + (seq![d] + lines(rest, 0)))) =~= seq![a, b, c, d]
        + lines(rest, 0));
}

proof fn lemma_types_are_written()
    ensures
        decimal(payload_type::VIDEO as nat) == "96"@,
        decimal(payload_type::AUDIO as nat) == "97"@,
        decimal(96) == "96"@,
        decimal(97) == "97"@,
{
    reveal_strlit("96");
    reveal_strlit("97");
    reveal_with_fuel(decimal, 3);
    assert(decimal(96) =~= "96"@);
    assert(decimal(97) =~= "97"@);
}

proof fn lemma_control_is_one_line(index: nat)
    ensures
        one_line("a=control:"@ + control_of(index)),
        "a=control:"@ + control_of(index) == "a=control:trackID="@ + decimal(index),
{
    lemma_decimal_is_one_line(index);
    reveal_strlit("a=control:");
    reveal_strlit("trackID=");
    reveal_strlit("a=control:trackID=");
    assert("a=control:"@ + "trackID="@ =~= "a=control:trackID="@);
    assert("a=control:"@ + control_of(index) =~= "a=control:trackID="@ + decimal(index));
}

/// The `rtpmap` line of a sound track, read back.
#[verifier::spinoff_prover]
proof fn lemma_audio_map(rate: nat, channels: nat)
    ensures
        ({
            let text = "a=rtpmap:"@ + decimal(97) + " mpeg4-generic/"@ + decimal(rate) + "/"@
                + decimal(channels);
            &&& one_line(text)
            &&& starts_with(text, "a=rtpmap:97 mpeg4-generic/"@)
            &&& stated_type(text) == 97
            &&& stated_rate(text) == rate
            &&& stated_channels(text) == channels
        }),
{
    lemma_types_are_written();
    lemma_decimal_reads(rate);
    lemma_decimal_reads(channels);
    lemma_decimal_reads(97);
    reveal_strlit("a=rtpmap:");
    reveal_strlit(" mpeg4-generic/");
    reveal_strlit("/");
    reveal_strlit("97");
    reveal_strlit("a=rtpmap:97 mpeg4-generic/");
    let tail = decimal(rate).push('/') + decimal(channels);
    let text = "a=rtpmap:"@ + decimal(97) + " mpeg4-generic/"@ + decimal(rate) + "/"@ + decimal(
        channels,
    );
    assert("/"@ =~= seq!['/']);
    let head = "a=rtpmap:"@ + "97"@ + " mpeg4-generic/"@.drop_last();
    assert(text =~= head.push('/') + tail);
    lemma_split_joined(head, '/', tail);
    lemma_split_joined(decimal(rate), '/', decimal(channels));
    let kind = "a=rtpmap:"@.drop_last();
    let after = "97"@ + " mpeg4-generic/"@ + tail;
    assert(text =~= kind.push(':') + after);
    lemma_split_joined(kind, ':', after);
    let encoding = " mpeg4-generic/"@.skip(1) + tail;
    assert(after =~= "97"@.push(' ') + encoding);
    lemma_split_joined("97"@, ' ', encoding);
    assert("a=rtpmap:97 mpeg4-generic/"@ =~= text.take(26));
}

/// The `rtpmap` line of a video track, read back.
proof fn lemma_video_map()
    ensures
        "a=rtpmap:"@ + decimal(96) + " H264/90000"@ == "a=rtpmap:96 H264/90000"@,
        one_line("a=rtpmap:96 H264/90000"@),
        stated_type("a=rtpmap:96 H264/90000"@) == 96,
        stated_rate("a=rtpmap:96 H264/90000"@) == 90000,
{
    lemma_types_are_written();
    lemma_decimal_reads(96);
    lemma_decimal_reads(90000);
    reveal_strlit("a=rtpmap:");
    reveal_strlit(" H264/90000");
    reveal_strlit("a=rtpmap:96 H264/90000");
    reveal_strlit("96");
    let text = "a=rtpmap:96 H264/90000"@;
    assert("a=rtpmap:"@ + "96"@ + " H264/90000"@ =~= text);
    reveal_with_fuel(decimal, 6);
    let rate = decimal(90000);
    assert(rate =~= seq!['9', '0', '0', '0', '0']);
    let head = text.take(16);
    assert(text =~= head.push('/') + rate);
    lemma_split_joined(head, '/', rate);
    lemma_unsplit(rate, '/');
    let kind = text.take(8);
    assert(text =~= kind.push(':') + text.skip(9));
    lemma_split_joined(kind, ':', text.skip(9));
    assert(text.skip(9) =~= "96"@.push(' ') + text.skip(12));
    lemma_split_joined("96"@, ' ', text.skip(12));
}

/// The lines of a sound track, and after them those of what follows.
proof fn lemma_audio_lines(record: Seq<u8>, index: nat, rest: Seq<char>)
    ensures
        ({
            let fields = fields_of(record)->Ok_0;
            lines(track_text(CodecView::Aac(record), index) + rest, 0) == seq![
                "m=audio 0 RTP/AVP 97"@,
                "a=rtpmap:"@ + decimal(97) + " mpeg4-generic/"@ + decimal(fields.sample_rate)
                    + "/"@ + decimal(fields.channels),
                "a=fmtp:97"@
                    + " profile-level-id=1; mode=AAC-hbr; sizelength=13; indexlength=3; indexdeltalength=3; config="@
                    + hex_text(record),
                "a=control:trackID="@ + decimal(index),
            ] + lines(rest, 0)
        }),
{
    let fields = fields_of(record)->Ok_0;
    lemma_types_are_written();
    lemma_audio_map(fields.sample_rate, fields.channels);
    lemma_control_is_one_line(index);
    lemma_hex_is_one_line(record);
    let tail = " profile-level-id=1; mode=AAC-hbr; sizelength=13; indexlength=3; indexdeltalength=3; config="@;
    assert(one_line(tail)) by {
        reveal_strlit(
            " profile-level-id=1; mode=AAC-hbr; sizelength=13; indexlength=3; indexdeltalength=3; config=",
        );
    }
    let format = "a=fmtp:97"@ + tail;
    let a = "m=audio 0 RTP/AVP "@ + decimal(97);
    let b = "a=rtpmap:"@ + decimal(97) + " mpeg4-generic/"@ + decimal(fields.sample_rate) + "/"@
        + decimal(fields.channels);
    let c = "a=fmtp:"@ + decimal(97) + tail + hex_text(record);
    let d = "a=control:"@ + control_of(index);
    assert(a == "m=audio 0 RTP/AVP 97"@ && one_line(a)) by {
        reveal_strlit("m=audio 0 RTP/AVP ");
        reveal_strlit("m=audio 0 RTP/AVP 97");
        reveal_strlit("97");
        assert(a =~= "m=audio 0 RTP/AVP 97"@);
    }
    assert(c == format + hex_text(record) && one_line(c)) by {
        reveal_strlit("a=fmtp:");
        reveal_strlit("a=fmtp:97");
        reveal_strlit("97");
        assert("a=fmtp:"@ + "97"@ =~= "a=fmtp:97"@);
        lemma_one_line_joins("a=fmtp:97"@, tail);
        lemma_one_line_joins(format, hex_text(record));
    }
    lemma_section(a, b, c, d, rest);
}

/// What a reader makes of a sound track: its `rtpmap` line states the sample rate
/// and the channel count of the record that the track holds, and its `fmtp` line
/// carries that record, whole. The line after them names the track.
pub proof fn law_sound_is_described_by_its_record(record: Seq<u8>, index: nat)
    requires
        fields_of(record) is Ok,
    ensures
        ({
            let fields = fields_of(record)->Ok_0;
            let section = lines(track_text(CodecView::Aac(record), index), 0);
            let format = "a=fmtp:97"@
                + " profile-level-id=1; mode=AAC-hbr; sizelength=13; indexlength=3; indexdeltalength=3; config="@;
            &&& section.len() == 5
            &&& section[0] == "m=audio 0 RTP/AVP 97"@
            &&& starts_with(section[1], "a=rtpmap:97 mpeg4-generic/"@)
            &&& stated_type(section[1]) == 97
            &&& stated_rate(section[1]) == fields.sample_rate
            &&& stated_channels(section[1]) == fields.channels
            &&& starts_with(section[2], format)
            &&& hex_bytes(section[2].skip(format.len() as int)) == record
            &&& section[3] == "a=control:trackID="@ + decimal(index)
            &&& section[4] == Seq::<char>::empty()
        }),
{
    let fields = fields_of(record)->Ok_0;
    let empty = Seq::<char>::empty();
    let text = track_text(CodecView::Aac(record), index);
    assert(text + empty =~= text);
    assert(empty.skip(0) =~= empty);
    assert(lines(empty, 0) =~= seq![empty]);
    lemma_audio_lines(record, index, empty);
    lemma_audio_map(fields.sample_rate, fields.channels);
    law_hexadecimal_reads_back(record);
    let format = "a=fmtp:97"@
        + " profile-level-id=1; mode=AAC-hbr; sizelength=13; indexlength=3; indexdeltalength=3; config="@;
    let c = format + hex_text(record);
    assert(c.take(format.len() as int) =~= format);
    assert(c.skip(format.len() as int) =~= hex_text(record));
}

/// The sets that a list of them in base64 carries.
pub open spec fn stated_sets(text: Seq<char>) -> Seq<Seq<u8>> {
    parts_between(text, ',').map_values(|part: Seq<char>| base64_bytes(part))
}

proof fn lemma_base64_has_no_comma(bytes: Seq<u8>)
    ensures
        lacks(base64_text(bytes), ','),
    decreases bytes.len(),
{
    if bytes.len() > 3 {
        lemma_base64_has_no_comma(bytes.skip(3));
    }
}

proof fn lemma_sets_read_back(sets: Seq<Seq<u8>>)
    requires
        sets.len() > 0,
    ensures
        stated_sets(sets_text(sets)) == sets,
    decreases sets.len(),
{
    let last = sets.last();
    law_base64_reads_back(last);
    lemma_base64_has_no_comma(last);
    if sets.len() == 1 {
        lemma_unsplit(base64_text(last), ',');
        assert(stated_sets(sets_text(sets)) =~= sets);
    } else {
        let fewer = sets.drop_last();
        lemma_sets_read_back(fewer);
        reveal_strlit(",");
        assert(","@ =~= seq![',']);
        let text = sets_text(fewer);
        assert(sets_text(sets) =~= text.push(',') + base64_text(last));
        law_parts_add_up(text, ',', base64_text(last));
        lemma_unsplit(base64_text(last), ',');
        assert(stated_sets(sets_text(sets)) =~= stated_sets(text).push(last));
        assert(sets =~= fewer.push(last));
    }
}

/// The lines of a video track, and after them those of what follows.
proof fn lemma_video_lines(parameters: ParametersView, index: nat, rest: Seq<char>)
    ensures
        lines(track_text(CodecView::H264(parameters), index) + rest, 0) == seq![
            "m=video 0 RTP/AVP 96"@,
            "a=rtpmap:96 H264/90000"@,
            video_format(parameters),
            "a=control:trackID="@ + decimal(index),
        ] + lines(rest, 0),
{
    lemma_types_are_written();
    lemma_video_map();
    lemma_control_is_one_line(index);
    lemma_format_is_one_line(parameters);
    let a = "m=video 0 RTP/AVP "@ + decimal(96);
    let b = "a=rtpmap:"@ + decimal(96) + " H264/90000"@;
    let d = "a=control:"@ + control_of(index);
    assert(a == "m=video 0 RTP/AVP 96"@ && one_line(a)) by {
        reveal_strlit("m=video 0 RTP/AVP ");
        reveal_strlit("m=video 0 RTP/AVP 96");
        reveal_strlit("96");
        assert(a =~= "m=video 0 RTP/AVP 96"@);
    }
    lemma_section(a, b, video_format(parameters), d, rest);
}

/// What a reader makes of a video track: a clock of 90 kHz, the profile and level
/// of the first SPS, and every set that the track holds, the SPS before the PPS.
/// The line after them names the track.
pub proof fn law_video_is_described_by_its_sets(parameters: ParametersView, index: nat)
    requires
        parameters.sps.len() > 0,
        parameters.sps[0].len() >= 4,
    ensures
        ({
            let section = lines(track_text(CodecView::H264(parameters), index), 0);
            let level = "a=fmtp:96 packetization-mode=1; profile-level-id="@;
            let format = section[2].skip(level.len() as int);
            let sets = "; sprop-parameter-sets="@;
            &&& section.len() == 5
            &&& section[0] == "m=video 0 RTP/AVP 96"@
            &&& section[1] == "a=rtpmap:96 H264/90000"@
            &&& stated_type(section[1]) == 96 && stated_rate(section[1]) == 90000
            &&& starts_with(section[2], level)
            &&& hex_bytes(format.take(6)) == parameters.sps[0].subrange(1, 4)
            &&& starts_with(format.skip(6), sets)
            &&& stated_sets(format.skip(6 + sets.len() as int)) == parameters.sps + parameters.pps
            &&& section[3] == "a=control:trackID="@ + decimal(index)
            &&& section[4] == Seq::<char>::empty()
        }),
{
    let empty = Seq::<char>::empty();
    let text = track_text(CodecView::H264(parameters), index);
    assert(text + empty =~= text);
    assert(empty.skip(0) =~= empty);
    assert(lines(empty, 0) =~= seq![empty]);
    lemma_video_lines(parameters, index, empty);
    lemma_video_map();
    lemma_types_are_written();
    let profile = parameters.sps[0].subrange(1, 4);
    law_hexadecimal_reads_back(profile);
    let all = parameters.sps + parameters.pps;
    lemma_sets_read_back(all);
    let level = "a=fmtp:96 packetization-mode=1; profile-level-id="@;
    let sets = "; sprop-parameter-sets="@;
    assert("a=fmtp:"@ + decimal(96) + " packetization-mode=1"@ + "; profile-level-id="@
        == level) by {
        reveal_strlit("a=fmtp:");
        reveal_strlit("96");
        reveal_strlit(" packetization-mode=1");
        reveal_strlit("; profile-level-id=");
        reveal_strlit("a=fmtp:96 packetization-mode=1; profile-level-id=");
        assert("a=fmtp:"@ + "96"@ + " packetization-mode=1"@ + "; profile-level-id="@ =~= level);
    }
    let c = video_format(parameters);
    let tail = sets + sets_text(all);
    assert(c =~= level + hex_text(profile) + tail);
    assert(c.take(level.len() as int) =~= level);
    let format = c.skip(level.len() as int);
    assert(format.take(6) =~= hex_text(profile));
    assert(format.skip(6) =~= tail);
    assert(tail.take(sets.len() as int) =~= sets);
    assert(format.skip(6 + sets.len() as int) =~= sets_text(all));
}

/// The lines that come before the tracks, in their order, with the name that was
/// asked for in the third of them.
pub proof fn law_sdp_opens_with_its_name(name: Seq<char>, rest: Seq<char>)
    ensures
        lines(preamble(name) + rest, 0) == seq![
            "v=0"@,
            "o=- 0 0 IN IP4 0.0.0.0"@,
            "s="@ + sanitized(name),
            "c=IN IP4 0.0.0.0"@,
            "t=0 0"@,
            "a=control:*"@,
        ] + lines(rest, 0),
        lacks(name, '\r') && lacks(name, '\n') && (forall|i: int|
            0 <= i < name.len() ==> !is_control(#[trigger] name[i])) ==> sanitized(name) == name,
{
    let (a, b, c, d, e, f) = (
        "v=0"@,
        "o=- 0 0 IN IP4 0.0.0.0"@,
        "s="@ + sanitized(name),
        "c=IN IP4 0.0.0.0"@,
        "t=0 0"@,
        "a=control:*"@,
    );
    law_name_stays_in_its_field(name);
    if forall|i: int| 0 <= i < name.len() ==> !is_control(#[trigger] name[i]) {
        assert(sanitized(name) =~= name);
    }
    assert(one_line(a) && one_line(b) && one_line(c)) by {
        reveal_strlit("v=0");
        reveal_strlit("o=- 0 0 IN IP4 0.0.0.0");
        reveal_strlit("s=");
    }
    assert(one_line(d) && one_line(e) && one_line(f)) by {
        reveal_strlit("c=IN IP4 0.0.0.0");
        reveal_strlit("t=0 0");
        reveal_strlit("a=control:*");
    }
    let (last, late) = (line(f) + rest, line(e) + (line(f) + rest));
    assert(preamble(name) + rest =~= line(a) + line(b) + line(c) + line(d) + late);
    lemma_section(a, b, c, d, late);
    assert(late =~= e + "\r\n"@ + last);
    assert(last =~= f + "\r\n"@ + rest);
    lemma_line_reads(e, last);
    lemma_line_reads(f, rest);
    assert(seq![a, b, c, d] + (seq![e] + (seq![f] + lines(rest, 0))) =~= seq![a, b, c, d, e, f]
        + lines(rest, 0));
}

/// The lines of a track do not depend on what follows them.
proof fn lemma_section_of(codec: CodecView, index: nat, rest: Seq<char>)
    ensures
        lines(track_text(codec, index) + rest, 0) == lines(track_text(codec, index), 0).take(4)
            + lines(rest, 0),
        lines(track_text(codec, index), 0).len() == 5,
{
    let empty = Seq::<char>::empty();
    let text = track_text(codec, index);
    assert(text + empty =~= text);
    assert(empty.skip(0) =~= empty);
    assert(lines(empty, 0) =~= seq![empty]);
    match codec {
        CodecView::H264(parameters) => {
            lemma_video_lines(parameters, index, rest);
            lemma_video_lines(parameters, index, empty);
        },
        CodecView::Aac(record) => {
            lemma_audio_lines(record, index, rest);
            lemma_audio_lines(record, index, empty);
        },
    }
    let all = lines(text + rest, 0);
    assert(all =~= lines(text, 0).take(4) + lines(rest, 0));
}

/// The lines of the tracks, one section after another.
proof fn lemma_sections(codecs: Seq<CodecView>, count: nat, rest: Seq<char>)
    requires
        count <= codecs.len(),
    ensures
        ({
            let all = lines(tracks_text(codecs, count) + rest, 0);
            &&& all.len() == 4 * count + lines(rest, 0).len()
            &&& all.skip(4 * count as int) == lines(rest, 0)
            &&& forall|i: int, k: int|
                0 <= i < count && 0 <= k < 4 ==> all[4 * i + k] == #[trigger] lines(
                    track_text(codecs[i], i as nat),
                    0,
                )[k]
        }),
    decreases count,
{
    if count == 0 {
        assert(tracks_text(codecs, 0) + rest =~= rest);
        assert(lines(rest, 0).skip(0) =~= lines(rest, 0));
    } else {
        let index = (count - 1) as nat;
        let one = track_text(codecs[index as int], index);
        lemma_sections(codecs, index, one + rest);
        assert(tracks_text(codecs, count) + rest =~= tracks_text(codecs, index) + (one + rest));
        lemma_section_of(codecs[index as int], index, rest);
        let all = lines(tracks_text(codecs, count) + rest, 0);
        let section = lines(one, 0);
        assert(all.skip(4 * index as int) == section.take(4) + lines(rest, 0));
        assert(all.skip(4 * count as int) =~= all.skip(4 * index as int).skip(4));
        assert((section.take(4) + lines(rest, 0)).skip(4) =~= lines(rest, 0));
        assert forall|i: int, k: int| 0 <= i < count && 0 <= k < 4 implies all[4 * i + k]
            == #[trigger] lines(track_text(codecs[i], i as nat), 0)[k] by {
            if i == index {
                assert(all[4 * i + k] == all.skip(4 * index as int)[k]);
                assert((section.take(4) + lines(rest, 0))[k] == section.take(4)[k]);
            }
        }
    }
}

/// Every track is described, each by its own four lines in the order of the
/// tracks and with nothing between them: the lines of a track are those of its
/// codec, and its control names its index.
#[verifier::spinoff_prover]
#[verifier::rlimit(30)]
pub proof fn law_every_track_is_described(codecs: Seq<CodecView>, name: Seq<char>, index: int)
    requires
        0 <= index < codecs.len(),
    ensures
        ({
            let all = lines(sdp_text(codecs, name), 0);
            &&& all.len() == 6 + 4 * codecs.len() + 1
            &&& all.last() == Seq::<char>::empty()
            &&& forall|k: int|
                0 <= k < 4 ==> all[6 + 4 * index + k] == #[trigger] lines(
                    track_text(codecs[index], index as nat),
                    0,
                )[k]
        }),
{
    let empty = Seq::<char>::empty();
    let tracks = tracks_text(codecs, codecs.len());
    law_sdp_opens_with_its_name(name, tracks);
    lemma_sections(codecs, codecs.len(), empty);
    assert(tracks + empty =~= tracks);
    assert(empty.skip(0) =~= empty);
    assert(lines(empty, 0) =~= seq![empty]);
    let all = lines(sdp_text(codecs, name), 0);
    let inner = lines(tracks, 0);
    assert(forall|j: int| 0 <= j < inner.len() ==> all[6 + j] == #[trigger] inner[j]);
    assert(inner.skip(4 * codecs.len() as int)[0] == empty);
    assert forall|k: int| 0 <= k < 4 implies all[6 + 4 * index + k] == #[trigger] lines(
        track_text(codecs[index], index as nat),
        0,
    )[k] by {
        assert(all[6 + (4 * index + k)] == inner[4 * index + k]);
    }
}

/// The `rtpmap` line of every track states the clock that the track counts in:
/// 90 kHz for H.264, and for AAC the sample rate of its record.
pub proof fn law_rtpmap_states_the_clock(codecs: Seq<CodecView>, name: Seq<char>, index: int)
    requires
        0 <= index < codecs.len(),
        codecs[index] matches CodecView::Aac(record) ==> fields_of(record) is Ok,
    ensures
        ({
            let map = lines(sdp_text(codecs, name), 0)[6 + 4 * index + 1];
            match codecs[index] {
                CodecView::H264(_) => stated_rate(map) == 90000 && stated_type(map) == 96,
                CodecView::Aac(record) => {
                    &&& stated_rate(map) == fields_of(record)->Ok_0.sample_rate
                    &&& stated_channels(map) == fields_of(record)->Ok_0.channels
                    &&& stated_type(map) == 97
                },
            }
        }),
{
    law_every_track_is_described(codecs, name, index);
    let empty = Seq::<char>::empty();
    let text = track_text(codecs[index], index as nat);
    assert(text + empty =~= text);
    match codecs[index] {
        CodecView::H264(parameters) => {
            lemma_video_lines(parameters, index as nat, empty);
            lemma_video_map();
        },
        CodecView::Aac(record) => {
            law_sound_is_described_by_its_record(record, index as nat);
        },
    }
    assert(lines(text, 0)[1] == lines(sdp_text(codecs, name), 0)[6 + 4 * index + 1]);
}

} // verus!

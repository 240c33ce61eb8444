//! What the messages of RTSP are to whoever writes the other end: which bytes are
//! a request, and what a response says to a reader of its lines.

use crate::buffer::{be16, lemma_num16_amid, lemma_widths};
use crate::rtsp::message::{
    asks_for_multicast, bare_response, blank_line, body_length, framed, head_end, head_of, header,
    headers_of, headers_text, incoming, method_of, offer_of, offers, offers_of, parameter,
    response_head, Head, IncomingView, MethodView, RequestView, ResponseView, RtspErrorView, Status,
    Transport,
};
use crate::text::{
    decimal, is_space, lacks, law_numbers_read_back, law_parts_add_up,
    law_trimming_takes_off_the_edges, law_words_stand_between_spaces, lemma_decimal_reads,
    lemma_line_reads, lemma_split_joined, lemma_unsplit, line_end, lines, number_of, parts_between,
    same_but_case, split_once, trim, words, Edge,
};
use vstd::prelude::*;
use vstd::utf8::{decode_utf8, valid_utf8};

verus! {

broadcast use lemma_widths;

/// The methods by the words that name them, and that any other word is kept.
pub proof fn law_methods_are_named_by_their_words(word: Seq<char>)
    ensures
        method_of(word) is Options <==> word == "OPTIONS"@,
        method_of(word) is Describe <==> word == "DESCRIBE"@,
        method_of(word) is Setup <==> word == "SETUP"@,
        method_of(word) is Play <==> word == "PLAY"@,
        method_of(word) is Pause <==> word == "PAUSE"@,
        method_of(word) is Teardown <==> word == "TEARDOWN"@,
        method_of(word) is GetParameter <==> word == "GET_PARAMETER"@,
        method_of(word) matches MethodView::Other(kept) ==> kept == word,
{
    assert(forall|i: int| 0 <= i < word.len() ==> word[i] == word[i]);
    lemma_first_words_differ();
    lemma_last_words_differ();
}

proof fn lemma_first_words_differ()
    ensures
        "OPTIONS"@ != "DESCRIBE"@ && "OPTIONS"@ != "SETUP"@ && "OPTIONS"@ != "PLAY"@,
        "DESCRIBE"@ != "SETUP"@ && "DESCRIBE"@ != "PLAY"@ && "SETUP"@ != "PLAY"@,
        "PAUSE"@ != "OPTIONS"@ && "PAUSE"@ != "DESCRIBE"@ && "PAUSE"@ != "SETUP"@,
        "PAUSE"@ != "PLAY"@ && "PAUSE"@ != "TEARDOWN"@,
        "TEARDOWN"@ != "OPTIONS"@ && "TEARDOWN"@ != "DESCRIBE"@ && "TEARDOWN"@ != "SETUP"@,
        "TEARDOWN"@ != "PLAY"@,
{
    reveal_strlit("OPTIONS");
    reveal_strlit("DESCRIBE");
    reveal_strlit("SETUP");
    reveal_strlit("PLAY");
    reveal_strlit("PAUSE");
    reveal_strlit("TEARDOWN");
    assert("OPTIONS"@[0] == 'O' && "DESCRIBE"@[0] == 'D' && "SETUP"@[0] == 'S');
    assert("PLAY"@.len() == 4 && "PAUSE"@.len() == 5 && "TEARDOWN"@[0] == 'T');
    assert("PLAY"@[0] == 'P' && "PAUSE"@[0] == 'P');
}

proof fn lemma_last_words_differ()
    ensures
        "GET_PARAMETER"@ != "OPTIONS"@ && "GET_PARAMETER"@ != "DESCRIBE"@,
        "GET_PARAMETER"@ != "SETUP"@ && "GET_PARAMETER"@ != "PLAY"@,
        "GET_PARAMETER"@ != "PAUSE"@ && "GET_PARAMETER"@ != "TEARDOWN"@,
{
    reveal_strlit("OPTIONS");
    reveal_strlit("DESCRIBE");
    reveal_strlit("SETUP");
    reveal_strlit("PLAY");
    reveal_strlit("PAUSE");
    reveal_strlit("TEARDOWN");
    reveal_strlit("GET_PARAMETER");
    assert("GET_PARAMETER"@.len() == 13);
}

/// A header is found by its name in whatever case, and the first of that name is
/// the one.
pub proof fn law_the_first_header_of_a_name_is_found(
    before: Seq<(Seq<char>, Seq<char>)>,
    one: (Seq<char>, Seq<char>),
    after: Seq<(Seq<char>, Seq<char>)>,
    name: Seq<char>,
)
    requires
        same_but_case(one.0, name),
        forall|i: int| 0 <= i < before.len() ==> !same_but_case((#[trigger] before[i]).0, name),
    ensures
        header(before + seq![one] + after, name) == Some(one.1),
        header(before, name) is None,
    decreases before.len(),
{
    let all = before + seq![one] + after;
    if before.len() == 0 {
        assert(all.first() == one);
    } else {
        let rest = before.drop_first();
        assert(all.first() == before[0]);
        assert(all.drop_first() =~= rest + seq![one] + after);
        assert forall|i: int| 0 <= i < rest.len() implies !same_but_case(
            (#[trigger] rest[i]).0,
            name,
        ) by {
            assert(rest[i] == before[i + 1]);
        }
        law_the_first_header_of_a_name_is_found(rest, one, after, name);
    }
}

/// What a request's head says of its body's length: none where it does not, the
/// number it states up to 64 KiB, and neither more than that nor what is no number.
pub proof fn law_bodies_are_as_long_as_stated(
    headers: Seq<(Seq<char>, Seq<char>)>,
    left: Seq<char>,
    right: Seq<char>,
    length: nat,
)
    requires
        forall|i: int| 0 <= i < left.len() ==> is_space(#[trigger] left[i]),
        forall|i: int| 0 <= i < right.len() ==> is_space(#[trigger] right[i]),
        length <= usize::MAX,
    ensures
        header(headers, "Content-Length"@) is None ==> body_length(headers) == Ok::<
            _,
            RtspErrorView,
        >(0nat),
        header(headers, "Content-Length"@) == Some(left + decimal(length) + right) ==> (if length
            <= 65536 {
            body_length(headers) == Ok::<_, RtspErrorView>(length)
        } else {
            body_length(headers) == Err::<nat, _>(
                RtspErrorView::TooLong { part: "request body", limit: 65536 },
            )
        }),
        header(headers, "Content-Length"@) matches Some(stated) ==> {
            number_of(trim(stated, Edge::Whitespace), usize::MAX as nat) is None ==> body_length(
                headers,
            ) == Err::<nat, _>(RtspErrorView::MalformedContentLength(stated))
        },
{
    let text = decimal(length);
    lemma_decimal_reads(length);
    assert(text.first() == text[0] && text.last() == text[text.len() - 1]);
    assert(!is_space(text.first()) && !is_space(text.last()));
    law_trimming_takes_off_the_edges(left, text, right, Edge::Whitespace);
    law_numbers_read_back(length, usize::MAX as nat, text);
}

/// Whether a text can be a header's name or its value: nothing that ends a line,
/// and no space at either end.
pub open spec fn clean(text: Seq<char>) -> bool {
    &&& lacks(text, '\r')
    &&& lacks(text, '\n')
    &&& text.len() > 0 ==> !is_space(text.first()) && !is_space(text.last())
}

/// Whether each of some headers can be written on a line of its own.
pub open spec fn all_clean(headers: Seq<(Seq<char>, Seq<char>)>) -> bool {
    forall|i: int|
        0 <= i < headers.len() ==> clean((#[trigger] headers[i]).0) && clean(headers[i].1) && lacks(
            headers[i].0,
            ':',
        )
}

/// The line that states a header.
pub open spec fn header_line(header: (Seq<char>, Seq<char>)) -> Seq<char> {
    header.0 + ": "@ + header.1
}

proof fn lemma_header_line(one: (Seq<char>, Seq<char>))
    requires
        clean(one.0) && clean(one.1) && lacks(one.0, ':'),
    ensures
        lacks(header_line(one), '\r'),
        split_once(header_line(one), ':') == Some((one.0, seq![' '] + one.1)),
        trim(one.0, Edge::Whitespace) == one.0,
        trim(seq![' '] + one.1, Edge::Whitespace) == one.1,
{
    reveal_strlit(": ");
    let none = Seq::<char>::empty();
    assert(header_line(one) =~= one.0.push(':') + (seq![' '] + one.1));
    lemma_split_joined(one.0, ':', seq![' '] + one.1);
    law_trimming_takes_off_the_edges(none, one.0, none, Edge::Whitespace);
    assert(none + one.0 + none =~= one.0);
    law_trimming_takes_off_the_edges(seq![' '], one.1, none, Edge::Whitespace);
    assert(seq![' '] + one.1 + none =~= seq![' '] + one.1);
}

/// Lines that state headers are read as those headers, in their order.
pub proof fn law_headers_read_back(headers: Seq<(Seq<char>, Seq<char>)>)
    requires
        all_clean(headers),
    ensures
        headers_of(headers.map_values(|header: (Seq<char>, Seq<char>)| header_line(header)))
            == Ok::<_, RtspErrorView>(headers),
    decreases headers.len(),
{
    let each = |header: (Seq<char>, Seq<char>)| header_line(header);
    if headers.len() == 0 {
        assert(headers =~= Seq::empty());
    } else {
        let fewer = headers.drop_last();
        assert forall|i: int| 0 <= i < fewer.len() implies clean((#[trigger] fewer[i]).0) && clean(
            fewer[i].1,
        ) && lacks(fewer[i].0, ':') by {
            assert(fewer[i] == headers[i]);
        }
        law_headers_read_back(fewer);
        assert(headers[headers.len() - 1] == headers.last());
        lemma_header_line(headers.last());
        assert(headers.map_values(each).drop_last() =~= fewer.map_values(each));
        assert(headers =~= fewer.push((headers.last().0, headers.last().1)));
    }
}

proof fn lemma_header_lines(headers: Seq<(Seq<char>, Seq<char>)>, rest: Seq<char>)
    requires
        all_clean(headers),
    ensures
        lines(headers_text(headers) + rest, 0) == headers.map_values(
            |header: (Seq<char>, Seq<char>)| header_line(header),
        ) + lines(rest, 0),
    decreases headers.len(),
{
    let each = |header: (Seq<char>, Seq<char>)| header_line(header);
    if headers.len() == 0 {
        assert(headers_text(headers) + rest =~= rest);
        assert(headers.map_values(each) + lines(rest, 0) =~= lines(rest, 0));
    } else {
        let (fewer, last) = (headers.drop_last(), headers.last());
        assert forall|i: int| 0 <= i < fewer.len() implies clean((#[trigger] fewer[i]).0) && clean(
            fewer[i].1,
        ) && lacks(fewer[i].0, ':') by {
            assert(fewer[i] == headers[i]);
        }
        assert(headers[headers.len() - 1] == last);
        lemma_header_line(last);
        let tail = header_line(last) + "\r\n"@ + rest;
        assert(headers_text(headers) + rest =~= headers_text(fewer) + tail);
        lemma_header_lines(fewer, tail);
        lemma_line_reads(header_line(last), rest);
        assert(headers.map_values(each) =~= fewer.map_values(each).push(header_line(last)));
        assert(fewer.map_values(each) + (seq![header_line(last)] + lines(rest, 0))
            =~= headers.map_values(each) + lines(rest, 0));
    }
}

/// A response to a reader of its lines: the version, the code and the reason on
/// the first, then its headers, then the length of its body, and then a line with
/// nothing on it.
pub proof fn law_responses_read_back(response: ResponseView)
    requires
        all_clean(response.headers),
        lacks(response.status.1@, '\r'),
    ensures
        ({
            let all = lines(response_head(response), 0);
            let count = response.headers.len() as int;
            let stated = response.headers.push(("Content-Length"@, decimal(response.body.len())));
            &&& all.len() == count + 4
            &&& all[0] == "RTSP/1.0 "@ + decimal(response.status.0 as nat) + " "@
                + response.status.1@
            &&& headers_of(all.subrange(1, count + 2)) == Ok::<_, RtspErrorView>(stated)
            &&& all[count + 2] == Seq::<char>::empty()
            &&& all[count + 3] == Seq::<char>::empty()
        }),
{
    let headers = response.headers;
    let each = |header: (Seq<char>, Seq<char>)| header_line(header);
    let first = "RTSP/1.0 "@ + decimal(response.status.0 as nat) + " "@ + response.status.1@;
    lemma_decimal_reads(response.status.0 as nat);
    assert(lacks(first, '\r')) by {
        reveal_strlit("RTSP/1.0 ");
        reveal_strlit(" ");
    }
    let length = ("Content-Length"@, decimal(response.body.len()));
    lemma_length_is_clean(response.body.len());
    let none = Seq::<char>::empty();
    reveal_strlit("\r\n\r\n");
    reveal_strlit("\r\n");
    assert("\r\n\r\n"@ =~= "\r\n"@ + "\r\n"@);
    let last = none + "\r\n"@ + none;
    let late = header_line(length) + "\r\n"@ + last;
    let rest = headers_text(headers) + late;
    assert(header_line(length) =~= "Content-Length: "@ + decimal(response.body.len())) by {
        reveal_strlit("Content-Length");
        reveal_strlit("Content-Length: ");
        reveal_strlit(": ");
        assert("Content-Length"@ + ": "@ =~= "Content-Length: "@);
    }
    assert(response_head(response) =~= first + "\r\n"@ + rest);
    lemma_line_reads(first, rest);
    lemma_header_lines(headers, late);
    lemma_header_line(length);
    lemma_line_reads(header_line(length), last);
    lemma_line_reads(none, none);
    assert(none.skip(0) =~= none);
    assert(lines(none, 0) =~= seq![none]);
    let all = lines(response_head(response), 0);
    let stated = headers.push(length);
    assert(all =~= seq![first] + (headers.map_values(each) + (seq![header_line(length)] + (seq![
        none,
    ] + seq![none]))));
    assert(all.subrange(1, headers.len() as int + 2) =~= stated.map_values(each));
    assert forall|i: int| 0 <= i < stated.len() implies clean((#[trigger] stated[i]).0) && clean(
        stated[i].1,
    ) && lacks(stated[i].0, ':') by {
        if i < headers.len() {
            assert(stated[i] == headers[i]);
        }
    }
    law_headers_read_back(stated);
}

proof fn lemma_length_is_clean(length: nat)
    ensures
        clean("Content-Length"@) && clean(decimal(length)) && lacks("Content-Length"@, ':'),
{
    reveal_strlit("Content-Length");
    lemma_decimal_reads(length);
    let text = decimal(length);
    assert(text.first() == text[0] && text.last() == text[text.len() - 1]);
    assert("Content-Length"@.first() == 'C' && "Content-Length"@.last() == 'h');
}

/// Whether a text is one word.
pub open spec fn is_word(text: Seq<char>) -> bool {
    text.len() > 0 && forall|i: int| 0 <= i < text.len() ==> !is_space(#[trigger] text[i])
}

/// The head of a request, in front of the blank line that ends it.
pub open spec fn head_text(
    method: Seq<char>,
    uri: Seq<char>,
    headers: Seq<(Seq<char>, Seq<char>)>,
) -> Seq<char>
    decreases headers.len(),
{
    if headers.len() == 0 {
        method + " "@ + uri + " RTSP/1.0"@
    } else {
        head_text(method, uri, headers.drop_last()) + "\r\n"@ + header_line(headers.last())
    }
}

/// A line that nothing ends is all there is.
proof fn lemma_last_line(last: Seq<char>)
    requires
        lacks(last, '\r'),
    ensures
        lines(last, 0) == seq![last],
{
    lemma_one_line(last, 0);
    assert(last.skip(0) =~= last);
}

proof fn lemma_one_line(text: Seq<char>, from: int)
    requires
        lacks(text, '\r'),
        0 <= from <= text.len(),
    ensures
        line_end(text, from) == text.len(),
    decreases text.len() - from,
{
    if from < text.len() {
        lemma_one_line(text, from + 1);
    }
}

proof fn lemma_head_lines(
    method: Seq<char>,
    uri: Seq<char>,
    headers: Seq<(Seq<char>, Seq<char>)>,
    rest: Seq<char>,
)
    requires
        is_word(method) && is_word(uri),
        all_clean(headers),
    ensures
        lines(head_text(method, uri, headers) + "\r\n"@ + rest, 0) == seq![
            method + " "@ + uri + " RTSP/1.0"@,
        ] + headers.map_values(|header: (Seq<char>, Seq<char>)| header_line(header)) + lines(
            rest,
            0,
        ),
    decreases headers.len(),
{
    let each = |header: (Seq<char>, Seq<char>)| header_line(header);
    let first = method + " "@ + uri + " RTSP/1.0"@;
    lemma_first_line(method, uri);
    if headers.len() == 0 {
        lemma_line_reads(first, rest);
        assert(seq![first] + headers.map_values(each) + lines(rest, 0) =~= seq![first] + lines(
            rest,
            0,
        ));
    } else {
        let (fewer, last) = (headers.drop_last(), headers.last());
        assert forall|i: int| 0 <= i < fewer.len() implies clean((#[trigger] fewer[i]).0) && clean(
            fewer[i].1,
        ) && lacks(fewer[i].0, ':') by {
            assert(fewer[i] == headers[i]);
        }
        assert(headers[headers.len() - 1] == last);
        lemma_header_line(last);
        let tail = header_line(last) + "\r\n"@ + rest;
        assert(head_text(method, uri, headers) + "\r\n"@ + rest =~= head_text(method, uri, fewer)
            + "\r\n"@ + tail);
        lemma_head_lines(method, uri, fewer, tail);
        lemma_line_reads(header_line(last), rest);
        assert(headers.map_values(each) =~= fewer.map_values(each).push(header_line(last)));
        assert(seq![first] + fewer.map_values(each) + (seq![header_line(last)] + lines(rest, 0))
            =~= seq![first] + headers.map_values(each) + lines(rest, 0));
    }
}

proof fn lemma_first_line(method: Seq<char>, uri: Seq<char>)
    requires
        is_word(method) && is_word(uri),
    ensures
        lacks(method + " "@ + uri + " RTSP/1.0"@, '\r'),
        words(method + " "@ + uri + " RTSP/1.0"@) == seq![method, uri, "RTSP/1.0"@],
{
    reveal_strlit(" ");
    reveal_strlit(" RTSP/1.0");
    reveal_strlit("RTSP/1.0");
    let (none, version) = (Seq::<char>::empty(), "RTSP/1.0"@);
    assert forall|i: int| 0 <= i < method.len() implies method[i] != '\r' by {
        assert(!is_space(method[i]));
    }
    assert forall|i: int| 0 <= i < uri.len() implies uri[i] != '\r' by {
        assert(!is_space(uri[i]));
    }
    assert(" RTSP/1.0"@ =~= seq![' '] + version);
    assert(" "@ =~= seq![' ']);
    let last = seq![' '] + version + none;
    let middle = seq![' '] + uri + last;
    let whole = none + method + middle;
    assert(whole =~= method + " "@ + uri + " RTSP/1.0"@);
    law_words_stand_between_spaces(none, method, middle);
    law_words_stand_between_spaces(seq![' '], uri, last);
    law_words_stand_between_spaces(seq![' '], version, none);
    assert(words(none) =~= Seq::empty());
    assert(seq![method] + (seq![uri] + (seq![version] + words(none))) =~= seq![
        method,
        uri,
        version,
    ]);
}

/// A request's head is read as it was written: its method, its target and its
/// headers in their order.
pub proof fn law_heads_read_back(
    method: Seq<char>,
    uri: Seq<char>,
    headers: Seq<(Seq<char>, Seq<char>)>,
)
    requires
        is_word(method) && is_word(uri),
        all_clean(headers),
    ensures
        head_of(head_text(method, uri, headers)) == Ok::<_, RtspErrorView>(
            Head { method, uri, headers },
        ),
{
    let each = |header: (Seq<char>, Seq<char>)| header_line(header);
    let first = method + " "@ + uri + " RTSP/1.0"@;
    lemma_first_line(method, uri);
    let text = head_text(method, uri, headers);
    let all = lines(text, 0);
    if headers.len() == 0 {
        lemma_last_line(first);
        assert(all.drop_first() =~= headers.map_values(each));
    } else {
        let (fewer, last) = (headers.drop_last(), headers.last());
        assert forall|i: int| 0 <= i < fewer.len() implies clean((#[trigger] fewer[i]).0) && clean(
            fewer[i].1,
        ) && lacks(fewer[i].0, ':') by {
            assert(fewer[i] == headers[i]);
        }
        assert(headers[headers.len() - 1] == last);
        lemma_header_line(last);
        lemma_head_lines(method, uri, fewer, header_line(last));
        lemma_last_line(header_line(last));
        assert(headers.map_values(each) =~= fewer.map_values(each).push(header_line(last)));
        assert(all =~= seq![first] + headers.map_values(each));
        assert(all.drop_first() =~= headers.map_values(each));
    }
    law_headers_read_back(headers);
    assert(all[0] == first);
}

/// What a request's first line may not be: anything but three words, or of another
/// version. And a line of the head without a colon is no header.
pub proof fn law_malformed_heads_are_refused(text: Seq<char>)
    ensures
        ({
            let all = lines(text, 0);
            let first = words(all[0]);
            &&& first.len() != 3 ==> head_of(text) == Err::<Head, _>(
                RtspErrorView::MalformedRequestLine(all[0]),
            )
            &&& first.len() == 3 && first[2] != "RTSP/1.0"@ ==> head_of(text) == Err::<Head, _>(
                RtspErrorView::UnsupportedVersion(first[2]),
            )
            &&& first.len() == 3 && first[2] == "RTSP/1.0"@ && all.len() == 2 && lacks(
                all[1],
                ':',
            ) ==> head_of(text) == Err::<Head, _>(RtspErrorView::MalformedHeader(all[1]))
        }),
{
    let all = lines(text, 0);
    if all.len() == 2 && lacks(all[1], ':') {
        lemma_unsplit(all[1], ':');
        let rest = all.drop_first();
        assert(rest.last() == all[1]);
        assert(rest.drop_last() =~= Seq::empty());
        assert(headers_of(rest.drop_last()) is Ok);
        assert(headers_of(rest) == Err::<Seq<(Seq<char>, Seq<char>)>, _>(
            RtspErrorView::MalformedHeader(all[1]),
        ));
    }
}

proof fn lemma_head_ends(s: Seq<u8>, from: int, end: int)
    requires
        0 <= from <= end,
        blank_line(s, end),
        forall|at: int| from <= at < end ==> !blank_line(s, at),
    ensures
        head_end(s, from) == Some(end),
    decreases end - from,
{
    if from < end {
        lemma_head_ends(s, from + 1, end);
    }
}

/// A head with the blank line that ends it.
pub open spec fn ended(head: Seq<u8>) -> Seq<u8> {
    head + seq![13u8, 10, 13, 10]
}

/// A request is its head up to the first blank line, and as many bytes after that
/// as its headers say; what follows is left for the next.
pub proof fn law_requests_end_with_their_bodies(
    head: Seq<u8>,
    read: Head,
    body: Seq<u8>,
    rest: Seq<u8>,
)
    requires
        0 < head.len() <= 8192,
        0x41 <= head[0] <= 0x5a || 0x61 <= head[0] <= 0x7a,
        forall|at: int| 0 <= at < head.len() ==> !#[trigger] blank_line(ended(head), at),
        valid_utf8(head),
        head_of(decode_utf8(head)) == Ok::<_, RtspErrorView>(read),
        body_length(read.headers) == Ok::<_, RtspErrorView>(body.len()),
    ensures
        incoming(ended(head) + body + rest) == Ok::<_, RtspErrorView>(
            Some(
                (
                    IncomingView::Request(
                        RequestView {
                            method: method_of(read.method),
                            uri: read.uri,
                            headers: read.headers,
                            body,
                        },
                    ),
                    (head.len() + 4 + body.len()) as int,
                ),
            ),
        ),
{
    let blank = seq![13u8, 10, 13, 10];
    let front = ended(head);
    let s = front + body + rest;
    let end = head.len() as int;
    assert(s =~= head + blank + body + rest);
    assert(s[end] == blank[0] && s[end + 1] == blank[1] && s[end + 2] == blank[2] && s[end + 3]
        == blank[3]);
    assert forall|at: int| 0 <= at < end implies !blank_line(s, at) by {
        assert(!blank_line(front, at));
        assert(forall|k: int| 0 <= k < front.len() ==> s[k] == #[trigger] front[k]);
        assert(at + 4 <= front.len());
        assert(s[at] == front[at] && s[at + 1] == front[at + 1] && s[at + 2] == front[at + 2]
            && s[at + 3] == front[at + 3]);
    }
    lemma_head_ends(s, 0, end);
    assert(s[0] == head[0]);
    assert(s.take(end) =~= head);
    assert(s.subrange(end + 4, end + 4 + body.len()) =~= body);
}

/// A frame on the connection: a dollar sign, the channel, the length of what it
/// carries in two bytes and the highest first, and then that.
pub proof fn law_frames_state_their_length(channel: u8, packet: Seq<u8>)
    requires
        packet.len() <= 0xffff,
    ensures
        ({
            let frame = framed(channel, packet);
            &&& frame.len() == 4 + packet.len()
            &&& frame[0] == 0x24 && frame[1] == channel
            &&& frame[2] * 0x100 + frame[3] == packet.len()
            &&& frame.skip(4) == packet
        }),
{
    let n = packet.len() as int;
    let frame = framed(channel, packet);
    lemma_num16_amid(seq![0x24u8, channel], n, packet);
    assert(frame =~= seq![0x24u8, channel] + be16(n) + packet);
    assert(frame.skip(4) =~= packet);
}

/// What begins neither a frame nor a request is not RTSP, from its first byte on.
pub proof fn law_other_protocols_are_refused(s: Seq<u8>)
    requires
        s.len() > 0,
        s[0] != 0x24,
        !(0x41 <= s[0] <= 0x5a) && !(0x61 <= s[0] <= 0x7a),
    ensures
        incoming(s) == Err::<Option<(IncomingView, int)>, _>(RtspErrorView::NotRtsp),
{
}

/// A response is made with its status and nothing else, and gets its headers in the
/// order in which they are given.
pub proof fn law_headers_are_added_in_order(
    status: Status,
    name: Seq<char>,
    value: Seq<char>,
    response: ResponseView,
)
    ensures
        bare_response(status).status == status,
        bare_response(status).headers.len() == 0 && bare_response(status).body.len() == 0,
        response.with(name, value).headers == response.headers + seq![(name, value)],
        response.with(name, value).status == response.status,
        response.with(name, value).body == response.body,
{
    assert(response.with(name, value).headers =~= response.headers + seq![(name, value)]);
}

proof fn lemma_offers_add_up(first: Seq<Seq<char>>, second: Seq<Seq<char>>)
    ensures
        offers_of(first + second) == offers_of(first) + offers_of(second),
    decreases second.len(),
{
    if second.len() == 0 {
        assert(first + second =~= first);
        assert(offers_of(first) + offers_of(second) =~= offers_of(first));
    } else {
        let all = first + second;
        lemma_offers_add_up(first, second.drop_last());
        assert(all.drop_last() =~= first + second.drop_last());
        assert(all.last() == second.last());
        assert(offers_of(all) =~= offers_of(first) + offers_of(second));
    }
}

/// Offers with a comma between them are all offered, in their order.
pub proof fn law_offers_are_kept_in_order(first: Seq<char>, second: Seq<char>)
    ensures
        offers(first + ","@ + second) == offers(first) + offers(second),
{
    reveal_strlit(",");
    assert(first + ","@ + second =~= first.push(',') + second);
    law_parts_add_up(first, ',', second);
    lemma_offers_add_up(parts_between(first, ','), parts_between(second, ','));
}

/// A parameter without a value changes nothing of an offer, unless it says that the
/// packets go to a group; and to a group they do not go.
pub proof fn law_only_some_parameters_matter(form: Seq<char>, more: Seq<char>)
    requires
        lacks(more, ';'),
        lacks(trim(more, Edge::Whitespace), '='),
    ensures
        trim(more, Edge::Whitespace) != "multicast"@ ==> offer_of(form + ";"@ + more) == offer_of(
            form,
        ),
        trim(more, Edge::Whitespace) == "multicast"@ ==> offer_of(form + ";"@ + more) is None,
{
    reveal_strlit(";");
    let (text, said) = (form + ";"@ + more, trim(more, Edge::Whitespace));
    assert(text =~= form.push(';') + more);
    law_parts_add_up(form, ';', more);
    lemma_unsplit(more, ';');
    lemma_unsplit(said, '=');
    let parts = parts_between(form, ';');
    let all = parts_between(text, ';');
    assert(parts.len() > 0);
    assert(all =~= parts.push(more));
    let (before, after) = (parts.drop_first(), all.drop_first());
    assert(after =~= before.push(more));
    assert(after.last() == more && after.drop_last() =~= before);
    assert(parameter(after, "interleaved"@) == parameter(before, "interleaved"@));
    assert(parameter(after, "client_port"@) == parameter(before, "client_port"@));
    assert(after[before.len() as int] == more);
    if asks_for_multicast(before) {
        let i = choose|i: int|
            0 <= i < before.len() && trim(#[trigger] before[i], Edge::Whitespace) == "multicast"@;
        assert(after[i] == before[i]);
    }
    if said != "multicast"@ && asks_for_multicast(after) {
        let i = choose|i: int|
            0 <= i < after.len() && trim(#[trigger] after[i], Edge::Whitespace) == "multicast"@;
        assert(after[i] == before[i]);
    }
}

/// The session that a request names is what stands in front of the first semicolon
/// of its header, without the space round it; and its sequence is its header whole.
pub proof fn law_requests_name_their_session(
    request: RequestView,
    left: Seq<char>,
    id: Seq<char>,
    right: Seq<char>,
    rest: Seq<char>,
)
    requires
        forall|i: int| 0 <= i < left.len() ==> is_space(#[trigger] left[i]),
        forall|i: int| 0 <= i < right.len() ==> is_space(#[trigger] right[i]),
        lacks(id, ';'),
        id.len() > 0 ==> !is_space(id.first()) && !is_space(id.last()),
    ensures
        header(request.headers, "Session"@) == Some(left + id + right) ==> request.session()
            == Some(id),
        header(request.headers, "Session"@) == Some(left + id + right + ";"@ + rest)
            ==> request.session() == Some(id),
        header(request.headers, "Session"@) is None <==> request.session() is None,
        request.sequence() == header(request.headers, "CSeq"@),
{
    reveal_strlit(";");
    let text = left + id + right;
    assert(lacks(text, ';')) by {
        assert forall|i: int| 0 <= i < text.len() implies text[i] != ';' by {
            if i < left.len() {
                assert(is_space(left[i]));
            } else if i >= left.len() + id.len() {
                assert(is_space(right[i - left.len() - id.len()]));
            } else {
                assert(text[i] == id[i - left.len()]);
            }
        }
    }
    law_trimming_takes_off_the_edges(left, id, right, Edge::Whitespace);
    lemma_unsplit(text, ';');
    assert(text + ";"@ + rest =~= text.push(';') + rest);
    lemma_split_joined(text, ';', rest);
}

/// What an offer is of, by its protocol: RTP in any of its profiles or nothing that is
/// taken, over the connection where it ends in TCP and over UDP where it does not.
pub proof fn law_offers_go_by_their_protocol(protocol: Seq<char>, rest: Seq<char>)
    requires
        lacks(protocol, ';'),
        protocol.len() > 0 ==> !is_space(protocol.first()) && !is_space(protocol.last()),
    ensures
        ({
            let offer = offer_of(protocol + ";"@ + rest);
            let parameters = parts_between(rest, ';');
            let tcp = protocol.len() >= 4 && protocol.skip(protocol.len() - 4) == "/TCP"@;
            if protocol.len() < 7 || protocol.take(7) != "RTP/AVP"@ {
                offer is None
            } else if asks_for_multicast(parameters) {
                offer is None
            } else if tcp {
                match parameter(parameters, "interleaved"@) {
                    Some((rtp, rtcp)) => rtp <= 255 && rtcp <= 255 ==> offer == Some(
                        Transport::Interleaved { rtp: rtp as u8, rtcp: rtcp as u8 },
                    ),
                    None => offer is None,
                }
            } else {
                match parameter(parameters, "client_port"@) {
                    Some((rtp, rtcp)) => offer == Some(Transport::Udp { rtp, rtcp }),
                    None => offer is None,
                }
            }
        }),
{
    reveal_strlit(";");
    reveal_strlit("RTP/AVP");
    reveal_strlit("/TCP");
    let (none, text) = (Seq::<char>::empty(), protocol + ";"@ + rest);
    assert(text =~= protocol.push(';') + rest);
    lemma_split_joined(protocol, ';', rest);
    law_trimming_takes_off_the_edges(none, protocol, none, Edge::Whitespace);
    assert(none + protocol + none =~= protocol);
    let parts = parts_between(text, ';');
    assert(parts[0] == protocol);
    assert(parts.drop_first() =~= parts_between(rest, ';'));
}

/// A parameter is what stands after its name and an equals sign, in its last mention;
/// and a pair is two numbers with a dash between them.
#[verifier::spinoff_prover]
#[verifier::rlimit(30)]
pub proof fn law_parameters_are_pairs(
    before: Seq<Seq<char>>,
    name: Seq<char>,
    first: u16,
    second: u16,
    other: Seq<char>,
)
    requires
        lacks(name, '='),
        name.len() > 0 ==> !is_space(name.first()),
        lacks(trim(other, Edge::Whitespace), '='),
    ensures
        ({
            let value = decimal(first as nat) + "-"@ + decimal(second as nat);
            &&& parameter(before.push(name + "="@ + value), name) == Some((first, second))
            &&& parameter(before.push(other), name) == parameter(before, name)
            &&& parameter(Seq::empty(), name) is None
        }),
{
    reveal_strlit("=");
    reveal_strlit("-");
    let none = Seq::<char>::empty();
    let (a, b) = (decimal(first as nat), decimal(second as nat));
    let value = a + "-"@ + b;
    let text = name + "="@ + value;
    lemma_decimal_reads(first as nat);
    lemma_decimal_reads(second as nat);
    assert(text =~= name.push('=') + value);
    assert(value =~= a.push('-') + b);
    lemma_split_joined(name, '=', value);
    lemma_split_joined(a, '-', b);
    assert(a.first() == a[0] && a.last() == a[a.len() - 1]);
    assert(b.first() == b[0] && b.last() == b[b.len() - 1]);
    law_trimming_takes_off_the_edges(none, a, none, Edge::Whitespace);
    law_trimming_takes_off_the_edges(none, b, none, Edge::Whitespace);
    assert(none + a + none =~= a && none + b + none =~= b);
    law_numbers_read_back(first as nat, 0xffff, a);
    law_numbers_read_back(second as nat, 0xffff, b);
    assert(text.last() == b.last());
    if name.len() > 0 {
        assert(text.first() == name.first());
    } else {
        assert(text.first() == '=');
    }
    law_trimming_takes_off_the_edges(none, text, none, Edge::Whitespace);
    assert(none + text + none =~= text);
    let all = before.push(text);
    assert(all.last() == text && all.drop_last() =~= before);
    lemma_unsplit(trim(other, Edge::Whitespace), '=');
    assert(before.push(other).last() == other && before.push(other).drop_last() =~= before);
}

/// A head that is no text is not RTSP, and one of more than 8192 bytes is too long,
/// whether its end is there or can no longer come in time.
pub proof fn law_heads_that_cannot_be_read(head: Seq<u8>, rest: Seq<u8>)
    requires
        head.len() > 0,
        0x41 <= head[0] <= 0x5a || 0x61 <= head[0] <= 0x7a,
        forall|at: int| 0 <= at < head.len() ==> !#[trigger] blank_line(ended(head), at),
    ensures
        head.len() <= 8192 && !valid_utf8(head) ==> incoming(ended(head) + rest) == Err::<
            Option<(IncomingView, int)>,
            _,
        >(RtspErrorView::NotRtsp),
        head.len() > 8192 ==> incoming(ended(head) + rest) == Err::<Option<(IncomingView, int)>, _>(
            RtspErrorView::TooLong { part: "request head", limit: 8192 },
        ),
{
    let (front, end) = (ended(head), head.len() as int);
    let s = front + rest;
    let blank = seq![13u8, 10, 13, 10];
    assert(front[end] == blank[0] && front[end + 1] == blank[1] && front[end + 2] == blank[2]
        && front[end + 3] == blank[3]);
    assert(forall|k: int| 0 <= k < front.len() ==> s[k] == #[trigger] front[k]);
    assert(blank_line(s, end)) by {
        assert(s[end] == front[end] && s[end + 1] == front[end + 1] && s[end + 2] == front[end + 2]
            && s[end + 3] == front[end + 3]);
    }
    assert forall|at: int| 0 <= at < end implies !blank_line(s, at) by {
        assert(!blank_line(front, at));
        assert(s[at] == front[at] && s[at + 1] == front[at + 1] && s[at + 2] == front[at + 2]
            && s[at + 3] == front[at + 3]);
    }
    lemma_head_ends(s, 0, end);
    assert(s[0] == head[0]);
    assert(s.take(end) =~= head);
}

} // verus!

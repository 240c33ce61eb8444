//! What a publisher's commands come to: what each makes of the session, and what its
//! answer says to a publisher that reads it.

use crate::buffer::{be16, be32, lemma_num16_amid, lemma_num32_amid, lemma_widths, num16, num32};
use crate::rtmp::amf0::{
    all_at, emitted, emitted_all, first_named, fits, law_written_values_read_back, lemma_properties_writable,
    lemma_values_writable, properties_fit, values_fit, writable_key, Amf0Error, ValueView,
};
use crate::rtmp::chunk::{MessageType, MessageView};
use crate::rtmp::session::{
    answered, connect_answer, counted, create_stream_answer, handled, publish_answer, refused,
    status_of, ActionView, SessionErrorView, SessionView, Stage, THIRTY_ONE, ZERO,
};
use crate::text::{
    lacks, law_trimming_takes_off_the_edges, lemma_encoded_length, lemma_split_joined,
    lemma_unsplit, Edge,
};
use vstd::prelude::*;

verus! {

broadcast use lemma_widths;

/// Whether a message is a command that reads as some values.
pub open spec fn commands(message: MessageView, values: Seq<ValueView>) -> bool {
    &&& message.kind == MessageType::Amf0Command
    &&& all_at(message.payload, 0) == Ok::<_, Amf0Error>(values)
}

/// Whether a text is slashes and nothing else.
pub open spec fn slashes(text: Seq<char>) -> bool {
    forall|i: int| 0 <= i < text.len() ==> #[trigger] text[i] == '/'
}

/// Whether a text neither begins nor ends with a slash.
pub open spec fn bare(text: Seq<char>) -> bool {
    text.len() > 0 ==> text.first() != '/' && text.last() != '/'
}

/// `connect` names the app in the object that is its third value, and the session
/// remembers it without the slashes at its ends; without an app it is refused.
pub proof fn law_connecting_names_the_app(
    s: SessionView,
    message: MessageView,
    values: Seq<ValueView>,
    left: Seq<char>,
    app: Seq<char>,
    right: Seq<char>,
)
    requires
        commands(message, values),
        values.len() > 0,
        values[0] == ValueView::String("connect"@),
        slashes(left) && slashes(right) && bare(app),
    ensures
        ({
            let after = handled(s, message);
            let named = values.len() > 2 && values[2].get("app"@) is Some && values[2].get(
                "app"@,
            )->0 is String;
            &&& values.len() > 2 && values[2].get("app"@) == Some(
                ValueView::String(left + app + right),
            ) ==> after.session == (SessionView { stage: Stage::Connected, app, ..s })
                && after.outcome is Ok && after.outcome->Ok_0.len() == 5
            &&& !named ==> after == refused(s, SessionErrorView::NoApp)
        }),
{
    law_trimming_takes_off_the_edges(left, app, right, Edge::Slash);
}

/// `publish` names the stream in its fourth value. The path is the app's name, a
/// slash, and the key without the slashes at its ends and without its query; and the
/// session is publishing there from then on, with nothing announced yet. A key of
/// nothing is refused.
pub proof fn law_publishing_names_the_path(
    s: SessionView,
    message: MessageView,
    values: Seq<ValueView>,
    left: Seq<char>,
    key: Seq<char>,
    right: Seq<char>,
    query: Seq<char>,
)
    requires
        commands(message, values),
        values.len() > 3,
        values[0] == ValueView::String("publish"@),
        slashes(left) && slashes(right) && bare(key) && lacks(key, '?'),
        values[3] == ValueView::String(left + key + right) || values[3] == ValueView::String(
            left + key + right + "?"@ + query,
        ),
    ensures
        ({
            let after = handled(s, message);
            if key.len() == 0 {
                after == refused(s, SessionErrorView::NoStream)
            } else {
                &&& after.session == (SessionView {
                    stage: Stage::Publishing,
                    path: s.app + "/"@ + key,
                    published: None,
                    ..s
                })
                &&& after.outcome is Ok && after.outcome->Ok_0.len() == 2
            }
        }),
{
    let whole = left + key + right;
    assert(lacks(whole, '?')) by {
        assert forall|i: int| 0 <= i < whole.len() implies whole[i] != '?' by {
            if i < left.len() {
                assert(left[i] == '/');
            } else if i >= left.len() + key.len() {
                assert(right[i - left.len() - key.len()] == '/');
            } else {
                assert(whole[i] == key[i - left.len()]);
            }
        }
    }
    reveal_strlit("?");
    law_trimming_takes_off_the_edges(left, key, right, Edge::Slash);
    lemma_unsplit(whole, '?');
    assert(whole + "?"@ + query =~= whole.push('?') + query);
    lemma_split_joined(whole, '?', query);
    lemma_names_differ();
}

proof fn lemma_names_differ()
    ensures
        "publish"@ != "connect"@ && "publish"@ != "createStream"@,
        "createStream"@ != "connect"@,
        "deleteStream"@ != "connect"@ && "deleteStream"@ != "createStream"@,
        "deleteStream"@ != "publish"@,
        "closeStream"@ != "connect"@ && "closeStream"@ != "createStream"@,
        "closeStream"@ != "publish"@,
        "FCUnpublish"@ != "connect"@ && "FCUnpublish"@ != "createStream"@,
        "FCUnpublish"@ != "publish"@,
{
    reveal_strlit("connect");
    reveal_strlit("createStream");
    reveal_strlit("publish");
    reveal_strlit("deleteStream");
    reveal_strlit("closeStream");
    reveal_strlit("FCUnpublish");
    assert("publish"@[0] == 'p' && "connect"@[1] == 'o' && "createStream"@[1] == 'r');
    assert("deleteStream"@[0] == 'd' && "closeStream"@[1] == 'l' && "FCUnpublish"@[0] == 'F');
    assert("connect"@[0] == 'c' && "createStream"@[0] == 'c' && "closeStream"@[0] == 'c');
}

/// Any of three commands ends what is published, which is said where anything was;
/// the session goes back to being connected.
pub proof fn law_three_commands_end_a_stream(
    s: SessionView,
    message: MessageView,
    values: Seq<ValueView>,
)
    requires
        commands(message, values),
        values.len() > 0,
        values[0] == ValueView::String("deleteStream"@) || values[0] == ValueView::String(
            "closeStream"@,
        ) || values[0] == ValueView::String("FCUnpublish"@),
    ensures
        handled(s, message) == answered(
            SessionView { stage: Stage::Connected, published: None, ..s },
            if s.stage == Stage::Publishing {
                seq![ActionView::Unpublish]
            } else {
                Seq::empty()
            },
        ),
{
    lemma_names_differ();
}

/// A command of any other name is passed over, `createStream` is answered and changes
/// nothing, and a command that has no name or is no AMF0 is refused.
pub proof fn law_other_commands(s: SessionView, message: MessageView, values: Seq<ValueView>)
    requires
        message.kind == MessageType::Amf0Command,
    ensures
        all_at(message.payload, 0) matches Err(error) ==> handled(s, message) == refused(
            s,
            SessionErrorView::Amf0(error),
        ),
        commands(message, values) && (values.len() == 0 || !(values[0] is String)) ==> handled(
            s,
            message,
        ) == refused(s, SessionErrorView::Nameless),
        commands(message, values) && values.len() > 0 && values[0] == ValueView::String(
            "createStream"@,
        ) ==> handled(s, message).session == s && handled(s, message).outcome is Ok && handled(
            s,
            message,
        ).outcome->Ok_0.len() == 1,
        commands(message, values) && values.len() > 0 && (values[0] matches ValueView::String(name)
            && name != "connect"@ && name != "createStream"@ && name != "publish"@ && name
            != "deleteStream"@ && name != "closeStream"@ && name != "FCUnpublish"@) ==> handled(
            s,
            message,
        ) == answered(s, Seq::empty()),
{
    lemma_names_differ();
}

/// Messages that are not commands and carry no media: those in a form that is not
/// read end the connection, and the rest are passed over.
pub proof fn law_other_messages(s: SessionView, message: MessageView)
    requires
        !(message.kind is Amf0Command) && !(message.kind is Video) && !(message.kind is Audio),
    ensures
        handled(s, message) == (if message.kind is Amf3Command || message.kind is Amf3Data
            || message.kind is Aggregate {
            refused(s, SessionErrorView::UnreadMessage(message.kind))
        } else {
            answered(s, Seq::empty())
        }),
{
}

/// The number a command asks to be answered with is the one it is answered with.
pub proof fn law_answers_carry_the_transaction(
    s: SessionView,
    message: MessageView,
    values: Seq<ValueView>,
    transaction: u64,
)
    requires
        commands(message, values),
        values.len() > 1,
        values[1] == ValueView::Number(transaction),
    ensures
        values[0] == ValueView::String("createStream"@) ==> handled(s, message).outcome == Ok::<
            _,
            SessionErrorView,
        >(create_stream_answer(transaction)),
        values[0] == ValueView::String("connect"@) && handled(s, message).outcome is Ok
            ==> handled(s, message).outcome == Ok::<_, SessionErrorView>(
            connect_answer(transaction),
        ),
{
    lemma_names_differ();
}

/// What a message in an answer is: where it goes, what it is, and its payload.
pub open spec fn tells(
    action: ActionView,
    csid: u32,
    kind: MessageType,
    stream_id: u32,
) -> bool {
    action matches ActionView::Send { csid: on, message } && on == csid && message.kind == kind
        && message.stream_id == stream_id && message.timestamp == 0
}

/// The payload of a message in an answer.
pub open spec fn told(action: ActionView) -> Seq<u8> {
    action->message.payload
}

/// What `connect` is answered with: a window of 2500000 bytes to acknowledge by, as
/// much bandwidth, which may be used as it is liked, and chunks of 65536; and then
/// that it went well, under the number it was asked with.
#[verifier::spinoff_prover]
#[verifier::rlimit(30)]
pub proof fn law_connecting_is_answered(transaction: u64)
    ensures
        ({
            let answer = connect_answer(transaction);
            &&& answer.len() == 5
            &&& tells(answer[0], 2, MessageType::WindowAckSize, 0)
            &&& told(answer[0]).len() == 4 && num32(told(answer[0]), 0) == 2_500_000
            &&& tells(answer[1], 2, MessageType::SetPeerBandwidth, 0)
            &&& told(answer[1]).len() == 5 && num32(told(answer[1]), 0) == 2_500_000 && told(
                answer[1],
            )[4] == 2
            &&& tells(answer[2], 2, MessageType::SetChunkSize, 0)
            &&& told(answer[2]).len() == 4 && num32(told(answer[2]), 0) == 65_536
            &&& answer[3] == ActionView::SetChunkSize(65_536)
            &&& tells(answer[4], 3, MessageType::Amf0Command, 0)
            &&& all_at(told(answer[4]), 0) matches Ok(values) && {
                &&& values.len() == 4
                &&& values[0] == ValueView::String("_result"@)
                &&& values[1] == ValueView::Number(transaction)
                &&& values[3].get("level"@) == Some(ValueView::String("status"@))
                &&& values[3].get("code"@) == Some(
                    ValueView::String("NetConnection.Connect.Success"@),
                )
            }
        }),
{
    let none = Seq::<u8>::empty();
    let answer = connect_answer(transaction);
    lemma_num32_amid(none, 2_500_000, none);
    lemma_num32_amid(none, 2_500_000, seq![2u8]);
    lemma_num32_amid(none, 65_536, none);
    assert(none + be32(2_500_000) + none =~= be32(2_500_000));
    assert(none + be32(2_500_000) + seq![2u8] =~= be32(2_500_000).push(2));
    assert(none + be32(65_536) + none =~= be32(65_536));
    let about = ValueView::Object(
        seq![
            ("fmsVer"@, ValueView::String("FMS/3,0,1,123"@)),
            ("capabilities"@, ValueView::Number(THIRTY_ONE)),
        ],
    );
    let status = status_of(
        "NetConnection.Connect.Success"@,
        "Connection succeeded."@,
        ("objectEncoding"@, ValueView::Number(ZERO)),
    );
    let values = seq![
        ValueView::String("_result"@),
        ValueView::Number(transaction),
        about,
        status,
    ];
    assert(seq![ValueView::String("_result"@), ValueView::Number(transaction)] + seq![about, status]
        =~= values);
    lemma_about_is_writable();
    lemma_code_is_writable();
    lemma_read_back(values);
    lemma_status_says(
        "NetConnection.Connect.Success"@,
        "Connection succeeded."@,
        ("objectEncoding"@, ValueView::Number(ZERO)),
    );
}

proof fn lemma_about_is_writable()
    ensures
        ({
            let about = ValueView::Object(
                seq![
                    ("fmsVer"@, ValueView::String("FMS/3,0,1,123"@)),
                    ("capabilities"@, ValueView::Number(THIRTY_ONE)),
                ],
            );
            emitted(about).stopped is None && flat(about)
        }),
        emitted(ValueView::String("_result"@)).stopped is None,
        emitted(ValueView::String("onStatus"@)).stopped is None,
{
    reveal_strlit("fmsVer");
    reveal_strlit("FMS/3,0,1,123");
    reveal_strlit("capabilities");
    reveal_strlit("_result");
    reveal_strlit("onStatus");
    lemma_encoded_length("fmsVer"@);
    lemma_encoded_length("FMS/3,0,1,123"@);
    lemma_encoded_length("capabilities"@);
    lemma_encoded_length("_result"@);
    lemma_encoded_length("onStatus"@);
    lemma_properties_writable(
        seq![
            ("fmsVer"@, ValueView::String("FMS/3,0,1,123"@)),
            ("capabilities"@, ValueView::Number(THIRTY_ONE)),
        ],
    );
}

proof fn lemma_code_is_writable()
    ensures
        ({
            let status = status_of(
                "NetConnection.Connect.Success"@,
                "Connection succeeded."@,
                ("objectEncoding"@, ValueView::Number(ZERO)),
            );
            emitted(status).stopped is None && flat(status)
        }),
{
    reveal_strlit("NetConnection.Connect.Success");
    reveal_strlit("Connection succeeded.");
    reveal_strlit("objectEncoding");
    lemma_encoded_length("objectEncoding"@);
    lemma_status_goes_out(
        "NetConnection.Connect.Success"@,
        "Connection succeeded."@,
        ("objectEncoding"@, ValueView::Number(ZERO)),
    );
}

/// Whether a value holds no other, or is an object of such values.
pub open spec fn flat(value: ValueView) -> bool {
    match value {
        ValueView::Object(properties) => forall|i: int|
            0 <= i < properties.len() ==> plain((#[trigger] properties[i]).1),
        _ => plain(value),
    }
}

/// Whether a value holds no other.
pub open spec fn plain(value: ValueView) -> bool {
    value is Number || value is Boolean || value is String || value is Null || value is Undefined
        || value is Date
}

proof fn lemma_status_goes_out(
    code: Seq<char>,
    description: Seq<char>,
    extra: (Seq<char>, ValueView),
)
    requires
        code.len() <= 0x3fff,
        description.len() <= 0x3fff,
        writable_key(extra.0),
        emitted(extra.1).stopped is None,
        plain(extra.1),
    ensures
        emitted(status_of(code, description, extra)).stopped is None,
        flat(status_of(code, description, extra)),
{
    reveal_strlit("level");
    reveal_strlit("status");
    reveal_strlit("code");
    reveal_strlit("description");
    lemma_encoded_length("level"@);
    lemma_encoded_length("status"@);
    lemma_encoded_length("code"@);
    lemma_encoded_length("description"@);
    lemma_encoded_length(code);
    lemma_encoded_length(description);
    lemma_properties_writable(status_of(code, description, extra)->Object_0);
}

proof fn lemma_status_says(code: Seq<char>, description: Seq<char>, extra: (Seq<char>, ValueView))
    ensures
        status_of(code, description, extra).get("level"@) == Some(ValueView::String("status"@)),
        status_of(code, description, extra).get("code"@) == Some(ValueView::String(code)),
{
    reveal_strlit("level");
    reveal_strlit("code");
    assert("level"@[0] == 'l' && "code"@[0] == 'c');
    let properties = status_of(code, description, extra)->Object_0;
    assert(properties.first() == ("level"@, ValueView::String("status"@)));
    let rest = properties.drop_first();
    assert(rest.first() == ("code"@, ValueView::String(code)));
    reveal_with_fuel(first_named, 3);
}

proof fn lemma_flat_properties_fit(properties: Seq<(Seq<char>, ValueView)>, depth: nat)
    requires
        forall|i: int| 0 <= i < properties.len() ==> plain((#[trigger] properties[i]).1),
    ensures
        properties_fit(properties, depth),
    decreases properties.len(),
{
    if properties.len() > 0 {
        let others = properties.subrange(1, properties.len() as int);
        assert forall|i: int| 0 <= i < others.len() implies plain((#[trigger] others[i]).1) by {
            assert(others[i] == properties[i + 1]);
        }
        lemma_flat_properties_fit(others, depth);
        assert(fits(properties[0].1, depth));
    }
}

proof fn lemma_flat_values_fit(values: Seq<ValueView>)
    requires
        forall|i: int| 0 <= i < values.len() ==> flat(#[trigger] values[i]),
    ensures
        values_fit(values, 0),
    decreases values.len(),
{
    if values.len() > 0 {
        let others = values.subrange(1, values.len() as int);
        assert forall|i: int| 0 <= i < others.len() implies flat(#[trigger] others[i]) by {
            assert(others[i] == values[i + 1]);
        }
        lemma_flat_values_fit(others);
        assert(flat(values[0]));
        if let ValueView::Object(properties) = values[0] {
            lemma_flat_properties_fit(properties, 1);
        }
        assert(fits(values[0], 0));
    }
}

proof fn lemma_read_back(values: Seq<ValueView>)
    requires
        forall|i: int|
            0 <= i < values.len() ==> flat(#[trigger] values[i]) && emitted(values[i]).stopped
                is None,
    ensures
        all_at(emitted_all(values).bytes, 0) == Ok::<_, Amf0Error>(values),
{
    lemma_values_writable(values);
    lemma_flat_values_fit(values);
    law_written_values_read_back(values);
}

/// What `publish` is answered with: that the stream begins, which is the first, and
/// then on that stream that publishing has started, and of which key.
#[verifier::spinoff_prover]
#[verifier::rlimit(50)]
pub proof fn law_publishing_is_answered(key: Seq<char>)
    requires
        key.len() <= 0x3fff,
    ensures
        ({
            let answer = publish_answer(key);
            &&& answer.len() == 2
            &&& tells(answer[0], 2, MessageType::UserControl, 0)
            &&& told(answer[0]).len() == 6 && num16(told(answer[0]), 0) == 0 && num32(
                told(answer[0]),
                2,
            ) == 1
            &&& tells(answer[1], 3, MessageType::Amf0Command, 1)
            &&& all_at(told(answer[1]), 0) matches Ok(values) && {
                &&& values.len() == 4
                &&& values[0] == ValueView::String("onStatus"@)
                &&& values[1] == ValueView::Number(0)
                &&& values[2] == ValueView::Null
                &&& values[3].get("level"@) == Some(ValueView::String("status"@))
                &&& values[3].get("code"@) == Some(ValueView::String("NetStream.Publish.Start"@))
                &&& values[3]->Object_0[3] == ("details"@, ValueView::String(key))
            }
        }),
{
    let none = Seq::<u8>::empty();
    let answer = publish_answer(key);
    lemma_num16_amid(none, 0, be32(1));
    lemma_num32_amid(be16(0), 1, none);
    assert(none + be16(0) + be32(1) =~= be16(0) + be32(1));
    assert(be16(0) + be32(1) + none =~= be16(0) + be32(1));
    let extra = ("details"@, ValueView::String(key));
    let status = status_of("NetStream.Publish.Start"@, "Publishing."@, extra);
    let values = seq![
        ValueView::String("onStatus"@),
        ValueView::Number(ZERO),
        ValueView::Null,
        status,
    ];
    assert(emitted(status).stopped is None && flat(status)) by {
        reveal_strlit("NetStream.Publish.Start");
        reveal_strlit("Publishing.");
        reveal_strlit("details");
        lemma_encoded_length("details"@);
        lemma_encoded_length(key);
        lemma_status_goes_out("NetStream.Publish.Start"@, "Publishing."@, extra);
    }
    lemma_about_is_writable();
    lemma_read_back(values);
    lemma_status_says("NetStream.Publish.Start"@, "Publishing."@, extra);
}

/// An acknowledgement is owed when 2500000 bytes have come since the last, and says how
/// many have come in all, in 32 bits.
pub proof fn law_acknowledgements_count_what_came(s: SessionView, bytes: nat)
    requires
        s.wf(),
    ensures
        ({
            let (owed, after) = counted(s, bytes);
            let all = s.received + bytes;
            &&& owed is Some <==> all - s.acknowledged >= 2_500_000
            &&& owed matches Some(action) ==> {
                &&& tells(action, 2, MessageType::Acknowledgement, 0)
                &&& told(action).len() == 4
                &&& num32(told(action), 0) == all % 0x1_0000_0000
                &&& after == (SessionView { received: all, acknowledged: all, ..s })
            }
            &&& owed is None ==> after == (SessionView { received: all, ..s })
        }),
{
    let none = Seq::<u8>::empty();
    let all = (s.received + bytes) as int % 0x1_0000_0000;
    lemma_num32_amid(none, all, none);
    assert(none + be32(all) + none =~= be32(all));
}

} // verus!

//! The utility calls that a frontend makes of an engine, and their MessagePack results.
use crate::protocol::{
    EngineCoreOutputs, EngineCoreUtilityRequest, OutputsView, UtilityOutput, UtilityView,
};
use crate::text::same_text;
use vstd::prelude::*;
use vstd::utf8::encode_utf8;

verus! {

/// `rmpv`'s MessagePack value, carried as an opaque value.
#[verifier::external_type_specification]
#[verifier::external_body]
pub struct ExMsgpackValue(rmpv::Value);

/// `rmpv`'s conversion error, carried as an opaque value.
#[verifier::external_type_specification]
#[verifier::external_body]
pub struct ExMsgpackError(rmpv::ext::Error);

/// What a MessagePack value holds: its encoding, in the shortest form.
pub uninterp spec fn msgpack_bytes(value: rmpv::Value) -> Seq<u8>;

/// The encoding of a boolean.
pub open spec fn bool_bytes(flag: bool) -> Seq<u8> {
    if flag {
        seq![0xc3u8]
    } else {
        seq![0xc2u8]
    }
}

/// The encoding of nil.
pub open spec fn nil_bytes() -> Seq<u8> {
    seq![0xc0u8]
}

/// The encoding of a short string: a length marker and the UTF-8 bytes.
pub open spec fn short_string_bytes(text: Seq<char>) -> Seq<u8> {
    seq![(0xa0 + encode_utf8(text).len()) as u8] + encode_utf8(text)
}

/// The encodings of short strings, one after the other.
pub open spec fn short_strings_bytes(items: Seq<&str>) -> Seq<u8>
    decreases items.len(),
{
    if items.len() == 0 {
        Seq::empty()
    } else {
        short_strings_bytes(items.drop_last()) + short_string_bytes(items.last()@)
    }
}

/// The encoding of a short array of short strings: a length marker and the strings.
pub open spec fn short_array_bytes(items: Seq<&str>) -> Seq<u8> {
    seq![(0x90 + items.len()) as u8] + short_strings_bytes(items)
}

/// Calls `rmpv::ext::to_value` on a boolean, which gives `Value::Boolean`.
#[verifier::external_body]
pub(crate) fn value_of_bool(flag: bool) -> (value: Result<rmpv::Value, rmpv::ext::Error>)
    ensures
        value is Ok,
        msgpack_bytes(value->Ok_0) == bool_bytes(flag),
{
    rmpv::ext::to_value(flag)
}

/// Calls `rmpv::ext::to_value` on the unit value, which gives `Value::Nil`.
#[verifier::external_body]
pub(crate) fn value_of_unit() -> (value: Result<rmpv::Value, rmpv::ext::Error>)
    ensures
        value is Ok,
        msgpack_bytes(value->Ok_0) == nil_bytes(),
{
    rmpv::ext::to_value(())
}

/// Calls `rmpv::ext::to_value` on a list of strings, which gives `Value::Array` of
/// `Value::String`. The encoding is stated for lists of up to 15 strings of up to 31 bytes,
/// whose length markers take one byte.
#[verifier::external_body]
pub(crate) fn value_of_strings(items: Vec<&str>) -> (value: Result<rmpv::Value, rmpv::ext::Error>)
    ensures
        value is Ok,
        (items@.len() <= 15 && forall|i: int|
            0 <= i < items@.len() ==> encode_utf8((#[trigger] items@[i])@).len() <= 31)
            ==> msgpack_bytes(value->Ok_0) == short_array_bytes(items@),
{
    rmpv::ext::to_value(items)
}

/// Why a utility call could not be answered.
#[derive(Debug, Clone, Copy, PartialEq, Eq, Structural)]
pub enum UtilityError {
    /// The result has no MessagePack form.
    Encode,
}

/// What the engine answers a utility method.
#[derive(Debug, Clone, Copy, PartialEq, Eq, Structural)]
pub enum UtilityReply {
    /// The tasks that the engine supports: generation.
    Tasks,
    /// Yes or no.
    Flag(bool),
    /// The method ran and has no result.
    Done,
    /// The engine does not know the method.
    Unknown,
}

/// The answer to each method.
pub open spec fn reply_to(method: Seq<char>) -> UtilityReply {
    if method == "get_supported_tasks"@ {
        UtilityReply::Tasks
    } else if method == "is_sleeping"@ {
        UtilityReply::Flag(false)
    } else if method == "reset_prefix_cache"@ {
        UtilityReply::Flag(true)
    } else if method == "reset_mm_cache"@ || method == "reset_encoder_cache"@ || method
        == "profile"@ || method == "sleep"@ || method == "wake_up"@ || method
        == "execute_dummy_batch"@ {
        UtilityReply::Done
    } else {
        UtilityReply::Unknown
    }
}

/// Decides what the engine answers a utility method.
pub fn utility_reply(method: &str) -> (reply: UtilityReply)
    ensures
        reply == reply_to(method@),
{
    if same_text(method, "get_supported_tasks") {
        UtilityReply::Tasks
    } else if same_text(method, "is_sleeping") {
        UtilityReply::Flag(false)
    } else if same_text(method, "reset_prefix_cache") {
        UtilityReply::Flag(true)
    } else if same_text(method, "reset_mm_cache") || same_text(method, "reset_encoder_cache")
        || same_text(method, "profile") || same_text(method, "sleep") || same_text(method, "wake_up")
        || same_text(method, "execute_dummy_batch") {
        UtilityReply::Done
    } else {
        UtilityReply::Unknown
    }
}

/// The MessagePack result of an answer: what has no result, and what is unknown, is nil.
pub open spec fn reply_bytes(reply: UtilityReply) -> Seq<u8> {
    match reply {
        UtilityReply::Tasks => short_array_bytes(seq!["generate"]),
        UtilityReply::Flag(flag) => bool_bytes(flag),
        UtilityReply::Done => nil_bytes(),
        UtilityReply::Unknown => nil_bytes(),
    }
}

/// The protocol's envelope round a utility result.
#[derive(Debug)]
pub struct UtilityResultEnvelope {
    pub value: rmpv::Value,
}

/// Encodes an answer into the protocol's envelope.
pub fn utility_envelope(reply: UtilityReply) -> (envelope: Result<
    UtilityResultEnvelope,
    UtilityError,
>)
    ensures
        envelope is Ok,
        msgpack_bytes(envelope->Ok_0.value) == reply_bytes(reply),
{
    let encoded = match reply {
        UtilityReply::Tasks => {
            let mut tasks: Vec<&str> = Vec::new();
            tasks.push("generate");
            proof {
                reveal_strlit("generate");
                vstd::utf8::is_ascii_chars_encode_utf8("generate"@);
                assert(tasks@ == seq!["generate"]);
            }
            value_of_strings(tasks)
        },
        UtilityReply::Flag(flag) => value_of_bool(flag),
        UtilityReply::Done => value_of_unit(),
        UtilityReply::Unknown => value_of_unit(),
    };
    match encoded {
        Ok(value) => Ok(UtilityResultEnvelope { value }),
        Err(_) => Err(UtilityError::Encode),
    }
}

/// The answer to a utility call, as it goes on the wire.
pub open spec fn utility_outputs(
    engine_index: u32,
    request: EngineCoreUtilityRequest,
) -> OutputsView {
    OutputsView {
        engine_index,
        outputs: Seq::empty(),
        finished_requests: None,
        utility_output: Some(
            UtilityView {
                call_id: request.call_id,
                failure_message: None,
                result: Some(reply_bytes(reply_to(request.method_name@))),
            },
        ),
    }
}

/// Produces the minimal utility responses needed by a real frontend.
pub fn utility_response(engine_index: u32, request: EngineCoreUtilityRequest) -> (outputs: Result<
    EngineCoreOutputs,
    UtilityError,
>)
    ensures
        outputs is Ok,
        outputs->Ok_0@ == utility_outputs(engine_index, request),
{
    let result = utility_envelope(utility_reply(request.method_name.as_str()))?;
    let outputs = EngineCoreOutputs {
        engine_index,
        outputs: Vec::new(),
        finished_requests: None,
        utility_output: Some(
            UtilityOutput { call_id: request.call_id, failure_message: None, result: Some(result) },
        ),
    };
    assert(outputs@.outputs == Seq::<crate::protocol::OutputView>::empty());
    Ok(outputs)
}

/// Each method has its answer on the wire: the supported tasks are a list of one string,
/// generation; the engine never sleeps; its prefix cache is always reset. Every other method, known
/// or not, is answered with nil.
pub proof fn each_method_has_its_answer(engine_index: u32, request: EngineCoreUtilityRequest)
    ensures
        ({
            let outputs = utility_outputs(engine_index, request);
            let answer = outputs.utility_output->0;
            let method = request.method_name@;
            &&& outputs.engine_index == engine_index
            &&& outputs.outputs.len() == 0
            &&& outputs.finished_requests is None
            &&& outputs.utility_output is Some
            &&& answer.call_id == request.call_id
            &&& answer.failure_message is None
            &&& method == "get_supported_tasks"@ ==> answer.result == Some(
                seq![0x91u8, 0xa8, 0x67, 0x65, 0x6e, 0x65, 0x72, 0x61, 0x74, 0x65],
            )
            &&& method == "is_sleeping"@ ==> answer.result == Some(seq![0xc2u8])
            &&& method == "reset_prefix_cache"@ ==> answer.result == Some(seq![0xc3u8])
            &&& method != "get_supported_tasks"@ && method != "is_sleeping"@ && method
                != "reset_prefix_cache"@ ==> answer.result == Some(seq![0xc0u8])
        }),
{
    reveal_strlit("get_supported_tasks");
    reveal_strlit("is_sleeping");
    reveal_strlit("reset_prefix_cache");
    reveal_strlit("generate");
    vstd::utf8::is_ascii_chars_encode_utf8("generate"@);
    let text = encode_utf8("generate"@);
    let items = seq!["generate"];
    assert(text.len() == 8);
    assert(items.drop_last() == Seq::<&str>::empty());
    assert(short_strings_bytes(items.drop_last()) == Seq::<u8>::empty());
    assert(short_array_bytes(items) =~= seq![
        0x91u8,
        0xa8,
        0x67,
        0x65,
        0x6e,
        0x65,
        0x72,
        0x61,
        0x74,
        0x65,
    ]);
    assert("is_sleeping"@.len() != "get_supported_tasks"@.len());
    assert("reset_prefix_cache"@.len() != "get_supported_tasks"@.len());
    assert("reset_prefix_cache"@.len() != "is_sleeping"@.len());
}

/// The engine knows these methods and no others.
pub proof fn the_known_methods(method: Seq<char>)
    ensures
        reply_to(method) is Unknown <==> ![
            "get_supported_tasks"@,
            "is_sleeping"@,
            "reset_prefix_cache"@,
            "reset_mm_cache"@,
            "reset_encoder_cache"@,
            "profile"@,
            "sleep"@,
            "wake_up"@,
            "execute_dummy_batch"@,
        ]@.contains(method),
{
}

} // verus!

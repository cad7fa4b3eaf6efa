use inference_sim::protocol::EngineCoreUtilityRequest;
use inference_sim::utility::{utility_envelope, utility_reply, utility_response, UtilityReply};

fn answer(method: &str) -> Vec<u8> {
    let outputs = utility_response(
        3,
        EngineCoreUtilityRequest {
            client_index: 1,
            call_id: 42,
            method_name: method.to_string(),
        },
    )
    .unwrap();
    assert_eq!(outputs.engine_index, 3);
    assert!(outputs.outputs.is_empty());
    assert!(outputs.finished_requests.is_none());
    let output = outputs.utility_output.unwrap();
    assert_eq!(output.call_id, 42);
    assert!(output.failure_message.is_none());
    encoded(&output.result.unwrap().value)
}

fn encoded(value: &rmpv::Value) -> Vec<u8> {
    let mut bytes = Vec::new();
    rmpv::encode::write_value(&mut bytes, value).unwrap();
    bytes
}

#[test]
fn supported_tasks_are_a_list_of_one() {
    assert_eq!(answer("get_supported_tasks"), b"\x91\xa8generate".to_vec());
}

#[test]
fn flags_are_booleans() {
    assert_eq!(answer("is_sleeping"), vec![0xc2]);
    assert_eq!(answer("reset_prefix_cache"), vec![0xc3]);
}

#[test]
fn methods_without_a_result_answer_nil() {
    for method in [
        "reset_mm_cache",
        "reset_encoder_cache",
        "profile",
        "sleep",
        "wake_up",
        "execute_dummy_batch",
    ] {
        assert_eq!(utility_reply(method), UtilityReply::Done);
        assert_eq!(answer(method), vec![0xc0]);
    }
}

#[test]
fn unknown_methods_answer_nil() {
    assert_eq!(utility_reply("SLEEP"), UtilityReply::Unknown);
    assert_eq!(utility_reply(""), UtilityReply::Unknown);
    assert_eq!(answer("no_such_method"), vec![0xc0]);
}

#[test]
fn envelopes_hold_the_encoded_answer() {
    assert_eq!(utility_envelope(UtilityReply::Flag(true)).unwrap().value, rmpv::Value::from(true));
    assert_eq!(utility_envelope(UtilityReply::Done).unwrap().value, rmpv::Value::Nil);
    assert_eq!(
        utility_envelope(UtilityReply::Tasks).unwrap().value,
        rmpv::Value::Array(vec![rmpv::Value::from("generate")])
    );
}

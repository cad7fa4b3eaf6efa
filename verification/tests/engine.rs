use inference_sim::active::{request_seed, ActiveRequest, ByteOrder, Opt};
use inference_sim::batch::batch_by_client;
use inference_sim::dataplane::{
    DataPlaneError, KvDataPlane, NixlConfig, NoopDataPlane, PdRole, RemoteKv, RequestKv,
};
use inference_sim::engine::{
    empty_finish_outputs, extract_kv_params, Engine, LoopAction, LoopError, LoopEvent,
};
use inference_sim::protocol::{
    EngineCoreFinishReason, EngineCoreOutput, EngineCoreRequest, EngineCoreUtilityRequest,
    EngineInput, EngineOutput, SamplingParams,
};
use rand::rngs::StdRng;
use rand::{Rng, SeedableRng};
use std::hash::{DefaultHasher, Hash, Hasher};

const OPT: Opt = Opt {
    seed: 7,
    vocab_size: 1000,
    output_token_chunk_size: 2,
    byte_order: NATIVE,
};

/// The byte order of this machine.
const NATIVE: ByteOrder = if 1u16.to_ne_bytes()[0] == 1 {
    ByteOrder::Little
} else {
    ByteOrder::Big
};

fn plane() -> NoopDataPlane {
    NoopDataPlane::new(NixlConfig {
        kv_block_bytes: 4096,
        tokens_per_block: 16,
        engine_id: "engine".to_string(),
        side_channel_host: "host".to_string(),
        side_channel_port: 9,
    })
}

fn request(id: &str, client_index: u32, prompt: usize, max_tokens: u32) -> EngineCoreRequest {
    EngineCoreRequest {
        request_id: id.to_string(),
        client_index,
        prompt_token_ids: Some(vec![1; prompt]),
        sampling_params: Some(SamplingParams { max_tokens }),
    }
}

fn submit<D: KvDataPlane>(engine: &mut Engine<D>, request: EngineCoreRequest) -> Vec<EngineOutput> {
    engine.handle_input(EngineInput::Request(Box::new(request))).unwrap()
}

fn seeded(id: &str, engine_index: u32, count: usize) -> Vec<u32> {
    let mut hasher = DefaultHasher::new();
    OPT.seed.hash(&mut hasher);
    engine_index.hash(&mut hasher);
    id.hash(&mut hasher);
    let mut rng = StdRng::seed_from_u64(hasher.finish());
    (0..count).map(|_| rng.random_range(0..OPT.vocab_size)).collect()
}

fn only_refusal(outputs: &[EngineOutput], client_index: u32, id: &str) -> EngineCoreFinishReason {
    assert_eq!(outputs.len(), 1);
    assert_eq!(outputs[0].client_index, client_index);
    let batch = &outputs[0].outputs;
    assert_eq!(batch.outputs.len(), 1);
    assert_eq!(batch.outputs[0].request_id, id);
    assert!(batch.outputs[0].new_token_ids.is_empty());
    assert!(batch.outputs[0].kv_transfer_params.is_none());
    assert_eq!(batch.finished_requests, Some(vec![id.to_string()]));
    assert!(batch.utility_output.is_none());
    batch.outputs[0].finish_reason.unwrap()
}

#[test]
fn a_seed_hashes_its_parts_as_the_standard_library_does() {
    for (base, engine_index, id) in [(0u64, 0u32, ""), (7, 3, "req-1"), (u64::MAX, u32::MAX, "é")] {
        let mut hasher = DefaultHasher::new();
        base.hash(&mut hasher);
        engine_index.hash(&mut hasher);
        id.hash(&mut hasher);
        assert_eq!(request_seed(base, engine_index, id, NATIVE), hasher.finish());
    }
}

#[test]
fn a_request_emits_its_seeded_tokens_up_to_its_limit() {
    let mut engine = Engine::new(3, OPT, PdRole::Both, plane());
    assert!(submit(&mut engine, request("a", 0, 4, 5)).is_empty());
    let mut tokens = Vec::new();
    let mut reasons = Vec::new();
    while engine.has_active() {
        for batch in engine.step() {
            assert_eq!(batch.outputs.engine_index, 3);
            for output in batch.outputs.outputs {
                tokens.extend(output.new_token_ids.clone());
                reasons.push(output.finish_reason);
            }
        }
    }
    assert_eq!(tokens, seeded("a", 3, 5));
    assert!(tokens.iter().all(|token| *token < OPT.vocab_size));
    assert_eq!(reasons, vec![None, None, Some(EngineCoreFinishReason::Length)]);
    assert!(engine.step().is_empty());
}

#[test]
fn the_chunk_size_does_not_change_the_tokens() {
    let emitted = |chunk: usize| {
        let opt = Opt { output_token_chunk_size: chunk, ..OPT };
        let mut active = ActiveRequest::new(1, Box::new(request("x", 0, 0, 7)), &opt).unwrap();
        let mut tokens = Vec::new();
        loop {
            let output = active.step(&opt);
            tokens.extend(output.new_token_ids.clone());
            if output.finished() {
                return tokens;
            }
        }
    };
    assert_eq!(emitted(1), emitted(3));
    assert_eq!(emitted(3), emitted(100));
    assert_eq!(emitted(1).len(), 7);
}

#[test]
fn a_zero_chunk_emits_nothing_and_never_ends() {
    let opt = Opt { output_token_chunk_size: 0, vocab_size: 0, ..OPT };
    let mut engine = Engine::new(0, opt, PdRole::Both, plane());
    submit(&mut engine, request("a", 0, 1, 5));
    let outputs = engine.step();
    assert!(outputs[0].outputs.outputs[0].new_token_ids.is_empty());
    assert_eq!(outputs[0].outputs.outputs[0].finish_reason, None);
    assert!(engine.has_active());
}

#[test]
fn invalid_requests_are_refused_at_once() {
    let mut engine = Engine::new(0, OPT, PdRole::Both, plane());
    let mut bare = request("a", 4, 1, 5);
    bare.sampling_params = None;
    let outputs = submit(&mut engine, bare);
    assert_eq!(only_refusal(&outputs, 4, "a"), EngineCoreFinishReason::Error);
    let outputs = submit(&mut engine, request("b", 5, 1, 0));
    assert_eq!(only_refusal(&outputs, 5, "b"), EngineCoreFinishReason::Length);
    assert!(!engine.has_active());
}

#[test]
fn an_active_id_is_refused() {
    let mut engine = Engine::new(0, OPT, PdRole::Both, plane());
    assert!(submit(&mut engine, request("a", 1, 1, 5)).is_empty());
    let outputs = submit(&mut engine, request("a", 2, 9, 9));
    assert_eq!(only_refusal(&outputs, 2, "a"), EngineCoreFinishReason::Error);
    assert_eq!(engine.active_requests.len(), 1);
    assert_eq!(engine.active_requests[0].client_index, 1);
}

#[test]
fn an_abort_answers_each_of_its_requests_once() {
    let mut engine = Engine::new(0, OPT, PdRole::Both, plane());
    submit(&mut engine, request("a", 2, 1, 5));
    submit(&mut engine, request("b", 1, 1, 5));
    submit(&mut engine, request("c", 2, 1, 5));
    let ids = ["c", "missing", "a", "c"].map(String::from).to_vec();
    let outputs = engine.handle_input(EngineInput::Abort(ids)).unwrap();
    assert_eq!(outputs.len(), 1);
    assert_eq!(outputs[0].client_index, 2);
    let answered: Vec<&str> =
        outputs[0].outputs.outputs.iter().map(|o| o.request_id.as_str()).collect();
    assert_eq!(answered, vec!["c", "a"]);
    assert!(outputs[0]
        .outputs
        .outputs
        .iter()
        .all(|o| o.finish_reason == Some(EngineCoreFinishReason::Abort)));
    assert_eq!(
        outputs[0].outputs.finished_requests,
        Some(vec!["a".to_string(), "c".to_string()])
    );
    let left: Vec<&str> = engine.active_requests.iter().map(|r| r.request_id.as_str()).collect();
    assert_eq!(left, vec!["b"]);
    assert!(engine.handle_input(EngineInput::Abort(Vec::new())).unwrap().is_empty());
}

#[test]
fn a_step_batches_by_client_in_ascending_order() {
    let mut engine = Engine::new(0, OPT, PdRole::Both, plane());
    submit(&mut engine, request("a", 9, 1, 5));
    submit(&mut engine, request("b", 3, 1, 2));
    submit(&mut engine, request("c", 9, 1, 1));
    let outputs = engine.step();
    assert_eq!(outputs.len(), 2);
    assert_eq!(outputs[0].client_index, 3);
    assert_eq!(outputs[0].outputs.finished_requests, Some(vec!["b".to_string()]));
    assert_eq!(outputs[1].client_index, 9);
    assert_eq!(outputs[1].outputs.outputs.len(), 2);
    assert_eq!(outputs[1].outputs.finished_requests, Some(vec!["c".to_string()]));
    let outputs = engine.step();
    assert_eq!(outputs.len(), 1);
    assert_eq!(outputs[0].outputs.finished_requests, None);
}

#[test]
fn a_prefill_engine_stamps_finishing_outputs() {
    let mut engine = Engine::new(0, OPT, PdRole::Prefill, plane());
    assert!(engine.advertises());
    submit(&mut engine, request("long", 0, 40, 4));
    submit(&mut engine, request("short", 0, 40, 1));
    let outputs = engine.step();
    let batch = &outputs[0].outputs.outputs;
    assert!(batch[0].kv_transfer_params.is_none());
    let remote = batch[1].kv_transfer_params.as_ref().unwrap();
    assert_eq!(remote.engine_id, "engine");
    assert_eq!(remote.host, "host");
    assert_eq!(remote.port, 9);
    assert_eq!(remote.block_ids, vec![0, 1, 2]);
    // Other roles advertise nothing.
    let mut decode = Engine::new(0, OPT, PdRole::Decode, plane());
    assert!(!decode.advertises());
    submit(&mut decode, request("short", 0, 40, 1));
    assert!(decode.step()[0].outputs.outputs[0].kv_transfer_params.is_none());
}

/// A plane that fails and keeps a record of its calls.
#[derive(Default)]
struct FailingPlane {
    log: Vec<String>,
}

impl KvDataPlane for FailingPlane {
    fn advertise_prefilled(&mut self, kv: RequestKv<'_>) -> Result<RemoteKv, DataPlaneError> {
        self.log.push(format!("advertise {} {}", kv.request_id, kv.num_tokens));
        Err(DataPlaneError::Backend("down".to_string()))
    }

    fn pull_prefilled(
        &mut self,
        kv: RequestKv<'_>,
        _remote: &RemoteKv,
    ) -> Result<u64, DataPlaneError> {
        self.log.push(format!("pull {}", kv.request_id));
        Err(DataPlaneError::TimedOut { remote: "peer".to_string() })
    }

    fn release(&mut self, request_id: &str) {
        self.log.push(format!("release {request_id}"));
    }
}

#[test]
fn a_failed_advert_leaves_the_output_bare() {
    let mut engine = Engine::new(0, OPT, PdRole::Prefill, FailingPlane::default());
    submit(&mut engine, request("a", 0, 12, 1));
    let outputs = engine.step();
    assert!(outputs[0].outputs.outputs[0].kv_transfer_params.is_none());
    assert_eq!(engine.data_plane.log, vec!["advertise a 12"]);
}

#[test]
fn an_abort_releases_every_id() {
    let mut engine = Engine::new(0, OPT, PdRole::Decode, FailingPlane::default());
    submit(&mut engine, request("a", 0, 12, 1));
    let ids = vec!["missing".to_string(), "a".to_string()];
    engine.handle_input(EngineInput::Abort(ids)).unwrap();
    // Requests carry no addressing, so nothing was pulled.
    assert_eq!(engine.data_plane.log, vec!["release missing", "release a"]);
    assert!(extract_kv_params(&request("a", 0, 1, 1)).is_none());
}

#[test]
fn a_wave_start_is_ignored() {
    let mut engine = Engine::new(0, OPT, PdRole::Both, plane());
    assert!(engine.handle_input(EngineInput::StartDpWave).unwrap().is_empty());
}

#[test]
fn the_loop_turns_events_into_actions() {
    let mut engine = Engine::new(0, OPT, PdRole::Both, plane());
    assert!(matches!(engine.turn(LoopEvent::Shutdown), LoopAction::Stop));
    assert!(matches!(
        engine.turn(LoopEvent::InputClosed),
        LoopAction::Fail(LoopError::InputClosed)
    ));
    let input = EngineInput::Request(Box::new(request("a", 0, 1, 2)));
    match engine.turn(LoopEvent::Input(input)) {
        LoopAction::Send(outputs) => assert!(outputs.is_empty()),
        other => panic!("unexpected {other:?}"),
    }
    match engine.turn(LoopEvent::Idle) {
        LoopAction::Send(outputs) => {
            assert_eq!(outputs[0].outputs.outputs[0].new_token_ids, seeded("a", 0, 2));
        }
        other => panic!("unexpected {other:?}"),
    }
    let call = EngineCoreUtilityRequest {
        client_index: 6,
        call_id: 11,
        method_name: "sleep".to_string(),
    };
    match engine.turn(LoopEvent::Input(EngineInput::Utility(call))) {
        LoopAction::Send(outputs) => {
            assert_eq!(outputs.len(), 1);
            assert_eq!(outputs[0].client_index, 6);
        }
        other => panic!("unexpected {other:?}"),
    }
}

#[test]
fn a_terminal_batch_names_its_request() {
    let batch = empty_finish_outputs(8, "a".to_string(), EngineCoreFinishReason::Abort);
    assert_eq!(batch.engine_index, 8);
    assert_eq!(batch.outputs.len(), 1);
    assert_eq!(batch.outputs[0].finish_reason, Some(EngineCoreFinishReason::Abort));
    assert_eq!(batch.finished_requests, Some(vec!["a".to_string()]));
}

#[test]
fn batching_keeps_each_clients_order() {
    let output = |id: &str, done: bool| EngineCoreOutput {
        request_id: id.to_string(),
        new_token_ids: Vec::new(),
        finish_reason: if done { Some(EngineCoreFinishReason::Length) } else { None },
        kv_transfer_params: None,
    };
    let tagged = vec![
        (5, output("z", true)),
        (5, output("a", true)),
        (1, output("b", false)),
        (5, output("c", false)),
        (3, output("d", true)),
        (5, output("e", true)),
    ];
    let batches = batch_by_client(2, tagged);
    let clients: Vec<u32> = batches.iter().map(|b| b.client_index).collect();
    assert_eq!(clients, vec![1, 3, 5]);
    let ids: Vec<&str> =
        batches[2].outputs.outputs.iter().map(|o| o.request_id.as_str()).collect();
    assert_eq!(ids, vec!["z", "a", "c", "e"]);
    // Finished ids ascend, whatever the order of the outputs.
    assert_eq!(
        batches[2].outputs.finished_requests,
        Some(["a", "e", "z"].map(String::from).to_vec())
    );
    assert_eq!(batches[0].outputs.finished_requests, None);
    assert!(batch_by_client(2, Vec::new()).is_empty());
}

#[test]
fn a_decode_engine_pulls_addressed_kv_and_goes_on_whatever_comes_of_it() {
    let remote = RemoteKv {
        engine_id: "peer".to_string(),
        host: "host".to_string(),
        port: 1,
        block_ids: vec![0],
    };
    let mut decode = Engine::new(0, OPT, PdRole::Decode, FailingPlane::default());
    assert!(decode
        .accept_request(Box::new(request("a", 0, 9, 5)), Some(remote.clone()))
        .is_empty());
    // A taken id is refused before any pull, and a request without addressing needs none.
    decode.accept_request(Box::new(request("a", 0, 9, 5)), Some(remote.clone()));
    decode.accept_request(Box::new(request("b", 0, 9, 5)), None);
    assert_eq!(decode.data_plane.log, vec!["pull a"]);
    assert_eq!(decode.active_requests.len(), 2);
    let mut prefill = Engine::new(0, OPT, PdRole::Prefill, FailingPlane::default());
    prefill.accept_request(Box::new(request("a", 0, 9, 5)), Some(remote));
    assert!(prefill.data_plane.log.is_empty());
}

#[test]
fn a_seed_follows_the_byte_order() {
    let swapped = |base: u64, engine_index: u32, id: &str, order: ByteOrder| {
        let mut hasher = DefaultHasher::new();
        match order {
            ByteOrder::Little => {
                hasher.write(&base.to_le_bytes());
                hasher.write(&engine_index.to_le_bytes());
            }
            ByteOrder::Big => {
                hasher.write(&base.to_be_bytes());
                hasher.write(&engine_index.to_be_bytes());
            }
        }
        id.hash(&mut hasher);
        hasher.finish()
    };
    for order in [ByteOrder::Little, ByteOrder::Big] {
        assert_eq!(request_seed(258, 77, "r", order), swapped(258, 77, "r", order));
    }
    assert_ne!(
        request_seed(258, 77, "r", ByteOrder::Little),
        request_seed(258, 77, "r", ByteOrder::Big)
    );
}

#[test]
fn a_request_at_its_limit_needs_no_vocabulary() {
    let mut active = ActiveRequest::new(0, Box::new(request("a", 0, 1, 2)), &OPT).unwrap();
    assert!(active.step(&OPT).finished());
    let empty = Opt { vocab_size: 0, ..OPT };
    let output = active.step(&empty);
    assert!(output.new_token_ids.is_empty());
    assert_eq!(output.finish_reason, Some(EngineCoreFinishReason::Length));
}

#[test]
fn the_vocabulary_may_change_between_steps() {
    let mut active = ActiveRequest::new(0, Box::new(request("a", 0, 1, 4)), &OPT).unwrap();
    let narrow = Opt { vocab_size: 3, ..OPT };
    let mut tokens = active.step(&OPT).new_token_ids;
    tokens.extend(active.step(&narrow).new_token_ids);
    let mut rng = StdRng::seed_from_u64(request_seed(OPT.seed, 0, "a", NATIVE));
    let expected: Vec<u32> = [1000u32, 1000, 3, 3]
        .iter()
        .map(|bound| rng.random_range(0..*bound))
        .collect();
    assert_eq!(tokens, expected);
}

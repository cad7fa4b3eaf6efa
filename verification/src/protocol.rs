//! The engine-core messages that the generation loop consumes and produces, reduced to the
//! fields it reads and fills.
use crate::dataplane::{RemoteKv, RemoteKvView};
use crate::text::texts;
use crate::utility::{msgpack_bytes, UtilityResultEnvelope};
use vstd::prelude::*;

verus! {

/// Why a request ended.
#[derive(Debug, Clone, Copy, PartialEq, Eq, Structural)]
pub enum EngineCoreFinishReason {
    /// The request reached its token limit.
    Length,
    /// The client gave the request up.
    Abort,
    /// The request could not be served.
    Error,
}

/// The sampling parameters that the engine honours.
#[derive(Debug, Clone, Copy)]
pub struct SamplingParams {
    pub max_tokens: u32,
}

/// A request to generate tokens.
#[derive(Debug, Clone)]
pub struct EngineCoreRequest {
    pub request_id: String,
    pub client_index: u32,
    pub prompt_token_ids: Option<Vec<u32>>,
    pub sampling_params: Option<SamplingParams>,
}

/// A call of one of the engine's utility methods.
#[derive(Debug, Clone)]
pub struct EngineCoreUtilityRequest {
    pub client_index: u32,
    pub call_id: u64,
    pub method_name: String,
}

/// One request's share of an engine output.
#[derive(Debug, Clone)]
pub struct EngineCoreOutput {
    pub request_id: String,
    pub new_token_ids: Vec<u32>,
    pub finish_reason: Option<EngineCoreFinishReason>,
    pub kv_transfer_params: Option<RemoteKv>,
}

/// What an [`EngineCoreOutput`] says.
pub struct OutputView {
    pub request_id: Seq<char>,
    pub new_token_ids: Seq<u32>,
    pub finish_reason: Option<EngineCoreFinishReason>,
    pub kv_transfer_params: Option<RemoteKvView>,
}

/// What an optional addressing says.
pub open spec fn params_view(params: Option<RemoteKv>) -> Option<RemoteKvView> {
    match params {
        Some(remote) => Some(remote@),
        None => None,
    }
}

impl View for EngineCoreOutput {
    type V = OutputView;

    open spec fn view(&self) -> OutputView {
        OutputView {
            request_id: self.request_id@,
            new_token_ids: self.new_token_ids@,
            finish_reason: self.finish_reason,
            kv_transfer_params: params_view(self.kv_transfer_params),
        }
    }
}

impl EngineCoreOutput {
    /// Whether this output ends its request.
    pub fn finished(&self) -> (finished: bool)
        ensures
            finished == self@.finish_reason is Some,
    {
        self.finish_reason.is_some()
    }
}

/// The answer to a utility call.
#[derive(Debug)]
pub struct UtilityOutput {
    pub call_id: u64,
    pub failure_message: Option<String>,
    pub result: Option<UtilityResultEnvelope>,
}

/// What a [`UtilityOutput`] says: the call that it answers, why the call failed if it did, and
/// the result in MessagePack.
pub struct UtilityView {
    pub call_id: u64,
    pub failure_message: Option<Seq<char>>,
    pub result: Option<Seq<u8>>,
}

impl View for UtilityOutput {
    type V = UtilityView;

    open spec fn view(&self) -> UtilityView {
        UtilityView {
            call_id: self.call_id,
            failure_message: match self.failure_message {
                Some(text) => Some(text@),
                None => None,
            },
            result: match self.result {
                Some(envelope) => Some(msgpack_bytes(envelope.value)),
                None => None,
            },
        }
    }
}

/// One batch of outputs of one engine for one client.
#[derive(Debug)]
pub struct EngineCoreOutputs {
    pub engine_index: u32,
    pub outputs: Vec<EngineCoreOutput>,
    /// The requests that end with this batch, in ascending order, each once.
    pub finished_requests: Option<Vec<String>>,
    pub utility_output: Option<UtilityOutput>,
}

/// What an [`EngineCoreOutputs`] says.
pub struct OutputsView {
    pub engine_index: u32,
    pub outputs: Seq<OutputView>,
    pub finished_requests: Option<Seq<Seq<char>>>,
    pub utility_output: Option<UtilityView>,
}

/// What a list of outputs says.
pub open spec fn outputs_view(outputs: Seq<EngineCoreOutput>) -> Seq<OutputView> {
    outputs.map_values(|o: EngineCoreOutput| o@)
}

/// What a list of request ids says.
pub open spec fn ids_view(ids: Seq<String>) -> Seq<Seq<char>> {
    texts(ids)
}

impl View for EngineCoreOutputs {
    type V = OutputsView;

    open spec fn view(&self) -> OutputsView {
        OutputsView {
            engine_index: self.engine_index,
            outputs: outputs_view(self.outputs@),
            finished_requests: match self.finished_requests {
                Some(ids) => Some(ids_view(ids@)),
                None => None,
            },
            utility_output: match self.utility_output {
                Some(output) => Some(output@),
                None => None,
            },
        }
    }
}

/// Message that drives the engine.
#[derive(Debug)]
pub enum EngineInput {
    Request(Box<EngineCoreRequest>),
    Abort(Vec<String>),
    Utility(EngineCoreUtilityRequest),
    StartDpWave,
}

/// One engine output batch, addressed to a client.
#[derive(Debug)]
pub struct EngineOutput {
    pub client_index: u32,
    pub outputs: EngineCoreOutputs,
}

/// What an [`EngineOutput`] says.
pub struct EngineOutputView {
    pub client_index: u32,
    pub outputs: OutputsView,
}

impl View for EngineOutput {
    type V = EngineOutputView;

    open spec fn view(&self) -> EngineOutputView {
        EngineOutputView { client_index: self.client_index, outputs: self.outputs@ }
    }
}

/// What a list of engine outputs says.
pub open spec fn batches_view(batches: Seq<EngineOutput>) -> Seq<EngineOutputView> {
    batches.map_values(|b: EngineOutput| b@)
}

/// Messages say what they hold: every output, id and batch, each whole and in order.
pub proof fn messages_say_what_they_hold(
    output: EngineCoreOutput,
    outputs: EngineCoreOutputs,
    batches: Seq<EngineOutput>,
    utility: UtilityOutput,
    remote: RemoteKv,
    i: int,
)
    ensures
        remote@.engine_id == remote.engine_id@,
        remote@.host == remote.host@,
        remote@.port == remote.port,
        remote@.block_ids == remote.block_ids@,
        utility@.call_id == utility.call_id,
        utility@.failure_message is Some <==> utility.failure_message is Some,
        utility.failure_message is Some ==> utility@.failure_message->0
            == utility.failure_message->0@,
        utility@.result is Some <==> utility.result is Some,
        utility.result is Some ==> utility@.result->0 == msgpack_bytes(utility.result->0.value),
        output@.request_id == output.request_id@,
        output@.new_token_ids == output.new_token_ids@,
        output@.finish_reason == output.finish_reason,
        output@.kv_transfer_params is Some <==> output.kv_transfer_params is Some,
        output.kv_transfer_params is Some ==> output@.kv_transfer_params->0
            == output.kv_transfer_params->0@,
        outputs@.engine_index == outputs.engine_index,
        outputs@.outputs.len() == outputs.outputs@.len(),
        0 <= i < outputs.outputs@.len() ==> outputs@.outputs[i] == outputs.outputs@[i]@,
        outputs@.finished_requests is Some <==> outputs.finished_requests is Some,
        outputs.finished_requests matches Some(ids) ==> {
            &&& outputs@.finished_requests->0.len() == ids@.len()
            &&& 0 <= i < ids@.len() ==> outputs@.finished_requests->0[i] == ids@[i]@
        },
        outputs@.utility_output is Some <==> outputs.utility_output is Some,
        outputs.utility_output is Some ==> outputs@.utility_output->0
            == outputs.utility_output->0@,
        batches_view(batches).len() == batches.len(),
        0 <= i < batches.len() ==> batches_view(batches)[i].client_index == batches[i].client_index
            && batches_view(batches)[i].outputs == batches[i].outputs@,
{
}

} // verus!

//! The per-engine generation loop: admission, aborts, utility calls, and one step of every
//! active request at a time, with the prefill/decode data-plane hooks at the two points where
//! KV bytes move.
use crate::active::{
    a_request_is_admitted_as_it_was_sent, a_step_emits_the_next_chunk, admitted, request_output,
    tokens_below, ActiveModel, ActiveRequest, Opt,
};
use crate::batch::{
    batch_by_client, client_batch, is_batched, of_client, tagged_view,
};
use crate::dataplane::{
    blocks_for, same_answers, DataPlaneError, KvDataPlane, NoopDataPlane, PdRole, PlaneCall,
    RemoteKv, RemoteKvView, RequestKv,
};
use crate::protocol::{
    batches_view, ids_view, outputs_view, EngineCoreFinishReason, EngineCoreOutput,
    EngineCoreOutputs, EngineCoreRequest, EngineInput, EngineOutput, EngineOutputView, OutputView,
    OutputsView,
};
use crate::text::same_text;
use crate::utility::{utility_outputs, utility_response, UtilityError};
use vstd::prelude::*;

verus! {

/// What a list of active requests stands for.
pub open spec fn models(active: Seq<ActiveRequest>) -> Seq<ActiveModel> {
    active.map_values(|request: ActiveRequest| request.model())
}

/// Whether requests are as an engine holds them: each id once, and each with tokens left to
/// emit.
pub open spec fn well_formed(active: Seq<ActiveModel>) -> bool {
    &&& forall|i: int, j: int|
        0 <= i < j < active.len() ==> (#[trigger] active[i]).request_id != (
        #[trigger] active[j]).request_id
    &&& forall|i: int|
        0 <= i < active.len() ==> (#[trigger] active[i]).generated < active[i].max_tokens
}

/// Where the request with this id stands, if it is active.
pub open spec fn position(active: Seq<ActiveModel>, request_id: Seq<char>) -> Option<int>
    decreases active.len(),
{
    if active.len() == 0 {
        None
    } else if active.last().request_id == request_id {
        Some(active.len() - 1)
    } else {
        position(active.drop_last(), request_id)
    }
}

/// The requests that the next step finishes, in order.
pub open spec fn finishing(active: Seq<ActiveModel>, chunk_size: nat) -> Seq<ActiveModel>
    decreases active.len(),
{
    if active.len() == 0 {
        Seq::empty()
    } else {
        let before = finishing(active.drop_last(), chunk_size);
        if active.last().finishes(chunk_size) {
            before.push(active.last())
        } else {
            before
        }
    }
}

/// The requests that stay active over the next step, advanced, in order.
pub open spec fn surviving(
    active: Seq<ActiveModel>,
    chunk_size: nat,
    vocab_size: u32,
) -> Seq<ActiveModel>
    decreases active.len(),
{
    if active.len() == 0 {
        Seq::empty()
    } else {
        let before = surviving(active.drop_last(), chunk_size, vocab_size);
        if active.last().finishes(chunk_size) {
            before
        } else {
            before.push(active.last().stepped(chunk_size, vocab_size))
        }
    }
}

/// The addressing that a call gave, if it is an advertise call that succeeded.
pub open spec fn offered(call: PlaneCall) -> Option<RemoteKvView> {
    match call {
        PlaneCall::Advertise { offered: Ok(remote), .. } => Some(remote),
        _ => None,
    }
}

/// Whether `calls` are the advertise calls of a step over `plane`: one for each finishing
/// request, in order, each answered as the plane answers, and none at all on an engine that does
/// not advertise.
pub open spec fn are_adverts<D: KvDataPlane>(
    plane: D,
    calls: Seq<PlaneCall>,
    active: Seq<ActiveModel>,
    chunk_size: nat,
    advertises: bool,
) -> bool {
    if advertises {
        let done = finishing(active, chunk_size);
        &&& calls.len() == done.len()
        &&& forall|i: int|
            0 <= i < calls.len() ==> {
                &&& #[trigger] calls[i] matches PlaneCall::Advertise {
                    request_id,
                    num_tokens,
                    offered,
                }
                &&& request_id == done[i].request_id
                &&& num_tokens == done[i].prompt_len
                &&& plane.answers_advert(request_id, num_tokens, offered)
            }
    } else {
        calls.len() == 0
    }
}

/// What a step emits for the request at `i`: its next tokens, and on an advertising engine
/// the addressing of its KV where it finishes.
pub open spec fn step_output(
    active: Seq<ActiveModel>,
    i: int,
    chunk_size: nat,
    vocab_size: u32,
    advertises: bool,
    calls: Seq<PlaneCall>,
) -> OutputView {
    OutputView {
        kv_transfer_params: if advertises && active[i].finishes(chunk_size) {
            offered(calls[finishing(active.take(i), chunk_size).len() as int])
        } else {
            None
        },
        ..active[i].output(chunk_size, vocab_size)
    }
}

/// What a step emits: one output for each active request, tagged with its client.
pub open spec fn step_outputs(
    active: Seq<ActiveModel>,
    chunk_size: nat,
    vocab_size: u32,
    advertises: bool,
    calls: Seq<PlaneCall>,
) -> Seq<(u32, OutputView)> {
    Seq::new(
        active.len(),
        |i: int|
            (
                active[i].client_index,
                step_output(active, i, chunk_size, vocab_size, advertises, calls),
            ),
    )
}

/// Whether every token of several batches lies below the vocabulary size.
pub open spec fn all_below(batches: Seq<EngineOutputView>, vocab_size: u32) -> bool {
    forall|b: int, o: int|
        0 <= b < batches.len() && 0 <= o < batches[b].outputs.outputs.len() ==> tokens_below(
            #[trigger] batches[b].outputs.outputs[o],
            vocab_size,
        )
}

/// The requests that are left once those with the given ids are gone.
pub open spec fn remaining(active: Seq<ActiveModel>, ids: Seq<Seq<char>>) -> Seq<ActiveModel>
    decreases ids.len(),
{
    if ids.len() == 0 {
        active
    } else {
        let before = remaining(active, ids.drop_last());
        match position(before, ids.last()) {
            Some(at) => before.remove(at),
            None => before,
        }
    }
}

/// What ends a request for its client without a token.
pub open spec fn terminal_output(
    request_id: Seq<char>,
    finish_reason: EngineCoreFinishReason,
) -> OutputView {
    OutputView {
        request_id,
        new_token_ids: Seq::empty(),
        finish_reason: Some(finish_reason),
        kv_transfer_params: None,
    }
}

/// What an abort emits: one output for each of the ids that is active when its turn comes.
pub open spec fn abort_outputs(active: Seq<ActiveModel>, ids: Seq<Seq<char>>) -> Seq<
    (u32, OutputView),
>
    decreases ids.len(),
{
    if ids.len() == 0 {
        Seq::empty()
    } else {
        let emitted = abort_outputs(active, ids.drop_last());
        let before = remaining(active, ids.drop_last());
        match position(before, ids.last()) {
            Some(at) => emitted.push(
                (
                    before[at].client_index,
                    terminal_output(ids.last(), EngineCoreFinishReason::Abort),
                ),
            ),
            None => emitted,
        }
    }
}

/// The release calls of an abort: one for each id, active or not.
pub open spec fn release_calls(ids: Seq<Seq<char>>) -> Seq<PlaneCall> {
    ids.map_values(|id: Seq<char>| PlaneCall::Release { request_id: id })
}

/// The answer to a request that ends at once.
pub open spec fn refusal(
    engine_index: u32,
    client_index: u32,
    request_id: Seq<char>,
    finish_reason: EngineCoreFinishReason,
) -> EngineOutputView {
    EngineOutputView {
        client_index,
        outputs: OutputsView {
            engine_index,
            outputs: seq![terminal_output(request_id, finish_reason)],
            finished_requests: Some(seq![request_id]),
            utility_output: None,
        },
    }
}

/// Produces an empty output with a terminal finish reason for an invalid request.
pub fn empty_finish_outputs(
    engine_index: u32,
    request_id: String,
    finish_reason: EngineCoreFinishReason,
) -> (outputs: EngineCoreOutputs)
    ensures
        outputs@ == refusal(engine_index, 0, request_id@, finish_reason).outputs,
        outputs.engine_index == engine_index,
        outputs@.outputs.len() == 1,
        outputs@.outputs[0].request_id == request_id@,
        outputs@.outputs[0].new_token_ids.len() == 0,
        outputs@.outputs[0].finish_reason == Some(finish_reason),
        outputs@.outputs[0].kv_transfer_params is None,
        outputs@.finished_requests == Some(seq![request_id@]),
        outputs@.utility_output is None,
{
    let mut finished_requests: Vec<String> = Vec::new();
    finished_requests.push(request_id.clone());
    let output = request_output(request_id, Vec::new(), Some(finish_reason));
    assert(output@ == terminal_output(request_id@, finish_reason));
    let mut outputs: Vec<EngineCoreOutput> = Vec::new();
    outputs.push(output);
    assert(outputs_view(outputs@) == seq![output@]);
    assert(ids_view(finished_requests@) == seq![request_id@]);
    EngineCoreOutputs {
        engine_index,
        outputs,
        finished_requests: Some(finished_requests),
        utility_output: None,
    }
}

/// The addressing of remote KV that a request carries for a decode engine to pull. Requests
/// carry none yet, so the pull hook is wired but dormant.
pub fn extract_kv_params(request: &EngineCoreRequest) -> (params: Option<RemoteKv>)
    ensures
        params is None,
{
    None
}

/// One active request's output of a step under way, with what the advertise hook needs.
struct Stepped {
    client_index: u32,
    prompt_len: usize,
    output: EngineCoreOutput,
}

/// Internal state of one engine instance.
pub struct Engine<D> {
    pub engine_index: u32,
    pub opt: Opt,
    pub role: PdRole,
    pub data_plane: D,
    pub active_requests: Vec<ActiveRequest>,
}

impl<D: KvDataPlane> Engine<D> {
    /// The active requests, in order of admission.
    pub open spec fn active(self) -> Seq<ActiveModel> {
        models(self.active_requests@)
    }

    /// Whether the engine is in a state that its operations keep.
    pub open spec fn wf(self) -> bool {
        well_formed(self.active())
    }

    /// Whether two engine states differ in the active requests and in what the data plane was
    /// asked only.
    pub open spec fn same_setup(self, other: Self) -> bool {
        &&& self.engine_index == other.engine_index
        &&& self.opt == other.opt
        &&& self.role == other.role
        &&& self.data_plane.ready() == other.data_plane.ready()
        &&& same_answers(self.data_plane, other.data_plane)
    }

    /// Whether a step can do what it has to: draw tokens for the active requests, and advertise
    /// the KV of those that finish on an engine that does so.
    pub open spec fn can_step(self) -> bool {
        &&& self.active().len() > 0 ==> self.opt.can_draw()
        &&& self.role == PdRole::Prefill && finishing(
            self.active(),
            self.opt.output_token_chunk_size as nat,
        ).len() > 0 ==> self.data_plane.ready()
    }

    /// An engine without requests.
    pub fn new(engine_index: u32, opt: Opt, role: PdRole, data_plane: D) -> (engine: Self)
        ensures
            engine.engine_index == engine_index,
            engine.opt == opt,
            engine.role == role,
            engine.data_plane == data_plane,
            engine.active() == Seq::<ActiveModel>::empty(),
            engine.wf(),
    {
        let engine = Engine {
            engine_index,
            opt,
            role,
            data_plane,
            active_requests: Vec::new(),
        };
        assert(engine.active() == Seq::<ActiveModel>::empty());
        engine
    }

    /// Whether this engine advertises prefilled KV (prefill side of a P/D pair).
    pub fn advertises(&self) -> (advertises: bool)
        ensures
            advertises == (self.role == PdRole::Prefill),
    {
        self.role == PdRole::Prefill
    }

    /// Finds the active request with this id.
    fn find(&self, request_id: &str) -> (found: Option<usize>)
        ensures
            match (found, position(self.active(), request_id@)) {
                (Some(at), Some(expected)) => at == expected && at < self.active_requests@.len(),
                (None, None) => true,
                _ => false,
            },
    {
        let ghost all = self.active();
        let mut end: usize = self.active_requests.len();
        assert(all.take(end as int) == all);
        while end > 0
            invariant
                end <= self.active_requests@.len(),
                all == self.active(),
                position(all, request_id@) == position(all.take(end as int), request_id@),
            decreases end,
        {
            assert(all.take(end as int).last() == self.active_requests@[end - 1].model());
            if same_text(self.active_requests[end - 1].request_id.as_str(), request_id) {
                return Some(end - 1);
            }
            assert(all.take(end as int).drop_last() == all.take(end - 1));
            end = end - 1;
        }
        None
    }

    /// Answers a request that ends at once.
    fn refuse(
        &self,
        client_index: u32,
        request_id: String,
        finish_reason: EngineCoreFinishReason,
    ) -> (outputs: Vec<EngineOutput>)
        ensures
            batches_view(outputs@) == seq![
                refusal(self.engine_index, client_index, request_id@, finish_reason),
            ],
    {
        let mut outputs: Vec<EngineOutput> = Vec::new();
        outputs.push(
            EngineOutput {
                client_index,
                outputs: empty_finish_outputs(self.engine_index, request_id, finish_reason),
            },
        );
        outputs
    }

    /// Whether the data plane went from `before` to `after` when a request with this addressing
    /// came in: a decode engine pulls the addressed KV of a request whose id is free, once,
    /// whatever comes of it; otherwise no call is made.
    pub open spec fn pulls(
        self,
        request: EngineCoreRequest,
        params: Option<RemoteKv>,
        before: Seq<PlaneCall>,
        after: Seq<PlaneCall>,
    ) -> bool {
        if self.role == PdRole::Decode && params is Some && position(
            self.active(),
            request.request_id@,
        ) is None {
            exists|moved: Result<u64, DataPlaneError>|
                self.data_plane.answers_pull(request.request_id@, 0, params->0@, moved) && after
                    == #[trigger] before.push(
                    PlaneCall::Pull {
                        request_id: request.request_id@,
                        num_tokens: 0,
                        remote: params->0@,
                        moved,
                    },
                )
        } else {
            after == before
        }
    }

    /// Takes a new request in, or refuses it. A decode engine first pulls the KV that `params`
    /// address; a pull that fails does not stop the request.
    pub fn accept_request(
        &mut self,
        request: Box<EngineCoreRequest>,
        params: Option<RemoteKv>,
    ) -> (outputs: Vec<EngineOutput>)
        requires
            old(self).wf(),
        ensures
            final(self).wf(),
            final(self).same_setup(*old(self)),
            old(self).pulls(
                *request,
                params,
                old(self).data_plane.calls(),
                final(self).data_plane.calls(),
            ),
            (final(self).active(), batches_view(outputs@)) == old(self).after_request(*request),
    {
        let ghost all = self.active();
        let request_id = request.request_id.clone();
        let client_index = request.client_index;
        proof {
            lemma_position(all, request_id@);
        }
        if self.find(request_id.as_str()).is_some() {
            return self.refuse(client_index, request_id, EngineCoreFinishReason::Error);
        }
        if self.role == PdRole::Decode {
            if let Some(remote) = &params {
                let kv = RequestKv { request_id: request_id.as_str(), num_tokens: 0 };
                let _ = self.data_plane.pull_prefilled(kv, remote);
            }
        }
        match ActiveRequest::new(self.engine_index, request, &self.opt) {
            Ok(state) => {
                let ghost model = state.model();
                self.active_requests.push(state);
                assert(self.active() == all.push(model));
                let outputs: Vec<EngineOutput> = Vec::new();
                assert(batches_view(outputs@) == Seq::<EngineOutputView>::empty());
                outputs
            },
            Err(finish_reason) => self.refuse(client_index, request_id, finish_reason),
        }
    }

    /// The active requests and the outputs after a request came in.
    pub open spec fn after_request(self, request: EngineCoreRequest) -> (
        Seq<ActiveModel>,
        Seq<EngineOutputView>,
    ) {
        let refused = |reason: EngineCoreFinishReason|
            seq![refusal(self.engine_index, request.client_index, request.request_id@, reason)];
        if position(self.active(), request.request_id@) is Some {
            (self.active(), refused(EngineCoreFinishReason::Error))
        } else {
            match admitted(self.engine_index, request, self.opt) {
                Ok(model) => (self.active().push(model), Seq::empty()),
                Err(reason) => (self.active(), refused(reason)),
            }
        }
    }

    /// Gives up the requests with these ids and releases what is staged for them.
    fn handle_abort(&mut self, request_ids: Vec<String>) -> (outputs: Vec<EngineOutput>)
        requires
            old(self).wf(),
        ensures
            final(self).wf(),
            final(self).same_setup(*old(self)),
            final(self).data_plane.calls() == old(self).data_plane.calls() + release_calls(
                ids_view(request_ids@),
            ),
            final(self).active() == remaining(old(self).active(), ids_view(request_ids@)),
            is_batched(
                batches_view(outputs@),
                old(self).engine_index,
                abort_outputs(old(self).active(), ids_view(request_ids@)),
            ),
    {
        let ghost all = self.active();
        let ghost base = self.data_plane.calls();
        let ghost ids = ids_view(request_ids@);
        let mut tagged: Vec<(u32, EngineCoreOutput)> = Vec::new();
        assert(ids.take(0) == Seq::<Seq<char>>::empty());
        assert(base + release_calls(ids.take(0)) == base);
        assert(tagged_view(tagged@) == Seq::<(u32, OutputView)>::empty());
        for request_id in it: request_ids
            invariant
                it.seq() == request_ids@,
                ids == ids_view(request_ids@),
                self.wf(),
                self.same_setup(*old(self)),
                self.data_plane.calls() == base + release_calls(ids.take(it.index())),
                self.active() == remaining(all, ids.take(it.index())),
                tagged_view(tagged@) == abort_outputs(all, ids.take(it.index())),
        {
            let ghost n = it.index();
            let ghost now = ids.take(n + 1);
            let ghost before = self.active();
            let ghost emitted = tagged@;
            proof {
                assert(now.drop_last() == ids.take(n));
                assert(now.last() == request_id@);
                assert(release_calls(now) == release_calls(ids.take(n)).push(
                    PlaneCall::Release { request_id: request_id@ },
                ));
                lemma_position(before, request_id@);
            }
            self.data_plane.release(request_id.as_str());
            assert(self.data_plane.calls() == base + release_calls(now));
            let found = self.find(request_id.as_str());
            match found {
                Some(at) => {
                    let request = self.active_requests.remove(at);
                    assert(self.active() == before.remove(at as int));
                    proof {
                        lemma_remove_well_formed(before, at as int);
                    }
                    assert(request.model() == before[at as int]);
                    let output = request_output(
                        request_id,
                        Vec::new(),
                        Some(EngineCoreFinishReason::Abort),
                    );
                    assert(output@ == terminal_output(
                        request_id@,
                        EngineCoreFinishReason::Abort,
                    ));
                    tagged.push((request.client_index, output));
                    assert(tagged_view(tagged@) == tagged_view(emitted).push(
                        (request.client_index, output@),
                    ));
                },
                None => {},
            }
        }
        assert(ids.take(ids.len() as int) == ids);
        batch_by_client(self.engine_index, tagged)
    }

    /// Whether a frontend message is answered with `outputs` and leaves the engine as `after`.
    pub open spec fn handles(
        self,
        input: EngineInput,
        outputs: Seq<EngineOutputView>,
        after: Self,
    ) -> bool {
        match input {
            EngineInput::Request(request) => {
                &&& after.data_plane.calls() == self.data_plane.calls()
                &&& (after.active(), outputs) == self.after_request(*request)
            },
            EngineInput::Abort(ids) => {
                &&& after.data_plane.calls() == self.data_plane.calls() + release_calls(
                    ids_view(ids@),
                )
                &&& after.active() == remaining(self.active(), ids_view(ids@))
                &&& is_batched(
                    outputs,
                    self.engine_index,
                    abort_outputs(self.active(), ids_view(ids@)),
                )
            },
            EngineInput::Utility(request) => {
                &&& after == self
                &&& outputs == seq![
                    EngineOutputView {
                        client_index: request.client_index,
                        outputs: utility_outputs(self.engine_index, request),
                    },
                ]
            },
            EngineInput::StartDpWave => {
                &&& after == self
                &&& outputs.len() == 0
            },
        }
    }

    /// Whether a step emits `outputs` and leaves the engine as `after`: every active request is
    /// advanced once, those that finish leave, and on an advertising engine their KV is
    /// advertised. Every token lies below the vocabulary size.
    pub open spec fn steps(self, outputs: Seq<EngineOutputView>, after: Self) -> bool {
        let calls = after.data_plane.calls().skip(self.data_plane.calls().len() as int);
        let active = self.active();
        let chunk_size = self.opt.output_token_chunk_size as nat;
        let advertises = self.role == PdRole::Prefill;
        &&& after.active() == surviving(active, chunk_size, self.opt.vocab_size)
        &&& self.data_plane.calls().is_prefix_of(after.data_plane.calls())
        &&& are_adverts(self.data_plane, calls, active, chunk_size, advertises)
        &&& is_batched(
            outputs,
            self.engine_index,
            step_outputs(active, chunk_size, self.opt.vocab_size, advertises, calls),
        )
        &&& all_below(outputs, self.opt.vocab_size)
    }

    /// Drains one frontend message.
    pub fn handle_input(&mut self, input: EngineInput) -> (outputs: Result<
        Vec<EngineOutput>,
        UtilityError,
    >)
        requires
            old(self).wf(),
        ensures
            final(self).wf(),
            final(self).same_setup(*old(self)),
            outputs is Ok,
            old(self).handles(input, batches_view(outputs->Ok_0@), *final(self)),
    {
        match input {
            EngineInput::Request(request) => {
                let params = extract_kv_params(&request);
                Ok(self.accept_request(request, params))
            },
            EngineInput::Abort(request_ids) => Ok(self.handle_abort(request_ids)),
            EngineInput::Utility(request) => {
                let client_index = request.client_index;
                let outputs = utility_response(self.engine_index, request)?;
                let mut batches: Vec<EngineOutput> = Vec::new();
                batches.push(EngineOutput { client_index, outputs });
                assert(batches_view(batches@) == seq![
                    EngineOutputView {
                        client_index,
                        outputs: utility_outputs(self.engine_index, request),
                    },
                ]);
                Ok(batches)
            },
            EngineInput::StartDpWave => Ok(Vec::new()),
        }
    }

    /// Advances active requests once and returns one batched engine output per client.
    pub fn step(&mut self) -> (outputs: Vec<EngineOutput>)
        requires
            old(self).wf(),
            old(self).can_step(),
        ensures
            final(self).wf(),
            final(self).same_setup(*old(self)),
            old(self).steps(batches_view(outputs@), *final(self)),
    {
        let ghost all = self.active();
        let opt = self.opt;
        let ghost chunk = opt.output_token_chunk_size as nat;
        let mut pending: Vec<ActiveRequest> = Vec::new();
        std::mem::swap(&mut pending, &mut self.active_requests);
        let ghost sources = pending@;
        let mut kept: Vec<ActiveRequest> = Vec::new();
        let mut steps: Vec<Stepped> = Vec::new();
        assert(models(kept@) == surviving(all.take(0), chunk, opt.vocab_size));
        for request in it: pending
            invariant
                it.seq() == sources,
                all == models(sources),
                chunk == opt.output_token_chunk_size,
                well_formed(all),
                all.len() > 0 ==> opt.can_draw(),
                models(kept@) == surviving(
                    all.take(it.index()),
                    chunk,
                    opt.vocab_size,
                ),
                steps@.len() == it.index(),
                forall|i: int|
                    0 <= i < steps@.len() ==> {
                        &&& (#[trigger] steps@[i]).client_index == all[i].client_index
                        &&& steps@[i].prompt_len == all[i].prompt_len
                        &&& steps@[i].output@ == all[i].output(chunk, opt.vocab_size)
                        &&& tokens_below(steps@[i].output@, opt.vocab_size)
                    },
        {
            let ghost n = it.index();
            assert(all[n] == request.model());
            assert(all.take(n + 1).drop_last() == all.take(n));
            let mut request = request;
            let output = request.step(&opt);
            let finished = output.finished();
            steps.push(
                Stepped {
                    client_index: request.client_index,
                    prompt_len: request.prompt_len,
                    output,
                },
            );
            if !finished {
                let ghost before = kept@;
                let ghost state = request;
                kept.push(request);
                assert(models(kept@) == models(before).push(
                    state.model(),
                ));
            }
        }
        assert(all.take(all.len() as int) == all);
        self.active_requests = kept;
        proof {
            lemma_surviving_well_formed(all, chunk, opt.vocab_size);
        }
        self.advertise_and_batch(steps, Ghost(all), Ghost(chunk))
    }

    /// Advertises the finishing requests' KV where this engine does so, stamps the addressing
    /// onto their outputs, and batches all outputs by client.
    fn advertise_and_batch(
        &mut self,
        steps: Vec<Stepped>,
        Ghost(all): Ghost<Seq<ActiveModel>>,
        Ghost(chunk): Ghost<nat>,
    ) -> (outputs: Vec<EngineOutput>)
        requires
            old(self).role == PdRole::Prefill && finishing(all, chunk).len() > 0 ==> old(
                self,
            ).data_plane.ready(),
            steps@.len() == all.len(),
            forall|i: int|
                0 <= i < steps@.len() ==> {
                    &&& (#[trigger] steps@[i]).client_index == all[i].client_index
                    &&& steps@[i].prompt_len == all[i].prompt_len
                    &&& steps@[i].output@ == all[i].output(chunk, old(self).opt.vocab_size)
                    &&& tokens_below(steps@[i].output@, old(self).opt.vocab_size)
                },
        ensures
            final(self).same_setup(*old(self)),
            final(self).active_requests == old(self).active_requests,
            old(self).data_plane.calls().is_prefix_of(final(self).data_plane.calls()),
            ({
                let calls = final(self).data_plane.calls().skip(
                    old(self).data_plane.calls().len() as int,
                );
                let advertises = old(self).role == PdRole::Prefill;
                &&& are_adverts(old(self).data_plane, calls, all, chunk, advertises)
                &&& is_batched(
                    batches_view(outputs@),
                    old(self).engine_index,
                    step_outputs(all, chunk, old(self).opt.vocab_size, advertises, calls),
                )
            }),
            all_below(batches_view(outputs@), old(self).opt.vocab_size),
    {
        let ghost base = self.data_plane.calls();
        let advertises = self.advertises();
        let ghost sources = steps@;
        let ghost mut calls: Seq<PlaneCall> = Seq::empty();
        let mut tagged: Vec<(u32, EngineCoreOutput)> = Vec::new();
        assert(all.take(0) == Seq::<ActiveModel>::empty());
        for stepped in it: steps
            invariant
                it.seq() == sources,
                sources.len() == all.len(),
                forall|i: int|
                    0 <= i < sources.len() ==> {
                        &&& (#[trigger] sources[i]).client_index == all[i].client_index
                        &&& sources[i].prompt_len == all[i].prompt_len
                        &&& sources[i].output@ == all[i].output(chunk, self.opt.vocab_size)
                        &&& tokens_below(sources[i].output@, self.opt.vocab_size)
                    },
                advertises && finishing(all, chunk).len() > 0 ==> self.data_plane.ready(),
                self.same_setup(*old(self)),
                self.active_requests == old(self).active_requests,
                advertises == (self.role == PdRole::Prefill),
                self.data_plane.calls() == base + calls,
                are_adverts(
                    old(self).data_plane,
                    calls,
                    all.take(it.index()),
                    chunk,
                    advertises,
                ),
                tagged@.len() == it.index(),
                forall|i: int|
                    0 <= i < tagged@.len() ==> {
                        &&& (#[trigger] tagged@[i]).0 == all[i].client_index
                        &&& tagged@[i].1@ == step_output(
                            all,
                            i,
                            chunk,
                            self.opt.vocab_size,
                            advertises,
                            calls,
                        )
                    },
        {
            let ghost n = it.index();
            let ghost before = calls;
            let ghost done = finishing(all.take(n), chunk);
            assert(all.take(n + 1).drop_last() == all.take(n));
            assert(sources[n] == stepped);
            let mut output = stepped.output;
            if advertises && output.finished() {
                proof {
                    assert(all.take(all.len() as int) == all);
                    lemma_finishing_grows(all, n, all.len() as int, chunk);
                }
                let kv = RequestKv {
                    request_id: output.request_id.as_str(),
                    num_tokens: stepped.prompt_len,
                };
                let reply = self.data_plane.advertise_prefilled(kv);
                proof {
                    let call = self.data_plane.calls().last();
                    calls = before.push(call);
                    assert(self.data_plane.calls() == base + calls);
                    assert(finishing(all.take(n + 1), chunk) == done.push(all[n]));
                }
                if let Ok(remote) = reply {
                    output.kv_transfer_params = Some(remote);
                }
            }
            proof {
                assert forall|i: int| 0 <= i < n implies step_output(
                    all,
                    i,
                    chunk,
                    self.opt.vocab_size,
                    advertises,
                    calls,
                ) == #[trigger] step_output(
                    all,
                    i,
                    chunk,
                    self.opt.vocab_size,
                    advertises,
                    before,
                ) by {
                    if advertises && all[i].finishes(chunk) {
                        lemma_finishing_grows(all, i, n, chunk);
                    }
                }
                assert(output@ == step_output(
                    all,
                    n,
                    chunk,
                    self.opt.vocab_size,
                    advertises,
                    calls,
                ));
            }
            tagged.push((stepped.client_index, output));
        }
        assert(all.take(all.len() as int) == all);
        assert(self.data_plane.calls().skip(base.len() as int) == calls);
        let ghost stepped = step_outputs(all, chunk, self.opt.vocab_size, advertises, calls);
        assert(tagged_view(tagged@) == stepped);
        let outputs = batch_by_client(self.engine_index, tagged);
        proof {
            assert forall|t: int| 0 <= t < stepped.len() implies tokens_below(
                (#[trigger] stepped[t]).1,
                self.opt.vocab_size,
            ) by {
                assert(tokens_below(sources[t].output@, self.opt.vocab_size));
            }
            lemma_batches_below(
                batches_view(outputs@),
                self.engine_index,
                stepped,
                self.opt.vocab_size,
            );
        }
        outputs
    }
}

/// What the engine loop waits for.
#[derive(Debug)]
pub enum LoopEvent {
    /// The engine is to shut down.
    Shutdown,
    /// No further input can come.
    InputClosed,
    /// A frontend message came in.
    Input(EngineInput),
    /// Nothing came in while requests are active.
    Idle,
}

/// Why the engine loop fails.
#[derive(Debug, Clone, Copy, PartialEq, Eq, Structural)]
pub enum LoopError {
    /// The engine input channel closed.
    InputClosed,
    /// A utility call could not be answered.
    Utility(UtilityError),
}

/// What the engine loop does about an event.
#[derive(Debug)]
pub enum LoopAction {
    /// End the loop.
    Stop,
    /// End the loop with an error.
    Fail(LoopError),
    /// Send these outputs and go on.
    Send(Vec<EngineOutput>),
}

impl<D: KvDataPlane> Engine<D> {
    /// Whether there is a request to advance.
    pub fn has_active(&self) -> (has: bool)
        ensures
            has == (self.active().len() > 0),
    {
        self.active_requests.len() > 0
    }

    /// Whether an event makes the loop do `action` and leaves the engine as `after`.
    pub open spec fn turns(self, event: LoopEvent, action: LoopAction, after: Self) -> bool {
        match event {
            LoopEvent::Shutdown => action is Stop && after == self,
            LoopEvent::InputClosed => {
                &&& action == LoopAction::Fail(LoopError::InputClosed)
                &&& after == self
            },
            LoopEvent::Input(input) => {
                &&& action matches LoopAction::Send(outputs)
                &&& self.handles(input, batches_view(outputs@), after)
            },
            LoopEvent::Idle => {
                &&& action matches LoopAction::Send(outputs)
                &&& self.steps(batches_view(outputs@), after)
            },
        }
    }

    /// Decides what the loop does about an event.
    pub fn turn(&mut self, event: LoopEvent) -> (action: LoopAction)
        requires
            old(self).wf(),
            event is Idle ==> old(self).can_step(),
        ensures
            final(self).wf(),
            final(self).same_setup(*old(self)),
            old(self).turns(event, action, *final(self)),
    {
        match event {
            LoopEvent::Shutdown => LoopAction::Stop,
            LoopEvent::InputClosed => LoopAction::Fail(LoopError::InputClosed),
            LoopEvent::Input(input) => match self.handle_input(input) {
                Ok(outputs) => LoopAction::Send(outputs),
                Err(error) => LoopAction::Fail(LoopError::Utility(error)),
            },
            LoopEvent::Idle => LoopAction::Send(self.step()),
        }
    }
}

/// A position is where the id stands, and an id without a position stands nowhere.
pub proof fn lemma_position(active: Seq<ActiveModel>, request_id: Seq<char>)
    ensures
        match position(active, request_id) {
            Some(at) => 0 <= at < active.len() && active[at].request_id == request_id,
            None => forall|i: int|
                0 <= i < active.len() ==> (#[trigger] active[i]).request_id != request_id,
        },
    decreases active.len(),
{
    if active.len() > 0 && active.last().request_id != request_id {
        lemma_position(active.drop_last(), request_id);
        assert forall|i: int|
            0 <= i < active.len() && position(active, request_id) is None implies (
        #[trigger] active[i]).request_id != request_id by {
            if i < active.len() - 1 {
                assert(active.drop_last()[i] == active[i]);
            }
        }
    }
}

proof fn lemma_remove_well_formed(active: Seq<ActiveModel>, at: int)
    requires
        well_formed(active),
        0 <= at < active.len(),
    ensures
        well_formed(active.remove(at)),
{
    let left = active.remove(at);
    assert forall|i: int| 0 <= i < left.len() implies #[trigger] left[i] == active[if i < at {
        i
    } else {
        i + 1
    }] by {}
}

proof fn lemma_surviving_well_formed(
    active: Seq<ActiveModel>,
    chunk_size: nat,
    vocab_size: u32,
)
    requires
        well_formed(active),
    ensures
        well_formed(surviving(active, chunk_size, vocab_size)),
        forall|i: int|
            0 <= i < surviving(active, chunk_size, vocab_size).len() ==> exists|k: int|
                0 <= k < active.len() && (#[trigger] active[k]).request_id == (
                #[trigger] surviving(active, chunk_size, vocab_size)[i]).request_id,
    decreases active.len(),
{
    if active.len() > 0 {
        let front = active.drop_last();
        let last = active.last();
        assert(forall|i: int| 0 <= i < front.len() ==> #[trigger] front[i] == active[i]);
        lemma_surviving_well_formed(front, chunk_size, vocab_size);
        let before = surviving(front, chunk_size, vocab_size);
        let now = surviving(active, chunk_size, vocab_size);
        assert forall|i: int| 0 <= i < now.len() implies exists|k: int|
            0 <= k < active.len() && (#[trigger] active[k]).request_id == (
            #[trigger] now[i]).request_id by {
            if i < before.len() {
                assert(now[i] == before[i]);
                let k = choose|k: int|
                    0 <= k < front.len() && (#[trigger] front[k]).request_id
                        == before[i].request_id;
                assert(active[k].request_id == now[i].request_id);
            } else {
                assert(active[active.len() - 1].request_id == now[i].request_id);
            }
        }
        assert forall|i: int, j: int| 0 <= i < j < now.len() implies (
        #[trigger] now[i]).request_id != (#[trigger] now[j]).request_id by {
            assert(now[i] == before[i]);
            if j < before.len() {
                assert(now[j] == before[j]);
            } else {
                let k = choose|k: int|
                    0 <= k < front.len() && (#[trigger] front[k]).request_id
                        == before[i].request_id;
                assert(active[k].request_id != active[active.len() - 1].request_id);
            }
        }
        assert forall|i: int| 0 <= i < now.len() implies (#[trigger] now[i]).generated
            < now[i].max_tokens by {
            if i < before.len() {
                assert(now[i] == before[i]);
            }
        }
    }
}

/// What is batched for a client is as bounded as the outputs are.
proof fn lemma_client_below(tagged: Seq<(u32, OutputView)>, client: u32, vocab_size: u32)
    requires
        forall|t: int|
            0 <= t < tagged.len() ==> tokens_below((#[trigger] tagged[t]).1, vocab_size),
    ensures
        forall|o: int|
            0 <= o < of_client(tagged, client).len() ==> tokens_below(
                #[trigger] of_client(tagged, client)[o],
                vocab_size,
            ),
    decreases tagged.len(),
{
    if tagged.len() > 0 {
        let front = tagged.drop_last();
        assert(forall|t: int| 0 <= t < front.len() ==> #[trigger] front[t] == tagged[t]);
        lemma_client_below(front, client, vocab_size);
        assert(tokens_below(tagged[tagged.len() - 1].1, vocab_size));
        let before = of_client(front, client);
        assert forall|o: int| 0 <= o < of_client(tagged, client).len() implies tokens_below(
            #[trigger] of_client(tagged, client)[o],
            vocab_size,
        ) by {
            if o < before.len() {
                assert(of_client(tagged, client)[o] == before[o]);
            }
        }
    }
}

proof fn lemma_batches_below(
    batches: Seq<EngineOutputView>,
    engine_index: u32,
    tagged: Seq<(u32, OutputView)>,
    vocab_size: u32,
)
    requires
        is_batched(batches, engine_index, tagged),
        forall|t: int|
            0 <= t < tagged.len() ==> tokens_below((#[trigger] tagged[t]).1, vocab_size),
    ensures
        all_below(batches, vocab_size),
{
    assert forall|b: int, o: int|
        0 <= b < batches.len() && 0 <= o
            < batches[b].outputs.outputs.len() implies tokens_below(
        #[trigger] batches[b].outputs.outputs[o],
        vocab_size,
    ) by {
        assert(batches[b] == client_batch(engine_index, tagged, batches[b].client_index));
        lemma_client_below(tagged, batches[b].client_index, vocab_size);
    }
}

/// A finishing request at `i` has its place among the finishing requests of every longer
/// prefix.
proof fn lemma_finishing_grows(active: Seq<ActiveModel>, i: int, n: int, chunk_size: nat)
    requires
        0 <= i < n <= active.len(),
        active[i].finishes(chunk_size),
    ensures
        finishing(active.take(i), chunk_size).len() < finishing(active.take(n), chunk_size).len(),
    decreases n,
{
    assert(active.take(n).drop_last() == active.take(n - 1));
    if i < n - 1 {
        lemma_finishing_grows(active, i, n - 1, chunk_size);
    }
}

/// A step answers every active request once: it either finishes and leaves, or stays.
pub proof fn a_step_loses_no_request(
    active: Seq<ActiveModel>,
    chunk_size: nat,
    vocab_size: u32,
)
    ensures
        finishing(active, chunk_size).len() + surviving(active, chunk_size, vocab_size).len()
            == active.len(),
    decreases active.len(),
{
    if active.len() > 0 {
        a_step_loses_no_request(active.drop_last(), chunk_size, vocab_size);
    }
}

/// A step advances each active request by itself: one that reaches its limit leaves, and every
/// other one stays active, advanced by its own chunk.
pub proof fn a_step_advances_each_request(
    active: Seq<ActiveModel>,
    chunk_size: nat,
    vocab_size: u32,
    i: int,
)
    requires
        well_formed(active),
        0 <= i < active.len(),
    ensures
        match position(surviving(active, chunk_size, vocab_size), active[i].request_id) {
            Some(at) => {
                &&& !active[i].finishes(chunk_size)
                &&& surviving(active, chunk_size, vocab_size)[at] == active[i].stepped(
                    chunk_size,
                    vocab_size,
                )
            },
            None => active[i].finishes(chunk_size),
        },
    decreases active.len(),
{
    let front = active.drop_last();
    let before = surviving(front, chunk_size, vocab_size);
    let now = surviving(active, chunk_size, vocab_size);
    let id = active[i].request_id;
    assert(forall|k: int| 0 <= k < front.len() ==> #[trigger] front[k] == active[k]);
    lemma_position(before, id);
    if i == active.len() - 1 {
        if active[i].finishes(chunk_size) {
            lemma_surviving_well_formed(front, chunk_size, vocab_size);
            if let Some(at) = position(before, id) {
                let k = choose|k: int|
                    0 <= k < front.len() && (#[trigger] front[k]).request_id
                        == before[at].request_id;
                assert(active[k].request_id == active[i].request_id);
            }
        }
    } else {
        a_step_advances_each_request(front, chunk_size, vocab_size, i);
        assert(active[i].request_id != active[active.len() - 1].request_id);
        if !active.last().finishes(chunk_size) {
            assert(now.drop_last() == before);
            assert(now.last().request_id == active.last().request_id);
        }
    }
}

/// An id that is active stays refused: once a request is admitted, another one with its id is
/// answered with an error and changes nothing. The answer reports the id as finished, while the
/// first request goes on.
pub proof fn an_admitted_id_is_taken<D: KvDataPlane>(
    before: Engine<D>,
    after: Engine<D>,
    first: EngineCoreRequest,
    second: EngineCoreRequest,
)
    requires
        after.same_setup(before),
        position(before.active(), first.request_id@) is None,
        admitted(before.engine_index, first, before.opt) is Ok,
        after.active() == before.after_request(first).0,
        second.request_id@ == first.request_id@,
    ensures
        before.after_request(first).1 == Seq::<EngineOutputView>::empty(),
        after.after_request(second) == (
            after.active(),
            seq![
                refusal(
                    after.engine_index,
                    second.client_index,
                    second.request_id@,
                    EngineCoreFinishReason::Error,
                ),
            ],
        ),
{
    let model = admitted(before.engine_index, first, before.opt)->Ok_0;
    assert(after.active().last() == model);
}

proof fn lemma_remove_is_filter(active: Seq<ActiveModel>, at: int)
    requires
        well_formed(active),
        0 <= at < active.len(),
    ensures
        active.remove(at) == active.filter(
            |m: ActiveModel| m.request_id != active[at].request_id,
        ),
    decreases active.len(),
{
    reveal(Seq::filter);
    let id = active[at].request_id;
    let keep = |m: ActiveModel| m.request_id != id;
    let front = active.drop_last();
    assert(forall|i: int| 0 <= i < front.len() ==> #[trigger] front[i] == active[i]);
    if at == active.len() - 1 {
        assert(active.remove(at) == front);
        lemma_filter_all(front, keep);
    } else {
        lemma_remove_is_filter(front, at);
        assert(active.remove(at) == front.remove(at).push(active.last()));
        assert(keep(active.last()));
        assert(front.filter(keep) == front.remove(at));
    }
}

proof fn lemma_filter_all(active: Seq<ActiveModel>, keep: spec_fn(ActiveModel) -> bool)
    requires
        forall|i: int| 0 <= i < active.len() ==> keep(#[trigger] active[i]),
    ensures
        active.filter(keep) == active,
    decreases active.len(),
{
    reveal(Seq::filter);
    if active.len() > 0 {
        let front = active.drop_last();
        assert(forall|i: int| 0 <= i < front.len() ==> #[trigger] front[i] == active[i]);
        lemma_filter_all(front, keep);
        assert(keep(active[active.len() - 1]));
        assert(front.push(active.last()) == active);
    }
}

proof fn lemma_filter_twice(
    active: Seq<ActiveModel>,
    p: spec_fn(ActiveModel) -> bool,
    q: spec_fn(ActiveModel) -> bool,
    both: spec_fn(ActiveModel) -> bool,
)
    requires
        forall|m: ActiveModel| #[trigger] both(m) == (p(m) && q(m)),
    ensures
        active.filter(p).filter(q) == active.filter(both),
    decreases active.len(),
{
    reveal(Seq::filter);
    if active.len() > 0 {
        lemma_filter_twice(active.drop_last(), p, q, both);
        let last = active.last();
        assert(both(last) == (p(last) && q(last)));
        if p(last) {
            let kept = active.drop_last().filter(p);
            assert(kept.push(last).drop_last() == kept);
        }
    }
}

/// An abort takes out exactly the requests that it names, and leaves every other request as
/// it was and in its place; each request that it takes out is answered once.
pub proof fn an_abort_removes_exactly_its_requests(
    active: Seq<ActiveModel>,
    ids: Seq<Seq<char>>,
)
    requires
        well_formed(active),
    ensures
        well_formed(remaining(active, ids)),
        remaining(active, ids) == active.filter(|m: ActiveModel| !ids.contains(m.request_id)),
        abort_outputs(active, ids).len() + remaining(active, ids).len() == active.len(),
    decreases ids.len(),
{
    let gone = |m: ActiveModel| !ids.contains(m.request_id);
    if ids.len() == 0 {
        lemma_filter_all(active, gone);
    } else {
        let front = ids.drop_last();
        let id = ids.last();
        an_abort_removes_exactly_its_requests(active, front);
        let before = remaining(active, front);
        let first = |m: ActiveModel| !front.contains(m.request_id);
        let second = |m: ActiveModel| m.request_id != id;
        assert forall|m: ActiveModel| #[trigger] gone(m) == (first(m) && second(m)) by {
            if ids.contains(m.request_id) {
                let k = choose|k: int| 0 <= k < ids.len() && ids[k] == m.request_id;
                if k < front.len() {
                    assert(front[k] == m.request_id);
                }
            }
            if front.contains(m.request_id) {
                let k = choose|k: int| 0 <= k < front.len() && front[k] == m.request_id;
                assert(ids[k] == m.request_id);
            }
            if m.request_id == id {
                assert(ids[ids.len() - 1] == m.request_id);
            }
        }
        lemma_filter_twice(active, first, second, gone);
        lemma_position(before, id);
        match position(before, id) {
            Some(at) => {
                lemma_remove_well_formed(before, at);
                lemma_remove_is_filter(before, at);
                assert(before.filter(|m: ActiveModel| m.request_id != before[at].request_id)
                    == before.filter(second));
            },
            None => {
                lemma_filter_all(before, second);
            },
        }
    }
}

/// Aborting a request right after its admission undoes the admission.
pub proof fn an_abort_undoes_an_admission(active: Seq<ActiveModel>, model: ActiveModel)
    requires
        well_formed(active.push(model)),
    ensures
        remaining(active.push(model), seq![model.request_id]) == active,
        abort_outputs(active.push(model), seq![model.request_id]) == seq![
            (
                model.client_index,
                terminal_output(model.request_id, EngineCoreFinishReason::Abort),
            ),
        ],
{
    let all = active.push(model);
    let ids = seq![model.request_id];
    assert(ids.drop_last() == Seq::<Seq<char>>::empty());
    assert(all.last() == model);
    assert(remaining(all, ids.drop_last()) == all);
    assert(all.remove(all.len() - 1) == active);
    assert(abort_outputs(all, ids.drop_last()) == Seq::<(u32, OutputView)>::empty());
}

/// Whether no two of the outputs are for one request.
pub open spec fn distinct_requests(tagged: Seq<(u32, OutputView)>) -> bool {
    forall|i: int, j: int|
        0 <= i < j < tagged.len() ==> (#[trigger] tagged[i]).1.request_id != (
        #[trigger] tagged[j]).1.request_id
}

/// The requests that an abort answers are distinct, and none of them is left.
proof fn lemma_abort_outputs_distinct(active: Seq<ActiveModel>, ids: Seq<Seq<char>>)
    requires
        well_formed(active),
    ensures
        distinct_requests(abort_outputs(active, ids)),
        forall|i: int, k: int|
            0 <= i < abort_outputs(active, ids).len() && 0 <= k < remaining(active, ids).len()
                ==> (#[trigger] abort_outputs(active, ids)[i]).1.request_id != (
            #[trigger] remaining(active, ids)[k]).request_id,
    decreases ids.len(),
{
    if ids.len() > 0 {
        let front = ids.drop_last();
        let id = ids.last();
        lemma_abort_outputs_distinct(active, front);
        an_abort_removes_exactly_its_requests(active, front);
        let before = remaining(active, front);
        let left = remaining(active, ids);
        let emitted = abort_outputs(active, front);
        let now = abort_outputs(active, ids);
        lemma_position(before, id);
        if let Some(at) = position(before, id) {
            assert(left == before.remove(at));
            assert(forall|k: int|
                0 <= k < left.len() ==> #[trigger] left[k] == before[if k < at {
                    k
                } else {
                    k + 1
                }]);
            assert(forall|i: int| 0 <= i < emitted.len() ==> #[trigger] now[i] == emitted[i]);
            assert(now[emitted.len() as int].1.request_id == before[at].request_id);
        }
    }
}

/// No request is answered twice by one abort or one step.
pub proof fn no_request_is_answered_twice(
    active: Seq<ActiveModel>,
    ids: Seq<Seq<char>>,
    chunk_size: nat,
    vocab_size: u32,
    advertises: bool,
    calls: Seq<PlaneCall>,
)
    requires
        well_formed(active),
    ensures
        distinct_requests(abort_outputs(active, ids)),
        distinct_requests(step_outputs(active, chunk_size, vocab_size, advertises, calls)),
{
    lemma_abort_outputs_distinct(active, ids);
    let stepped = step_outputs(active, chunk_size, vocab_size, advertises, calls);
    assert forall|i: int, j: int| 0 <= i < j < stepped.len() implies (
    #[trigger] stepped[i]).1.request_id != (#[trigger] stepped[j]).1.request_id by {
        assert(active[i].request_id != active[j].request_id);
    }
}

/// Every output is in its client's batch.
proof fn lemma_output_is_batched(
    batches: Seq<EngineOutputView>,
    engine_index: u32,
    tagged: Seq<(u32, OutputView)>,
    t: int,
)
    requires
        is_batched(batches, engine_index, tagged),
        0 <= t < tagged.len(),
    ensures
        exists|b: int, o: int|
            0 <= b < batches.len() && 0 <= o < batches[b].outputs.outputs.len()
                && batches[b].client_index == tagged[t].0
                && #[trigger] batches[b].outputs.outputs[o] == tagged[t].1,
{
    let b = choose|b: int|
        0 <= b < batches.len() && (#[trigger] batches[b]).client_index == tagged[t].0;
    assert(batches[b] == client_batch(engine_index, tagged, batches[b].client_index));
    let o = lemma_of_client_holds(tagged, t);
    assert(batches[b].outputs.outputs[o] == tagged[t].1);
}

proof fn lemma_of_client_holds(tagged: Seq<(u32, OutputView)>, t: int) -> (o: int)
    requires
        0 <= t < tagged.len(),
    ensures
        0 <= o < of_client(tagged, tagged[t].0).len(),
        of_client(tagged, tagged[t].0)[o] == tagged[t].1,
    decreases tagged.len(),
{
    if t == tagged.len() - 1 {
        of_client(tagged, tagged[t].0).len() - 1
    } else {
        lemma_of_client_holds(tagged.drop_last(), t)
    }
}

/// A finishing request at `i` is the one at that place among the finishing requests.
proof fn lemma_finishing_place(active: Seq<ActiveModel>, i: int, chunk_size: nat)
    requires
        0 <= i < active.len(),
        active[i].finishes(chunk_size),
    ensures
        finishing(active.take(i), chunk_size).len() < finishing(active, chunk_size).len(),
        finishing(active, chunk_size)[finishing(active.take(i), chunk_size).len() as int]
            == active[i],
    decreases active.len(),
{
    let front = active.drop_last();
    if i == active.len() - 1 {
        assert(active.take(i) == front);
    } else {
        assert(front.take(i) == active.take(i));
        lemma_finishing_place(front, i, chunk_size);
    }
}

/// A prefill engine stamps what its plane answers: where the plane has only one answer to the
/// advertise call of a finishing request, and that is an addressing, the request's last output
/// goes to its client with that addressing.
pub proof fn a_finishing_output_carries_the_planes_answer<D: KvDataPlane>(
    before: Engine<D>,
    outputs: Seq<EngineOutputView>,
    after: Engine<D>,
    i: int,
    remote: RemoteKvView,
)
    requires
        before.steps(outputs, after),
        before.role == PdRole::Prefill,
        0 <= i < before.active().len(),
        before.active()[i].finishes(before.opt.output_token_chunk_size as nat),
        forall|reply: Result<RemoteKvView, DataPlaneError>| #[trigger]
            before.data_plane.answers_advert(
                before.active()[i].request_id,
                before.active()[i].prompt_len,
                reply,
            ) ==> reply == Ok::<RemoteKvView, DataPlaneError>(remote),
    ensures
        exists|b: int, o: int|
            0 <= b < outputs.len() && 0 <= o < outputs[b].outputs.outputs.len()
                && outputs[b].client_index == before.active()[i].client_index
                && #[trigger] outputs[b].outputs.outputs[o] == (OutputView {
                kv_transfer_params: Some(remote),
                ..before.active()[i].output(
                    before.opt.output_token_chunk_size as nat,
                    before.opt.vocab_size,
                )
            }),
{
    let active = before.active();
    let chunk_size = before.opt.output_token_chunk_size as nat;
    let calls = after.data_plane.calls().skip(before.data_plane.calls().len() as int);
    let stepped = step_outputs(active, chunk_size, before.opt.vocab_size, true, calls);
    let place = finishing(active.take(i), chunk_size).len() as int;
    lemma_finishing_place(active, i, chunk_size);
    assert(calls[place] is Advertise);
    assert(offered(calls[place]) == Some(remote));
    assert(stepped[i].1 == step_output(
        active,
        i,
        chunk_size,
        before.opt.vocab_size,
        true,
        calls,
    ));
    lemma_output_is_batched(outputs, before.engine_index, stepped, i);
}

/// A prefill engine over the no-op plane stamps the plane's own addressing, for as many blocks
/// as the prompt takes, on the last output of each request that finishes.
pub proof fn a_noop_prefill_engine_stamps_its_addressing(
    before: Engine<NoopDataPlane>,
    outputs: Seq<EngineOutputView>,
    after: Engine<NoopDataPlane>,
    i: int,
)
    requires
        before.steps(outputs, after),
        before.role == PdRole::Prefill,
        0 <= i < before.active().len(),
        before.active()[i].finishes(before.opt.output_token_chunk_size as nat),
    ensures
        exists|b: int, o: int|
            0 <= b < outputs.len() && 0 <= o < outputs[b].outputs.outputs.len()
                && outputs[b].client_index == before.active()[i].client_index
                && #[trigger] outputs[b].outputs.outputs[o] == (OutputView {
                kv_transfer_params: Some(
                    before.data_plane.cfg.remote_of(
                        blocks_for(
                            before.active()[i].prompt_len,
                            before.data_plane.cfg.tokens_per_block as nat,
                        ),
                    ),
                ),
                ..before.active()[i].output(
                    before.opt.output_token_chunk_size as nat,
                    before.opt.vocab_size,
                )
            }),
{
    a_finishing_output_carries_the_planes_answer(
        before,
        outputs,
        after,
        i,
        before.data_plane.cfg.remote_of(
            blocks_for(
                before.active()[i].prompt_len,
                before.data_plane.cfg.tokens_per_block as nat,
            ),
        ),
    );
}

/// An engine's requests are those that it holds, one for each, in order.
pub proof fn an_engine_holds_its_requests<D: KvDataPlane>(engine: Engine<D>)
    ensures
        engine.active().len() == engine.active_requests@.len(),
        forall|i: int|
            0 <= i < engine.active().len() ==> #[trigger] engine.active()[i]
                == engine.active_requests@[i].model(),
{
}

/// A step parts the active requests by what they have left: those with more than a chunk left stay,
/// each advanced, and the others finish; both keep their order.
pub proof fn a_step_parts_the_requests(
    active: Seq<ActiveModel>,
    chunk_size: nat,
    vocab_size: u32,
)
    requires
        forall|i: int|
            0 <= i < active.len() ==> (#[trigger] active[i]).generated <= active[i].max_tokens,
    ensures
        finishing(active, chunk_size) == active.filter(
            |m: ActiveModel| m.generated + chunk_size >= m.max_tokens,
        ),
        surviving(active, chunk_size, vocab_size) == active.filter(
            |m: ActiveModel| m.generated + chunk_size < m.max_tokens,
        ).map_values(|m: ActiveModel| m.stepped(chunk_size, vocab_size)),
    decreases active.len(),
{
    reveal(Seq::filter);
    let ends = |m: ActiveModel| m.generated + chunk_size >= m.max_tokens;
    let stays = |m: ActiveModel| m.generated + chunk_size < m.max_tokens;
    let next = |m: ActiveModel| m.stepped(chunk_size, vocab_size);
    if active.len() > 0 {
        let front = active.drop_last();
        let last = active.last();
        assert(forall|i: int| 0 <= i < front.len() ==> #[trigger] front[i] == active[i]);
        a_step_parts_the_requests(front, chunk_size, vocab_size);
        assert(active[active.len() - 1].generated <= last.max_tokens);
        a_step_emits_the_next_chunk(last, chunk_size, vocab_size);
        if stays(last) {
            assert(front.filter(stays).push(last).map_values(next) =~= front.filter(
                stays,
            ).map_values(next).push(next(last)));
        }
    }
    assert(surviving(active, chunk_size, vocab_size) =~= active.filter(stays).map_values(next));
    assert(finishing(active, chunk_size) =~= active.filter(ends));
}

/// A step answers every active request once, for its client and with its own next tokens: a whole
/// chunk of them, or all that are left where that is no more. It ends the request for its length
/// exactly then. Requests with more left stay, in order, each advanced by its chunk.
pub proof fn a_step_answers_every_request<D: KvDataPlane>(
    before: Engine<D>,
    outputs: Seq<EngineOutputView>,
    after: Engine<D>,
)
    requires
        before.wf(),
        before.steps(outputs, after),
    ensures
        ({
            let chunk_size = before.opt.output_token_chunk_size as nat;
            let vocab_size = before.opt.vocab_size;
            let active = before.active();
            &&& after.active() == active.filter(
                |m: ActiveModel| m.generated + chunk_size < m.max_tokens,
            ).map_values(|m: ActiveModel| m.stepped(chunk_size, vocab_size))
            &&& exists|tagged: Seq<(u32, OutputView)>|
                {
                    &&& #[trigger] is_batched(outputs, before.engine_index, tagged)
                    &&& tagged.len() == active.len()
                    &&& forall|i: int|
                        0 <= i < active.len() ==> {
                            let (client, output) = #[trigger] tagged[i];
                            let left = active[i].max_tokens - active[i].generated;
                            &&& client == active[i].client_index
                            &&& output.request_id == active[i].request_id
                            &&& output.new_token_ids.len() == if left < chunk_size {
                                left as nat
                            } else {
                                chunk_size
                            }
                            &&& forall|k: int|
                                0 <= k < output.new_token_ids.len()
                                    ==> #[trigger] output.new_token_ids[k] == (active[i].upcoming)(
                                    Seq::new(k as nat, |j: int| vocab_size),
                                    vocab_size,
                                )
                            &&& output.finish_reason == (if left <= chunk_size {
                                Some(EngineCoreFinishReason::Length)
                            } else {
                                None
                            })
                            &&& (left > chunk_size || before.role != PdRole::Prefill)
                                ==> output.kv_transfer_params is None
                        }
                }
        }),
{
    let chunk_size = before.opt.output_token_chunk_size as nat;
    let vocab_size = before.opt.vocab_size;
    let active = before.active();
    let advertises = before.role == PdRole::Prefill;
    let calls = after.data_plane.calls().skip(before.data_plane.calls().len() as int);
    let tagged = step_outputs(active, chunk_size, vocab_size, advertises, calls);
    a_step_parts_the_requests(active, chunk_size, vocab_size);
    assert(is_batched(outputs, before.engine_index, tagged));
    assert forall|i: int| 0 <= i < active.len() implies {
        let (client, output) = #[trigger] tagged[i];
        let left = active[i].max_tokens - active[i].generated;
        &&& client == active[i].client_index
        &&& output.request_id == active[i].request_id
        &&& output.new_token_ids.len() == if left < chunk_size {
            left as nat
        } else {
            chunk_size
        }
        &&& forall|k: int|
            0 <= k < output.new_token_ids.len() ==> #[trigger] output.new_token_ids[k] == (
            active[i].upcoming)(Seq::new(k as nat, |j: int| vocab_size), vocab_size)
        &&& output.finish_reason == (if left <= chunk_size {
            Some(EngineCoreFinishReason::Length)
        } else {
            None
        })
        &&& (left > chunk_size || before.role != PdRole::Prefill)
            ==> output.kv_transfer_params is None
    } by {
        assert(active[i].generated < active[i].max_tokens);
        a_step_emits_the_next_chunk(active[i], chunk_size, vocab_size);
        assert(tagged[i].1.new_token_ids == active[i].output(
            chunk_size,
            vocab_size,
        ).new_token_ids);
    }
}

/// Only a prefill engine advertises in a step, and it advertises the whole prompt of each request
/// that finishes, once and in order, and nothing else. The last output of such a request carries
/// the addressing that its own call gave, or none where the call failed.
pub proof fn a_step_advertises_what_finishes<D: KvDataPlane>(
    before: Engine<D>,
    outputs: Seq<EngineOutputView>,
    after: Engine<D>,
)
    requires
        before.wf(),
        before.steps(outputs, after),
    ensures
        ({
            let chunk_size = before.opt.output_token_chunk_size as nat;
            let done = before.active().filter(
                |m: ActiveModel| m.generated + chunk_size >= m.max_tokens,
            );
            let asked = before.data_plane.calls();
            let calls = after.data_plane.calls();
            &&& before.role != PdRole::Prefill ==> calls == asked
            &&& before.role == PdRole::Prefill ==> {
                &&& calls.len() == asked.len() + done.len()
                &&& calls.take(asked.len() as int) == asked
                &&& forall|k: int|
                    0 <= k < done.len() ==> {
                        &&& #[trigger] calls[asked.len() + k] matches PlaneCall::Advertise {
                            request_id,
                            num_tokens,
                            offered,
                        }
                        &&& request_id == done[k].request_id
                        &&& num_tokens == done[k].prompt_len
                        &&& before.data_plane.answers_advert(request_id, num_tokens, offered)
                        &&& exists|b: int, o: int|
                            0 <= b < outputs.len() && 0 <= o < outputs[b].outputs.outputs.len()
                                && outputs[b].client_index == done[k].client_index && (
                            #[trigger] outputs[b].outputs.outputs[o]).request_id
                                == done[k].request_id
                                && outputs[b].outputs.outputs[o].kv_transfer_params == (
                            match offered {
                                Ok(remote) => Some(remote),
                                Err(_) => None,
                            })
                    }
            }
        }),
{
    let chunk_size = before.opt.output_token_chunk_size as nat;
    let active = before.active();
    let done = active.filter(|m: ActiveModel| m.generated + chunk_size >= m.max_tokens);
    let asked = before.data_plane.calls();
    let calls = after.data_plane.calls();
    let adverts = calls.skip(asked.len() as int);
    a_step_parts_the_requests(active, chunk_size, before.opt.vocab_size);
    assert(finishing(active, chunk_size) == done);
    if before.role != PdRole::Prefill {
        assert(calls =~= asked);
    } else {
        assert(calls.take(asked.len() as int) =~= asked);
        let tagged = step_outputs(active, chunk_size, before.opt.vocab_size, true, adverts);
        assert forall|k: int| 0 <= k < done.len() implies {
            &&& #[trigger] calls[asked.len() + k] matches PlaneCall::Advertise {
                request_id,
                num_tokens,
                offered,
            }
            &&& request_id == done[k].request_id
            &&& num_tokens == done[k].prompt_len
            &&& before.data_plane.answers_advert(request_id, num_tokens, offered)
            &&& exists|b: int, o: int|
                0 <= b < outputs.len() && 0 <= o < outputs[b].outputs.outputs.len()
                    && outputs[b].client_index == done[k].client_index && (
                #[trigger] outputs[b].outputs.outputs[o]).request_id == done[k].request_id
                    && outputs[b].outputs.outputs[o].kv_transfer_params == (match offered {
                    Ok(remote) => Some(remote),
                    Err(_) => None,
                })
        } by {
            assert(calls[asked.len() + k] == adverts[k]);
            let i = lemma_finishing_source(active, k, chunk_size);
            assert(tagged[i].1 == step_output(
                active,
                i,
                chunk_size,
                before.opt.vocab_size,
                true,
                adverts,
            ));
            lemma_output_is_batched(outputs, before.engine_index, tagged, i);
        }
    }
}

/// Each finishing request stands among the active ones, with as many finishing ones before it.
proof fn lemma_finishing_source(active: Seq<ActiveModel>, k: int, chunk_size: nat) -> (i: int)
    requires
        0 <= k < finishing(active, chunk_size).len(),
    ensures
        0 <= i < active.len(),
        active[i] == finishing(active, chunk_size)[k],
        active[i].finishes(chunk_size),
        finishing(active.take(i), chunk_size).len() == k,
    decreases active.len(),
{
    let front = active.drop_last();
    if k < finishing(front, chunk_size).len() {
        let i = lemma_finishing_source(front, k, chunk_size);
        assert(front.take(i) == active.take(i));
        i
    } else {
        assert(active.take(active.len() - 1) == front);
        active.len() - 1
    }
}

/// A request that comes in is refused or taken, and nothing else changes. Where its id is active
/// it is answered with an error. Otherwise one without sampling parameters is answered with an
/// error too, one that asks for no token is answered as ended for its length, and any other one
/// joins behind the active requests as it was sent and is not answered yet. An answer goes to the
/// client that asked, and is one output for the id, without tokens.
pub proof fn a_request_is_taken_or_refused<D: KvDataPlane>(
    before: Engine<D>,
    request: EngineCoreRequest,
    outputs: Seq<EngineOutputView>,
    after: Engine<D>,
    input: EngineInput,
)
    requires
        input matches EngineInput::Request(boxed) && *boxed == request,
        before.handles(input, outputs, after),
    ensures
        ({
            let active = before.active();
            let taken = exists|i: int|
                0 <= i < active.len() && (#[trigger] active[i]).request_id == request.request_id@;
            let params = request.sampling_params;
            let refused = taken || params is None || params->0.max_tokens == 0;
            &&& after.data_plane.calls() == before.data_plane.calls()
            &&& refused ==> {
                &&& after.active() == active
                &&& outputs.len() == 1
                &&& outputs[0].client_index == request.client_index
                &&& outputs[0].outputs.engine_index == before.engine_index
                &&& outputs[0].outputs.utility_output is None
                &&& outputs[0].outputs.finished_requests == Some(seq![request.request_id@])
                &&& outputs[0].outputs.outputs.len() == 1
                &&& outputs[0].outputs.outputs[0].request_id == request.request_id@
                &&& outputs[0].outputs.outputs[0].new_token_ids.len() == 0
                &&& outputs[0].outputs.outputs[0].kv_transfer_params is None
                &&& outputs[0].outputs.outputs[0].finish_reason == Some(
                    if taken || params is None {
                        EngineCoreFinishReason::Error
                    } else {
                        EngineCoreFinishReason::Length
                    },
                )
            }
            &&& !refused ==> {
                &&& outputs.len() == 0
                &&& after.active().len() == active.len() + 1
                &&& after.active().drop_last() == active
                &&& after.active().last().request_id == request.request_id@
                &&& after.active().last().client_index == request.client_index
                &&& after.active().last().max_tokens == params->0.max_tokens
                &&& after.active().last().generated == 0
                &&& after.active().last().prompt_len == (if request.prompt_token_ids is Some {
                    request.prompt_token_ids->0@.len()
                } else {
                    0
                })
            }
        }),
{
    let active = before.active();
    lemma_position(active, request.request_id@);
    a_request_is_admitted_as_it_was_sent(before.engine_index, request, before.opt);
    if position(active, request.request_id@) is Some {
        let at = position(active, request.request_id@)->0;
        assert(active[at].request_id == request.request_id@);
    } else if let Ok(model) = admitted(before.engine_index, request, before.opt) {
        assert(active.push(model).drop_last() =~= active);
    }
}

/// An abort takes out exactly the active requests that it names, and leaves every other one as it
/// was and in its place. Each one that it takes out is answered once, as given up and without
/// tokens, for its own client, and no other id is answered. What is staged is released for each
/// id that is named, active or not, in order.
pub proof fn an_abort_answers_what_it_takes_out<D: KvDataPlane>(
    before: Engine<D>,
    ids: Vec<String>,
    outputs: Seq<EngineOutputView>,
    after: Engine<D>,
)
    requires
        before.wf(),
        before.handles(EngineInput::Abort(ids), outputs, after),
    ensures
        ({
            let active = before.active();
            let named = |id: Seq<char>|
                exists|n: int| 0 <= n < ids@.len() && #[trigger] ids@[n]@ == id;
            let asked = before.data_plane.calls();
            let calls = after.data_plane.calls();
            &&& after.active() == active.filter(|m: ActiveModel| !named(m.request_id))
            &&& calls.len() == asked.len() + ids@.len()
            &&& calls.take(asked.len() as int) == asked
            &&& forall|n: int|
                0 <= n < ids@.len() ==> #[trigger] calls[asked.len() + n] == (PlaneCall::Release {
                    request_id: ids@[n]@,
                })
            &&& exists|tagged: Seq<(u32, OutputView)>|
                {
                    &&& #[trigger] is_batched(outputs, before.engine_index, tagged)
                    &&& forall|i: int, j: int|
                        0 <= i < j < tagged.len() ==> (#[trigger] tagged[i]).1.request_id != (
                        #[trigger] tagged[j]).1.request_id
                    &&& forall|t: int|
                        0 <= t < tagged.len() ==> {
                            let (client, output) = #[trigger] tagged[t];
                            &&& output.new_token_ids.len() == 0
                            &&& output.finish_reason == Some(EngineCoreFinishReason::Abort)
                            &&& output.kv_transfer_params is None
                            &&& named(output.request_id)
                            &&& exists|i: int|
                                0 <= i < active.len() && (#[trigger] active[i]).request_id
                                    == output.request_id && active[i].client_index == client
                        }
                    &&& forall|i: int|
                        0 <= i < active.len() && named((#[trigger] active[i]).request_id)
                            ==> exists|t: int|
                            0 <= t < tagged.len() && (#[trigger] tagged[t]).1.request_id
                                == active[i].request_id
                }
        }),
{
    let active = before.active();
    let all = ids_view(ids@);
    let named = |id: Seq<char>| exists|n: int| 0 <= n < ids@.len() && #[trigger] ids@[n]@ == id;
    let asked = before.data_plane.calls();
    let calls = after.data_plane.calls();
    assert forall|id: Seq<char>| #[trigger] all.contains(id) == named(id) by {
        if all.contains(id) {
            let n = choose|n: int| 0 <= n < all.len() && all[n] == id;
            assert(ids@[n]@ == id);
        }
        if named(id) {
            let n = choose|n: int| 0 <= n < ids@.len() && #[trigger] ids@[n]@ == id;
            assert(all[n] == id);
        }
    }
    an_abort_removes_exactly_its_requests(active, all);
    let gone = |m: ActiveModel| !all.contains(m.request_id);
    let unnamed = |m: ActiveModel| !named(m.request_id);
    assert(gone =~= unnamed);
    assert(calls.take(asked.len() as int) =~= asked);
    let tagged = abort_outputs(active, all);
    lemma_abort_outputs_distinct(active, all);
    assert(is_batched(outputs, before.engine_index, tagged));
    assert forall|t: int| 0 <= t < tagged.len() implies {
        let (client, output) = #[trigger] tagged[t];
        &&& output.new_token_ids.len() == 0
        &&& output.finish_reason == Some(EngineCoreFinishReason::Abort)
        &&& output.kv_transfer_params is None
        &&& named(output.request_id)
        &&& exists|i: int|
            0 <= i < active.len() && (#[trigger] active[i]).request_id == output.request_id
                && active[i].client_index == client
    } by {
        let i = lemma_abort_output_said(active, all, t);
        assert(all.contains(tagged[t].1.request_id));
        assert(active[i].request_id == tagged[t].1.request_id);
    }
    assert forall|i: int|
        0 <= i < active.len() && named((#[trigger] active[i]).request_id) implies exists|t: int|
        0 <= t < tagged.len() && (#[trigger] tagged[t]).1.request_id == active[i].request_id by {
        assert(all.contains(active[i].request_id));
        let t = lemma_abort_output_owed(active, all, i);
        assert(tagged[t].1.request_id == active[i].request_id);
    }
}

proof fn lemma_contains_last(ids: Seq<Seq<char>>, id: Seq<char>)
    requires
        ids.len() > 0,
    ensures
        ids.contains(id) == (ids.drop_last().contains(id) || id == ids.last()),
{
    let front = ids.drop_last();
    if ids.contains(id) {
        let n = choose|n: int| 0 <= n < ids.len() && ids[n] == id;
        if n < front.len() {
            assert(front[n] == id);
        }
    }
    if front.contains(id) {
        let n = choose|n: int| 0 <= n < front.len() && front[n] == id;
        assert(ids[n] == id);
    }
    assert(ids[ids.len() - 1] == ids.last());
}

/// What is left of the active requests is among them.
proof fn lemma_remaining_source(active: Seq<ActiveModel>, ids: Seq<Seq<char>>, k: int) -> (i: int)
    requires
        well_formed(active),
        0 <= k < remaining(active, ids).len(),
    ensures
        0 <= i < active.len(),
        active[i] == remaining(active, ids)[k],
{
    an_abort_removes_exactly_its_requests(active, ids);
    let keep = |m: ActiveModel| !ids.contains(m.request_id);
    let left = remaining(active, ids);
    assert(left == active.filter(keep));
    assert(left.contains(left[k]));
    active.lemma_filter_contains_rev(keep, left[k]);
    choose|i: int| 0 <= i < active.len() && active[i] == left[k]
}

/// An active request that no id names is left.
proof fn lemma_remaining_keeps(active: Seq<ActiveModel>, ids: Seq<Seq<char>>, i: int) -> (k: int)
    requires
        well_formed(active),
        0 <= i < active.len(),
        !ids.contains(active[i].request_id),
    ensures
        0 <= k < remaining(active, ids).len(),
        remaining(active, ids)[k] == active[i],
{
    an_abort_removes_exactly_its_requests(active, ids);
    let keep = |m: ActiveModel| !ids.contains(m.request_id);
    let left = remaining(active, ids);
    assert(left == active.filter(keep));
    assert(keep(active[i]));
    active.lemma_filter_contains(keep, i);
    choose|k: int| 0 <= k < left.len() && left[k] == active[i]
}

/// What an abort answers is a named request that was active, given up.
proof fn lemma_abort_output_said(active: Seq<ActiveModel>, ids: Seq<Seq<char>>, t: int) -> (i: int)
    requires
        well_formed(active),
        0 <= t < abort_outputs(active, ids).len(),
    ensures
        0 <= i < active.len(),
        ids.contains(active[i].request_id),
        abort_outputs(active, ids)[t].0 == active[i].client_index,
        abort_outputs(active, ids)[t].1.request_id == active[i].request_id,
        abort_outputs(active, ids)[t].1.new_token_ids.len() == 0,
        abort_outputs(active, ids)[t].1.finish_reason == Some(EngineCoreFinishReason::Abort),
        abort_outputs(active, ids)[t].1.kv_transfer_params is None,
    decreases ids.len(),
{
    let front = ids.drop_last();
    let id = ids.last();
    let left = remaining(active, front);
    let emitted = abort_outputs(active, front);
    if t < emitted.len() {
        let i = lemma_abort_output_said(active, front, t);
        lemma_contains_last(ids, active[i].request_id);
        i
    } else {
        lemma_position(left, id);
        lemma_contains_last(ids, id);
        lemma_remaining_source(active, front, position(left, id)->0)
    }
}

/// An active request that is named is answered.
proof fn lemma_abort_output_owed(active: Seq<ActiveModel>, ids: Seq<Seq<char>>, i: int) -> (t: int)
    requires
        well_formed(active),
        0 <= i < active.len(),
        ids.contains(active[i].request_id),
    ensures
        0 <= t < abort_outputs(active, ids).len(),
        abort_outputs(active, ids)[t].1.request_id == active[i].request_id,
    decreases ids.len(),
{
    let front = ids.drop_last();
    let id = ids.last();
    let left = remaining(active, front);
    lemma_contains_last(ids, active[i].request_id);
    if front.contains(active[i].request_id) {
        lemma_abort_output_owed(active, front, i)
    } else {
        let k = lemma_remaining_keeps(active, front, i);
        lemma_position(left, id);
        assert(left[k].request_id == id);
        abort_outputs(active, front).len() as int
    }
}

/// The loop stops when it is told to, fails when no input can come any more, and otherwise goes on:
/// it sends what a message is answered, or what a step of the active requests emits.
pub proof fn the_loop_does_what_the_event_asks<D: KvDataPlane>(
    before: Engine<D>,
    event: LoopEvent,
    action: LoopAction,
    after: Engine<D>,
)
    requires
        before.turns(event, action, after),
    ensures
        event is Shutdown <==> action is Stop,
        event is InputClosed <==> action is Fail,
        event is InputClosed ==> action->Fail_0 == LoopError::InputClosed,
        event is Shutdown || event is InputClosed ==> after == before,
        event matches LoopEvent::Input(input) ==> (action matches LoopAction::Send(outputs)
            && before.handles(input, batches_view(outputs@), after)),
        event is Idle ==> (action matches LoopAction::Send(outputs) && before.steps(
            batches_view(outputs@),
            after,
        )),
{
}

/// A utility call is answered once, to the client that made it, under its call id, with a result
/// and without a failure; the engine stays as it is. The start of a wave changes nothing and is
/// not answered.
pub proof fn a_utility_call_is_answered<D: KvDataPlane>(
    before: Engine<D>,
    input: EngineInput,
    outputs: Seq<EngineOutputView>,
    after: Engine<D>,
)
    requires
        before.handles(input, outputs, after),
    ensures
        input is StartDpWave ==> after == before && outputs.len() == 0,
        input matches EngineInput::Utility(request) ==> {
            &&& after == before
            &&& outputs.len() == 1
            &&& outputs[0].client_index == request.client_index
            &&& outputs[0].outputs.engine_index == before.engine_index
            &&& outputs[0].outputs.outputs.len() == 0
            &&& outputs[0].outputs.finished_requests is None
            &&& outputs[0].outputs.utility_output is Some
            &&& outputs[0].outputs.utility_output->0.call_id == request.call_id
            &&& outputs[0].outputs.utility_output->0.failure_message is None
            &&& outputs[0].outputs.utility_output->0.result is Some
        },
{
}

/// A decode engine pulls the addressed KV of a request once, before anything else is asked of its
/// plane, as long as the request's id is free; no other request makes it ask anything.
pub proof fn a_decode_engine_pulls_once<D: KvDataPlane>(
    engine: Engine<D>,
    request: EngineCoreRequest,
    params: Option<RemoteKv>,
    before: Seq<PlaneCall>,
    after: Seq<PlaneCall>,
)
    requires
        engine.pulls(request, params, before, after),
    ensures
        ({
            let free = forall|i: int|
                0 <= i < engine.active().len() ==> (#[trigger] engine.active()[i]).request_id
                    != request.request_id@;
            &&& !(engine.role == PdRole::Decode && params is Some && free) ==> after == before
            &&& engine.role == PdRole::Decode && params is Some && free ==> {
                &&& after.len() == before.len() + 1
                &&& after.drop_last() == before
                &&& after.last() is Pull
                &&& after.last()->Pull_request_id == request.request_id@
                &&& after.last()->Pull_num_tokens == 0
                &&& after.last()->remote == params->0@
                &&& engine.data_plane.answers_pull(
                    request.request_id@,
                    0,
                    params->0@,
                    after.last()->moved,
                )
            }
        }),
{
    lemma_position(engine.active(), request.request_id@);
    if engine.role == PdRole::Decode && params is Some && position(
        engine.active(),
        request.request_id@,
    ) is None {
        let moved = choose|moved: Result<u64, DataPlaneError>|
            engine.data_plane.answers_pull(request.request_id@, 0, params->0@, moved) && after
                == #[trigger] before.push(
                PlaneCall::Pull {
                    request_id: request.request_id@,
                    num_tokens: 0,
                    remote: params->0@,
                    moved,
                },
            );
        assert(before.push(
            PlaneCall::Pull {
                request_id: request.request_id@,
                num_tokens: 0,
                remote: params->0@,
                moved,
            },
        ).drop_last() =~= before);
    } else if position(engine.active(), request.request_id@) is Some {
        let at = position(engine.active(), request.request_id@)->0;
        assert(engine.active()[at].request_id == request.request_id@);
    }
}

/// The operations of an engine leave its number, its options and its role alone, and change neither
/// whether its plane is ready nor what the plane may answer.
pub proof fn an_engine_keeps_its_setup<D: KvDataPlane>(before: Engine<D>, after: Engine<D>)
    requires
        after.same_setup(before),
    ensures
        after.engine_index == before.engine_index,
        after.opt.seed == before.opt.seed,
        after.opt.vocab_size == before.opt.vocab_size,
        after.opt.output_token_chunk_size == before.opt.output_token_chunk_size,
        after.opt.byte_order == before.opt.byte_order,
        after.role == before.role,
        after.data_plane.ready() == before.data_plane.ready(),
        forall|id: Seq<char>, tokens: nat, reply: Result<RemoteKvView, DataPlaneError>| #[trigger]
            after.data_plane.answers_advert(id, tokens, reply) == before.data_plane.answers_advert(
                id,
                tokens,
                reply,
            ),
{
}

/// An engine steps a request for as many steps as its tokens take, and no longer: while the chunks
/// so far do not make up what it may still emit, it is active with all of them generated, and once
/// they do it is gone.
pub proof fn a_request_is_stepped_until_it_has_its_tokens<D: KvDataPlane>(
    engines: Seq<Engine<D>>,
    outputs: Seq<Seq<EngineOutputView>>,
    i: int,
    n: nat,
)
    requires
        n < engines.len(),
        n <= outputs.len(),
        engines[0].wf(),
        engines[0].opt.output_token_chunk_size > 0,
        0 <= i < engines[0].active().len(),
        forall|k: int|
            0 <= k < n ==> {
                &&& engines[k].steps(#[trigger] outputs[k], engines[k + 1])
                &&& engines[k + 1].same_setup(engines[k])
                &&& engines[k + 1].wf()
            },
    ensures
        ({
            let model = engines[0].active()[i];
            let chunk_size = engines[0].opt.output_token_chunk_size as nat;
            let now = engines[n as int].active();
            &&& n * chunk_size < model.max_tokens - model.generated ==> exists|at: int|
                {
                    &&& 0 <= at < now.len()
                    &&& (#[trigger] now[at]).request_id == model.request_id
                    &&& now[at].client_index == model.client_index
                    &&& now[at].max_tokens == model.max_tokens
                    &&& now[at].generated == model.generated + n * chunk_size
                }
            &&& n * chunk_size >= model.max_tokens - model.generated ==> forall|at: int|
                0 <= at < now.len() ==> (#[trigger] now[at]).request_id != model.request_id
        }),
    decreases n,
{
    let model = engines[0].active()[i];
    let chunk_size = engines[0].opt.output_token_chunk_size as nat;
    let vocab_size = engines[0].opt.vocab_size;
    let limit = model.max_tokens - model.generated;
    lemma_setup_stays(engines, outputs, n);
    if n == 0 {
        assert(0 * chunk_size == 0);
        assert(engines[0].active()[i] == model);
    } else {
        let prev = (n - 1) as nat;
        a_request_is_stepped_until_it_has_its_tokens(engines, outputs, i, prev);
        lemma_setup_stays(engines, outputs, prev);
        let before = engines[prev as int].active();
        let now = engines[n as int].active();
        assert(n * chunk_size == prev * chunk_size + chunk_size) by (nonlinear_arith)
            requires
                prev == n - 1,
        ;
        assert(engines[prev as int].steps(outputs[prev as int], engines[n as int]));
        assert(now == surviving(before, chunk_size, vocab_size));
        if prev * chunk_size < limit {
            let at = choose|at: int|
                {
                    &&& 0 <= at < before.len()
                    &&& (#[trigger] before[at]).request_id == model.request_id
                    &&& before[at].client_index == model.client_index
                    &&& before[at].max_tokens == model.max_tokens
                    &&& before[at].generated == model.generated + prev * chunk_size
                };
            a_step_advances_each_request(before, chunk_size, vocab_size, at);
            a_step_emits_the_next_chunk(before[at], chunk_size, vocab_size);
            lemma_position(now, model.request_id);
            if let Some(place) = position(now, model.request_id) {
                assert(now[place] == before[at].stepped(chunk_size, vocab_size));
            }
        } else {
            lemma_surviving_well_formed(before, chunk_size, vocab_size);
            assert forall|at: int| 0 <= at < now.len() implies (#[trigger] now[at]).request_id
                != model.request_id by {
                let k = choose|k: int|
                    0 <= k < before.len() && (#[trigger] before[k]).request_id
                        == now[at].request_id;
                assert(before[k].request_id != model.request_id);
            }
        }
    }
}

/// Steps leave an engine's options as they were and its state well-formed.
proof fn lemma_setup_stays<D: KvDataPlane>(
    engines: Seq<Engine<D>>,
    outputs: Seq<Seq<EngineOutputView>>,
    n: nat,
)
    requires
        n < engines.len(),
        n <= outputs.len(),
        engines[0].wf(),
        forall|k: int|
            0 <= k < n ==> {
                &&& engines[k].steps(#[trigger] outputs[k], engines[k + 1])
                &&& engines[k + 1].same_setup(engines[k])
                &&& engines[k + 1].wf()
            },
    ensures
        engines[n as int].opt == engines[0].opt,
        engines[n as int].wf(),
    decreases n,
{
    if n > 0 {
        lemma_setup_stays(engines, outputs, (n - 1) as nat);
        assert(engines[n - 1].steps(outputs[n - 1], engines[n - 1 + 1]));
    }
}

} // verus!

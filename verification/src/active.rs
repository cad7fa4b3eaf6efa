//! One request under generation: admission, and one step at a time to its token limit.
use crate::protocol::{
    EngineCoreFinishReason, EngineCoreOutput, EngineCoreRequest, OutputView, SamplingParams,
};
use crate::token_source::{draw_token, seeded_rng, seeded_token, upcoming_token};
use rand::rngs::StdRng;
use std::collections::hash_map::DefaultHasher;
use std::hash::Hasher;
use vstd::bytes::{
    lemma_auto_spec_u32_to_from_le_bytes, lemma_auto_spec_u64_to_from_le_bytes,
    spec_u32_from_le_bytes, spec_u32_to_le_bytes, spec_u64_from_le_bytes, spec_u64_to_le_bytes,
    u32_to_le_bytes, u64_to_le_bytes,
};
use vstd::prelude::*;
use vstd::std_specs::hash::DefaultHasherAdditionalSpecFns;
use vstd::utf8::{encode_utf8, encode_utf8_decode_utf8};

verus! {

/// The order in which a machine holds the bytes of a number.
#[derive(Debug, Clone, Copy, PartialEq, Eq, Structural)]
pub enum ByteOrder {
    /// The lowest byte first.
    Little,
    /// The highest byte first.
    Big,
}

/// The options of an engine that shape what it generates.
#[derive(Debug, Clone, Copy)]
pub struct Opt {
    /// Base of every request's seed.
    pub seed: u64,
    /// Tokens are drawn below this bound.
    pub vocab_size: u32,
    /// How many tokens one step adds to a request, at most.
    pub output_token_chunk_size: usize,
    /// The byte order of the machine that the engine runs on, in which numbers are hashed.
    pub byte_order: ByteOrder,
}

impl Opt {
    /// Whether a step with these options can draw the tokens that it needs.
    pub open spec fn can_draw(self) -> bool {
        self.vocab_size > 0 || self.output_token_chunk_size == 0
    }
}

/// Bytes that are given lowest first, in a machine's order.
pub open spec fn in_byte_order(bytes: Seq<u8>, order: ByteOrder) -> Seq<u8> {
    match order {
        ByteOrder::Little => bytes,
        ByteOrder::Big => bytes.reverse(),
    }
}

/// Puts bytes that are given lowest first in a machine's order.
fn to_byte_order(bytes: Vec<u8>, order: ByteOrder) -> (ordered: Vec<u8>)
    ensures
        ordered@ == in_byte_order(bytes@, order),
{
    if order == ByteOrder::Little {
        return bytes;
    }
    let mut ordered: Vec<u8> = Vec::new();
    let mut left: usize = bytes.len();
    while left > 0
        invariant
            left <= bytes@.len(),
            ordered@ == bytes@.skip(left as int).reverse(),
        decreases left,
    {
        left = left - 1;
        ordered.push(bytes[left]);
        assert(ordered@ =~= bytes@.skip(left as int).reverse());
    }
    assert(bytes@.skip(0) == bytes@);
    ordered
}

/// What a request's seed is hashed from: the base seed, the engine, and the request id with
/// an end mark that no UTF-8 text holds.
pub open spec fn seed_writes(
    base_seed: u64,
    engine_index: u32,
    request_id: Seq<char>,
    order: ByteOrder,
) -> Seq<Seq<u8>> {
    seq![
        in_byte_order(spec_u64_to_le_bytes(base_seed), order),
        in_byte_order(spec_u32_to_le_bytes(engine_index), order),
        encode_utf8(request_id),
        seq![0xffu8],
    ]
}

/// The seed of a request.
pub open spec fn request_seed_of(
    base_seed: u64,
    engine_index: u32,
    request_id: Seq<char>,
    order: ByteOrder,
) -> u64 {
    DefaultHasher::spec_finish(seed_writes(base_seed, engine_index, request_id, order))
}

/// Derives a stable per-request seed from the base seed, the engine, and the request id, hashed
/// as the machine's byte order has it.
pub fn request_seed(
    base_seed: u64,
    engine_index: u32,
    request_id: &str,
    order: ByteOrder,
) -> (seed: u64)
    ensures
        seed == request_seed_of(base_seed, engine_index, request_id@, order),
{
    let mut hasher = DefaultHasher::new();
    let base = to_byte_order(u64_to_le_bytes(base_seed), order);
    let engine = to_byte_order(u32_to_le_bytes(engine_index), order);
    let mut mark: Vec<u8> = Vec::new();
    mark.push(0xff);
    assert(mark@ == seq![0xffu8]);
    hasher.write(base.as_slice());
    hasher.write(engine.as_slice());
    hasher.write(request_id.as_bytes());
    hasher.write(mark.as_slice());
    assert(hasher@ == seed_writes(base_seed, engine_index, request_id@, order));
    hasher.finish()
}

/// Per-request decode state owned by one engine.
#[derive(Debug)]
pub struct ActiveRequest {
    pub request_id: String,
    pub client_index: u32,
    pub prompt_len: usize,
    pub max_tokens: usize,
    pub generated: usize,
    pub rng: StdRng,
}

/// The bounds of `count` draws below one bound.
pub open spec fn same_bounds(bound: u32, count: nat) -> Seq<u32> {
    Seq::new(count, |i: int| bound)
}

/// What an [`ActiveRequest`] stands for: its bookkeeping and the tokens that it will emit
/// from here on, by the bounds of the draws before and of the draw itself.
#[verifier::ext_equal]
pub struct ActiveModel {
    pub request_id: Seq<char>,
    pub client_index: u32,
    pub prompt_len: nat,
    pub max_tokens: nat,
    pub generated: nat,
    pub upcoming: spec_fn(Seq<u32>, u32) -> u32,
}

impl ActiveModel {
    /// How many tokens the next step adds: what is left, up to the chunk size.
    pub open spec fn chunk_len(self, chunk_size: nat) -> nat {
        let remaining = (self.max_tokens - self.generated) as nat;
        if remaining < chunk_size {
            remaining
        } else {
            chunk_size
        }
    }

    /// Whether the next step reaches the token limit.
    pub open spec fn finishes(self, chunk_size: nat) -> bool {
        self.generated + self.chunk_len(chunk_size) >= self.max_tokens
    }

    /// The token that the draw after `count` others below the vocabulary size gives.
    pub open spec fn token(self, vocab_size: u32, count: nat) -> u32 {
        (self.upcoming)(same_bounds(vocab_size, count), vocab_size)
    }

    /// The request after its next step.
    pub open spec fn stepped(self, chunk_size: nat, vocab_size: u32) -> ActiveModel {
        let added = self.chunk_len(chunk_size);
        ActiveModel {
            generated: self.generated + added,
            upcoming: |earlier: Seq<u32>, bound: u32|
                (self.upcoming)(same_bounds(vocab_size, added) + earlier, bound),
            ..self
        }
    }

    /// What the next step emits.
    pub open spec fn output(self, chunk_size: nat, vocab_size: u32) -> OutputView {
        OutputView {
            request_id: self.request_id,
            new_token_ids: Seq::new(
                self.chunk_len(chunk_size),
                |i: int| self.token(vocab_size, i as nat),
            ),
            finish_reason: if self.finishes(chunk_size) {
                Some(EngineCoreFinishReason::Length)
            } else {
                None
            },
            kv_transfer_params: None,
        }
    }
}

/// Builds one request output with only token ids and terminal status populated.
pub fn request_output(
    request_id: String,
    new_token_ids: Vec<u32>,
    finish_reason: Option<EngineCoreFinishReason>,
) -> (output: EngineCoreOutput)
    ensures
        output@ == (OutputView {
            request_id: request_id@,
            new_token_ids: new_token_ids@,
            finish_reason,
            kv_transfer_params: None,
        }),
{
    EngineCoreOutput { request_id, new_token_ids, finish_reason, kv_transfer_params: None }
}

/// Whether an output holds tokens of a vocabulary only: each lies below its size.
pub open spec fn tokens_below(output: OutputView, vocab_size: u32) -> bool {
    forall|i: int|
        0 <= i < output.new_token_ids.len() ==> #[trigger] output.new_token_ids[i] < vocab_size
}

/// How many tokens a prompt has; none where the request carries no token ids.
pub open spec fn prompt_len_of(prompt: Option<Vec<u32>>) -> nat {
    match prompt {
        Some(ids) => ids@.len(),
        None => 0,
    }
}

/// What a request becomes when it is admitted, or the reason why it ends at once: a request
/// without sampling parameters is an error, one that may emit no token is already done.
pub open spec fn admitted(engine_index: u32, request: EngineCoreRequest, opt: Opt) -> Result<
    ActiveModel,
    EngineCoreFinishReason,
> {
    match request.sampling_params {
        None => Err(EngineCoreFinishReason::Error),
        Some(params) => if params.max_tokens == 0 {
            Err(EngineCoreFinishReason::Length)
        } else {
            let seed = request_seed_of(
                opt.seed,
                engine_index,
                request.request_id@,
                opt.byte_order,
            );
            Ok(
                ActiveModel {
                    request_id: request.request_id@,
                    client_index: request.client_index,
                    prompt_len: prompt_len_of(request.prompt_token_ids),
                    max_tokens: params.max_tokens as nat,
                    generated: 0,
                    upcoming: |earlier: Seq<u32>, bound: u32| seeded_token(seed, earlier, bound),
                },
            )
        },
    }
}

impl ActiveRequest {
    /// What this request stands for.
    pub open spec fn model(self) -> ActiveModel {
        ActiveModel {
            request_id: self.request_id@,
            client_index: self.client_index,
            prompt_len: self.prompt_len as nat,
            max_tokens: self.max_tokens as nat,
            generated: self.generated as nat,
            upcoming: |earlier: Seq<u32>, bound: u32| upcoming_token(self.rng, earlier, bound),
        }
    }

    /// Creates a new active request, or returns an immediate finish reason if it is invalid.
    pub fn new(engine_index: u32, request: Box<EngineCoreRequest>, opt: &Opt) -> (active: Result<
        Self,
        EngineCoreFinishReason,
    >)
        ensures
            match (active, admitted(engine_index, *request, *opt)) {
                (Ok(state), Ok(model)) => state.model() == model,
                (Err(reason), Err(expected)) => reason == expected,
                _ => false,
            },
            active matches Ok(state) ==> {
                &&& request.sampling_params is Some
                &&& state.max_tokens == request.sampling_params->0.max_tokens
                &&& state.generated == 0
                &&& state.request_id@ == request.request_id@
                &&& state.client_index == request.client_index
                &&& request.prompt_token_ids is Some ==> state.prompt_len
                    == request.prompt_token_ids->0@.len()
                &&& request.prompt_token_ids is None ==> state.prompt_len == 0
            },
    {
        let request = *request;
        let prompt_len: usize = match &request.prompt_token_ids {
            Some(ids) => ids.len(),
            None => 0,
        };
        let params: SamplingParams = match request.sampling_params {
            Some(params) => params,
            None => return Err(EngineCoreFinishReason::Error),
        };
        if params.max_tokens == 0 {
            return Err(EngineCoreFinishReason::Length);
        }
        let seed = request_seed(
            opt.seed,
            engine_index,
            request.request_id.as_str(),
            opt.byte_order,
        );
        let state = ActiveRequest {
            rng: seeded_rng(seed),
            request_id: request.request_id,
            client_index: request.client_index,
            prompt_len,
            max_tokens: params.max_tokens as usize,
            generated: 0,
        };
        proof {
            let model = admitted(engine_index, request, *opt)->Ok_0;
            assert(state.model().upcoming =~= model.upcoming);
        }
        Ok(state)
    }

    /// Advances this request by one engine step.
    pub fn step(&mut self, opt: &Opt) -> (output: EngineCoreOutput)
        requires
            old(self).generated <= old(self).max_tokens,
            old(self).generated == old(self).max_tokens || opt.can_draw(),
        ensures
            final(self).model() == old(self).model().stepped(
                opt.output_token_chunk_size as nat,
                opt.vocab_size,
            ),
            output@ == old(self).model().output(
                opt.output_token_chunk_size as nat,
                opt.vocab_size,
            ),
            tokens_below(output@, opt.vocab_size),
            output.request_id@ == old(self).request_id@,
            output.kv_transfer_params is None,
            final(self).generated == old(self).generated + output.new_token_ids@.len(),
            final(self).max_tokens == old(self).max_tokens,
            final(self).request_id@ == old(self).request_id@,
            final(self).client_index == old(self).client_index,
            final(self).prompt_len == old(self).prompt_len,
            output.finish_reason == (if final(self).generated == final(self).max_tokens {
                Some(EngineCoreFinishReason::Length)
            } else {
                None
            }),
            output.finish_reason is None ==> output.new_token_ids@.len()
                == opt.output_token_chunk_size,
    {
        let ghost start = self.model();
        let ghost vocab = opt.vocab_size;
        let remaining: usize = self.max_tokens - self.generated;
        let chunk_len: usize = if remaining < opt.output_token_chunk_size {
            remaining
        } else {
            opt.output_token_chunk_size
        };
        let mut new_token_ids: Vec<u32> = Vec::with_capacity(chunk_len);
        let mut drawn: usize = 0;
        assert forall|earlier: Seq<u32>, bound: u32| #[trigger]
            upcoming_token(self.rng, earlier, bound) == (start.upcoming)(
            same_bounds(vocab, 0) + earlier,
            bound,
        ) by {
            assert(same_bounds(vocab, 0) + earlier == earlier);
        }
        while drawn < chunk_len
            invariant
                drawn <= chunk_len <= opt.output_token_chunk_size,
                chunk_len > 0 ==> opt.can_draw(),
                vocab == opt.vocab_size,
                new_token_ids@ == Seq::new(drawn as nat, |i: int| start.token(vocab, i as nat)),
                forall|i: int|
                    0 <= i < new_token_ids@.len() ==> #[trigger] new_token_ids@[i] < vocab,
                forall|earlier: Seq<u32>, bound: u32|
                    #[trigger] upcoming_token(self.rng, earlier, bound) == (start.upcoming)(
                        same_bounds(vocab, drawn as nat) + earlier,
                        bound,
                    ),
                self.request_id@ == start.request_id,
                self.client_index == start.client_index,
                self.prompt_len == start.prompt_len,
                self.max_tokens == start.max_tokens,
                self.generated == start.generated,
            decreases chunk_len - drawn,
        {
            let ghost before = self.rng;
            let ghost done = same_bounds(vocab, drawn as nat);
            let token = draw_token(&mut self.rng, opt.vocab_size);
            new_token_ids.push(token);
            drawn = drawn + 1;
            proof {
                assert(done + Seq::<u32>::empty() == done);
                assert(upcoming_token(before, Seq::empty(), vocab) == start.token(
                    vocab,
                    (drawn - 1) as nat,
                ));
                assert(new_token_ids@ =~= Seq::new(
                    drawn as nat,
                    |i: int| start.token(vocab, i as nat),
                ));
                assert forall|earlier: Seq<u32>, bound: u32| #[trigger]
                    upcoming_token(self.rng, earlier, bound) == (start.upcoming)(
                    same_bounds(vocab, drawn as nat) + earlier,
                    bound,
                ) by {
                    assert(upcoming_token(self.rng, earlier, bound) == upcoming_token(
                        before,
                        seq![vocab] + earlier,
                        bound,
                    ));
                    assert(done + (seq![vocab] + earlier) == same_bounds(vocab, drawn as nat)
                        + earlier);
                }
            }
        }
        self.generated = self.generated + chunk_len;
        assert(self.model().upcoming =~= start.stepped(
            opt.output_token_chunk_size as nat,
            vocab,
        ).upcoming);
        let finish_reason = if self.generated >= self.max_tokens {
            Some(EngineCoreFinishReason::Length)
        } else {
            None
        };
        request_output(self.request_id.clone(), new_token_ids, finish_reason)
    }
}

/// A request after `steps` steps.
pub open spec fn after_steps(
    model: ActiveModel,
    chunk_size: nat,
    vocab_size: u32,
    steps: nat,
) -> ActiveModel
    decreases steps,
{
    if steps == 0 {
        model
    } else {
        after_steps(model, chunk_size, vocab_size, (steps - 1) as nat).stepped(
            chunk_size,
            vocab_size,
        )
    }
}

/// The tokens that a request emits over `steps` steps.
pub open spec fn emitted(
    model: ActiveModel,
    chunk_size: nat,
    vocab_size: u32,
    steps: nat,
) -> Seq<u32>
    decreases steps,
{
    if steps == 0 {
        Seq::empty()
    } else {
        emitted(model, chunk_size, vocab_size, (steps - 1) as nat) + after_steps(
            model,
            chunk_size,
            vocab_size,
            (steps - 1) as nat,
        ).output(chunk_size, vocab_size).new_token_ids
    }
}

/// The chunk size frames a request's tokens but does not choose them: over any number of
/// steps a request emits a prefix of one and the same token stream.
pub proof fn chunking_does_not_change_the_tokens(
    model: ActiveModel,
    chunk_size: nat,
    vocab_size: u32,
    steps: nat,
)
    requires
        model.generated <= model.max_tokens,
    ensures
        ({
            let now = after_steps(model, chunk_size, vocab_size, steps);
            let count = (now.generated - model.generated) as nat;
            &&& model.generated <= now.generated <= model.max_tokens
            &&& now.max_tokens == model.max_tokens
            &&& emitted(model, chunk_size, vocab_size, steps) == Seq::new(
                count,
                |i: int| model.token(vocab_size, i as nat),
            )
            &&& forall|earlier: Seq<u32>, bound: u32| #[trigger]
                (now.upcoming)(earlier, bound) == (model.upcoming)(
                    same_bounds(vocab_size, count) + earlier,
                    bound,
                )
        }),
    decreases steps,
{
    let now = after_steps(model, chunk_size, vocab_size, steps);
    let count = (now.generated - model.generated) as nat;
    if steps == 0 {
        assert forall|earlier: Seq<u32>, bound: u32| #[trigger]
            (now.upcoming)(earlier, bound) == (model.upcoming)(
            same_bounds(vocab_size, count) + earlier,
            bound,
        ) by {
            assert(same_bounds(vocab_size, 0) + earlier == earlier);
        }
    } else {
        let prev = (steps - 1) as nat;
        let before = after_steps(model, chunk_size, vocab_size, prev);
        chunking_does_not_change_the_tokens(model, chunk_size, vocab_size, prev);
        assert(now == before.stepped(chunk_size, vocab_size));
        let done = (before.generated - model.generated) as nat;
        let added = before.chunk_len(chunk_size);
        let fresh = before.output(chunk_size, vocab_size).new_token_ids;
        assert forall|i: int| 0 <= i < fresh.len() implies #[trigger] fresh[i] == model.token(
            vocab_size,
            (done + i) as nat,
        ) by {
            assert(same_bounds(vocab_size, done) + same_bounds(vocab_size, i as nat)
                == same_bounds(vocab_size, (done + i) as nat));
        }
        assert(emitted(model, chunk_size, vocab_size, steps) =~= Seq::new(
            count,
            |i: int| model.token(vocab_size, i as nat),
        ));
        assert forall|earlier: Seq<u32>, bound: u32| #[trigger]
            (now.upcoming)(earlier, bound) == (model.upcoming)(
            same_bounds(vocab_size, count) + earlier,
            bound,
        ) by {
            assert((now.upcoming)(earlier, bound) == (before.upcoming)(
                same_bounds(vocab_size, added) + earlier,
                bound,
            ));
            assert(same_bounds(vocab_size, done) + (same_bounds(vocab_size, added) + earlier)
                == same_bounds(vocab_size, count) + earlier);
        }
    }
}

/// A request that is stepped in chunks of at least one token emits exactly as many tokens as
/// it may, and ends with the step that reaches that limit and with no step before it.
pub proof fn every_request_reaches_its_limit(
    model: ActiveModel,
    chunk_size: nat,
    vocab_size: u32,
    steps: nat,
)
    requires
        model.generated < model.max_tokens,
        chunk_size > 0,
    ensures
        ({
            let limit = model.max_tokens - model.generated;
            let now = after_steps(model, chunk_size, vocab_size, steps);
            &&& steps * chunk_size >= limit ==> {
                &&& now.generated == model.max_tokens
                &&& emitted(model, chunk_size, vocab_size, steps).len() == limit
            }
            &&& steps * chunk_size < limit ==> {
                &&& now.generated == model.generated + steps * chunk_size
                &&& now.finishes(chunk_size) == ((steps + 1) * chunk_size >= limit)
                &&& now.output(chunk_size, vocab_size).finish_reason == (if (steps + 1)
                    * chunk_size >= limit {
                    Some(EngineCoreFinishReason::Length)
                } else {
                    None
                })
            }
        }),
    decreases steps,
{
    chunking_does_not_change_the_tokens(model, chunk_size, vocab_size, steps);
    assert((steps + 1) * chunk_size == steps * chunk_size + chunk_size) by (nonlinear_arith);
    if steps > 0 {
        let prev = (steps - 1) as nat;
        assert(steps * chunk_size == prev * chunk_size + chunk_size) by (nonlinear_arith)
            requires
                prev == steps - 1,
        ;
        every_request_reaches_its_limit(model, chunk_size, vocab_size, prev);
        chunking_does_not_change_the_tokens(model, chunk_size, vocab_size, prev);
    } else {
        assert(steps * chunk_size == 0) by (nonlinear_arith)
            requires
                steps == 0,
        ;
    }
}

/// What is hashed into a request's seed is the base seed, the engine's number, the request id
/// and an end mark, each whole, the numbers in the machine's byte order. So two requests have one
/// seed only where all of these are the same, or where the hash collides.
pub proof fn a_seed_covers_all_that_it_is_made_of(
    base: u64,
    engine: u32,
    id: Seq<char>,
    other_base: u64,
    other_engine: u32,
    other_id: Seq<char>,
)
    ensures
        ({
            let writes = seq![
                spec_u64_to_le_bytes(base),
                spec_u32_to_le_bytes(engine),
                encode_utf8(id),
                seq![0xffu8],
            ];
            let others = seq![
                spec_u64_to_le_bytes(other_base),
                spec_u32_to_le_bytes(other_engine),
                encode_utf8(other_id),
                seq![0xffu8],
            ];
            let turned = seq![
                spec_u64_to_le_bytes(base).reverse(),
                spec_u32_to_le_bytes(engine).reverse(),
                encode_utf8(id),
                seq![0xffu8],
            ];
            let seed = request_seed_of(base, engine, id, ByteOrder::Little);
            let other = request_seed_of(other_base, other_engine, other_id, ByteOrder::Little);
            &&& seed == DefaultHasher::spec_finish(writes)
            &&& request_seed_of(base, engine, id, ByteOrder::Big) == DefaultHasher::spec_finish(
                turned,
            )
            &&& seed == other && (DefaultHasher::spec_finish(writes) == DefaultHasher::spec_finish(
                others,
            ) ==> writes == others) ==> base == other_base && engine == other_engine && id
                == other_id
        }),
{
    let writes = seq![
        spec_u64_to_le_bytes(base),
        spec_u32_to_le_bytes(engine),
        encode_utf8(id),
        seq![0xffu8],
    ];
    let others = seq![
        spec_u64_to_le_bytes(other_base),
        spec_u32_to_le_bytes(other_engine),
        encode_utf8(other_id),
        seq![0xffu8],
    ];
    assert(seed_writes(base, engine, id, ByteOrder::Little) == writes);
    assert(seed_writes(other_base, other_engine, other_id, ByteOrder::Little) == others);
    if writes == others {
        assert(writes[0] == others[0]);
        assert(writes[1] == others[1]);
        assert(writes[2] == others[2]);
        lemma_auto_spec_u64_to_from_le_bytes();
        lemma_auto_spec_u32_to_from_le_bytes();
        assert(spec_u64_from_le_bytes(writes[0]) == base);
        assert(spec_u64_from_le_bytes(others[0]) == other_base);
        assert(spec_u32_to_le_bytes(engine).len() == 4);
        assert(spec_u32_to_le_bytes(other_engine).len() == 4);
        assert(spec_u32_from_le_bytes(writes[1]) == engine);
        assert(spec_u32_from_le_bytes(others[1]) == other_engine);
        encode_utf8_decode_utf8(id);
        encode_utf8_decode_utf8(other_id);
    }
}

/// A request is admitted exactly where it has sampling parameters and asks for a token at least,
/// and then as it was sent: with the client's own token limit, id, number and prompt length, with
/// nothing generated, and with the tokens of its own seed to come. One that asks for no token ends
/// for its length, one without parameters with an error.
pub proof fn a_request_is_admitted_as_it_was_sent(
    engine_index: u32,
    request: EngineCoreRequest,
    opt: Opt,
)
    ensures
        match admitted(engine_index, request, opt) {
            Ok(model) => {
                &&& request.sampling_params is Some
                &&& model.max_tokens == request.sampling_params->0.max_tokens
                &&& model.max_tokens > 0
                &&& model.generated == 0
                &&& model.request_id == request.request_id@
                &&& model.client_index == request.client_index
                &&& request.prompt_token_ids is Some ==> model.prompt_len
                    == request.prompt_token_ids->0@.len()
                &&& request.prompt_token_ids is None ==> model.prompt_len == 0
                &&& forall|earlier: Seq<u32>, bound: u32| #[trigger]
                    (model.upcoming)(earlier, bound) == seeded_token(
                        request_seed_of(
                            opt.seed,
                            engine_index,
                            request.request_id@,
                            opt.byte_order,
                        ),
                        earlier,
                        bound,
                    )
            },
            Err(EngineCoreFinishReason::Length) => {
                &&& request.sampling_params is Some
                &&& request.sampling_params->0.max_tokens == 0
            },
            Err(EngineCoreFinishReason::Error) => request.sampling_params is None,
            Err(EngineCoreFinishReason::Abort) => false,
        },
{
}

/// A request stands for its own fields: what is kept of it in memory is what it is taken to be.
pub proof fn a_request_is_what_its_fields_say(request: ActiveRequest)
    ensures
        request.model().request_id == request.request_id@,
        request.model().client_index == request.client_index,
        request.model().prompt_len == request.prompt_len,
        request.model().max_tokens == request.max_tokens,
        request.model().generated == request.generated,
        forall|earlier: Seq<u32>, bound: u32| #[trigger]
            (request.model().upcoming)(earlier, bound) == upcoming_token(
                request.rng,
                earlier,
                bound,
            ),
{
}

/// One step emits a chunk, or what is left of the request where that is less, and ends the request
/// exactly where that brings it to its limit. The tokens are the next ones that the generator
/// gives when it draws below the vocabulary size, and the generator goes on behind them; nothing
/// else about the request changes.
pub proof fn a_step_emits_the_next_chunk(model: ActiveModel, chunk_size: nat, vocab_size: u32)
    requires
        model.generated <= model.max_tokens,
    ensures
        ({
            let output = model.output(chunk_size, vocab_size);
            let now = model.stepped(chunk_size, vocab_size);
            let count = output.new_token_ids.len();
            &&& model.generated + chunk_size <= model.max_tokens ==> count == chunk_size
            &&& model.generated + chunk_size > model.max_tokens ==> model.generated + count
                == model.max_tokens
            &&& forall|i: int|
                0 <= i < count ==> #[trigger] output.new_token_ids[i] == (model.upcoming)(
                    Seq::new(i as nat, |j: int| vocab_size),
                    vocab_size,
                )
            &&& output.request_id == model.request_id
            &&& output.kv_transfer_params is None
            &&& output.finish_reason == (if model.generated + chunk_size >= model.max_tokens {
                Some(EngineCoreFinishReason::Length)
            } else {
                None
            })
            &&& model.finishes(chunk_size) == (model.generated + chunk_size >= model.max_tokens)
            &&& now.generated == model.generated + count
            &&& now.max_tokens == model.max_tokens
            &&& now.request_id == model.request_id
            &&& now.client_index == model.client_index
            &&& now.prompt_len == model.prompt_len
            &&& forall|earlier: Seq<u32>, bound: u32| #[trigger]
                (now.upcoming)(earlier, bound) == (model.upcoming)(
                    Seq::new(count, |j: int| vocab_size) + earlier,
                    bound,
                )
        }),
{
    let output = model.output(chunk_size, vocab_size);
    let now = model.stepped(chunk_size, vocab_size);
    let count = output.new_token_ids.len();
    assert forall|i: int| 0 <= i < count implies #[trigger] output.new_token_ids[i] == (
    model.upcoming)(Seq::new(i as nat, |j: int| vocab_size), vocab_size) by {
        assert(same_bounds(vocab_size, i as nat) =~= Seq::new(i as nat, |j: int| vocab_size));
    }
    assert forall|earlier: Seq<u32>, bound: u32| #[trigger]
        (now.upcoming)(earlier, bound) == (model.upcoming)(
        Seq::new(count, |j: int| vocab_size) + earlier,
        bound,
    ) by {
        assert(same_bounds(vocab_size, count) =~= Seq::new(count, |j: int| vocab_size));
    }
}

/// An admitted request's tokens depend on the base seed, the engine, its id, the vocabulary and
/// the machine's byte order alone: whatever the chunk size, they are the first tokens of the
/// stream of its seed, as many as the steps so far allow, up to the limit that the client sent.
pub proof fn an_admitted_request_emits_its_seeded_tokens(
    engine_index: u32,
    request: EngineCoreRequest,
    opt: Opt,
    chunk_size: nat,
    steps: nat,
)
    requires
        admitted(engine_index, request, opt) is Ok,
        chunk_size > 0,
    ensures
        ({
            let model = admitted(engine_index, request, opt)->Ok_0;
            let seed = request_seed_of(
                opt.seed,
                engine_index,
                request.request_id@,
                opt.byte_order,
            );
            let limit = request.sampling_params->0.max_tokens as nat;
            let count = if steps * chunk_size < limit {
                steps * chunk_size
            } else {
                limit
            };
            let tokens = emitted(model, chunk_size, opt.vocab_size, steps);
            &&& tokens.len() == count
            &&& forall|i: int|
                0 <= i < count ==> #[trigger] tokens[i] == seeded_token(
                    seed,
                    Seq::new(i as nat, |j: int| opt.vocab_size),
                    opt.vocab_size,
                )
        }),
{
    let model = admitted(engine_index, request, opt)->Ok_0;
    let seed = request_seed_of(opt.seed, engine_index, request.request_id@, opt.byte_order);
    chunking_does_not_change_the_tokens(model, chunk_size, opt.vocab_size, steps);
    every_request_reaches_its_limit(model, chunk_size, opt.vocab_size, steps);
    let tokens = emitted(model, chunk_size, opt.vocab_size, steps);
    assert forall|i: int| 0 <= i < tokens.len() implies #[trigger] tokens[i] == seeded_token(
        seed,
        Seq::new(i as nat, |j: int| opt.vocab_size),
        opt.vocab_size,
    ) by {
        assert(same_bounds(opt.vocab_size, i as nat) =~= Seq::new(
            i as nat,
            |j: int| opt.vocab_size,
        ));
    }
}

/// A request that is stepped until it is done gets exactly the number of tokens that the client
/// asked for: with chunks of at least one token it is done after as many steps as chunks make up
/// that number, ends for its length in the last of them, and in none before.
pub proof fn an_admitted_request_gets_what_it_asked_for(
    engine_index: u32,
    request: EngineCoreRequest,
    opt: Opt,
    chunk_size: nat,
    steps: nat,
)
    requires
        admitted(engine_index, request, opt) is Ok,
        chunk_size > 0,
        steps * chunk_size < request.sampling_params->0.max_tokens,
    ensures
        ({
            let model = admitted(engine_index, request, opt)->Ok_0;
            let limit = request.sampling_params->0.max_tokens as nat;
            let now = after_steps(model, chunk_size, opt.vocab_size, steps);
            let next = (steps + 1) as nat;
            &&& emitted(model, chunk_size, opt.vocab_size, steps).len() == steps * chunk_size
            &&& now.output(chunk_size, opt.vocab_size).finish_reason == (if next * chunk_size
                >= limit {
                Some(EngineCoreFinishReason::Length)
            } else {
                None
            })
            &&& next * chunk_size >= limit ==> emitted(
                model,
                chunk_size,
                opt.vocab_size,
                next,
            ).len() == limit
        }),
{
    let model = admitted(engine_index, request, opt)->Ok_0;
    let next = (steps + 1) as nat;
    every_request_reaches_its_limit(model, chunk_size, opt.vocab_size, steps);
    every_request_reaches_its_limit(model, chunk_size, opt.vocab_size, next);
    chunking_does_not_change_the_tokens(model, chunk_size, opt.vocab_size, steps);
}

} // verus!

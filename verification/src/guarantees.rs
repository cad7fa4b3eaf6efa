//! What the functions of the library promise their callers, stated of the calls themselves: each
//! law takes the arguments and the results of one call or of several, and says what holds of them.
use crate::active::{
    a_request_is_admitted_as_it_was_sent, a_request_is_what_its_fields_say,
    a_seed_covers_all_that_it_is_made_of, a_step_emits_the_next_chunk, request_output, request_seed,
    ActiveRequest, ByteOrder, Opt,
};
use crate::batch::{
    batch_by_client, outputs_are_batched_by_client, tagged_outputs_say_what_they_hold, tagged_view,
};
use crate::config_hash::{
    canonical_text, every_field_counts_in_the_hash, occurs, sha256_digest, ConfigFingerprint,
};
use crate::dataplane::{
    a_plane_error_tells_what_went_wrong, advert_view, an_addressing_names_its_engine,
    an_answer_says_what_it_holds, block_count, block_id_list, block_ids_count_up, blocks_for,
    blocks_hold_every_token, make_data_plane, the_noop_plane_gives_its_own_addressing, wants_nixl,
    DataPlane, DataPlaneError, KvDataPlane, NixlConfig, NoopDataPlane, PdRole, RemoteKv, RequestKv,
};
use crate::engine::{
    a_request_is_taken_or_refused, an_engine_holds_its_requests, empty_finish_outputs,
    extract_kv_params, Engine, LoopAction, LoopEvent,
};
use crate::nixl::{
    a_fill_byte_follows_the_whole_id, a_pull_reads_its_own_buffer_only, byte_sum, finish_read,
    pattern_for, pattern_of, poll_read, the_first_wrong_byte_is_named,
    what_is_staged_holds_the_prompt, AdvertPlan, NixlLedger, PullPlan, ReadPoll, StagedKv,
};
use crate::protocol::{
    batches_view, EngineCoreFinishReason, EngineCoreOutput, EngineCoreOutputs, EngineCoreRequest,
    EngineCoreUtilityRequest, EngineInput, EngineOutput, OutputView,
};
use crate::replay_steps::{
    a_numbered_request_takes_its_record, a_record_is_replayed_verbatim,
    a_replay_delivers_the_recorded_output, count_total, derive_spec_tokens, floor_gap,
    is_schedule_of, schedule_from_record, the_budget_is_the_widest_chunk_less_one,
    the_longest_prefix_match_is_served, IndexSteps, PrefixSteps, ScriptedDecode, StepSource,
};
use crate::tap::{
    a_run_goes_on_until_it_fails_or_is_done, steps_of, TapConfig, TapMetaConfig, TapNext,
    TapOptions, TapRun, TapStep,
};
use crate::text::{
    a_line_feed_ends_a_line, a_list_says_what_its_strings_say, a_number_is_parsed_from_its_digits,
    after_last, append_decimal, ascending, before, chars_of, comes_before, decimal, decimal_of,
    digits_read_back_as_their_number, hex, hex_digits_are_worth_their_bytes, hex_of, is_white_space,
    join_text, lemma_joined, nothing_after_the_last_is_lost, parse_usize, same_text, split_lines,
    string_of, tail_after, texts, texts_are_ordered_where_they_first_differ, trim,
    trimming_cuts_white_space_only, white_space,
};
use crate::token_source::upcoming_token;
use crate::trace::{
    a_header_says_what_it_holds, a_report_tells_the_cause, an_error_says_what_it_holds,
    append_record, default_concurrency, framed, framed_lines_split_again, is_plain_line, meta_line,
    read_trace, reads, the_meta_line_wraps_the_header, validate_record, write_trace, Millis,
    TraceError, TraceMeta, TraceRecord,
};
use crate::utility::{
    each_method_has_its_answer, msgpack_bytes, utility_envelope, utility_reply, utility_response,
    UtilityError, UtilityReply, UtilityResultEnvelope,
};
use std::collections::hash_map::DefaultHasher;
use vstd::bytes::{spec_u32_to_le_bytes, spec_u64_to_le_bytes};
use vstd::prelude::*;
use vstd::std_specs::hash::DefaultHasherAdditionalSpecFns;
use vstd::string::*;
use vstd::utf8::encode_utf8;

verus! {

/// A trace is replayed against the configuration that it was captured under only: the hashes of two
/// configurations that differ in any field differ, as long as SHA-256 does not collide on the two
/// canonical forms and no field before a label spells that label out itself.
pub proof fn hashing_tells_configurations_apart(
    a: ConfigFingerprint,
    b: ConfigFingerprint,
    hash_a: String,
    hash_b: String,
)
    requires
        call_ensures(ConfigFingerprint::hash, (&a,), hash_a),
        call_ensures(ConfigFingerprint::hash, (&b,), hash_b),
        a.gpu@ != b.gpu@ || a.vllm_tag@ != b.vllm_tag@ || a.engine_config@ != b.engine_config@,
        !occurs("\nvllm_tag="@, a.gpu@),
        !occurs("\nvllm_tag="@, b.gpu@),
        !occurs("\nengine_config="@, a.vllm_tag@),
        !occurs("\nengine_config="@, b.vllm_tag@),
        ({
            let text_a = canonical_text(a.gpu@, a.vllm_tag@, a.engine_config@);
            let text_b = canonical_text(b.gpu@, b.vllm_tag@, b.engine_config@);
            sha256_digest(encode_utf8(text_a)) == sha256_digest(encode_utf8(text_b)) ==> text_a
                == text_b
        }),
    ensures
        hash_a@ != hash_b@,
{
    every_field_counts_in_the_hash(a, b);
}

/// The hash of a configuration is the SHA-256 digest of the whole text that `canonical` gives, each
/// byte in two lowercase hexadecimal digits, the high one first.
pub proof fn hashing_digests_the_canonical_text(
    fingerprint: ConfigFingerprint,
    text: String,
    hash: String,
    i: int,
)
    requires
        call_ensures(ConfigFingerprint::canonical, (&fingerprint,), text),
        call_ensures(ConfigFingerprint::hash, (&fingerprint,), hash),
        0 <= i < sha256_digest(encode_utf8(text@)).len(),
    ensures
        hash@.len() == 2 * sha256_digest(encode_utf8(text@)).len(),
        ({
            let worth = |c: char|
                if c <= '9' {
                    c as int - 48
                } else {
                    c as int - 87
                };
            16 * worth(hash@[2 * i]) + worth(hash@[2 * i + 1]) == sha256_digest(
                encode_utf8(text@),
            )[i]
        }),
        text@ == "config-fingerprint-v3"@ + "\ngpu="@ + fingerprint.gpu@ + "\nvllm_tag="@
            + fingerprint.vllm_tag@ + "\nengine_config="@ + fingerprint.engine_config@ + "\n"@,
{
    hex_digits_are_worth_their_bytes(sha256_digest(encode_utf8(text@)), i);
}

/// A request is admitted as it was sent, with the client's own token limit, or ends at once for a
/// reason that shows in it.
pub proof fn admission_keeps_the_request(
    engine_index: u32,
    request: EngineCoreRequest,
    boxed: Box<EngineCoreRequest>,
    opt: Opt,
    active: Result<ActiveRequest, EngineCoreFinishReason>,
)
    requires
        *boxed == request,
        call_ensures(ActiveRequest::new, (engine_index, boxed, &opt), active),
    ensures
        active is Ok <==> request.sampling_params is Some && request.sampling_params->0.max_tokens
            > 0,
        active matches Ok(state) ==> {
            &&& state.max_tokens == request.sampling_params->0.max_tokens
            &&& state.generated == 0
            &&& state.request_id@ == request.request_id@
            &&& state.client_index == request.client_index
            &&& state.prompt_len == (if request.prompt_token_ids is Some {
                request.prompt_token_ids->0@.len()
            } else {
                0
            })
        },
        active matches Err(reason) ==> reason == (if request.sampling_params is None {
            EngineCoreFinishReason::Error
        } else {
            EngineCoreFinishReason::Length
        }),
{
    a_request_is_admitted_as_it_was_sent(engine_index, request, opt);
}

/// Two requests of one base seed have one seed only where they come to one engine under one id, as
/// long as the hash does not collide on the two.
pub proof fn seeding_tells_requests_apart(
    base: u64,
    engine: u32,
    id: &str,
    other_engine: u32,
    other_id: &str,
    seed: u64,
    other: u64,
)
    requires
        call_ensures(request_seed, (base, engine, id, ByteOrder::Little), seed),
        call_ensures(request_seed, (base, other_engine, other_id, ByteOrder::Little), other),
        engine != other_engine || id@ != other_id@,
        ({
            let writes = seq![
                spec_u64_to_le_bytes(base),
                spec_u32_to_le_bytes(engine),
                encode_utf8(id@),
                seq![0xffu8],
            ];
            let others = seq![
                spec_u64_to_le_bytes(base),
                spec_u32_to_le_bytes(other_engine),
                encode_utf8(other_id@),
                seq![0xffu8],
            ];
            DefaultHasher::spec_finish(writes) == DefaultHasher::spec_finish(others) ==> writes
                == others
        }),
    ensures
        seed != other,
{
    a_seed_covers_all_that_it_is_made_of(base, engine, id@, base, other_engine, other_id@);
}

/// The schedule of a record replays each of its gaps with the tokens of its chunk, and all of it
/// comes to the recorded output, as long as the first chunk has a token of it and its size fits in
/// 32 bits, and no later chunk is empty.
pub proof fn scheduling_replays_the_record(
    record: TraceRecord,
    schedule: Option<ScriptedDecode>,
    total: usize,
)
    requires
        call_ensures(schedule_from_record, (&record,), schedule),
        schedule is Some ==> call_ensures(ScriptedDecode::output_tokens, (&schedule->0,), total),
    ensures
        schedule is Some <==> {
            &&& record.itl_ms is Some
            &&& record.itl_tokens is Some ==> record.itl_tokens->0@.len()
                == record.itl_ms->0@.len()
        },
        schedule is Some ==> schedule->0.steps@.len() == record.itl_ms->0@.len(),
        schedule is Some ==> forall|i: int|
            0 <= i < schedule->0.steps@.len() ==> {
                let gap = record.itl_ms->0@[i];
                let step = #[trigger] schedule->0.steps@[i];
                &&& gap.bits <= 0x7ff0_0000_0000_0000 ==> step.delay == gap
                &&& gap.bits > 0x7ff0_0000_0000_0000 ==> step.delay.bits == 0
                &&& record.itl_tokens is None ==> step.tokens == 1
                &&& record.itl_tokens is Some && record.itl_tokens->0@[i] > 0 ==> step.tokens
                    == record.itl_tokens->0@[i]
                &&& record.itl_tokens is Some && record.itl_tokens->0@[i] == 0 ==> step.tokens == 1
            },
        schedule is Some && record.itl_tokens is None && record.itl_ms->0@.len()
            < record.output_tokens <= record.itl_ms->0@.len() + u32::MAX ==> total
            == record.output_tokens,
        schedule is Some && record.itl_tokens is Some && count_total(record.itl_tokens->0@)
            < record.output_tokens <= count_total(record.itl_tokens->0@) + u32::MAX && (forall|
            i: int,
        |
            0 <= i < record.itl_tokens->0@.len() ==> #[trigger] record.itl_tokens->0@[i] > 0)
            ==> total == record.output_tokens,
{
    a_record_is_replayed_verbatim(record, schedule);
    if schedule is Some {
        if record.itl_tokens is None && record.itl_ms->0@.len() < record.output_tokens
            <= record.itl_ms->0@.len() + u32::MAX {
            a_replay_delivers_the_recorded_output(record, schedule->0);
        }
        if record.itl_tokens is Some && count_total(record.itl_tokens->0@) < record.output_tokens
            <= count_total(record.itl_tokens->0@) + u32::MAX && (forall|i: int|
            0 <= i < record.itl_tokens->0@.len() ==> #[trigger] record.itl_tokens->0@[i] > 0) {
            a_replay_delivers_the_recorded_output(record, schedule->0);
        }
    }
}

/// The derived budget is one less than the widest listed chunk, and there is none where no chunk is
/// wider than one token.
pub proof fn deriving_finds_the_widest_chunk(records: Vec<TraceRecord>, budget: Option<u32>)
    requires
        call_ensures(derive_spec_tokens, (&records,), budget),
    ensures
        forall|i: int, j: int|
            0 <= i < records@.len() && records@[i].itl_tokens is Some && 0 <= j
                < records@[i].itl_tokens->0@.len() ==> #[trigger] records@[i].itl_tokens->0@[j] <= (
            match budget {
                Some(k) => k as int + 1,
                None => 1,
            }),
        budget matches Some(k) ==> k >= 1 && exists|i: int, j: int|
            0 <= i < records@.len() && records@[i].itl_tokens is Some && 0 <= j
                < records@[i].itl_tokens->0@.len() && #[trigger] records@[i].itl_tokens->0@[j]
                == k + 1,
{
    the_budget_is_the_widest_chunk_less_one(records@, budget);
}

/// A record's number is read off the end of the request's id, behind the last dash.
pub proof fn indexing_reads_the_number_behind_the_dash(
    request_id: &str,
    name: Seq<char>,
    n: nat,
    index: Option<usize>,
)
    requires
        call_ensures(IndexSteps::record_index, (request_id,), index),
        request_id@ == name + seq!['-'] + decimal_of(n),
        n <= usize::MAX,
    ensures
        index == Some(n as usize),
{
    let digits = decimal_of(n);
    let id = request_id@;
    let dash = name.len() as int;
    digits_read_back_as_their_number(n);
    a_number_is_parsed_from_its_digits(n, Seq::empty());
    nothing_after_the_last_is_lost(id, '-');
    let from = choose|from: int|
        {
            &&& 0 <= from <= id.len()
            &&& after_last(id, '-') == #[trigger] id.skip(from)
            &&& forall|i: int| from <= i < id.len() ==> #[trigger] id[i] != '-'
            &&& from == 0 || id[from - 1] == '-'
        };
    assert(id[dash] == '-');
    if from > dash + 1 {
        assert(id[from - 1] == digits[from - 1 - dash - 1]);
    }
    assert(id.skip(from) =~= digits);
}

/// Validation accepts exactly the valid records, and answers every other one with the number of its
/// line and what does not fit.
pub proof fn validation_goes_by_the_fields(
    record: TraceRecord,
    line_num: usize,
    valid: Result<(), TraceError>,
)
    requires
        call_ensures(validate_record, (&record, line_num), valid),
    ensures
        valid is Ok <==> {
            &&& record.output_tokens <= 1 || record.itl_ms is Some || record.itl_summary is Some
            &&& record.itl_ctx matches Some(ctx) ==> {
                let gaps = if record.itl_ms is Some {
                    record.itl_ms->0@.len()
                } else {
                    0
                };
                ctx.num_running@.len() == gaps && ctx.prefill_tokens@.len() == gaps
            }
        },
{
}

/// Reading a trace goes by all of its lines, in order, and by the read failure behind them.
pub proof fn reading_goes_by_every_line<
    M: Fn(&str) -> Result<TraceMeta, String>,
    F: Fn(&str) -> Result<TraceRecord, String>,
    R: Fn(&str) -> Result<TraceRecord, String>,
>(
    lines: Vec<String>,
    read_failure: Option<String>,
    parse_meta: M,
    parse_first: F,
    parse_record: R,
    result: Result<(TraceMeta, Vec<TraceRecord>), TraceError>,
)
    requires
        call_ensures(
            read_trace::<M, F, R>,
            (&lines, read_failure, parse_meta, parse_first, parse_record),
            result,
        ),
    ensures
        reads(
            Seq::new(lines@.len(), |i: int| lines@[i]@),
            if read_failure is Some {
                Some(read_failure->0@)
            } else {
                None
            },
            parse_meta,
            parse_first,
            parse_record,
            result,
        ),
        result is Ok ==> forall|i: int, j: int|
            0 <= i < j < result->Ok_0.0.extra@.len() ==> before(
                (#[trigger] result->Ok_0.0.extra@[i]).0@,
                (#[trigger] result->Ok_0.0.extra@[j]).0@,
            ),
{
    a_list_says_what_its_strings_say(lines@);
    assert(texts(lines@) =~= Seq::new(lines@.len(), |i: int| lines@[i]@));
    if result is Ok {
        a_header_says_what_it_holds(result->Ok_0.0, Seq::empty(), None);
    }
}

/// An error's message and report name its line; the report has the cause behind the message.
pub proof fn reporting_tells_line_and_cause(
    error: TraceError,
    message: String,
    report: String,
    cause: Option<String>,
)
    requires
        call_ensures(TraceError::message, (&error,), message),
        call_ensures(TraceError::report, (&error,), report),
        call_ensures(TraceError::cause, (&error,), cause),
    ensures
        cause is None ==> report@ == message@,
        cause is Some ==> report@ == message@ + ": "@ + cause->0@,
        error matches TraceError::ReadFailed { line_num, cause: text } ==> cause is Some
            && cause->0@ == text@ && message@ == "reading line "@ + decimal_of(line_num as nat),
        error matches TraceError::InvalidJson { line_num, cause: text } ==> cause is Some
            && cause->0@ == text@ && message@ == "line "@ + decimal_of(line_num as nat)
            + ": invalid JSON"@,
        error matches TraceError::InvalidMeta { line_num, cause: text } ==> cause is Some
            && cause->0@ == text@ && message@ == "line "@ + decimal_of(line_num as nat)
            + ": invalid meta object"@,
        error matches TraceError::InvalidRecord { line_num, cause: text } ==> cause is Some
            && cause->0@ == text@ && message@ == "line "@ + decimal_of(line_num as nat)
            + ": invalid trace record"@,
        error matches TraceError::MissingItl { line_num, output_tokens } ==> cause is None
            && message@ == "line "@ + decimal_of(line_num as nat) + ": output_tokens="@
            + decimal_of(output_tokens as nat)
            + " but neither itl_ms nor itl_summary is present"@,
        error matches TraceError::ContextMismatch { line_num, running, prefill, gaps }
            ==> cause is None && message@ == "line "@ + decimal_of(line_num as nat)
            + ": itl_ctx arrays (running="@ + decimal_of(running as nat) + ", prefill="@
            + decimal_of(prefill as nat) + ") must parallel itl_ms (len="@ + decimal_of(
            gaps as nat,
        ) + ")"@,
{
    an_error_says_what_it_holds(error);
    a_report_tells_the_cause(error@);
}

/// Trimming gives one run of the text's characters: all that is cut off is white space, and what is
/// left neither begins nor ends with white space.
pub proof fn trimming_leaves_the_inner_text(text: &str, inner: String)
    requires
        call_ensures(trim, (text,), inner),
    ensures
        exists|from: int, to: int|
            {
                &&& 0 <= from <= to <= text@.len()
                &&& inner@ == #[trigger] text@.subrange(from, to)
                &&& forall|i: int|
                    (0 <= i < from || to <= i < text@.len()) ==> is_white_space(
                        #[trigger] text@[i],
                    )
                &&& from < to ==> !is_white_space(text@[from]) && !is_white_space(text@[to - 1])
            },
{
    trimming_cuts_white_space_only(text@);
}

/// Splitting cuts a text at each line feed: the line in front of the first one, without a carriage
/// return at its end, comes before the lines of the rest.
pub proof fn splitting_cuts_at_line_feeds(
    text: &str,
    line: Seq<char>,
    rest: &str,
    lines: Vec<String>,
    others: Vec<String>,
)
    requires
        call_ensures(split_lines, (text,), lines),
        call_ensures(split_lines, (rest,), others),
        forall|i: int| 0 <= i < line.len() ==> #[trigger] line[i] != '\n',
        text@ == line + seq!['\n'] + rest@,
    ensures
        lines@.len() == others@.len() + 1,
        lines@[0]@ == (if line.len() > 0 && line.last() == '\r' {
            line.drop_last()
        } else {
            line
        }),
        forall|i: int| 0 <= i < others@.len() ==> lines@[i + 1]@ == #[trigger] others@[i]@,
{
    a_line_feed_ends_a_line(line, rest@);
    assert(text@ =~= line.push('\n') + rest@);
    a_list_says_what_its_strings_say(lines@);
    a_list_says_what_its_strings_say(others@);
    assert forall|i: int| 0 <= i < others@.len() implies lines@[i + 1]@
        == #[trigger] others@[i]@ by {
        assert(texts(lines@)[i + 1] == texts(others@)[i]);
    }
    assert(texts(lines@)[0] == lines@[0]@);
}

/// A number that is written in digits is parsed as itself.
pub proof fn a_written_number_parses_back(
    n: u64,
    digits: String,
    text: &str,
    value: Option<usize>,
)
    requires
        call_ensures(decimal, (n,), digits),
        call_ensures(parse_usize, (text,), value),
        text@ == digits@,
    ensures
        n <= usize::MAX ==> value == Some(n as usize),
        n > usize::MAX ==> value is None,
        n > 0 ==> digits@[0] != '0',
{
    a_number_is_parsed_from_its_digits(n as nat, text@);
    digits_read_back_as_their_number(n as nat);
}

/// What follows the last `c` of a text ends it and holds no `c`, and a `c` stands right before it
/// unless it is the whole text.
pub proof fn the_tail_follows_the_last(text: &str, c: char, tail: String)
    requires
        call_ensures(tail_after, (text, c), tail),
    ensures
        exists|from: int|
            {
                &&& 0 <= from <= text@.len()
                &&& tail@ == #[trigger] text@.skip(from)
                &&& forall|i: int| from <= i < text@.len() ==> #[trigger] text@[i] != c
                &&& from == 0 || text@[from - 1] == c
            },
{
    nothing_after_the_last_is_lost(text@, c);
}

/// Texts are ordered where they first differ.
pub proof fn ordering_goes_by_the_first_difference(a: &str, b: &str, earlier: bool)
    requires
        call_ensures(comes_before, (a, b), earlier),
    ensures
        earlier <==> exists|k: int|
            {
                &&& 0 <= k <= a@.len()
                &&& k < b@.len()
                &&& #[trigger] a@.take(k) == b@.take(k)
                &&& k == a@.len() || a@[k] < b@[k]
            },
{
    texts_are_ordered_where_they_first_differ(a@, b@);
}

/// Bytes are written in two hexadecimal digits each that are worth them.
pub proof fn hex_writes_every_byte(bytes: Vec<u8>, text: String, i: int)
    requires
        call_ensures(hex, (&bytes,), text),
        0 <= i < bytes@.len(),
    ensures
        text@.len() == 2 * bytes@.len(),
        ({
            let worth = |c: char|
                if c <= '9' {
                    c as int - 48
                } else {
                    c as int - 87
                };
            16 * worth(text@[2 * i]) + worth(text@[2 * i + 1]) == bytes@[i]
        }),
{
    hex_digits_are_worth_their_bytes(bytes@, i);
}

/// Outputs are batched by client: every output is in the one batch of its client, clients come in
/// ascending order, and a batch holds all of its client's outputs whole and in order. It lists the
/// ids of the requests that end with it in ascending order, and has no list where none does.
pub proof fn batching_keeps_every_output(
    engine_index: u32,
    tagged: Vec<(u32, EngineCoreOutput)>,
    batches: Vec<EngineOutput>,
)
    requires
        call_ensures(batch_by_client, (engine_index, tagged), batches),
    ensures
        forall|t: int|
            0 <= t < tagged@.len() ==> exists|b: int|
                0 <= b < batches@.len() && (#[trigger] batches@[b]).client_index == (
                #[trigger] tagged@[t]).0,
        forall|b: int, c: int|
            0 <= b < c < batches@.len() ==> (#[trigger] batches@[b]).client_index < (
            #[trigger] batches@[c]).client_index,
        forall|b: int|
            0 <= b < batches@.len() ==> {
                let batch = #[trigger] batches@[b];
                &&& batch.outputs.engine_index == engine_index
                &&& batch.outputs@.outputs.len() > 0
                &&& batch.outputs@.outputs == tagged@.filter(
                    |entry: (u32, EngineCoreOutput)| entry.0 == batch.client_index,
                ).map_values(|entry: (u32, EngineCoreOutput)| entry.1@)
                &&& batch.outputs@.finished_requests is None ==> forall|o: int|
                    0 <= o < batch.outputs@.outputs.len() ==> (
                    #[trigger] batch.outputs@.outputs[o]).finish_reason is None
                &&& batch.outputs@.finished_requests matches Some(ids) ==> {
                    &&& ascending(ids)
                    &&& forall|id: Seq<char>| #[trigger]
                        ids.contains(id) <==> exists|o: int|
                            0 <= o < batch.outputs@.outputs.len() && (
                            #[trigger] batch.outputs@.outputs[o]).finish_reason is Some
                                && batch.outputs@.outputs[o].request_id == id
                }
            },
{
    let entries = tagged_view(tagged@);
    tagged_outputs_say_what_they_hold(tagged@);
    let views = batches_view(batches@);
    outputs_are_batched_by_client(views, engine_index, entries);
    assert(forall|b: int| 0 <= b < batches@.len() ==> views[b] == (#[trigger] batches@[b])@);
    assert forall|t: int| 0 <= t < tagged@.len() implies exists|b: int|
        0 <= b < batches@.len() && (#[trigger] batches@[b]).client_index == (
        #[trigger] tagged@[t]).0 by {
        let client = tagged@[t].0;
        assert(entries[t].0 == client);
        let b = choose|b: int|
            0 <= b < views.len() && (#[trigger] views[b]).client_index == entries[t].0;
        assert(batches@[b].client_index == client);
    }
    assert forall|b: int, c: int| 0 <= b < c < batches@.len() implies (
    #[trigger] batches@[b]).client_index < (#[trigger] batches@[c]).client_index by {
        assert(views[b].client_index < views[c].client_index);
    }
    assert forall|b: int| 0 <= b < batches@.len() implies {
        let batch = #[trigger] batches@[b];
        &&& batch.outputs.engine_index == engine_index
        &&& batch.outputs@.outputs.len() > 0
        &&& batch.outputs@.outputs == tagged@.filter(
            |entry: (u32, EngineCoreOutput)| entry.0 == batch.client_index,
        ).map_values(|entry: (u32, EngineCoreOutput)| entry.1@)
        &&& batch.outputs@.finished_requests is None ==> forall|o: int|
            0 <= o < batch.outputs@.outputs.len() ==> (
            #[trigger] batch.outputs@.outputs[o]).finish_reason is None
        &&& batch.outputs@.finished_requests matches Some(ids) ==> {
            &&& ascending(ids)
            &&& forall|id: Seq<char>| #[trigger]
                ids.contains(id) <==> exists|o: int|
                    0 <= o < batch.outputs@.outputs.len() && (
                    #[trigger] batch.outputs@.outputs[o]).finish_reason is Some
                        && batch.outputs@.outputs[o].request_id == id
        }
    } by {
        let batch = batches@[b];
        assert(views[b] == batch@);
        lemma_filter_tagged(tagged@, batch.client_index);
        assert(views[b].outputs.outputs == entries.filter(
            |entry: (u32, OutputView)| entry.0 == views[b].client_index,
        ).map_values(|entry: (u32, OutputView)| entry.1));
    }
}

/// The outputs of a client are the same whether they are picked before or after they are viewed.
proof fn lemma_filter_tagged(tagged: Seq<(u32, EngineCoreOutput)>, client: u32)
    ensures
        tagged_view(tagged).filter(|entry: (u32, OutputView)| entry.0 == client).map_values(
            |entry: (u32, OutputView)| entry.1,
        ) == tagged.filter(|entry: (u32, EngineCoreOutput)| entry.0 == client).map_values(
            |entry: (u32, EngineCoreOutput)| entry.1@,
        ),
    decreases tagged.len(),
{
    reveal(Seq::filter);
    let goes = |entry: (u32, OutputView)| entry.0 == client;
    let says = |entry: (u32, OutputView)| entry.1;
    let picks = |entry: (u32, EngineCoreOutput)| entry.0 == client;
    let shows = |entry: (u32, EngineCoreOutput)| entry.1@;
    tagged_outputs_say_what_they_hold(tagged);
    let entries = tagged_view(tagged);
    if tagged.len() > 0 {
        let front = tagged.drop_last();
        lemma_filter_tagged(front, client);
        tagged_outputs_say_what_they_hold(front);
        assert(entries.drop_last() =~= tagged_view(front));
        if tagged.last().0 == client {
            assert(entries.drop_last().filter(goes).push(entries.last()).map_values(says)
                =~= entries.drop_last().filter(goes).map_values(says).push(entries.last().1));
            assert(front.filter(picks).push(tagged.last()).map_values(shows) =~= front.filter(
                picks,
            ).map_values(shows).push(tagged.last().1@));
        }
    }
    assert(entries.filter(goes).map_values(says) =~= tagged.filter(picks).map_values(shows));
}

/// Counted blocks hold every token, and one less would not.
pub proof fn counting_finds_enough_blocks(
    num_tokens: usize,
    tokens_per_block: usize,
    blocks: usize,
)
    requires
        tokens_per_block > 0,
        call_ensures(block_count, (num_tokens, tokens_per_block), blocks),
    ensures
        blocks >= 1,
        blocks * tokens_per_block >= num_tokens,
        blocks > 1 ==> (blocks - 1) * tokens_per_block < num_tokens,
{
    blocks_hold_every_token(num_tokens as nat, tokens_per_block as nat);
}

/// A prompt's blocks are numbered from zero and hold every token, and one less would not.
pub proof fn a_prompt_gets_the_ids_of_its_blocks(
    plane: NoopDataPlane,
    num_tokens: usize,
    ids: Vec<i64>,
)
    requires
        plane.cfg.tokens_per_block > 0,
        num_tokens <= i64::MAX,
        call_ensures(NoopDataPlane::block_ids, (&plane, num_tokens), ids),
    ensures
        ids@.len() >= 1,
        ids@.len() * plane.cfg.tokens_per_block >= num_tokens,
        ids@.len() > 1 ==> (ids@.len() - 1) * plane.cfg.tokens_per_block < num_tokens,
        forall|i: int| 0 <= i < ids@.len() ==> #[trigger] ids@[i] == i,
{
    let room = plane.cfg.tokens_per_block as nat;
    let tokens = num_tokens as nat;
    let blocks = blocks_for(tokens, room);
    blocks_hold_every_token(tokens, room);
    block_ids_count_up(blocks);
    assert(blocks <= i64::MAX) by (nonlinear_arith)
        requires
            blocks <= 1 || (blocks - 1) * room < tokens,
            room > 0,
            tokens <= i64::MAX,
    ;
}

/// Listed ids count up from zero, one for each block.
pub proof fn listing_counts_up(blocks: usize, ids: Vec<i64>)
    requires
        blocks <= i64::MAX,
        call_ensures(block_id_list, (blocks,), ids),
    ensures
        ids@.len() == blocks,
        forall|i: int| 0 <= i < ids@.len() ==> #[trigger] ids@[i] == i,
{
    block_ids_count_up(blocks as nat);
}

/// A fill byte follows every byte of the id.
pub proof fn filling_follows_the_whole_id(request_id: &str, pattern: u8)
    requires
        call_ensures(pattern_for, (request_id,), pattern),
    ensures
        ({
            let sum = (165 + byte_sum(encode_utf8(request_id@))) % 256;
            pattern == (if sum % 2 == 0 {
                sum + 1
            } else {
                sum
            })
        }),
{
    a_fill_byte_follows_the_whole_id(request_id@);
}

/// A read is good exactly where every byte of the buffer arrived and each is the fill byte; one
/// that is not names the first byte that differs, if any of those that arrived does.
pub proof fn a_read_is_judged_by_every_byte(
    buffer: StagedKv,
    landed: &[u8],
    moved: Result<u64, DataPlaneError>,
)
    requires
        call_ensures(finish_read, (&buffer, landed), moved),
    ensures
        ({
            let whole = buffer.len > 0 && landed@.len() == buffer.len && forall|i: int|
                0 <= i < landed@.len() ==> #[trigger] landed@[i] == buffer.pattern;
            &&& whole ==> moved == Ok::<u64, DataPlaneError>(buffer.len)
            &&& !whole ==> moved is Err
        }),
        moved matches Err(error) ==> {
            &&& error matches DataPlaneError::VerifyFailed { expected, got }
            &&& expected == buffer.pattern
            &&& got is None ==> forall|i: int|
                0 <= i < landed@.len() ==> #[trigger] landed@[i] == buffer.pattern
            &&& got matches Some(byte) ==> exists|k: int|
                0 <= k < landed@.len() && #[trigger] landed@[k] == byte && byte != buffer.pattern
                    && forall|i: int| 0 <= i < k ==> #[trigger] landed@[i] == buffer.pattern
        },
{
    the_first_wrong_byte_is_named(landed@, buffer.pattern);
}

/// A utility call is always answered, under its call id and with its method's result.
pub proof fn a_utility_call_always_succeeds(
    engine_index: u32,
    request: EngineCoreUtilityRequest,
    outputs: Result<EngineCoreOutputs, UtilityError>,
)
    requires
        call_ensures(utility_response, (engine_index, request), outputs),
    ensures
        outputs is Ok,
        outputs->Ok_0.engine_index == engine_index,
        outputs->Ok_0.outputs@.len() == 0,
        outputs->Ok_0.finished_requests is None,
        outputs->Ok_0.utility_output is Some,
        ({
            let answer = outputs->Ok_0@.utility_output->0;
            let method = request.method_name@;
            &&& answer.call_id == request.call_id
            &&& answer.failure_message is None
            &&& method == "get_supported_tasks"@ ==> answer.result == Some(
                seq![0x91u8, 0xa8, 0x67, 0x65, 0x6e, 0x65, 0x72, 0x61, 0x74, 0x65],
            )
            &&& method == "is_sleeping"@ ==> answer.result == Some(seq![0xc2u8])
            &&& method == "reset_prefix_cache"@ ==> answer.result == Some(seq![0xc3u8])
            &&& method != "get_supported_tasks"@ && method != "is_sleeping"@ && method
                != "reset_prefix_cache"@ ==> answer.result == Some(seq![0xc0u8])
        }),
{
    each_method_has_its_answer(engine_index, request);
    let answered = outputs->Ok_0;
    assert(answered@.outputs.len() == answered.outputs@.len());
}

/// A step emits a chunk of tokens, or what is left where that is less, and ends the request for its
/// length exactly when it reaches its limit. The tokens are the next ones of the request's
/// generator below the vocabulary size; nothing but the number generated and the generator changes.
pub proof fn stepping_goes_to_the_limit(opt: Opt)
    ensures
        forall|request: &mut ActiveRequest, output: EngineCoreOutput|
            (*request).generated <= (*request).max_tokens && #[trigger] call_ensures(
                ActiveRequest::step,
                (request, &opt),
                output,
            ) ==> {
                let left = (*request).max_tokens - (*request).generated;
                let count = output.new_token_ids@.len();
                &&& count == if left < opt.output_token_chunk_size {
                    left
                } else {
                    opt.output_token_chunk_size as int
                }
                &&& output.request_id@ == (*request).request_id@
                &&& output.kv_transfer_params is None
                &&& output.finish_reason == (if left <= opt.output_token_chunk_size {
                    Some(EngineCoreFinishReason::Length)
                } else {
                    None
                })
                &&& forall|i: int|
                    0 <= i < count ==> #[trigger] output.new_token_ids@[i] == upcoming_token(
                        (*request).rng,
                        Seq::new(i as nat, |j: int| opt.vocab_size),
                        opt.vocab_size,
                    )
                &&& (*final(request)).generated == (*request).generated + count
                &&& (*final(request)).max_tokens == (*request).max_tokens
                &&& (*final(request)).request_id@ == (*request).request_id@
                &&& (*final(request)).client_index == (*request).client_index
                &&& (*final(request)).prompt_len == (*request).prompt_len
                &&& forall|earlier: Seq<u32>, bound: u32| #[trigger]
                    upcoming_token((*final(request)).rng, earlier, bound) == upcoming_token(
                        (*request).rng,
                        Seq::new(count, |j: int| opt.vocab_size) + earlier,
                        bound,
                    )
            },
{
    let chunk_size = opt.output_token_chunk_size as nat;
    assert forall|request: &mut ActiveRequest, output: EngineCoreOutput|
        (*request).generated <= (*request).max_tokens && #[trigger] call_ensures(
            ActiveRequest::step,
            (request, &opt),
            output,
        ) implies {
        let left = (*request).max_tokens - (*request).generated;
        let count = output.new_token_ids@.len();
        &&& count == if left < opt.output_token_chunk_size {
            left
        } else {
            opt.output_token_chunk_size as int
        }
        &&& output.request_id@ == (*request).request_id@
        &&& output.kv_transfer_params is None
        &&& output.finish_reason == (if left <= opt.output_token_chunk_size {
            Some(EngineCoreFinishReason::Length)
        } else {
            None
        })
        &&& forall|i: int|
            0 <= i < count ==> #[trigger] output.new_token_ids@[i] == upcoming_token(
                (*request).rng,
                Seq::new(i as nat, |j: int| opt.vocab_size),
                opt.vocab_size,
            )
        &&& (*final(request)).generated == (*request).generated + count
        &&& (*final(request)).max_tokens == (*request).max_tokens
        &&& (*final(request)).request_id@ == (*request).request_id@
        &&& (*final(request)).client_index == (*request).client_index
        &&& (*final(request)).prompt_len == (*request).prompt_len
        &&& forall|earlier: Seq<u32>, bound: u32| #[trigger]
            upcoming_token((*final(request)).rng, earlier, bound) == upcoming_token(
                (*request).rng,
                Seq::new(count, |j: int| opt.vocab_size) + earlier,
                bound,
            )
    } by {
        let before = (*request).model();
        let after = (*final(request)).model();
        let count = output.new_token_ids@.len();
        a_request_is_what_its_fields_say(*request);
        a_request_is_what_its_fields_say(*final(request));
        a_step_emits_the_next_chunk(before, chunk_size, opt.vocab_size);
        assert(output@.new_token_ids == output.new_token_ids@);
        assert forall|i: int| 0 <= i < count implies #[trigger] output.new_token_ids@[i]
            == upcoming_token(
            (*request).rng,
            Seq::new(i as nat, |j: int| opt.vocab_size),
            opt.vocab_size,
        ) by {
            assert(output@.new_token_ids[i] == (before.upcoming)(
                Seq::new(i as nat, |j: int| opt.vocab_size),
                opt.vocab_size,
            ));
        }
        assert forall|earlier: Seq<u32>, bound: u32| #[trigger]
            upcoming_token((*final(request)).rng, earlier, bound) == upcoming_token(
            (*request).rng,
            Seq::new(count, |j: int| opt.vocab_size) + earlier,
            bound,
        ) by {
            assert((after.upcoming)(earlier, bound) == (before.upcoming)(
                Seq::new(count, |j: int| opt.vocab_size) + earlier,
                bound,
            ));
        }
    }
}

/// A fresh source serves the longest prefix that any of its records shares with a chain: with `d`
/// the deepest place whose hash stands anywhere in the block hashes of a record with gaps, the
/// schedule is that of the earliest such record, and that record alone becomes consumed.
pub proof fn matching_serves_the_longest_prefix<
    H: Fn(&[u32], usize) -> Option<Vec<u64>> + Send,
>(
    records: Vec<TraceRecord>,
    block_size: usize,
    block_hashes: H,
    source: PrefixSteps<H>,
    chain: Vec<u64>,
    d: int,
    holder: int,
)
    requires
        call_ensures(PrefixSteps::<H>::from_records, (records, block_size, block_hashes), source),
        0 <= d < chain@.len(),
        0 <= holder < records@.len(),
        records@[holder].itl_ms is Some,
        records@[holder].block_hashes is Some,
        records@[holder].block_hashes->0@.contains(chain@[d]),
        forall|i: int, e: int|
            0 <= i < records@.len() && d < e < chain@.len() && (#[trigger] records@[i]).itl_ms
                is Some && records@[i].block_hashes is Some
                ==> !records@[i].block_hashes->0@.contains(#[trigger] chain@[e]),
        forall|i: int|
            0 <= i < holder && (#[trigger] records@[i]).itl_ms is Some && records@[i].block_hashes
                is Some ==> !records@[i].block_hashes->0@.contains(chain@[d]),
    ensures
        source.records@ == records@,
        forall|i: int| 0 <= i < records@.len() ==> !#[trigger] source.consumed@[i],
        forall|used: &mut PrefixSteps<H>, schedule: Option<ScriptedDecode>|
            *used == source && #[trigger] call_ensures(
                PrefixSteps::<H>::take_matching,
                (used, &chain),
                schedule,
            ) ==> {
                &&& is_schedule_of(records@[holder], schedule)
                &&& (*final(used)).consumed@ == source.consumed@.update(holder, true)
                &&& (*final(used)).records == source.records
            },
{
    assert forall|used: &mut PrefixSteps<H>, schedule: Option<ScriptedDecode>|
        *used == source && #[trigger] call_ensures(
            PrefixSteps::<H>::take_matching,
            (used, &chain),
            schedule,
        ) implies {
        &&& is_schedule_of(records@[holder], schedule)
        &&& (*final(used)).consumed@ == source.consumed@.update(holder, true)
        &&& (*final(used)).records == source.records
    } by {
        let after = (*final(used)).consumed@;
        the_longest_prefix_match_is_served(
            records@,
            source.consumed@,
            chain@,
            schedule,
            after,
            d,
            holder,
        );
        let idx = choose|idx: int|
            {
                &&& 0 <= idx < records@.len()
                &&& (#[trigger] records@[idx]).itl_ms is Some
                &&& records@[idx].block_hashes is Some
                &&& records@[idx].block_hashes->0@.contains(chain@[d])
                &&& is_schedule_of(records@[idx], schedule)
                &&& after == source.consumed@.update(idx, true)
                &&& forall|i: int|
                    0 <= i < idx && (#[trigger] records@[i]).itl_ms is Some
                        && records@[i].block_hashes is Some
                        && records@[i].block_hashes->0@.contains(chain@[d])
                        ==> source.consumed@[i] && !source.consumed@[idx]
            };
        assert(!source.consumed@[holder]);
        assert(idx == holder);
    }
}

/// A live request's prompt is hashed in the source's block size, and its records are matched by the
/// chain that comes out, or by nothing where none does.
pub proof fn a_live_request_is_matched_by_its_prompt<
    H: Fn(&[u32], usize) -> Option<Vec<u64>> + Send,
>(request_id: &str, prompt: &[u32])
    ensures
        forall|source: &mut PrefixSteps<H>, schedule: Option<ScriptedDecode>| #[trigger]
            call_ensures(
                <PrefixSteps<H> as StepSource>::take_schedule,
                (source, request_id, prompt),
                schedule,
            ) ==> (*source).takes(request_id@, prompt@, schedule, *final(source)),
{
}

/// A request that comes in is refused or joins the active requests as it was sent, with the
/// client's own token limit.
pub proof fn an_engine_takes_a_request_as_it_was_sent<D: KvDataPlane>(
    input: EngineInput,
    request: EngineCoreRequest,
)
    requires
        input matches EngineInput::Request(boxed) && *boxed == request,
    ensures
        forall|engine: &mut Engine<D>, reply: Result<Vec<EngineOutput>, UtilityError>|
            (*engine).wf() && #[trigger] call_ensures(
                Engine::<D>::handle_input,
                (engine, input),
                reply,
            ) ==> {
                let held = (*engine).active_requests@;
                let now = (*final(engine)).active_requests@;
                let taken = exists|i: int|
                    0 <= i < held.len() && (#[trigger] held[i]).request_id@ == request.request_id@;
                let params = request.sampling_params;
                let refused = taken || params is None || params->0.max_tokens == 0;
                &&& reply is Ok
                &&& refused ==> now.len() == held.len() && reply->Ok_0@.len() == 1
                    && reply->Ok_0@[0].client_index == request.client_index
                &&& !refused ==> {
                    &&& reply->Ok_0@.len() == 0
                    &&& now.len() == held.len() + 1
                    &&& now.last().max_tokens == params->0.max_tokens
                    &&& now.last().generated == 0
                    &&& now.last().request_id@ == request.request_id@
                    &&& now.last().client_index == request.client_index
                }
            },
{
    assert forall|engine: &mut Engine<D>, reply: Result<Vec<EngineOutput>, UtilityError>|
        (*engine).wf() && #[trigger] call_ensures(
            Engine::<D>::handle_input,
            (engine, input),
            reply,
        ) implies {
        let held = (*engine).active_requests@;
        let now = (*final(engine)).active_requests@;
        let taken = exists|i: int|
            0 <= i < held.len() && (#[trigger] held[i]).request_id@ == request.request_id@;
        let params = request.sampling_params;
        let refused = taken || params is None || params->0.max_tokens == 0;
        &&& reply is Ok
        &&& refused ==> now.len() == held.len() && reply->Ok_0@.len() == 1
            && reply->Ok_0@[0].client_index == request.client_index
        &&& !refused ==> {
            &&& reply->Ok_0@.len() == 0
            &&& now.len() == held.len() + 1
            &&& now.last().max_tokens == params->0.max_tokens
            &&& now.last().generated == 0
            &&& now.last().request_id@ == request.request_id@
            &&& now.last().client_index == request.client_index
        }
    } by {
        let before = *engine;
        let after = *final(engine);
        let held = before.active_requests@;
        let now = after.active_requests@;
        let outputs = batches_view(reply->Ok_0@);
        a_request_is_taken_or_refused(before, request, outputs, after, input);
        an_engine_holds_its_requests(before);
        an_engine_holds_its_requests(after);
        assert(outputs.len() == reply->Ok_0@.len());
        let active = before.active();
        if exists|i: int|
            0 <= i < held.len() && (#[trigger] held[i]).request_id@ == request.request_id@ {
            let i = choose|i: int|
                0 <= i < held.len() && (#[trigger] held[i]).request_id@ == request.request_id@;
            assert(active[i].request_id == request.request_id@);
        }
        if exists|i: int|
            0 <= i < active.len() && (#[trigger] active[i]).request_id == request.request_id@ {
            let i = choose|i: int|
                0 <= i < active.len() && (#[trigger] active[i]).request_id
                    == request.request_id@;
            assert(held[i].request_id@ == request.request_id@);
        }
        if outputs.len() == 1 {
            assert(outputs[0] == reply->Ok_0@[0]@);
        }
        if now.len() == held.len() + 1 {
            assert(after.active().last() == now.last().model());
        }
    }
}

/// The engine answers a message, takes a step and turns about an event as its laws say.
pub proof fn an_engine_does_what_its_laws_say<D: KvDataPlane>(
    input: EngineInput,
    event: LoopEvent,
)
    ensures
        forall|engine: &mut Engine<D>, reply: Result<Vec<EngineOutput>, UtilityError>| #[trigger]
            call_ensures(Engine::<D>::handle_input, (engine, input), reply) ==> reply is Ok
                && (*engine).handles(input, batches_view(reply->Ok_0@), *final(engine))
                && (*final(engine)).same_setup(*engine) && (*final(engine)).wf(),
        forall|engine: &mut Engine<D>, outputs: Vec<EngineOutput>| #[trigger]
            call_ensures(Engine::<D>::step, (engine,), outputs) ==> (*engine).steps(
                batches_view(outputs@),
                *final(engine),
            ) && (*final(engine)).same_setup(*engine) && (*final(engine)).wf(),
        forall|engine: &mut Engine<D>, action: LoopAction| #[trigger]
            call_ensures(Engine::<D>::turn, (engine, event), action) ==> (*engine).turns(
                event,
                action,
                *final(engine),
            ) && (*final(engine)).same_setup(*engine) && (*final(engine)).wf(),
{
}

/// What is staged for a request is what a pull by the engine's own addressing reads, once, and what
/// is released is gone; other requests' buffers stay as they were.
pub proof fn staging_is_undone_by_a_pull_or_a_release(
    request_id: &str,
    blocks: usize,
    buffer: StagedKv,
    kv: RequestKv<'_>,
    remote: RemoteKv,
    other: Seq<char>,
)
    requires
        other != request_id@,
        kv.request_id@ == request_id@,
    ensures
        forall|ledger: &mut NixlLedger, offered: RemoteKv| #[trigger]
            call_ensures(NixlLedger::stage, (ledger, request_id, blocks, buffer), offered) ==> {
                let now = (*final(ledger)).staged@;
                &&& now.contains_key(request_id@) && now[request_id@] == buffer
                &&& now.contains_key(other) == (*ledger).staged@.contains_key(other)
                &&& now.contains_key(other) ==> now[other] == (*ledger).staged@[other]
                &&& offered.engine_id@ == (*ledger).cfg.engine_id@
                &&& offered.host@ == (*ledger).cfg.side_channel_host@
                &&& offered.port == (*ledger).cfg.side_channel_port
                &&& blocks <= i64::MAX ==> offered.block_ids@.len() == blocks
            },
        forall|ledger: &mut NixlLedger, plan: PullPlan| #[trigger]
            call_ensures(NixlLedger::plan_pull, (ledger, false, kv, &remote), plan) ==> {
                let was = (*ledger).staged@;
                let now = (*final(ledger)).staged@;
                let own = remote.engine_id@ == (*ledger).cfg.engine_id@;
                &&& own && was.contains_key(request_id@) ==> plan == PullPlan::Read(
                    was[request_id@],
                ) && !now.contains_key(request_id@)
                &&& !own || !was.contains_key(request_id@) ==> plan == PullPlan::Nothing && now
                    == was
                &&& now.contains_key(other) == was.contains_key(other)
                &&& now.contains_key(other) ==> now[other] == was[other]
            },
        forall|ledger: &mut NixlLedger, plan: PullPlan| #[trigger]
            call_ensures(NixlLedger::plan_pull, (ledger, true, kv, &remote), plan) ==> plan
                == PullPlan::Nothing && (*final(ledger)).staged@ == (*ledger).staged@,
        forall|ledger: &mut NixlLedger, dropped: bool| #[trigger]
            call_ensures(NixlLedger::release, (ledger, request_id), dropped) ==> {
                let was = (*ledger).staged@;
                let now = (*final(ledger)).staged@;
                &&& dropped == was.contains_key(request_id@)
                &&& !now.contains_key(request_id@)
                &&& now.contains_key(other) == was.contains_key(other)
                &&& now.contains_key(other) ==> now[other] == was[other]
            },
{
    assert forall|ledger: &mut NixlLedger, offered: RemoteKv| #[trigger]
        call_ensures(NixlLedger::stage, (ledger, request_id, blocks, buffer), offered) && blocks
            <= i64::MAX implies offered.block_ids@.len() == blocks by {
        block_ids_count_up(blocks as nat);
        assert(offered@.block_ids == offered.block_ids@);
    }
    assert forall|ledger: &mut NixlLedger, plan: PullPlan| #[trigger]
        call_ensures(NixlLedger::plan_pull, (ledger, false, kv, &remote), plan) implies {
        let was = (*ledger).staged@;
        let now = (*final(ledger)).staged@;
        let own = remote.engine_id@ == (*ledger).cfg.engine_id@;
        &&& own && was.contains_key(request_id@) ==> plan == PullPlan::Read(was[request_id@])
            && !now.contains_key(request_id@)
        &&& !own || !was.contains_key(request_id@) ==> plan == PullPlan::Nothing && now == was
        &&& now.contains_key(other) == was.contains_key(other)
        &&& now.contains_key(other) ==> now[other] == was[other]
    } by {
        a_pull_reads_its_own_buffer_only(
            false,
            (*ledger).cfg.engine_id@,
            (*ledger).staged@,
            request_id@,
            remote@,
            other,
        );
    }
    assert forall|ledger: &mut NixlLedger, plan: PullPlan| #[trigger]
        call_ensures(NixlLedger::plan_pull, (ledger, true, kv, &remote), plan) implies plan
        == PullPlan::Nothing && (*final(ledger)).staged@ == (*ledger).staged@ by {
        a_pull_reads_its_own_buffer_only(
            true,
            (*ledger).cfg.engine_id@,
            (*ledger).staged@,
            request_id@,
            remote@,
            other,
        );
    }
}

/// A written trace splits into its lines again: the meta line with the header's JSON text in it,
/// and one line for each record, as it was given. A record that is appended is one line more.
pub proof fn writing_gives_one_line_each(
    meta_json: &str,
    record_jsons: Vec<String>,
    text: &str,
    lines: Vec<String>,
)
    requires
        call_ensures(split_lines, (text,), lines),
        forall|i: int| 0 <= i < meta_json@.len() ==> #[trigger] meta_json@[i] != '\n',
        forall|i: int|
            0 <= i < record_jsons@.len() ==> is_plain_line((#[trigger] record_jsons@[i])@),
    ensures
        forall|out: &mut String| #[trigger]
            call_ensures(write_trace, (out, meta_json, &record_jsons), ()) && (*out)@.len() == 0
                && (*final(out))@ == text@ ==> {
                &&& lines@.len() == record_jsons@.len() + 1
                &&& lines@[0]@.len() == meta_json@.len() + 9
                &&& lines@[0]@.subrange(8, 8int + meta_json@.len()) == meta_json@
                &&& forall|i: int|
                    0 <= i < record_jsons@.len() ==> lines@[i + 1]@ == (
                    #[trigger] record_jsons@[i])@
            },
        forall|out: &mut String| #[trigger]
            call_ensures(append_record, (out, meta_json), ()) ==> (*final(out))@ == (*out)@
                + meta_json@ + seq!['\n'],
{
    let head = meta_line(meta_json@);
    let all = seq![head] + texts(record_jsons@);
    a_list_says_what_its_strings_say(record_jsons@);
    the_meta_line_wraps_the_header(meta_json@);
    assert(head.take(8)[0] == head[0]);
    assert forall|i: int| 0 <= i < head.len() implies #[trigger] head[i] != '\n' by {
        if i < 8 {
            assert(head.take(8)[i] == head[i]);
        } else if i < 8 + meta_json@.len() {
            assert(head.subrange(8, 8int + meta_json@.len())[i - 8] == head[i]);
        }
    }
    assert forall|i: int| 0 <= i < all.len() implies is_plain_line(#[trigger] all[i]) by {
        if i > 0 {
            assert(all[i] == record_jsons@[i - 1]@);
        }
    }
    framed_lines_split_again(all);
    a_list_says_what_its_strings_say(lines@);
    assert forall|out: &mut String| #[trigger]
        call_ensures(write_trace, (out, meta_json, &record_jsons), ()) && (*out)@.len() == 0
            && (*final(out))@ == text@ implies {
        &&& lines@.len() == record_jsons@.len() + 1
        &&& lines@[0]@.len() == meta_json@.len() + 9
        &&& lines@[0]@.subrange(8, 8int + meta_json@.len()) == meta_json@
        &&& forall|i: int|
            0 <= i < record_jsons@.len() ==> lines@[i + 1]@ == (#[trigger] record_jsons@[i])@
    } by {
        assert((*out)@ + framed(all) =~= framed(all));
        assert(texts(lines@) == all);
        assert(lines@[0]@ == all[0]);
        assert forall|i: int| 0 <= i < record_jsons@.len() implies lines@[i + 1]@ == (
        #[trigger] record_jsons@[i])@ by {
            assert(texts(lines@)[i + 1] == all[i + 1]);
        }
    }
    assert forall|out: &mut String| #[trigger]
        call_ensures(append_record, (out, meta_json), ()) implies (*final(out))@ == (*out)@
        + meta_json@ + seq!['\n'] by {
        assert((*out)@ + meta_json@.push('\n') =~= (*out)@ + meta_json@ + seq!['\n']);
    }
}

/// Setting a freeform field changes what stands under its name and nothing else.
pub proof fn setting_changes_one_field(name: String, json: String, other: Seq<char>)
    requires
        other != name@,
    ensures
        forall|meta: &mut TraceMeta| #[trigger]
            call_ensures(TraceMeta::set_extra, (meta, name, json), ()) ==> {
                let was = (*meta).extra_map();
                let now = (*final(meta)).extra_map();
                &&& now.contains_key(name@) && now[name@] == json@
                &&& now.contains_key(other) == was.contains_key(other)
                &&& now.contains_key(other) ==> now[other] == was[other]
                &&& (*final(meta)).wf()
                &&& (*final(meta)).model == (*meta).model
                &&& (*final(meta)).gpu == (*meta).gpu
                &&& (*final(meta)).tp == (*meta).tp
                &&& (*final(meta)).max_num_seqs == (*meta).max_num_seqs
                &&& (*final(meta)).source == (*meta).source
            },
{
}

/// A request's output holds what it was given and no addressing, and says that the request is
/// finished exactly where it names a reason.
pub proof fn an_output_holds_what_it_was_given(
    request_id: String,
    new_token_ids: Vec<u32>,
    finish_reason: Option<EngineCoreFinishReason>,
    output: EngineCoreOutput,
    finished: bool,
)
    requires
        call_ensures(request_output, (request_id, new_token_ids, finish_reason), output),
        call_ensures(EngineCoreOutput::finished, (&output,), finished),
    ensures
        output.request_id@ == request_id@,
        output.new_token_ids@ == new_token_ids@,
        output.finish_reason == finish_reason,
        output.kv_transfer_params is None,
        finished == finish_reason is Some,
{
    let view = output@;
    assert(view.request_id == output.request_id@);
    assert(view.new_token_ids == output.new_token_ids@);
    assert(view.kv_transfer_params is None);
}

/// The answer to a request that ends at once is one output for its id, without tokens, and the id
/// in the list of those that ended.
pub proof fn an_empty_finish_ends_one_request(
    engine_index: u32,
    request_id: String,
    finish_reason: EngineCoreFinishReason,
    outputs: EngineCoreOutputs,
)
    requires
        call_ensures(empty_finish_outputs, (engine_index, request_id, finish_reason), outputs),
    ensures
        outputs.engine_index == engine_index,
        outputs.outputs@.len() == 1,
        outputs.outputs@[0].request_id@ == request_id@,
        outputs.outputs@[0].new_token_ids@.len() == 0,
        outputs.outputs@[0].finish_reason == Some(finish_reason),
        outputs.outputs@[0].kv_transfer_params is None,
        outputs.finished_requests is Some,
        outputs.finished_requests->0@.len() == 1,
        outputs.finished_requests->0@[0]@ == request_id@,
        outputs.utility_output is None,
{
    let view = outputs@;
    assert(view.outputs.len() == outputs.outputs@.len());
    assert(view.outputs[0] == outputs.outputs@[0]@);
    let ids = outputs.finished_requests->0;
    a_list_says_what_its_strings_say(ids@);
    assert(texts(ids@) == seq![request_id@]);
    assert(texts(ids@)[0] == ids@[0]@);
}

/// An engine starts without requests and as it was set up, has something to advance exactly where a
/// request is active, and advertises where it prefills only.
pub proof fn an_engine_starts_empty<D: KvDataPlane>(
    engine_index: u32,
    opt: Opt,
    role: PdRole,
    data_plane: D,
    engine: Engine<D>,
    held: Engine<D>,
    has: bool,
    advertises: bool,
)
    requires
        call_ensures(Engine::<D>::new, (engine_index, opt, role, data_plane), engine),
        call_ensures(Engine::<D>::has_active, (&held,), has),
        call_ensures(Engine::<D>::advertises, (&held,), advertises),
    ensures
        engine.active_requests@.len() == 0,
        engine.engine_index == engine_index,
        engine.opt == opt,
        engine.role == role,
        engine.data_plane == data_plane,
        has == (held.active_requests@.len() > 0),
        advertises == (held.role == PdRole::Prefill),
{
    an_engine_holds_its_requests(engine);
    an_engine_holds_its_requests(held);
}

/// A request that comes with an addressing is taken or refused as one without, whatever comes of
/// the pull; only a decode engine pulls, and only for an id that is free.
pub proof fn a_pull_does_not_decide_on_a_request<D: KvDataPlane>(
    boxed: Box<EngineCoreRequest>,
    params: Option<RemoteKv>,
)
    ensures
        forall|engine: &mut Engine<D>, outputs: Vec<EngineOutput>| #[trigger]
            call_ensures(Engine::<D>::accept_request, (engine, boxed, params), outputs) ==> {
                let calls = (*engine).data_plane.calls();
                let now = (*final(engine)).data_plane.calls();
                &&& (*engine).pulls(*boxed, params, calls, now)
                &&& ((*final(engine)).active(), batches_view(outputs@))
                    == (*engine).after_request(*boxed)
                &&& (*final(engine)).same_setup(*engine)
            },
{
}

/// Requests carry no addressing yet.
pub proof fn requests_carry_no_addressing(request: EngineCoreRequest, params: Option<RemoteKv>)
    requires
        call_ensures(extract_kv_params, (&request,), params),
    ensures
        params is None,
{
}

/// The no-op plane offers its own addressing for the blocks of the prompt, moves nothing, and keeps
/// its configuration.
pub proof fn the_noop_plane_moves_nothing(kv: RequestKv<'_>, remote: RemoteKv)
    ensures
        forall|plane: &mut NoopDataPlane, reply: Result<RemoteKv, DataPlaneError>|
            (*plane).cfg.tokens_per_block > 0 && kv.num_tokens <= i64::MAX && #[trigger]
            call_ensures(
                <NoopDataPlane as KvDataPlane>::advertise_prefilled,
                (plane, kv),
                reply,
            ) ==> {
                let ids = reply->Ok_0.block_ids@;
                let room = (*plane).cfg.tokens_per_block;
                &&& reply is Ok
                &&& reply->Ok_0.engine_id@ == (*plane).cfg.engine_id@
                &&& reply->Ok_0.host@ == (*plane).cfg.side_channel_host@
                &&& reply->Ok_0.port == (*plane).cfg.side_channel_port
                &&& ids.len() >= 1 && ids.len() * room >= kv.num_tokens
                &&& ids.len() > 1 ==> (ids.len() - 1) * room < kv.num_tokens
                &&& forall|i: int| 0 <= i < ids.len() ==> #[trigger] ids[i] == i
                &&& (*final(plane)).cfg == (*plane).cfg
            },
        forall|plane: &mut NoopDataPlane, reply: Result<u64, DataPlaneError>| #[trigger]
            call_ensures(
                <NoopDataPlane as KvDataPlane>::pull_prefilled,
                (plane, kv, &remote),
                reply,
            ) ==> reply == Ok::<u64, DataPlaneError>(0) && (*final(plane)).cfg == (*plane).cfg,
{
    assert forall|plane: &mut NoopDataPlane, reply: Result<RemoteKv, DataPlaneError>|
        (*plane).cfg.tokens_per_block > 0 && kv.num_tokens <= i64::MAX && #[trigger]
        call_ensures(
            <NoopDataPlane as KvDataPlane>::advertise_prefilled,
            (plane, kv),
            reply,
        ) implies {
        let ids = reply->Ok_0.block_ids@;
        let room = (*plane).cfg.tokens_per_block;
        &&& reply is Ok
        &&& reply->Ok_0.engine_id@ == (*plane).cfg.engine_id@
        &&& reply->Ok_0.host@ == (*plane).cfg.side_channel_host@
        &&& reply->Ok_0.port == (*plane).cfg.side_channel_port
        &&& ids.len() >= 1 && ids.len() * room >= kv.num_tokens
        &&& ids.len() > 1 ==> (ids.len() - 1) * room < kv.num_tokens
        &&& forall|i: int| 0 <= i < ids.len() ==> #[trigger] ids[i] == i
        &&& (*final(plane)).cfg == (*plane).cfg
    } by {
        let offered = advert_view(reply);
        an_answer_says_what_it_holds(reply);
        the_noop_plane_gives_its_own_addressing(
            *plane,
            kv.request_id@,
            kv.num_tokens as nat,
            offered,
            remote@,
            Ok(0),
        );
        assert(reply->Ok_0@.block_ids == reply->Ok_0.block_ids@);
    }
}

/// An engine that hands KV on gets the transfer-backed plane where there is one; every other
/// engine, and one without it, gets the no-op plane with its configuration and nothing answered yet.
pub proof fn a_role_gets_its_plane<P: KvDataPlane>(
    role: PdRole,
    cfg: NixlConfig,
    nixl: Option<P>,
    plane: DataPlane<P>,
    wants: bool,
)
    requires
        call_ensures(make_data_plane::<P>, (role, cfg, nixl), plane),
        call_ensures(wants_nixl, (role,), wants),
    ensures
        wants == (role == PdRole::Prefill || role == PdRole::Decode),
        wants && nixl is Some ==> plane == DataPlane::Nixl(nixl->0),
        !(wants && nixl is Some) ==> {
            &&& plane matches DataPlane::Noop(noop)
            &&& noop.cfg == cfg
            &&& noop.calls().len() == 0
        },
{
}

/// The addressing for some blocks is that of the configuration, with the ids of those blocks.
pub proof fn addressing_follows_the_configuration(cfg: NixlConfig, blocks: usize, remote: RemoteKv)
    requires
        blocks <= i64::MAX,
        call_ensures(NixlConfig::remote_kv, (&cfg, blocks), remote),
    ensures
        remote.engine_id@ == cfg.engine_id@,
        remote.host@ == cfg.side_channel_host@,
        remote.port == cfg.side_channel_port,
        remote.block_ids@.len() == blocks,
        forall|i: int| 0 <= i < blocks ==> #[trigger] remote.block_ids@[i] == i,
{
    an_addressing_names_its_engine(cfg, blocks as nat);
    let view = remote@;
    assert(view.block_ids == remote.block_ids@);
    assert forall|i: int| 0 <= i < blocks implies #[trigger] remote.block_ids@[i] == i by {
        assert(cfg.remote_of(blocks as nat).block_ids[i] == i);
    }
}

/// A plane error reads as its kind has it, with what it holds.
pub proof fn a_plane_error_reads_as_its_kind(error: DataPlaneError, text: String)
    requires
        call_ensures(DataPlaneError::message, (&error,), text),
    ensures
        error matches DataPlaneError::Backend(said) ==> text@ == said@,
        error matches DataPlaneError::TimedOut { remote } ==> text@ == "NIXL READ from "@ + remote@
            + " timed out after 5s"@,
        error matches DataPlaneError::VerifyFailed { expected, got: Some(byte) } ==> text@
            == "KV verify failed: expected 0x"@ + hex_of(seq![expected]) + ", got "@ + ("Some("@
            + decimal_of(byte as nat) + ")"@),
        error matches DataPlaneError::VerifyFailed { expected, got: None } ==> text@
            == "KV verify failed: expected 0x"@ + hex_of(seq![expected]) + ", got "@ + "None"@,
{
    a_plane_error_tells_what_went_wrong(error);
}

/// An advertised request gets whole blocks of the configured size for every token of its prompt,
/// filled with its own byte; without real bindings one block is answered and nothing staged.
pub proof fn planning_sizes_the_buffer(ledger: NixlLedger, kv: RequestKv<'_>, plan: AdvertPlan)
    requires
        ledger.cfg.tokens_per_block > 0,
        ledger.total_bytes(kv.num_tokens as nat) <= usize::MAX,
        call_ensures(NixlLedger::plan_advertise, (&ledger, false, kv), plan),
    ensures
        plan matches AdvertPlan::Stage { blocks, total, pattern } && {
            &&& blocks >= 1
            &&& blocks * ledger.cfg.tokens_per_block >= kv.num_tokens
            &&& blocks > 1 ==> (blocks - 1) * ledger.cfg.tokens_per_block < kv.num_tokens
            &&& total == blocks * ledger.cfg.kv_block_bytes
            &&& pattern == pattern_of(kv.request_id@)
        },
{
    let tokens = kv.num_tokens as nat;
    let room = ledger.cfg.tokens_per_block as nat;
    let needed = ledger.blocks(tokens);
    what_is_staged_holds_the_prompt(ledger, tokens);
    assert(needed <= 1 || needed <= tokens) by (nonlinear_arith)
        requires
            needed <= 1 || (needed - 1) * room < tokens,
            room > 0,
    ;
}

/// Without real bindings one block is answered and nothing staged; a new ledger has nothing staged.
pub proof fn a_stub_answers_with_one_block(
    ledger: NixlLedger,
    kv: RequestKv<'_>,
    plan: AdvertPlan,
    cfg: NixlConfig,
    fresh: NixlLedger,
)
    requires
        call_ensures(NixlLedger::plan_advertise, (&ledger, true, kv), plan),
        call_ensures(NixlLedger::new, (cfg,), fresh),
    ensures
        plan matches AdvertPlan::Reply(remote) && {
            &&& remote.engine_id@ == ledger.cfg.engine_id@
            &&& remote.host@ == ledger.cfg.side_channel_host@
            &&& remote.port == ledger.cfg.side_channel_port
            &&& remote.block_ids@ == seq![0i64]
        },
        fresh.cfg == cfg,
        forall|id: Seq<char>| !#[trigger] fresh.staged@.contains_key(id),
{
    an_addressing_names_its_engine(ledger.cfg, 1);
    if let AdvertPlan::Reply(remote) = plan {
        let view = remote@;
        assert(view.block_ids == remote.block_ids@);
        assert(ledger.cfg.remote_of(1).block_ids[0] == 0);
        assert(remote.block_ids@ =~= seq![0i64]);
    }
}

/// A transfer is done once it reports so, given up after five seconds, and looked at again until
/// then.
pub proof fn polling_ends_after_five_seconds(complete: bool, elapsed_nanos: u128, poll: ReadPoll)
    requires
        call_ensures(poll_read, (complete, elapsed_nanos), poll),
    ensures
        poll is Done <==> complete,
        poll is TimedOut <==> !complete && elapsed_nanos > 5_000_000_000,
{
}

/// A gap below zero, or one that is no number, is no time at all, and any other is kept.
pub proof fn flooring_keeps_what_is_not_below_zero(gap: Millis, floor: Millis)
    requires
        call_ensures(floor_gap, (gap,), floor),
    ensures
        gap.bits <= 0x7ff0_0000_0000_0000 ==> floor == gap,
        gap.bits > 0x7ff0_0000_0000_0000 ==> floor.bits == 0,
{
}

/// A source over numbered records holds them as they are; the request named `<name>-<n>` takes the
/// schedule of record `n`, or none where there is no such record, and the source stays as it is.
pub proof fn a_numbered_source_serves_by_number(
    records: Vec<TraceRecord>,
    source: IndexSteps,
    request_id: &str,
    prompt: &[u32],
    name: Seq<char>,
    n: nat,
)
    requires
        call_ensures(IndexSteps::from_records, (records,), source),
        request_id@ == name + seq!['-'] + decimal_of(n),
    ensures
        source.records@ == records@,
        forall|used: &mut IndexSteps, schedule: Option<ScriptedDecode>|
            *used == source && #[trigger] call_ensures(
                <IndexSteps as StepSource>::take_schedule,
                (used, request_id, prompt),
                schedule,
            ) ==> {
                &&& *final(used) == source
                &&& n < records@.len() ==> is_schedule_of(records@[n as int], schedule)
                &&& n >= records@.len() ==> schedule is None
            },
{
    assert forall|used: &mut IndexSteps, schedule: Option<ScriptedDecode>|
        *used == source && #[trigger] call_ensures(
            <IndexSteps as StepSource>::take_schedule,
            (used, request_id, prompt),
            schedule,
        ) implies {
        &&& *final(used) == source
        &&& n < records@.len() ==> is_schedule_of(records@[n as int], schedule)
        &&& n >= records@.len() ==> schedule is None
    } by {
        a_numbered_request_takes_its_record(source, name, n, prompt@, schedule, *final(used));
    }
}

/// A source knows the budget that its records show: one less than the widest listed chunk, and none
/// where no chunk is wider than one token.
pub proof fn a_source_tells_its_records_budget(
    records: Vec<TraceRecord>,
    source: IndexSteps,
    budget: Option<u32>,
)
    requires
        call_ensures(IndexSteps::from_records, (records,), source),
        call_ensures(<IndexSteps as StepSource>::spec_tokens, (&source,), budget),
    ensures
        forall|i: int, j: int|
            0 <= i < records@.len() && records@[i].itl_tokens is Some && 0 <= j
                < records@[i].itl_tokens->0@.len() ==> #[trigger] records@[i].itl_tokens->0@[j] <= (
            match budget {
                Some(k) => k as int + 1,
                None => 1,
            }),
        budget matches Some(k) ==> k >= 1 && exists|i: int, j: int|
            0 <= i < records@.len() && records@[i].itl_tokens is Some && 0 <= j
                < records@[i].itl_tokens->0@.len() && #[trigger] records@[i].itl_tokens->0@[j]
                == k + 1,
{
    the_budget_is_the_widest_chunk_less_one(records@, budget);
}

/// A prefix source knows the budget that its records show, too.
pub proof fn a_prefix_source_tells_its_records_budget<
    H: Fn(&[u32], usize) -> Option<Vec<u64>> + Send,
>(
    records: Vec<TraceRecord>,
    block_size: usize,
    block_hashes: H,
    source: PrefixSteps<H>,
    budget: Option<u32>,
)
    requires
        call_ensures(PrefixSteps::<H>::from_records, (records, block_size, block_hashes), source),
        call_ensures(<PrefixSteps<H> as StepSource>::spec_tokens, (&source,), budget),
    ensures
        source.block_size == block_size,
        source.block_hashes == block_hashes,
        forall|i: int, j: int|
            0 <= i < records@.len() && records@[i].itl_tokens is Some && 0 <= j
                < records@[i].itl_tokens->0@.len() ==> #[trigger] records@[i].itl_tokens->0@[j] <= (
            match budget {
                Some(k) => k as int + 1,
                None => 1,
            }),
        budget matches Some(k) ==> k >= 1 && exists|i: int, j: int|
            0 <= i < records@.len() && records@[i].itl_tokens is Some && 0 <= j
                < records@[i].itl_tokens->0@.len() && #[trigger] records@[i].itl_tokens->0@[j]
                == k + 1,
{
    the_budget_is_the_widest_chunk_less_one(records@, budget);
}

/// The options reach the two configurations whole, each under its own name; both have the block
/// size.
pub proof fn options_reach_both_configurations(
    options: TapOptions,
    configs: (TapMetaConfig, TapConfig),
)
    requires
        call_ensures(TapOptions::into_configs, (options,), configs),
    ensures
        configs.0.model == options.model,
        configs.0.gpu == options.gpu,
        configs.0.tp == options.tp,
        configs.0.max_num_seqs == options.max_num_seqs,
        configs.0.block_size == options.block_size,
        configs.0.config_hash == options.config_hash,
        configs.0.vllm_tag == options.vllm_version,
        configs.0.engine_config == options.engine_config,
        configs.1.frontend_handshake == options.frontend_handshake,
        configs.1.engine_handshake == options.engine_handshake,
        configs.1.input_address == options.input_address,
        configs.1.output_address == options.output_address,
        configs.1.block_size == options.block_size,
        configs.1.record_tokens == options.record_tokens,
{
}

/// A run begins before its first step, performs the next of its steps until one other than the tap
/// fails or none is left, and then ends with what went wrong, if anything did.
pub proof fn a_run_performs_its_steps_in_order(
    with_stats: bool,
    fresh: TapRun,
    run: TapRun,
    next: TapNext,
    ok: bool,
)
    requires
        call_ensures(TapRun::new, (with_stats,), fresh),
        run.done <= steps_of(run.with_stats).len(),
        call_ensures(TapRun::next, (&run,), next),
    ensures
        fresh.with_stats == with_stats,
        fresh.done == 0,
        !fresh.tap_failed,
        fresh.failed is None,
        run.failed is Some ==> next == TapNext::End(run.failed),
        run.failed is None && run.done < steps_of(run.with_stats).len() ==> next
            == TapNext::Perform(steps_of(run.with_stats)[run.done as int]),
        run.failed is None && run.done == steps_of(run.with_stats).len() ==> next == TapNext::End(
            if run.tap_failed {
                Some(TapStep::RunTap)
            } else {
                None
            },
        ),
        forall|going: &mut TapRun|
            *going == run && #[trigger] call_ensures(TapRun::advance, (going, ok), ()) ==> {
                let now = *final(going);
                &&& now.with_stats == run.with_stats
                &&& next is End ==> now == run
                &&& next matches TapNext::Perform(step) ==> if ok || step == TapStep::RunTap {
                    &&& now.done == run.done + 1
                    &&& now.failed is None
                    &&& now.tap_failed == (run.tap_failed || !ok)
                } else {
                    &&& now.done == run.done
                    &&& now.failed == Some(step)
                    &&& now.tap_failed == run.tap_failed
                }
            },
{
    a_run_goes_on_until_it_fails_or_is_done(run, ok);
}

/// Texts are taken apart and put together character by character, compared whole, and numbers are
/// appended in digits.
pub proof fn texts_are_handled_whole(
    text: &str,
    chars: Vec<char>,
    from: usize,
    to: usize,
    part: String,
    other: &str,
    same: bool,
    c: char,
    white: bool,
    n: usize,
)
    requires
        call_ensures(chars_of, (text,), chars),
        from <= to <= chars@.len(),
        call_ensures(string_of, (&chars, from, to), part),
        call_ensures(same_text, (text, other), same),
        call_ensures(white_space, (c,), white),
    ensures
        chars@ == text@,
        part@ == text@.subrange(from as int, to as int),
        same <==> text@ == other@,
        white == is_white_space(c),
        forall|out: &mut String| #[trigger]
            call_ensures(append_decimal, (out, n), ()) ==> (*final(out))@ == (*out)@ + decimal_of(
                n as nat,
            ),
{
}

/// A text joins an ascending list in its place, once; nothing else joins and nothing leaves.
pub proof fn joining_keeps_a_list_ascending(text: String)
    ensures
        forall|list: &mut Vec<String>|
            ascending(texts((*list)@)) && #[trigger] call_ensures(join_text, (list, text), ())
                ==> {
                let was = texts((*list)@);
                let now = texts((*final(list))@);
                &&& ascending(now)
                &&& forall|other: Seq<char>| #[trigger]
                    now.contains(other) <==> was.contains(other) || other == text@
            },
{
    assert forall|list: &mut Vec<String>|
        ascending(texts((*list)@)) && #[trigger] call_ensures(join_text, (list, text), ()) implies {
        let was = texts((*list)@);
        let now = texts((*final(list))@);
        &&& ascending(now)
        &&& forall|other: Seq<char>| #[trigger]
            now.contains(other) <==> was.contains(other) || other == text@
    } by {
        lemma_joined(texts((*list)@), text@);
    }
}

/// A record that names nothing is empty, and alone in its engine.
pub proof fn a_default_record_is_empty(record: TraceRecord, meta: TraceMeta, concurrency: u64)
    requires
        call_ensures(<TraceRecord as Default>::default, (), record),
        call_ensures(<TraceMeta as Default>::default, (), meta),
        call_ensures(default_concurrency, (), concurrency),
    ensures
        concurrency == 1,
        record.concurrency == 1,
        record.prompt_tokens == 0 && record.cached_tokens == 0 && record.output_tokens == 0,
        record.ttft_ms.bits == 0,
        record.itl_ms is None && record.itl_summary is None && record.arrival_ms is None,
        record.itl_ctx is None && record.itl_tokens is None && record.block_hashes is None,
        meta.model is None && meta.gpu is None && meta.tp is None,
        meta.max_num_seqs is None && meta.source is None && meta.extra@.len() == 0,
{
}

/// Each method gets its reply, and each reply its result on the wire.
pub proof fn a_method_gets_its_reply(
    method: &str,
    reply: UtilityReply,
    envelope: Result<UtilityResultEnvelope, UtilityError>,
)
    requires
        call_ensures(utility_reply, (method,), reply),
        call_ensures(utility_envelope, (reply,), envelope),
    ensures
        envelope is Ok,
        method@ == "get_supported_tasks"@ ==> reply == UtilityReply::Tasks,
        method@ == "is_sleeping"@ ==> reply == UtilityReply::Flag(false),
        method@ == "reset_prefix_cache"@ ==> reply == UtilityReply::Flag(true),
        reply is Done || reply is Unknown ==> msgpack_bytes(envelope->Ok_0.value) == seq![0xc0u8],
        reply == UtilityReply::Flag(true) ==> msgpack_bytes(envelope->Ok_0.value) == seq![0xc3u8],
        reply == UtilityReply::Flag(false) ==> msgpack_bytes(envelope->Ok_0.value) == seq![0xc2u8],
{
    reveal_strlit("get_supported_tasks");
    reveal_strlit("is_sleeping");
    reveal_strlit("reset_prefix_cache");
    assert("is_sleeping"@.len() != "get_supported_tasks"@.len());
    assert("reset_prefix_cache"@.len() != "get_supported_tasks"@.len());
    assert("reset_prefix_cache"@.len() != "is_sleeping"@.len());
}

} // verus!

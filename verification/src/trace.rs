//! JSONL trace schema for recording and replaying engine request latencies.
//!
//! The first line may be `{"meta": {...}}`; every other line is one completed request. This
//! module frames and checks the lines; the JSON text of a line is turned into a record, and
//! back, by the caller.
use crate::text::{
    append_decimal, before, comes_before, decimal_of, is_white_space, lemma_before_total,
    lemma_before_transitive, lemma_line_end, lines_of, same_text, texts, trim, trimmed,
};
use vstd::prelude::*;
use vstd::string::*;

verus! {

/// A number of milliseconds, as the bit pattern of its binary64 value. Records carry such
/// numbers through unchanged.
#[derive(Debug, Clone, Copy)]
pub struct Millis {
    pub bits: u64,
}

/// A bit pattern without its sign.
pub open spec fn magnitude(bits: u64) -> int {
    if bits >= 0x8000_0000_0000_0000 {
        bits - 0x8000_0000_0000_0000
    } else {
        bits as int
    }
}

/// Whether a bit pattern is that of a number, finite or not.
pub open spec fn is_number(bits: u64) -> bool {
    magnitude(bits) <= 0x7ff0_0000_0000_0000
}

/// Whether two times are equal numbers: zero equals zero whatever the signs, and what is no
/// number equals nothing.
pub open spec fn same_number(a: Millis, b: Millis) -> bool {
    &&& is_number(a.bits)
    &&& is_number(b.bits)
    &&& a.bits == b.bits || magnitude(a.bits) == 0 && magnitude(b.bits) == 0
}

impl PartialEq for Millis {
    fn eq(&self, other: &Self) -> (same: bool) {
        let sign: u64 = 0x8000_0000_0000_0000;
        let left: u64 = if self.bits >= sign {
            self.bits - sign
        } else {
            self.bits
        };
        let right: u64 = if other.bits >= sign {
            other.bits - sign
        } else {
            other.bits
        };
        left <= 0x7ff0_0000_0000_0000 && right <= 0x7ff0_0000_0000_0000 && (self.bits == other.bits
            || left == 0 && right == 0)
    }
}

impl vstd::std_specs::cmp::PartialEqSpecImpl for Millis {
    open spec fn obeys_eq_spec() -> bool {
        true
    }

    open spec fn eq_spec(&self, other: &Self) -> bool {
        same_number(*self, *other)
    }
}

/// Metadata header optionally present as the first line of a trace file.
#[derive(Debug, Clone, PartialEq)]
pub struct TraceMeta {
    pub model: Option<String>,
    pub gpu: Option<String>,
    pub tp: Option<u32>,
    pub max_num_seqs: Option<u64>,
    pub source: Option<String>,
    /// Freeform fields not covered above: name and JSON text, in ascending order of name, each
    /// name once.
    pub extra: Vec<(String, String)>,
}

/// What a list of freeform fields says.
pub open spec fn fields_view(extra: Seq<(String, String)>) -> Seq<(Seq<char>, Seq<char>)> {
    extra.map_values(|field: (String, String)| (field.0@, field.1@))
}

/// Whether freeform fields stand in ascending order of name, each name once.
pub open spec fn in_order(fields: Seq<(Seq<char>, Seq<char>)>) -> bool {
    forall|i: int, j: int|
        0 <= i < j < fields.len() ==> before((#[trigger] fields[i]).0, (#[trigger] fields[j]).0)
}

/// The freeform fields by name; of a name that occurs again the last one counts.
pub open spec fn by_name(fields: Seq<(Seq<char>, Seq<char>)>) -> Map<Seq<char>, Seq<char>>
    decreases fields.len(),
{
    if fields.len() == 0 {
        Map::empty()
    } else {
        by_name(fields.drop_last()).insert(fields.last().0, fields.last().1)
    }
}

/// Fields in order are found under their own names, and nothing else is.
proof fn lemma_by_name(fields: Seq<(Seq<char>, Seq<char>)>)
    requires
        in_order(fields),
    ensures
        forall|i: int|
            0 <= i < fields.len() ==> by_name(fields).contains_key((#[trigger] fields[i]).0)
                && by_name(fields)[fields[i].0] == fields[i].1,
        forall|name: Seq<char>| #[trigger]
            by_name(fields).contains_key(name) ==> exists|i: int|
                0 <= i < fields.len() && (#[trigger] fields[i]).0 == name,
    decreases fields.len(),
{
    if fields.len() > 0 {
        let front = fields.drop_last();
        let last = fields.last();
        assert(forall|i: int| 0 <= i < front.len() ==> #[trigger] front[i] == fields[i]);
        lemma_by_name(front);
        assert forall|i: int| 0 <= i < fields.len() implies by_name(fields).contains_key(
            (#[trigger] fields[i]).0,
        ) && by_name(fields)[fields[i].0] == fields[i].1 by {
            if i < front.len() {
                assert(front[i] == fields[i]);
                assert(before(fields[i].0, fields[fields.len() - 1].0));
                lemma_before_total(fields[i].0, last.0);
            }
        }
        assert forall|name: Seq<char>| #[trigger]
            by_name(fields).contains_key(name) implies exists|i: int|
            0 <= i < fields.len() && (#[trigger] fields[i]).0 == name by {
            if name == last.0 {
                assert(fields[fields.len() - 1].0 == name);
            } else {
                assert(by_name(front).contains_key(name));
                let i = choose|i: int| 0 <= i < front.len() && (#[trigger] front[i]).0 == name;
                assert(fields[i].0 == name);
            }
        }
    }
}

/// Freeform fields are a map: in order, they are the same list where they hold the same values
/// under the same names.
pub proof fn fields_in_order_are_a_map(
    a: Seq<(Seq<char>, Seq<char>)>,
    b: Seq<(Seq<char>, Seq<char>)>,
)
    requires
        in_order(a),
        in_order(b),
        by_name(a) == by_name(b),
    ensures
        a == b,
    decreases a.len() + b.len(),
{
    lemma_by_name(a);
    lemma_by_name(b);
    if a.len() == 0 {
        if b.len() > 0 {
            assert(by_name(a).contains_key(b[0].0));
        }
    } else if b.len() == 0 {
        assert(by_name(b).contains_key(a[0].0));
    } else {
        let top = a.last();
        let other = b.last();
        assert(by_name(b).contains_key(a[a.len() - 1].0));
        assert(by_name(a).contains_key(b[b.len() - 1].0));
        lemma_before_total(top.0, other.0);
        let i = choose|i: int| 0 <= i < a.len() && (#[trigger] a[i]).0 == other.0;
        let j = choose|j: int| 0 <= j < b.len() && (#[trigger] b[j]).0 == top.0;
        lemma_before_total(other.0, top.0);
        if i < a.len() - 1 {
            assert(before(a[i].0, a[a.len() - 1].0));
        }
        if j < b.len() - 1 {
            assert(before(b[j].0, b[b.len() - 1].0));
        }
        assert(top.0 == other.0);
        assert(a[a.len() - 1].1 == by_name(a)[top.0]);
        assert(b[b.len() - 1].1 == by_name(b)[top.0]);
        let front = a.drop_last();
        let rest = b.drop_last();
        assert(forall|k: int| 0 <= k < front.len() ==> #[trigger] front[k] == a[k]);
        assert(forall|k: int| 0 <= k < rest.len() ==> #[trigger] rest[k] == b[k]);
        lemma_last_is_new(a);
        lemma_last_is_new(b);
        assert(by_name(front) == by_name(a).remove(top.0));
        assert(by_name(rest) == by_name(b).remove(top.0));
        fields_in_order_are_a_map(front, rest);
        assert(a == front.push(top));
        assert(b == rest.push(other));
    }
}

/// The last name of fields in order is not among the earlier ones.
proof fn lemma_last_is_new(fields: Seq<(Seq<char>, Seq<char>)>)
    requires
        in_order(fields),
        fields.len() > 0,
    ensures
        in_order(fields.drop_last()),
        !by_name(fields.drop_last()).contains_key(fields.last().0),
{
    let front = fields.drop_last();
    assert(forall|k: int| 0 <= k < front.len() ==> #[trigger] front[k] == fields[k]);
    lemma_by_name(front);
    if by_name(front).contains_key(fields.last().0) {
        let k = choose|k: int| 0 <= k < front.len() && (#[trigger] front[k]).0 == fields.last().0;
        assert(before(fields[k].0, fields[fields.len() - 1].0));
        lemma_before_total(fields[k].0, fields.last().0);
    }
}

impl TraceMeta {
    /// Whether the freeform fields are in order.
    pub open spec fn wf(self) -> bool {
        in_order(fields_view(self.extra@))
    }

    /// The freeform fields by name.
    pub open spec fn extra_map(self) -> Map<Seq<char>, Seq<char>> {
        by_name(fields_view(self.extra@))
    }

    /// Sets a freeform field, in place of an earlier one of the same name.
    pub fn set_extra(&mut self, name: String, json: String)
        requires
            old(self).wf(),
        ensures
            final(self).wf(),
            final(self).extra_map() == old(self).extra_map().insert(name@, json@),
            final(self).model == old(self).model,
            final(self).gpu == old(self).gpu,
            final(self).tp == old(self).tp,
            final(self).max_num_seqs == old(self).max_num_seqs,
            final(self).source == old(self).source,
    {
        let ghost was = fields_view(self.extra@);
        let mut at: usize = 0;
        while at < self.extra.len() && comes_before(self.extra[at].0.as_str(), name.as_str())
            invariant
                at <= self.extra@.len(),
                *self == *old(self),
                was == fields_view(self.extra@),
                forall|i: int| 0 <= i < at ==> before((#[trigger] was[i]).0, name@),
            decreases self.extra@.len() - at,
        {
            at = at + 1;
        }
        let found = at < self.extra.len() && same_text(self.extra[at].0.as_str(), name.as_str());
        let ghost field = (name@, json@);
        if found {
            self.extra[at] = (name, json);
            assert(fields_view(self.extra@) == was.update(at as int, field));
        } else {
            self.extra.insert(at, (name, json));
            assert(fields_view(self.extra@) == was.insert(at as int, field));
        }
        proof {
            lemma_set_field(was, at as int, found, field);
        }
    }
}

/// Setting a field where its name belongs keeps the order, and changes the map at that name.
proof fn lemma_set_field(
    was: Seq<(Seq<char>, Seq<char>)>,
    at: int,
    found: bool,
    field: (Seq<char>, Seq<char>),
)
    requires
        in_order(was),
        0 <= at <= was.len(),
        forall|i: int| 0 <= i < at ==> before((#[trigger] was[i]).0, field.0),
        found ==> at < was.len() && was[at].0 == field.0,
        !found && at < was.len() ==> was[at].0 != field.0 && !before(was[at].0, field.0),
    ensures
        ({
            let now = if found {
                was.update(at, field)
            } else {
                was.insert(at, field)
            };
            &&& in_order(now)
            &&& by_name(now) == by_name(was).insert(field.0, field.1)
        }),
{
    let now = if found {
        was.update(at, field)
    } else {
        was.insert(at, field)
    };
    let source = |i: int|
        if found || i < at {
            i
        } else {
            i - 1
        };
    assert forall|i: int| at < i < now.len() implies before(field.0, (#[trigger] now[i]).0) by {
        if found {
            assert(now[i] == was[i]);
            assert(before(was[at].0, was[i].0));
        } else {
            assert(now[i] == was[i - 1]);
            lemma_before_total(was[at].0, field.0);
            if i - 1 > at {
                assert(before(was[at].0, was[i - 1].0));
                lemma_before_transitive(field.0, was[at].0, was[i - 1].0);
            }
        }
    }
    assert forall|i: int, j: int| 0 <= i < j < now.len() implies before(
        (#[trigger] now[i]).0,
        (#[trigger] now[j]).0,
    ) by {
        if i != at && j != at {
            assert(now[i] == was[source(i)]);
            assert(now[j] == was[source(j)]);
        } else if j == at {
            assert(now[i] == was[i]);
        }
    }
    lemma_by_name(was);
    lemma_by_name(now);
    let expected = by_name(was).insert(field.0, field.1);
    assert(now[at] == field);
    assert forall|name: Seq<char>|
        #![trigger by_name(now).dom().contains(name)]
        #![trigger expected.dom().contains(name)]
        #![trigger by_name(now)[name]]
        by_name(now).dom().contains(name) == expected.dom().contains(name) && (by_name(
            now,
        ).dom().contains(name) ==> by_name(now)[name] == expected[name]) by {
        if name == field.0 {
            assert(by_name(now).contains_key(now[at].0));
        } else {
            if by_name(now).contains_key(name) {
                let i = choose|i: int| 0 <= i < now.len() && (#[trigger] now[i]).0 == name;
                assert(now[i] == was[source(i)]);
            }
            if by_name(was).contains_key(name) {
                let i = choose|i: int| 0 <= i < was.len() && (#[trigger] was[i]).0 == name;
                let j = if found || i < at {
                    i
                } else {
                    i + 1
                };
                assert(now[j] == was[i]);
            }
        }
    }
    assert(by_name(now) =~= expected);
}

/// Whether a meta header says nothing.
pub open spec fn is_default_meta(meta: TraceMeta) -> bool {
    &&& meta.model is None
    &&& meta.gpu is None
    &&& meta.tp is None
    &&& meta.max_num_seqs is None
    &&& meta.source is None
    &&& meta.extra@.len() == 0
}

impl Default for TraceMeta {
    fn default() -> (meta: Self)
        ensures
            is_default_meta(meta),
            meta.wf(),
    {
        TraceMeta {
            model: None,
            gpu: None,
            tp: None,
            max_num_seqs: None,
            source: None,
            extra: Vec::new(),
        }
    }
}

/// Summary of inter-token latencies when the full array is not available.
#[derive(Debug, Clone, Copy, PartialEq)]
pub struct ItlSummary {
    pub mean_ms: Millis,
    pub count: usize,
}

/// Per-gap batch context, parallel to `itl_ms`: the engine state under which each gap was
/// measured.
#[derive(Debug, Clone, PartialEq)]
pub struct ItlContext {
    /// Running-request count for the step that closed each gap.
    pub num_running: Vec<u32>,
    /// Prompt tokens that finished prefill in the step that closed each gap.
    pub prefill_tokens: Vec<u32>,
}

/// One completed request's observed latency. At least one of `itl_ms` or `itl_summary` must
/// be present when `output_tokens > 1`.
#[derive(Debug, Clone, PartialEq)]
pub struct TraceRecord {
    pub prompt_tokens: usize,
    pub cached_tokens: usize,
    pub output_tokens: usize,
    pub ttft_ms: Millis,
    pub itl_ms: Option<Vec<Millis>>,
    pub itl_summary: Option<ItlSummary>,
    pub concurrency: u64,
    /// Request arrival time since the start of the capture.
    pub arrival_ms: Option<Millis>,
    /// Per-gap batch context, parallel to `itl_ms` when both are present.
    pub itl_ctx: Option<ItlContext>,
    /// Tokens that each chunk after the first delivered, parallel to `itl_ms`.
    pub itl_tokens: Option<Vec<u32>>,
    /// Hash chain over the prompt's token blocks.
    pub block_hashes: Option<Vec<u64>>,
}

/// The concurrency of a record that names none.
pub fn default_concurrency() -> (concurrency: u64)
    ensures
        concurrency == 1,
{
    1
}

impl Default for TraceRecord {
    fn default() -> (record: Self)
        ensures
            record.prompt_tokens == 0,
            record.cached_tokens == 0,
            record.output_tokens == 0,
            record.ttft_ms.bits == 0,
            record.itl_ms is None,
            record.itl_summary is None,
            record.concurrency == 1,
            record.arrival_ms is None,
            record.itl_ctx is None,
            record.itl_tokens is None,
            record.block_hashes is None,
    {
        TraceRecord {
            prompt_tokens: 0,
            cached_tokens: 0,
            output_tokens: 0,
            ttft_ms: Millis { bits: 0 },
            itl_ms: None,
            itl_summary: None,
            concurrency: default_concurrency(),
            arrival_ms: None,
            itl_ctx: None,
            itl_tokens: None,
            block_hashes: None,
        }
    }
}

/// Why a trace could not be read, and at which line. The cause is the text of the fault that
/// the read or the parse reported.
#[derive(Debug, Clone, PartialEq, Eq)]
pub enum TraceError {
    /// The line could not be read at all.
    ReadFailed { line_num: usize, cause: String },
    /// The first line is no JSON.
    InvalidJson { line_num: usize, cause: String },
    /// The meta line holds no meta header.
    InvalidMeta { line_num: usize, cause: String },
    /// The line holds no record.
    InvalidRecord { line_num: usize, cause: String },
    /// The record has several output tokens and no latencies between them.
    MissingItl { line_num: usize, output_tokens: usize },
    /// The record's context arrays do not line up with its gaps.
    ContextMismatch { line_num: usize, running: usize, prefill: usize, gaps: usize },
}

/// What a [`TraceError`] says.
pub enum TraceFault {
    ReadFailed { line_num: usize, cause: Seq<char> },
    InvalidJson { line_num: usize, cause: Seq<char> },
    InvalidMeta { line_num: usize, cause: Seq<char> },
    InvalidRecord { line_num: usize, cause: Seq<char> },
    MissingItl { line_num: usize, output_tokens: usize },
    ContextMismatch { line_num: usize, running: usize, prefill: usize, gaps: usize },
}

impl View for TraceError {
    type V = TraceFault;

    open spec fn view(&self) -> TraceFault {
        match *self {
            TraceError::ReadFailed { line_num, cause } => TraceFault::ReadFailed {
                line_num,
                cause: cause@,
            },
            TraceError::InvalidJson { line_num, cause } => TraceFault::InvalidJson {
                line_num,
                cause: cause@,
            },
            TraceError::InvalidMeta { line_num, cause } => TraceFault::InvalidMeta {
                line_num,
                cause: cause@,
            },
            TraceError::InvalidRecord { line_num, cause } => TraceFault::InvalidRecord {
                line_num,
                cause: cause@,
            },
            TraceError::MissingItl { line_num, output_tokens } => TraceFault::MissingItl {
                line_num,
                output_tokens,
            },
            TraceError::ContextMismatch { line_num, running, prefill, gaps } =>
                TraceFault::ContextMismatch { line_num, running, prefill, gaps },
        }
    }
}

/// How a fault reads, its cause aside.
pub open spec fn error_text(fault: TraceFault) -> Seq<char> {
    match fault {
        TraceFault::ReadFailed { line_num, .. } => "reading line "@ + decimal_of(line_num as nat),
        TraceFault::InvalidJson { line_num, .. } => "line "@ + decimal_of(line_num as nat)
            + ": invalid JSON"@,
        TraceFault::InvalidMeta { line_num, .. } => "line "@ + decimal_of(line_num as nat)
            + ": invalid meta object"@,
        TraceFault::InvalidRecord { line_num, .. } => "line "@ + decimal_of(line_num as nat)
            + ": invalid trace record"@,
        TraceFault::MissingItl { line_num, output_tokens } => "line "@ + decimal_of(
            line_num as nat,
        ) + ": output_tokens="@ + decimal_of(output_tokens as nat)
            + " but neither itl_ms nor itl_summary is present"@,
        TraceFault::ContextMismatch { line_num, running, prefill, gaps } => "line "@ + decimal_of(
            line_num as nat,
        ) + ": itl_ctx arrays (running="@ + decimal_of(running as nat) + ", prefill="@
            + decimal_of(prefill as nat) + ") must parallel itl_ms (len="@ + decimal_of(
            gaps as nat,
        ) + ")"@,
    }
}

/// The cause of a fault, if it has one.
pub open spec fn cause_text(fault: TraceFault) -> Option<Seq<char>> {
    match fault {
        TraceFault::ReadFailed { cause, .. } => Some(cause),
        TraceFault::InvalidJson { cause, .. } => Some(cause),
        TraceFault::InvalidMeta { cause, .. } => Some(cause),
        TraceFault::InvalidRecord { cause, .. } => Some(cause),
        _ => None,
    }
}

/// How a fault reads with its cause behind it.
pub open spec fn report_text(fault: TraceFault) -> Seq<char> {
    match cause_text(fault) {
        Some(cause) => error_text(fault) + ": "@ + cause,
        None => error_text(fault),
    }
}

impl TraceError {
    /// The error as text, with the number of the line at fault.
    pub fn message(&self) -> (text: String)
        ensures
            text@ == error_text(self@),
    {
        let mut text = String::new();
        match self {
            TraceError::ReadFailed { line_num, .. } => {
                text.append("reading line ");
                append_decimal(&mut text, *line_num);
            },
            TraceError::InvalidJson { line_num, .. } => {
                text.append("line ");
                append_decimal(&mut text, *line_num);
                text.append(": invalid JSON");
            },
            TraceError::InvalidMeta { line_num, .. } => {
                text.append("line ");
                append_decimal(&mut text, *line_num);
                text.append(": invalid meta object");
            },
            TraceError::InvalidRecord { line_num, .. } => {
                text.append("line ");
                append_decimal(&mut text, *line_num);
                text.append(": invalid trace record");
            },
            TraceError::MissingItl { line_num, output_tokens } => {
                text.append("line ");
                append_decimal(&mut text, *line_num);
                text.append(": output_tokens=");
                append_decimal(&mut text, *output_tokens);
                text.append(" but neither itl_ms nor itl_summary is present");
            },
            TraceError::ContextMismatch { line_num, running, prefill, gaps } => {
                text.append("line ");
                append_decimal(&mut text, *line_num);
                text.append(": itl_ctx arrays (running=");
                append_decimal(&mut text, *running);
                text.append(", prefill=");
                append_decimal(&mut text, *prefill);
                text.append(") must parallel itl_ms (len=");
                append_decimal(&mut text, *gaps);
                text.append(")");
            },
        }
        assert(text@ =~= error_text(self@));
        text
    }

    /// The text of the fault behind the error, if there is one.
    pub fn cause(&self) -> (cause: Option<String>)
        ensures
            cause_view(cause) == cause_text(self@),
    {
        match self {
            TraceError::ReadFailed { cause, .. } => Some(cause.clone()),
            TraceError::InvalidJson { cause, .. } => Some(cause.clone()),
            TraceError::InvalidMeta { cause, .. } => Some(cause.clone()),
            TraceError::InvalidRecord { cause, .. } => Some(cause.clone()),
            TraceError::MissingItl { .. } => None,
            TraceError::ContextMismatch { .. } => None,
        }
    }

    /// The error as text with its cause behind it.
    pub fn report(&self) -> (text: String)
        ensures
            text@ == report_text(self@),
    {
        let mut text = self.message();
        if let Some(cause) = self.cause() {
            text.append(": ");
            text.append(cause.as_str());
        }
        text
    }
}

/// What an optional cause says.
pub open spec fn cause_view(cause: Option<String>) -> Option<Seq<char>> {
    match cause {
        Some(text) => Some(text@),
        None => None,
    }
}

/// How many gaps a record lists.
pub open spec fn gap_count(record: TraceRecord) -> nat {
    match record.itl_ms {
        Some(gaps) => gaps@.len(),
        None => 0,
    }
}

/// What is wrong with a record, if anything: it needs latencies when it has more than one
/// output token, and context arrays as long as its gaps.
pub open spec fn record_fault(record: TraceRecord, line_num: usize) -> Option<TraceFault> {
    if record.output_tokens > 1 && record.itl_ms is None && record.itl_summary is None {
        Some(TraceFault::MissingItl { line_num, output_tokens: record.output_tokens })
    } else {
        match record.itl_ctx {
            Some(ctx) if ctx.num_running@.len() != gap_count(record) || ctx.prefill_tokens@.len()
                != gap_count(record) => Some(
                TraceFault::ContextMismatch {
                    line_num,
                    running: ctx.num_running@.len() as usize,
                    prefill: ctx.prefill_tokens@.len() as usize,
                    gaps: gap_count(record) as usize,
                },
            ),
            _ => None,
        }
    }
}

/// Validates that a record has latencies when it has several output tokens, and that any
/// per-gap context arrays line up with the gap array.
pub fn validate_record(record: &TraceRecord, line_num: usize) -> (valid: Result<(), TraceError>)
    ensures
        match (valid, record_fault(*record, line_num)) {
            (Ok(_), None) => true,
            (Err(error), Some(fault)) => error@ == fault,
            _ => false,
        },
        valid is Ok <==> {
            &&& record.output_tokens <= 1 || record.itl_ms is Some || record.itl_summary is Some
            &&& record.itl_ctx matches Some(ctx) ==> {
                let gaps = if record.itl_ms is Some {
                    record.itl_ms->0@.len()
                } else {
                    0
                };
                ctx.num_running@.len() == gaps && ctx.prefill_tokens@.len() == gaps
            }
        },
{
    if record.output_tokens > 1 && record.itl_ms.is_none() && record.itl_summary.is_none() {
        return Err(TraceError::MissingItl { line_num, output_tokens: record.output_tokens });
    }
    if let Some(ctx) = &record.itl_ctx {
        let gaps: usize = match &record.itl_ms {
            Some(gaps) => gaps.len(),
            None => 0,
        };
        if ctx.num_running.len() != gaps || ctx.prefill_tokens.len() != gaps {
            return Err(
                TraceError::ContextMismatch {
                    line_num,
                    running: ctx.num_running.len(),
                    prefill: ctx.prefill_tokens.len(),
                    gaps,
                },
            );
        }
    }
    Ok(())
}

/// A record is valid exactly where it lists gaps or sums them up, unless it has one output token
/// at most, and where any context arrays are as long as its gaps. Nothing else is asked of it:
/// neither how many gaps it lists nor how many tokens they delivered. What is wrong is named with
/// the line and the numbers that do not fit.
pub proof fn a_record_is_valid_by_its_fields(record: TraceRecord, line_num: usize)
    ensures
        record_fault(record, line_num) is None <==> {
            &&& record.output_tokens <= 1 || record.itl_ms is Some || record.itl_summary is Some
            &&& record.itl_ctx matches Some(ctx) ==> {
                let gaps = if record.itl_ms is Some {
                    record.itl_ms->0@.len()
                } else {
                    0
                };
                ctx.num_running@.len() == gaps && ctx.prefill_tokens@.len() == gaps
            }
        },
        record.output_tokens > 1 && record.itl_ms is None && !(record.itl_summary is Some)
            ==> record_fault(record, line_num) == Some(
            TraceFault::MissingItl { line_num, output_tokens: record.output_tokens },
        ),
        record_fault(record, line_num) matches Some(fault) ==> {
            ||| fault is MissingItl && record.output_tokens > 1 && record.itl_ms is None
            ||| record.itl_ctx is Some && fault == TraceFault::ContextMismatch {
                line_num,
                running: record.itl_ctx->0.num_running.len(),
                prefill: record.itl_ctx->0.prefill_tokens.len(),
                gaps: if record.itl_ms is Some {
                    record.itl_ms->0.len()
                } else {
                    0
                },
            }
        },
{
}

/// `serde_json`'s value, carried as an opaque value.
#[verifier::external_type_specification]
#[verifier::external_body]
pub struct ExJsonValue(serde_json::Value);

/// What a JSON value holds at its top level: the keys of an object; any other value holds none.
pub uninterp spec fn json_keys(value: serde_json::Value) -> Set<Seq<char>>;

/// The keys of the JSON value that a text spells; `None` where the text is no JSON.
pub uninterp spec fn text_keys(text: Seq<char>) -> Option<Set<Seq<char>>>;

/// What `serde_json::from_str` says of a text that is no JSON: its error as text.
pub uninterp spec fn text_fault(text: Seq<char>) -> Seq<char>;

/// Calls `serde_json::from_str` for a `serde_json::Value`, with the error turned into its text.
/// The text alone decides whether it is JSON, which top-level keys the value has, and what the
/// error says.
#[verifier::external_body]
pub(crate) fn parse_json(text: &str) -> (value: Result<serde_json::Value, String>)
    ensures
        value is Ok == text_keys(text@) is Some,
        value is Ok ==> json_keys(value->Ok_0) == text_keys(text@)->0,
        value is Err ==> value->Err_0@ == text_fault(text@),
{
    match serde_json::from_str(text) {
        Ok(value) => Ok(value),
        Err(error) => Err(error.to_string()),
    }
}

/// Calls `serde_json::Value::get` with a string key, which finds a value where the JSON value
/// is an object that has the key.
#[verifier::external_body]
pub(crate) fn has_key(value: &serde_json::Value, key: &str) -> (has: bool)
    ensures
        has == json_keys(*value).contains(key@),
{
    value.get(key).is_some()
}

/// The lines that carry something, trimmed, each with its number in the file counted from one.
pub open spec fn numbered(lines: Seq<Seq<char>>) -> Seq<(nat, Seq<char>)>
    decreases lines.len(),
{
    if lines.len() == 0 {
        Seq::empty()
    } else {
        let before = numbered(lines.drop_last());
        let text = trimmed(lines.last());
        if text.len() == 0 {
            before
        } else {
            before.push((lines.len(), text))
        }
    }
}

/// Whether a line is JSON with a top-level `meta` key.
pub open spec fn is_meta_text(text: Seq<char>) -> bool {
    text_keys(text) matches Some(keys) && keys.contains("meta"@)
}

/// Whether the first of the lines is a meta line.
pub open spec fn starts_with_meta(items: Seq<(nat, Seq<char>)>) -> bool {
    items.len() > 0 && is_meta_text(items[0].1)
}

/// The lines that carry records: all but the meta line.
pub open spec fn record_items(items: Seq<(nat, Seq<char>)>) -> Seq<(nat, Seq<char>)> {
    if starts_with_meta(items) {
        items.skip(1)
    } else {
        items
    }
}

/// What the record lines give when their parses gave `replies`: the records, or the first fault
/// among as many lines as there are replies.
pub open spec fn records_outcome(
    items: Seq<(nat, Seq<char>)>,
    replies: Seq<Result<TraceRecord, String>>,
) -> Result<Seq<TraceRecord>, TraceFault>
    decreases replies.len(),
{
    if replies.len() == 0 {
        Ok(Seq::empty())
    } else {
        let line_num = items[replies.len() - 1].0 as usize;
        match records_outcome(items, replies.drop_last()) {
            Err(fault) => Err(fault),
            Ok(records) => match replies.last() {
                Err(cause) => Err(TraceFault::InvalidRecord { line_num, cause: cause@ }),
                Ok(record) => match record_fault(record, line_num) {
                    Some(fault) => Err(fault),
                    None => Ok(records.push(record)),
                },
            },
        }
    }
}

/// What a trace with these lines gives when the parse of its meta line gave `meta` and the
/// parses of its record lines gave `replies`. `failure` says why a further line could not be
/// read, if that is so.
pub open spec fn read_outcome(
    lines: Seq<Seq<char>>,
    failure: Option<Seq<char>>,
    meta: Result<TraceMeta, String>,
    replies: Seq<Result<TraceRecord, String>>,
) -> Result<(Option<TraceMeta>, Seq<TraceRecord>), TraceFault> {
    let items = numbered(lines);
    if items.len() > 0 && text_keys(items[0].1) is None {
        Err(
            TraceFault::InvalidJson {
                line_num: items[0].0 as usize,
                cause: text_fault(items[0].1),
            },
        )
    } else if starts_with_meta(items) && meta is Err {
        Err(TraceFault::InvalidMeta { line_num: items[0].0 as usize, cause: meta->Err_0@ })
    } else {
        match records_outcome(record_items(items), replies) {
            Err(fault) => Err(fault),
            Ok(records) => match failure {
                Some(cause) => Err(
                    TraceFault::ReadFailed { line_num: (lines.len() + 1) as usize, cause },
                ),
                None => Ok(
                    (
                        if starts_with_meta(items) {
                            Some(meta->Ok_0)
                        } else {
                            None
                        },
                        records,
                    ),
                ),
            },
        }
    }
}

/// Whether `parse` answered a text with `reply`.
pub open spec fn replied<T, F: Fn(&str) -> Result<T, String>>(
    parse: F,
    text: Seq<char>,
    reply: Result<T, String>,
) -> bool {
    exists|line: &str| line@ == text && #[trigger] call_ensures(parse, (line,), reply)
}

/// Whether `meta` and `replies` are what the parsers answered: one call for the meta line, if
/// there is one, then one call for each record line in order until one is at fault.
pub open spec fn heard<
    M: Fn(&str) -> Result<TraceMeta, String>,
    F: Fn(&str) -> Result<TraceRecord, String>,
    R: Fn(&str) -> Result<TraceRecord, String>,
>(
    lines: Seq<Seq<char>>,
    parse_meta: M,
    parse_first: F,
    parse_record: R,
    meta: Result<TraceMeta, String>,
    replies: Seq<Result<TraceRecord, String>>,
) -> bool {
    let items = numbered(lines);
    let rows = record_items(items);
    let readable = !(items.len() > 0 && text_keys(items[0].1) is None);
    &&& starts_with_meta(items) ==> replied(parse_meta, items[0].1, meta)
    &&& replies.len() <= rows.len()
    &&& forall|i: int|
        0 <= i < replies.len() ==> {
            let text = rows[i].1;
            if i == 0 && !starts_with_meta(items) {
                replied(parse_first, text, #[trigger] replies[i])
            } else {
                replied(parse_record, text, replies[i])
            }
        }
    &&& replies.len() < rows.len() ==> {
        ||| !readable
        ||| starts_with_meta(items) && meta is Err
        ||| records_outcome(rows, replies) is Err
    }
}

/// Whether a result is what an outcome says.
pub open spec fn yields(
    result: Result<(TraceMeta, Vec<TraceRecord>), TraceError>,
    outcome: Result<(Option<TraceMeta>, Seq<TraceRecord>), TraceFault>,
) -> bool {
    match (result, outcome) {
        (Ok((meta, records)), Ok((header, expected))) => {
            &&& records@ == expected
            &&& header is Some ==> meta == header->0
            &&& header is None ==> is_default_meta(meta)
        },
        (Err(error), Err(expected)) => error@ == expected,
        _ => false,
    }
}

/// Whether reading these lines with these parsers can give `result`: it is the outcome for some
/// answers that the parsers gave.
pub open spec fn reads<
    M: Fn(&str) -> Result<TraceMeta, String>,
    F: Fn(&str) -> Result<TraceRecord, String>,
    R: Fn(&str) -> Result<TraceRecord, String>,
>(
    lines: Seq<Seq<char>>,
    failure: Option<Seq<char>>,
    parse_meta: M,
    parse_first: F,
    parse_record: R,
    result: Result<(TraceMeta, Vec<TraceRecord>), TraceError>,
) -> bool {
    exists|meta: Result<TraceMeta, String>, replies: Seq<Result<TraceRecord, String>>|
        {
            &&& #[trigger] heard(lines, parse_meta, parse_first, parse_record, meta, replies)
            &&& yields(result, read_outcome(lines, failure, meta, replies))
        }
}

/// The lines before `n` come first among the numbered lines, and line `n` next unless it is
/// blank.
proof fn lemma_numbered_at(lines: Seq<Seq<char>>, n: int)
    requires
        0 <= n < lines.len(),
    ensures
        ({
            let done = numbered(lines.take(n)).len() as int;
            let text = trimmed(lines[n]);
            &&& done <= numbered(lines).len()
            &&& text.len() == 0 ==> numbered(lines.take(n + 1)).len() == done
            &&& text.len() > 0 ==> {
                &&& numbered(lines.take(n + 1)).len() == done + 1
                &&& done < numbered(lines).len()
                &&& numbered(lines)[done] == ((n + 1) as nat, text)
            }
        }),
    decreases lines.len(),
{
    assert(lines.take(n + 1).drop_last() == lines.take(n));
    if n == lines.len() - 1 {
        assert(lines.take(n + 1) == lines);
    } else {
        let front = lines.drop_last();
        lemma_numbered_at(front, n);
        assert(front.take(n) == lines.take(n));
        assert(front.take(n + 1) == lines.take(n + 1));
    }
}

/// Reads a trace from its lines. The first line that carries something is checked for a
/// `meta` key; if it has one it is parsed as the meta header, otherwise the whole file is
/// records with a default header. Blank lines are skipped. `read_failure` says why the line after
/// the given ones could not be read, if that is so; the parsers say why a text is not what they
/// parse.
pub fn read_trace<
    M: Fn(&str) -> Result<TraceMeta, String>,
    F: Fn(&str) -> Result<TraceRecord, String>,
    R: Fn(&str) -> Result<TraceRecord, String>,
>(
    lines: &Vec<String>,
    read_failure: Option<String>,
    parse_meta: M,
    parse_first: F,
    parse_record: R,
) -> (result: Result<(TraceMeta, Vec<TraceRecord>), TraceError>)
    requires
        lines@.len() < usize::MAX,
        forall|line: &str| #[trigger] call_requires(parse_meta, (line,)),
        forall|line: &str| #[trigger] call_requires(parse_first, (line,)),
        forall|line: &str| #[trigger] call_requires(parse_record, (line,)),
        forall|line: &str, meta: TraceMeta| #[trigger]
            call_ensures(parse_meta, (line,), Ok::<TraceMeta, String>(meta)) ==> meta.wf(),
    ensures
        reads(
            texts(lines@),
            cause_view(read_failure),
            parse_meta,
            parse_first,
            parse_record,
            result,
        ),
        result is Ok ==> result->Ok_0.0.wf(),
{
    let ghost all = texts(lines@);
    let ghost items = numbered(all);
    let ghost rows = record_items(items);
    let ghost mut heard_meta: Result<TraceMeta, String> = arbitrary();
    let ghost mut replies: Seq<Result<TraceRecord, String>> = Seq::empty();
    let mut meta = TraceMeta::default();
    let mut records: Vec<TraceRecord> = Vec::new();
    let mut started = false;
    let mut with_meta = false;
    let mut at: usize = 0;
    assert(all.take(0) == Seq::<Seq<char>>::empty());
    while at < lines.len()
        invariant
            lines@.len() < usize::MAX,
            forall|line: &str| #[trigger] call_requires(parse_meta, (line,)),
            forall|line: &str| #[trigger] call_requires(parse_first, (line,)),
            forall|line: &str| #[trigger] call_requires(parse_record, (line,)),
            forall|line: &str, header: TraceMeta| #[trigger]
                call_ensures(parse_meta, (line,), Ok::<TraceMeta, String>(header)) ==> header.wf(),
            meta.wf(),
            at <= lines@.len(),
            all == texts(lines@),
            items == numbered(all),
            rows == record_items(items),
            started == (numbered(all.take(at as int)).len() > 0),
            numbered(all.take(at as int)).len() <= items.len(),
            started ==> text_keys(items[0].1) is Some,
            started ==> with_meta == starts_with_meta(items),
            !started ==> !with_meta,
            with_meta ==> heard_meta == Ok::<TraceMeta, String>(meta) && replied(
                parse_meta,
                items[0].1,
                heard_meta,
            ),
            !with_meta ==> is_default_meta(meta),
            replies.len() == numbered(all.take(at as int)).len() - (if with_meta {
                1int
            } else {
                0int
            }),
            forall|i: int|
                0 <= i < replies.len() ==> {
                    let text = rows[i].1;
                    if i == 0 && !starts_with_meta(items) {
                        replied(parse_first, text, #[trigger] replies[i])
                    } else {
                        replied(parse_record, text, replies[i])
                    }
                },
            records_outcome(rows, replies) == Ok::<Seq<TraceRecord>, TraceFault>(records@),
        decreases lines@.len() - at,
    {
        let ghost n = at as int;
        let ghost done = numbered(all.take(n)).len() as int;
        let text = trim(lines[at].as_str());
        let line_num: usize = at + 1;
        let line: &str = text.as_str();
        proof {
            assert(all[n] == lines@[n]@);
            lemma_numbered_at(all, n);
        }
        at = at + 1;
        if !line.is_empty() {
            let mut is_meta = false;
            let first = !started;
            if first {
                let parsed = parse_json(line);
                match parsed {
                    Err(cause) => {
                        assert(heard(
                            all,
                            parse_meta,
                            parse_first,
                            parse_record,
                            heard_meta,
                            replies,
                        ));
                        return Err(TraceError::InvalidJson { line_num, cause });
                    },
                    Ok(value) => {
                        is_meta = has_key(&value, "meta");
                    },
                }
                started = true;
            }
            if is_meta {
                let reply = parse_meta(line);
                assert(replied(parse_meta, items[0].1, reply));
                proof {
                    heard_meta = reply;
                }
                match reply {
                    Err(cause) => {
                        assert(heard(
                            all,
                            parse_meta,
                            parse_first,
                            parse_record,
                            heard_meta,
                            replies,
                        ));
                        return Err(TraceError::InvalidMeta { line_num, cause });
                    },
                    Ok(header) => {
                        meta = header;
                        with_meta = true;
                    },
                }
            } else {
                let reply = if first {
                    parse_first(line)
                } else {
                    parse_record(line)
                };
                let ghost before = replies;
                let ghost k = replies.len() as int;
                proof {
                    replies = before.push(reply);
                    assert(replies.drop_last() == before);
                    assert(rows[k] == items[done]);
                    assert(k == 0 && !starts_with_meta(items) <==> first);
                    if first {
                        assert(replied(parse_first, rows[k].1, replies[k]));
                    } else {
                        assert(replied(parse_record, rows[k].1, replies[k]));
                    }
                    assert forall|i: int| 0 <= i < replies.len() implies {
                        let text = rows[i].1;
                        if i == 0 && !starts_with_meta(items) {
                            replied(parse_first, text, #[trigger] replies[i])
                        } else {
                            replied(parse_record, text, replies[i])
                        }
                    } by {
                        if i < k {
                            assert(replies[i] == before[i]);
                        }
                    }
                }
                match reply {
                    Err(cause) => {
                        assert(heard(
                            all,
                            parse_meta,
                            parse_first,
                            parse_record,
                            heard_meta,
                            replies,
                        ));
                        return Err(TraceError::InvalidRecord { line_num, cause });
                    },
                    Ok(record) => {
                        match validate_record(&record, line_num) {
                            Err(error) => {
                                assert(heard(
                                    all,
                                    parse_meta,
                                    parse_first,
                                    parse_record,
                                    heard_meta,
                                    replies,
                                ));
                                return Err(error);
                            },
                            Ok(_) => {
                                records.push(record);
                            },
                        }
                    },
                }
            }
        }
    }
    assert(all.take(all.len() as int) == all);
    assert(heard(all, parse_meta, parse_first, parse_record, heard_meta, replies));
    match read_failure {
        Some(cause) => Err(TraceError::ReadFailed { line_num: lines.len() + 1, cause }),
        None => Ok((meta, records)),
    }
}

/// Texts written one to a line, each followed by a line feed.
pub open spec fn framed(lines: Seq<Seq<char>>) -> Seq<char>
    decreases lines.len(),
{
    if lines.len() == 0 {
        Seq::empty()
    } else {
        framed(lines.drop_last()) + lines.last().push('\n')
    }
}

/// The meta line that wraps a header's JSON text.
pub open spec fn meta_line(meta_json: Seq<char>) -> Seq<char> {
    "{\"meta\":"@ + meta_json + "}"@
}

/// Appends a single record, given as its JSON text (no meta line).
pub fn append_record(out: &mut String, record_json: &str)
    ensures
        final(out)@ == old(out)@ + record_json@.push('\n'),
{
    out.append(record_json);
    out.push('\n');
    assert(out@ =~= old(out)@ + record_json@.push('\n'));
}

/// Writes a trace: the meta line followed by the records, all given as their JSON texts.
pub fn write_trace(out: &mut String, meta_json: &str, record_jsons: &Vec<String>)
    ensures
        final(out)@ == old(out)@ + framed(
            seq![meta_line(meta_json@)] + texts(record_jsons@),
        ),
{
    let ghost all = seq![meta_line(meta_json@)] + texts(record_jsons@);
    out.append("{\"meta\":");
    out.append(meta_json);
    out.append("}");
    out.push('\n');
    proof {
        let head = all.take(1);
        assert(head.drop_last() == Seq::<Seq<char>>::empty());
        assert(framed(head.drop_last()) == Seq::<char>::empty());
        assert(framed(head) == meta_line(meta_json@).push('\n'));
        assert(out@ =~= old(out)@ + framed(head));
    }
    let mut at: usize = 0;
    while at < record_jsons.len()
        invariant
            at <= record_jsons@.len(),
            all == seq![meta_line(meta_json@)] + texts(record_jsons@),
            out@ == old(out)@ + framed(all.take(at + 1)),
        decreases record_jsons@.len() - at,
    {
        append_record(out, record_jsons[at].as_str());
        at = at + 1;
        proof {
            let head = all.take(at + 1);
            assert(head.drop_last() == all.take(at as int));
            assert(head.last() == record_jsons@[at - 1]@);
            assert(out@ =~= old(out)@ + framed(head));
        }
    }
    assert(all.take(at + 1) == all);
}

/// A text that stands alone on a line: not empty, with no white space around it and no line
/// feed inside.
pub open spec fn is_plain_line(text: Seq<char>) -> bool {
    &&& text.len() > 0
    &&& !is_white_space(text[0])
    &&& !is_white_space(text.last())
    &&& !text.contains('\n')
}

/// The first of several framed texts stands in front.
proof fn lemma_framed_front(lines: Seq<Seq<char>>)
    requires
        lines.len() > 0,
    ensures
        framed(lines) == lines[0].push('\n') + framed(lines.drop_first()),
    decreases lines.len(),
{
    if lines.len() == 1 {
        assert(lines.drop_last() == Seq::<Seq<char>>::empty());
        assert(lines.drop_first() == Seq::<Seq<char>>::empty());
        assert(framed(lines.drop_last()) == Seq::<char>::empty());
        assert(framed(lines) =~= lines[0].push('\n') + framed(lines.drop_first()));
    } else {
        lemma_framed_front(lines.drop_last());
        assert(lines.drop_last().drop_first() == lines.drop_first().drop_last());
        assert(framed(lines) =~= lines[0].push('\n') + framed(lines.drop_first()));
    }
}

/// Lines that were written come back when the text is split: each text that stands alone on
/// a line is one line, in the order they were written.
pub proof fn framed_lines_split_again(lines: Seq<Seq<char>>)
    requires
        forall|i: int| 0 <= i < lines.len() ==> is_plain_line(#[trigger] lines[i]),
    ensures
        lines_of(framed(lines)) == lines,
    decreases lines.len(),
{
    if lines.len() > 0 {
        let text = framed(lines);
        let first = lines[0];
        let rest = lines.drop_first();
        lemma_framed_front(lines);
        assert(is_plain_line(first));
        assert forall|j: int| 0 <= j < first.len() implies text[j] != '\n' by {
            assert(text[j] == first[j]);
            if first[j] == '\n' {
                assert(first.contains('\n'));
            }
        }
        assert(text[first.len() as int] == '\n');
        lemma_line_end(text, first.len());
        assert(text.take(first.len() as int) == first);
        assert(text.skip(first.len() as int + 1) == framed(rest));
        assert forall|i: int| 0 <= i < rest.len() implies is_plain_line(#[trigger] rest[i]) by {
            assert(rest[i] == lines[i + 1]);
        }
        framed_lines_split_again(rest);
        assert(seq![first] + rest == lines);
    }
}

/// Texts that stand alone on their lines are numbered one after the other.
proof fn lemma_numbered_plain(lines: Seq<Seq<char>>)
    requires
        forall|i: int| 0 <= i < lines.len() ==> is_plain_line(#[trigger] lines[i]),
    ensures
        numbered(lines).len() == lines.len(),
        forall|i: int|
            0 <= i < lines.len() ==> #[trigger] numbered(lines)[i] == ((i + 1) as nat, lines[i]),
    decreases lines.len(),
{
    if lines.len() > 0 {
        let front = lines.drop_last();
        assert forall|i: int| 0 <= i < front.len() implies is_plain_line(#[trigger] front[i]) by {
            assert(front[i] == lines[i]);
        }
        lemma_numbered_plain(front);
        assert(is_plain_line(lines[lines.len() - 1]));
    }
}

/// Record lines whose parses all gave valid records give those records.
proof fn lemma_all_valid(
    items: Seq<(nat, Seq<char>)>,
    replies: Seq<Result<TraceRecord, String>>,
    records: Seq<TraceRecord>,
)
    requires
        replies.len() <= records.len(),
        forall|i: int|
            0 <= i < replies.len() ==> #[trigger] replies[i] == Ok::<TraceRecord, String>(
                records[i],
            ),
        forall|i: int| 0 <= i < replies.len() ==> record_fault(#[trigger] records[i], 0) is None,
    ensures
        records_outcome(items, replies) == Ok::<Seq<TraceRecord>, TraceFault>(
            records.take(replies.len() as int),
        ),
    decreases replies.len(),
{
    if replies.len() == 0 {
        assert(records.take(0) == Seq::<TraceRecord>::empty());
    } else {
        let n = replies.len() - 1;
        lemma_all_valid(items, replies.drop_last(), records);
        assert(replies[n] == Ok::<TraceRecord, String>(records[n]));
        assert(record_fault(records[n], 0) is None);
        assert(records.take(n).push(records[n]) == records.take(n + 1));
    }
}

/// A trace that was written reads back as the same header and records, in the same order. The
/// parsers are taken to give back what was serialised, and the JSON texts to stand alone on
/// their lines.
pub proof fn a_written_trace_reads_back<
    M: Fn(&str) -> Result<TraceMeta, String>,
    F: Fn(&str) -> Result<TraceRecord, String>,
    R: Fn(&str) -> Result<TraceRecord, String>,
>(
    meta_json: Seq<char>,
    record_jsons: Seq<Seq<char>>,
    meta: TraceMeta,
    records: Seq<TraceRecord>,
    parse_meta: M,
    parse_first: F,
    parse_record: R,
    result: Result<(TraceMeta, Vec<TraceRecord>), TraceError>,
)
    requires
        !meta_json.contains('\n'),
        is_meta_text(meta_line(meta_json)),
        record_jsons.len() == records.len(),
        forall|i: int| 0 <= i < records.len() ==> is_plain_line(#[trigger] record_jsons[i]),
        forall|i: int|
            0 <= i < records.len() ==> {
                let record = #[trigger] records[i];
                &&& record.output_tokens <= 1 || record.itl_ms is Some || record.itl_summary is Some
                &&& record.itl_ctx matches Some(ctx) ==> {
                    let gaps = if record.itl_ms is Some {
                        record.itl_ms->0@.len()
                    } else {
                        0
                    };
                    ctx.num_running@.len() == gaps && ctx.prefill_tokens@.len() == gaps
                }
            },
        forall|reply: Result<TraceMeta, String>| #[trigger]
            replied(parse_meta, meta_line(meta_json), reply) ==> reply == Ok::<TraceMeta, String>(
                meta,
            ),
        forall|i: int, reply: Result<TraceRecord, String>|
            0 <= i < records.len() && #[trigger] replied(parse_record, record_jsons[i], reply)
                ==> reply == Ok::<TraceRecord, String>(records[i]),
        reads(
            lines_of(framed(seq![meta_line(meta_json)] + record_jsons)),
            None,
            parse_meta,
            parse_first,
            parse_record,
            result,
        ),
    ensures
        result is Ok,
        result->Ok_0.0 == meta,
        result->Ok_0.1@ == records,
{
    let head = meta_line(meta_json);
    let lines = seq![head] + record_jsons;
    reveal_strlit("{\"meta\":");
    reveal_strlit("}");
    assert(head[0] == '{');
    assert(head.last() == '}');
    assert(!head.contains('\n')) by {
        if head.contains('\n') {
            let j = choose|j: int| 0 <= j < head.len() && head[j] == '\n';
            assert(j >= 8);
            assert(j < 8 + meta_json.len());
            assert(meta_json[j - 8] == '\n');
        }
    }
    assert forall|i: int| 0 <= i < lines.len() implies is_plain_line(#[trigger] lines[i]) by {
        if i > 0 {
            assert(lines[i] == record_jsons[i - 1]);
        }
    }
    framed_lines_split_again(lines);
    lemma_numbered_plain(lines);
    let items = numbered(lines);
    let rows = record_items(items);
    assert(items[0] == (1nat, head));
    let (meta_reply, replies) = choose|
        meta_reply: Result<TraceMeta, String>,
        replies: Seq<Result<TraceRecord, String>>,
    |
        {
            &&& #[trigger] heard(lines, parse_meta, parse_first, parse_record, meta_reply, replies)
            &&& yields(result, read_outcome(lines, None, meta_reply, replies))
        };
    assert forall|i: int| 0 <= i < replies.len() implies #[trigger] replies[i] == Ok::<
        TraceRecord,
        String,
    >(records[i]) by {
        assert(rows[i] == items[i + 1]);
        assert(rows[i].1 == record_jsons[i]);
        assert(replied(parse_record, record_jsons[i], replies[i]));
    }
    lemma_all_valid(rows, replies, records);
    assert(records.take(replies.len() as int) == records);
}

/// Records that were appended without a meta line read back as the same records, in the same
/// order, with a default header: the first line is kept as a record. The parsers are taken to
/// give back what was serialised, and the JSON texts to stand alone on their lines.
pub proof fn appended_records_read_back<
    M: Fn(&str) -> Result<TraceMeta, String>,
    F: Fn(&str) -> Result<TraceRecord, String>,
    R: Fn(&str) -> Result<TraceRecord, String>,
>(
    record_jsons: Seq<Seq<char>>,
    records: Seq<TraceRecord>,
    parse_meta: M,
    parse_first: F,
    parse_record: R,
    result: Result<(TraceMeta, Vec<TraceRecord>), TraceError>,
)
    requires
        record_jsons.len() == records.len(),
        records.len() > 0 ==> text_keys(record_jsons[0]) is Some,
        records.len() > 0 ==> !is_meta_text(record_jsons[0]),
        forall|i: int| 0 <= i < records.len() ==> is_plain_line(#[trigger] record_jsons[i]),
        forall|i: int|
            0 <= i < records.len() ==> {
                let record = #[trigger] records[i];
                &&& record.output_tokens <= 1 || record.itl_ms is Some || record.itl_summary is Some
                &&& record.itl_ctx matches Some(ctx) ==> {
                    let gaps = if record.itl_ms is Some {
                        record.itl_ms->0@.len()
                    } else {
                        0
                    };
                    ctx.num_running@.len() == gaps && ctx.prefill_tokens@.len() == gaps
                }
            },
        forall|reply: Result<TraceRecord, String>|
            records.len() > 0 && #[trigger] replied(parse_first, record_jsons[0], reply) ==> reply
                == Ok::<TraceRecord, String>(records[0]),
        forall|i: int, reply: Result<TraceRecord, String>|
            0 <= i < records.len() && #[trigger] replied(parse_record, record_jsons[i], reply)
                ==> reply == Ok::<TraceRecord, String>(records[i]),
        reads(
            lines_of(framed(record_jsons)),
            None,
            parse_meta,
            parse_first,
            parse_record,
            result,
        ),
    ensures
        result is Ok,
        is_default_meta(result->Ok_0.0),
        result->Ok_0.1@ == records,
{
    framed_lines_split_again(record_jsons);
    lemma_numbered_plain(record_jsons);
    let items = numbered(record_jsons);
    assert(record_jsons.len() > 0 ==> items[0] == (1nat, record_jsons[0]));
    assert(!starts_with_meta(items));
    let (meta_reply, replies) = choose|
        meta_reply: Result<TraceMeta, String>,
        replies: Seq<Result<TraceRecord, String>>,
    |
        {
            &&& #[trigger] heard(
                record_jsons,
                parse_meta,
                parse_first,
                parse_record,
                meta_reply,
                replies,
            )
            &&& yields(result, read_outcome(record_jsons, None, meta_reply, replies))
        };
    assert forall|i: int| 0 <= i < replies.len() implies #[trigger] replies[i] == Ok::<
        TraceRecord,
        String,
    >(records[i]) by {
        assert(items[i].1 == record_jsons[i]);
        if i == 0 {
            assert(replied(parse_first, record_jsons[0], replies[0]));
        } else {
            assert(replied(parse_record, record_jsons[i], replies[i]));
        }
    }
    lemma_all_valid(items, replies, records);
    assert(records.take(replies.len() as int) == records);
}

/// The lines that carry something, as they stand.
pub open spec fn without_blanks(lines: Seq<Seq<char>>) -> Seq<Seq<char>>
    decreases lines.len(),
{
    if lines.len() == 0 {
        Seq::empty()
    } else {
        let rest = without_blanks(lines.drop_last());
        if trimmed(lines.last()).len() == 0 {
            rest
        } else {
            rest.push(lines.last())
        }
    }
}

/// A blank line anywhere is dropped, so any number of them is.
pub proof fn an_added_blank_line_is_dropped(lines: Seq<Seq<char>>, n: int, blank: Seq<char>)
    requires
        0 <= n <= lines.len(),
        trimmed(blank).len() == 0,
    ensures
        without_blanks(lines.insert(n, blank)) == without_blanks(lines),
    decreases lines.len(),
{
    let padded = lines.insert(n, blank);
    if n == lines.len() {
        assert(padded.drop_last() == lines);
    } else {
        an_added_blank_line_is_dropped(lines.drop_last(), n, blank);
        assert(padded.drop_last() == lines.drop_last().insert(n, blank));
        assert(padded.last() == lines.last());
    }
}

/// Blank lines take no part in what is read but for the line numbers.
proof fn lemma_carried_texts(lines: Seq<Seq<char>>)
    ensures
        numbered(lines).len() == without_blanks(lines).len(),
        forall|i: int|
            0 <= i < numbered(lines).len() ==> (#[trigger] numbered(lines)[i]).1 == trimmed(
                without_blanks(lines)[i],
            ),
    decreases lines.len(),
{
    if lines.len() > 0 {
        let front = lines.drop_last();
        lemma_carried_texts(front);
        assert forall|i: int| 0 <= i < numbered(lines).len() implies (
        #[trigger] numbered(lines)[i]).1 == trimmed(without_blanks(lines)[i]) by {
            if i < numbered(front).len() {
                assert(numbered(lines)[i] == numbered(front)[i]);
                assert(without_blanks(lines)[i] == without_blanks(front)[i]);
            }
        }
    }
}

/// A fault as it reads at another line.
pub open spec fn at_line(fault: TraceFault, line_num: usize) -> TraceFault {
    match fault {
        TraceFault::ReadFailed { cause, .. } => TraceFault::ReadFailed { line_num, cause },
        TraceFault::InvalidJson { cause, .. } => TraceFault::InvalidJson { line_num, cause },
        TraceFault::InvalidMeta { cause, .. } => TraceFault::InvalidMeta { line_num, cause },
        TraceFault::InvalidRecord { cause, .. } => TraceFault::InvalidRecord { line_num, cause },
        TraceFault::MissingItl { output_tokens, .. } => TraceFault::MissingItl {
            line_num,
            output_tokens,
        },
        TraceFault::ContextMismatch { running, prefill, gaps, .. } => TraceFault::ContextMismatch {
            line_num,
            running,
            prefill,
            gaps,
        },
    }
}

/// An error as it stands at another line.
pub open spec fn moved_to(error: TraceError, line_num: usize) -> TraceError {
    match error {
        TraceError::ReadFailed { cause, .. } => TraceError::ReadFailed { line_num, cause },
        TraceError::InvalidJson { cause, .. } => TraceError::InvalidJson { line_num, cause },
        TraceError::InvalidMeta { cause, .. } => TraceError::InvalidMeta { line_num, cause },
        TraceError::InvalidRecord { cause, .. } => TraceError::InvalidRecord { line_num, cause },
        TraceError::MissingItl { output_tokens, .. } => TraceError::MissingItl {
            line_num,
            output_tokens,
        },
        TraceError::ContextMismatch { running, prefill, gaps, .. } => TraceError::ContextMismatch {
            line_num,
            running,
            prefill,
            gaps,
        },
    }
}

/// The line at fault.
pub open spec fn fault_line(fault: TraceFault) -> usize {
    match fault {
        TraceFault::ReadFailed { line_num, .. } => line_num,
        TraceFault::InvalidJson { line_num, .. } => line_num,
        TraceFault::InvalidMeta { line_num, .. } => line_num,
        TraceFault::InvalidRecord { line_num, .. } => line_num,
        TraceFault::MissingItl { line_num, .. } => line_num,
        TraceFault::ContextMismatch { line_num, .. } => line_num,
    }
}

/// Line numbers show in errors only.
proof fn lemma_outcome_without_numbers(
    items: Seq<(nat, Seq<char>)>,
    others: Seq<(nat, Seq<char>)>,
    replies: Seq<Result<TraceRecord, String>>,
)
    ensures
        match (records_outcome(items, replies), records_outcome(others, replies)) {
            (Ok(records), Ok(same)) => records == same,
            (Err(error), Err(same)) => at_line(error, 0) == at_line(same, 0),
            _ => false,
        },
    decreases replies.len(),
{
    if replies.len() > 0 {
        lemma_outcome_without_numbers(items, others, replies.drop_last());
    }
}

/// Lines that agree once blank lines are dropped make the same parses and have the same
/// outcome.
proof fn lemma_same_reading<
    M: Fn(&str) -> Result<TraceMeta, String>,
    F: Fn(&str) -> Result<TraceRecord, String>,
    R: Fn(&str) -> Result<TraceRecord, String>,
>(
    lines: Seq<Seq<char>>,
    others: Seq<Seq<char>>,
    failure: Option<Seq<char>>,
    parse_meta: M,
    parse_first: F,
    parse_record: R,
    meta: Result<TraceMeta, String>,
    replies: Seq<Result<TraceRecord, String>>,
)
    requires
        without_blanks(lines) == without_blanks(others),
    ensures
        heard(others, parse_meta, parse_first, parse_record, meta, replies) == heard(
            lines,
            parse_meta,
            parse_first,
            parse_record,
            meta,
            replies,
        ),
        match (
            read_outcome(others, failure, meta, replies),
            read_outcome(lines, failure, meta, replies),
        ) {
            (Ok(trace), Ok(same)) => trace == same,
            (Err(error), Err(same)) => at_line(error, 0) == at_line(same, 0),
            _ => false,
        },
{
    let items = numbered(lines);
    let shifted = numbered(others);
    lemma_carried_texts(lines);
    lemma_carried_texts(others);
    assert(items.len() == shifted.len());
    assert forall|i: int| 0 <= i < items.len() implies (#[trigger] shifted[i]).1 == items[i].1 by {
        assert(items[i].1 == trimmed(without_blanks(lines)[i]));
    }
    assert(items.len() > 0 ==> shifted[0].1 == items[0].1);
    assert(starts_with_meta(items) == starts_with_meta(shifted));
    let rows = record_items(items);
    let moved = record_items(shifted);
    assert forall|i: int| 0 <= i < rows.len() implies #[trigger] moved[i].1 == rows[i].1 by {
        if starts_with_meta(items) {
            assert(moved[i] == shifted[i + 1]);
            assert(rows[i] == items[i + 1]);
        }
    }
    lemma_outcome_without_numbers(rows, moved, replies);
    assert forall|i: int| 0 <= i < replies.len() && replies.len() <= rows.len() implies {
        &&& replied(parse_first, moved[i].1, #[trigger] replies[i]) == replied(
            parse_first,
            rows[i].1,
            replies[i],
        )
        &&& replied(parse_record, moved[i].1, replies[i]) == replied(
            parse_record,
            rows[i].1,
            replies[i],
        )
    } by {
        assert(moved[i].1 == rows[i].1);
    }
}

/// Blank lines are skipped: of two lists of lines that agree once blank lines are dropped,
/// whatever trace one can give the other can give, and where one can fail the other can fail
/// in the same way, at its own line.
pub proof fn blank_lines_are_skipped<
    M: Fn(&str) -> Result<TraceMeta, String>,
    F: Fn(&str) -> Result<TraceRecord, String>,
    R: Fn(&str) -> Result<TraceRecord, String>,
>(
    lines: Seq<Seq<char>>,
    others: Seq<Seq<char>>,
    failure: Option<Seq<char>>,
    parse_meta: M,
    parse_first: F,
    parse_record: R,
)
    requires
        without_blanks(lines) == without_blanks(others),
    ensures
        forall|trace: (TraceMeta, Vec<TraceRecord>)|
            #![trigger reads(lines, failure, parse_meta, parse_first, parse_record, Ok(trace))]
            #![trigger reads(others, failure, parse_meta, parse_first, parse_record, Ok(trace))]
            reads(lines, failure, parse_meta, parse_first, parse_record, Ok(trace)) == reads(
                others,
                failure,
                parse_meta,
                parse_first,
                parse_record,
                Ok(trace),
            ),
        forall|error: TraceError| #[trigger]
            reads(lines, failure, parse_meta, parse_first, parse_record, Err(error))
                ==> exists|line_num: usize| #[trigger] reads(
                    others,
                    failure,
                    parse_meta,
                    parse_first,
                    parse_record,
                    Err(moved_to(error, line_num)),
                ),
{
    assert forall|trace: (TraceMeta, Vec<TraceRecord>)|
        #![trigger reads(lines, failure, parse_meta, parse_first, parse_record, Ok(trace))]
        #![trigger reads(others, failure, parse_meta, parse_first, parse_record, Ok(trace))]
        reads(lines, failure, parse_meta, parse_first, parse_record, Ok(trace)) == reads(
            others,
            failure,
            parse_meta,
            parse_first,
            parse_record,
            Ok(trace),
        ) by {
        lemma_same_trace(
            lines,
            others,
            failure,
            parse_meta,
            parse_first,
            parse_record,
            trace,
        );
        lemma_same_trace(
            others,
            lines,
            failure,
            parse_meta,
            parse_first,
            parse_record,
            trace,
        );
    }
    assert forall|error: TraceError| #[trigger]
        reads(
            lines,
            failure,
            parse_meta,
            parse_first,
            parse_record,
            Err(error),
        ) implies exists|line_num: usize| #[trigger] reads(
            others,
            failure,
            parse_meta,
            parse_first,
            parse_record,
            Err(moved_to(error, line_num)),
        ) by {
        let result = Err::<(TraceMeta, Vec<TraceRecord>), TraceError>(error);
        let (meta, replies) = choose|
            meta: Result<TraceMeta, String>,
            replies: Seq<Result<TraceRecord, String>>,
        |
            {
                &&& #[trigger] heard(lines, parse_meta, parse_first, parse_record, meta, replies)
                &&& yields(result, read_outcome(lines, failure, meta, replies))
            };
        lemma_same_reading(
            lines,
            others,
            failure,
            parse_meta,
            parse_first,
            parse_record,
            meta,
            replies,
        );
        let fault = read_outcome(others, failure, meta, replies)->Err_0;
        let other = moved_to(error, fault_line(fault));
        assert(other@ == fault);
        assert(yields(Err(other), read_outcome(others, failure, meta, replies)));
        assert(reads(
            others,
            failure,
            parse_meta,
            parse_first,
            parse_record,
            Err(other),
        ));
    }
}

proof fn lemma_same_trace<
    M: Fn(&str) -> Result<TraceMeta, String>,
    F: Fn(&str) -> Result<TraceRecord, String>,
    R: Fn(&str) -> Result<TraceRecord, String>,
>(
    lines: Seq<Seq<char>>,
    others: Seq<Seq<char>>,
    failure: Option<Seq<char>>,
    parse_meta: M,
    parse_first: F,
    parse_record: R,
    trace: (TraceMeta, Vec<TraceRecord>),
)
    requires
        without_blanks(lines) == without_blanks(others),
    ensures
        reads(lines, failure, parse_meta, parse_first, parse_record, Ok(trace)) ==> reads(
            others,
            failure,
            parse_meta,
            parse_first,
            parse_record,
            Ok(trace),
        ),
{
    let result = Ok::<(TraceMeta, Vec<TraceRecord>), TraceError>(trace);
    if reads(lines, failure, parse_meta, parse_first, parse_record, result) {
        let (meta, replies) = choose|
            meta: Result<TraceMeta, String>,
            replies: Seq<Result<TraceRecord, String>>,
        |
            {
                &&& #[trigger] heard(lines, parse_meta, parse_first, parse_record, meta, replies)
                &&& yields(result, read_outcome(lines, failure, meta, replies))
            };
        lemma_same_reading(
            lines,
            others,
            failure,
            parse_meta,
            parse_first,
            parse_record,
            meta,
            replies,
        );
        assert(heard(others, parse_meta, parse_first, parse_record, meta, replies));
    }
}

/// Lines keep their numbers in the file: with `at` the places of the lines that are not blank, in
/// order, what is read are those lines, trimmed, each with its place counted from one.
pub proof fn lines_keep_their_numbers(lines: Seq<Seq<char>>, at: Seq<int>)
    requires
        lines.len() < usize::MAX,
        forall|k: int|
            0 <= k < at.len() ==> 0 <= #[trigger] at[k] < lines.len() && trimmed(
                lines[at[k]],
            ).len() > 0,
        forall|k: int, l: int| 0 <= k < l < at.len() ==> #[trigger] at[k] < #[trigger] at[l],
        forall|n: int|
            0 <= n < lines.len() && trimmed(#[trigger] lines[n]).len() > 0 ==> at.contains(n),
    ensures
        numbered(lines).len() == at.len(),
        forall|k: int|
            0 <= k < at.len() ==> #[trigger] numbered(lines)[k] == (
                (at[k] + 1) as nat,
                trimmed(lines[at[k]]),
            ),
    decreases lines.len(),
{
    if lines.len() == 0 {
        if at.len() > 0 {
            assert(0 <= at[0] < lines.len());
        }
    } else {
        let front = lines.drop_last();
        let last = lines.len() - 1;
        let carries = trimmed(lines[last]).len() > 0;
        let rest = if carries {
            at.drop_last()
        } else {
            at
        };
        if carries {
            assert(at.contains(last));
            let k = choose|k: int| 0 <= k < at.len() && at[k] == last;
            if k < at.len() - 1 {
                assert(at[k] < at[k + 1]);
            }
        }
        assert forall|k: int| 0 <= k < rest.len() implies 0 <= #[trigger] rest[k] < front.len()
            && trimmed(front[rest[k]]).len() > 0 && rest[k] == at[k] by {
            assert(rest[k] == at[k]);
            if carries {
                assert(at[k] < at[at.len() - 1]);
            } else {
                assert(at[k] != last);
            }
            assert(front[at[k]] == lines[at[k]]);
        }
        assert forall|n: int|
            0 <= n < front.len() && trimmed(#[trigger] front[n]).len() > 0 implies rest.contains(
            n,
        ) by {
            assert(front[n] == lines[n]);
            let k = choose|k: int| 0 <= k < at.len() && at[k] == n;
            assert(rest[k] == n);
        }
        lines_keep_their_numbers(front, rest);
        assert forall|k: int| 0 <= k < at.len() implies #[trigger] numbered(lines)[k] == (
            (at[k] + 1) as nat,
            trimmed(lines[at[k]]),
        ) by {
            if k < rest.len() {
                assert(numbered(front)[k] == ((rest[k] + 1) as nat, trimmed(front[rest[k]])));
                assert(front[rest[k]] == lines[at[k]]);
            }
        }
    }
}

proof fn lemma_fault_stays(
    items: Seq<(nat, Seq<char>)>,
    replies: Seq<Result<TraceRecord, String>>,
    n: int,
)
    requires
        0 <= n <= replies.len(),
        records_outcome(items, replies.take(n)) is Err,
    ensures
        records_outcome(items, replies) == records_outcome(items, replies.take(n)),
    decreases replies.len(),
{
    if n == replies.len() {
        assert(replies.take(n) == replies);
    } else {
        assert(replies.drop_last().take(n) == replies.take(n));
        lemma_fault_stays(items, replies.drop_last(), n);
    }
}

/// Every line that is not blank counts, once and in order: where the first is JSON and, if it has
/// a `meta` key, gives a header, and where each of the others gives a valid record, the trace is
/// that header, or an empty one, and all of those records. Nothing but a line that cannot be read
/// behind them makes it fail, and the error then names that line and the cause.
pub proof fn a_sound_trace_is_read_whole<
    M: Fn(&str) -> Result<TraceMeta, String>,
    F: Fn(&str) -> Result<TraceRecord, String>,
    R: Fn(&str) -> Result<TraceRecord, String>,
>(
    lines: Seq<Seq<char>>,
    failure: Option<Seq<char>>,
    parse_meta: M,
    parse_first: F,
    parse_record: R,
    result: Result<(TraceMeta, Vec<TraceRecord>), TraceError>,
    at: Seq<int>,
    with_meta: bool,
    meta: TraceMeta,
    parsed: Seq<TraceRecord>,
)
    requires
        lines.len() < usize::MAX,
        forall|k: int|
            0 <= k < at.len() ==> 0 <= #[trigger] at[k] < lines.len() && trimmed(
                lines[at[k]],
            ).len() > 0,
        forall|k: int, l: int| 0 <= k < l < at.len() ==> #[trigger] at[k] < #[trigger] at[l],
        forall|n: int|
            0 <= n < lines.len() && trimmed(#[trigger] lines[n]).len() > 0 ==> at.contains(n),
        at.len() > 0 ==> text_keys(trimmed(lines[at[0]])) is Some,
        with_meta == (at.len() > 0 && text_keys(trimmed(lines[at[0]]))->0.contains("meta"@)),
        with_meta ==> forall|line: &str, reply: Result<TraceMeta, String>|
            line@ == trimmed(lines[at[0]]) && #[trigger] call_ensures(parse_meta, (line,), reply)
                ==> reply == Ok::<TraceMeta, String>(meta),
        !with_meta && at.len() > 0 ==> forall|line: &str, reply: Result<TraceRecord, String>|
            line@ == trimmed(lines[at[0]]) && #[trigger] call_ensures(parse_first, (line,), reply)
                ==> reply == Ok::<TraceRecord, String>(parsed[0]),
        forall|k: int, line: &str, reply: Result<TraceRecord, String>|
            #![trigger at[k], call_ensures(parse_record, (line,), reply)]
            1 <= k < at.len() && line@ == trimmed(lines[at[k]]) && call_ensures(
                parse_record,
                (line,),
                reply,
            ) ==> reply == Ok::<TraceRecord, String>(parsed[k]),
        forall|k: int|
            (if with_meta {
                1
            } else {
                0int
            }) <= k < at.len() ==> {
                let record = #[trigger] parsed[k];
                &&& record.output_tokens <= 1 || record.itl_ms is Some || record.itl_summary is Some
                &&& record.itl_ctx matches Some(ctx) ==> {
                    let gaps = if record.itl_ms is Some {
                        record.itl_ms->0@.len()
                    } else {
                        0
                    };
                    ctx.num_running@.len() == gaps && ctx.prefill_tokens@.len() == gaps
                }
            },
        parsed.len() == at.len(),
        reads(lines, failure, parse_meta, parse_first, parse_record, result),
    ensures
        failure is None ==> {
            &&& result is Ok
            &&& result->Ok_0.1@ == parsed.skip(
                if with_meta {
                    1
                } else {
                    0
                },
            )
            &&& with_meta ==> result->Ok_0.0 == meta
            &&& !with_meta ==> {
                let header = result->Ok_0.0;
                &&& header.model is None
                &&& header.gpu is None
                &&& header.tp is None
                &&& header.max_num_seqs is None
                &&& header.source is None
                &&& header.extra@.len() == 0
            }
        },
        failure is Some ==> (result matches Err(TraceError::ReadFailed { line_num, cause })
            && line_num == lines.len() + 1 && cause@ == failure->0),
{
    lines_keep_their_numbers(lines, at);
    let items = numbered(lines);
    let rows = record_items(items);
    let skipped: int = if with_meta {
        1
    } else {
        0
    };
    assert(at.len() > 0 ==> items[0].1 == trimmed(lines[at[0]]));
    let (meta_reply, replies) = choose|
        meta_reply: Result<TraceMeta, String>,
        replies: Seq<Result<TraceRecord, String>>,
    |
        {
            &&& #[trigger] heard(lines, parse_meta, parse_first, parse_record, meta_reply, replies)
            &&& yields(result, read_outcome(lines, failure, meta_reply, replies))
        };
    let records = parsed.skip(skipped);
    if with_meta {
        assert(replied(parse_meta, items[0].1, meta_reply));
    }
    assert forall|i: int| 0 <= i < replies.len() implies #[trigger] replies[i] == Ok::<
        TraceRecord,
        String,
    >(records[i]) && record_fault(records[i], 0) is None by {
        assert(rows[i] == items[i + skipped]);
        assert(records[i] == parsed[i + skipped]);
        let place = at[i + skipped];
        assert(rows[i].1 == trimmed(lines[place]));
        a_record_is_valid_by_its_fields(parsed[i + skipped], 0);
    }
    lemma_all_valid(rows, replies, records);
    assert(records.take(replies.len() as int) == records);
}

proof fn lemma_first_fault<
    M: Fn(&str) -> Result<TraceMeta, String>,
    F: Fn(&str) -> Result<TraceRecord, String>,
    R: Fn(&str) -> Result<TraceRecord, String>,
>(
    lines: Seq<Seq<char>>,
    failure: Option<Seq<char>>,
    parse_meta: M,
    parse_first: F,
    parse_record: R,
    result: Result<(TraceMeta, Vec<TraceRecord>), TraceError>,
    at: Seq<int>,
    with_meta: bool,
    meta: TraceMeta,
    parsed: Seq<TraceRecord>,
    g: int,
    fault: TraceFault,
)
    requires
        lines.len() < usize::MAX,
        forall|k: int|
            0 <= k < at.len() ==> 0 <= #[trigger] at[k] < lines.len() && trimmed(
                lines[at[k]],
            ).len() > 0,
        forall|k: int, l: int| 0 <= k < l < at.len() ==> #[trigger] at[k] < #[trigger] at[l],
        forall|n: int|
            0 <= n < lines.len() && trimmed(#[trigger] lines[n]).len() > 0 ==> at.contains(n),
        at.len() > 0 ==> text_keys(trimmed(lines[at[0]])) is Some,
        with_meta == (at.len() > 0 && text_keys(trimmed(lines[at[0]]))->0.contains("meta"@)),
        with_meta ==> forall|line: &str, reply: Result<TraceMeta, String>|
            line@ == trimmed(lines[at[0]]) && #[trigger] call_ensures(parse_meta, (line,), reply)
                ==> reply == Ok::<TraceMeta, String>(meta),
        !with_meta && g > 0 ==> forall|line: &str, reply: Result<TraceRecord, String>|
            line@ == trimmed(lines[at[0]]) && #[trigger] call_ensures(parse_first, (line,), reply)
                ==> reply == Ok::<TraceRecord, String>(parsed[0]),
        forall|k: int, line: &str, reply: Result<TraceRecord, String>|
            #![trigger at[k], call_ensures(parse_record, (line,), reply)]
            1 <= k < g && line@ == trimmed(lines[at[k]]) && call_ensures(
                parse_record,
                (line,),
                reply,
            ) ==> reply == Ok::<TraceRecord, String>(parsed[k]),
        forall|k: int|
            (if with_meta {
                1
            } else {
                0int
            }) <= k < g ==> {
                let record = #[trigger] parsed[k];
                &&& record.output_tokens <= 1 || record.itl_ms is Some || record.itl_summary is Some
                &&& record.itl_ctx matches Some(ctx) ==> {
                    let gaps = if record.itl_ms is Some {
                        record.itl_ms->0@.len()
                    } else {
                        0
                    };
                    ctx.num_running@.len() == gaps && ctx.prefill_tokens@.len() == gaps
                }
            },
        parsed.len() == at.len(),
        (if with_meta {
            1
        } else {
            0int
        }) <= g < at.len(),
        forall|line: &str, reply: Result<TraceRecord, String>|
            line@ == trimmed(lines[at[g]]) && (if g == 0 {
                call_ensures(parse_first, (line,), reply)
            } else {
                call_ensures(parse_record, (line,), reply)
            }) ==> #[trigger] fails_with(reply, (at[g] + 1) as usize, line, fault),
        reads(lines, failure, parse_meta, parse_first, parse_record, result),
    ensures
        result is Err,
        result->Err_0@ == fault,
{
    lines_keep_their_numbers(lines, at);
    let items = numbered(lines);
    let rows = record_items(items);
    let skipped: int = if with_meta {
        1
    } else {
        0
    };
    assert(items[0].1 == trimmed(lines[at[0]]));
    let (meta_reply, replies) = choose|
        meta_reply: Result<TraceMeta, String>,
        replies: Seq<Result<TraceRecord, String>>,
    |
        {
            &&& #[trigger] heard(lines, parse_meta, parse_first, parse_record, meta_reply, replies)
            &&& yields(result, read_outcome(lines, failure, meta_reply, replies))
        };
    let records = parsed.skip(skipped);
    let n = g - skipped;
    if with_meta {
        assert(replied(parse_meta, items[0].1, meta_reply));
    }
    assert forall|i: int| 0 <= i < replies.len() && i < n implies #[trigger] replies[i] == Ok::<
        TraceRecord,
        String,
    >(records[i]) && record_fault(records[i], 0) is None by {
        assert(rows[i] == items[i + skipped]);
        assert(records[i] == parsed[i + skipped]);
        let place = at[i + skipped];
        assert(rows[i].1 == trimmed(lines[place]));
        a_record_is_valid_by_its_fields(parsed[i + skipped], 0);
    }
    if replies.len() <= n {
        lemma_all_valid(rows, replies, records);
        assert(false);
    }
    let good = replies.take(n);
    lemma_all_valid(rows, good, records);
    let upto = replies.take(n + 1);
    assert(upto.drop_last() == good);
    assert(rows[n] == items[g]);
    assert(rows[n].0 == at[g] + 1);
    if g == 0 {
        assert(replied(parse_first, rows[n].1, replies[n]));
        let line = choose|line: &str|
            line@ == rows[n].1 && #[trigger] call_ensures(parse_first, (line,), replies[n]);
        assert(fails_with(replies[n], (at[g] + 1) as usize, line, fault));
    } else {
        assert(replied(parse_record, rows[n].1, replies[n]));
        let line = choose|line: &str|
            line@ == rows[n].1 && #[trigger] call_ensures(parse_record, (line,), replies[n]);
        assert(fails_with(replies[n], (at[g] + 1) as usize, line, fault));
    }
    assert(records_outcome(rows, upto) == Err::<Seq<TraceRecord>, TraceFault>(fault));
    lemma_fault_stays(rows, replies, n + 1);
}

/// Whether a reply is at fault in this way; the text that it answers plays no part.
spec fn fails_with(
    reply: Result<TraceRecord, String>,
    line_num: usize,
    line: &str,
    fault: TraceFault,
) -> bool {
    match reply {
        Err(cause) => fault == TraceFault::InvalidRecord { line_num, cause: cause@ },
        Ok(record) => record_fault(record, line_num) == Some(fault),
    }
}

/// The first line that gives no record makes the trace fail: the error is for that line, counted
/// from one with the blank lines, and tells what its parser said.
pub proof fn the_first_unparsed_line_is_reported<
    M: Fn(&str) -> Result<TraceMeta, String>,
    F: Fn(&str) -> Result<TraceRecord, String>,
    R: Fn(&str) -> Result<TraceRecord, String>,
>(
    lines: Seq<Seq<char>>,
    failure: Option<Seq<char>>,
    parse_meta: M,
    parse_first: F,
    parse_record: R,
    result: Result<(TraceMeta, Vec<TraceRecord>), TraceError>,
    at: Seq<int>,
    with_meta: bool,
    meta: TraceMeta,
    parsed: Seq<TraceRecord>,
    g: int,
    said: Seq<char>,
)
    requires
        lines.len() < usize::MAX,
        forall|k: int|
            0 <= k < at.len() ==> 0 <= #[trigger] at[k] < lines.len() && trimmed(
                lines[at[k]],
            ).len() > 0,
        forall|k: int, l: int| 0 <= k < l < at.len() ==> #[trigger] at[k] < #[trigger] at[l],
        forall|n: int|
            0 <= n < lines.len() && trimmed(#[trigger] lines[n]).len() > 0 ==> at.contains(n),
        at.len() > 0 ==> text_keys(trimmed(lines[at[0]])) is Some,
        with_meta == (at.len() > 0 && text_keys(trimmed(lines[at[0]]))->0.contains("meta"@)),
        with_meta ==> forall|line: &str, reply: Result<TraceMeta, String>|
            line@ == trimmed(lines[at[0]]) && #[trigger] call_ensures(parse_meta, (line,), reply)
                ==> reply == Ok::<TraceMeta, String>(meta),
        !with_meta && g > 0 ==> forall|line: &str, reply: Result<TraceRecord, String>|
            line@ == trimmed(lines[at[0]]) && #[trigger] call_ensures(parse_first, (line,), reply)
                ==> reply == Ok::<TraceRecord, String>(parsed[0]),
        forall|k: int, line: &str, reply: Result<TraceRecord, String>|
            #![trigger at[k], call_ensures(parse_record, (line,), reply)]
            1 <= k < g && line@ == trimmed(lines[at[k]]) && call_ensures(
                parse_record,
                (line,),
                reply,
            ) ==> reply == Ok::<TraceRecord, String>(parsed[k]),
        forall|k: int|
            (if with_meta {
                1
            } else {
                0int
            }) <= k < g ==> {
                let record = #[trigger] parsed[k];
                &&& record.output_tokens <= 1 || record.itl_ms is Some || record.itl_summary is Some
                &&& record.itl_ctx matches Some(ctx) ==> {
                    let gaps = if record.itl_ms is Some {
                        record.itl_ms->0@.len()
                    } else {
                        0
                    };
                    ctx.num_running@.len() == gaps && ctx.prefill_tokens@.len() == gaps
                }
            },
        parsed.len() == at.len(),
        (if with_meta {
            1
        } else {
            0int
        }) <= g < at.len(),
        forall|line: &str, reply: Result<TraceRecord, String>|
            g == 0 && line@ == trimmed(lines[at[g]]) && #[trigger] call_ensures(
                parse_first,
                (line,),
                reply,
            ) ==> reply is Err && reply->Err_0@ == said,
        forall|line: &str, reply: Result<TraceRecord, String>|
            g > 0 && line@ == trimmed(lines[at[g]]) && #[trigger] call_ensures(
                parse_record,
                (line,),
                reply,
            ) ==> reply is Err && reply->Err_0@ == said,
        reads(lines, failure, parse_meta, parse_first, parse_record, result),
    ensures
        result matches Err(TraceError::InvalidRecord { line_num, cause }) && line_num == at[g] + 1
            && cause@ == said,
{
    let line_num = (at[g] + 1) as usize;
    lemma_first_fault(
        lines,
        failure,
        parse_meta,
        parse_first,
        parse_record,
        result,
        at,
        with_meta,
        meta,
        parsed,
        g,
        TraceFault::InvalidRecord { line_num, cause: said },
    );
}

/// The first record that is not valid makes the trace fail, whatever follows it: one with several
/// output tokens and neither gaps nor a summary, or one whose context arrays do not parallel its
/// gaps. The error is for its line, counted from one with the blank lines.
pub proof fn the_first_invalid_record_is_reported<
    M: Fn(&str) -> Result<TraceMeta, String>,
    F: Fn(&str) -> Result<TraceRecord, String>,
    R: Fn(&str) -> Result<TraceRecord, String>,
>(
    lines: Seq<Seq<char>>,
    failure: Option<Seq<char>>,
    parse_meta: M,
    parse_first: F,
    parse_record: R,
    result: Result<(TraceMeta, Vec<TraceRecord>), TraceError>,
    at: Seq<int>,
    with_meta: bool,
    meta: TraceMeta,
    parsed: Seq<TraceRecord>,
    g: int,
)
    requires
        lines.len() < usize::MAX,
        forall|k: int|
            0 <= k < at.len() ==> 0 <= #[trigger] at[k] < lines.len() && trimmed(
                lines[at[k]],
            ).len() > 0,
        forall|k: int, l: int| 0 <= k < l < at.len() ==> #[trigger] at[k] < #[trigger] at[l],
        forall|n: int|
            0 <= n < lines.len() && trimmed(#[trigger] lines[n]).len() > 0 ==> at.contains(n),
        at.len() > 0 ==> text_keys(trimmed(lines[at[0]])) is Some,
        with_meta == (at.len() > 0 && text_keys(trimmed(lines[at[0]]))->0.contains("meta"@)),
        with_meta ==> forall|line: &str, reply: Result<TraceMeta, String>|
            line@ == trimmed(lines[at[0]]) && #[trigger] call_ensures(parse_meta, (line,), reply)
                ==> reply == Ok::<TraceMeta, String>(meta),
        !with_meta && g > 0 ==> forall|line: &str, reply: Result<TraceRecord, String>|
            line@ == trimmed(lines[at[0]]) && #[trigger] call_ensures(parse_first, (line,), reply)
                ==> reply == Ok::<TraceRecord, String>(parsed[0]),
        forall|k: int, line: &str, reply: Result<TraceRecord, String>|
            #![trigger at[k], call_ensures(parse_record, (line,), reply)]
            1 <= k < g && line@ == trimmed(lines[at[k]]) && call_ensures(
                parse_record,
                (line,),
                reply,
            ) ==> reply == Ok::<TraceRecord, String>(parsed[k]),
        forall|k: int|
            (if with_meta {
                1
            } else {
                0int
            }) <= k < g ==> {
                let record = #[trigger] parsed[k];
                &&& record.output_tokens <= 1 || record.itl_ms is Some || record.itl_summary is Some
                &&& record.itl_ctx matches Some(ctx) ==> {
                    let gaps = if record.itl_ms is Some {
                        record.itl_ms->0@.len()
                    } else {
                        0
                    };
                    ctx.num_running@.len() == gaps && ctx.prefill_tokens@.len() == gaps
                }
            },
        parsed.len() == at.len(),
        (if with_meta {
            1
        } else {
            0int
        }) <= g < at.len(),
        forall|line: &str, reply: Result<TraceRecord, String>|
            g == 0 && line@ == trimmed(lines[at[g]]) && #[trigger] call_ensures(
                parse_first,
                (line,),
                reply,
            ) ==> reply == Ok::<TraceRecord, String>(parsed[g]),
        forall|line: &str, reply: Result<TraceRecord, String>|
            g > 0 && line@ == trimmed(lines[at[g]]) && #[trigger] call_ensures(
                parse_record,
                (line,),
                reply,
            ) ==> reply == Ok::<TraceRecord, String>(parsed[g]),
        reads(lines, failure, parse_meta, parse_first, parse_record, result),
    ensures
        parsed[g].output_tokens > 1 && parsed[g].itl_ms is None && parsed[g].itl_summary is None
            ==> (result matches Err(TraceError::MissingItl { line_num, output_tokens }) && line_num
            == at[g] + 1 && output_tokens == parsed[g].output_tokens),
        ({
            let record = parsed[g];
            let gaps = if record.itl_ms is Some {
                record.itl_ms->0@.len()
            } else {
                0
            };
            let running = record.itl_ctx->0.num_running@.len();
            let prefill = record.itl_ctx->0.prefill_tokens@.len();
            (record.output_tokens <= 1 || record.itl_ms is Some || record.itl_summary is Some)
                && record.itl_ctx is Some && (running != gaps || prefill != gaps) ==> result
                == Err::<(TraceMeta, Vec<TraceRecord>), TraceError>(
                TraceError::ContextMismatch {
                    line_num: (at[g] + 1) as usize,
                    running: running as usize,
                    prefill: prefill as usize,
                    gaps: gaps as usize,
                },
            )
        }),
{
    let line_num = (at[g] + 1) as usize;
    a_record_is_valid_by_its_fields(parsed[g], line_num);
    if let Some(fault) = record_fault(parsed[g], line_num) {
        lemma_first_fault(
            lines,
            failure,
            parse_meta,
            parse_first,
            parse_record,
            result,
            at,
            with_meta,
            meta,
            parsed,
            g,
            fault,
        );
    }
}

/// A trace whose first line that is not blank is no JSON, or is a meta line without a header,
/// fails with that line, counted from one with the blank lines, and its cause.
pub proof fn a_bad_first_line_is_reported<
    M: Fn(&str) -> Result<TraceMeta, String>,
    F: Fn(&str) -> Result<TraceRecord, String>,
    R: Fn(&str) -> Result<TraceRecord, String>,
>(
    lines: Seq<Seq<char>>,
    failure: Option<Seq<char>>,
    parse_meta: M,
    parse_first: F,
    parse_record: R,
    result: Result<(TraceMeta, Vec<TraceRecord>), TraceError>,
    at: Seq<int>,
    said: Seq<char>,
)
    requires
        lines.len() < usize::MAX,
        forall|k: int|
            0 <= k < at.len() ==> 0 <= #[trigger] at[k] < lines.len() && trimmed(
                lines[at[k]],
            ).len() > 0,
        forall|k: int, l: int| 0 <= k < l < at.len() ==> #[trigger] at[k] < #[trigger] at[l],
        forall|n: int|
            0 <= n < lines.len() && trimmed(#[trigger] lines[n]).len() > 0 ==> at.contains(n),
        at.len() > 0,
        text_keys(trimmed(lines[at[0]])) is None || {
            &&& text_keys(trimmed(lines[at[0]]))->0.contains("meta"@)
            &&& forall|line: &str, reply: Result<TraceMeta, String>|
                line@ == trimmed(lines[at[0]]) && #[trigger] call_ensures(
                    parse_meta,
                    (line,),
                    reply,
                ) ==> reply is Err && reply->Err_0@ == said
        },
        reads(lines, failure, parse_meta, parse_first, parse_record, result),
    ensures
        text_keys(trimmed(lines[at[0]])) is None ==> (result matches Err(
            TraceError::InvalidJson { line_num, cause },
        ) && line_num == at[0] + 1 && cause@ == text_fault(trimmed(lines[at[0]]))),
        text_keys(trimmed(lines[at[0]])) is Some ==> (result matches Err(
            TraceError::InvalidMeta { line_num, cause },
        ) && line_num == at[0] + 1 && cause@ == said),
{
    lines_keep_their_numbers(lines, at);
    let items = numbered(lines);
    assert(items[0] == ((at[0] + 1) as nat, trimmed(lines[at[0]])));
    let (meta_reply, replies) = choose|
        meta_reply: Result<TraceMeta, String>,
        replies: Seq<Result<TraceRecord, String>>,
    |
        {
            &&& #[trigger] heard(lines, parse_meta, parse_first, parse_record, meta_reply, replies)
            &&& yields(result, read_outcome(lines, failure, meta_reply, replies))
        };
    if text_keys(items[0].1) is Some {
        assert(replied(parse_meta, items[0].1, meta_reply));
    }
}

/// A written text is its lines, whole and in order, each with a line feed behind it: what is
/// written in two goes is written one behind the other.
pub proof fn lines_are_written_one_behind_the_other(
    first: Seq<Seq<char>>,
    second: Seq<Seq<char>>,
    line: Seq<char>,
)
    ensures
        framed(first + second) == framed(first) + framed(second),
        framed(seq![line]) == line + seq!['\n'],
        framed(Seq::empty()) == Seq::<char>::empty(),
    decreases second.len(),
{
    assert(seq![line].drop_last() == Seq::<Seq<char>>::empty());
    assert(framed(seq![line].drop_last()) == Seq::<char>::empty());
    assert(framed(seq![line]) =~= line + seq!['\n']);
    if second.len() == 0 {
        assert(first + second == first);
        assert(framed(first) + framed(second) =~= framed(first));
    } else {
        let front = second.drop_last();
        lines_are_written_one_behind_the_other(first, front, line);
        assert((first + second).drop_last() == first + front);
        assert(framed(first + second) =~= framed(first) + framed(second));
    }
}

/// The meta line holds the header's JSON text whole, as the value of its one key.
pub proof fn the_meta_line_wraps_the_header(meta_json: Seq<char>)
    ensures
        ({
            let line = meta_line(meta_json);
            &&& line.len() == meta_json.len() + 9
            &&& line.take(8) == seq!['{', '"', 'm', 'e', 't', 'a', '"', ':']
            &&& line.subrange(8, 8int + meta_json.len()) == meta_json
            &&& line.last() == '}'
        }),
{
    reveal_strlit("{\"meta\":");
    reveal_strlit("}");
    let line = meta_line(meta_json);
    assert(line.take(8) =~= seq!['{', '"', 'm', 'e', 't', 'a', '"', ':']);
    assert(line.subrange(8, 8int + meta_json.len()) =~= meta_json);
}

/// Times are equal as numbers are: each number equals itself and its bit pattern's equals only,
/// but zero and minus zero equal each other, and what is no number equals nothing.
pub proof fn times_are_equal_as_numbers(a: Millis, b: Millis)
    ensures
        same_number(a, b) == same_number(b, a),
        a.bits <= 0x7ff0_0000_0000_0000 ==> same_number(a, a),
        0x8000_0000_0000_0000 <= a.bits <= 0xfff0_0000_0000_0000 ==> same_number(a, a),
        0x7ff0_0000_0000_0000 < a.bits < 0x8000_0000_0000_0000 ==> !same_number(a, b),
        a.bits > 0xfff0_0000_0000_0000 ==> !same_number(a, b),
        a.bits == 0 && b.bits == 0x8000_0000_0000_0000 ==> same_number(a, b),
        a.bits != b.bits && a.bits != 0 && b.bits != 0 ==> !same_number(a, b),
        a.bits == 0 && b.bits != 0 && b.bits != 0x8000_0000_0000_0000 ==> !same_number(a, b),
{
}

/// A freeform field is found under its name with its value, and no other name is.
pub proof fn a_field_is_found_under_its_name(
    fields: Seq<(Seq<char>, Seq<char>)>,
    name: Seq<char>,
)
    requires
        in_order(fields),
    ensures
        by_name(fields).contains_key(name) <==> exists|i: int|
            0 <= i < fields.len() && (#[trigger] fields[i]).0 == name,
        forall|i: int|
            0 <= i < fields.len() && (#[trigger] fields[i]).0 == name ==> by_name(fields)[name]
                == fields[i].1,
{
    lemma_by_name(fields);
}

/// A report names the line in digits and what is wrong there, with the cause behind it where there
/// is one; the message is the same without the cause.
pub proof fn a_report_tells_the_cause(fault: TraceFault)
    ensures
        cause_text(fault) is None ==> report_text(fault) == error_text(fault),
        cause_text(fault) matches Some(cause) ==> report_text(fault) == error_text(fault) + ": "@
            + cause,
        match fault {
            TraceFault::ReadFailed { line_num, cause } => report_text(fault) == "reading line "@
                + decimal_of(line_num as nat) + ": "@ + cause,
            TraceFault::InvalidJson { line_num, cause } => report_text(fault) == "line "@
                + decimal_of(line_num as nat) + ": invalid JSON"@ + ": "@ + cause,
            TraceFault::InvalidMeta { line_num, cause } => report_text(fault) == "line "@
                + decimal_of(line_num as nat) + ": invalid meta object"@ + ": "@ + cause,
            TraceFault::InvalidRecord { line_num, cause } => report_text(fault) == "line "@
                + decimal_of(line_num as nat) + ": invalid trace record"@ + ": "@ + cause,
            TraceFault::MissingItl { line_num, output_tokens } => report_text(fault) == "line "@
                + decimal_of(line_num as nat) + ": output_tokens="@ + decimal_of(
                output_tokens as nat,
            ) + " but neither itl_ms nor itl_summary is present"@,
            TraceFault::ContextMismatch { line_num, running, prefill, gaps } => report_text(fault)
                == "line "@ + decimal_of(line_num as nat) + ": itl_ctx arrays (running="@
                + decimal_of(running as nat) + ", prefill="@ + decimal_of(prefill as nat)
                + ") must parallel itl_ms (len="@ + decimal_of(gaps as nat) + ")"@,
        },
{
}

/// An error says what it holds: the line, and the cause or the numbers that do not fit.
pub proof fn an_error_says_what_it_holds(error: TraceError)
    ensures
        match error {
            TraceError::ReadFailed { line_num, cause } => {
                &&& error@ == TraceFault::ReadFailed { line_num, cause: cause@ }
                &&& cause_text(error@) == Some(cause@)
            },
            TraceError::InvalidJson { line_num, cause } => {
                &&& error@ == TraceFault::InvalidJson { line_num, cause: cause@ }
                &&& cause_text(error@) == Some(cause@)
            },
            TraceError::InvalidMeta { line_num, cause } => {
                &&& error@ == TraceFault::InvalidMeta { line_num, cause: cause@ }
                &&& cause_text(error@) == Some(cause@)
            },
            TraceError::InvalidRecord { line_num, cause } => {
                &&& error@ == TraceFault::InvalidRecord { line_num, cause: cause@ }
                &&& cause_text(error@) == Some(cause@)
            },
            TraceError::MissingItl { line_num, output_tokens } => {
                &&& error@ == TraceFault::MissingItl { line_num, output_tokens }
                &&& cause_text(error@) is None
            },
            TraceError::ContextMismatch { line_num, running, prefill, gaps } => {
                &&& error@ == TraceFault::ContextMismatch { line_num, running, prefill, gaps }
                &&& cause_text(error@) is None
            },
        },
{
}

/// A header's freeform fields are those that it lists, and an optional cause is what its text says.
pub proof fn a_header_says_what_it_holds(meta: TraceMeta, name: Seq<char>, cause: Option<String>)
    requires
        meta.wf(),
    ensures
        meta.extra_map().contains_key(name) <==> exists|i: int|
            0 <= i < meta.extra@.len() && (#[trigger] meta.extra@[i]).0@ == name,
        forall|i: int|
            0 <= i < meta.extra@.len() && (#[trigger] meta.extra@[i]).0@ == name
                ==> meta.extra_map()[name] == meta.extra@[i].1@,
        forall|i: int, j: int|
            0 <= i < j < meta.extra@.len() ==> before(
                (#[trigger] meta.extra@[i]).0@,
                (#[trigger] meta.extra@[j]).0@,
            ),
        cause is Some ==> cause_view(cause) == Some(cause->0@),
        cause is None ==> cause_view(cause) is None,
{
    let fields = fields_view(meta.extra@);
    a_field_is_found_under_its_name(fields, name);
    assert(forall|i: int|
        0 <= i < meta.extra@.len() ==> (#[trigger] meta.extra@[i]).0@ == fields[i].0
            && meta.extra@[i].1@ == fields[i].1);
    if meta.extra_map().contains_key(name) {
        let i = choose|i: int| 0 <= i < fields.len() && (#[trigger] fields[i]).0 == name;
        assert(meta.extra@[i].0@ == name);
    }
    if exists|i: int| 0 <= i < meta.extra@.len() && (#[trigger] meta.extra@[i]).0@ == name {
        let i = choose|i: int| 0 <= i < meta.extra@.len() && (#[trigger] meta.extra@[i]).0@ == name;
        assert(fields[i].0 == name);
    }
    assert forall|i: int, j: int| 0 <= i < j < meta.extra@.len() implies before(
        (#[trigger] meta.extra@[i]).0@,
        (#[trigger] meta.extra@[j]).0@,
    ) by {
        assert(before(fields[i].0, fields[j].0));
    }
}

} // verus!

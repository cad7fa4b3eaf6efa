//! Verbatim decode-schedule replay: each matched request emits its recorded per-chunk token
//! counts at its recorded gaps.
//!
//! A request finds its record either by the trailing `-<i>` of its id ([`IndexSteps`]) or by
//! the block-hash chain of its prompt, consume-once ([`PrefixSteps`]).
use crate::text::{
    a_number_is_parsed_from_its_digits, after_last, decimal_of, digits_are_worth_their_places,
    digits_read_back_as_their_number, digits_value, nothing_after_the_last_is_lost, parse_usize,
    parsed_usize, tail_after,
};
use crate::trace::{Millis, TraceRecord};
use std::collections::{HashMap, VecDeque};
use vstd::prelude::*;

verus! {

/// One decode step: the gap before it, never below zero, and the tokens it delivers.
#[derive(Debug, Clone, Copy, PartialEq)]
pub struct StepDraw {
    pub delay: Millis,
    pub tokens: u32,
}

/// One request's recorded decode timeline, consumed step by step at replay.
#[derive(Debug)]
pub struct ScriptedDecode {
    /// Size of the first output chunk (the prefill step's emission).
    pub first_chunk_tokens: u32,
    /// Decode steps after the first chunk, in order.
    pub steps: VecDeque<StepDraw>,
}

/// How many tokens several steps deliver.
pub open spec fn step_total(steps: Seq<StepDraw>) -> nat
    decreases steps.len(),
{
    if steps.len() == 0 {
        0
    } else {
        step_total(steps.drop_last()) + steps.last().tokens as nat
    }
}

/// The sum of several counts.
pub open spec fn count_total(counts: Seq<u32>) -> nat
    decreases counts.len(),
{
    if counts.len() == 0 {
        0
    } else {
        count_total(counts.drop_last()) + counts.last() as nat
    }
}

impl ScriptedDecode {
    /// The recorded output length: the first chunk and every step after it.
    pub open spec fn total(self) -> nat {
        self.first_chunk_tokens as nat + step_total(self.steps@)
    }

    /// Total recorded output length, used to clamp the live request's `max_tokens` so the
    /// replayed stream ends exactly where the capture did.
    pub fn output_tokens(&self) -> (total: usize)
        requires
            self.total() <= usize::MAX,
        ensures
            total == self.total(),
    {
        let mut total: usize = self.first_chunk_tokens as usize;
        let mut at: usize = 0;
        assert(self.steps@.take(0) == Seq::<StepDraw>::empty());
        while at < self.steps.len()
            invariant
                at <= self.steps@.len(),
                self.total() <= usize::MAX,
                total == self.first_chunk_tokens + step_total(self.steps@.take(at as int)),
            decreases self.steps@.len() - at,
        {
            proof {
                let head = self.steps@.take(at + 1);
                assert(head.drop_last() == self.steps@.take(at as int));
                lemma_step_prefix(self.steps@, at + 1);
            }
            total = total + self.steps[at].tokens as usize;
            at = at + 1;
        }
        assert(self.steps@.take(at as int) == self.steps@);
        total
    }
}

/// The first steps deliver no more than all of them.
proof fn lemma_step_prefix(steps: Seq<StepDraw>, n: int)
    requires
        0 <= n <= steps.len(),
    ensures
        step_total(steps.take(n)) <= step_total(steps),
    decreases steps.len(),
{
    if n == steps.len() {
        assert(steps.take(n) == steps);
    } else {
        lemma_step_prefix(steps.drop_last(), n);
        assert(steps.drop_last().take(n) == steps.take(n));
    }
}

/// The token counts of a record's chunks after the first: parallel to its gaps, one each where
/// the record lists none. `None` where the record has no gaps, or counts that do not parallel
/// them.
pub open spec fn chunk_counts(record: TraceRecord) -> Option<Seq<u32>> {
    match record.itl_ms {
        None => None,
        Some(gaps) => match record.itl_tokens {
            None => Some(Seq::new(gaps@.len(), |i: int| 1u32)),
            Some(counts) => if counts@.len() == gaps@.len() {
                Some(counts@)
            } else {
                None
            },
        },
    }
}

/// The size of a record's first chunk: what its later chunks leave of the output, and at
/// least one token. The count is kept in 32 bits.
pub open spec fn first_chunk(output_tokens: nat, later: nat) -> u32 {
    let rest: nat = if output_tokens > later {
        (output_tokens - later) as nat
    } else {
        1
    };
    (rest % 0x1_0000_0000) as u32
}

/// A gap that is no time at all or longer: a gap below zero, and one that is no number, is
/// none. Their bit patterns are the ones above that of positive infinity.
pub open spec fn floored(gap: Millis) -> Millis {
    if gap.bits > 0x7ff0_0000_0000_0000 {
        Millis { bits: 0 }
    } else {
        gap
    }
}

/// Floors a gap at zero.
pub fn floor_gap(gap: Millis) -> (floor: Millis)
    ensures
        floor == floored(gap),
{
    if gap.bits > 0x7ff0_0000_0000_0000 {
        Millis { bits: 0 }
    } else {
        gap
    }
}

/// The steps with these gaps, floored at zero, and counts; each delivers at least one token.
pub open spec fn recorded_steps(gaps: Seq<Millis>, counts: Seq<u32>) -> Seq<StepDraw> {
    Seq::new(
        gaps.len(),
        |i: int|
            StepDraw {
                delay: floored(gaps[i]),
                tokens: if counts[i] > 1 {
                    counts[i]
                } else {
                    1
                },
            },
    )
}

/// Whether a schedule is the one that a record gives: the recorded chunks at the recorded
/// gaps, or none where the record has nothing to replay.
pub open spec fn is_schedule_of(record: TraceRecord, schedule: Option<ScriptedDecode>) -> bool {
    match chunk_counts(record) {
        None => schedule is None,
        Some(counts) => {
            &&& schedule is Some
            &&& schedule->0.first_chunk_tokens == first_chunk(
                record.output_tokens as nat,
                count_total(counts),
            )
            &&& schedule->0.steps@ == recorded_steps(record.itl_ms->0@, counts)
        },
    }
}

/// Builds a request's decode schedule from its trace record. `None` when the record carries
/// no per-chunk timing to replay.
pub fn schedule_from_record(record: &TraceRecord) -> (schedule: Option<ScriptedDecode>)
    ensures
        is_schedule_of(*record, schedule),
{
    let gaps: &Vec<Millis> = match &record.itl_ms {
        None => {
            return None;
        },
        Some(gaps) => gaps,
    };
    if let Some(counts) = &record.itl_tokens {
        if counts.len() != gaps.len() {
            return None;
        }
    }
    let ghost counts = chunk_counts(*record)->0;
    let mut later: usize = 0;
    let mut steps: VecDeque<StepDraw> = VecDeque::new();
    let mut at: usize = 0;
    assert(counts.take(0) == Seq::<u32>::empty());
    while at < gaps.len()
        invariant
            at <= gaps@.len(),
            record.itl_ms == Some(*gaps),
            chunk_counts(*record) == Some(counts),
            counts.len() == gaps@.len(),
            record.itl_tokens is Some ==> counts == record.itl_tokens->0@,
            record.itl_tokens is None ==> counts == Seq::new(gaps@.len(), |i: int| 1u32),
            later == (if count_total(counts.take(at as int)) <= usize::MAX {
                count_total(counts.take(at as int))
            } else {
                usize::MAX as nat
            }),
            steps@ == recorded_steps(gaps@, counts).take(at as int),
        decreases gaps@.len() - at,
    {
        let count: u32 = match &record.itl_tokens {
            None => 1,
            Some(listed) => listed[at],
        };
        assert(count == counts[at as int]);
        let tokens: u32 = if count > 1 {
            count
        } else {
            1
        };
        steps.push_back(StepDraw { delay: floor_gap(gaps[at]), tokens });
        later = later.saturating_add(count as usize);
        at = at + 1;
        proof {
            assert(counts.take(at as int).drop_last() == counts.take(at - 1));
            let whole = recorded_steps(gaps@, counts);
            assert(whole.take(at as int) == whole.take(at - 1).push(whole[at - 1]));
        }
    }
    assert(counts.take(at as int) == counts);
    assert(recorded_steps(gaps@, counts).take(at as int) == recorded_steps(gaps@, counts));
    let rest: u64 = if record.output_tokens > later {
        (record.output_tokens - later) as u64
    } else {
        1
    };
    let first_chunk_tokens: u32 = (rest % 0x1_0000_0000) as u32;
    Some(ScriptedDecode { first_chunk_tokens, steps })
}

/// Steps that each deliver their recorded count deliver what was recorded.
proof fn lemma_steps_deliver_counts(gaps: Seq<Millis>, counts: Seq<u32>)
    requires
        gaps.len() == counts.len(),
        forall|i: int| 0 <= i < counts.len() ==> #[trigger] counts[i] >= 1,
    ensures
        step_total(recorded_steps(gaps, counts)) == count_total(counts),
    decreases counts.len(),
{
    if counts.len() > 0 {
        let n = counts.len() - 1;
        lemma_steps_deliver_counts(gaps.drop_last(), counts.drop_last());
        assert(recorded_steps(gaps, counts).drop_last() == recorded_steps(
            gaps.drop_last(),
            counts.drop_last(),
        ));
        assert(counts[n] >= 1);
    }
}

/// The replayed stream ends exactly where the capture did: a schedule delivers the output
/// length of its record, as long as no recorded chunk is empty and the first chunk is not
/// either, and its size fits in 32 bits.
pub proof fn a_replay_ends_where_the_capture_did(record: TraceRecord, schedule: ScriptedDecode)
    requires
        is_schedule_of(record, Some(schedule)),
        forall|i: int|
            0 <= i < chunk_counts(record)->0.len() ==> #[trigger] chunk_counts(record)->0[i] >= 1,
        count_total(chunk_counts(record)->0) < record.output_tokens,
        record.output_tokens - count_total(chunk_counts(record)->0) < 0x1_0000_0000,
    ensures
        schedule.total() == record.output_tokens,
{
    lemma_steps_deliver_counts(record.itl_ms->0@, chunk_counts(record)->0);
}

/// Whether record `i` lists a count for its chunk `j`.
pub open spec fn lists_chunk(records: Seq<TraceRecord>, i: int, j: int) -> bool {
    &&& 0 <= i < records.len()
    &&& records[i].itl_tokens is Some
    &&& 0 <= j < records[i].itl_tokens->0@.len()
}

/// The count that record `i` lists for its chunk `j`.
pub open spec fn listed_chunk(records: Seq<TraceRecord>, i: int, j: int) -> u32 {
    records[i].itl_tokens->0@[j]
}

/// Whether `widest` bounds the listed chunks and is one of them, or is one token.
pub open spec fn is_widest_chunk(records: Seq<TraceRecord>, widest: u32) -> bool {
    &&& widest >= 1
    &&& forall|i: int, j: int|
        lists_chunk(records, i, j) ==> #[trigger] listed_chunk(records, i, j) <= widest
    &&& widest > 1 ==> exists|i: int, j: int|
        lists_chunk(records, i, j) && #[trigger] listed_chunk(records, i, j) == widest
}

/// Whether `budget` is the speculative budget that the records show: the widest listed chunk
/// less one, or none where every listed chunk is a single token.
pub open spec fn is_spec_budget(records: Seq<TraceRecord>, budget: Option<u32>) -> bool {
    exists|widest: u32| #[trigger]
        is_widest_chunk(records, widest) && budget == (if widest > 1 {
            Some((widest - 1) as u32)
        } else {
            None
        })
}

/// Configured speculative budget K = widest recorded burst - 1, or `None` when every recorded
/// chunk is a single token.
pub fn derive_spec_tokens(records: &Vec<TraceRecord>) -> (budget: Option<u32>)
    ensures
        is_spec_budget(records@, budget),
{
    let mut widest: u32 = 1;
    let mut i: usize = 0;
    while i < records.len()
        invariant
            i <= records@.len(),
            is_widest_chunk(records@.take(i as int), widest),
        decreases records@.len() - i,
    {
        let ghost before = widest;
        let ghost head = records@.take(i as int);
        let ghost next = records@.take(i + 1);
        if let Some(counts) = &records[i].itl_tokens {
            let mut j: usize = 0;
            while j < counts.len()
                invariant
                    j <= counts@.len(),
                    i < records@.len(),
                    records@[i as int].itl_tokens == Some(*counts),
                    next == records@.take(i + 1),
                    before <= widest,
                    widest > before ==> exists|k: int|
                        0 <= k < j && #[trigger] listed_chunk(next, i as int, k) == widest,
                    forall|k: int|
                        0 <= k < j ==> #[trigger] listed_chunk(next, i as int, k) <= widest,
                decreases counts@.len() - j,
            {
                assert(listed_chunk(next, i as int, j as int) == counts@[j as int]);
                if counts[j] > widest {
                    widest = counts[j];
                }
                j = j + 1;
            }
        }
        proof {
            assert forall|a: int, b: int| lists_chunk(next, a, b) implies #[trigger] listed_chunk(
                next,
                a,
                b,
            ) <= widest by {
                if a < i {
                    assert(lists_chunk(head, a, b));
                    assert(listed_chunk(head, a, b) == listed_chunk(next, a, b));
                }
            }
            if widest > before {
                let k = choose|k: int|
                    0 <= k < records@[i as int].itl_tokens->0@.len() && #[trigger] listed_chunk(
                        next,
                        i as int,
                        k,
                    ) == widest;
                assert(lists_chunk(next, i as int, k));
            } else if widest > 1 {
                let (a, b) = choose|a: int, b: int|
                    lists_chunk(head, a, b) && #[trigger] listed_chunk(head, a, b) == widest;
                assert(lists_chunk(next, a, b) && listed_chunk(next, a, b) == widest);
            }
        }
        i = i + 1;
    }
    assert(records@.take(i as int) == records@);
    if widest > 1 {
        Some(widest - 1)
    } else {
        None
    }
}

/// Hands an incoming request its verbatim decode schedule at admission.
pub trait StepSource: Send + Sized {
    /// Whether the source is in order.
    spec fn wf(self) -> bool;

    /// The source's speculative budget.
    spec fn budget(self) -> Option<u32>;

    /// Whether a request with this id and prompt takes `schedule` and leaves the source as
    /// `after`.
    spec fn takes(
        self,
        request_id: Seq<char>,
        prompt: Seq<u32>,
        schedule: Option<ScriptedDecode>,
        after: Self,
    ) -> bool;

    /// Matches the request and returns its decode schedule, or `None` to leave it on the
    /// modeled latency path.
    fn take_schedule(&mut self, request_id: &str, prompt_token_ids: &[u32]) -> (schedule: Option<
        ScriptedDecode,
    >)
        requires
            old(self).wf(),
        ensures
            final(self).wf(),
            final(self).budget() == old(self).budget(),
            old(self).takes(request_id@, prompt_token_ids@, schedule, *final(self)),
    ;

    /// Configured speculative budget K, when the replayed bursts are multi-token.
    fn spec_tokens(&self) -> (budget: Option<u32>)
        ensures
            budget == self.budget(),
    ;
}

/// Resolves a request to its record by the trailing `-<index>` of its id.
pub struct IndexSteps {
    pub records: Vec<TraceRecord>,
    pub spec_tokens: Option<u32>,
}

/// The record number at the end of a request id: what follows its last `-`, or the whole id.
pub open spec fn record_number(request_id: Seq<char>) -> Option<usize> {
    parsed_usize(after_last(request_id, '-'))
}

impl IndexSteps {
    /// A source over the records of a capture.
    pub fn from_records(records: Vec<TraceRecord>) -> (source: IndexSteps)
        ensures
            source.wf(),
            source.records == records,
    {
        let spec_tokens = derive_spec_tokens(&records);
        IndexSteps { records, spec_tokens }
    }

    /// The record number that a request id ends in.
    pub fn record_index(request_id: &str) -> (index: Option<usize>)
        ensures
            index == record_number(request_id@),
    {
        let tail = tail_after(request_id, '-');
        parse_usize(tail.as_str())
    }
}

impl StepSource for IndexSteps {
    open spec fn wf(self) -> bool {
        is_spec_budget(self.records@, self.spec_tokens)
    }

    open spec fn budget(self) -> Option<u32> {
        self.spec_tokens
    }

    /// The numbered record's schedule; the source stays as it is.
    open spec fn takes(
        self,
        request_id: Seq<char>,
        prompt: Seq<u32>,
        schedule: Option<ScriptedDecode>,
        after: Self,
    ) -> bool {
        &&& after == self
        &&& match record_number(request_id) {
            Some(i) if i < self.records@.len() => is_schedule_of(
                self.records@[i as int],
                schedule,
            ),
            _ => schedule is None,
        }
    }

    fn take_schedule(&mut self, request_id: &str, prompt_token_ids: &[u32]) -> (schedule: Option<
        ScriptedDecode,
    >) {
        match Self::record_index(request_id) {
            Some(i) => {
                if i < self.records.len() {
                    schedule_from_record(&self.records[i])
                } else {
                    None
                }
            },
            None => None,
        }
    }

    fn spec_tokens(&self) -> (budget: Option<u32>) {
        self.spec_tokens
    }
}

/// Whether record `i` can be matched by a block hash: it has gaps to replay, and the hash is
/// in its chain.
pub open spec fn carries(records: Seq<TraceRecord>, i: int, hash: u64) -> bool {
    &&& 0 <= i < records.len()
    &&& records[i].itl_ms is Some
    &&& records[i].block_hashes is Some
    &&& records[i].block_hashes->0@.contains(hash)
}

/// Whether any record can be matched by a block hash.
pub open spec fn is_carried(records: Seq<TraceRecord>, hash: u64) -> bool {
    exists|i: int| #[trigger] carries(records, i, hash)
}

/// Whether some matchable record was not served yet.
pub open spec fn has_fresh(records: Seq<TraceRecord>, consumed: Seq<bool>, hash: u64) -> bool {
    exists|i: int| #[trigger] carries(records, i, hash) && !consumed[i]
}

/// Whether record `idx` is the one to serve for a block hash: the earliest that was not served
/// yet, or the earliest of all once every one was.
pub open spec fn serves(
    records: Seq<TraceRecord>,
    consumed: Seq<bool>,
    hash: u64,
    idx: int,
) -> bool {
    &&& carries(records, idx, hash)
    &&& if has_fresh(records, consumed, hash) {
        &&& !consumed[idx]
        &&& forall|i: int| #[trigger] carries(records, i, hash) && !consumed[i] ==> idx <= i
    } else {
        forall|i: int| #[trigger] carries(records, i, hash) ==> idx <= i
    }
}

/// The deepest position of a chain whose hash matches a record.
pub open spec fn deepest(records: Seq<TraceRecord>, chain: Seq<u64>) -> Option<nat>
    decreases chain.len(),
{
    if chain.len() == 0 {
        None
    } else if is_carried(records, chain.last()) {
        Some((chain.len() - 1) as nat)
    } else {
        deepest(records, chain.drop_last())
    }
}

/// Whether a prompt with this hash chain takes `schedule`, and leaves `after` of what was
/// `consumed`.
pub open spec fn chain_takes(
    records: Seq<TraceRecord>,
    consumed: Seq<bool>,
    chain: Seq<u64>,
    schedule: Option<ScriptedDecode>,
    after: Seq<bool>,
) -> bool {
    match deepest(records, chain) {
        None => schedule is None && after == consumed,
        Some(depth) => exists|idx: int| #[trigger]
            serves(records, consumed, chain[depth as int], idx) && is_schedule_of(
                records[idx],
                schedule,
            ) && after == consumed.update(idx, true),
    }
}

/// Whether the hasher gives `chain` for a prompt cut into blocks.
pub open spec fn hashed<H: Fn(&[u32], usize) -> Option<Vec<u64>>>(
    block_hashes: H,
    prompt: Seq<u32>,
    block_size: usize,
    chain: Option<Vec<u64>>,
) -> bool {
    exists|tokens: &[u32]|
        tokens@ == prompt && #[trigger] call_ensures(block_hashes, (tokens, block_size), chain)
}

/// Resolves a live request to its record by longest block-hash prefix, consume-once. Only
/// records carrying both gaps and block hashes are matchable.
pub struct PrefixSteps<H> {
    pub records: Vec<TraceRecord>,
    pub by_hash: HashMap<u64, Vec<usize>>,
    pub consumed: Vec<bool>,
    pub block_size: usize,
    pub spec_tokens: Option<u32>,
    /// Gives the hash chain of a prompt for a block size.
    pub block_hashes: H,
}

/// Whether record `i` is among the first `n` and a block hash matches it, or is record `n`
/// and the hash was seen in its chain.
pub open spec fn carries_so_far(
    records: Seq<TraceRecord>,
    n: int,
    seen: Seq<u64>,
    i: int,
    hash: u64,
) -> bool {
    i < n && carries(records, i, hash) || i == n && seen.contains(hash)
}

/// Whether a list holds exactly the records that a block hash matches so far, in order.
pub open spec fn lists_carriers(
    records: Seq<TraceRecord>,
    n: int,
    seen: Seq<u64>,
    hash: u64,
    list: Seq<usize>,
) -> bool {
    &&& forall|k: int|
        0 <= k < list.len() ==> carries_so_far(records, n, seen, (#[trigger] list[k]) as int, hash)
    &&& forall|i: int| #[trigger]
        carries_so_far(records, n, seen, i, hash) ==> list.contains(i as usize)
    &&& forall|k: int, l: int| 0 <= k <= l < list.len() ==> list[k] <= list[l]
}

/// Whether an index holds the list of records for each block hash that matches one of the
/// first `n` records, or was seen in the chain of record `n`.
pub open spec fn indexes(
    records: Seq<TraceRecord>,
    n: int,
    seen: Seq<u64>,
    by_hash: Map<u64, Vec<usize>>,
) -> bool {
    forall|hash: u64|
        if #[trigger] by_hash.contains_key(hash) {
            by_hash[hash]@.len() > 0 && lists_carriers(records, n, seen, hash, by_hash[hash]@)
        } else {
            lists_carriers(records, n, seen, hash, Seq::empty())
        }
}

/// Adds record `i` to the list of a block hash.
fn note(by_hash: &mut HashMap<u64, Vec<usize>>, hash: u64, i: usize)
    ensures
        final(by_hash)@.dom() == old(by_hash)@.dom().insert(hash),
        forall|other: u64|
            other != hash && #[trigger] old(by_hash)@.contains_key(other) ==> final(by_hash)@[other]
                == old(by_hash)@[other],
        final(by_hash)@[hash]@ == (if old(by_hash)@.contains_key(hash) {
            old(by_hash)@[hash]@
        } else {
            Seq::empty()
        }).push(i),
{
    broadcast use vstd::std_specs::hash::group_hash_axioms;

    let mut list: Vec<usize> = match by_hash.remove(&hash) {
        Some(list) => list,
        None => Vec::new(),
    };
    list.push(i);
    by_hash.insert(hash, list);
    assert(by_hash@.dom() =~= old(by_hash)@.dom().insert(hash));
}

/// A list stays in order when the record being read joins it.
proof fn lemma_joins_list(
    records: Seq<TraceRecord>,
    n: usize,
    seen: Seq<u64>,
    hash: u64,
    list: Seq<usize>,
)
    requires
        lists_carriers(records, n as int, seen, hash, list),
    ensures
        lists_carriers(records, n as int, seen.push(hash), hash, list.push(n)),
{
    let more = seen.push(hash);
    let longer = list.push(n);
    assert(more[seen.len() as int] == hash);
    assert(longer[list.len() as int] == n);
    assert forall|k: int| 0 <= k < longer.len() implies carries_so_far(
        records,
        n as int,
        more,
        (#[trigger] longer[k]) as int,
        hash,
    ) by {
        if k < list.len() {
            assert(carries_so_far(records, n as int, seen, list[k] as int, hash));
        }
    }
    assert forall|i: int| #[trigger]
        carries_so_far(records, n as int, more, i, hash) implies longer.contains(i as usize) by {
        if i < n {
            assert(carries_so_far(records, n as int, seen, i, hash));
            let k = choose|k: int| 0 <= k < list.len() && list[k] == i as usize;
            assert(longer[k] == i as usize);
        }
    }
    assert forall|k: int, l: int| 0 <= k <= l < longer.len() implies longer[k] <= longer[l] by {
        if k < list.len() {
            assert(carries_so_far(records, n as int, seen, list[k] as int, hash));
        }
    }
}

/// A list is not touched by another hash in the chain of the record being read.
proof fn lemma_other_hash(
    records: Seq<TraceRecord>,
    n: int,
    seen: Seq<u64>,
    hash: u64,
    other: u64,
    list: Seq<usize>,
)
    requires
        hash != other,
        lists_carriers(records, n, seen, other, list),
    ensures
        lists_carriers(records, n, seen.push(hash), other, list),
{
    let more = seen.push(hash);
    assert(more.contains(other) == seen.contains(other)) by {
        if seen.contains(other) {
            let k = choose|k: int| 0 <= k < seen.len() && seen[k] == other;
            assert(more[k] == other);
        }
        if more.contains(other) {
            let k = choose|k: int| 0 <= k < more.len() && more[k] == other;
            assert(seen[k] == other);
        }
    }
    assert forall|i: int|
        #![trigger carries_so_far(records, n, more, i, other)]
        #![trigger carries_so_far(records, n, seen, i, other)]
        carries_so_far(records, n, more, i, other) == carries_so_far(
        records,
        n,
        seen,
        i,
        other,
    ) by {}
}

/// Once a record was read whole, it counts among the first.
proof fn lemma_record_read(
    records: Seq<TraceRecord>,
    n: int,
    seen: Seq<u64>,
    by_hash: Map<u64, Vec<usize>>,
)
    requires
        0 <= n < records.len(),
        forall|hash: u64| #[trigger] seen.contains(hash) == carries(records, n, hash),
        indexes(records, n, seen, by_hash),
    ensures
        indexes(records, n + 1, Seq::empty(), by_hash),
{
    let none = Seq::<u64>::empty();
    assert forall|hash: u64, i: int|
        #![trigger carries_so_far(records, n + 1, none, i, hash)]
        #![trigger carries_so_far(records, n, seen, i, hash)]
        carries_so_far(records, n + 1, none, i, hash) == carries_so_far(
        records,
        n,
        seen,
        i,
        hash,
    ) by {
        assert(seen.contains(hash) == carries(records, n, hash));
    }
    assert forall|hash: u64|
        if #[trigger] by_hash.contains_key(hash) {
            by_hash[hash]@.len() > 0 && lists_carriers(records, n + 1, none, hash, by_hash[hash]@)
        } else {
            lists_carriers(records, n + 1, none, hash, Seq::empty())
        } by {}
}

/// The first candidate that was not consumed, or the first of all.
fn pick(candidates: &Vec<usize>, consumed: &Vec<bool>) -> (idx: usize)
    requires
        candidates@.len() > 0,
        forall|k: int|
            0 <= k < candidates@.len() ==> (#[trigger] candidates@[k]) < consumed@.len(),
    ensures
        ({
            ||| exists|k: int|
                0 <= k < candidates@.len() && idx == #[trigger] candidates@[k] && !consumed@[idx as int]
                    && forall|l: int|
                    0 <= l < k ==> consumed@[(#[trigger] candidates@[l]) as int]
            ||| idx == candidates@[0] && forall|l: int|
                0 <= l < candidates@.len() ==> consumed@[(#[trigger] candidates@[l]) as int]
        }),
{
    let mut k: usize = 0;
    while k < candidates.len()
        invariant
            k <= candidates@.len(),
            forall|l: int|
                0 <= l < candidates@.len() ==> (#[trigger] candidates@[l]) < consumed@.len(),
            forall|l: int| 0 <= l < k ==> consumed@[(#[trigger] candidates@[l]) as int],
        decreases candidates@.len() - k,
    {
        if !consumed[candidates[k]] {
            return candidates[k];
        }
        k = k + 1;
    }
    candidates[0]
}

impl<H: Fn(&[u32], usize) -> Option<Vec<u64>> + Send> PrefixSteps<H> {
    /// A source over the records of a capture, whose chains were made with blocks of
    /// `block_size` tokens.
    pub fn from_records(records: Vec<TraceRecord>, block_size: usize, block_hashes: H) -> (source:
        PrefixSteps<H>)
        requires
            forall|tokens: &[u32], size: usize| #[trigger]
                call_requires(block_hashes, (tokens, size)),
        ensures
            source.wf(),
            source.records == records,
            source.consumed@ == Seq::new(records@.len(), |i: int| false),
            source.block_size == block_size,
            source.block_hashes == block_hashes,
    {
        broadcast use vstd::std_specs::hash::group_hash_axioms;

        let mut by_hash: HashMap<u64, Vec<usize>> = HashMap::new();
        let mut consumed: Vec<bool> = Vec::new();
        let mut i: usize = 0;
        while i < records.len()
            invariant
                i <= records@.len(),
                consumed@ == Seq::new(i as nat, |k: int| false),
                indexes(records@, i as int, Seq::empty(), by_hash@),
            decreases records@.len() - i,
        {
            let ghost mut seen = Seq::<u64>::empty();
            let record = &records[i];
            if record.itl_ms.is_some() {
                if let Some(hashes) = &record.block_hashes {
                    let mut j: usize = 0;
                    while j < hashes.len()
                        invariant
                            j <= hashes@.len(),
                            i < records@.len(),
                            seen == hashes@.take(j as int),
                            indexes(records@, i as int, seen, by_hash@),
                        decreases hashes@.len() - j,
                    {
                        let hash = hashes[j];
                        let ghost before = by_hash@;
                        note(&mut by_hash, hash, i);
                        proof {
                            let more = seen.push(hash);
                            assert forall|other: u64|
                                if #[trigger] by_hash@.contains_key(other) {
                                    by_hash@[other]@.len() > 0 && lists_carriers(
                                        records@,
                                        i as int,
                                        more,
                                        other,
                                        by_hash@[other]@,
                                    )
                                } else {
                                    lists_carriers(records@, i as int, more, other, Seq::empty())
                                } by {
                                let list = if before.contains_key(other) {
                                    before[other]@
                                } else {
                                    Seq::empty()
                                };
                                if other == hash {
                                    lemma_joins_list(records@, i, seen, hash, list);
                                } else {
                                    lemma_other_hash(
                                        records@,
                                        i as int,
                                        seen,
                                        hash,
                                        other,
                                        list,
                                    );
                                }
                            }
                            assert(more == hashes@.take(j + 1));
                            seen = more;
                        }
                        j = j + 1;
                    }
                    assert(hashes@.take(j as int) == hashes@);
                }
            }
            proof {
                lemma_record_read(records@, i as int, seen, by_hash@);
            }
            consumed.push(false);
            i = i + 1;
            assert(consumed@ =~= Seq::new(i as nat, |k: int| false));
        }
        let spec_tokens = derive_spec_tokens(&records);
        PrefixSteps { records, by_hash, consumed, block_size, spec_tokens, block_hashes }
    }

    /// Matches a prompt by its hash chain, deepest hash first: chaining makes the first hit the
    /// longest-prefix match. The record that is served is marked as consumed.
    pub fn take_matching(&mut self, chain: &Vec<u64>) -> (schedule: Option<ScriptedDecode>)
        requires
            old(self).wf(),
        ensures
            final(self).wf(),
            chain_takes(
                old(self).records@,
                old(self).consumed@,
                chain@,
                schedule,
                final(self).consumed@,
            ),
            final(self).same_setup(*old(self)),
    {
        broadcast use vstd::std_specs::hash::group_hash_axioms;

        let ghost records = self.records@;
        let ghost before = self.consumed@;
        let mut depth: usize = chain.len();
        assert(chain@.take(depth as int) == chain@);
        while depth > 0
            invariant
                depth <= chain@.len(),
                *self == *old(self),
                self.wf(),
                records == self.records@,
                before == self.consumed@,
                deepest(records, chain@) == deepest(records, chain@.take(depth as int)),
            decreases depth,
        {
            depth = depth - 1;
            let hash = chain[depth];
            let ghost head = chain@.take(depth + 1);
            assert(head.last() == hash);
            assert(head.drop_last() == chain@.take(depth as int));
            if let Some(candidates) = self.by_hash.get(&hash) {
                let ghost list = candidates@;
                let ghost none = Seq::<u64>::empty();
                assert(lists_carriers(records, records.len() as int, none, hash, list));
                assert forall|k: int| 0 <= k < list.len() implies carries(
                    records,
                    (#[trigger] list[k]) as int,
                    hash,
                ) by {
                    assert(carries_so_far(
                        records,
                        records.len() as int,
                        none,
                        list[k] as int,
                        hash,
                    ));
                }
                let idx = pick(candidates, &self.consumed);
                proof {
                    assert(records.len() == self.records.len());
                    lemma_pick_serves(records, before, hash, list, idx);
                    assert(is_carried(records, hash));
                }
                self.consumed.set(idx, true);
                let schedule = schedule_from_record(&self.records[idx]);
                proof {
                    let deep = deepest(records, chain@)->0;
                    assert(serves(records, before, chain@[deep as int], idx as int));
                    assert(self.consumed@ == before.update(idx as int, true));
                }
                return schedule;
            }
            assert(!is_carried(records, hash)) by {
                if is_carried(records, hash) {
                    let i = choose|i: int| #[trigger] carries(records, i, hash);
                    assert(carries_so_far(
                        records,
                        records.len() as int,
                        Seq::empty(),
                        i,
                        hash,
                    ));
                }
            }
        }
        None
    }

    /// Whether two sources hold the same records, whatever was consumed of them.
    pub open spec fn same_setup(self, other: Self) -> bool {
        &&& self.records == other.records
        &&& self.by_hash == other.by_hash
        &&& self.block_size == other.block_size
        &&& self.spec_tokens == other.spec_tokens
        &&& self.block_hashes == other.block_hashes
    }
}

/// The first candidate that was not consumed is the record to serve.
proof fn lemma_pick_serves(
    records: Seq<TraceRecord>,
    consumed: Seq<bool>,
    hash: u64,
    list: Seq<usize>,
    idx: usize,
)
    requires
        records.len() <= usize::MAX,
        list.len() > 0,
        lists_carriers(records, records.len() as int, Seq::empty(), hash, list),
        forall|k: int|
            0 <= k < list.len() ==> carries(records, (#[trigger] list[k]) as int, hash),
        ({
            ||| exists|k: int|
                0 <= k < list.len() && idx == #[trigger] list[k] && !consumed[idx as int]
                    && forall|l: int| 0 <= l < k ==> consumed[(#[trigger] list[l]) as int]
            ||| idx == list[0] && forall|l: int|
                0 <= l < list.len() ==> consumed[(#[trigger] list[l]) as int]
        }),
    ensures
        serves(records, consumed, hash, idx as int),
{
    let n = records.len() as int;
    assert forall|i: int| #[trigger] carries(records, i, hash) implies exists|k: int|
        0 <= k < list.len() && #[trigger] list[k] == i as usize by {
        assert(carries_so_far(records, n, Seq::empty(), i, hash));
        assert(list.contains(i as usize));
    }
    if exists|l: int| 0 <= l < list.len() && !consumed[(#[trigger] list[l]) as int] {
        let k = choose|k: int|
            0 <= k < list.len() && idx == #[trigger] list[k] && !consumed[idx as int]
                && forall|l: int| 0 <= l < k ==> consumed[(#[trigger] list[l]) as int];
        assert(carries(records, list[k] as int, hash));
        assert forall|i: int| #[trigger]
            carries(records, i, hash) && !consumed[i] implies idx <= i by {
            let l = choose|l: int| 0 <= l < list.len() && #[trigger] list[l] == i as usize;
            assert(l >= k);
        }
    } else {
        assert(carries(records, list[0] as int, hash));
        assert forall|i: int| #[trigger] carries(records, i, hash) implies idx <= i
            && consumed[i] by {
            let l = choose|l: int| 0 <= l < list.len() && #[trigger] list[l] == i as usize;
        }
    }
}

impl<H: Fn(&[u32], usize) -> Option<Vec<u64>> + Send> StepSource for PrefixSteps<H> {
    open spec fn wf(self) -> bool {
        &&& self.consumed@.len() == self.records@.len()
        &&& indexes(self.records@, self.records@.len() as int, Seq::empty(), self.by_hash@)
        &&& is_spec_budget(self.records@, self.spec_tokens)
        &&& forall|tokens: &[u32], size: usize| #[trigger]
            call_requires(self.block_hashes, (tokens, size))
    }

    open spec fn budget(self) -> Option<u32> {
        self.spec_tokens
    }

    /// What the prompt's hash chain takes; a prompt without a chain takes nothing.
    open spec fn takes(
        self,
        request_id: Seq<char>,
        prompt: Seq<u32>,
        schedule: Option<ScriptedDecode>,
        after: Self,
    ) -> bool {
        &&& after.same_setup(self)
        &&& exists|chain: Option<Vec<u64>>| #[trigger]
            hashed(self.block_hashes, prompt, self.block_size, chain) && match chain {
                Some(hashes) => chain_takes(
                    self.records@,
                    self.consumed@,
                    hashes@,
                    schedule,
                    after.consumed@,
                ),
                None => schedule is None && after.consumed@ == self.consumed@,
            }
    }

    fn take_schedule(&mut self, request_id: &str, prompt_token_ids: &[u32]) -> (schedule: Option<
        ScriptedDecode,
    >) {
        let size: usize = self.block_size;
        let chain = (self.block_hashes)(prompt_token_ids, size);
        assert(hashed(self.block_hashes, prompt_token_ids@, size, chain));
        match &chain {
            None => None,
            Some(hashes) => self.take_matching(hashes),
        }
    }

    fn spec_tokens(&self) -> (budget: Option<u32>) {
        self.spec_tokens
    }
}

/// Matching is consume-once, in the order of the records: of two requests matched one after
/// the other by the same hash, the second gets a later record than the first as long as one
/// was not served yet, and the earliest of all once every one was.
pub proof fn matches_are_consumed_in_order(
    records: Seq<TraceRecord>,
    consumed: Seq<bool>,
    hash: u64,
    first: int,
    second: int,
)
    requires
        consumed.len() == records.len(),
        serves(records, consumed, hash, first),
        serves(records, consumed.update(first, true), hash, second),
    ensures
        has_fresh(records, consumed.update(first, true), hash) ==> first < second,
        !has_fresh(records, consumed.update(first, true), hash) ==> forall|i: int| #[trigger]
            carries(records, i, hash) ==> second <= i,
{
    let after = consumed.update(first, true);
    if has_fresh(records, after, hash) {
        let i = choose|i: int| #[trigger] carries(records, i, hash) && !after[i];
        assert(carries(records, i, hash) && !consumed[i]);
        assert(has_fresh(records, consumed, hash));
        assert(carries(records, second, hash) && !consumed[second]);
        assert(first <= second);
    }
}

/// A record is served a second time only once every record that its hash matches was served.
pub proof fn no_record_is_served_twice_early(
    records: Seq<TraceRecord>,
    consumed: Seq<bool>,
    hash: u64,
    idx: int,
)
    requires
        consumed.len() == records.len(),
        serves(records, consumed, hash, idx),
        consumed[idx],
    ensures
        forall|i: int| #[trigger] carries(records, i, hash) ==> consumed[i],
{
    assert(!has_fresh(records, consumed, hash));
}

/// Every token counts once: a schedule without steps delivers its first chunk, and each step more
/// adds its own tokens.
pub proof fn each_step_adds_its_tokens(shorter: ScriptedDecode, longer: ScriptedDecode)
    requires
        longer.first_chunk_tokens == shorter.first_chunk_tokens,
        longer.steps@.len() == shorter.steps@.len() + 1,
        longer.steps@.drop_last() == shorter.steps@,
    ensures
        shorter.steps@.len() == 0 ==> shorter.total() == shorter.first_chunk_tokens,
        longer.total() == shorter.total() + longer.steps@.last().tokens,
{
}

/// Counts add up: those of two runs together are worth both, one is worth itself, none nothing.
pub proof fn counts_add_up(first: Seq<u32>, second: Seq<u32>, one: u32)
    ensures
        count_total(first + second) == count_total(first) + count_total(second),
        count_total(seq![one]) == one,
        count_total(Seq::empty()) == 0,
    decreases second.len(),
{
    assert(seq![one].drop_last() == Seq::<u32>::empty());
    assert(count_total(seq![one].drop_last()) == 0);
    if second.len() == 0 {
        assert(first + second == first);
    } else {
        counts_add_up(first, second.drop_last(), one);
        assert((first + second).drop_last() == first + second.drop_last());
    }
}

proof fn lemma_count_ones(counts: Seq<u32>)
    requires
        forall|i: int| 0 <= i < counts.len() ==> #[trigger] counts[i] == 1,
    ensures
        count_total(counts) == counts.len(),
    decreases counts.len(),
{
    if counts.len() > 0 {
        lemma_count_ones(counts.drop_last());
        assert(counts[counts.len() - 1] == 1);
    }
}

/// A record is replayed verbatim: it has a schedule exactly where it lists gaps and any chunk
/// counts parallel them. Each gap gives one step, after that gap or at once where the gap is below
/// zero or no number, with the tokens that its chunk delivered, one where the record does not say
/// or says none. The first chunk holds what the others leave of the output, in 32 bits, and one
/// token where they leave nothing.
pub proof fn a_record_is_replayed_verbatim(record: TraceRecord, schedule: Option<ScriptedDecode>)
    requires
        is_schedule_of(record, schedule),
    ensures
        schedule is Some <==> {
            &&& record.itl_ms is Some
            &&& record.itl_tokens is Some ==> record.itl_tokens->0@.len()
                == record.itl_ms->0@.len()
        },
        schedule is Some ==> schedule->0.steps@.len() == record.itl_ms->0@.len(),
        schedule is Some ==> forall|i: int|
            0 <= i < schedule->0.steps@.len() ==> {
                let gap = record.itl_ms->0@[i];
                let step = #[trigger] schedule->0.steps@[i];
                &&& gap.bits <= 0x7ff0_0000_0000_0000 ==> step.delay == gap
                &&& gap.bits > 0x7ff0_0000_0000_0000 ==> step.delay.bits == 0
                &&& record.itl_tokens is None ==> step.tokens == 1
                &&& record.itl_tokens is Some && record.itl_tokens->0@[i] > 0 ==> step.tokens
                    == record.itl_tokens->0@[i]
                &&& record.itl_tokens is Some && record.itl_tokens->0@[i] == 0 ==> step.tokens == 1
            },
        schedule is Some ==> {
            let later = if record.itl_tokens is Some {
                count_total(record.itl_tokens->0@)
            } else {
                record.itl_ms->0@.len()
            };
            let first = schedule->0.first_chunk_tokens;
            &&& record.output_tokens <= later ==> first == 1
            &&& record.output_tokens > later ==> (record.output_tokens - later - first)
                % 0x1_0000_0000 == 0
            &&& later < record.output_tokens <= later + u32::MAX ==> first + later
                == record.output_tokens
        },
{
    if schedule is Some {
        let counts = chunk_counts(record)->0;
        if record.itl_tokens is None {
            lemma_count_ones(counts);
        }
    }
}

/// A replayed stream ends exactly where its capture did: where the chunks after the first took
/// less than the whole output and none of them was empty, the schedule delivers as many tokens as
/// the record, as long as the first chunk's size fits in 32 bits.
pub proof fn a_replay_delivers_the_recorded_output(record: TraceRecord, schedule: ScriptedDecode)
    requires
        is_schedule_of(record, Some(schedule)),
        record.itl_tokens is None ==> record.itl_ms->0@.len() < record.output_tokens
            <= record.itl_ms->0@.len() + u32::MAX,
        record.itl_tokens is Some ==> {
            &&& count_total(record.itl_tokens->0@) < record.output_tokens <= count_total(
                record.itl_tokens->0@,
            ) + u32::MAX
            &&& forall|i: int|
                0 <= i < record.itl_tokens->0@.len() ==> #[trigger] record.itl_tokens->0@[i] > 0
        },
    ensures
        schedule.total() == record.output_tokens,
{
    let counts = chunk_counts(record)->0;
    if record.itl_tokens is None {
        lemma_count_ones(counts);
    }
    a_replay_ends_where_the_capture_did(record, schedule);
}

/// The speculative budget is one less than the widest listed chunk of all: there is none exactly
/// where no chunk is wider than one token, and otherwise no chunk is wider than the budget and
/// one, and some chunk is as wide.
pub proof fn the_budget_is_the_widest_chunk_less_one(
    records: Seq<TraceRecord>,
    budget: Option<u32>,
)
    requires
        is_spec_budget(records, budget),
    ensures
        forall|i: int, j: int|
            0 <= i < records.len() && records[i].itl_tokens is Some && 0 <= j
                < records[i].itl_tokens->0@.len() ==> #[trigger] records[i].itl_tokens->0@[j] <= (
            match budget {
                Some(k) => k as int + 1,
                None => 1,
            }),
        budget matches Some(k) ==> k >= 1 && exists|i: int, j: int|
            0 <= i < records.len() && records[i].itl_tokens is Some && 0 <= j
                < records[i].itl_tokens->0@.len() && #[trigger] records[i].itl_tokens->0@[j] == k
                + 1,
{
    let widest = choose|widest: u32| #[trigger]
        is_widest_chunk(records, widest) && budget == (if widest > 1 {
            Some((widest - 1) as u32)
        } else {
            None
        });
    assert forall|i: int, j: int|
        0 <= i < records.len() && records[i].itl_tokens is Some && 0 <= j
            < records[i].itl_tokens->0@.len() implies #[trigger] records[i].itl_tokens->0@[j]
        <= widest by {
        assert(lists_chunk(records, i, j));
        assert(listed_chunk(records, i, j) <= widest);
    }
    if widest > 1 {
        let (i, j) = choose|i: int, j: int|
            lists_chunk(records, i, j) && #[trigger] listed_chunk(records, i, j) == widest;
        assert(records[i].itl_tokens->0@[j] == widest);
    }
}

/// What stands behind the last dash of an id, or the whole id without one, is what follows it.
proof fn lemma_tail_behind_dash(name: Seq<char>, tail: Seq<char>)
    requires
        name.len() == 0 || name.last() == '-',
        forall|i: int| 0 <= i < tail.len() ==> #[trigger] tail[i] != '-',
    ensures
        after_last(name + tail, '-') == tail,
{
    let id = name + tail;
    let cut = name.len() as int;
    nothing_after_the_last_is_lost(id, '-');
    let from = choose|from: int|
        {
            &&& 0 <= from <= id.len()
            &&& after_last(id, '-') == #[trigger] id.skip(from)
            &&& forall|i: int| from <= i < id.len() ==> #[trigger] id[i] != '-'
            &&& from == 0 || id[from - 1] == '-'
        };
    if from < cut {
        assert(id[cut - 1] == name.last());
    }
    if from > cut {
        assert(id[from - 1] == tail[from - 1 - cut]);
    }
    assert(id.skip(from) =~= tail);
}

/// A text with a character that is no digit holds no number, a plus sign in front aside.
proof fn lemma_no_number(text: Seq<char>, i: int)
    requires
        0 <= i < text.len(),
        !('0' <= text[i] <= '9'),
        i > 0 || text[i] != '+',
    ensures
        parsed_usize(text) is None,
{
    digits_are_worth_their_places(text, '0');
    if text[0] == '+' {
        let rest = text.drop_first();
        assert(rest[i - 1] == text[i]);
        digits_are_worth_their_places(rest, '0');
    }
}

/// A request is matched to the record whose number ends its id behind a dash: the request named
/// `<name>-<n>` takes the schedule of record `n`, or none where there is no such record, however
/// often and in whatever order requests come, and whatever their prompts are.
pub proof fn a_numbered_request_takes_its_record(
    source: IndexSteps,
    name: Seq<char>,
    n: nat,
    prompt: Seq<u32>,
    schedule: Option<ScriptedDecode>,
    after: IndexSteps,
)
    requires
        source.takes(name + seq!['-'] + decimal_of(n), prompt, schedule, after)
            || source.takes(decimal_of(n), prompt, schedule, after),
    ensures
        after == source,
        n < source.records@.len() ==> is_schedule_of(source.records@[n as int], schedule),
        n >= source.records@.len() ==> schedule is None,
{
    let digits = decimal_of(n);
    digits_read_back_as_their_number(n);
    lemma_tail_behind_dash(name + seq!['-'], digits);
    lemma_tail_behind_dash(Seq::empty(), digits);
    assert(Seq::<char>::empty() + digits == digits);
    a_number_is_parsed_from_its_digits(n, Seq::empty());
    assert(source.records@.len() == source.records.len());
}

/// A request takes no schedule where what follows the last dash of its id, or its whole id
/// without one, is empty or holds a character that is no digit, a plus sign in front aside.
pub proof fn an_unnumbered_request_takes_nothing(
    source: IndexSteps,
    name: Seq<char>,
    tail: Seq<char>,
    prompt: Seq<u32>,
    schedule: Option<ScriptedDecode>,
    after: IndexSteps,
)
    requires
        source.takes(name + tail, prompt, schedule, after),
        name.len() == 0 || name.last() == '-',
        forall|i: int| 0 <= i < tail.len() ==> #[trigger] tail[i] != '-',
        tail.len() == 0 || exists|i: int|
            0 <= i < tail.len() && !('0' <= #[trigger] tail[i] <= '9') && (i > 0 || tail[i] != '+'),
    ensures
        schedule is None,
        after == source,
{
    lemma_tail_behind_dash(name, tail);
    if tail.len() > 0 {
        let i = choose|i: int|
            0 <= i < tail.len() && !('0' <= #[trigger] tail[i] <= '9') && (i > 0 || tail[i]
                != '+');
        lemma_no_number(tail, i);
    }
    assert(record_number(name + tail) is None);
}

proof fn lemma_deepest(records: Seq<TraceRecord>, chain: Seq<u64>, d: int)
    requires
        0 <= d < chain.len(),
        is_carried(records, chain[d]),
        forall|e: int| d < e < chain.len() ==> !is_carried(records, #[trigger] chain[e]),
    ensures
        deepest(records, chain) == Some(d as nat),
    decreases chain.len(),
{
    if d < chain.len() - 1 {
        assert(!is_carried(records, chain[chain.len() - 1]));
        let front = chain.drop_last();
        assert forall|e: int| d < e < front.len() implies !is_carried(
            records,
            #[trigger] front[e],
        ) by {
            assert(front[e] == chain[e]);
        }
        lemma_deepest(records, front, d);
    }
}

proof fn lemma_no_depth(records: Seq<TraceRecord>, chain: Seq<u64>)
    requires
        forall|e: int| 0 <= e < chain.len() ==> !is_carried(records, #[trigger] chain[e]),
    ensures
        deepest(records, chain) is None,
    decreases chain.len(),
{
    if chain.len() > 0 {
        assert(!is_carried(records, chain[chain.len() - 1]));
        let front = chain.drop_last();
        assert forall|e: int| 0 <= e < front.len() implies !is_carried(
            records,
            #[trigger] front[e],
        ) by {
            assert(front[e] == chain[e]);
        }
        lemma_no_depth(records, front);
    }
}

/// Matching goes by the longest prefix that any record shares: with `d` the deepest place of the
/// chain whose hash stands anywhere in the block hashes of a record with gaps, the record that is
/// served holds that hash and has gaps, its schedule is handed out, and it alone becomes consumed.
/// Among the records that hold the hash it is the earliest that was not consumed before, or the
/// earliest of all once each was.
pub proof fn the_longest_prefix_match_is_served(
    records: Seq<TraceRecord>,
    consumed: Seq<bool>,
    chain: Seq<u64>,
    schedule: Option<ScriptedDecode>,
    after: Seq<bool>,
    d: int,
    holder: int,
)
    requires
        consumed.len() == records.len(),
        chain_takes(records, consumed, chain, schedule, after),
        0 <= d < chain.len(),
        0 <= holder < records.len(),
        records[holder].itl_ms is Some,
        records[holder].block_hashes is Some,
        records[holder].block_hashes->0@.contains(chain[d]),
        forall|i: int, e: int|
            0 <= i < records.len() && d < e < chain.len() && (#[trigger] records[i]).itl_ms is Some
                && records[i].block_hashes is Some ==> !records[i].block_hashes->0@.contains(
                #[trigger] chain[e],
            ),
    ensures
        exists|idx: int|
            {
                &&& 0 <= idx < records.len()
                &&& (#[trigger] records[idx]).itl_ms is Some
                &&& records[idx].block_hashes is Some
                &&& records[idx].block_hashes->0@.contains(chain[d])
                &&& is_schedule_of(records[idx], schedule)
                &&& after == consumed.update(idx, true)
                &&& forall|i: int|
                    0 <= i < idx && (#[trigger] records[i]).itl_ms is Some
                        && records[i].block_hashes is Some
                        && records[i].block_hashes->0@.contains(chain[d]) ==> consumed[i]
                        && !consumed[idx]
                &&& consumed[idx] ==> forall|i: int|
                    0 <= i < records.len() && (#[trigger] records[i]).itl_ms is Some
                        && records[i].block_hashes is Some
                        && records[i].block_hashes->0@.contains(chain[d]) ==> consumed[i]
            },
{
    let hash = chain[d];
    assert(carries(records, holder, hash));
    assert forall|e: int| d < e < chain.len() implies !is_carried(records, #[trigger] chain[e]) by {
        if is_carried(records, chain[e]) {
            let i = choose|i: int| #[trigger] carries(records, i, chain[e]);
            assert(records[i].itl_ms is Some);
        }
    }
    lemma_deepest(records, chain, d);
    let idx = choose|idx: int| #[trigger]
        serves(records, consumed, hash, idx) && is_schedule_of(records[idx], schedule) && after
            == consumed.update(idx, true);
    assert(carries(records, idx, hash));
    assert forall|i: int|
        0 <= i < idx && (#[trigger] records[i]).itl_ms is Some && records[i].block_hashes is Some
            && records[i].block_hashes->0@.contains(chain[d]) implies consumed[i]
        && !consumed[idx] by {
        assert(carries(records, i, hash));
    }
    assert forall|i: int|
        consumed[idx] && 0 <= i < records.len() && (#[trigger] records[i]).itl_ms is Some
            && records[i].block_hashes is Some && records[i].block_hashes->0@.contains(
            chain[d],
        ) implies consumed[i] by {
        assert(carries(records, i, hash));
    }
    assert(records[idx].itl_ms is Some);
}

/// A chain of which no hash stands in the block hashes of a record with gaps takes nothing, and
/// leaves every record as it was.
pub proof fn a_prompt_without_a_shared_prefix_takes_nothing(
    records: Seq<TraceRecord>,
    consumed: Seq<bool>,
    chain: Seq<u64>,
    schedule: Option<ScriptedDecode>,
    after: Seq<bool>,
)
    requires
        chain_takes(records, consumed, chain, schedule, after),
        forall|i: int, e: int|
            0 <= i < records.len() && 0 <= e < chain.len() && (#[trigger] records[i]).itl_ms is Some
                && records[i].block_hashes is Some ==> !records[i].block_hashes->0@.contains(
                #[trigger] chain[e],
            ),
    ensures
        schedule is None,
        after == consumed,
{
    assert forall|e: int| 0 <= e < chain.len() implies !is_carried(
        records,
        #[trigger] chain[e],
    ) by {
        if is_carried(records, chain[e]) {
            let i = choose|i: int| #[trigger] carries(records, i, chain[e]);
            assert(records[i].itl_ms is Some);
        }
    }
    lemma_no_depth(records, chain);
}

/// A live request is matched by the hash chain of its prompt: where the hasher gives a chain, the
/// records are matched by it, and a prompt without one takes nothing. The id plays no part, and
/// only what was consumed changes.
pub proof fn a_prompt_is_matched_by_its_chain<
    H: Fn(&[u32], usize) -> Option<Vec<u64>> + Send,
>(
    source: PrefixSteps<H>,
    request_id: Seq<char>,
    prompt: Seq<u32>,
    chain: Option<Seq<u64>>,
    schedule: Option<ScriptedDecode>,
    after: PrefixSteps<H>,
)
    requires
        source.takes(request_id, prompt, schedule, after),
        forall|tokens: &[u32], reply: Option<Vec<u64>>|
            tokens@ == prompt && #[trigger] call_ensures(
                source.block_hashes,
                (tokens, source.block_size),
                reply,
            ) ==> {
                &&& reply is Some <==> chain is Some
                &&& reply is Some ==> reply->0@ == chain->0
            },
    ensures
        chain is None ==> schedule is None && after.consumed@ == source.consumed@,
        chain is Some ==> chain_takes(
            source.records@,
            source.consumed@,
            chain->0,
            schedule,
            after.consumed@,
        ),
        after.records == source.records,
        after.block_size == source.block_size,
        after.block_hashes == source.block_hashes,
        after.spec_tokens == source.spec_tokens,
{
    let reply = choose|reply: Option<Vec<u64>>| #[trigger]
        hashed(source.block_hashes, prompt, source.block_size, reply) && match reply {
            Some(hashes) => chain_takes(
                source.records@,
                source.consumed@,
                hashes@,
                schedule,
                after.consumed@,
            ),
            None => schedule is None && after.consumed@ == source.consumed@,
        };
    let tokens = choose|tokens: &[u32]|
        tokens@ == prompt && #[trigger] call_ensures(
            source.block_hashes,
            (tokens, source.block_size),
            reply,
        );
}

/// A number behind the last dash of an id is found whatever way it is written, with leading zeros
/// or a plus sign: the request takes the schedule of the record of that number.
pub proof fn a_number_is_found_however_it_is_written(
    source: IndexSteps,
    name: Seq<char>,
    tail: Seq<char>,
    n: nat,
    prompt: Seq<u32>,
    schedule: Option<ScriptedDecode>,
    after: IndexSteps,
)
    requires
        source.takes(name + tail, prompt, schedule, after),
        name.len() == 0 || name.last() == '-',
        digits_value(tail) == Some(n) || tail.len() > 0 && tail[0] == '+' && digits_value(
            tail.drop_first(),
        ) == Some(n),
    ensures
        after == source,
        n < source.records@.len() ==> is_schedule_of(source.records@[n as int], schedule),
        n >= source.records@.len() ==> schedule is None,
{
    digits_are_worth_their_places(tail, '0');
    digits_are_worth_their_places(tail.drop_first(), '0');
    assert forall|i: int| 0 <= i < tail.len() implies #[trigger] tail[i] != '-' by {
        if i > 0 {
            assert(tail.drop_first()[i - 1] == tail[i]);
        }
    }
    lemma_tail_behind_dash(name, tail);
    a_number_is_parsed_from_its_digits(n, tail);
    if digits_value(tail) is Some {
        assert(tail[0] != '+');
    }
    assert(source.records@.len() == source.records.len());
}

/// A source in order knows the budget that its records show: one less than the widest listed chunk,
/// and none where no chunk is wider than one token.
pub proof fn a_source_knows_the_budget_of_its_records<
    H: Fn(&[u32], usize) -> Option<Vec<u64>> + Send,
>(by_index: IndexSteps, by_prefix: PrefixSteps<H>)
    requires
        by_index.wf(),
        by_prefix.wf(),
    ensures
        forall|i: int, j: int|
            0 <= i < by_index.records@.len() && by_index.records@[i].itl_tokens is Some && 0 <= j
                < by_index.records@[i].itl_tokens->0@.len()
                ==> #[trigger] by_index.records@[i].itl_tokens->0@[j] <= (match by_index.budget() {
                Some(k) => k as int + 1,
                None => 1,
            }),
        by_index.budget() matches Some(k) ==> k >= 1 && exists|i: int, j: int|
            0 <= i < by_index.records@.len() && by_index.records@[i].itl_tokens is Some && 0 <= j
                < by_index.records@[i].itl_tokens->0@.len()
                && #[trigger] by_index.records@[i].itl_tokens->0@[j] == k + 1,
        forall|i: int, j: int|
            0 <= i < by_prefix.records@.len() && by_prefix.records@[i].itl_tokens is Some && 0 <= j
                < by_prefix.records@[i].itl_tokens->0@.len()
                ==> #[trigger] by_prefix.records@[i].itl_tokens->0@[j] <= (
            match by_prefix.budget() {
                Some(k) => k as int + 1,
                None => 1,
            }),
        by_prefix.budget() matches Some(k) ==> k >= 1 && exists|i: int, j: int|
            0 <= i < by_prefix.records@.len() && by_prefix.records@[i].itl_tokens is Some && 0 <= j
                < by_prefix.records@[i].itl_tokens->0@.len()
                && #[trigger] by_prefix.records@[i].itl_tokens->0@[j] == k + 1,
{
    the_budget_is_the_widest_chunk_less_one(by_index.records@, by_index.budget());
    the_budget_is_the_widest_chunk_less_one(by_prefix.records@, by_prefix.budget());
}

/// Two requests with one prompt do not share a record while another one is left: where two records
/// that hold the deepest matching hash were not consumed yet, the requests get two of these, the
/// earlier one first.
pub proof fn two_requests_get_two_records(
    records: Seq<TraceRecord>,
    consumed: Seq<bool>,
    chain: Seq<u64>,
    first: Option<ScriptedDecode>,
    between: Seq<bool>,
    second: Option<ScriptedDecode>,
    after: Seq<bool>,
    d: int,
    i: int,
    j: int,
)
    requires
        consumed.len() == records.len(),
        chain_takes(records, consumed, chain, first, between),
        chain_takes(records, between, chain, second, after),
        0 <= d < chain.len(),
        0 <= i < j < records.len(),
        records[i].itl_ms is Some && records[j].itl_ms is Some,
        records[i].block_hashes is Some && records[j].block_hashes is Some,
        records[i].block_hashes->0@.contains(chain[d]),
        records[j].block_hashes->0@.contains(chain[d]),
        !consumed[i] && !consumed[j],
        forall|k: int, e: int|
            0 <= k < records.len() && d < e < chain.len() && (#[trigger] records[k]).itl_ms is Some
                && records[k].block_hashes is Some ==> !records[k].block_hashes->0@.contains(
                #[trigger] chain[e],
            ),
    ensures
        exists|a: int, b: int|
            {
                &&& 0 <= a < b <= j
                &&& is_schedule_of(#[trigger] records[a], first)
                &&& is_schedule_of(#[trigger] records[b], second)
                &&& !consumed[a] && !consumed[b]
                &&& after == consumed.update(a, true).update(b, true)
            },
{
    let hash = chain[d];
    the_longest_prefix_match_is_served(records, consumed, chain, first, between, d, i);
    the_longest_prefix_match_is_served(records, between, chain, second, after, d, i);
    assert(carries(records, i, hash) && carries(records, j, hash));
    assert forall|e: int| d < e < chain.len() implies !is_carried(records, #[trigger] chain[e]) by {
        if is_carried(records, chain[e]) {
            let k = choose|k: int| #[trigger] carries(records, k, chain[e]);
            assert(records[k].itl_ms is Some);
        }
    }
    lemma_deepest(records, chain, d);
    let a = choose|a: int| #[trigger]
        serves(records, consumed, hash, a) && is_schedule_of(records[a], first) && between
            == consumed.update(a, true);
    let b = choose|b: int| #[trigger]
        serves(records, between, hash, b) && is_schedule_of(records[b], second) && after
            == between.update(b, true);
    assert(has_fresh(records, consumed, hash));
    assert(a <= i);
    assert(!between[j]);
    assert(has_fresh(records, between, hash));
    matches_are_consumed_in_order(records, consumed, hash, a, b);
    assert(b <= j);
    assert(!consumed[b]);
    assert(is_schedule_of(records[a], first) && is_schedule_of(records[b], second));
}

} // verus!

//! The decisions of a transfer-backed data plane: what to stage for an advertised request,
//! what a pull reads, how long a read is polled, and whether the bytes that arrived are the
//! bytes that were staged. The transfers themselves happen outside.
use crate::dataplane::{
    block_count, blocks_for, blocks_hold_every_token, DataPlaneError, NixlConfig, RemoteKv,
    RemoteKvView, RequestKv,
};
use crate::text::same_text;
use vstd::hash_map::StringHashMap;
use vstd::prelude::*;
use vstd::string::*;
use vstd::utf8::encode_utf8;

verus! {

/// How long a transfer is polled before it is given up, in nanoseconds.
pub const XFER_TIMEOUT_NANOS: u128 = 5_000_000_000;

/// A registered KV buffer awaiting a pull: where it lies and what it is filled with.
#[derive(Debug, Clone, Copy, PartialEq, Eq, Structural)]
pub struct StagedKv {
    pub addr: u64,
    pub len: u64,
    pub pattern: u8,
}

/// The sum of a run of bytes.
pub open spec fn byte_sum(bytes: Seq<u8>) -> nat
    decreases bytes.len(),
{
    if bytes.len() == 0 {
        0
    } else {
        byte_sum(bytes.drop_last()) + bytes.last() as nat
    }
}

/// The fill byte of a request: its id's UTF-8 bytes summed onto a base, with the lowest bit
/// set.
pub open spec fn pattern_of(request_id: Seq<char>) -> u8 {
    ((0xa5 + byte_sum(encode_utf8(request_id))) % 256) as u8 | 1u8
}

/// Stable per-request fill byte, so that a pull can verify it got the right bytes.
pub fn pattern_for(request_id: &str) -> (pattern: u8)
    ensures
        pattern == pattern_of(request_id@),
{
    let bytes = request_id.as_bytes();
    let mut acc: u8 = 0xa5;
    let mut at: usize = 0;
    while at < bytes.len()
        invariant
            at <= bytes@.len(),
            acc == (0xa5 + byte_sum(bytes@.take(at as int))) % 256,
        decreases bytes@.len() - at,
    {
        let ghost prefix = bytes@.take(at + 1);
        assert(prefix.drop_last() == bytes@.take(at as int));
        acc = acc.wrapping_add(bytes[at]);
        at = at + 1;
    }
    assert(bytes@.take(at as int) == bytes@);
    acc | 1
}

/// A fill byte is never zero, so a landing buffer that no byte reached is told apart from
/// one that holds a request's KV.
pub proof fn pattern_is_never_zero(request_id: Seq<char>)
    ensures
        pattern_of(request_id) != 0,
{
    let base = ((0xa5 + byte_sum(encode_utf8(request_id))) % 256) as u8;
    assert(base | 1u8 != 0u8) by (bit_vector);
}

/// What to do for a request that is to be advertised.
#[derive(Debug)]
pub enum AdvertPlan {
    /// No bytes can move: answer with this addressing.
    Reply(RemoteKv),
    /// Register a buffer of `total` bytes filled with `pattern`, for `blocks` blocks.
    Stage { blocks: usize, total: usize, pattern: u8 },
}

/// What to do for a request whose KV is to be pulled.
#[derive(Debug, Clone, Copy, PartialEq, Eq, Structural)]
pub enum PullPlan {
    /// There is nothing to read here: zero bytes move.
    Nothing,
    /// Read this buffer of our own agent.
    Read(StagedKv),
}

/// What a pull finds, and what stays staged: the buffer staged under the request's id leaves
/// the table where the addressing names this engine.
pub open spec fn pulled(
    stub: bool,
    engine_id: Seq<char>,
    staged: Map<Seq<char>, StagedKv>,
    request_id: Seq<char>,
    remote: RemoteKvView,
) -> (PullPlan, Map<Seq<char>, StagedKv>) {
    if !stub && remote.engine_id == engine_id && staged.contains_key(request_id) {
        (PullPlan::Read(staged[request_id]), staged.remove(request_id))
    } else {
        (PullPlan::Nothing, staged)
    }
}

/// The buffers that a prefill engine has staged, by request id, and the configuration they
/// are sized by.
pub struct NixlLedger {
    pub cfg: NixlConfig,
    pub staged: StringHashMap<StagedKv>,
}

impl NixlLedger {
    pub fn new(cfg: NixlConfig) -> (ledger: Self)
        ensures
            ledger.cfg == cfg,
            ledger.staged@ == Map::<Seq<char>, StagedKv>::empty(),
    {
        NixlLedger { cfg, staged: StringHashMap::new() }
    }

    /// How many blocks a prompt of `num_tokens` tokens takes.
    pub open spec fn blocks(self, num_tokens: nat) -> nat {
        blocks_for(num_tokens, self.cfg.tokens_per_block as nat)
    }

    /// How many bytes are staged for a prompt of `num_tokens` tokens.
    pub open spec fn total_bytes(self, num_tokens: nat) -> nat {
        self.blocks(num_tokens) * self.cfg.kv_block_bytes as nat
    }

    /// Sizes the buffer of a request that is to be advertised. Without real bindings
    /// (`stub`) only the control plane works: one block is advertised and nothing is staged.
    pub fn plan_advertise(&self, stub: bool, kv: RequestKv<'_>) -> (plan: AdvertPlan)
        requires
            stub || self.cfg.tokens_per_block > 0,
            stub || self.total_bytes(kv.num_tokens as nat) <= usize::MAX,
        ensures
            stub ==> (plan matches AdvertPlan::Reply(remote) && remote@ == self.cfg.remote_of(1)),
            !stub ==> plan == (AdvertPlan::Stage {
                blocks: self.blocks(kv.num_tokens as nat) as usize,
                total: self.total_bytes(kv.num_tokens as nat) as usize,
                pattern: pattern_of(kv.request_id@),
            }),
    {
        if stub {
            return AdvertPlan::Reply(self.cfg.remote_kv(1));
        }
        let blocks = block_count(kv.num_tokens, self.cfg.tokens_per_block);
        let total = blocks * self.cfg.kv_block_bytes;
        AdvertPlan::Stage { blocks, total, pattern: pattern_for(kv.request_id) }
    }

    /// Records the buffer registered for a request, in place of an earlier one, and gives the
    /// addressing to advertise.
    pub fn stage(&mut self, request_id: &str, blocks: usize, buffer: StagedKv) -> (remote: RemoteKv)
        ensures
            final(self).cfg == old(self).cfg,
            final(self).staged@ == old(self).staged@.insert(request_id@, buffer),
            remote@ == old(self).cfg.remote_of(blocks as nat),
    {
        self.staged.insert(request_id.to_owned(), buffer);
        self.cfg.remote_kv(blocks)
    }

    /// Decides what a pull reads. Only a buffer of this very engine can be read; what is read
    /// leaves the table first.
    pub fn plan_pull(&mut self, stub: bool, kv: RequestKv<'_>, remote: &RemoteKv) -> (plan: PullPlan)
        ensures
            final(self).cfg == old(self).cfg,
            (plan, final(self).staged@) == pulled(
                stub,
                old(self).cfg.engine_id@,
                old(self).staged@,
                kv.request_id@,
                remote@,
            ),
    {
        if stub || !same_text(remote.engine_id.as_str(), self.cfg.engine_id.as_str()) {
            return PullPlan::Nothing;
        }
        let found: Option<StagedKv> = match self.staged.get(kv.request_id) {
            Some(buffer) => Some(*buffer),
            None => None,
        };
        match found {
            Some(buffer) => {
                self.staged.remove(kv.request_id);
                PullPlan::Read(buffer)
            },
            None => PullPlan::Nothing,
        }
    }

    /// Drops what is staged for a request, and says whether there was anything.
    pub fn release(&mut self, request_id: &str) -> (dropped: bool)
        ensures
            final(self).cfg == old(self).cfg,
            final(self).staged@ == old(self).staged@.remove(request_id@),
            dropped == old(self).staged@.contains_key(request_id@),
    {
        let dropped = self.staged.contains_key(request_id);
        self.staged.remove(request_id);
        dropped
    }
}

/// What to do after looking at a transfer under way.
#[derive(Debug, Clone, Copy, PartialEq, Eq, Structural)]
pub enum ReadPoll {
    /// The transfer has completed.
    Done,
    /// The transfer took too long.
    TimedOut,
    /// Look again a little later.
    Wait,
}

/// Decides on a transfer that reports `complete` after `elapsed_nanos` of polling.
pub fn poll_read(complete: bool, elapsed_nanos: u128) -> (poll: ReadPoll)
    ensures
        poll == (if complete {
            ReadPoll::Done
        } else if elapsed_nanos > XFER_TIMEOUT_NANOS {
            ReadPoll::TimedOut
        } else {
            ReadPoll::Wait
        }),
{
    if complete {
        ReadPoll::Done
    } else if elapsed_nanos > XFER_TIMEOUT_NANOS {
        ReadPoll::TimedOut
    } else {
        ReadPoll::Wait
    }
}

/// The first byte of a landing buffer that is not the fill byte, if there is one.
pub open spec fn first_other(landed: Seq<u8>, pattern: u8) -> Option<u8>
    decreases landed.len(),
{
    if landed.len() == 0 {
        None
    } else if landed[0] != pattern {
        Some(landed[0])
    } else {
        first_other(landed.drop_first(), pattern)
    }
}

/// Judges a completed read by the bytes that arrived: it moved the buffer where all of the
/// buffer's bytes are there and each is its fill byte. A read that fails names the first byte
/// that differs, and none where the bytes that are there do not.
pub fn finish_read(buffer: &StagedKv, landed: &[u8]) -> (moved: Result<u64, DataPlaneError>)
    ensures
        moved is Ok <==> (buffer.len > 0 && landed@.len() == buffer.len && forall|i: int|
            0 <= i < landed@.len() ==> landed@[i] == buffer.pattern),
        moved is Ok ==> moved->Ok_0 == buffer.len,
        moved is Err ==> moved->Err_0 == (DataPlaneError::VerifyFailed {
            expected: buffer.pattern,
            got: first_other(landed@, buffer.pattern),
        }),
{
    let mut at: usize = 0;
    assert(landed@.skip(0) == landed@);
    while at < landed.len()
        invariant
            at <= landed@.len(),
            forall|i: int| 0 <= i < at ==> landed@[i] == buffer.pattern,
            first_other(landed@, buffer.pattern) == first_other(
                landed@.skip(at as int),
                buffer.pattern,
            ),
        decreases landed@.len() - at,
    {
        if landed[at] != buffer.pattern {
            return Err(
                DataPlaneError::VerifyFailed { expected: buffer.pattern, got: Some(landed[at]) },
            );
        }
        assert(landed@.skip(at as int).drop_first() == landed@.skip(at + 1));
        at = at + 1;
    }
    if buffer.len > 0 && landed.len() as u64 == buffer.len {
        Ok(buffer.len)
    } else {
        Err(DataPlaneError::VerifyFailed { expected: buffer.pattern, got: None })
    }
}

/// What was staged is what a pull reads, once: a pull by the advertised addressing finds the
/// buffer, a second one finds nothing, and other requests' buffers stay as they were.
pub proof fn advertised_kv_is_pulled_once(
    cfg: NixlConfig,
    staged: Map<Seq<char>, StagedKv>,
    request_id: Seq<char>,
    blocks: nat,
    buffer: StagedKv,
)
    ensures
        ({
            let remote = cfg.remote_of(blocks);
            let table = staged.insert(request_id, buffer);
            let (plan, left) = pulled(false, cfg.engine_id@, table, request_id, remote);
            &&& plan == PullPlan::Read(buffer)
            &&& left == staged.remove(request_id)
            &&& pulled(false, cfg.engine_id@, left, request_id, remote) == (PullPlan::Nothing, left)
        }),
{
    assert(staged.insert(request_id, buffer).remove(request_id) == staged.remove(request_id));
}

/// What was released is not pulled any more.
pub proof fn released_kv_is_not_pulled(
    stub: bool,
    engine_id: Seq<char>,
    staged: Map<Seq<char>, StagedKv>,
    request_id: Seq<char>,
    remote: RemoteKvView,
)
    ensures
        pulled(stub, engine_id, staged.remove(request_id), request_id, remote).0
            == PullPlan::Nothing,
{
}

/// Bytes add up: those of two runs together are worth both, one is worth itself, none nothing.
pub proof fn bytes_add_up(first: Seq<u8>, second: Seq<u8>, one: u8)
    ensures
        byte_sum(first + second) == byte_sum(first) + byte_sum(second),
        byte_sum(seq![one]) == one,
        byte_sum(Seq::empty()) == 0,
    decreases second.len(),
{
    assert(seq![one].drop_last() == Seq::<u8>::empty());
    assert(byte_sum(seq![one].drop_last()) == 0);
    if second.len() == 0 {
        assert(first + second == first);
    } else {
        bytes_add_up(first, second.drop_last(), one);
        assert((first + second).drop_last() == first + second.drop_last());
    }
}

/// A fill byte follows every byte of the id: it is the base with all of them added on, past 255
/// from zero again, and one more where that is even.
pub proof fn a_fill_byte_follows_the_whole_id(request_id: Seq<char>)
    ensures
        ({
            let sum = (165 + byte_sum(encode_utf8(request_id))) % 256;
            pattern_of(request_id) == (if sum % 2 == 0 {
                sum + 1
            } else {
                sum
            })
        }),
{
    let sum = ((165 + byte_sum(encode_utf8(request_id))) % 256) as u8;
    assert(sum % 2 == 0 ==> sum | 1u8 == sum + 1) by (bit_vector);
    assert(sum % 2 == 1 ==> sum | 1u8 == sum) by (bit_vector);
}

/// What is staged has room for the whole prompt: whole blocks of the configured size, enough for
/// every token, and no more of them than that takes.
pub proof fn what_is_staged_holds_the_prompt(ledger: NixlLedger, num_tokens: nat)
    requires
        ledger.cfg.tokens_per_block > 0,
    ensures
        ledger.blocks(num_tokens) >= 1,
        ledger.blocks(num_tokens) * ledger.cfg.tokens_per_block >= num_tokens,
        ledger.blocks(num_tokens) > 1 ==> (ledger.blocks(num_tokens) - 1)
            * ledger.cfg.tokens_per_block < num_tokens,
        ledger.total_bytes(num_tokens) == ledger.blocks(num_tokens) * ledger.cfg.kv_block_bytes,
{
    blocks_hold_every_token(num_tokens, ledger.cfg.tokens_per_block as nat);
}

/// A pull reads exactly what is staged under its request's id, and takes it out of the table, where
/// the addressing names this very engine and bytes can move at all. Otherwise it reads nothing. In
/// either case what is staged for other requests stays as it was.
pub proof fn a_pull_reads_its_own_buffer_only(
    stub: bool,
    engine_id: Seq<char>,
    staged: Map<Seq<char>, StagedKv>,
    request_id: Seq<char>,
    remote: RemoteKvView,
    other: Seq<char>,
)
    ensures
        ({
            let (plan, left) = pulled(stub, engine_id, staged, request_id, remote);
            &&& plan is Read <==> !stub && remote.engine_id == engine_id && staged.contains_key(
                request_id,
            )
            &&& plan is Read ==> plan->Read_0 == staged[request_id] && !left.contains_key(
                request_id,
            )
            &&& plan is Nothing ==> left == staged
            &&& other != request_id ==> left.contains_key(other) == staged.contains_key(other)
            &&& other != request_id && staged.contains_key(other) ==> left[other] == staged[other]
        }),
{
}

/// The byte that a failed check names is the first that is not the fill byte, and none is named
/// exactly where every byte is.
pub proof fn the_first_wrong_byte_is_named(landed: Seq<u8>, pattern: u8)
    ensures
        first_other(landed, pattern) is None <==> forall|i: int|
            0 <= i < landed.len() ==> #[trigger] landed[i] == pattern,
        first_other(landed, pattern) matches Some(byte) ==> exists|k: int|
            0 <= k < landed.len() && #[trigger] landed[k] == byte && byte != pattern && forall|
                i: int,
            |
                0 <= i < k ==> #[trigger] landed[i] == pattern,
    decreases landed.len(),
{
    if landed.len() > 0 && landed[0] == pattern {
        let rest = landed.drop_first();
        the_first_wrong_byte_is_named(rest, pattern);
        assert(forall|i: int| 0 <= i < rest.len() ==> #[trigger] rest[i] == landed[i + 1]);
        match first_other(rest, pattern) {
            None => {
                assert forall|i: int| 0 <= i < landed.len() implies #[trigger] landed[i]
                    == pattern by {
                    if i > 0 {
                        assert(rest[i - 1] == pattern);
                    }
                }
            },
            Some(byte) => {
                let k = choose|k: int|
                    0 <= k < rest.len() && #[trigger] rest[k] == byte && byte != pattern && forall|
                        i: int,
                    |
                        0 <= i < k ==> #[trigger] rest[i] == pattern;
                assert(landed[k + 1] == byte);
                assert forall|i: int| 0 <= i < k + 1 implies #[trigger] landed[i] == pattern by {
                    if i > 0 {
                        assert(rest[i - 1] == pattern);
                    }
                }
            },
        }
    } else if landed.len() > 0 {
        assert(landed[0] != pattern);
    }
}

} // verus!

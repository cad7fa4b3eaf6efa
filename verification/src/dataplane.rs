//! The KV-block data plane: the connector boundary where prefill/decode moves bytes.
//!
//! A prefill engine registers a fabricated KV region and advertises how to reach it as a
//! [`RemoteKv`]; a decode engine receives that addressing and pulls the blocks before it
//! generates. [`NoopDataPlane`] produces and consumes the addressing but moves no bytes.
use crate::text::{append_decimal, decimal_of, hex, hex_of};
use vstd::prelude::*;
use vstd::string::*;

verus! {

/// The role this engine plays in a disaggregated prefill/decode deployment.
#[derive(Debug, Clone, Copy, PartialEq, Eq, Structural)]
pub enum PdRole {
    /// Registers KV and advertises it for a remote puller.
    Prefill,
    /// Pulls remote KV before generating tokens.
    Decode,
    /// Monolithic: no handoff, behaves like a normal single engine.
    Both,
}

/// Sizing and identity knobs for the data plane.
#[derive(Debug, Clone)]
pub struct NixlConfig {
    /// Bytes per fabricated KV block.
    pub kv_block_bytes: usize,
    /// Prompt tokens that map to one KV block.
    pub tokens_per_block: usize,
    /// This engine's id, advertised as `remote_engine_id`.
    pub engine_id: String,
    /// Host a decode peer connects to for the metadata side channel.
    pub side_channel_host: String,
    /// Port the metadata side channel listens on.
    pub side_channel_port: u32,
}

/// How a decode peer reaches a prefilled request's KV: the `remote_*` fields of
/// `kv_transfer_params`.
#[derive(Debug, Clone)]
pub struct RemoteKv {
    pub engine_id: String,
    pub host: String,
    pub port: u32,
    /// Logical KV block ids on the prefill side to read.
    pub block_ids: Vec<i64>,
}

/// What a [`RemoteKv`] says.
pub struct RemoteKvView {
    pub engine_id: Seq<char>,
    pub host: Seq<char>,
    pub port: u32,
    pub block_ids: Seq<i64>,
}

impl View for RemoteKv {
    type V = RemoteKvView;

    open spec fn view(&self) -> RemoteKvView {
        RemoteKvView {
            engine_id: self.engine_id@,
            host: self.host@,
            port: self.port,
            block_ids: self.block_ids@,
        }
    }
}

/// The minimal view of a request that the data plane needs.
#[derive(Debug, Clone, Copy)]
pub struct RequestKv<'a> {
    pub request_id: &'a str,
    /// Number of prompt tokens; drives how many KV blocks are fabricated.
    pub num_tokens: usize,
}

/// Why a data plane could not do what it was asked.
#[derive(Debug, Clone, PartialEq, Eq)]
pub enum DataPlaneError {
    /// The transfer library reported an error.
    Backend(String),
    /// A read from this agent was still under way when its time ran out.
    TimedOut { remote: String },
    /// The bytes that arrived are not the bytes that were staged.
    VerifyFailed { expected: u8, got: Option<u8> },
}

/// How a [`DataPlaneError`] reads.
pub open spec fn plane_error_text(error: DataPlaneError) -> Seq<char> {
    match error {
        DataPlaneError::Backend(text) => text@,
        DataPlaneError::TimedOut { remote } => "NIXL READ from "@ + remote@
            + " timed out after 5s"@,
        DataPlaneError::VerifyFailed { expected, got } => "KV verify failed: expected 0x"@ + hex_of(
            seq![expected],
        ) + ", got "@ + (match got {
            Some(byte) => "Some("@ + decimal_of(byte as nat) + ")"@,
            None => "None"@,
        }),
    }
}

impl DataPlaneError {
    /// The error as text.
    pub fn message(&self) -> (text: String)
        ensures
            text@ == plane_error_text(*self),
    {
        match self {
            DataPlaneError::Backend(text) => text.clone(),
            DataPlaneError::TimedOut { remote } => {
                let mut text = "NIXL READ from ".to_owned();
                text.append(remote.as_str());
                text.append(" timed out after 5s");
                text
            },
            DataPlaneError::VerifyFailed { expected, got } => {
                let mut text = "KV verify failed: expected 0x".to_owned();
                let mut bytes: Vec<u8> = Vec::new();
                bytes.push(*expected);
                assert(bytes@ == seq![*expected]);
                text.append(hex(&bytes).as_str());
                text.append(", got ");
                match got {
                    Some(byte) => {
                        text.append("Some(");
                        append_decimal(&mut text, *byte as usize);
                        text.append(")");
                    },
                    None => {
                        text.append("None");
                    },
                }
                assert(text@ =~= plane_error_text(*self));
                text
            },
        }
    }
}

/// One call that a data plane has answered, with its answer.
pub enum PlaneCall {
    /// A request's KV was to be advertised; `offered` is the addressing, or why there is none.
    Advertise {
        request_id: Seq<char>,
        num_tokens: nat,
        offered: Result<RemoteKvView, DataPlaneError>,
    },
    /// Remote KV was to be pulled; `moved` is the number of bytes moved, or why none could be.
    Pull {
        request_id: Seq<char>,
        num_tokens: nat,
        remote: RemoteKvView,
        moved: Result<u64, DataPlaneError>,
    },
    /// What was staged for a request was to be released.
    Release { request_id: Seq<char> },
}

/// What the answer to an advertise call says.
pub open spec fn advert_view(reply: Result<RemoteKv, DataPlaneError>) -> Result<
    RemoteKvView,
    DataPlaneError,
> {
    match reply {
        Ok(remote) => Ok(remote@),
        Err(error) => Err(error),
    }
}

/// The connector boundary: where simulated KV cache bytes move between engines.
pub trait KvDataPlane: Send {
    /// The calls that this plane has answered so far, in order. A verified plane gives its own
    /// account: the default is one fixed value, which no call could add to, and stands for
    /// planes outside verification only.
    open spec fn calls(&self) -> Seq<PlaneCall> {
        arbitrary()
    }

    /// Whether the plane's configuration lets it advertise. A verified plane gives its own
    /// answer; the default stands for planes outside verification only.
    open spec fn ready(&self) -> bool {
        arbitrary()
    }

    /// Whether the plane may answer an advertise call so. Any answer will do for a plane that
    /// does not say more.
    open spec fn answers_advert(
        &self,
        request_id: Seq<char>,
        num_tokens: nat,
        reply: Result<RemoteKvView, DataPlaneError>,
    ) -> bool {
        true
    }

    /// Whether the plane may answer a pull call so. Any answer will do for a plane that does not
    /// say more.
    open spec fn answers_pull(
        &self,
        request_id: Seq<char>,
        num_tokens: nat,
        remote: RemoteKvView,
        reply: Result<u64, DataPlaneError>,
    ) -> bool {
        true
    }

    /// Prefill side: stage this request's KV and return how a decode peer reaches it.
    fn advertise_prefilled(&mut self, kv: RequestKv<'_>) -> (reply: Result<
        RemoteKv,
        DataPlaneError,
    >)
        requires
            old(self).ready(),
        ensures
            final(self).ready(),
            old(self).answers_advert(kv.request_id@, kv.num_tokens as nat, advert_view(reply)),
            final(self).calls() == old(self).calls().push(
                PlaneCall::Advertise {
                    request_id: kv.request_id@,
                    num_tokens: kv.num_tokens as nat,
                    offered: advert_view(reply),
                },
            ),
            forall|id: Seq<char>, tokens: nat, answer: Result<RemoteKvView, DataPlaneError>|
                #![trigger final(self).answers_advert(id, tokens, answer)]
                #![trigger old(self).answers_advert(id, tokens, answer)]
                final(self).answers_advert(id, tokens, answer) == old(self).answers_advert(
                    id,
                    tokens,
                    answer,
                ),
            forall|
                id: Seq<char>,
                tokens: nat,
                peer: RemoteKvView,
                answer: Result<u64, DataPlaneError>,
            |
                #![trigger final(self).answers_pull(id, tokens, peer, answer)]
                #![trigger old(self).answers_pull(id, tokens, peer, answer)]
                final(self).answers_pull(id, tokens, peer, answer) == old(self).answers_pull(
                    id,
                    tokens,
                    peer,
                    answer,
                ),
    ;

    /// Decode side: pull the remote KV described by `remote` before generation. Returns the
    /// number of bytes moved.
    fn pull_prefilled(&mut self, kv: RequestKv<'_>, remote: &RemoteKv) -> (reply: Result<
        u64,
        DataPlaneError,
    >)
        ensures
            final(self).ready() == old(self).ready(),
            old(self).answers_pull(kv.request_id@, kv.num_tokens as nat, remote@, reply),
            final(self).calls() == old(self).calls().push(
                PlaneCall::Pull {
                    request_id: kv.request_id@,
                    num_tokens: kv.num_tokens as nat,
                    remote: remote@,
                    moved: reply,
                },
            ),
            forall|id: Seq<char>, tokens: nat, answer: Result<RemoteKvView, DataPlaneError>|
                #![trigger final(self).answers_advert(id, tokens, answer)]
                #![trigger old(self).answers_advert(id, tokens, answer)]
                final(self).answers_advert(id, tokens, answer) == old(self).answers_advert(
                    id,
                    tokens,
                    answer,
                ),
            forall|
                id: Seq<char>,
                tokens: nat,
                peer: RemoteKvView,
                answer: Result<u64, DataPlaneError>,
            |
                #![trigger final(self).answers_pull(id, tokens, peer, answer)]
                #![trigger old(self).answers_pull(id, tokens, peer, answer)]
                final(self).answers_pull(id, tokens, peer, answer) == old(self).answers_pull(
                    id,
                    tokens,
                    peer,
                    answer,
                ),
    ;

    /// Release any resources staged for a request.
    fn release(&mut self, request_id: &str)
        ensures
            final(self).ready() == old(self).ready(),
            final(self).calls() == old(self).calls().push(
                PlaneCall::Release { request_id: request_id@ },
            ),
            forall|id: Seq<char>, tokens: nat, answer: Result<RemoteKvView, DataPlaneError>|
                #![trigger final(self).answers_advert(id, tokens, answer)]
                #![trigger old(self).answers_advert(id, tokens, answer)]
                final(self).answers_advert(id, tokens, answer) == old(self).answers_advert(
                    id,
                    tokens,
                    answer,
                ),
            forall|
                id: Seq<char>,
                tokens: nat,
                peer: RemoteKvView,
                answer: Result<u64, DataPlaneError>,
            |
                #![trigger final(self).answers_pull(id, tokens, peer, answer)]
                #![trigger old(self).answers_pull(id, tokens, peer, answer)]
                final(self).answers_pull(id, tokens, peer, answer) == old(self).answers_pull(
                    id,
                    tokens,
                    peer,
                    answer,
                ),
    ;
}

/// Whether two planes may answer every call alike.
pub open spec fn same_answers<D: KvDataPlane>(a: D, b: D) -> bool {
    &&& forall|request_id: Seq<char>, num_tokens: nat, reply: Result<RemoteKvView, DataPlaneError>|
        #![trigger a.answers_advert(request_id, num_tokens, reply)]
        #![trigger b.answers_advert(request_id, num_tokens, reply)]
        a.answers_advert(request_id, num_tokens, reply) == b.answers_advert(
            request_id,
            num_tokens,
            reply,
        )
    &&& forall|
        request_id: Seq<char>,
        num_tokens: nat,
        remote: RemoteKvView,
        reply: Result<u64, DataPlaneError>,
    |
        #![trigger a.answers_pull(request_id, num_tokens, remote, reply)]
        #![trigger b.answers_pull(request_id, num_tokens, remote, reply)]
        a.answers_pull(request_id, num_tokens, remote, reply) == b.answers_pull(
            request_id,
            num_tokens,
            remote,
            reply,
        )
}

/// How many KV blocks `num_tokens` prompt tokens take: enough to hold them all, and at
/// least one.
pub open spec fn blocks_for(num_tokens: nat, tokens_per_block: nat) -> nat
    recommends
        tokens_per_block > 0,
{
    let blocks = (num_tokens + tokens_per_block - 1) as nat / tokens_per_block;
    if blocks == 0 {
        1
    } else {
        blocks
    }
}

/// Counts the KV blocks of a prompt.
pub fn block_count(num_tokens: usize, tokens_per_block: usize) -> (blocks: usize)
    requires
        tokens_per_block > 0,
    ensures
        blocks == blocks_for(num_tokens as nat, tokens_per_block as nat),
{
    let whole: usize = num_tokens / tokens_per_block;
    let part: usize = num_tokens % tokens_per_block;
    let ghost n = num_tokens as int;
    let ghost t = tokens_per_block as int;
    proof {
        vstd::arithmetic::div_mod::lemma_fundamental_div_mod(n, t);
        if part == 0 {
            assert((n + t - 1) / t == n / t) by (nonlinear_arith)
                requires
                    t > 0,
                    n == t * (n / t) + n % t,
                    n % t == 0,
            ;
        } else {
            assert((n + t - 1) / t == n / t + 1) by (nonlinear_arith)
                requires
                    t > 0,
                    n == t * (n / t) + n % t,
                    0 < n % t < t,
            ;
            assert(n / t < n) by (nonlinear_arith)
                requires
                    t > 1,
                    n > 0,
                    n == t * (n / t) + n % t,
                    0 < n % t,
            ;
        }
    }
    let blocks: usize = if part == 0 {
        whole
    } else {
        whole + 1
    };
    if blocks == 0 {
        1
    } else {
        blocks
    }
}

/// The ids of the first `blocks` blocks; none where the count is no valid block id.
pub open spec fn block_id_range(blocks: nat) -> Seq<i64> {
    if blocks <= i64::MAX {
        Seq::new(blocks, |i: int| i as i64)
    } else {
        Seq::empty()
    }
}

/// Lists the ids of the first `blocks` blocks.
pub fn block_id_list(blocks: usize) -> (ids: Vec<i64>)
    ensures
        ids@ == block_id_range(blocks as nat),
{
    let mut ids: Vec<i64> = Vec::new();
    let limit: u64 = blocks as u64;
    if limit > 0x7fff_ffff_ffff_ffff {
        return ids;
    }
    let mut next: i64 = 0;
    while (next as u64) < limit
        invariant
            0 <= next <= limit <= i64::MAX,
            ids@ == Seq::new(next as nat, |i: int| i as i64),
        decreases limit - next,
    {
        ids.push(next);
        next = next + 1;
        assert(ids@ =~= Seq::new(next as nat, |i: int| i as i64));
    }
    ids
}

impl NixlConfig {
    /// The addressing that a prefill with this configuration advertises for `blocks` blocks.
    pub open spec fn remote_of(self, blocks: nat) -> RemoteKvView {
        RemoteKvView {
            engine_id: self.engine_id@,
            host: self.side_channel_host@,
            port: self.side_channel_port,
            block_ids: block_id_range(blocks),
        }
    }

    /// Builds the addressing for `blocks` blocks.
    pub fn remote_kv(&self, blocks: usize) -> (remote: RemoteKv)
        ensures
            remote@ == self.remote_of(blocks as nat),
    {
        RemoteKv {
            engine_id: self.engine_id.clone(),
            host: self.side_channel_host.clone(),
            port: self.side_channel_port,
            block_ids: block_id_list(blocks),
        }
    }
}

/// Control-plane-only data plane: produces and consumes the real addressing but moves zero
/// bytes.
pub struct NoopDataPlane {
    pub cfg: NixlConfig,
    pub answered: Ghost<Seq<PlaneCall>>,
}

impl NoopDataPlane {
    pub fn new(cfg: NixlConfig) -> (plane: Self)
        ensures
            plane.cfg == cfg,
            plane.calls() == Seq::<PlaneCall>::empty(),
            plane.ready() == (cfg.tokens_per_block > 0),
    {
        NoopDataPlane { cfg, answered: Ghost(Seq::empty()) }
    }

    /// The block ids of a prompt.
    pub fn block_ids(&self, num_tokens: usize) -> (ids: Vec<i64>)
        requires
            self.ready(),
        ensures
            ids@ == block_id_range(
                blocks_for(num_tokens as nat, self.cfg.tokens_per_block as nat),
            ),
    {
        block_id_list(block_count(num_tokens, self.cfg.tokens_per_block))
    }
}

impl KvDataPlane for NoopDataPlane {
    open spec fn calls(&self) -> Seq<PlaneCall> {
        self.answered@
    }

    open spec fn ready(&self) -> bool {
        self.cfg.tokens_per_block > 0
    }

    /// The addressing of as many blocks as the prompt takes.
    open spec fn answers_advert(
        &self,
        request_id: Seq<char>,
        num_tokens: nat,
        reply: Result<RemoteKvView, DataPlaneError>,
    ) -> bool {
        reply == Ok::<RemoteKvView, DataPlaneError>(
            self.cfg.remote_of(blocks_for(num_tokens, self.cfg.tokens_per_block as nat)),
        )
    }

    /// Nothing is moved.
    open spec fn answers_pull(
        &self,
        request_id: Seq<char>,
        num_tokens: nat,
        remote: RemoteKvView,
        reply: Result<u64, DataPlaneError>,
    ) -> bool {
        reply == Ok::<u64, DataPlaneError>(0)
    }

    fn advertise_prefilled(&mut self, kv: RequestKv<'_>) -> (reply: Result<
        RemoteKv,
        DataPlaneError,
    >)
        ensures
            final(self).cfg == old(self).cfg,
            reply is Ok,
            reply->Ok_0@ == old(self).cfg.remote_of(
                blocks_for(kv.num_tokens as nat, old(self).cfg.tokens_per_block as nat),
            ),
    {
        let remote = RemoteKv {
            engine_id: self.cfg.engine_id.clone(),
            host: self.cfg.side_channel_host.clone(),
            port: self.cfg.side_channel_port,
            block_ids: self.block_ids(kv.num_tokens),
        };
        self.answered = Ghost(
            self.answered@.push(
                PlaneCall::Advertise {
                    request_id: kv.request_id@,
                    num_tokens: kv.num_tokens as nat,
                    offered: Ok(remote@),
                },
            ),
        );
        Ok(remote)
    }

    fn pull_prefilled(&mut self, kv: RequestKv<'_>, remote: &RemoteKv) -> (reply: Result<
        u64,
        DataPlaneError,
    >)
        ensures
            final(self).cfg == old(self).cfg,
            reply == Ok::<u64, DataPlaneError>(0),
    {
        self.answered = Ghost(
            self.answered@.push(
                PlaneCall::Pull {
                    request_id: kv.request_id@,
                    num_tokens: kv.num_tokens as nat,
                    remote: remote@,
                    moved: Ok(0),
                },
            ),
        );
        Ok(0)
    }

    fn release(&mut self, request_id: &str)
        ensures
            final(self).cfg == old(self).cfg,
    {
        self.answered = Ghost(
            self.answered@.push(PlaneCall::Release { request_id: request_id@ }),
        );
    }
}

/// The data plane of an engine: a transfer-backed one, or the no-op one.
pub enum DataPlane<P> {
    Nixl(P),
    Noop(NoopDataPlane),
}

impl<P: KvDataPlane> KvDataPlane for DataPlane<P> {
    open spec fn calls(&self) -> Seq<PlaneCall> {
        match self {
            DataPlane::Nixl(plane) => plane.calls(),
            DataPlane::Noop(plane) => plane.calls(),
        }
    }

    open spec fn ready(&self) -> bool {
        match self {
            DataPlane::Nixl(plane) => plane.ready(),
            DataPlane::Noop(plane) => plane.ready(),
        }
    }

    open spec fn answers_advert(
        &self,
        request_id: Seq<char>,
        num_tokens: nat,
        reply: Result<RemoteKvView, DataPlaneError>,
    ) -> bool {
        match self {
            DataPlane::Nixl(plane) => plane.answers_advert(request_id, num_tokens, reply),
            DataPlane::Noop(plane) => plane.answers_advert(request_id, num_tokens, reply),
        }
    }

    open spec fn answers_pull(
        &self,
        request_id: Seq<char>,
        num_tokens: nat,
        remote: RemoteKvView,
        reply: Result<u64, DataPlaneError>,
    ) -> bool {
        match self {
            DataPlane::Nixl(plane) => plane.answers_pull(request_id, num_tokens, remote, reply),
            DataPlane::Noop(plane) => plane.answers_pull(request_id, num_tokens, remote, reply),
        }
    }

    fn advertise_prefilled(&mut self, kv: RequestKv<'_>) -> (reply: Result<
        RemoteKv,
        DataPlaneError,
    >)
        ensures
            *old(self) matches DataPlane::Noop(plane) ==> {
                &&& reply is Ok
                &&& reply->Ok_0@ == plane.cfg.remote_of(
                    blocks_for(kv.num_tokens as nat, plane.cfg.tokens_per_block as nat),
                )
                &&& *final(self) matches DataPlane::Noop(after) && after.cfg == plane.cfg
            },
            *old(self) is Nixl ==> *final(self) is Nixl,
    {
        match self {
            DataPlane::Nixl(plane) => plane.advertise_prefilled(kv),
            DataPlane::Noop(plane) => plane.advertise_prefilled(kv),
        }
    }

    fn pull_prefilled(&mut self, kv: RequestKv<'_>, remote: &RemoteKv) -> (reply: Result<
        u64,
        DataPlaneError,
    >)
        ensures
            *old(self) matches DataPlane::Noop(plane) ==> {
                &&& reply == Ok::<u64, DataPlaneError>(0)
                &&& *final(self) matches DataPlane::Noop(after) && after.cfg == plane.cfg
            },
            *old(self) is Nixl ==> *final(self) is Nixl,
    {
        match self {
            DataPlane::Nixl(plane) => plane.pull_prefilled(kv, remote),
            DataPlane::Noop(plane) => plane.pull_prefilled(kv, remote),
        }
    }

    fn release(&mut self, request_id: &str)
        ensures
            *old(self) matches DataPlane::Noop(plane) ==> (*final(self) matches DataPlane::Noop(
                after,
            ) && after.cfg == plane.cfg),
            *old(self) is Nixl ==> *final(self) is Nixl,
    {
        match self {
            DataPlane::Nixl(plane) => plane.release(request_id),
            DataPlane::Noop(plane) => plane.release(request_id),
        }
    }
}

/// Whether an engine of this role moves KV bytes, and so wants a transfer-backed plane.
pub fn wants_nixl(role: PdRole) -> (wants: bool)
    ensures
        wants == (role != PdRole::Both),
{
    role != PdRole::Both
}

/// Picks the data plane for a role. `nixl` is the transfer-backed plane where one could be
/// initialised; without it, and for an engine that hands nothing off, the no-op plane serves,
/// so that the engine still runs as a pure protocol emulator.
pub fn make_data_plane<P: KvDataPlane>(
    role: PdRole,
    cfg: NixlConfig,
    nixl: Option<P>,
) -> (plane: DataPlane<P>)
    ensures
        (role != PdRole::Both && nixl is Some) ==> plane == DataPlane::Nixl(nixl->0),
        !(role != PdRole::Both && nixl is Some) ==> plane == DataPlane::<P>::Noop(
            NoopDataPlane { cfg, answered: Ghost(Seq::empty()) },
        ),
{
    if wants_nixl(role) {
        if let Some(plane) = nixl {
            return DataPlane::Nixl(plane);
        }
    }
    DataPlane::Noop(NoopDataPlane::new(cfg))
}

/// Blocks hold every token and none is spare: there is at least one, all of them together have room
/// for the tokens, and one less would not have.
pub proof fn blocks_hold_every_token(num_tokens: nat, tokens_per_block: nat)
    requires
        tokens_per_block > 0,
    ensures
        blocks_for(num_tokens, tokens_per_block) >= 1,
        blocks_for(num_tokens, tokens_per_block) * tokens_per_block >= num_tokens,
        blocks_for(num_tokens, tokens_per_block) > 1 ==> (blocks_for(num_tokens, tokens_per_block)
            - 1) * tokens_per_block < num_tokens,
{
    let n = num_tokens as int;
    let t = tokens_per_block as int;
    let up = n + t - 1;
    let b = up / t;
    vstd::arithmetic::div_mod::lemma_fundamental_div_mod(up, t);
    assert(up == b * t + up % t && 0 <= up % t < t) by (nonlinear_arith)
        requires
            t > 0,
            up == t * (up / t) + up % t,
            b == up / t,
    ;
    assert(b >= 0) by (nonlinear_arith)
        requires
            up == b * t + up % t,
            0 <= up % t < t,
            up >= 0,
            t > 0,
    ;
    assert((b - 1) * t == b * t - t) by (nonlinear_arith);
    if b == 0 {
        assert(b * t == 0) by (nonlinear_arith)
            requires
                b == 0,
        ;
        assert(1 * t == t);
    }
}

/// Block ids count up from zero, one for each block; a count that is no block id itself has none.
pub proof fn block_ids_count_up(blocks: nat)
    ensures
        blocks <= i64::MAX ==> block_id_range(blocks).len() == blocks,
        blocks <= i64::MAX ==> forall|i: int|
            0 <= i < blocks ==> #[trigger] block_id_range(blocks)[i] == i,
        blocks > i64::MAX ==> block_id_range(blocks).len() == 0,
{
}

/// The no-op plane always answers an advertise call with its own engine id, host and port and with
/// the ids of as many blocks as hold the prompt, and a pull with nothing moved.
pub proof fn the_noop_plane_gives_its_own_addressing(
    plane: NoopDataPlane,
    request_id: Seq<char>,
    num_tokens: nat,
    offered: Result<RemoteKvView, DataPlaneError>,
    remote: RemoteKvView,
    moved: Result<u64, DataPlaneError>,
)
    requires
        plane.cfg.tokens_per_block > 0,
        plane.answers_advert(request_id, num_tokens, offered),
        plane.answers_pull(request_id, num_tokens, remote, moved),
    ensures
        moved == Ok::<u64, DataPlaneError>(0),
        offered is Ok,
        offered->Ok_0.engine_id == plane.cfg.engine_id@,
        offered->Ok_0.host == plane.cfg.side_channel_host@,
        offered->Ok_0.port == plane.cfg.side_channel_port,
        num_tokens <= i64::MAX ==> {
            let ids = offered->Ok_0.block_ids;
            let room = plane.cfg.tokens_per_block;
            &&& ids.len() >= 1
            &&& ids.len() * room >= num_tokens
            &&& ids.len() > 1 ==> (ids.len() - 1) * room < num_tokens
            &&& forall|i: int| 0 <= i < ids.len() ==> #[trigger] ids[i] == i
        },
{
    let room = plane.cfg.tokens_per_block as nat;
    let blocks = blocks_for(num_tokens, room);
    blocks_hold_every_token(num_tokens, room);
    block_ids_count_up(blocks);
    if num_tokens <= i64::MAX {
        assert(blocks <= i64::MAX) by (nonlinear_arith)
            requires
                blocks <= 1 || (blocks - 1) * room < num_tokens,
                room > 0,
                num_tokens <= i64::MAX,
        ;
    }
}

/// The addressing for some blocks is that of the configuration, with the ids of those blocks.
pub proof fn an_addressing_names_its_engine(cfg: NixlConfig, blocks: nat)
    requires
        blocks <= i64::MAX,
    ensures
        cfg.remote_of(blocks).engine_id == cfg.engine_id@,
        cfg.remote_of(blocks).host == cfg.side_channel_host@,
        cfg.remote_of(blocks).port == cfg.side_channel_port,
        cfg.remote_of(blocks).block_ids.len() == blocks,
        forall|i: int| 0 <= i < blocks ==> #[trigger] cfg.remote_of(blocks).block_ids[i] == i,
{
    block_ids_count_up(blocks);
}

/// A plane stands for the one that it holds: it has answered the same calls, is ready when that
/// one is, and may answer as that one may.
pub proof fn a_plane_stands_for_the_one_it_holds<P: KvDataPlane>(
    inner: P,
    noop: NoopDataPlane,
    request_id: Seq<char>,
    num_tokens: nat,
    offered: Result<RemoteKvView, DataPlaneError>,
    remote: RemoteKvView,
    moved: Result<u64, DataPlaneError>,
)
    ensures
        ({
            let plane = DataPlane::Nixl(inner);
            &&& plane.calls() == inner.calls()
            &&& plane.ready() == inner.ready()
            &&& plane.answers_advert(request_id, num_tokens, offered) == inner.answers_advert(
                request_id,
                num_tokens,
                offered,
            )
            &&& plane.answers_pull(request_id, num_tokens, remote, moved) == inner.answers_pull(
                request_id,
                num_tokens,
                remote,
                moved,
            )
        }),
        ({
            let plane = DataPlane::<P>::Noop(noop);
            &&& plane.calls() == noop.calls()
            &&& plane.ready() == noop.ready()
            &&& plane.answers_advert(request_id, num_tokens, offered) == noop.answers_advert(
                request_id,
                num_tokens,
                offered,
            )
            &&& plane.answers_pull(request_id, num_tokens, remote, moved) == noop.answers_pull(
                request_id,
                num_tokens,
                remote,
                moved,
            )
        }),
{
}

/// An error tells what went wrong: a transfer error in the library's own words, a time-out with
/// the agent that was read from, and a failed check with the byte that was expected, in two
/// hexadecimal digits, and the one that came, if any did.
pub proof fn a_plane_error_tells_what_went_wrong(error: DataPlaneError)
    ensures
        match error {
            DataPlaneError::Backend(text) => plane_error_text(error) == text@,
            DataPlaneError::TimedOut { remote } => plane_error_text(error) == "NIXL READ from "@
                + remote@ + " timed out after 5s"@,
            DataPlaneError::VerifyFailed { expected, got: Some(byte) } => plane_error_text(error)
                == "KV verify failed: expected 0x"@ + hex_of(seq![expected]) + ", got "@ + ("Some("@
                + decimal_of(byte as nat) + ")"@),
            DataPlaneError::VerifyFailed { expected, got: None } => plane_error_text(error)
                == "KV verify failed: expected 0x"@ + hex_of(seq![expected]) + ", got "@ + "None"@,
        },
{
}

/// The answer to an advertise call says what it holds: the addressing, or the error itself.
pub proof fn an_answer_says_what_it_holds(reply: Result<RemoteKv, DataPlaneError>)
    ensures
        match reply {
            Ok(remote) => advert_view(reply) == Ok::<RemoteKvView, DataPlaneError>(remote@),
            Err(error) => advert_view(reply) == Err::<RemoteKvView, DataPlaneError>(error),
        },
{
}

} // verus!

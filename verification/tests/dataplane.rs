use inference_sim::dataplane::{
    block_count, block_id_list, make_data_plane, wants_nixl, DataPlane, DataPlaneError,
    KvDataPlane, NixlConfig, NoopDataPlane, PdRole, RemoteKv, RequestKv,
};
use inference_sim::nixl::{
    finish_read, pattern_for, poll_read, AdvertPlan, NixlLedger, PullPlan, ReadPoll, StagedKv,
    XFER_TIMEOUT_NANOS,
};
use std::collections::HashMap;

fn config() -> NixlConfig {
    NixlConfig {
        kv_block_bytes: 4096,
        tokens_per_block: 16,
        engine_id: "mock-loopback".to_string(),
        side_channel_host: "127.0.0.1".to_string(),
        side_channel_port: 5600,
    }
}

/// A plane whose transfers are copies within this process's memory.
struct MemoryPlane {
    ledger: NixlLedger,
    buffers: HashMap<u64, Vec<u8>>,
    next_addr: u64,
}

impl MemoryPlane {
    fn new(cfg: NixlConfig) -> MemoryPlane {
        MemoryPlane {
            ledger: NixlLedger::new(cfg),
            buffers: HashMap::new(),
            next_addr: 0x1000,
        }
    }
}

impl KvDataPlane for MemoryPlane {
    fn advertise_prefilled(&mut self, kv: RequestKv<'_>) -> Result<RemoteKv, DataPlaneError> {
        match self.ledger.plan_advertise(false, kv) {
            AdvertPlan::Reply(remote) => Ok(remote),
            AdvertPlan::Stage { blocks, total, pattern } => {
                let addr = self.next_addr;
                self.next_addr += total as u64;
                self.buffers.insert(addr, vec![pattern; total]);
                let buffer = StagedKv { addr, len: total as u64, pattern };
                Ok(self.ledger.stage(kv.request_id, blocks, buffer))
            }
        }
    }

    fn pull_prefilled(
        &mut self,
        kv: RequestKv<'_>,
        remote: &RemoteKv,
    ) -> Result<u64, DataPlaneError> {
        match self.ledger.plan_pull(false, kv, remote) {
            PullPlan::Nothing => Ok(0),
            PullPlan::Read(buffer) => {
                let landed = self.buffers.remove(&buffer.addr).unwrap_or_default();
                finish_read(&buffer, &landed)
            }
        }
    }

    fn release(&mut self, request_id: &str) {
        self.ledger.release(request_id);
    }
}

#[test]
fn loopback_dram_transfer() {
    // A prefill plane registers + stages the KV; the same agent reads it back, which drives
    // the register -> read -> poll -> verify decisions without a side channel.
    let mut plane = make_data_plane(PdRole::Prefill, config(), Some(MemoryPlane::new(config())));
    let kv = RequestKv {
        request_id: "req-loopback-1",
        num_tokens: 40,
    };

    let remote = plane
        .advertise_prefilled(kv)
        .expect("prefill should register + advertise KV");
    assert_eq!(remote.engine_id, "mock-loopback");
    // 40 tokens / 16 per block = ceil -> 3 blocks.
    assert_eq!(remote.block_ids, vec![0, 1, 2]);

    let bytes = plane
        .pull_prefilled(kv, &remote)
        .expect("decode should READ + verify the staged KV over NIXL");
    assert_eq!(
        bytes,
        3 * 4096,
        "expected the full fabricated KV to transfer"
    );
    // What was pulled is gone.
    assert_eq!(plane.pull_prefilled(kv, &remote), Ok(0));
}

#[test]
fn released_kv_moves_no_bytes() {
    let mut plane = make_data_plane(PdRole::Decode, config(), Some(MemoryPlane::new(config())));
    let kv = RequestKv { request_id: "r", num_tokens: 1 };
    let remote = plane.advertise_prefilled(kv).unwrap();
    plane.release("r");
    assert_eq!(plane.pull_prefilled(kv, &remote), Ok(0));
}

#[test]
fn the_noop_plane_advertises_and_moves_nothing() {
    let mut plane = NoopDataPlane::new(config());
    let kv = RequestKv { request_id: "r", num_tokens: 33 };
    let remote = plane.advertise_prefilled(kv).unwrap();
    assert_eq!(remote.engine_id, "mock-loopback");
    assert_eq!(remote.host, "127.0.0.1");
    assert_eq!(remote.port, 5600);
    assert_eq!(remote.block_ids, vec![0, 1, 2]);
    assert_eq!(plane.block_ids(0), vec![0]);
    assert_eq!(plane.pull_prefilled(kv, &remote), Ok(0));
    plane.release("r");
}

#[test]
fn a_role_without_handoff_or_bindings_gets_the_noop_plane() {
    assert!(wants_nixl(PdRole::Prefill));
    assert!(wants_nixl(PdRole::Decode));
    assert!(!wants_nixl(PdRole::Both));
    let both = make_data_plane(PdRole::Both, config(), Some(MemoryPlane::new(config())));
    assert!(matches!(both, DataPlane::Noop(_)));
    let bare = make_data_plane::<MemoryPlane>(PdRole::Prefill, config(), None);
    assert!(matches!(bare, DataPlane::Noop(_)));
    let real = make_data_plane(PdRole::Decode, config(), Some(MemoryPlane::new(config())));
    assert!(matches!(real, DataPlane::Nixl(_)));
}

#[test]
fn blocks_hold_every_token() {
    assert_eq!(block_count(0, 16), 1);
    assert_eq!(block_count(1, 16), 1);
    assert_eq!(block_count(16, 16), 1);
    assert_eq!(block_count(17, 16), 2);
    assert_eq!(block_count(usize::MAX, 1), usize::MAX);
    assert_eq!(block_count(usize::MAX, usize::MAX), 1);
    assert_eq!(block_id_list(4), vec![0, 1, 2, 3]);
    assert!(block_id_list(0).is_empty());
}

#[test]
fn fill_bytes_follow_the_request_id() {
    // 0xa5 plus the bytes of the id, with the lowest bit set.
    assert_eq!(pattern_for(""), 0xa5);
    assert_eq!(pattern_for("a"), 0xa5u8.wrapping_add(b'a') | 1);
    let expected = "req-é-7".bytes().fold(0xa5u8, |acc, b| acc.wrapping_add(b)) | 1;
    assert_eq!(pattern_for("req-é-7"), expected);
    assert_ne!(pattern_for("req-loopback-1"), 0);
}

#[test]
fn stub_bindings_advertise_one_block_and_stage_nothing() {
    let mut ledger = NixlLedger::new(config());
    let kv = RequestKv { request_id: "r", num_tokens: 40 };
    let remote = match ledger.plan_advertise(true, kv) {
        AdvertPlan::Reply(remote) => remote,
        other => panic!("expected a reply, got {other:?}"),
    };
    assert_eq!(remote.block_ids, vec![0]);
    assert_eq!(ledger.plan_pull(true, kv, &remote), PullPlan::Nothing);
}

#[test]
fn staging_sizes_and_fills_the_buffer() {
    let ledger = NixlLedger::new(config());
    let kv = RequestKv { request_id: "r", num_tokens: 40 };
    match ledger.plan_advertise(false, kv) {
        AdvertPlan::Stage { blocks, total, pattern } => {
            assert_eq!(blocks, 3);
            assert_eq!(total, 3 * 4096);
            assert_eq!(pattern, pattern_for("r"));
        }
        other => panic!("expected a buffer to stage, got {other:?}"),
    }
}

#[test]
fn only_our_own_staged_buffers_are_read() {
    let mut ledger = NixlLedger::new(config());
    let kv = RequestKv { request_id: "r", num_tokens: 1 };
    let buffer = StagedKv { addr: 64, len: 4096, pattern: 7 };
    let remote = ledger.stage("r", 1, buffer);
    let mut elsewhere = remote.clone();
    elsewhere.engine_id = "another".to_string();
    assert_eq!(ledger.plan_pull(false, kv, &elsewhere), PullPlan::Nothing);
    let other = RequestKv { request_id: "s", num_tokens: 1 };
    assert_eq!(ledger.plan_pull(false, other, &remote), PullPlan::Nothing);
    assert_eq!(ledger.plan_pull(false, kv, &remote), PullPlan::Read(buffer));
    assert!(!ledger.release("r"));
    ledger.stage("r", 1, buffer);
    assert!(ledger.release("r"));
}

#[test]
fn polling_gives_up_after_the_timeout() {
    assert_eq!(XFER_TIMEOUT_NANOS, 5_000_000_000);
    assert_eq!(poll_read(true, u128::MAX), ReadPoll::Done);
    assert_eq!(poll_read(false, XFER_TIMEOUT_NANOS), ReadPoll::Wait);
    assert_eq!(poll_read(false, XFER_TIMEOUT_NANOS + 1), ReadPoll::TimedOut);
}

#[test]
fn a_read_is_verified_byte_by_byte() {
    let failed = |got: Option<u8>| Err(DataPlaneError::VerifyFailed { expected: 3, got });
    let buffer = StagedKv { addr: 0, len: 4, pattern: 3 };
    assert_eq!(finish_read(&buffer, &[3, 3, 3, 3]), Ok(4));
    assert_eq!(finish_read(&buffer, &[3, 3, 7, 9]), failed(Some(7)));
    assert_eq!(finish_read(&buffer, &[0, 3, 3, 3]), failed(Some(0)));
    // Too few bytes, and too many.
    assert_eq!(finish_read(&buffer, &[3, 3, 3]), failed(None));
    assert_eq!(finish_read(&buffer, &[]), failed(None));
    assert_eq!(finish_read(&buffer, &[3, 3, 3, 3, 3]), failed(None));
    assert_eq!(finish_read(&buffer, &[4, 3]), failed(Some(4)));
    let empty = StagedKv { addr: 0, len: 0, pattern: 3 };
    assert_eq!(finish_read(&empty, &[]), failed(None));
}

#[test]
fn the_fallback_plane_answers_as_the_noop_plane() {
    let mut plane = make_data_plane::<MemoryPlane>(PdRole::Decode, config(), None);
    let kv = RequestKv { request_id: "r", num_tokens: 40 };
    let remote = plane.advertise_prefilled(kv).unwrap();
    assert_eq!(remote.engine_id, "mock-loopback");
    assert_eq!(remote.port, 5600);
    assert_eq!(remote.block_ids, vec![0, 1, 2]);
    assert_eq!(plane.pull_prefilled(kv, &remote), Ok(0));
    plane.release("r");
    assert_eq!(plane.advertise_prefilled(kv).unwrap().host, "127.0.0.1");
}

#[test]
fn data_plane_errors_read_as_text() {
    assert_eq!(DataPlaneError::Backend("nixl: down".to_string()).message(), "nixl: down");
    assert_eq!(
        DataPlaneError::TimedOut { remote: "peer".to_string() }.message(),
        "NIXL READ from peer timed out after 5s"
    );
    assert_eq!(
        DataPlaneError::VerifyFailed { expected: 0x0b, got: Some(200) }.message(),
        format!("KV verify failed: expected 0x{:02x}, got {:?}", 0x0b, Some(200u8))
    );
    assert_eq!(
        DataPlaneError::VerifyFailed { expected: 0xab, got: None }.message(),
        "KV verify failed: expected 0xab, got None"
    );
}

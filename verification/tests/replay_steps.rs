use inference_sim::replay_steps::{
    derive_spec_tokens, floor_gap, schedule_from_record, IndexSteps, PrefixSteps, StepSource,
};
use inference_sim::trace::{Millis, TraceRecord};

fn ms(value: f64) -> Millis {
    Millis { bits: value.to_bits() }
}

fn record(prompt: usize, out: usize, gaps: Vec<f64>, toks: Option<Vec<u32>>) -> TraceRecord {
    TraceRecord {
        prompt_tokens: prompt,
        output_tokens: out,
        ttft_ms: ms(5.0),
        itl_ms: Some(gaps.into_iter().map(ms).collect()),
        itl_tokens: toks,
        ..Default::default()
    }
}

/// A hash chain over whole blocks: each hash covers all the blocks up to its own.
fn prompt_block_hashes(prompt: &[u32], block_size: usize) -> Option<Vec<u64>> {
    if block_size == 0 {
        return None;
    }
    let mut hash: u64 = 0xcbf2_9ce4_8422_2325;
    let mut chain = Vec::new();
    for block in prompt.chunks_exact(block_size) {
        for token in block {
            hash = (hash ^ u64::from(*token)).wrapping_mul(0x0000_0100_0000_01b3);
        }
        chain.push(hash);
    }
    Some(chain)
}

#[test]
fn schedule_reproduces_recorded_bursts_and_first_chunk() {
    // out=10: first chunk 1, then bursts 4+5 = 9.
    let r = record(8, 10, vec![10.0, 12.0], Some(vec![4, 5]));
    let s = schedule_from_record(&r).unwrap();
    assert_eq!(s.first_chunk_tokens, 1);
    assert_eq!(s.output_tokens(), 10);
    let sizes: Vec<u32> = s.steps.iter().map(|d| d.tokens).collect();
    assert_eq!(sizes, vec![4, 5]);
    let gaps_ms: Vec<f64> = s
        .steps
        .iter()
        .map(|d| f64::from_bits(d.delay.bits) / 1000.0 * 1000.0)
        .collect();
    assert!((gaps_ms[0] - 10.0).abs() < 1e-6 && (gaps_ms[1] - 12.0).abs() < 1e-6);
}

#[test]
fn diffusion_first_chunk_owns_the_remainder() {
    // 320 tokens in 64-token blocks: first chunk 64, then four 64s.
    let r = record(64, 320, vec![80.0; 4], Some(vec![64; 4]));
    let s = schedule_from_record(&r).unwrap();
    assert_eq!(s.first_chunk_tokens, 64);
    assert_eq!(s.output_tokens(), 320);
}

#[test]
fn autoregressive_record_yields_single_token_steps() {
    let r = record(8, 5, vec![10.0; 4], None);
    let s = schedule_from_record(&r).unwrap();
    assert_eq!(s.first_chunk_tokens, 1);
    assert!(s.steps.iter().all(|d| d.tokens == 1));
}

#[test]
fn index_match_resolves_by_request_id_tail() {
    let recs = vec![
        record(8, 5, vec![10.0; 4], Some(vec![1, 1, 1, 1])),
        record(8, 10, vec![10.0, 12.0], Some(vec![4, 5])),
    ];
    let mut src = IndexSteps::from_records(recs);
    assert_eq!(src.spec_tokens(), Some(4)); // max chunk 5 - 1
    let s = src.take_schedule("replay-1", &[]).unwrap();
    assert_eq!(s.output_tokens(), 10);
    assert!(src.take_schedule("replay-99", &[]).is_none());
}

#[test]
fn prefix_match_consumes_once_in_arrival_order() {
    let prompt: Vec<u32> = (0..8).collect();
    let mk = || {
        let mut r = record(8, 10, vec![10.0, 12.0], Some(vec![4, 5]));
        r.block_hashes = prompt_block_hashes(&prompt, 4);
        r
    };
    let mut src = PrefixSteps::from_records(vec![mk(), mk()], 4, prompt_block_hashes);
    assert!(src.take_schedule("a", &prompt).is_some());
    assert!(src.take_schedule("b", &prompt).is_some());
    // Both records consumed; a third request re-serves the earliest.
    assert!(src.take_schedule("c", &prompt).is_some());
    // A prompt sharing no block matches nothing.
    let alien: Vec<u32> = (900..908).collect();
    assert!(src.take_schedule("alien", &alien).is_none());
}

#[test]
fn records_are_served_in_order_and_then_from_the_start() {
    let prompt: Vec<u32> = (0..8).collect();
    let mk = |out: usize| {
        let mut r = record(8, out, vec![1.0], None);
        r.block_hashes = prompt_block_hashes(&prompt, 4);
        r
    };
    let mut src = PrefixSteps::from_records(vec![mk(20), mk(30)], 4, prompt_block_hashes);
    let mut served = Vec::new();
    for id in ["a", "b", "c", "d"] {
        served.push(src.take_schedule(id, &prompt).unwrap().output_tokens());
    }
    assert_eq!(served, vec![20, 30, 20, 20]);
    assert_eq!(src.consumed, vec![true, true]);
}

#[test]
fn the_longest_shared_prefix_wins() {
    let short: Vec<u32> = (0..4).collect();
    let long: Vec<u32> = (0..8).collect();
    let mk = |prompt: &[u32], out: usize| {
        let mut r = record(prompt.len(), out, vec![1.0], None);
        r.block_hashes = prompt_block_hashes(prompt, 4);
        r
    };
    let mut src = PrefixSteps::from_records(
        vec![mk(&short, 20), mk(&long, 30)],
        4,
        prompt_block_hashes,
    );
    // The whole prompt matches the second record only.
    assert_eq!(src.take_schedule("a", &long).unwrap().output_tokens(), 30);
    // A prompt that diverges after the first block falls back to the shared block.
    let fork: Vec<u32> = vec![0, 1, 2, 3, 90, 91, 92, 93];
    assert_eq!(src.take_schedule("b", &fork).unwrap().output_tokens(), 20);
    // A prompt shorter than a block has no hash to match.
    assert!(src.take_schedule("c", &[0, 1]).is_none());
}

#[test]
fn records_without_gaps_or_hashes_are_not_matched() {
    let prompt: Vec<u32> = (0..4).collect();
    let mut no_gaps = record(4, 1, Vec::new(), None);
    no_gaps.itl_ms = None;
    no_gaps.block_hashes = prompt_block_hashes(&prompt, 4);
    let no_hashes = record(4, 5, vec![1.0], None);
    let mut src = PrefixSteps::from_records(vec![no_gaps, no_hashes], 4, prompt_block_hashes);
    assert!(src.take_schedule("a", &prompt).is_none());
    assert_eq!(src.spec_tokens(), None);
}

#[test]
fn a_prompt_without_a_chain_takes_nothing() {
    let mut src = PrefixSteps::from_records(
        vec![record(4, 5, vec![1.0], None)],
        0,
        prompt_block_hashes,
    );
    assert!(src.take_schedule("a", &[1, 2, 3]).is_none());
}

#[test]
fn a_chain_matches_by_its_deepest_hash() {
    let mut a = record(4, 11, vec![1.0], None);
    a.block_hashes = Some(vec![7, 8]);
    let mut b = record(4, 12, vec![1.0], None);
    b.block_hashes = Some(vec![7, 9]);
    let mut src = PrefixSteps::from_records(vec![a, b], 4, prompt_block_hashes);
    assert_eq!(src.take_matching(&vec![7, 9, 100]).unwrap().output_tokens(), 12);
    assert_eq!(src.take_matching(&vec![7]).unwrap().output_tokens(), 11);
    assert!(src.take_matching(&vec![100]).is_none());
    assert!(src.take_matching(&Vec::new()).is_none());
}

#[test]
fn nothing_to_replay_gives_no_schedule() {
    let mut r = record(8, 5, vec![10.0; 4], None);
    r.itl_ms = None;
    assert!(schedule_from_record(&r).is_none());
    // Counts that do not parallel the gaps are no schedule either.
    assert!(schedule_from_record(&record(8, 5, vec![10.0; 4], Some(vec![1, 1]))).is_none());
}

#[test]
fn chunks_carry_at_least_one_token() {
    // The listed chunks already exceed the output: the first chunk still has one token.
    let s = schedule_from_record(&record(8, 3, vec![1.0, 2.0], Some(vec![0, 9]))).unwrap();
    assert_eq!(s.first_chunk_tokens, 1);
    let sizes: Vec<u32> = s.steps.iter().map(|d| d.tokens).collect();
    assert_eq!(sizes, vec![1, 9]);
    assert_eq!(s.steps[1].delay, ms(2.0));
    assert_eq!(s.output_tokens(), 11);
}

#[test]
fn a_request_id_ends_in_its_record_number() {
    assert_eq!(IndexSteps::record_index("replay-12"), Some(12));
    assert_eq!(IndexSteps::record_index("a-b-3"), Some(3));
    assert_eq!(IndexSteps::record_index("7"), Some(7));
    assert_eq!(IndexSteps::record_index("replay-"), None);
    assert_eq!(IndexSteps::record_index("replay-x"), None);
}

#[test]
fn the_speculative_budget_is_the_widest_burst_less_one() {
    assert_eq!(derive_spec_tokens(&Vec::new()), None);
    assert_eq!(derive_spec_tokens(&vec![record(1, 2, vec![1.0], None)]), None);
    assert_eq!(derive_spec_tokens(&vec![record(1, 2, vec![1.0], Some(vec![1]))]), None);
    let wide = vec![
        record(1, 9, vec![1.0, 1.0], Some(vec![3, 8])),
        record(1, 9, vec![1.0], Some(vec![5])),
    ];
    assert_eq!(derive_spec_tokens(&wide), Some(7));
}

#[test]
fn a_gap_is_never_below_zero() {
    let gaps = vec![-1.0, f64::NAN, -0.0, f64::NEG_INFINITY, 0.0, 2.5];
    let s = schedule_from_record(&record(1, 7, gaps, None)).unwrap();
    let delays: Vec<u64> = s.steps.iter().map(|d| d.delay.bits).collect();
    assert_eq!(delays, vec![0, 0, 0, 0, 0, 2.5f64.to_bits()]);
    assert_eq!(floor_gap(ms(-f64::NAN)), ms(0.0));
    assert_eq!(floor_gap(ms(f64::MAX)), ms(f64::MAX));
}

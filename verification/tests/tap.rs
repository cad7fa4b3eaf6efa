use inference_sim::tap::{
    TapConfig, TapMetaConfig, TapNext, TapOptions, TapRun, TapStep, TokenRecording,
};

fn trail(with_stats: bool, fails: &[TapStep]) -> (Vec<TapStep>, Option<TapStep>) {
    let mut run = TapRun::new(with_stats);
    let mut performed = Vec::new();
    loop {
        match run.next() {
            TapNext::Perform(step) => {
                performed.push(step);
                run.advance(!fails.contains(&step));
            }
            TapNext::End(failed) => return (performed, failed),
        }
    }
}

#[test]
fn options_configure_meta_and_transport() {
    let (meta, config) = TapOptions {
        frontend_handshake: "tcp://127.0.0.1:5570".to_string(),
        engine_handshake: "tcp://127.0.0.1:5580".to_string(),
        input_address: "tcp://127.0.0.1:29560".to_string(),
        output_address: "tcp://127.0.0.1:29561".to_string(),
        model: "m".to_string(),
        gpu: Some("H200".to_string()),
        tp: Some(2),
        config_hash: Some("abc".to_string()),
        vllm_version: Some("v0.23.0".to_string()),
        max_num_seqs: Some(256),
        engine_config: "tp=2".to_string(),
        block_size: 16,
        record_tokens: TokenRecording::On,
    }
    .into_configs();
    assert_eq!(
        meta,
        TapMetaConfig {
            model: "m".to_string(),
            gpu: Some("H200".to_string()),
            tp: Some(2),
            max_num_seqs: Some(256),
            block_size: 16,
            config_hash: Some("abc".to_string()),
            vllm_tag: Some("v0.23.0".to_string()),
            engine_config: "tp=2".to_string(),
        }
    );
    assert_eq!(
        config,
        TapConfig {
            frontend_handshake: "tcp://127.0.0.1:5570".to_string(),
            engine_handshake: "tcp://127.0.0.1:5580".to_string(),
            input_address: "tcp://127.0.0.1:29560".to_string(),
            output_address: "tcp://127.0.0.1:29561".to_string(),
            block_size: 16,
            record_tokens: TokenRecording::On,
        }
    );
}

#[test]
fn a_clean_run_performs_every_step() {
    assert_eq!(
        trail(false, &[]),
        (
            vec![
                TapStep::CreateTrace,
                TapStep::RunTap,
                TapStep::FinishTrace,
                TapStep::UploadTrace,
            ],
            None
        )
    );
    assert_eq!(
        trail(true, &[]),
        (
            vec![
                TapStep::CreateTrace,
                TapStep::CreateStats,
                TapStep::RunTap,
                TapStep::FinishTrace,
                TapStep::UploadTrace,
                TapStep::FinishStats,
                TapStep::UploadStats,
            ],
            None
        )
    );
}

#[test]
fn outputs_land_when_the_tap_fails() {
    let (performed, failed) = trail(true, &[TapStep::RunTap]);
    assert_eq!(performed.len(), 7);
    assert_eq!(performed.last(), Some(&TapStep::UploadStats));
    assert_eq!(failed, Some(TapStep::RunTap));
}

#[test]
fn a_failed_step_ends_the_run_with_its_error() {
    let (performed, failed) = trail(false, &[TapStep::CreateTrace]);
    assert_eq!(performed, vec![TapStep::CreateTrace]);
    assert_eq!(failed, Some(TapStep::CreateTrace));
    // A failed upload takes precedence over a failed tap.
    let (performed, failed) = trail(true, &[TapStep::RunTap, TapStep::UploadTrace]);
    assert_eq!(performed.last(), Some(&TapStep::UploadTrace));
    assert_eq!(failed, Some(TapStep::UploadTrace));
}

#[test]
fn a_run_that_ended_stays_ended() {
    let mut run = TapRun::new(false);
    run.advance(false);
    run.advance(true);
    assert_eq!(run.next(), TapNext::End(Some(TapStep::CreateTrace)));
}

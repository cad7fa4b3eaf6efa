//! The recording tap's setup and teardown: what its options configure, and in which order a
//! run opens, records, finalizes and uploads its outputs.
use vstd::prelude::*;

verus! {

/// Whether output token ids are recorded. Off by default: with the same tokenizer the ids
/// decode back to the generated text, so such traces carry user content.
#[derive(Debug, Clone, Copy, PartialEq, Eq, Structural)]
pub enum TokenRecording {
    Off,
    On,
}

/// What the command line configures, outputs aside.
#[derive(Debug, Clone, PartialEq, Eq)]
pub struct TapOptions {
    pub frontend_handshake: String,
    pub engine_handshake: String,
    pub input_address: String,
    pub output_address: String,
    pub model: String,
    pub gpu: Option<String>,
    pub tp: Option<u32>,
    pub config_hash: Option<String>,
    pub vllm_version: Option<String>,
    pub max_num_seqs: Option<u64>,
    pub engine_config: String,
    pub block_size: usize,
    pub record_tokens: TokenRecording,
}

/// What the tap stamps on the trace's meta line.
#[derive(Debug, Clone, PartialEq, Eq)]
pub struct TapMetaConfig {
    pub model: String,
    pub gpu: Option<String>,
    pub tp: Option<u32>,
    pub max_num_seqs: Option<u64>,
    pub block_size: usize,
    pub config_hash: Option<String>,
    pub vllm_tag: Option<String>,
    pub engine_config: String,
}

/// What the tap's transport needs.
#[derive(Debug, Clone, PartialEq, Eq)]
pub struct TapConfig {
    pub frontend_handshake: String,
    pub engine_handshake: String,
    pub input_address: String,
    pub output_address: String,
    pub block_size: usize,
    pub record_tokens: TokenRecording,
}

impl TapOptions {
    /// The meta and transport configurations that the options give. Both use the same block
    /// size.
    pub fn into_configs(self) -> (configs: (TapMetaConfig, TapConfig))
        ensures
            configs.0 == (TapMetaConfig {
                model: self.model,
                gpu: self.gpu,
                tp: self.tp,
                max_num_seqs: self.max_num_seqs,
                block_size: self.block_size,
                config_hash: self.config_hash,
                vllm_tag: self.vllm_version,
                engine_config: self.engine_config,
            }),
            configs.1 == (TapConfig {
                frontend_handshake: self.frontend_handshake,
                engine_handshake: self.engine_handshake,
                input_address: self.input_address,
                output_address: self.output_address,
                block_size: self.block_size,
                record_tokens: self.record_tokens,
            }),
    {
        let meta = TapMetaConfig {
            model: self.model,
            gpu: self.gpu,
            tp: self.tp,
            max_num_seqs: self.max_num_seqs,
            block_size: self.block_size,
            config_hash: self.config_hash,
            vllm_tag: self.vllm_version,
            engine_config: self.engine_config,
        };
        let config = TapConfig {
            frontend_handshake: self.frontend_handshake,
            engine_handshake: self.engine_handshake,
            input_address: self.input_address,
            output_address: self.output_address,
            block_size: self.block_size,
            record_tokens: self.record_tokens,
        };
        (meta, config)
    }
}

/// What a run performs, one after the other.
#[derive(Debug, Clone, Copy, PartialEq, Eq, Structural)]
pub enum TapStep {
    CreateTrace,
    CreateStats,
    RunTap,
    FinishTrace,
    UploadTrace,
    FinishStats,
    UploadStats,
}

/// What a run does next: perform a step, or end. A run that ends gives the step whose error it
/// returns, if any.
#[derive(Debug, Clone, Copy, PartialEq, Eq, Structural)]
pub enum TapNext {
    Perform(TapStep),
    End(Option<TapStep>),
}

/// The steps of a run, with or without a file of step statistics.
pub open spec fn steps_of(with_stats: bool) -> Seq<TapStep> {
    if with_stats {
        seq![
            TapStep::CreateTrace,
            TapStep::CreateStats,
            TapStep::RunTap,
            TapStep::FinishTrace,
            TapStep::UploadTrace,
            TapStep::FinishStats,
            TapStep::UploadStats,
        ]
    } else {
        seq![TapStep::CreateTrace, TapStep::RunTap, TapStep::FinishTrace, TapStep::UploadTrace]
    }
}

/// How far a run has come.
#[derive(Debug, Clone, Copy, PartialEq, Eq, Structural)]
pub struct TapRun {
    pub with_stats: bool,
    /// How many steps are behind.
    pub done: usize,
    /// Whether the tap itself failed.
    pub tap_failed: bool,
    /// The other step that failed, if any.
    pub failed: Option<TapStep>,
}

impl TapRun {
    /// Whether the run is within its steps.
    pub open spec fn wf(self) -> bool {
        self.done <= steps_of(self.with_stats).len()
    }

    /// What the run does next.
    pub open spec fn following(self) -> TapNext {
        if self.failed is Some {
            TapNext::End(self.failed)
        } else if self.done < steps_of(self.with_stats).len() {
            TapNext::Perform(steps_of(self.with_stats)[self.done as int])
        } else if self.tap_failed {
            TapNext::End(Some(TapStep::RunTap))
        } else {
            TapNext::End(None)
        }
    }

    /// The run after its next step went well or not. A failure of the tap is kept for the end;
    /// any other failure ends the run.
    pub open spec fn advanced(self, ok: bool) -> TapRun {
        match self.following() {
            TapNext::Perform(step) => if ok || step == TapStep::RunTap {
                TapRun { done: (self.done + 1) as usize, tap_failed: self.tap_failed || !ok, ..self }
            } else {
                TapRun { failed: Some(step), ..self }
            },
            TapNext::End(_) => self,
        }
    }

    /// A run that has not begun.
    pub fn new(with_stats: bool) -> (run: TapRun)
        ensures
            run == (TapRun { with_stats, done: 0, tap_failed: false, failed: None }),
            run.wf(),
    {
        TapRun { with_stats, done: 0, tap_failed: false, failed: None }
    }

    /// What to do next.
    pub fn next(&self) -> (next: TapNext)
        requires
            self.wf(),
        ensures
            next == self.following(),
    {
        if let Some(step) = self.failed {
            return TapNext::End(Some(step));
        }
        let step: Option<TapStep> = match (self.with_stats, self.done) {
            (_, 0) => Some(TapStep::CreateTrace),
            (true, 1) => Some(TapStep::CreateStats),
            (true, 2) | (false, 1) => Some(TapStep::RunTap),
            (true, 3) | (false, 2) => Some(TapStep::FinishTrace),
            (true, 4) | (false, 3) => Some(TapStep::UploadTrace),
            (true, 5) => Some(TapStep::FinishStats),
            (true, 6) => Some(TapStep::UploadStats),
            _ => None,
        };
        match step {
            Some(step) => TapNext::Perform(step),
            None => if self.tap_failed {
                TapNext::End(Some(TapStep::RunTap))
            } else {
                TapNext::End(None)
            },
        }
    }

    /// Notes how the step that was to be performed went.
    pub fn advance(&mut self, ok: bool)
        requires
            old(self).wf(),
        ensures
            *final(self) == old(self).advanced(ok),
            final(self).wf(),
    {
        match self.next() {
            TapNext::Perform(step) => {
                if ok || step == TapStep::RunTap {
                    self.done = self.done + 1;
                    self.tap_failed = self.tap_failed || !ok;
                } else {
                    self.failed = Some(step);
                }
            },
            TapNext::End(_) => {},
        }
    }
}

/// A run after its steps went as `replies` say.
pub open spec fn run_after(with_stats: bool, replies: Seq<bool>) -> TapRun
    decreases replies.len(),
{
    if replies.len() == 0 {
        TapRun { with_stats, done: 0, tap_failed: false, failed: None }
    } else {
        run_after(with_stats, replies.drop_last()).advanced(replies.last())
    }
}

/// Outputs are finalized and uploaded even when the tap fails: as long as the steps around the
/// tap go well, every step is performed in order, and what the run returns is how the tap went.
pub proof fn outputs_land_even_when_the_tap_fails(with_stats: bool, replies: Seq<bool>)
    requires
        replies.len() <= steps_of(with_stats).len(),
        forall|i: int|
            0 <= i < replies.len() && steps_of(with_stats)[i] != TapStep::RunTap
                ==> #[trigger] replies[i],
    ensures
        run_after(with_stats, replies).done == replies.len(),
        run_after(with_stats, replies).tap_failed == exists|i: int|
            0 <= i < replies.len() && !#[trigger] replies[i],
        replies.len() < steps_of(with_stats).len() ==> run_after(with_stats, replies).following()
            == TapNext::Perform(steps_of(with_stats)[replies.len() as int]),
        replies.len() == steps_of(with_stats).len() ==> run_after(with_stats, replies).following()
            == TapNext::End(
            if replies.contains(false) {
                Some(TapStep::RunTap)
            } else {
                None
            },
        ),
    decreases replies.len(),
{
    if replies.len() > 0 {
        let front = replies.drop_last();
        let n = replies.len() - 1;
        assert forall|i: int| 0 <= i < front.len() && steps_of(with_stats)[i]
            != TapStep::RunTap implies #[trigger] front[i] by {
            assert(front[i] == replies[i]);
        }
        outputs_land_even_when_the_tap_fails(with_stats, front);
        if !replies[n] {
            assert(steps_of(with_stats)[n] == TapStep::RunTap);
        }
        lemma_steps_kept(with_stats, replies);
        if exists|i: int| 0 <= i < front.len() && !#[trigger] front[i] {
            let i = choose|i: int| 0 <= i < front.len() && !#[trigger] front[i];
            assert(!replies[i]);
        }
        if exists|i: int| 0 <= i < replies.len() && !#[trigger] replies[i] {
            let i = choose|i: int| 0 <= i < replies.len() && !#[trigger] replies[i];
            assert(i < n ==> front[i] == replies[i]);
        }
    }
}

/// A run keeps its outputs and, while only the tap may fail, names no other failure.
proof fn lemma_steps_kept(with_stats: bool, replies: Seq<bool>)
    requires
        replies.len() <= steps_of(with_stats).len(),
        forall|i: int|
            0 <= i < replies.len() && steps_of(with_stats)[i] != TapStep::RunTap
                ==> #[trigger] replies[i],
    ensures
        run_after(with_stats, replies).with_stats == with_stats,
        run_after(with_stats, replies).failed is None,
        run_after(with_stats, replies).done == replies.len(),
    decreases replies.len(),
{
    if replies.len() > 0 {
        let front = replies.drop_last();
        assert forall|i: int| 0 <= i < front.len() && steps_of(with_stats)[i]
            != TapStep::RunTap implies #[trigger] front[i] by {
            assert(front[i] == replies[i]);
        }
        lemma_steps_kept(with_stats, front);
        assert(replies[replies.len() - 1] || steps_of(with_stats)[replies.len() - 1]
            == TapStep::RunTap);
    }
}

/// A step other than the tap that fails ends the run, and its error is the one returned.
pub proof fn a_failed_step_ends_the_run(run: TapRun, step: TapStep)
    requires
        run.wf(),
        run.following() == TapNext::Perform(step),
        step != TapStep::RunTap,
    ensures
        run.advanced(false).following() == TapNext::End(Some(step)),
{
}

/// A run creates its outputs, runs the tap, and only then finishes each output and uploads it, the
/// trace before the statistics; the statistics' steps are there exactly where the run keeps any,
/// and no step is there twice.
pub proof fn outputs_are_created_before_and_uploaded_after(with_stats: bool)
    ensures
        ({
            let steps = steps_of(with_stats);
            let run: int = if with_stats {
                2
            } else {
                1
            };
            &&& steps.len() == (if with_stats {
                7int
            } else {
                4
            })
            &&& steps[0] == TapStep::CreateTrace
            &&& steps[run] == TapStep::RunTap
            &&& steps[run + 1] == TapStep::FinishTrace
            &&& steps[run + 2] == TapStep::UploadTrace
            &&& with_stats ==> steps[1] == TapStep::CreateStats && steps[5] == TapStep::FinishStats
                && steps[6] == TapStep::UploadStats
            &&& steps.no_duplicates()
        }),
{
}

/// A run performs its steps one after the other until a step other than the tap fails, or none is
/// left. Then it ends, with that step's error, or else with the tap's where the tap failed. Once
/// ended it stays as it is.
pub proof fn a_run_goes_on_until_it_fails_or_is_done(run: TapRun, ok: bool)
    requires
        run.done <= steps_of(run.with_stats).len(),
    ensures
        ({
            let steps = steps_of(run.with_stats);
            let now = run.advanced(ok);
            let ended = run.failed is Some || run.done == steps.len();
            &&& run.following() is End <==> ended
            &&& !ended ==> run.following() == TapNext::Perform(steps[run.done as int])
            &&& run.failed is Some ==> run.following() == TapNext::End(run.failed)
            &&& run.failed is None && run.done == steps.len() ==> run.following() == TapNext::End(
                if run.tap_failed {
                    Some(TapStep::RunTap)
                } else {
                    None
                },
            )
            &&& now.with_stats == run.with_stats
            &&& ended ==> now == run
            &&& !ended && (ok || steps[run.done as int] == TapStep::RunTap) ==> {
                &&& now.done == run.done + 1
                &&& now.failed is None
                &&& now.tap_failed == (run.tap_failed || !ok)
            }
            &&& !ended && !ok && steps[run.done as int] != TapStep::RunTap ==> {
                &&& now.done == run.done
                &&& now.failed == Some(steps[run.done as int])
                &&& now.tap_failed == run.tap_failed
            }
        }),
{
}

} // verus!

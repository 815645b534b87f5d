//! How a packet is put together, step by step.
//!
//! What a packet has to carry decides which runs of the model it takes. The steps are performed
//! outside; each result is handed back, and the next step follows from what is there.
use crate::arith::{max_int, max_usize};
use crate::config::AutoGazeConfig;
use crate::error::AutoGazeError;
use crate::frames::AutoGazeTensorClipShape;
use crate::generated::{generated_to_frame_points, AutoGazeGenerateOutput};
use crate::layout::layouts_fit;
use crate::packet::AutoGazePipelinePacket;
use crate::patch_diff::{
    is_padded_trace, patch_diff_points_to_traces, AutoGazePatchDiffConfig, AutoGazeSparseMaskSource,
    PatchDiffReadout,
};
use crate::runtime::DEFAULT_REALTIME_TOP_K;
use crate::stitch::{copied_points, point_lists};
use crate::tiles::AutoGazeInferenceMode;
use crate::trace::{at_least_one, FixationPoint, FrameFixationTrace};
use vstd::prelude::*;

verus! {

/// What a pipeline runs and what its packets carry.
#[derive(Clone, Copy, Debug, PartialEq, Eq, Structural)]
pub struct AutoGazeTensorPipelineConfig {
    /// Where fixations come from.
    pub sparse_mask_source: AutoGazeSparseMaskSource,
    /// How frames are brought to the model's size.
    pub mode: AutoGazeInferenceMode,
    /// The least number of fixations asked for.
    pub top_k: usize,
    /// Packets carry traces.
    pub emit_traces: bool,
    /// Packets carry generated tokens.
    pub emit_generated: bool,
    /// Packets carry points.
    pub emit_readout_points: bool,
}

impl Default for AutoGazeTensorPipelineConfig {
    fn default() -> (r: AutoGazeTensorPipelineConfig)
        ensures
            r == (AutoGazeTensorPipelineConfig {
                sparse_mask_source: AutoGazeSparseMaskSource::AutoGaze,
                mode: AutoGazeInferenceMode::ResizeToModelInput,
                top_k: DEFAULT_REALTIME_TOP_K,
                emit_traces: false,
                emit_generated: false,
                emit_readout_points: false,
            }),
    {
        AutoGazeTensorPipelineConfig {
            sparse_mask_source: AutoGazeSparseMaskSource::AutoGaze,
            mode: AutoGazeInferenceMode::ResizeToModelInput,
            top_k: DEFAULT_REALTIME_TOP_K,
            emit_traces: false,
            emit_generated: false,
            emit_readout_points: false,
        }
    }
}

impl AutoGazeTensorPipelineConfig {
    pub fn with_sparse_mask_source(self, source: AutoGazeSparseMaskSource) -> (r:
        AutoGazeTensorPipelineConfig)
        ensures
            r == (AutoGazeTensorPipelineConfig { sparse_mask_source: source, ..self }),
    {
        AutoGazeTensorPipelineConfig { sparse_mask_source: source, ..self }
    }

    pub fn with_mode(self, mode: AutoGazeInferenceMode) -> (r: AutoGazeTensorPipelineConfig)
        ensures
            r == (AutoGazeTensorPipelineConfig { mode, ..self }),
    {
        AutoGazeTensorPipelineConfig { mode, ..self }
    }

    pub fn with_top_k(self, top_k: usize) -> (r: AutoGazeTensorPipelineConfig)
        ensures
            r == (AutoGazeTensorPipelineConfig { top_k, ..self }),
    {
        AutoGazeTensorPipelineConfig { top_k, ..self }
    }

    pub fn with_emit_traces(self, emit_traces: bool) -> (r: AutoGazeTensorPipelineConfig)
        ensures
            r == (AutoGazeTensorPipelineConfig { emit_traces, ..self }),
    {
        AutoGazeTensorPipelineConfig { emit_traces, ..self }
    }

    pub fn with_emit_generated(self, emit_generated: bool) -> (r: AutoGazeTensorPipelineConfig)
        ensures
            r == (AutoGazeTensorPipelineConfig { emit_generated, ..self }),
    {
        AutoGazeTensorPipelineConfig { emit_generated, ..self }
    }

    pub fn with_emit_readout_points(self, emit_readout_points: bool) -> (r:
        AutoGazeTensorPipelineConfig)
        ensures
            r == (AutoGazeTensorPipelineConfig { emit_readout_points, ..self }),
    {
        AutoGazeTensorPipelineConfig { emit_readout_points, ..self }
    }
}

/// A configuration that has been checked, with what follows from it.
#[derive(Clone, Copy, Debug, PartialEq, Eq, Structural)]
pub struct AutoGazeTensorPacketPlan {
    pub config: AutoGazeTensorPipelineConfig,
    pub normalized_mode: AutoGazeInferenceMode,
    pub generation_budget: usize,
}

impl AutoGazeTensorPacketPlan {
    /// Whether the model runs on whole frames.
    pub open spec fn whole_frames(config: AutoGazeTensorPipelineConfig) -> bool {
        config.sparse_mask_source is AutoGaze && config.mode is ResizeToModelInput
    }

    /// Generated tokens can be handed on only where the model runs on whole frames.
    pub fn new(config: AutoGazeTensorPipelineConfig, model_generation_budget: usize) -> (r: Result<
        AutoGazeTensorPacketPlan,
        AutoGazeError,
    >)
        ensures
            match r {
                Ok(plan) => {
                    &&& config.emit_generated ==> AutoGazeTensorPacketPlan::whole_frames(config)
                    &&& plan.config == config
                    &&& plan.normalized_mode == config.mode.normal()
                    &&& plan.generation_budget == max_int(
                        model_generation_budget as int,
                        at_least_one(config.top_k as nat) as int,
                    )
                },
                Err(error) => config.emit_generated && !AutoGazeTensorPacketPlan::whole_frames(
                    config,
                ) && error == AutoGazeError::GeneratedNeedsResize,
            },
    {
        let normalized_mode: AutoGazeInferenceMode = config.mode.normalized();
        let whole: bool = match (config.sparse_mask_source, normalized_mode) {
            (AutoGazeSparseMaskSource::AutoGaze, AutoGazeInferenceMode::ResizeToModelInput) => true,
            _ => false,
        };
        if config.emit_generated && !whole {
            return Err(AutoGazeError::GeneratedNeedsResize);
        }
        Ok(
            AutoGazeTensorPacketPlan {
                config,
                normalized_mode,
                generation_budget: max_usize(model_generation_budget, max_usize(config.top_k, 1)),
            },
        )
    }

    /// Whether tokens are generated on whole frames.
    pub open spec fn generates(self) -> bool {
        &&& self.config.sparse_mask_source is AutoGaze
        &&& self.normalized_mode is ResizeToModelInput
        &&& self.config.emit_generated || self.config.emit_readout_points || self.config.emit_traces
    }

    pub fn should_generate(&self) -> (r: bool)
        ensures
            r == self.generates(),
    {
        match (self.config.sparse_mask_source, self.normalized_mode) {
            (AutoGazeSparseMaskSource::AutoGaze, AutoGazeInferenceMode::ResizeToModelInput) => {
                self.config.emit_generated || self.config.emit_readout_points
                    || self.config.emit_traces
            },
            _ => false,
        }
    }

    /// Whether points have to be read from the model by themselves.
    pub open spec fn reads_directly(self, has_generated: bool) -> bool {
        &&& self.config.sparse_mask_source is AutoGaze
        &&& self.config.emit_readout_points
        &&& !self.config.emit_traces
        &&& !has_generated
    }

    pub fn direct_readout_required(&self, has_generated: bool) -> (r: bool)
        ensures
            r == self.reads_directly(has_generated),
    {
        match self.config.sparse_mask_source {
            AutoGazeSparseMaskSource::AutoGaze => self.config.emit_readout_points
                && !self.config.emit_traces && !has_generated,
            _ => false,
        }
    }

    /// Whether changes between frames are taken.
    pub open spec fn takes_changes(self) -> bool {
        &&& self.config.sparse_mask_source is PatchDiff
        &&& self.config.emit_readout_points || self.config.emit_traces
    }

    pub fn should_run_patch_diff(&self) -> (r: bool)
        ensures
            r == self.takes_changes(),
    {
        self.config.sparse_mask_source.is_patch_diff() && (self.config.emit_readout_points
            || self.config.emit_traces)
    }

    /// The points that traces or generated tokens give: none where none are asked for.
    pub fn ready_readout_points(
        &self,
        traces: &Vec<FrameFixationTrace>,
        generated: &Option<AutoGazeGenerateOutput>,
        model_config: &AutoGazeConfig,
    ) -> (r: Option<Vec<Vec<Vec<FixationPoint>>>>)
        requires
            generated matches Some(output) ==> layouts_fit(*model_config) && output.countable(
                model_config.num_vision_tokens_each_frame as nat,
            ),
        ensures
            self.points_ready(traces@, *generated, *model_config, r),
    {
        if !self.config.emit_readout_points {
            return None;
        }
        if self.config.emit_traces {
            return Some(traces_to_readout_points(traces));
        }
        match generated {
            Some(output) => Some(generated_to_frame_points(output, model_config)),
            None => None,
        }
    }

    /// `points` are what traces or generated tokens give.
    pub open spec fn points_ready(
        self,
        traces: Seq<FrameFixationTrace>,
        generated: Option<AutoGazeGenerateOutput>,
        model_config: AutoGazeConfig,
        points: Option<Vec<Vec<Vec<FixationPoint>>>>,
    ) -> bool {
        if !self.config.emit_readout_points {
            points is None
        } else if self.config.emit_traces {
            points matches Some(rows) && are_trace_points(rows@, traces)
        } else {
            match generated {
                Some(output) => points matches Some(rows) && are_generated_points(
                    rows@,
                    output,
                    model_config,
                ),
                None => points is None,
            }
        }
    }

    /// The packet of a clip. Generated tokens are dropped unless they are asked for.
    pub fn packet(
        &self,
        clip: AutoGazeTensorClipShape,
        model_config: AutoGazeConfig,
        generated: Option<AutoGazeGenerateOutput>,
        traces: Vec<FrameFixationTrace>,
        readout_points: Option<Vec<Vec<Vec<FixationPoint>>>>,
    ) -> (r: AutoGazePipelinePacket)
        ensures
            r.clip == clip,
            r.traces == traces,
            r.generated == (if self.config.emit_generated {
                generated
            } else {
                None
            }),
            r.readout_points == readout_points,
            r.model_config == model_config,
            r.mode == self.config.mode,
            r.top_k == self.config.top_k,
    {
        AutoGazePipelinePacket {
            clip,
            traces,
            generated: if self.config.emit_generated {
                generated
            } else {
                None
            },
            readout_points,
            model_config,
            mode: self.config.mode,
            top_k: self.config.top_k,
        }
    }
}

/// `rows` are the points of some traces.
pub open spec fn are_trace_points(
    rows: Seq<Vec<Vec<FixationPoint>>>,
    traces: Seq<FrameFixationTrace>,
) -> bool {
    &&& rows.len() == traces.len()
    &&& forall|b: int|
        0 <= b < rows.len() ==> point_lists((#[trigger] rows[b])@) == crate::decoded::trace_points(
            traces[b],
        )
}

/// `rows` are the points of generated tokens.
pub open spec fn are_generated_points(
    rows: Seq<Vec<Vec<FixationPoint>>>,
    generated: AutoGazeGenerateOutput,
    config: AutoGazeConfig,
) -> bool {
    &&& rows.len() == generated.gazing_pos@.len()
    &&& forall|b: int|
        0 <= b < rows.len() ==> generated.are_frame_points((#[trigger] rows[b])@, config, b)
}

/// The points of every frame of every trace, which stay where they are.
pub fn traces_to_readout_points(traces: &Vec<FrameFixationTrace>) -> (r: Vec<
    Vec<Vec<FixationPoint>>,
>)
    ensures
        are_trace_points(r@, traces@),
{
    let mut rows: Vec<Vec<Vec<FixationPoint>>> = Vec::new();
    let mut b: usize = 0;
    while b < traces.len()
        invariant
            b <= traces@.len(),
            rows@.len() == b,
            forall|c: int|
                0 <= c < b ==> point_lists((#[trigger] rows@[c])@) == crate::decoded::trace_points(
                    traces@[c],
                ),
        decreases traces@.len() - b,
    {
        let mut frames: Vec<Vec<FixationPoint>> = Vec::new();
        let mut f: usize = 0;
        while f < traces[b].frames.len()
            invariant
                b < traces@.len(),
                f <= traces@[b as int].frames@.len(),
                frames@.len() == f,
                forall|g: int|
                    0 <= g < f ==> (#[trigger] frames@[g])@
                        == traces@[b as int].frames@[g].points@,
            decreases traces@[b as int].frames@.len() - f,
        {
            frames.push(copied_points(&traces[b].frames[f].points));
            f = f + 1;
        }
        assert(point_lists(frames@) =~= crate::decoded::trace_points(traces@[b as int]));
        rows.push(frames);
        b = b + 1;
    }
    rows
}

/// What has to be run next for a packet.
#[derive(Clone, Copy, Debug, PartialEq, Eq, Structural)]
pub enum PacketStep {
    /// Find the changes between frames.
    PatchDiff(AutoGazePatchDiffConfig),
    /// Generate at most so many tokens a frame.
    Generate(usize),
    /// Trace the clip in the configured mode.
    Trace,
    /// Read points in the configured mode.
    Readout,
    /// Hand the packet on.
    Write,
}

/// A packet in the making.
#[derive(Debug)]
pub struct PacketBuild {
    pub plan: AutoGazeTensorPacketPlan,
    pub model_config: AutoGazeConfig,
    pub generated: Option<AutoGazeGenerateOutput>,
    pub traces: Option<Vec<FrameFixationTrace>>,
    pub points: Option<Vec<Vec<Vec<FixationPoint>>>>,
}

impl PacketBuild {
    /// Nothing has been run yet.
    pub open spec fn fresh(self, plan: AutoGazeTensorPacketPlan) -> bool {
        &&& self.plan == plan
        &&& self.generated is None
        &&& self.traces is None
        &&& self.points is None
    }

    pub fn new(plan: AutoGazeTensorPacketPlan, model_config: AutoGazeConfig) -> (r: PacketBuild)
        ensures
            r.fresh(plan),
            r.model_config == model_config,
    {
        PacketBuild { plan, model_config, generated: None, traces: None, points: None }
    }

    /// The step that follows from what is there.
    pub open spec fn step(self) -> PacketStep {
        let plan = self.plan;
        if plan.takes_changes() {
            if plan.config.emit_traces && self.traces is None || plan.config.emit_readout_points
                && self.points is None {
                PacketStep::PatchDiff(plan.config.sparse_mask_source->0)
            } else {
                PacketStep::Write
            }
        } else if plan.generates() && self.generated is None {
            PacketStep::Generate(plan.generation_budget)
        } else if plan.config.emit_traces && self.traces is None {
            PacketStep::Trace
        } else if plan.reads_directly(self.generated is Some) && self.points is None {
            PacketStep::Readout
        } else {
            PacketStep::Write
        }
    }

    pub fn next_step(&self) -> (r: PacketStep)
        ensures
            r == self.step(),
    {
        let plan: AutoGazeTensorPacketPlan = self.plan;
        if plan.should_run_patch_diff() {
            let missing: bool = (plan.config.emit_traces && self.traces.is_none()) || (
            plan.config.emit_readout_points && self.points.is_none());
            return match plan.config.sparse_mask_source {
                AutoGazeSparseMaskSource::PatchDiff(config) => if missing {
                    PacketStep::PatchDiff(config)
                } else {
                    PacketStep::Write
                },
                AutoGazeSparseMaskSource::AutoGaze => PacketStep::Write,
            };
        }
        if plan.should_generate() && self.generated.is_none() {
            return PacketStep::Generate(plan.generation_budget);
        }
        if plan.config.emit_traces && self.traces.is_none() {
            return PacketStep::Trace;
        }
        if plan.direct_readout_required(self.generated.is_some()) && self.points.is_none() {
            return PacketStep::Readout;
        }
        PacketStep::Write
    }

    /// Takes the changes between frames.
    pub fn put_changes(&mut self, readout: PatchDiffReadout)
        requires
            old(self).step() is PatchDiff,
        ensures
            final(self).plan == old(self).plan,
            final(self).model_config == old(self).model_config,
            final(self).generated == old(self).generated,
            if old(self).plan.config.emit_traces {
                final(self).traces matches Some(traces) && traces@.len() == readout.points@.len()
                    && forall|b: int|
                    0 <= b < traces@.len() ==> is_padded_trace(
                        #[trigger] traces@[b],
                        readout.points@[b]@,
                        old(self).plan.config.top_k as nat,
                    )
            } else {
                final(self).traces == old(self).traces
            },
            final(self).points == (if old(self).plan.config.emit_readout_points {
                Some(readout.points)
            } else {
                old(self).points
            }),
            final(self).step() is Write,
    {
        if self.plan.config.emit_traces {
            self.traces = Some(
                patch_diff_points_to_traces(&readout.points, self.plan.config.top_k),
            );
        }
        if self.plan.config.emit_readout_points {
            self.points = Some(readout.points);
        }
    }

    /// Takes generated tokens, and decodes them as far as the packet asks for it.
    pub fn put_generated(&mut self, generated: AutoGazeGenerateOutput)
        requires
            old(self).step() is Generate,
            old(self).fresh(old(self).plan),
            layouts_fit(old(self).model_config),
            generated.countable(old(self).model_config.num_vision_tokens_each_frame as nat),
        ensures
            final(self).plan == old(self).plan,
            final(self).model_config == old(self).model_config,
            final(self).generated == Some(generated),
            if old(self).plan.config.emit_traces {
                final(self).traces matches Some(traces) && traces@.len()
                    == generated.gazing_pos@.len() && forall|b: int|
                    0 <= b < traces@.len() ==> generated.is_trace(
                        #[trigger] traces@[b],
                        old(self).model_config,
                        b,
                        old(self).plan.generation_budget as nat,
                    )
            } else {
                final(self).traces is None
            },
            final(self).plan.points_ready(
                final(self).trace_list(),
                Some(generated),
                old(self).model_config,
                final(self).points,
            ),
            final(self).step() is Write,
    {
        let traces: Vec<FrameFixationTrace> = if self.plan.config.emit_traces {
            generated.traces(&self.model_config, self.plan.generation_budget)
        } else {
            Vec::new()
        };
        let generated: Option<AutoGazeGenerateOutput> = Some(generated);
        self.points = self.plan.ready_readout_points(&traces, &generated, &self.model_config);
        self.generated = generated;
        if self.plan.config.emit_traces {
            self.traces = Some(traces);
        }
    }

    /// The traces, as a list.
    pub open spec fn trace_list(self) -> Seq<FrameFixationTrace> {
        match self.traces {
            Some(traces) => traces@,
            None => Seq::empty(),
        }
    }

    /// Takes traces.
    pub fn put_traces(&mut self, traces: Vec<FrameFixationTrace>)
        requires
            old(self).step() is Trace,
            old(self).fresh(old(self).plan),
        ensures
            final(self).plan == old(self).plan,
            final(self).model_config == old(self).model_config,
            final(self).generated is None,
            final(self).traces == Some(traces),
            final(self).plan.points_ready(
                traces@,
                None,
                old(self).model_config,
                final(self).points,
            ),
            final(self).step() is Write,
    {
        self.points = self.plan.ready_readout_points(&traces, &None, &self.model_config);
        self.traces = Some(traces);
    }

    /// Takes points.
    pub fn put_points(&mut self, points: Vec<Vec<Vec<FixationPoint>>>)
        requires
            old(self).step() is Readout,
        ensures
            final(self).plan == old(self).plan,
            final(self).model_config == old(self).model_config,
            final(self).generated == old(self).generated,
            final(self).traces == old(self).traces,
            final(self).points == Some(points),
            final(self).step() is Write,
    {
        self.points = Some(points);
    }

    /// The packet, once nothing is left to run.
    pub fn finish(self, clip: AutoGazeTensorClipShape) -> (r: AutoGazePipelinePacket)
        requires
            self.step() is Write,
        ensures
            r.clip == clip,
            r.traces@ == self.trace_list(),
            r.generated == (if self.plan.config.emit_generated {
                self.generated
            } else {
                None
            }),
            r.readout_points == self.points,
            r.model_config == self.model_config,
            r.mode == self.plan.config.mode,
            r.top_k == self.plan.config.top_k,
    {
        let plan: AutoGazeTensorPacketPlan = self.plan;
        let traces: Vec<FrameFixationTrace> = match self.traces {
            Some(traces) => traces,
            None => Vec::new(),
        };
        plan.packet(clip, self.model_config, self.generated, traces, self.points)
    }
}

/// A packet takes at most one run of the model, and one that carries nothing takes none.
pub proof fn lemma_packet_steps(build: PacketBuild, plan: AutoGazeTensorPacketPlan)
    requires
        build.fresh(plan),
        plan.normalized_mode == plan.config.mode.normal(),
    ensures
        build.step() is Write <==> !plan.config.emit_traces && !plan.config.emit_readout_points
            && !plan.generates(),
        build.step() is PatchDiff ==> plan.config.sparse_mask_source is PatchDiff,
        build.step() is Generate ==> plan.config.mode is ResizeToModelInput,
        plan.config.sparse_mask_source is PatchDiff ==> !(build.step() is Generate) && !(
        build.step() is Trace) && !(build.step() is Readout),
{
}

} // verus!

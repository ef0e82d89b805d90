//! Decisions of the render thread's loop: how it answers control commands
//! and when it starts drawing. The thread itself (channels, the GPU, the
//! swapchain) acts on these decisions.
use vstd::prelude::*;

verus! {

/// The frame pipelines the render thread can run.
#[derive(Debug, Clone, Copy, PartialEq, Eq, Structural)]
pub enum PipelineKind {
    /// Shown while the game thread is still loading assets.
    Loading,
    /// The full deferred pipeline.
    Default,
}

/// A control command that changes what the render thread does. Commands that
/// only forward a setting to the renderer are applied by the thread directly.
#[derive(Debug, Clone, Copy, PartialEq, Eq, Structural)]
pub enum ControlCommand {
    /// Stop the render thread.
    Shutdown,
    /// The window changed size.
    Resize { width: u32, height: u32 },
    /// Run the given pipeline.
    SetPipeline(PipelineKind),
}

/// What the render thread does in answer to a command.
#[derive(Debug, Clone, Copy, PartialEq, Eq, Structural)]
pub enum LoopAction {
    /// Wait for the device to go idle and leave the loop.
    Stop,
    /// Recreate the swapchain and resize the output images.
    ResizeOutput { width: u32, height: u32 },
    /// Rebuild the renderer for the given pipeline, keeping its settings.
    SwitchPipeline(PipelineKind),
    /// Nothing to do.
    Keep,
}

/// Whether frames can be drawn after a frame check: once a frame has
/// arrived from the game thread, there is always one to draw.
pub open spec fn frame_gate(initialized: bool, got_new: bool) -> bool {
    initialized || got_new
}

/// The action a command calls for while `active` runs.
pub open spec fn command_action(active: PipelineKind, cmd: ControlCommand) -> LoopAction {
    match cmd {
        ControlCommand::Shutdown => LoopAction::Stop,
        ControlCommand::Resize { width, height } => LoopAction::ResizeOutput { width, height },
        ControlCommand::SetPipeline(kind) => if kind == active {
            LoopAction::Keep
        } else {
            LoopAction::SwitchPipeline(kind)
        },
    }
}

/// State of the render loop: the pipeline it runs and whether a frame has
/// arrived from the game thread yet.
pub struct RenderLoop {
    active: PipelineKind,
    initialized: bool,
}

impl RenderLoop {
    /// The pipeline being run.
    pub closed spec fn active_view(&self) -> PipelineKind {
        self.active
    }

    /// Whether a frame has arrived yet.
    pub closed spec fn initialized_view(&self) -> bool {
        self.initialized
    }

    /// The loop starts with the loading pipeline and no frame.
    pub fn new() -> (l: Self)
        ensures
            l.active_view() == PipelineKind::Loading,
            !l.initialized_view(),
    {
        RenderLoop { active: PipelineKind::Loading, initialized: false }
    }

    /// The pipeline being run.
    pub fn active(&self) -> (k: PipelineKind)
        ensures
            k == self.active_view(),
    {
        self.active
    }

    /// Answer a control command. Switching to the pipeline already running
    /// does nothing; switching to another one makes it the active one.
    pub fn handle_command(&mut self, cmd: ControlCommand) -> (a: LoopAction)
        ensures
            a == command_action(old(self).active_view(), cmd),
            final(self).active_view() == match a {
                LoopAction::SwitchPipeline(kind) => kind,
                _ => old(self).active_view(),
            },
            final(self).initialized_view() == old(self).initialized_view(),
    {
        match cmd {
            ControlCommand::Shutdown => LoopAction::Stop,
            ControlCommand::Resize { width, height } => LoopAction::ResizeOutput { width, height },
            ControlCommand::SetPipeline(kind) => {
                if kind == self.active {
                    LoopAction::Keep
                } else {
                    self.active = kind;
                    LoopAction::SwitchPipeline(kind)
                }
            },
        }
    }

    /// Record whether the triple buffer delivered a new frame; returns
    /// whether a frame can be drawn (else the thread yields and loops).
    pub fn frame_arrived(&mut self, got_new: bool) -> (draw: bool)
        ensures
            final(self).initialized_view() == frame_gate(old(self).initialized_view(), got_new),
            draw == final(self).initialized_view(),
            final(self).active_view() == old(self).active_view(),
    {
        if got_new {
            self.initialized = true;
        }
        self.initialized
    }
}

/// Once the render thread has drawn, it keeps drawing every later frame,
/// whether or not a new frame arrived.
pub proof fn law_drawing_never_stops(initialized: bool, got_new: bool)
    requires
        initialized,
    ensures
        frame_gate(initialized, got_new),
{
}

/// Asking for the pipeline that runs never rebuilds the renderer, and asking
/// twice for the same pipeline rebuilds it at most once.
pub proof fn law_pipeline_switch_idempotent(active: PipelineKind, kind: PipelineKind)
    ensures
        command_action(kind, ControlCommand::SetPipeline(kind)) == LoopAction::Keep,
        command_action(active, ControlCommand::SetPipeline(kind)) is SwitchPipeline ==> command_action(
            kind,
            ControlCommand::SetPipeline(kind),
        ) == LoopAction::Keep,
{
}

} // verus!

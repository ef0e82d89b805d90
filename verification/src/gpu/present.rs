//! Decisions taken around acquiring and presenting a swapchain image.
use vstd::prelude::*;

verus! {

/// Result of a swapchain call: success (possibly suboptimal), the swapchain
/// being out of date, or another error with its result code.
#[derive(Debug, Clone, Copy, PartialEq, Eq, Structural)]
pub enum SwapchainResult {
    Success { suboptimal: bool },
    OutOfDate,
    Failed(i32),
}

/// What to do after trying to acquire an image.
#[derive(Debug, Clone, Copy, PartialEq, Eq, Structural)]
pub enum AcquireStep {
    /// Record and submit the frame; remember whether the image was suboptimal.
    Draw { suboptimal: bool },
    /// Skip the frame and ask for the swapchain to be recreated.
    Recreate,
    /// Fail with the given result code.
    Fail(i32),
}

/// The step an acquire result leads to.
pub fn acquire_step(r: SwapchainResult) -> (s: AcquireStep)
    ensures
        s == match r {
            SwapchainResult::Success { suboptimal } => AcquireStep::Draw { suboptimal },
            SwapchainResult::OutOfDate => AcquireStep::Recreate,
            SwapchainResult::Failed(code) => AcquireStep::Fail(code),
        },
{
    match r {
        SwapchainResult::Success { suboptimal } => AcquireStep::Draw { suboptimal },
        SwapchainResult::OutOfDate => AcquireStep::Recreate,
        SwapchainResult::Failed(code) => AcquireStep::Fail(code),
    }
}

/// Outcome of a drawn frame given the present result: whether the swapchain
/// must be recreated (it was suboptimal at acquire or present time, or out of
/// date), or the error code of a failed present.
pub fn present_outcome(acquired_suboptimal: bool, r: SwapchainResult) -> (o: Result<bool, i32>)
    ensures
        o == match r {
            SwapchainResult::Success { suboptimal } => Ok::<bool, i32>(suboptimal || acquired_suboptimal),
            SwapchainResult::OutOfDate => Ok::<bool, i32>(true),
            SwapchainResult::Failed(code) => Err::<bool, i32>(code),
        },
{
    match r {
        SwapchainResult::Success { suboptimal } => Ok(suboptimal || acquired_suboptimal),
        SwapchainResult::OutOfDate => Ok(true),
        SwapchainResult::Failed(code) => Err(code),
    }
}

/// The frame in flight after `current`, cycling through `frames` frames.
pub fn next_frame_index(current: usize, frames: usize) -> (n: usize)
    requires
        frames > 0,
    ensures
        n == (current + 1) % (frames as int),
        n < frames,
{
    let r = current % frames;
    proof {
        vstd::arithmetic::div_mod::lemma_add_mod_noop(current as int, 1, frames as int);
        if frames > 1 {
            vstd::arithmetic::div_mod::lemma_small_mod(1, frames as nat);
        } else {
            assert(1int % 1int == 0);
        }
        if r + 1 < frames {
            vstd::arithmetic::div_mod::lemma_small_mod((r + 1) as nat, frames as nat);
        } else {
            vstd::arithmetic::div_mod::lemma_mod_self_0(frames as int);
        }
    }
    if r + 1 == frames {
        0
    } else {
        r + 1
    }
}

} // verus!

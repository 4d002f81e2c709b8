//! Deferred side-effect requests: an `update` may ask the embedder to run
//! an effect after the render pass.  Implementations that truly perform
//! effects live with the embedder; the library provides the do-nothing
//! request.

use vstd::prelude::*;

verus! {

/// Why an effect request could not be carried out.
pub enum CmdError {
    Failed,
}

/// A deferred side-effect request, executed by the embedder after the
/// model/view cycle.  Failures are reported, never propagated into the
/// user-interface state.
pub trait Cmd: Sized {
    /// Carry the effect out.
    fn run(&self) -> Result<(), CmdError>;
}

/// The effect request that asks for nothing.
pub struct NoCmd;

impl Cmd for NoCmd {
    fn run(&self) -> Result<(), CmdError> {
        Ok(())
    }
}

} // verus!

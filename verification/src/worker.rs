//! The proxy worker's decision kernel: the two modes a connection runs in
//! and how a control command moves between them and retargets the shaping
//! state. The surrounding loop only performs reads, writes and sleeps; the
//! decisions live here.

use vstd::prelude::*;
use crate::filler::Filler;
use crate::objects::RuntimeCommand;
use crate::speed::SpeedCorrectorCommand;
use crate::throttler::{ThrottlerAnalyzer, ANALYZE_PERIOD_MS};

verus! {

/// Below this many free bytes a tick does not bother shaping downstream.
pub const A_FEW_SPACE: usize = 100;

/// The per-connection worker state: plain pass-through until a speed is
/// first set, shaping afterwards, and back on switch-off.
#[derive(Clone, Copy, PartialEq, Eq, Structural, Debug)]
pub enum WorkerMode {
    /// No shaping: straight bidirectional forwarding.
    Free,
    /// Filler injection and rate limiting are active.
    Shaping,
}

/// Applies one control command to a worker: `SetSpeed` retargets both the
/// filler engine and the rate accountant and puts the worker in shaping
/// mode, whatever mode it ran in; `SwitchOff` drops it back to free mode
/// and leaves both untouched.
pub fn apply_runtime_command(
    filler: &mut Filler,
    analyzer: &mut ThrottlerAnalyzer,
    command: &RuntimeCommand,
) -> (r: WorkerMode)
    requires
        match command {
            RuntimeCommand::SetSpeed(SpeedCorrectorCommand::SetSpeed(v)) => v * ANALYZE_PERIOD_MS
                <= usize::MAX,
            _ => true,
        },
    ensures
        match command {
            RuntimeCommand::SetSpeed(SpeedCorrectorCommand::SetSpeed(v)) => {
                &&& r == WorkerMode::Shaping
                &&& final(filler).speed() == v
                &&& final(filler).records() == old(filler).records()
                &&& (old(filler).wf() ==> final(filler).wf())
                &&& final(analyzer).capacity() == v * ANALYZE_PERIOD_MS
                &&& final(analyzer).records() == old(analyzer).records()
                &&& (old(analyzer).wf() ==> final(analyzer).wf())
            },
            RuntimeCommand::SetSpeed(SpeedCorrectorCommand::SwitchOff) => {
                &&& r == WorkerMode::Free
                &&& *final(filler) == *old(filler)
                &&& *final(analyzer) == *old(analyzer)
            },
        },
{
    match command {
        RuntimeCommand::SetSpeed(SpeedCorrectorCommand::SetSpeed(v)) => {
            filler.set_speed(*v);
            analyzer.set_speed(*v);
            WorkerMode::Shaping
        },
        RuntimeCommand::SetSpeed(SpeedCorrectorCommand::SwitchOff) => WorkerMode::Free,
    }
}

} // verus!

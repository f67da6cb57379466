//! Decisions taken on the simulator's HAPs (hardware action points): what to do
//! when the simulation stops (for a harness start or stop magic instruction, a
//! manual start or stop, a solution, or no recorded reason), and whether an
//! exception, breakpoint or magic instruction should stop the simulation.
//!
//! The handlers interleave work in the simulator, the fuzzer and the file system
//! with these decisions. Here each handler is a function from the fuzzer state
//! it reads to the ordered list of [`HapStep`]s it performs; the caller performs
//! the steps in order and stops at the first that fails, as the handler would.
use vstd::prelude::*;
use crate::dwarf::{SymbolInfo, LineInfo};

verus! {

/// The magic instruction numbers a harness uses.
#[derive(Debug, Clone, Copy, PartialEq, Eq, Structural)]
pub enum MagicNumber {
    StartBufferPtrSizePtr,
    StartBufferPtrSizeVal,
    StartBufferPtrSizePtrVal,
    StopNormal,
    StopAssert,
}

/// Why a solution was found.
#[derive(Debug, Clone, Copy, PartialEq, Eq, Structural)]
pub enum SolutionKind {
    Timeout,
    Exception(i64),
    Breakpoint(i64),
    Manual,
}

/// Why the simulation was stopped. The processor and start information of a
/// manual start are held by the caller.
#[derive(Debug, Clone, Copy, PartialEq, Eq, Structural)]
pub enum StopReason {
    Magic(MagicNumber),
    ManualStart,
    ManualStartWithoutBuffer,
    ManualStop,
    Solution(SolutionKind),
}

/// How an iteration ended, as reported to the fuzzer.
#[derive(Debug, Clone, Copy, PartialEq, Eq, Structural)]
pub enum ExitKind {
    Normal,
    Crash,
    Timeout,
}

/// Which note to log when a finished iteration has no start information.
#[derive(Debug, Clone, Copy, PartialEq, Eq, Structural)]
pub enum MissingStartInfo {
    /// "Missing start buffer or size, not writing testcase."
    Buffer,
    /// The same, noting that manual no-buffer harnessing may be the cause.
    ManualNoBuffer,
}

/// One unit of work of a HAP handler, performed by the caller in order.
#[derive(Debug, Clone, Copy, PartialEq, Eq, Structural)]
pub enum HapStep {
    /// Log the messages the fuzzer sent.
    LogFuzzerMessages,
    /// Take the recorded stop reason, leaving none.
    TakeStopReason,
    /// Start the fuzzer thread.
    StartFuzzerThread,
    /// Register the stopping processor as the start processor (manual start).
    AddStartProcessor,
    /// Read the start information (buffer and size) for this magic start from
    /// the start processor, and record it.
    RecordMagicStartInfo(MagicNumber),
    /// Read the start information of a manual start from the start processor,
    /// and record it.
    RecordManualStartInfo,
    /// Record the current time as the start time.
    RecordStartTime,
    /// Turn coverage collection on.
    EnableCoverage,
    /// Save the initial snapshot.
    SaveInitialSnapshot,
    /// Collect Windows symbolic coverage information.
    CollectWindowsCoverage,
    /// Collect UEFI/SMM symbolic coverage information.
    CollectUefiCoverage,
    /// Write the next testcase into the target.
    WriteTestcase,
    /// Log that no start information is available, so no testcase is written.
    NoteMissingStartInfo(MissingStartInfo),
    /// Arm the timeout event for the next run.
    PostTimeoutEvent,
    /// Cancel the armed timeout event.
    CancelTimeoutEvent,
    /// Clear the execution trace.
    ClearExecutionTrace,
    /// Save the repro bookmark if one is requested.
    SaveReproBookmarkIfNeeded,
    /// Continue the simulation once repro is prepared.
    ContinueAfterReproPrepared,
    /// Resume the simulation.
    ResumeSimulation,
    /// Log that the stop came before the harness start (no snapshot to restore).
    WarnNoSnapshot,
    /// Mark the fuzzer as stopped for repro, raise the log level to at least
    /// `Info`, and tell how to restore the origin state.
    EnterReproStop,
    /// Count the finished iteration.
    CountIteration,
    /// Report that the configured iteration count was reached (raising the log
    /// level to `Info`), with the run's duration.
    ReportIterationLimit,
    /// Ask the fuzzer to shut down.
    SendShutdown,
    /// Quit the simulator.
    Quit,
    /// Count a timeout.
    CountTimeout,
    /// Count a solution.
    CountSolution,
    /// Send how the iteration ended to the fuzzer.
    SendExitKind(ExitKind),
    /// Restore the initial snapshot if the restore policy asks for it this
    /// iteration.
    RestoreSnapshotIfDue,
    /// Restore the initial snapshot.
    RestoreSnapshot,
    /// Reset the edge chaining state for the next run.
    ResetEdgeChain,
    /// Save the execution trace.
    SaveExecutionTrace,
    /// Save the symbolic coverage.
    SaveSymbolicCoverage,
    /// Report that the simulation stopped without a reason, with the run's
    /// statistics (raising the log level to `Info`).
    ReportStoppedWithoutReason,
}

/// How the iteration is counted in the statistics.
#[derive(Debug, Clone, Copy, PartialEq, Eq, Structural)]
pub enum IterationCount {
    NoCount,
    Timeout,
    Solution,
}

/// When the initial snapshot is restored after the iteration.
#[derive(Debug, Clone, Copy, PartialEq, Eq, Structural)]
pub enum SnapshotRestoreMode {
    PolicyControlled,
    Always,
}

/// The fuzzer state that HAP handling decides on.
#[derive(Debug)]
pub struct Tsffs {
    pub stopped_for_repro: bool,
    pub have_initial_snapshot: bool,
    pub repro_bookmark_set: bool,
    pub windows: bool,
    pub uefi: bool,
    pub symbolic_coverage: bool,
    pub iterations: usize,
    pub iteration_limit: usize,
    pub quit_on_iteration_limit: bool,
    pub save_all_execution_traces: bool,
    pub shutdown_on_stop_without_reason: bool,
    pub start_info_set: bool,
    pub all_exceptions_are_solutions: bool,
    pub exceptions: Vec<i64>,
    pub all_breakpoints_are_solutions: bool,
    pub breakpoints: Vec<i32>,
    pub start_on_harness: bool,
    pub stop_on_harness: bool,
    pub magic_start_index: u64,
    pub magic_stop_indices: Vec<u64>,
    pub magic_assert_indices: Vec<u64>,
    /// The edges `(pc, afl_idx)` seen since the last report.
    pub edges_seen_since_last: Vec<(u64, u64)>,
    pub save_interesting_execution_traces: bool,
    pub save_solution_execution_traces: bool,
    pub save_timeout_execution_traces: bool,
    pub heartbeat: bool,
    /// Seconds between heartbeats.
    pub heartbeat_interval: u64,
    /// The heartbeat clock is running (a heartbeat time is recorded).
    pub heartbeat_clock_started: bool,
}

/// The steps that collect symbolic coverage when a run starts.
pub open spec fn spec_coverage_steps(s: Tsffs) -> Seq<HapStep> {
    (if s.windows && s.symbolic_coverage { seq![HapStep::CollectWindowsCoverage] } else { seq![] })
        + (if s.uefi && s.symbolic_coverage { seq![HapStep::CollectUefiCoverage] } else { seq![] })
}

/// The steps after a run is over: save the trace and the symbolic coverage if
/// configured to.
pub open spec fn spec_save_steps(s: Tsffs) -> Seq<HapStep> {
    (if s.save_all_execution_traces { seq![HapStep::SaveExecutionTrace] } else { seq![] })
        + (if s.symbolic_coverage { seq![HapStep::SaveSymbolicCoverage] } else { seq![] })
}

/// A harness start: the first one initializes the run (start information,
/// start time, coverage, initial snapshot, symbolic coverage, first testcase and
/// timeout); every one then clears the trace and continues.
pub open spec fn spec_magic_start_steps(s: Tsffs, magic: MagicNumber) -> Seq<HapStep> {
    (if !s.have_initial_snapshot {
        seq![
            HapStep::StartFuzzerThread,
            HapStep::RecordMagicStartInfo(magic),
            HapStep::RecordStartTime,
            HapStep::EnableCoverage,
            HapStep::SaveInitialSnapshot,
        ] + spec_coverage_steps(s) + seq![HapStep::WriteTestcase, HapStep::PostTimeoutEvent]
    } else {
        seq![]
    }) + seq![HapStep::ClearExecutionTrace, HapStep::SaveReproBookmarkIfNeeded, HapStep::ContinueAfterReproPrepared]
}

/// A manual start: like a harness start, with the stopping processor as the
/// start processor; with a buffer the first testcase is written.
pub open spec fn spec_manual_start_steps(s: Tsffs, with_buffer: bool) -> Seq<HapStep> {
    (if !s.have_initial_snapshot {
        seq![HapStep::StartFuzzerThread, HapStep::AddStartProcessor]
            + (if with_buffer { seq![HapStep::RecordManualStartInfo] } else { seq![] })
            + seq![HapStep::RecordStartTime, HapStep::EnableCoverage, HapStep::SaveInitialSnapshot]
            + spec_coverage_steps(s)
            + (if with_buffer { seq![HapStep::WriteTestcase] } else { seq![] })
            + seq![HapStep::PostTimeoutEvent]
    } else {
        seq![]
    }) + seq![HapStep::ClearExecutionTrace, HapStep::SaveReproBookmarkIfNeeded]
        + (if with_buffer { seq![HapStep::ContinueAfterReproPrepared] } else { seq![HapStep::ResumeSimulation] })
}

/// The iteration cap is reached once this iteration is counted.
pub open spec fn limit_reached(s: Tsffs) -> bool {
    s.iteration_limit != 0 && s.iterations + 1 >= s.iteration_limit
}

/// Finishing an iteration: count it; once the cap is reached, report it and
/// ask the fuzzer to shut down, then quit the simulator or stop here (`true`).
/// Otherwise count the outcome, send the exit kind, restore the snapshot per
/// mode, reset edge chaining, write the next testcase if start information is
/// known, and arm the timeout.
pub open spec fn spec_finish_iteration(s: Tsffs, exit_kind: ExitKind, count: IterationCount, mode: SnapshotRestoreMode, missing: MissingStartInfo) -> (Seq<HapStep>, bool) {
    let head = seq![HapStep::CountIteration];
    let capped = if limit_reached(s) { seq![HapStep::ReportIterationLimit, HapStep::SendShutdown] } else { seq![] };
    if limit_reached(s) && !s.quit_on_iteration_limit {
        (head + capped, true)
    } else {
        (head + capped
            + (if limit_reached(s) { seq![HapStep::Quit] } else { seq![] })
            + (match count {
                IterationCount::NoCount => seq![],
                IterationCount::Timeout => seq![HapStep::CountTimeout],
                IterationCount::Solution => seq![HapStep::CountSolution],
            })
            + seq![
                HapStep::SendExitKind(exit_kind),
                match mode {
                    SnapshotRestoreMode::PolicyControlled => HapStep::RestoreSnapshotIfDue,
                    SnapshotRestoreMode::Always => HapStep::RestoreSnapshot,
                },
                HapStep::ResetEdgeChain,
                if s.start_info_set { HapStep::WriteTestcase } else { HapStep::NoteMissingStartInfo(missing) },
                HapStep::PostTimeoutEvent,
            ], false)
    }
}

/// A stop (normal, manual or solution): before the harness start, warn; once
/// started, cancel the timeout and either stop for repro (ending here) or finish
/// the iteration (ending here if the cap stopped it). Then save the trace and
/// coverage as configured and resume (`resume`).
pub open spec fn spec_stop_steps(s: Tsffs, exit_kind: ExitKind, count: IterationCount, mode: SnapshotRestoreMode, missing: MissingStartInfo, resume: HapStep) -> Seq<HapStep> {
    if !s.have_initial_snapshot {
        seq![HapStep::WarnNoSnapshot] + spec_save_steps(s) + seq![resume]
    } else if s.repro_bookmark_set {
        seq![HapStep::CancelTimeoutEvent, HapStep::EnterReproStop]
    } else {
        let (finish, stopped) = spec_finish_iteration(s, exit_kind, count, mode, missing);
        if stopped {
            seq![HapStep::CancelTimeoutEvent] + finish
        } else {
            seq![HapStep::CancelTimeoutEvent] + finish + spec_save_steps(s) + seq![resume]
        }
    }
}

/// How a solution is reported and counted: a timeout as a timeout, anything else
/// as a crash.
pub open spec fn solution_outcome(kind: SolutionKind) -> (ExitKind, IterationCount) {
    match kind {
        SolutionKind::Timeout => (ExitKind::Timeout, IterationCount::Timeout),
        _ => (ExitKind::Crash, IterationCount::Solution),
    }
}

pub open spec fn spec_solution_steps(s: Tsffs, kind: SolutionKind) -> Seq<HapStep> {
    spec_stop_steps(s, solution_outcome(kind).0, solution_outcome(kind).1, SnapshotRestoreMode::Always, MissingStartInfo::Buffer, HapStep::ResumeSimulation)
}

pub open spec fn spec_magic_steps(s: Tsffs, magic: MagicNumber) -> Seq<HapStep> {
    match magic {
        MagicNumber::StopNormal => spec_stop_steps(s, ExitKind::Normal, IterationCount::NoCount, SnapshotRestoreMode::PolicyControlled, MissingStartInfo::Buffer, HapStep::ContinueAfterReproPrepared),
        MagicNumber::StopAssert => spec_solution_steps(s, SolutionKind::Manual),
        _ => spec_magic_start_steps(s, magic),
    }
}

pub open spec fn spec_reason_steps(s: Tsffs, reason: StopReason) -> Seq<HapStep> {
    match reason {
        StopReason::Magic(magic) => spec_magic_steps(s, magic),
        StopReason::ManualStart => spec_manual_start_steps(s, true),
        StopReason::ManualStartWithoutBuffer => spec_manual_start_steps(s, false),
        StopReason::ManualStop => spec_stop_steps(s, ExitKind::Normal, IterationCount::NoCount, SnapshotRestoreMode::PolicyControlled, MissingStartInfo::ManualNoBuffer, HapStep::ResumeSimulation),
        StopReason::Solution(kind) => spec_solution_steps(s, kind),
    }
}

/// A stop without a recorded reason: only once running, end the iteration as
/// `Ok`, report, and shut the fuzzer down if configured to; the simulation is not
/// resumed.
pub open spec fn spec_without_reason_steps(s: Tsffs) -> Seq<HapStep> {
    if s.have_initial_snapshot {
        seq![HapStep::CancelTimeoutEvent, HapStep::SendExitKind(ExitKind::Normal), HapStep::ReportStoppedWithoutReason]
            + (if s.shutdown_on_stop_without_reason { seq![HapStep::SendShutdown] } else { seq![] })
    } else {
        seq![]
    }
}

/// The simulation stopped: nothing while stopped for repro; otherwise log the
/// fuzzer's messages, take the stop reason, and handle it.
pub open spec fn spec_simulation_stopped_steps(s: Tsffs, reason: Option<StopReason>) -> Seq<HapStep> {
    if s.stopped_for_repro {
        seq![]
    } else {
        seq![HapStep::LogFuzzerMessages, HapStep::TakeStopReason] + match reason {
            Some(r) => spec_reason_steps(s, r),
            None => spec_without_reason_steps(s),
        }
    }
}

impl Tsffs {
    fn push_coverage_steps(&self, steps: &mut Vec<HapStep>)
        ensures
            final(steps)@ == old(steps)@ + spec_coverage_steps(*self),
    {
        let ghost start = steps@;
        if self.windows && self.symbolic_coverage {
            steps.push(HapStep::CollectWindowsCoverage);
        }
        if self.uefi && self.symbolic_coverage {
            steps.push(HapStep::CollectUefiCoverage);
        }
        proof {
            assert(steps@ =~= start + spec_coverage_steps(*self));
        }
    }

    fn push_save_steps(&self, steps: &mut Vec<HapStep>)
        ensures
            final(steps)@ == old(steps)@ + spec_save_steps(*self),
    {
        let ghost start = steps@;
        if self.save_all_execution_traces {
            steps.push(HapStep::SaveExecutionTrace);
        }
        if self.symbolic_coverage {
            steps.push(HapStep::SaveSymbolicCoverage);
        }
        proof {
            assert(steps@ =~= start + spec_save_steps(*self));
        }
    }

    /// The steps of a harness start magic instruction.
    pub fn on_simulation_stopped_magic_start(&self, magic_number: MagicNumber) -> (steps: Vec<HapStep>)
        ensures
            steps@ == spec_magic_start_steps(*self, magic_number),
            !self.have_initial_snapshot ==> writes_testcase_once(steps@),
            self.have_initial_snapshot ==> forall|t: int| 0 <= t < steps@.len() ==> steps@[t] != HapStep::WriteTestcase,
    {
        proof {
            lemma_first_start_writes_testcase(*self, magic_number);
        }
        let mut steps: Vec<HapStep> = Vec::new();
        if !self.have_initial_snapshot {
            steps.push(HapStep::StartFuzzerThread);
            steps.push(HapStep::RecordMagicStartInfo(magic_number));
            steps.push(HapStep::RecordStartTime);
            steps.push(HapStep::EnableCoverage);
            steps.push(HapStep::SaveInitialSnapshot);
            self.push_coverage_steps(&mut steps);
            steps.push(HapStep::WriteTestcase);
            steps.push(HapStep::PostTimeoutEvent);
        }
        steps.push(HapStep::ClearExecutionTrace);
        steps.push(HapStep::SaveReproBookmarkIfNeeded);
        steps.push(HapStep::ContinueAfterReproPrepared);
        proof {
            assert(steps@ =~= spec_magic_start_steps(*self, magic_number));
        }
        steps
    }

    fn manual_start_steps(&self, with_buffer: bool) -> (steps: Vec<HapStep>)
        ensures
            steps@ == spec_manual_start_steps(*self, with_buffer),
    {
        let mut steps: Vec<HapStep> = Vec::new();
        if !self.have_initial_snapshot {
            steps.push(HapStep::StartFuzzerThread);
            steps.push(HapStep::AddStartProcessor);
            if with_buffer {
                steps.push(HapStep::RecordManualStartInfo);
            }
            steps.push(HapStep::RecordStartTime);
            steps.push(HapStep::EnableCoverage);
            steps.push(HapStep::SaveInitialSnapshot);
            self.push_coverage_steps(&mut steps);
            if with_buffer {
                steps.push(HapStep::WriteTestcase);
            }
            steps.push(HapStep::PostTimeoutEvent);
        }
        steps.push(HapStep::ClearExecutionTrace);
        steps.push(HapStep::SaveReproBookmarkIfNeeded);
        if with_buffer {
            steps.push(HapStep::ContinueAfterReproPrepared);
        } else {
            steps.push(HapStep::ResumeSimulation);
        }
        proof {
            assert(steps@ =~= spec_manual_start_steps(*self, with_buffer));
        }
        steps
    }

    /// The steps of a manual start with a testcase buffer.
    pub fn on_simulation_stopped_with_manual_start(&self) -> (steps: Vec<HapStep>)
        ensures
            steps@ == spec_manual_start_steps(*self, true),
            !self.have_initial_snapshot ==> writes_testcase_once(steps@),
            self.have_initial_snapshot ==> forall|t: int| 0 <= t < steps@.len() ==> steps@[t] != HapStep::WriteTestcase,
    {
        proof {
            lemma_first_start_writes_testcase(*self, MagicNumber::StartBufferPtrSizePtr);
        }
        self.manual_start_steps(true)
    }

    /// The steps of a manual start without a testcase buffer.
    pub fn on_simulation_stopped_manual_start_without_buffer(&self) -> (steps: Vec<HapStep>)
        ensures
            steps@ == spec_manual_start_steps(*self, false),
            forall|t: int| 0 <= t < steps@.len() ==> steps@[t] != HapStep::WriteTestcase,
    {
        proof {
            lemma_first_start_writes_testcase(*self, MagicNumber::StartBufferPtrSizePtr);
        }
        self.manual_start_steps(false)
    }

    /// The steps that finish an iteration, appended to `steps`; `true` when the
    /// iteration cap stopped the handler.
    fn finish_iteration(&self, steps: &mut Vec<HapStep>, exit_kind: ExitKind, iteration_count: IterationCount, snapshot_restore_mode: SnapshotRestoreMode, missing_start_info: MissingStartInfo) -> (stop_requested: bool)
        ensures
            final(steps)@ == old(steps)@ + spec_finish_iteration(*self, exit_kind, iteration_count, snapshot_restore_mode, missing_start_info).0,
            stop_requested == spec_finish_iteration(*self, exit_kind, iteration_count, snapshot_restore_mode, missing_start_info).1,
    {
        let ghost start = steps@;
        steps.push(HapStep::CountIteration);
        let reached = self.iteration_limit != 0 && self.iterations >= self.iteration_limit - 1;
        if reached {
            steps.push(HapStep::ReportIterationLimit);
            steps.push(HapStep::SendShutdown);
            if self.quit_on_iteration_limit {
                steps.push(HapStep::Quit);
            } else {
                proof {
                    assert(steps@ =~= start + spec_finish_iteration(*self, exit_kind, iteration_count, snapshot_restore_mode, missing_start_info).0);
                }
                return true;
            }
        }
        match iteration_count {
            IterationCount::NoCount => {},
            IterationCount::Timeout => steps.push(HapStep::CountTimeout),
            IterationCount::Solution => steps.push(HapStep::CountSolution),
        }
        steps.push(HapStep::SendExitKind(exit_kind));
        match snapshot_restore_mode {
            SnapshotRestoreMode::PolicyControlled => steps.push(HapStep::RestoreSnapshotIfDue),
            SnapshotRestoreMode::Always => steps.push(HapStep::RestoreSnapshot),
        }
        steps.push(HapStep::ResetEdgeChain);
        if self.start_info_set {
            steps.push(HapStep::WriteTestcase);
        } else {
            steps.push(HapStep::NoteMissingStartInfo(missing_start_info));
        }
        steps.push(HapStep::PostTimeoutEvent);
        proof {
            assert(steps@ =~= start + spec_finish_iteration(*self, exit_kind, iteration_count, snapshot_restore_mode, missing_start_info).0);
        }
        false
    }

    fn stop_steps(&self, exit_kind: ExitKind, iteration_count: IterationCount, snapshot_restore_mode: SnapshotRestoreMode, missing_start_info: MissingStartInfo, resume: HapStep) -> (steps: Vec<HapStep>)
        ensures
            steps@ == spec_stop_steps(*self, exit_kind, iteration_count, snapshot_restore_mode, missing_start_info, resume),
    {
        let mut steps: Vec<HapStep> = Vec::new();
        if !self.have_initial_snapshot {
            steps.push(HapStep::WarnNoSnapshot);
        } else {
            steps.push(HapStep::CancelTimeoutEvent);
            if self.repro_bookmark_set {
                steps.push(HapStep::EnterReproStop);
                proof {
                    assert(steps@ =~= spec_stop_steps(*self, exit_kind, iteration_count, snapshot_restore_mode, missing_start_info, resume));
                }
                return steps;
            }
            let ghost before = steps@;
            if self.finish_iteration(&mut steps, exit_kind, iteration_count, snapshot_restore_mode, missing_start_info) {
                proof {
                    assert(steps@ =~= spec_stop_steps(*self, exit_kind, iteration_count, snapshot_restore_mode, missing_start_info, resume));
                }
                return steps;
            }
        }
        self.push_save_steps(&mut steps);
        steps.push(resume);
        proof {
            assert(steps@ =~= spec_stop_steps(*self, exit_kind, iteration_count, snapshot_restore_mode, missing_start_info, resume));
        }
        steps
    }

    /// The steps of a normal harness stop.
    pub fn on_simulation_stopped_magic_stop(&self) -> (steps: Vec<HapStep>)
        ensures
            steps@ == spec_magic_steps(*self, MagicNumber::StopNormal),
    {
        self.stop_steps(ExitKind::Normal, IterationCount::NoCount, SnapshotRestoreMode::PolicyControlled, MissingStartInfo::Buffer, HapStep::ContinueAfterReproPrepared)
    }

    /// The steps of a solution.
    pub fn on_simulation_stopped_solution(&self, kind: SolutionKind) -> (steps: Vec<HapStep>)
        ensures
            steps@ == spec_solution_steps(*self, kind),
    {
        let (exit_kind, iteration_count) = match kind {
            SolutionKind::Timeout => (ExitKind::Timeout, IterationCount::Timeout),
            _ => (ExitKind::Crash, IterationCount::Solution),
        };
        self.stop_steps(exit_kind, iteration_count, SnapshotRestoreMode::Always, MissingStartInfo::Buffer, HapStep::ResumeSimulation)
    }

    /// The steps of an assertion magic instruction: a manual solution.
    pub fn on_simulation_stopped_magic_assert(&self) -> (steps: Vec<HapStep>)
        ensures
            steps@ == spec_solution_steps(*self, SolutionKind::Manual),
    {
        self.on_simulation_stopped_solution(SolutionKind::Manual)
    }

    /// The steps of a manual stop.
    pub fn on_simulation_stopped_manual_stop(&self) -> (steps: Vec<HapStep>)
        ensures
            steps@ == spec_reason_steps(*self, StopReason::ManualStop),
    {
        self.stop_steps(ExitKind::Normal, IterationCount::NoCount, SnapshotRestoreMode::PolicyControlled, MissingStartInfo::ManualNoBuffer, HapStep::ResumeSimulation)
    }

    /// The steps of a magic instruction stop.
    pub fn on_simulation_stopped_with_magic(&self, magic_number: MagicNumber) -> (steps: Vec<HapStep>)
        ensures
            steps@ == spec_magic_steps(*self, magic_number),
    {
        match magic_number {
            MagicNumber::StartBufferPtrSizePtr
            | MagicNumber::StartBufferPtrSizeVal
            | MagicNumber::StartBufferPtrSizePtrVal => self.on_simulation_stopped_magic_start(magic_number),
            MagicNumber::StopNormal => self.on_simulation_stopped_magic_stop(),
            MagicNumber::StopAssert => self.on_simulation_stopped_magic_assert(),
        }
    }

    /// The steps of a stop with a recorded reason.
    pub fn on_simulation_stopped_with_reason(&self, reason: StopReason) -> (steps: Vec<HapStep>)
        ensures
            steps@ == spec_reason_steps(*self, reason),
    {
        match reason {
            StopReason::Magic(magic_number) => self.on_simulation_stopped_with_magic(magic_number),
            StopReason::ManualStart => self.on_simulation_stopped_with_manual_start(),
            StopReason::ManualStartWithoutBuffer => self.on_simulation_stopped_manual_start_without_buffer(),
            StopReason::ManualStop => self.on_simulation_stopped_manual_stop(),
            StopReason::Solution(kind) => self.on_simulation_stopped_solution(kind),
        }
    }

    /// The steps of a stop without a recorded reason.
    pub fn on_simulation_stopped_without_reason(&self) -> (steps: Vec<HapStep>)
        ensures
            steps@ == spec_without_reason_steps(*self),
            steps@.contains(HapStep::SendShutdown) <==> (self.have_initial_snapshot && self.shutdown_on_stop_without_reason),
    {
        proof {
            lemma_shutdown_without_reason(*self);
        }
        let mut steps: Vec<HapStep> = Vec::new();
        if self.have_initial_snapshot {
            steps.push(HapStep::CancelTimeoutEvent);
            steps.push(HapStep::SendExitKind(ExitKind::Normal));
            steps.push(HapStep::ReportStoppedWithoutReason);
            if self.shutdown_on_stop_without_reason {
                steps.push(HapStep::SendShutdown);
            }
        }
        proof {
            assert(steps@ =~= spec_without_reason_steps(*self));
        }
        steps
    }

    /// The steps on the core "simulation stopped" HAP, given the recorded stop
    /// reason (which the steps take).
    pub fn on_simulation_stopped(&self, stop_reason: Option<StopReason>) -> (steps: Vec<HapStep>)
        ensures
            steps@ == spec_simulation_stopped_steps(*self, stop_reason),
            stop_reason is None ==> (steps@.contains(HapStep::SendShutdown)
                <==> (!self.stopped_for_repro && self.have_initial_snapshot && self.shutdown_on_stop_without_reason)),
    {
        proof {
            lemma_shutdown_without_reason(*self);
        }
        if self.stopped_for_repro {
            // Stopped for repro: nothing is done on this HAP.
            let steps: Vec<HapStep> = Vec::new();
            proof {
                assert(steps@ =~= spec_simulation_stopped_steps(*self, stop_reason));
            }
            return steps;
        }
        let mut steps: Vec<HapStep> = Vec::new();
        steps.push(HapStep::LogFuzzerMessages);
        steps.push(HapStep::TakeStopReason);
        let mut rest = match stop_reason {
            Some(reason) => self.on_simulation_stopped_with_reason(reason),
            None => self.on_simulation_stopped_without_reason(),
        };
        steps.append(&mut rest);
        proof {
            assert(steps@ =~= spec_simulation_stopped_steps(*self, stop_reason));
        }
        steps
    }
}

/// What the magic instruction handler decides for a processor.
#[derive(Debug, Clone, Copy, PartialEq, Eq, Structural)]
pub struct MagicDecision {
    /// Add the triggering processor to the known processors (it is not known yet).
    pub register_processor: bool,
    /// Stop the simulation for this magic number.
    pub stop: bool,
    /// Record the triggering processor as the start processor: a start that
    /// stops, while no start processor is recorded.
    pub claim_start_processor: bool,
}

/// Why a magic instruction could not be handled.
#[derive(Debug, Clone, Copy, PartialEq, Eq, Structural)]
pub enum MagicError {
    /// The magic instruction was triggered by an object that is not a processor.
    NotAProcessor,
}

/// The magic instruction is one that stops the simulation: a start when
/// starting on the harness is enabled and the index is the configured start
/// index; a stop or an assertion when stopping on the harness is enabled and the
/// index is among the configured ones.
pub open spec fn magic_hit(s: Tsffs, magic_number: MagicNumber, index_selector: u64) -> bool {
    match magic_number {
        MagicNumber::StopNormal => s.stop_on_harness && s.magic_stop_indices@.contains(index_selector),
        MagicNumber::StopAssert => s.stop_on_harness && s.magic_assert_indices@.contains(index_selector),
        _ => s.start_on_harness && s.magic_start_index == index_selector,
    }
}

pub open spec fn is_start(magic_number: MagicNumber) -> bool {
    magic_number != MagicNumber::StopNormal && magic_number != MagicNumber::StopAssert
}

fn contains_u64(v: &Vec<u64>, x: u64) -> (r: bool)
    ensures
        r == v@.contains(x),
{
    let mut i: usize = 0;
    while i < v.len()
        invariant
            i <= v@.len(),
            forall|k: int| 0 <= k < i ==> v@[k] != x,
        decreases v@.len() - i,
    {
        if v[i] == x {
            proof {
                assert(v@[i as int] == x);
            }
            return true;
        }
        i = i + 1;
    }
    false
}

fn contains_i64(v: &Vec<i64>, x: i64) -> (r: bool)
    ensures
        r == v@.contains(x),
{
    let mut i: usize = 0;
    while i < v.len()
        invariant
            i <= v@.len(),
            forall|k: int| 0 <= k < i ==> v@[k] != x,
        decreases v@.len() - i,
    {
        if v[i] == x {
            proof {
                assert(v@[i as int] == x);
            }
            return true;
        }
        i = i + 1;
    }
    false
}

fn contains_i32(v: &Vec<i32>, x: i32) -> (r: bool)
    ensures
        r == v@.contains(x),
{
    let mut i: usize = 0;
    while i < v.len()
        invariant
            i <= v@.len(),
            forall|k: int| 0 <= k < i ==> v@[k] != x,
        decreases v@.len() - i,
    {
        if v[i] == x {
            proof {
                assert(v@[i as int] == x);
            }
            return true;
        }
        i = i + 1;
    }
    false
}

impl Tsffs {
    /// On the core exception HAP: stop with an exception solution when every
    /// exception is a solution or this one is configured as one.
    pub fn on_exception(&self, exception: i64) -> (stop: Option<StopReason>)
        ensures
            stop == if self.all_exceptions_are_solutions || self.exceptions@.contains(exception) {
                Some(StopReason::Solution(SolutionKind::Exception(exception)))
            } else {
                None
            },
    {
        if self.all_exceptions_are_solutions || contains_i64(&self.exceptions, exception) {
            Some(StopReason::Solution(SolutionKind::Exception(exception)))
        } else {
            None
        }
    }

    /// On the breakpoint memory operation HAP: stop with a breakpoint solution
    /// when every breakpoint is a solution or this one (as a 32-bit number) is
    /// configured as one.
    pub fn on_breakpoint_memop(&self, breakpoint: i64) -> (stop: Option<StopReason>)
        ensures
            stop == if self.all_breakpoints_are_solutions || self.breakpoints@.contains(breakpoint as i32) {
                Some(StopReason::Solution(SolutionKind::Breakpoint(breakpoint)))
            } else {
                None
            },
    {
        if self.all_breakpoints_are_solutions || contains_i32(&self.breakpoints, breakpoint as i32) {
            Some(StopReason::Solution(SolutionKind::Breakpoint(breakpoint)))
        } else {
            None
        }
    }

    /// On a magic instruction: an error when the triggering object is not a
    /// processor; otherwise register the processor if it is not known yet, stop
    /// when the magic number and index call for it, and claim the processor as
    /// start processor for a start that stops, unless one is already set.
    pub fn on_magic_instruction(&self, is_processor: bool, processor_known: bool, start_processor_set: bool, magic_number: MagicNumber, index_selector: u64) -> (d: Result<MagicDecision, MagicError>)
        ensures
            d is Err <==> !is_processor,
            d matches Err(e) ==> e == MagicError::NotAProcessor,
            d matches Ok(m) ==> {
                &&& m.register_processor == !processor_known
                &&& m.stop == magic_hit(*self, magic_number, index_selector)
                &&& m.claim_start_processor == (is_start(magic_number) && magic_hit(*self, magic_number, index_selector) && !start_processor_set)
                &&& magic_number != MagicNumber::StopNormal && magic_number != MagicNumber::StopAssert
                    ==> m.stop == (self.start_on_harness && self.magic_start_index == index_selector)
                        && m.claim_start_processor == (self.start_on_harness && self.magic_start_index == index_selector && !start_processor_set)
                &&& magic_number == MagicNumber::StopNormal
                    ==> m.stop == (self.stop_on_harness && self.magic_stop_indices@.contains(index_selector)) && !m.claim_start_processor
                &&& magic_number == MagicNumber::StopAssert
                    ==> m.stop == (self.stop_on_harness && self.magic_assert_indices@.contains(index_selector)) && !m.claim_start_processor
            },
    {
        proof {
            lemma_magic_hit(*self, magic_number, index_selector);
        }
        if !is_processor {
            return Err(MagicError::NotAProcessor);
        }
        let register_processor = !processor_known;
        match magic_number {
            MagicNumber::StartBufferPtrSizePtr
            | MagicNumber::StartBufferPtrSizeVal
            | MagicNumber::StartBufferPtrSizePtrVal => {
                let hit = self.start_on_harness && self.magic_start_index == index_selector;
                Ok(MagicDecision { register_processor, stop: hit, claim_start_processor: hit && !start_processor_set })
            },
            MagicNumber::StopNormal => Ok(MagicDecision {
                register_processor,
                stop: self.stop_on_harness && contains_u64(&self.magic_stop_indices, index_selector),
                claim_start_processor: false,
            }),
            MagicNumber::StopAssert => Ok(MagicDecision {
                register_processor,
                stop: self.stop_on_harness && contains_u64(&self.magic_assert_indices, index_selector),
                claim_start_processor: false,
            }),
        }
    }
}

/// How many times `x` occurs in `steps`.
pub open spec fn occurrences(steps: Seq<HapStep>, x: HapStep) -> nat
    decreases steps.len(),
{
    if steps.len() == 0 {
        0
    } else {
        occurrences(steps.drop_last(), x) + if steps.last() == x { 1nat } else { 0nat }
    }
}

proof fn lemma_occurrences_concat(a: Seq<HapStep>, b: Seq<HapStep>, x: HapStep)
    ensures
        occurrences(a + b, x) == occurrences(a, x) + occurrences(b, x),
    decreases b.len(),
{
    if b.len() > 0 {
        lemma_occurrences_concat(a, b.drop_last(), x);
        assert((a + b).drop_last() == a + b.drop_last());
    } else {
        assert(a + b == a);
    }
}

/// How an iteration that a stop reason finishes is reported to the fuzzer.
pub open spec fn reported_exit(reason: StopReason) -> ExitKind {
    match reason {
        StopReason::Solution(kind) => solution_outcome(kind).0,
        StopReason::Magic(MagicNumber::StopAssert) => ExitKind::Crash,
        _ => ExitKind::Normal,
    }
}

/// The stop reasons that end an iteration (as opposed to starting one).
pub open spec fn ends_iteration(reason: StopReason) -> bool {
    match reason {
        StopReason::Magic(MagicNumber::StopNormal) => true,
        StopReason::Magic(MagicNumber::StopAssert) => true,
        StopReason::ManualStop => true,
        StopReason::Solution(_) => true,
        _ => false,
    }
}

proof fn lemma_occ1(a: HapStep, x: HapStep)
    ensures
        occurrences(seq![a], x) == if a == x { 1nat } else { 0nat },
{
    assert(seq![a].drop_last() == Seq::<HapStep>::empty());
    assert(seq![a].last() == a);
    assert(occurrences(Seq::<HapStep>::empty(), x) == 0);
}

proof fn lemma_finish_counts(s: Tsffs, exit_kind: ExitKind, count: IterationCount, mode: SnapshotRestoreMode, missing: MissingStartInfo, x: HapStep)
    requires
        !limit_reached(s),
    ensures
        ({
            let (steps, stopped) = spec_finish_iteration(s, exit_kind, count, mode, missing);
            &&& !stopped
            &&& occurrences(steps, x) == (if x == HapStep::CountIteration { 1nat } else { 0nat })
                + (if x == HapStep::SendExitKind(exit_kind) { 1nat } else { 0nat })
                + (if x == HapStep::CountTimeout && count == IterationCount::Timeout { 1nat } else { 0nat })
                + (if x == HapStep::CountSolution && count == IterationCount::Solution { 1nat } else { 0nat })
                + (if x == HapStep::RestoreSnapshotIfDue && mode == SnapshotRestoreMode::PolicyControlled { 1nat } else { 0nat })
                + (if x == HapStep::RestoreSnapshot && mode == SnapshotRestoreMode::Always { 1nat } else { 0nat })
                + (if x == HapStep::ResetEdgeChain { 1nat } else { 0nat })
                + (if x == HapStep::WriteTestcase && s.start_info_set { 1nat } else { 0nat })
                + (if x == HapStep::NoteMissingStartInfo(missing) && !s.start_info_set { 1nat } else { 0nat })
                + (if x == HapStep::PostTimeoutEvent { 1nat } else { 0nat })
        }),
{
    let counted = match count {
        IterationCount::NoCount => seq![],
        IterationCount::Timeout => seq![HapStep::CountTimeout],
        IterationCount::Solution => seq![HapStep::CountSolution],
    };
    let restore = match mode {
        SnapshotRestoreMode::PolicyControlled => HapStep::RestoreSnapshotIfDue,
        SnapshotRestoreMode::Always => HapStep::RestoreSnapshot,
    };
    let testcase = if s.start_info_set { HapStep::WriteTestcase } else { HapStep::NoteMissingStartInfo(missing) };
    let tail = seq![HapStep::SendExitKind(exit_kind), restore, HapStep::ResetEdgeChain, testcase, HapStep::PostTimeoutEvent];
    let empty = Seq::<HapStep>::empty();
    assert(tail == seq![HapStep::SendExitKind(exit_kind)] + seq![restore] + seq![HapStep::ResetEdgeChain] + seq![testcase] + seq![HapStep::PostTimeoutEvent]);
    lemma_occ1(HapStep::SendExitKind(exit_kind), x);
    lemma_occ1(restore, x);
    lemma_occ1(HapStep::ResetEdgeChain, x);
    lemma_occ1(testcase, x);
    lemma_occ1(HapStep::PostTimeoutEvent, x);
    lemma_occ1(HapStep::CountIteration, x);
    lemma_occ1(HapStep::CountTimeout, x);
    lemma_occ1(HapStep::CountSolution, x);
    lemma_occurrences_concat(seq![HapStep::SendExitKind(exit_kind)], seq![restore], x);
    lemma_occurrences_concat(seq![HapStep::SendExitKind(exit_kind)] + seq![restore], seq![HapStep::ResetEdgeChain], x);
    lemma_occurrences_concat(seq![HapStep::SendExitKind(exit_kind)] + seq![restore] + seq![HapStep::ResetEdgeChain], seq![testcase], x);
    lemma_occurrences_concat(seq![HapStep::SendExitKind(exit_kind)] + seq![restore] + seq![HapStep::ResetEdgeChain] + seq![testcase], seq![HapStep::PostTimeoutEvent], x);
    let head = seq![HapStep::CountIteration];
    assert(head + empty == head);
    assert(head + empty + empty == head);
    lemma_occurrences_concat(head, counted, x);
    lemma_occurrences_concat(head + counted, tail, x);
    assert(spec_finish_iteration(s, exit_kind, count, mode, missing).0 == head + empty + empty + counted + tail);
}

proof fn lemma_occurrences_none(steps: Seq<HapStep>, x: HapStep)
    requires
        forall|i: int| 0 <= i < steps.len() ==> steps[i] != x,
    ensures
        occurrences(steps, x) == 0,
    decreases steps.len(),
{
    if steps.len() > 0 {
        assert forall|i: int| 0 <= i < steps.drop_last().len() implies steps.drop_last()[i] != x by {
            assert(steps.drop_last()[i] == steps[i]);
        }
        lemma_occurrences_none(steps.drop_last(), x);
    }
}

proof fn lemma_save_counts(s: Tsffs, x: HapStep)
    ensures
        occurrences(spec_save_steps(s), x) == (if x == HapStep::SaveExecutionTrace && s.save_all_execution_traces { 1nat } else { 0nat })
            + (if x == HapStep::SaveSymbolicCoverage && s.symbolic_coverage { 1nat } else { 0nat }),
{
    let a = if s.save_all_execution_traces { seq![HapStep::SaveExecutionTrace] } else { Seq::<HapStep>::empty() };
    let b = if s.symbolic_coverage { seq![HapStep::SaveSymbolicCoverage] } else { Seq::<HapStep>::empty() };
    lemma_occ1(HapStep::SaveExecutionTrace, x);
    lemma_occ1(HapStep::SaveSymbolicCoverage, x);
    assert(occurrences(Seq::<HapStep>::empty(), x) == 0);
    lemma_occurrences_concat(a, b, x);
}

/// The occurrences of `x` among the steps of a stop that finishes an iteration
/// below the cap.
proof fn lemma_stop_counts(s: Tsffs, exit_kind: ExitKind, count: IterationCount, mode: SnapshotRestoreMode, missing: MissingStartInfo, resume: HapStep, x: HapStep)
    requires
        s.have_initial_snapshot,
        !s.repro_bookmark_set,
        !limit_reached(s),
    ensures
        occurrences(spec_stop_steps(s, exit_kind, count, mode, missing, resume), x)
            == (if x == HapStep::CancelTimeoutEvent { 1nat } else { 0nat })
            + occurrences(spec_finish_iteration(s, exit_kind, count, mode, missing).0, x)
            + occurrences(spec_save_steps(s), x)
            + (if x == resume { 1nat } else { 0nat }),
{
    let finish = spec_finish_iteration(s, exit_kind, count, mode, missing).0;
    lemma_finish_counts(s, exit_kind, count, mode, missing, x);
    lemma_occ1(HapStep::CancelTimeoutEvent, x);
    lemma_occ1(resume, x);
    lemma_occurrences_concat(seq![HapStep::CancelTimeoutEvent], finish, x);
    lemma_occurrences_concat(seq![HapStep::CancelTimeoutEvent] + finish, spec_save_steps(s), x);
    lemma_occurrences_concat(seq![HapStep::CancelTimeoutEvent] + finish + spec_save_steps(s), seq![resume], x);
}

/// An iteration that a stop ends (normal, manual, assertion or solution), once
/// running, not stopped for repro and below the iteration cap, is counted once
/// and reported to the fuzzer exactly once with its outcome: `Normal` for a stop,
/// `Timeout` for a timeout, `Crash` for any other solution; a timeout is counted
/// as a timeout and any other solution as a solution; after a solution the
/// initial snapshot is always restored, after a stop per the restore policy.
pub proof fn lemma_finished_iteration_reported_once(s: Tsffs, reason: StopReason)
    requires
        !s.stopped_for_repro,
        s.have_initial_snapshot,
        !s.repro_bookmark_set,
        !limit_reached(s),
        ends_iteration(reason),
    ensures
        ({
            let steps = spec_simulation_stopped_steps(s, Some(reason));
            let solution = reason is Solution || reason == StopReason::Magic(MagicNumber::StopAssert);
            &&& occurrences(steps, HapStep::SendExitKind(reported_exit(reason))) == 1
            &&& forall|k: ExitKind| k != reported_exit(reason) ==> #[trigger] occurrences(steps, HapStep::SendExitKind(k)) == 0
            &&& occurrences(steps, HapStep::CountIteration) == 1
            &&& occurrences(steps, HapStep::CountTimeout) == if reason == StopReason::Solution(SolutionKind::Timeout) { 1nat } else { 0nat }
            &&& occurrences(steps, HapStep::CountSolution) == if solution && reason != StopReason::Solution(SolutionKind::Timeout) { 1nat } else { 0nat }
            &&& occurrences(steps, HapStep::RestoreSnapshot) == if solution { 1nat } else { 0nat }
            &&& occurrences(steps, HapStep::RestoreSnapshotIfDue) == if solution { 0nat } else { 1nat }
        }),
{
    let steps = spec_simulation_stopped_steps(s, Some(reason));
    let prefix = seq![HapStep::LogFuzzerMessages, HapStep::TakeStopReason];
    let body = spec_reason_steps(s, reason);
    assert(steps == prefix + body);
    let (exit_kind, count, mode, missing, resume) = match reason {
        StopReason::Magic(MagicNumber::StopNormal) => (ExitKind::Normal, IterationCount::NoCount, SnapshotRestoreMode::PolicyControlled, MissingStartInfo::Buffer, HapStep::ContinueAfterReproPrepared),
        StopReason::ManualStop => (ExitKind::Normal, IterationCount::NoCount, SnapshotRestoreMode::PolicyControlled, MissingStartInfo::ManualNoBuffer, HapStep::ResumeSimulation),
        StopReason::Magic(MagicNumber::StopAssert) => (solution_outcome(SolutionKind::Manual).0, solution_outcome(SolutionKind::Manual).1, SnapshotRestoreMode::Always, MissingStartInfo::Buffer, HapStep::ResumeSimulation),
        StopReason::Solution(kind) => (solution_outcome(kind).0, solution_outcome(kind).1, SnapshotRestoreMode::Always, MissingStartInfo::Buffer, HapStep::ResumeSimulation),
        _ => (ExitKind::Normal, IterationCount::NoCount, SnapshotRestoreMode::PolicyControlled, MissingStartInfo::Buffer, HapStep::ResumeSimulation),
    };
    assert(body == spec_stop_steps(s, exit_kind, count, mode, missing, resume));
    assert forall|x: HapStep| occurrences(steps, x) == occurrences(body, x) + (if x == HapStep::LogFuzzerMessages || x == HapStep::TakeStopReason { 1nat } else { 0nat }) by {
        assert(prefix == seq![HapStep::LogFuzzerMessages] + seq![HapStep::TakeStopReason]);
        lemma_occ1(HapStep::LogFuzzerMessages, x);
        lemma_occ1(HapStep::TakeStopReason, x);
        lemma_occurrences_concat(seq![HapStep::LogFuzzerMessages], seq![HapStep::TakeStopReason], x);
        lemma_occurrences_concat(prefix, body, x);
    }
    assert forall|x: HapStep| occurrences(body, x) == (if x == HapStep::CancelTimeoutEvent { 1nat } else { 0nat })
        + occurrences(spec_finish_iteration(s, exit_kind, count, mode, missing).0, x)
        + occurrences(spec_save_steps(s), x)
        + (if x == resume { 1nat } else { 0nat }) by {
        lemma_stop_counts(s, exit_kind, count, mode, missing, resume, x);
    }
    assert forall|x: HapStep| #![trigger occurrences(steps, x)] occurrences(steps, x) == (if x == HapStep::LogFuzzerMessages || x == HapStep::TakeStopReason { 1nat } else { 0nat })
        + (if x == HapStep::CancelTimeoutEvent { 1nat } else { 0nat })
        + occurrences(spec_finish_iteration(s, exit_kind, count, mode, missing).0, x)
        + occurrences(spec_save_steps(s), x)
        + (if x == resume { 1nat } else { 0nat }) by {
        lemma_finish_counts(s, exit_kind, count, mode, missing, x);
        lemma_save_counts(s, x);
    }
    assert forall|x: HapStep| #![trigger occurrences(steps, x)] occurrences(steps, x) == (if x == HapStep::LogFuzzerMessages || x == HapStep::TakeStopReason { 1nat } else { 0nat })
        + (if x == HapStep::CancelTimeoutEvent { 1nat } else { 0nat })
        + (if x == HapStep::CountIteration { 1nat } else { 0nat })
        + (if x == HapStep::SendExitKind(exit_kind) { 1nat } else { 0nat })
        + (if x == HapStep::CountTimeout && count == IterationCount::Timeout { 1nat } else { 0nat })
        + (if x == HapStep::CountSolution && count == IterationCount::Solution { 1nat } else { 0nat })
        + (if x == HapStep::RestoreSnapshotIfDue && mode == SnapshotRestoreMode::PolicyControlled { 1nat } else { 0nat })
        + (if x == HapStep::RestoreSnapshot && mode == SnapshotRestoreMode::Always { 1nat } else { 0nat })
        + (if x == HapStep::ResetEdgeChain { 1nat } else { 0nat })
        + (if x == HapStep::WriteTestcase && s.start_info_set { 1nat } else { 0nat })
        + (if x == HapStep::NoteMissingStartInfo(missing) && !s.start_info_set { 1nat } else { 0nat })
        + (if x == HapStep::PostTimeoutEvent { 1nat } else { 0nat })
        + (if x == HapStep::SaveExecutionTrace && s.save_all_execution_traces { 1nat } else { 0nat })
        + (if x == HapStep::SaveSymbolicCoverage && s.symbolic_coverage { 1nat } else { 0nat })
        + (if x == resume { 1nat } else { 0nat }) by {
        lemma_finish_counts(s, exit_kind, count, mode, missing, x);
        lemma_save_counts(s, x);
    }
    assert(exit_kind == reported_exit(reason));
}

/// While stopped for repro, the simulation-stopped HAP does nothing.
pub proof fn lemma_stopped_for_repro_is_inert(s: Tsffs, reason: Option<StopReason>)
    requires
        s.stopped_for_repro,
    ensures
        spec_simulation_stopped_steps(s, reason) == Seq::<HapStep>::empty(),
{
}

/// With a repro bookmark set, a stop that ends an iteration only cancels the
/// timeout and stops for repro: nothing is counted, reported, restored or resumed.
pub proof fn lemma_repro_stop(s: Tsffs, reason: StopReason)
    requires
        !s.stopped_for_repro,
        s.have_initial_snapshot,
        s.repro_bookmark_set,
        ends_iteration(reason),
    ensures
        spec_simulation_stopped_steps(s, Some(reason)) == seq![HapStep::LogFuzzerMessages, HapStep::TakeStopReason, HapStep::CancelTimeoutEvent, HapStep::EnterReproStop],
{
    assert(seq![HapStep::LogFuzzerMessages, HapStep::TakeStopReason] + seq![HapStep::CancelTimeoutEvent, HapStep::EnterReproStop]
        == seq![HapStep::LogFuzzerMessages, HapStep::TakeStopReason, HapStep::CancelTimeoutEvent, HapStep::EnterReproStop]);
}

/// The steps that report an iteration's outcome or restore the snapshot.
pub open spec fn concludes_iteration(step: HapStep) -> bool {
    step is SendExitKind || step is CountIteration || step is CountTimeout || step is CountSolution
        || step is RestoreSnapshot || step is RestoreSnapshotIfDue
}

pub open spec fn concludes_nothing(steps: Seq<HapStep>) -> bool {
    forall|i: int| 0 <= i < steps.len() ==> !concludes_iteration(#[trigger] steps[i])
}

proof fn lemma_concludes_nothing_concat(a: Seq<HapStep>, b: Seq<HapStep>)
    requires
        concludes_nothing(a),
        concludes_nothing(b),
    ensures
        concludes_nothing(a + b),
{
    assert forall|i: int| 0 <= i < (a + b).len() implies !concludes_iteration(#[trigger] (a + b)[i]) by {
        if i >= a.len() {
            assert((a + b)[i] == b[i - a.len()]);
        } else {
            assert((a + b)[i] == a[i]);
        }
    }
}

proof fn lemma_aux_steps_conclude_nothing(s: Tsffs)
    ensures
        concludes_nothing(spec_coverage_steps(s)),
        concludes_nothing(spec_save_steps(s)),
{
    let w = if s.windows && s.symbolic_coverage { seq![HapStep::CollectWindowsCoverage] } else { Seq::<HapStep>::empty() };
    let u = if s.uefi && s.symbolic_coverage { seq![HapStep::CollectUefiCoverage] } else { Seq::<HapStep>::empty() };
    lemma_concludes_nothing_concat(w, u);
    let t = if s.save_all_execution_traces { seq![HapStep::SaveExecutionTrace] } else { Seq::<HapStep>::empty() };
    let c = if s.symbolic_coverage { seq![HapStep::SaveSymbolicCoverage] } else { Seq::<HapStep>::empty() };
    lemma_concludes_nothing_concat(t, c);
}

proof fn lemma_start_concludes_nothing(s: Tsffs, magic: MagicNumber, with_buffer: bool)
    requires
        !s.have_initial_snapshot,
    ensures
        concludes_nothing(spec_magic_start_steps(s, magic)),
        concludes_nothing(spec_manual_start_steps(s, with_buffer)),
{
    lemma_aux_steps_conclude_nothing(s);
    let cov = spec_coverage_steps(s);
    let a = seq![HapStep::StartFuzzerThread, HapStep::RecordMagicStartInfo(magic), HapStep::RecordStartTime, HapStep::EnableCoverage, HapStep::SaveInitialSnapshot];
    let b = seq![HapStep::WriteTestcase, HapStep::PostTimeoutEvent];
    let c = seq![HapStep::ClearExecutionTrace, HapStep::SaveReproBookmarkIfNeeded, HapStep::ContinueAfterReproPrepared];
    assert(concludes_nothing(a));
    assert(concludes_nothing(b));
    assert(concludes_nothing(c));
    lemma_concludes_nothing_concat(a, cov);
    lemma_concludes_nothing_concat(a + cov, b);
    lemma_concludes_nothing_concat(a + cov + b, c);
    let m1 = seq![HapStep::StartFuzzerThread, HapStep::AddStartProcessor];
    let m2 = if with_buffer { seq![HapStep::RecordManualStartInfo] } else { Seq::<HapStep>::empty() };
    let m3 = seq![HapStep::RecordStartTime, HapStep::EnableCoverage, HapStep::SaveInitialSnapshot];
    let m4 = if with_buffer { seq![HapStep::WriteTestcase] } else { Seq::<HapStep>::empty() };
    let m5 = seq![HapStep::PostTimeoutEvent];
    let m6 = seq![HapStep::ClearExecutionTrace, HapStep::SaveReproBookmarkIfNeeded];
    let m7 = if with_buffer { seq![HapStep::ContinueAfterReproPrepared] } else { seq![HapStep::ResumeSimulation] };
    assert(concludes_nothing(m1));
    assert(concludes_nothing(m2));
    assert(concludes_nothing(m3));
    assert(concludes_nothing(m4));
    assert(concludes_nothing(m5));
    assert(concludes_nothing(m6));
    assert(concludes_nothing(m7));
    lemma_concludes_nothing_concat(m1, m2);
    lemma_concludes_nothing_concat(m1 + m2, m3);
    lemma_concludes_nothing_concat(m1 + m2 + m3, cov);
    lemma_concludes_nothing_concat(m1 + m2 + m3 + cov, m4);
    lemma_concludes_nothing_concat(m1 + m2 + m3 + cov + m4, m5);
    lemma_concludes_nothing_concat(m1 + m2 + m3 + cov + m4 + m5, m6);
    lemma_concludes_nothing_concat(m1 + m2 + m3 + cov + m4 + m5 + m6, m7);
}

proof fn lemma_early_stop_concludes_nothing(s: Tsffs, exit_kind: ExitKind, count: IterationCount, mode: SnapshotRestoreMode, missing: MissingStartInfo, resume: HapStep)
    requires
        !s.have_initial_snapshot,
        !concludes_iteration(resume),
    ensures
        concludes_nothing(spec_stop_steps(s, exit_kind, count, mode, missing, resume)),
{
    lemma_aux_steps_conclude_nothing(s);
    assert(concludes_nothing(seq![HapStep::WarnNoSnapshot]));
    assert(concludes_nothing(seq![resume]));
    lemma_concludes_nothing_concat(seq![HapStep::WarnNoSnapshot], spec_save_steps(s));
    lemma_concludes_nothing_concat(seq![HapStep::WarnNoSnapshot] + spec_save_steps(s), seq![resume]);
}

/// Before the harness start (no initial snapshot), whatever the reason, no
/// iteration is counted or reported and no snapshot is restored.
pub proof fn lemma_nothing_concluded_before_start(s: Tsffs, reason: Option<StopReason>)
    requires
        !s.have_initial_snapshot,
    ensures
        concludes_nothing(spec_simulation_stopped_steps(s, reason)),
{
    if !s.stopped_for_repro {
        let prefix = seq![HapStep::LogFuzzerMessages, HapStep::TakeStopReason];
        assert(concludes_nothing(prefix));
        let body = match reason {
            Some(r) => spec_reason_steps(s, r),
            None => spec_without_reason_steps(s),
        };
        match reason {
            Some(StopReason::Magic(magic)) => {
                lemma_start_concludes_nothing(s, magic, true);
                lemma_early_stop_concludes_nothing(s, ExitKind::Normal, IterationCount::NoCount, SnapshotRestoreMode::PolicyControlled, MissingStartInfo::Buffer, HapStep::ContinueAfterReproPrepared);
                lemma_early_stop_concludes_nothing(s, solution_outcome(SolutionKind::Manual).0, solution_outcome(SolutionKind::Manual).1, SnapshotRestoreMode::Always, MissingStartInfo::Buffer, HapStep::ResumeSimulation);
            },
            Some(StopReason::ManualStart) => lemma_start_concludes_nothing(s, MagicNumber::StopNormal, true),
            Some(StopReason::ManualStartWithoutBuffer) => lemma_start_concludes_nothing(s, MagicNumber::StopNormal, false),
            Some(StopReason::ManualStop) => lemma_early_stop_concludes_nothing(s, ExitKind::Normal, IterationCount::NoCount, SnapshotRestoreMode::PolicyControlled, MissingStartInfo::ManualNoBuffer, HapStep::ResumeSimulation),
            Some(StopReason::Solution(kind)) => lemma_early_stop_concludes_nothing(s, solution_outcome(kind).0, solution_outcome(kind).1, SnapshotRestoreMode::Always, MissingStartInfo::Buffer, HapStep::ResumeSimulation),
            None => {
                assert(body == Seq::<HapStep>::empty());
            },
        }
        assert(concludes_nothing(body));
        lemma_concludes_nothing_concat(prefix, body);
    }
}

/// Once the iteration cap is reached, a stop that ends an iteration asks the
/// fuzzer to shut down; unless configured to quit the simulator, the handler
/// ends right there, without reporting the iteration's outcome.
pub proof fn lemma_iteration_cap(s: Tsffs, reason: StopReason)
    requires
        !s.stopped_for_repro,
        s.have_initial_snapshot,
        !s.repro_bookmark_set,
        limit_reached(s),
        ends_iteration(reason),
    ensures
        ({
            let steps = spec_simulation_stopped_steps(s, Some(reason));
            &&& steps.contains(HapStep::SendShutdown)
            &&& !s.quit_on_iteration_limit ==> steps.last() == HapStep::SendShutdown
                && forall|i: int| 0 <= i < steps.len() ==> !(#[trigger] steps[i] is SendExitKind)
            &&& s.quit_on_iteration_limit ==> steps.contains(HapStep::Quit)
        }),
{
    let steps = spec_simulation_stopped_steps(s, Some(reason));
    let prefix = seq![HapStep::LogFuzzerMessages, HapStep::TakeStopReason, HapStep::CancelTimeoutEvent, HapStep::CountIteration, HapStep::ReportIterationLimit, HapStep::SendShutdown];
    assert(steps.len() >= prefix.len());
    assert forall|i: int| 0 <= i < prefix.len() implies steps[i] == prefix[i] by {}
    assert(steps[5] == HapStep::SendShutdown);
    if s.quit_on_iteration_limit {
        assert(steps[6] == HapStep::Quit);
    } else {
        assert(steps =~= prefix);
    }
}

/// A symbol keyed by its runtime address range `[start, end)`.
pub type SymbolInterval = (u64, u64, SymbolInfo);

/// `elements` with every element whose range already occurred earlier dropped.
pub open spec fn dedup_by_range_spec(elements: Seq<SymbolInterval>) -> Seq<SymbolInterval>
    decreases elements.len(),
{
    if elements.len() == 0 {
        seq![]
    } else {
        let rest = dedup_by_range_spec(elements.drop_last());
        if has_range(elements.drop_last(), elements.last().0, elements.last().1) {
            rest
        } else {
            rest.push(elements.last())
        }
    }
}

pub open spec fn has_range(elements: Seq<SymbolInterval>, start: u64, end: u64) -> bool {
    exists|j: int| 0 <= j < elements.len() && (#[trigger] elements[j]).0 == start && elements[j].1 == end
}

proof fn lemma_dedup_same_ranges(elements: Seq<SymbolInterval>, start: u64, end: u64)
    ensures
        has_range(dedup_by_range_spec(elements), start, end) == has_range(elements, start, end),
    decreases elements.len(),
{
    if elements.len() > 0 {
        let init = elements.drop_last();
        lemma_dedup_same_ranges(init, start, end);
        let d = dedup_by_range_spec(elements);
        let di = dedup_by_range_spec(init);
        if has_range(elements, start, end) {
            let j = choose|j: int| 0 <= j < elements.len() && (#[trigger] elements[j]).0 == start && elements[j].1 == end;
            if j < init.len() {
                assert(init[j] == elements[j]);
                assert(has_range(init, start, end));
                let k = choose|k: int| 0 <= k < di.len() && (#[trigger] di[k]).0 == start && di[k].1 == end;
                assert(d[k] == di[k]);
            } else {
                if has_range(init, elements.last().0, elements.last().1) {
                    assert(has_range(init, start, end));
                    let k = choose|k: int| 0 <= k < di.len() && (#[trigger] di[k]).0 == start && di[k].1 == end;
                    assert(d[k] == di[k]);
                } else {
                    assert(d[di.len() as int] == elements.last());
                }
            }
        }
        if has_range(d, start, end) {
            let k = choose|k: int| 0 <= k < d.len() && (#[trigger] d[k]).0 == start && d[k].1 == end;
            if k < di.len() {
                assert(d[k] == di[k]);
                assert(has_range(di, start, end));
                let j = choose|j: int| 0 <= j < init.len() && (#[trigger] init[j]).0 == start && init[j].1 == end;
                assert(elements[j] == init[j]);
            } else {
                assert(elements[elements.len() - 1] == elements.last());
            }
        }
    }
}

fn kept_has_range(kept: &Vec<SymbolInterval>, start: u64, end: u64) -> (r: bool)
    ensures
        r == has_range(kept@, start, end),
{
    let mut i: usize = 0;
    while i < kept.len()
        invariant
            i <= kept@.len(),
            forall|k: int| 0 <= k < i ==> !((#[trigger] kept@[k]).0 == start && kept@[k].1 == end),
        decreases kept@.len() - i,
    {
        if kept[i].0 == start && kept[i].1 == end {
            return true;
        }
        i = i + 1;
    }
    false
}

/// Deduplicate elements by their range, keeping the first element of each range.
pub fn dedup_by_range(elements: Vec<SymbolInterval>) -> (kept: Vec<SymbolInterval>)
    ensures
        kept@ == dedup_by_range_spec(elements@),
{
    let ghost given = elements@;
    let mut rest = elements;
    let mut stack: Vec<SymbolInterval> = Vec::new();
    while rest.len() > 0
        invariant
            rest@.len() + stack@.len() == given.len(),
            rest@ == given.take(rest@.len() as int),
            forall|k: int| 0 <= k < stack@.len() ==> #[trigger] stack@[k] == given[given.len() - 1 - k],
        decreases rest@.len(),
    {
        let e = rest.pop().unwrap();
        proof {
            assert(rest@ == given.take(rest@.len() as int));
        }
        stack.push(e);
    }
    let mut kept: Vec<SymbolInterval> = Vec::new();
    proof {
        assert(given.take(0) == Seq::<SymbolInterval>::empty());
    }
    while stack.len() > 0
        invariant
            stack@.len() <= given.len(),
            forall|k: int| 0 <= k < stack@.len() ==> #[trigger] stack@[k] == given[given.len() - 1 - k],
            kept@ == dedup_by_range_spec(given.take(given.len() - stack@.len())),
        decreases stack@.len(),
    {
        let ghost i = given.len() - stack@.len();
        let e = stack.pop().unwrap();
        proof {
            assert(e == given[i]);
            assert(given.take(i + 1).drop_last() == given.take(i));
            assert(given.take(i + 1).last() == given[i]);
            lemma_dedup_same_ranges(given.take(i), e.0, e.1);
        }
        if !kept_has_range(&kept, e.0, e.1) {
            kept.push(e);
        }
    }
    proof {
        assert(given.take(given.len() as int) == given);
    }
    kept
}

/// What a symbol adds to the coverage record of its source file: the function
/// (from its first line's start to its last line's end, by name) and each of its
/// lines as an inclusive range.
#[derive(Debug)]
pub struct CoverageEntry {
    pub file_path: String,
    pub start_line: u32,
    pub end_line: u32,
    pub name: String,
    pub line_ranges: Vec<(u32, u32)>,
}

pub open spec fn line_ranges_of(lines: Seq<LineInfo>) -> Seq<(u32, u32)> {
    lines.map_values(|l: LineInfo| (l.start_line, l.end_line))
}

/// The coverage entries of the symbols that have lines, in order.
pub open spec fn coverage_entries_spec(symbols: Seq<SymbolInterval>) -> Seq<(Seq<char>, u32, u32, Seq<char>, Seq<(u32, u32)>)>
    decreases symbols.len(),
{
    if symbols.len() == 0 {
        seq![]
    } else {
        let rest = coverage_entries_spec(symbols.drop_last());
        let lines = symbols.last().2.lines@;
        if lines.len() > 0 {
            rest.push((lines[0].file_path@, lines[0].start_line, lines.last().end_line, symbols.last().2.name@, line_ranges_of(lines)))
        } else {
            rest
        }
    }
}

pub open spec fn coverage_entry_view(e: CoverageEntry) -> (Seq<char>, u32, u32, Seq<char>, Seq<(u32, u32)>) {
    (e.file_path@, e.start_line, e.end_line, e.name@, e.line_ranges@)
}

/// What each symbol with lines adds to the coverage records.
pub fn coverage_entries(symbols: &Vec<SymbolInterval>) -> (entries: Vec<CoverageEntry>)
    ensures
        entries@.map_values(|e: CoverageEntry| coverage_entry_view(e)) == coverage_entries_spec(symbols@),
{
    let mut entries: Vec<CoverageEntry> = Vec::new();
    let mut i: usize = 0;
    while i < symbols.len()
        invariant
            i <= symbols@.len(),
            entries@.map_values(|e: CoverageEntry| coverage_entry_view(e)) == coverage_entries_spec(symbols@.take(i as int)),
        decreases symbols@.len() - i,
    {
        proof {
            assert(symbols@.take(i + 1).drop_last() == symbols@.take(i as int));
            assert(symbols@.take(i + 1).last() == symbols@[i as int]);
        }
        let si = &symbols[i].2;
        if si.lines.len() > 0 {
            let first = &si.lines[0];
            let last = &si.lines[si.lines.len() - 1];
            let mut ranges: Vec<(u32, u32)> = Vec::new();
            let mut k: usize = 0;
            while k < si.lines.len()
                invariant
                    k <= si.lines@.len(),
                    ranges@ == line_ranges_of(si.lines@).take(k as int),
                decreases si.lines@.len() - k,
            {
                ranges.push((si.lines[k].start_line, si.lines[k].end_line));
                proof {
                    assert(line_ranges_of(si.lines@).take(k + 1) == line_ranges_of(si.lines@).take(k as int).push(line_ranges_of(si.lines@)[k as int]));
                }
                k = k + 1;
            }
            proof {
                assert(line_ranges_of(si.lines@).take(si.lines@.len() as int) == line_ranges_of(si.lines@));
            }
            let entry = CoverageEntry {
                file_path: first.file_path.clone(),
                start_line: first.start_line,
                end_line: last.end_line,
                name: si.name.clone(),
                line_ranges: ranges,
            };
            let ghost before = entries@;
            entries.push(entry);
            proof {
                assert(entries@.map_values(|e: CoverageEntry| coverage_entry_view(e)) == before.map_values(|e: CoverageEntry| coverage_entry_view(e)).push(coverage_entry_view(entry)));
            }
        }
        i = i + 1;
    }
    proof {
        assert(symbols@.take(symbols@.len() as int) == symbols@);
    }
    entries
}

/// After deduplication no two elements share a range, every range of the input
/// is still present, and each kept element is the first element of the input
/// with its range.
pub proof fn lemma_dedup_by_range(elements: Seq<SymbolInterval>)
    ensures
        forall|i: int, j: int| 0 <= i < j < dedup_by_range_spec(elements).len() ==>
            !((#[trigger] dedup_by_range_spec(elements)[i]).0 == (#[trigger] dedup_by_range_spec(elements)[j]).0
                && dedup_by_range_spec(elements)[i].1 == dedup_by_range_spec(elements)[j].1),
        forall|start: u64, end: u64| #[trigger] has_range(dedup_by_range_spec(elements), start, end) == has_range(elements, start, end),
        forall|i: int| 0 <= i < dedup_by_range_spec(elements).len() ==> exists|j: int| {
            &&& 0 <= j < elements.len()
            &&& #[trigger] elements[j] == #[trigger] dedup_by_range_spec(elements)[i]
            &&& !has_range(elements.take(j), elements[j].0, elements[j].1)
        },
    decreases elements.len(),
{
    assert forall|start: u64, end: u64| #[trigger] has_range(dedup_by_range_spec(elements), start, end) == has_range(elements, start, end) by {
        lemma_dedup_same_ranges(elements, start, end);
    }
    if elements.len() > 0 {
        let init = elements.drop_last();
        lemma_dedup_by_range(init);
        let d = dedup_by_range_spec(elements);
        let di = dedup_by_range_spec(init);
        assert forall|i: int| 0 <= i < d.len() implies exists|j: int| {
            &&& 0 <= j < elements.len()
            &&& #[trigger] elements[j] == #[trigger] d[i]
            &&& !has_range(elements.take(j), elements[j].0, elements[j].1)
        } by {
            if i < di.len() {
                assert(d[i] == di[i]);
                let j = choose|j: int| {
                    &&& 0 <= j < init.len()
                    &&& #[trigger] init[j] == #[trigger] di[i]
                    &&& !has_range(init.take(j), init[j].0, init[j].1)
                };
                assert(elements[j] == init[j]);
                assert(elements.take(j) == init.take(j));
            } else {
                let j = elements.len() - 1;
                assert(d[i] == elements.last());
                assert(elements.take(j) == init);
                assert(elements[j] == elements.last());
            }
        }
        if !has_range(init, elements.last().0, elements.last().1) {
            lemma_dedup_same_ranges(init, elements.last().0, elements.last().1);
            assert forall|i: int, j: int| 0 <= i < j < d.len() implies
                !((#[trigger] d[i]).0 == (#[trigger] d[j]).0 && d[i].1 == d[j].1) by {
                if j == di.len() {
                    assert(d[i] == di[i]);
                    if d[i].0 == d[j].0 && d[i].1 == d[j].1 {
                        assert(has_range(di, elements.last().0, elements.last().1));
                    }
                } else {
                    assert(d[i] == di[i]);
                    assert(d[j] == di[j]);
                }
            }
        }
    }
}

/// A start magic number stops exactly when starting on the harness is enabled
/// and the index is the configured start index, whatever the stop settings; a
/// stop or an assertion stops exactly when stopping on the harness is enabled
/// and the index is among the configured stop or assertion indices.
pub proof fn lemma_magic_hit(s: Tsffs, magic_number: MagicNumber, index_selector: u64)
    ensures
        magic_number != MagicNumber::StopNormal && magic_number != MagicNumber::StopAssert
            ==> magic_hit(s, magic_number, index_selector) == (s.start_on_harness && s.magic_start_index == index_selector),
        magic_number == MagicNumber::StopNormal
            ==> magic_hit(s, magic_number, index_selector) == (s.stop_on_harness && s.magic_stop_indices@.contains(index_selector)),
        magic_number == MagicNumber::StopAssert
            ==> magic_hit(s, magic_number, index_selector) == (s.stop_on_harness && s.magic_assert_indices@.contains(index_selector)),
{
}

/// A stop without a recorded reason shuts the fuzzer down exactly when the run
/// has started and shutting down on such a stop is configured (and, on the
/// simulation-stopped HAP, the fuzzer is not stopped for repro).
pub proof fn lemma_shutdown_without_reason(s: Tsffs)
    ensures
        spec_without_reason_steps(s).contains(HapStep::SendShutdown) <==> (s.have_initial_snapshot && s.shutdown_on_stop_without_reason),
        spec_simulation_stopped_steps(s, None).contains(HapStep::SendShutdown)
            <==> (!s.stopped_for_repro && s.have_initial_snapshot && s.shutdown_on_stop_without_reason),
{
    let w = spec_without_reason_steps(s);
    if s.have_initial_snapshot && s.shutdown_on_stop_without_reason {
        assert(w[3] == HapStep::SendShutdown);
    } else {
        assert forall|t: int| 0 <= t < w.len() implies w[t] != HapStep::SendShutdown by {}
    }
    let all = spec_simulation_stopped_steps(s, None);
    if !s.stopped_for_repro {
        assert(all == seq![HapStep::LogFuzzerMessages, HapStep::TakeStopReason] + w);
        if s.have_initial_snapshot && s.shutdown_on_stop_without_reason {
            assert(all[5] == HapStep::SendShutdown);
        } else {
            assert forall|t: int| 0 <= t < all.len() implies all[t] != HapStep::SendShutdown by {
                if t >= 2 {
                    assert(all[t] == w[t - 2]);
                }
            }
        }
    } else {
        assert(all.len() == 0);
    }
}

/// The steps write exactly one testcase, after the initial snapshot is saved and
/// before the timeout is armed.
pub open spec fn writes_testcase_once(steps: Seq<HapStep>) -> bool {
    exists|j: int| {
        &&& 0 <= j < steps.len()
        &&& steps[j] == HapStep::WriteTestcase
        &&& forall|t: int| 0 <= t < steps.len() && #[trigger] steps[t] == HapStep::WriteTestcase ==> t == j
        &&& exists|i: int| 0 <= i < j && steps[i] == HapStep::SaveInitialSnapshot
        &&& exists|k: int| j < k < steps.len() && steps[k] == HapStep::PostTimeoutEvent
    }
}

proof fn lemma_coverage_steps_collect(s: Tsffs)
    ensures
        spec_coverage_steps(s).len() <= 2,
        forall|t: int| 0 <= t < spec_coverage_steps(s).len() ==>
            (#[trigger] spec_coverage_steps(s)[t] == HapStep::CollectWindowsCoverage || spec_coverage_steps(s)[t] == HapStep::CollectUefiCoverage),
{
}

/// The first start with a testcase buffer (a harness start, or a manual start
/// with a buffer) writes the first testcase exactly once, after saving the
/// initial snapshot and before arming the timeout; a manual start without a
/// buffer, and any later start, writes none.
pub proof fn lemma_first_start_writes_testcase(s: Tsffs, magic: MagicNumber)
    ensures
        !s.have_initial_snapshot ==> writes_testcase_once(spec_magic_start_steps(s, magic)),
        !s.have_initial_snapshot ==> writes_testcase_once(spec_manual_start_steps(s, true)),
        forall|t: int| 0 <= t < spec_manual_start_steps(s, false).len() ==> spec_manual_start_steps(s, false)[t] != HapStep::WriteTestcase,
        s.have_initial_snapshot ==> forall|t: int| 0 <= t < spec_magic_start_steps(s, magic).len() ==> spec_magic_start_steps(s, magic)[t] != HapStep::WriteTestcase,
        s.have_initial_snapshot ==> forall|t: int| 0 <= t < spec_manual_start_steps(s, true).len() ==> spec_manual_start_steps(s, true)[t] != HapStep::WriteTestcase,
{
    let cov = spec_coverage_steps(s);
    lemma_coverage_steps_collect(s);
    let c = cov.len() as int;
    let tail = seq![HapStep::ClearExecutionTrace, HapStep::SaveReproBookmarkIfNeeded, HapStep::ContinueAfterReproPrepared];
    if !s.have_initial_snapshot {
        // A harness start.
        let p = seq![HapStep::StartFuzzerThread, HapStep::RecordMagicStartInfo(magic), HapStep::RecordStartTime, HapStep::EnableCoverage, HapStep::SaveInitialSnapshot];
        let q = seq![HapStep::WriteTestcase, HapStep::PostTimeoutEvent];
        let st = spec_magic_start_steps(s, magic);
        assert(st == p + cov + q + tail);
        let j = 5 + c;
        assert(st[j] == HapStep::WriteTestcase);
        assert(st[4] == HapStep::SaveInitialSnapshot);
        assert(st[j + 1] == HapStep::PostTimeoutEvent);
        assert forall|t: int| 0 <= t < st.len() && #[trigger] st[t] == HapStep::WriteTestcase implies t == j by {
            if t < 5 {
                assert(st[t] == p[t]);
            } else if t < 5 + c {
                assert(st[t] == cov[t - 5]);
            } else if t > j + 1 {
                assert(st[t] == tail[t - j - 2]);
            }
        }
        // A manual start with a buffer.
        let m = seq![HapStep::StartFuzzerThread, HapStep::AddStartProcessor, HapStep::RecordManualStartInfo, HapStep::RecordStartTime, HapStep::EnableCoverage, HapStep::SaveInitialSnapshot];
        let sm = spec_manual_start_steps(s, true);
        assert(sm == m + cov + q + tail);
        let jm = 6 + c;
        assert(sm[jm] == HapStep::WriteTestcase);
        assert(sm[5] == HapStep::SaveInitialSnapshot);
        assert(sm[jm + 1] == HapStep::PostTimeoutEvent);
        assert forall|t: int| 0 <= t < sm.len() && #[trigger] sm[t] == HapStep::WriteTestcase implies t == jm by {
            if t < 6 {
                assert(sm[t] == m[t]);
            } else if t < 6 + c {
                assert(sm[t] == cov[t - 6]);
            } else if t > jm + 1 {
                assert(sm[t] == tail[t - jm - 2]);
            }
        }
        // A manual start without a buffer.
        let n = seq![HapStep::StartFuzzerThread, HapStep::AddStartProcessor, HapStep::RecordStartTime, HapStep::EnableCoverage, HapStep::SaveInitialSnapshot];
        let ntail = seq![HapStep::PostTimeoutEvent, HapStep::ClearExecutionTrace, HapStep::SaveReproBookmarkIfNeeded, HapStep::ResumeSimulation];
        let sn = spec_manual_start_steps(s, false);
        assert(sn == n + cov + ntail);
        assert forall|t: int| 0 <= t < sn.len() implies sn[t] != HapStep::WriteTestcase by {
            if t < 5 {
                assert(sn[t] == n[t]);
            } else if t < 5 + c {
                assert(sn[t] == cov[t - 5]);
            } else {
                assert(sn[t] == ntail[t - 5 - c]);
            }
        }
    } else {
        let sn = spec_manual_start_steps(s, false);
        assert(sn == seq![HapStep::ClearExecutionTrace, HapStep::SaveReproBookmarkIfNeeded, HapStep::ResumeSimulation]);
        assert(spec_manual_start_steps(s, true) == tail);
        assert(spec_magic_start_steps(s, magic) == tail);
        assert forall|t: int| 0 <= t < sn.len() implies sn[t] != HapStep::WriteTestcase by {}
        assert forall|t: int| 0 <= t < tail.len() implies tail[t] != HapStep::WriteTestcase by {}
    }
}

/// Symbolic coverage is collected at a start for Windows exactly when the target
/// is Windows and symbolic coverage is on, and for UEFI exactly when the target
/// is UEFI and symbolic coverage is on; after a run, the execution trace is saved
/// exactly when every trace is to be saved, and the symbolic coverage exactly
/// when symbolic coverage is on.
pub proof fn lemma_coverage_and_save_settings(s: Tsffs)
    ensures
        spec_coverage_steps(s).contains(HapStep::CollectWindowsCoverage) <==> (s.windows && s.symbolic_coverage),
        spec_coverage_steps(s).contains(HapStep::CollectUefiCoverage) <==> (s.uefi && s.symbolic_coverage),
        spec_save_steps(s).contains(HapStep::SaveExecutionTrace) <==> s.save_all_execution_traces,
        spec_save_steps(s).contains(HapStep::SaveSymbolicCoverage) <==> s.symbolic_coverage,
{
    let c = spec_coverage_steps(s);
    let v = spec_save_steps(s);
    if s.windows && s.symbolic_coverage {
        assert(c[0] == HapStep::CollectWindowsCoverage);
    }
    if s.uefi && s.symbolic_coverage {
        assert(c[c.len() - 1] == HapStep::CollectUefiCoverage);
    }
    if s.save_all_execution_traces {
        assert(v[0] == HapStep::SaveExecutionTrace);
    }
    if s.symbolic_coverage {
        assert(v[v.len() - 1] == HapStep::SaveSymbolicCoverage);
    }
    assert forall|t: int| 0 <= t < c.len() implies {
        &&& (c[t] == HapStep::CollectWindowsCoverage ==> s.windows && s.symbolic_coverage)
        &&& (c[t] == HapStep::CollectUefiCoverage ==> s.uefi && s.symbolic_coverage)
    } by {}
    assert forall|t: int| 0 <= t < v.len() implies {
        &&& (v[t] == HapStep::SaveExecutionTrace ==> s.save_all_execution_traces)
        &&& (v[t] == HapStep::SaveSymbolicCoverage ==> s.symbolic_coverage)
    } by {}
}

} // verus!

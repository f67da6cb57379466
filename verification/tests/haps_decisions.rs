//! The steps taken on the simulator's HAPs for a given fuzzer state.

use tsffs::dwarf::{LineInfo, SymbolInfo};
use tsffs::haps::{
    coverage_entries, dedup_by_range, ExitKind, HapStep, MagicDecision, MagicError, MagicNumber,
    MissingStartInfo, SolutionKind, StopReason, Tsffs,
};

fn running() -> Tsffs {
    Tsffs {
        stopped_for_repro: false,
        have_initial_snapshot: true,
        repro_bookmark_set: false,
        windows: false,
        uefi: true,
        symbolic_coverage: true,
        iterations: 3,
        iteration_limit: 0,
        quit_on_iteration_limit: false,
        save_all_execution_traces: false,
        shutdown_on_stop_without_reason: true,
        start_info_set: true,
        all_exceptions_are_solutions: false,
        exceptions: vec![13, 14],
        all_breakpoints_are_solutions: false,
        breakpoints: vec![7],
        start_on_harness: true,
        stop_on_harness: true,
        magic_start_index: 0,
        magic_stop_indices: vec![0, 2],
        magic_assert_indices: vec![0],
        edges_seen_since_last: vec![],
        save_interesting_execution_traces: false,
        save_solution_execution_traces: false,
        save_timeout_execution_traces: false,
        heartbeat: false,
        heartbeat_interval: 60,
        heartbeat_clock_started: false,
    }
}

#[test]
fn stopped_for_repro_does_nothing() {
    let mut s = running();
    s.stopped_for_repro = true;
    assert!(s.on_simulation_stopped(Some(StopReason::ManualStop)).is_empty());
    assert!(s.on_simulation_stopped(None).is_empty());
}

#[test]
fn first_magic_start_initializes_the_run() {
    let mut s = running();
    s.have_initial_snapshot = false;
    let steps = s.on_simulation_stopped(Some(StopReason::Magic(MagicNumber::StartBufferPtrSizeVal)));
    assert_eq!(
        steps,
        vec![
            HapStep::LogFuzzerMessages,
            HapStep::TakeStopReason,
            HapStep::StartFuzzerThread,
            HapStep::RecordMagicStartInfo(MagicNumber::StartBufferPtrSizeVal),
            HapStep::RecordStartTime,
            HapStep::EnableCoverage,
            HapStep::SaveInitialSnapshot,
            HapStep::CollectUefiCoverage,
            HapStep::WriteTestcase,
            HapStep::PostTimeoutEvent,
            HapStep::ClearExecutionTrace,
            HapStep::SaveReproBookmarkIfNeeded,
            HapStep::ContinueAfterReproPrepared,
        ]
    );
    // Later starts only clear the trace and continue.
    assert_eq!(
        running().on_simulation_stopped_with_magic(MagicNumber::StartBufferPtrSizePtr),
        vec![
            HapStep::ClearExecutionTrace,
            HapStep::SaveReproBookmarkIfNeeded,
            HapStep::ContinueAfterReproPrepared,
        ]
    );
}

#[test]
fn manual_start_without_buffer_writes_no_testcase_and_resumes() {
    let mut s = running();
    s.have_initial_snapshot = false;
    s.windows = true;
    assert_eq!(
        s.on_simulation_stopped_manual_start_without_buffer(),
        vec![
            HapStep::StartFuzzerThread,
            HapStep::AddStartProcessor,
            HapStep::RecordStartTime,
            HapStep::EnableCoverage,
            HapStep::SaveInitialSnapshot,
            HapStep::CollectWindowsCoverage,
            HapStep::CollectUefiCoverage,
            HapStep::PostTimeoutEvent,
            HapStep::ClearExecutionTrace,
            HapStep::SaveReproBookmarkIfNeeded,
            HapStep::ResumeSimulation,
        ]
    );
    assert_eq!(
        s.on_simulation_stopped_with_manual_start()[2],
        HapStep::RecordManualStartInfo
    );
}

#[test]
fn a_timeout_is_reported_counted_and_restored() {
    let s = running();
    assert_eq!(
        s.on_simulation_stopped(Some(StopReason::Solution(SolutionKind::Timeout))),
        vec![
            HapStep::LogFuzzerMessages,
            HapStep::TakeStopReason,
            HapStep::CancelTimeoutEvent,
            HapStep::CountIteration,
            HapStep::CountTimeout,
            HapStep::SendExitKind(ExitKind::Timeout),
            HapStep::RestoreSnapshot,
            HapStep::ResetEdgeChain,
            HapStep::WriteTestcase,
            HapStep::PostTimeoutEvent,
            HapStep::SaveSymbolicCoverage,
            HapStep::ResumeSimulation,
        ]
    );
}

#[test]
fn an_assertion_is_a_crash_solution() {
    let s = running();
    let steps = s.on_simulation_stopped_magic_assert();
    assert!(steps.contains(&HapStep::CountSolution));
    assert!(steps.contains(&HapStep::SendExitKind(ExitKind::Crash)));
    assert_eq!(steps, s.on_simulation_stopped_solution(SolutionKind::Exception(14)));
}

#[test]
fn a_normal_stop_restores_by_policy_and_notes_missing_start_info() {
    let mut s = running();
    s.start_info_set = false;
    s.save_all_execution_traces = true;
    let steps = s.on_simulation_stopped_magic_stop();
    assert_eq!(
        steps,
        vec![
            HapStep::CancelTimeoutEvent,
            HapStep::CountIteration,
            HapStep::SendExitKind(ExitKind::Normal),
            HapStep::RestoreSnapshotIfDue,
            HapStep::ResetEdgeChain,
            HapStep::NoteMissingStartInfo(MissingStartInfo::Buffer),
            HapStep::PostTimeoutEvent,
            HapStep::SaveExecutionTrace,
            HapStep::SaveSymbolicCoverage,
            HapStep::ContinueAfterReproPrepared,
        ]
    );
    assert!(s
        .on_simulation_stopped_manual_stop()
        .contains(&HapStep::NoteMissingStartInfo(MissingStartInfo::ManualNoBuffer)));
}

#[test]
fn reaching_the_iteration_cap_shuts_down() {
    let mut s = running();
    s.iteration_limit = 4;
    assert_eq!(
        s.on_simulation_stopped_manual_stop(),
        vec![
            HapStep::CancelTimeoutEvent,
            HapStep::CountIteration,
            HapStep::ReportIterationLimit,
            HapStep::SendShutdown,
        ]
    );
    s.quit_on_iteration_limit = true;
    let steps = s.on_simulation_stopped_manual_stop();
    assert_eq!(steps[4], HapStep::Quit);
    assert!(steps.contains(&HapStep::SendExitKind(ExitKind::Normal)));
    // Below the cap nothing of the sort happens.
    s.iteration_limit = 5;
    assert!(!s.on_simulation_stopped_manual_stop().contains(&HapStep::SendShutdown));
}

#[test]
fn a_repro_stop_only_enters_repro() {
    let mut s = running();
    s.repro_bookmark_set = true;
    assert_eq!(
        s.on_simulation_stopped(Some(StopReason::ManualStop)),
        vec![
            HapStep::LogFuzzerMessages,
            HapStep::TakeStopReason,
            HapStep::CancelTimeoutEvent,
            HapStep::EnterReproStop,
        ]
    );
}

#[test]
fn a_stop_before_the_start_warns_and_resumes() {
    let mut s = running();
    s.have_initial_snapshot = false;
    assert_eq!(
        s.on_simulation_stopped_solution(SolutionKind::Breakpoint(3)),
        vec![HapStep::WarnNoSnapshot, HapStep::SaveSymbolicCoverage, HapStep::ResumeSimulation]
    );
    assert!(s.on_simulation_stopped_without_reason().is_empty());
}

#[test]
fn a_stop_without_reason_ends_the_run() {
    let s = running();
    assert_eq!(
        s.on_simulation_stopped(None),
        vec![
            HapStep::LogFuzzerMessages,
            HapStep::TakeStopReason,
            HapStep::CancelTimeoutEvent,
            HapStep::SendExitKind(ExitKind::Normal),
            HapStep::ReportStoppedWithoutReason,
            HapStep::SendShutdown,
        ]
    );
}

#[test]
fn exceptions_and_breakpoints_stop_when_configured() {
    let mut s = running();
    assert_eq!(s.on_exception(13), Some(StopReason::Solution(SolutionKind::Exception(13))));
    assert_eq!(s.on_exception(6), None);
    s.all_exceptions_are_solutions = true;
    assert_eq!(s.on_exception(6), Some(StopReason::Solution(SolutionKind::Exception(6))));
    assert_eq!(s.on_breakpoint_memop(7), Some(StopReason::Solution(SolutionKind::Breakpoint(7))));
    // Breakpoint numbers are compared as 32-bit numbers.
    assert_eq!(
        s.on_breakpoint_memop(7 + (1 << 32)),
        Some(StopReason::Solution(SolutionKind::Breakpoint(7 + (1 << 32))))
    );
    assert_eq!(s.on_breakpoint_memop(8), None);
}

#[test]
fn magic_instructions_stop_on_configured_indices() {
    let mut s = running();
    let d = |register_processor, stop, claim_start_processor| {
        Ok(MagicDecision { register_processor, stop, claim_start_processor })
    };
    assert_eq!(
        s.on_magic_instruction(true, false, false, MagicNumber::StartBufferPtrSizePtr, 0),
        d(true, true, true)
    );
    // A start processor already recorded is kept.
    assert_eq!(
        s.on_magic_instruction(true, true, true, MagicNumber::StartBufferPtrSizePtr, 0),
        d(false, true, false)
    );
    assert_eq!(
        s.on_magic_instruction(true, true, false, MagicNumber::StartBufferPtrSizePtr, 1),
        d(false, false, false)
    );
    assert_eq!(
        s.on_magic_instruction(true, true, false, MagicNumber::StopNormal, 2),
        d(false, true, false)
    );
    assert_eq!(
        s.on_magic_instruction(true, true, false, MagicNumber::StopAssert, 2),
        d(false, false, false)
    );
    assert_eq!(
        s.on_magic_instruction(false, true, false, MagicNumber::StopNormal, 2),
        Err(MagicError::NotAProcessor)
    );
    s.start_on_harness = false;
    s.stop_on_harness = false;
    assert!(!s.on_magic_instruction(true, true, false, MagicNumber::StartBufferPtrSizeVal, 0).unwrap().stop);
    assert!(!s.on_magic_instruction(true, true, false, MagicNumber::StopNormal, 0).unwrap().stop);
}

fn symbol(name: &str, lines: Vec<LineInfo>) -> SymbolInfo {
    SymbolInfo::new(0x10, 0x1000, 0x20, name.to_string(), "m".to_string(), lines)
}

fn line(start: u32, end: u32) -> LineInfo {
    LineInfo { rva: 0x10, size: 1, file_path: "/f.c".to_string(), start_line: start, end_line: end }
}

#[test]
fn coverage_intervals_are_deduplicated_by_range_first_kept() {
    let kept = dedup_by_range(vec![
        (1, 2, symbol("a", vec![])),
        (1, 3, symbol("b", vec![])),
        (1, 2, symbol("c", vec![])),
        (4, 5, symbol("d", vec![])),
    ]);
    let names: Vec<&str> = kept.iter().map(|e| e.2.name.as_str()).collect();
    assert_eq!(names, vec!["a", "b", "d"]);
}

#[test]
fn coverage_entries_span_first_to_last_line() {
    let entries = coverage_entries(&vec![
        (1, 2, symbol("f", vec![line(3, 3), line(5, 6)])),
        (2, 3, symbol("g", vec![])),
    ]);
    assert_eq!(entries.len(), 1);
    assert_eq!(entries[0].file_path, "/f.c");
    assert_eq!(entries[0].name, "f");
    assert_eq!((entries[0].start_line, entries[0].end_line), (3, 6));
    assert_eq!(entries[0].line_ranges, vec![(3, 3), (5, 6)]);
}

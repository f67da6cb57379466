//! What is logged for the fuzzer's messages and heartbeats.

use tsffs::haps::Tsffs;
use tsffs::log::{
    heartbeat_due, other_fuzzing_time_ms, sorted_edges, FuzzerMessageKind, LogMessageEdge,
    LogStep,
};

fn state(pending: bool) -> Tsffs {
    Tsffs {
        stopped_for_repro: false,
        have_initial_snapshot: true,
        repro_bookmark_set: false,
        windows: false,
        uefi: false,
        symbolic_coverage: true,
        iterations: 0,
        iteration_limit: 0,
        quit_on_iteration_limit: false,
        save_all_execution_traces: false,
        shutdown_on_stop_without_reason: false,
        start_info_set: true,
        all_exceptions_are_solutions: false,
        exceptions: vec![],
        all_breakpoints_are_solutions: false,
        breakpoints: vec![],
        start_on_harness: true,
        stop_on_harness: true,
        magic_start_index: 0,
        magic_stop_indices: vec![],
        magic_assert_indices: vec![],
        edges_seen_since_last: if pending { vec![(0x1000, 7)] } else { vec![] },
        save_interesting_execution_traces: true,
        save_solution_execution_traces: false,
        save_timeout_execution_traces: false,
        heartbeat: false,
        heartbeat_interval: 60,
        heartbeat_clock_started: false,
    }
}

#[test]
fn strings_are_logged_and_recorded() {
    assert_eq!(
        state(true).log_messages(&vec![FuzzerMessageKind::String], 0),
        vec![LogStep::Info(0), LogStep::RecordMessage(0)]
    );
}

#[test]
fn only_the_interesting_report_clears_pending_edges() {
    let steps = state(true).log_messages(
        &vec![
            FuzzerMessageKind::Crash,
            FuzzerMessageKind::Interesting,
            FuzzerMessageKind::Timeout,
        ],
        0,
    );
    assert_eq!(
        steps,
        vec![
            LogStep::Info(0),
            LogStep::RecordEdges(0),
            LogStep::SaveSymbolicCoverage,
            LogStep::Info(1),
            LogStep::ReportEdgeCounts(1),
            LogStep::RecordEdges(1),
            LogStep::ClearEdges,
            LogStep::SaveExecutionTrace,
            LogStep::SaveSymbolicCoverage,
            LogStep::Info(2),
            LogStep::SaveSymbolicCoverage,
        ]
    );
    assert_eq!(
        state(false).log_messages(&vec![FuzzerMessageKind::Timeout], 0),
        vec![LogStep::Info(0), LogStep::SaveSymbolicCoverage]
    );
}

#[test]
fn edges_are_sorted_by_program_counter() {
    let edges = sorted_edges(&vec![(30, 1), (10, 2), (20, 3), (10, 4)]);
    assert_eq!(
        edges,
        vec![
            LogMessageEdge { pc: 10, afl_idx: 2 },
            LogMessageEdge { pc: 10, afl_idx: 4 },
            LogMessageEdge { pc: 20, afl_idx: 3 },
            LogMessageEdge { pc: 30, afl_idx: 1 },
        ]
    );
}

#[test]
fn heartbeat_timing() {
    assert!(heartbeat_due(true, 60, 60));
    assert!(!heartbeat_due(true, 59, 60));
    assert!(!heartbeat_due(false, 600, 60));
    assert_eq!(other_fuzzing_time_ms(100, 30), 70);
    assert_eq!(other_fuzzing_time_ms(30, 100), 0);
}

#[test]
fn heartbeat_starts_its_clock_and_fires_after_the_interval() {
    let mut s = state(false);
    assert_eq!(s.log_messages(&vec![], 1000), vec![]);
    s.heartbeat = true;
    // First call: the clock starts; nothing has elapsed on it yet.
    assert_eq!(s.log_messages(&vec![], 0), vec![LogStep::StartHeartbeatClock]);
    s.heartbeat_clock_started = true;
    assert_eq!(s.log_messages(&vec![], 59), vec![]);
    assert_eq!(
        s.log_messages(&vec![FuzzerMessageKind::String], 60),
        vec![LogStep::Info(0), LogStep::RecordMessage(0), LogStep::Heartbeat]
    );
    s.heartbeat_interval = 0;
    s.heartbeat_clock_started = false;
    assert_eq!(
        s.log_messages(&vec![], 0),
        vec![LogStep::StartHeartbeatClock, LogStep::Heartbeat]
    );
}

//! Logging of the fuzzer's messages and of periodic heartbeats.
//!
//! What is logged for each message the fuzzer sends, in which order, and when a
//! heartbeat is due, is decided here; formatting and writing the JSON records,
//! and the floating-point statistics of a heartbeat, are the caller's.
use vstd::prelude::*;
use crate::haps::Tsffs;

verus! {

/// An edge seen since the last report: a program counter and its AFL map index.
#[derive(Debug, Clone, Copy, PartialEq, Eq, Structural)]
pub struct LogMessageEdge {
    pub pc: u64,
    pub afl_idx: u64,
}

/// What a message from the fuzzer reports.
#[derive(Debug, Clone, Copy, PartialEq, Eq, Structural)]
pub enum FuzzerMessageKind {
    /// A free-form string.
    String,
    /// An interesting input.
    Interesting,
    /// A solution (crash) input.
    Crash,
    /// A timeout input.
    Timeout,
}

/// One unit of work of logging a message.
#[derive(Debug, Clone, Copy, PartialEq, Eq, Structural)]
pub enum LogStep {
    /// Log the message at `Info` level.
    Info(usize),
    /// Record the message's string in the log file.
    RecordMessage(usize),
    /// Log how many edges were seen since the last report.
    ReportEdgeCounts(usize),
    /// Record the message with the edges seen since the last report, sorted by
    /// program counter, in the log file.
    RecordEdges(usize),
    /// Forget the edges seen since the last report.
    ClearEdges,
    /// Save the execution trace.
    SaveExecutionTrace,
    /// Save the symbolic coverage.
    SaveSymbolicCoverage,
    /// Start the heartbeat clock.
    StartHeartbeatClock,
    /// Log a heartbeat with the fuzzer's statistics and restart the heartbeat
    /// clock.
    Heartbeat,
}

impl Tsffs {
    /// Edges have been seen since the last report.
    pub open spec fn edges_pending(self) -> bool {
        self.edges_seen_since_last@.len() > 0
    }
}

/// The steps that log message `i` of kind `kind`, and whether edges are still
/// pending afterwards: a string is logged and recorded; an input is logged, its
/// pending edges recorded (an interesting input then reports and clears them),
/// and its trace and the coverage saved as configured.
pub open spec fn message_steps(s: Tsffs, pending: bool, i: usize, kind: FuzzerMessageKind) -> (Seq<LogStep>, bool) {
    match kind {
        FuzzerMessageKind::String => (seq![LogStep::Info(i), LogStep::RecordMessage(i)], pending),
        _ => {
            let edges = if pending {
                if kind == FuzzerMessageKind::Interesting {
                    seq![LogStep::ReportEdgeCounts(i), LogStep::RecordEdges(i), LogStep::ClearEdges]
                } else {
                    seq![LogStep::RecordEdges(i)]
                }
            } else {
                seq![]
            };
            let save_trace = match kind {
                FuzzerMessageKind::Interesting => s.save_interesting_execution_traces,
                FuzzerMessageKind::Crash => s.save_solution_execution_traces,
                _ => s.save_timeout_execution_traces,
            };
            (seq![LogStep::Info(i)] + edges
                + (if save_trace { seq![LogStep::SaveExecutionTrace] } else { seq![] })
                + (if s.symbolic_coverage { seq![LogStep::SaveSymbolicCoverage] } else { seq![] }),
                pending && kind != FuzzerMessageKind::Interesting)
        },
    }
}

/// The steps that log the first `n` messages, in order, and whether edges are
/// still pending after them.
pub open spec fn messages_steps(s: Tsffs, kinds: Seq<FuzzerMessageKind>, n: int) -> (Seq<LogStep>, bool)
    decreases n,
{
    if n <= 0 {
        (seq![], s.edges_pending())
    } else {
        let (before, pending) = messages_steps(s, kinds, n - 1);
        let (steps, after) = message_steps(s, pending, (n - 1) as usize, kinds[n - 1]);
        (before + steps, after)
    }
}

/// The heartbeat steps: with heartbeats on, start the heartbeat clock if it is
/// not running, and log a heartbeat once at least the interval (in seconds) has
/// elapsed on it.
pub open spec fn heartbeat_steps(s: Tsffs, elapsed_secs: u64) -> Seq<LogStep> {
    if s.heartbeat {
        (if s.heartbeat_clock_started { seq![] } else { seq![LogStep::StartHeartbeatClock] })
            + (if elapsed_secs >= s.heartbeat_interval { seq![LogStep::Heartbeat] } else { seq![] })
    } else {
        seq![]
    }
}

/// Every message's steps, in the order received, then the heartbeat's.
pub open spec fn spec_log_messages(s: Tsffs, kinds: Seq<FuzzerMessageKind>, elapsed_secs: u64) -> Seq<LogStep> {
    messages_steps(s, kinds, kinds.len() as int).0 + heartbeat_steps(s, elapsed_secs)
}

impl Tsffs {
    fn message_plan(&self, pending: bool, i: usize, kind: FuzzerMessageKind, steps: &mut Vec<LogStep>) -> (still_pending: bool)
        ensures
            final(steps)@ == old(steps)@ + message_steps(*self, pending, i, kind).0,
            still_pending == message_steps(*self, pending, i, kind).1,
    {
        let ghost start = steps@;
        match kind {
            FuzzerMessageKind::String => {
                steps.push(LogStep::Info(i));
                steps.push(LogStep::RecordMessage(i));
                proof {
                    assert(steps@ =~= start + message_steps(*self, pending, i, kind).0);
                }
                pending
            },
            _ => {
                steps.push(LogStep::Info(i));
                if pending {
                    if kind == FuzzerMessageKind::Interesting {
                        steps.push(LogStep::ReportEdgeCounts(i));
                        steps.push(LogStep::RecordEdges(i));
                        steps.push(LogStep::ClearEdges);
                    } else {
                        steps.push(LogStep::RecordEdges(i));
                    }
                }
                let save_trace = match kind {
                    FuzzerMessageKind::Interesting => self.save_interesting_execution_traces,
                    FuzzerMessageKind::Crash => self.save_solution_execution_traces,
                    _ => self.save_timeout_execution_traces,
                };
                if save_trace {
                    steps.push(LogStep::SaveExecutionTrace);
                }
                if self.symbolic_coverage {
                    steps.push(LogStep::SaveSymbolicCoverage);
                }
                proof {
                    assert(steps@ =~= start + message_steps(*self, pending, i, kind).0);
                }
                pending && kind != FuzzerMessageKind::Interesting
            },
        }
    }

    /// The steps that log the fuzzer's messages (given by kind, in the order
    /// received), then the heartbeat's; `elapsed_secs` is the time on the
    /// heartbeat clock, 0 when it is not running yet.
    pub fn log_messages(&self, kinds: &Vec<FuzzerMessageKind>, elapsed_secs: u64) -> (steps: Vec<LogStep>)
        ensures
            steps@ == spec_log_messages(*self, kinds@, elapsed_secs),
            steps@.contains(LogStep::SaveExecutionTrace)
                <==> exists|k: int| 0 <= k < kinds@.len() && trace_configured(*self, #[trigger] kinds@[k]),
    {
        proof {
            lemma_traces_saved(*self, kinds@, kinds@.len() as int);
            let hb = heartbeat_steps(*self, elapsed_secs);
            assert(!hb.contains(LogStep::SaveExecutionTrace)) by {
                assert forall|t: int| 0 <= t < hb.len() implies hb[t] != LogStep::SaveExecutionTrace by {
                    if !self.heartbeat_clock_started && t == 0 {
                    }
                }
            }
            lemma_contains_concat(messages_steps(*self, kinds@, kinds@.len() as int).0, hb, LogStep::SaveExecutionTrace);
        }
        let mut steps: Vec<LogStep> = Vec::new();
        let mut pending = self.edges_seen_since_last.len() > 0;
        let mut i: usize = 0;
        while i < kinds.len()
            invariant
                i <= kinds@.len(),
                (steps@, pending) == messages_steps(*self, kinds@, i as int),
            decreases kinds@.len() - i,
        {
            pending = self.message_plan(pending, i, kinds[i], &mut steps);
            i = i + 1;
        }
        let ghost before = steps@;
        if self.heartbeat {
            if !self.heartbeat_clock_started {
                steps.push(LogStep::StartHeartbeatClock);
            }
            if heartbeat_due(self.heartbeat, elapsed_secs, self.heartbeat_interval) {
                steps.push(LogStep::Heartbeat);
            }
        }
        proof {
            assert(steps@ =~= before + heartbeat_steps(*self, elapsed_secs));
        }
        steps
    }
}

/// `edges` stably sorted by program counter with `e` added after every edge
/// whose program counter is not greater.
pub open spec fn insert_by_pc(edges: Seq<LogMessageEdge>, e: LogMessageEdge) -> Seq<LogMessageEdge>
    decreases edges.len(),
{
    if edges.len() == 0 {
        seq![e]
    } else if edges.last().pc <= e.pc {
        edges.push(e)
    } else {
        insert_by_pc(edges.drop_last(), e).push(edges.last())
    }
}

pub open spec fn sort_by_pc(edges: Seq<LogMessageEdge>) -> Seq<LogMessageEdge>
    decreases edges.len(),
{
    if edges.len() == 0 {
        seq![]
    } else {
        insert_by_pc(sort_by_pc(edges.drop_last()), edges.last())
    }
}

pub open spec fn edges_of(pairs: Seq<(u64, u64)>) -> Seq<LogMessageEdge> {
    pairs.map_values(|p: (u64, u64)| LogMessageEdge { pc: p.0, afl_idx: p.1 })
}

proof fn lemma_insert_pc_at(edges: Seq<LogMessageEdge>, e: LogMessageEdge, p: int)
    requires
        0 <= p <= edges.len(),
        forall|k: int| p <= k < edges.len() ==> #[trigger] edges[k].pc > e.pc,
        p > 0 ==> edges[p - 1].pc <= e.pc,
    ensures
        insert_by_pc(edges, e) == edges.insert(p, e),
    decreases edges.len(),
{
    if edges.len() == 0 {
        assert(edges.insert(p, e) =~= seq![e]);
    } else if p == edges.len() {
        assert(edges.insert(p, e) =~= edges.push(e));
    } else {
        let init = edges.drop_last();
        assert forall|k: int| p <= k < init.len() implies #[trigger] init[k].pc > e.pc by {
            assert(init[k] == edges[k]);
        }
        if p > 0 {
            assert(init[p - 1] == edges[p - 1]);
        }
        lemma_insert_pc_at(init, e, p);
        assert(edges.insert(p, e) =~= init.insert(p, e).push(edges.last()));
    }
}

/// The edges seen since the last report, `(pc, afl_idx)`, sorted by program
/// counter (stably).
pub fn sorted_edges(pairs: &Vec<(u64, u64)>) -> (edges: Vec<LogMessageEdge>)
    ensures
        edges@ == sort_by_pc(edges_of(pairs@)),
{
    let ghost all = edges_of(pairs@);
    let mut edges: Vec<LogMessageEdge> = Vec::new();
    let mut i: usize = 0;
    while i < pairs.len()
        invariant
            i <= pairs@.len(),
            all == edges_of(pairs@),
            edges@ == sort_by_pc(all.take(i as int)),
        decreases pairs@.len() - i,
    {
        proof {
            assert(all.take(i + 1).drop_last() == all.take(i as int));
            assert(all.take(i + 1).last() == all[i as int]);
        }
        let e = LogMessageEdge { pc: pairs[i].0, afl_idx: pairs[i].1 };
        let mut p: usize = edges.len();
        while p > 0 && edges[p - 1].pc > e.pc
            invariant
                p <= edges@.len(),
                forall|k: int| p <= k < edges@.len() ==> #[trigger] edges@[k].pc > e.pc,
            decreases p,
        {
            p = p - 1;
        }
        proof {
            lemma_insert_pc_at(edges@, e, p as int);
        }
        edges.insert(p, e);
        i = i + 1;
    }
    proof {
        assert(all.take(pairs@.len() as int) == all);
    }
    edges
}

/// A heartbeat is due when heartbeats are on and at least the interval (in
/// seconds) has elapsed since the last one.
pub fn heartbeat_due(heartbeat: bool, elapsed_secs: u64, heartbeat_interval: u64) -> (due: bool)
    ensures
        due == (heartbeat && elapsed_secs >= heartbeat_interval),
{
    heartbeat && elapsed_secs >= heartbeat_interval
}

/// The fuzzing time (ms) not spent restoring snapshots: the iteration time
/// minus the restore time, or 0 when the restore time exceeds it.
pub fn other_fuzzing_time_ms(iteration_total_time_ms: u64, restore_total_time_ms: u64) -> (other: u64)
    ensures
        other == if iteration_total_time_ms >= restore_total_time_ms { (iteration_total_time_ms - restore_total_time_ms) as u64 } else { 0 },
{
    if iteration_total_time_ms >= restore_total_time_ms {
        iteration_total_time_ms - restore_total_time_ms
    } else {
        0
    }
}

/// After logging a batch of messages, edges are still pending exactly when they
/// were before and no interesting input came: only an interesting input's
/// report clears them.
pub proof fn lemma_pending_edges_after_batch(s: Tsffs, kinds: Seq<FuzzerMessageKind>, n: int)
    requires
        0 <= n <= kinds.len(),
    ensures
        messages_steps(s, kinds, n).1 == (s.edges_pending() && forall|i: int| 0 <= i < n ==> #[trigger] kinds[i] != FuzzerMessageKind::Interesting),
    decreases n,
{
    if n > 0 {
        lemma_pending_edges_after_batch(s, kinds, n - 1);
    }
}

proof fn lemma_insert_pc_sorted(edges: Seq<LogMessageEdge>, e: LogMessageEdge)
    requires
        forall|i: int, j: int| 0 <= i < j < edges.len() ==> #[trigger] edges[i].pc <= #[trigger] edges[j].pc,
    ensures
        forall|i: int, j: int| 0 <= i < j < insert_by_pc(edges, e).len() ==> #[trigger] insert_by_pc(edges, e)[i].pc <= #[trigger] insert_by_pc(edges, e)[j].pc,
        insert_by_pc(edges, e).to_multiset() == edges.to_multiset().insert(e),
    decreases edges.len(),
{
    broadcast use vstd::seq_lib::group_to_multiset_ensures;
    if edges.len() == 0 {
        assert(insert_by_pc(edges, e) == edges.push(e));
    } else if edges.last().pc <= e.pc {
    } else {
        let init = edges.drop_last();
        assert forall|i: int, j: int| 0 <= i < j < init.len() implies #[trigger] init[i].pc <= #[trigger] init[j].pc by {
            assert(init[i] == edges[i]);
            assert(init[j] == edges[j]);
        }
        lemma_insert_pc_sorted(init, e);
        let ins = insert_by_pc(init, e);
        assert forall|k: int| 0 <= k < ins.len() implies #[trigger] ins[k].pc <= edges.last().pc by {
            assert(ins.to_multiset().count(ins[k]) > 0);
            if ins[k] != e {
                assert(init.to_multiset().count(ins[k]) > 0);
                assert(init.contains(ins[k]));
                let t = choose|t: int| 0 <= t < init.len() && init[t] == ins[k];
                assert(edges[t] == init[t]);
                assert(edges[t].pc <= edges[edges.len() - 1].pc);
            }
        }
        assert(edges == init.push(edges.last()));
    }
}

/// The reported edges are exactly the edges seen, ordered by program counter.
pub proof fn lemma_sorted_edges(edges: Seq<LogMessageEdge>)
    ensures
        forall|i: int, j: int| 0 <= i < j < sort_by_pc(edges).len() ==> #[trigger] sort_by_pc(edges)[i].pc <= #[trigger] sort_by_pc(edges)[j].pc,
        sort_by_pc(edges).to_multiset() == edges.to_multiset(),
    decreases edges.len(),
{
    broadcast use vstd::seq_lib::group_to_multiset_ensures;
    if edges.len() > 0 {
        lemma_sorted_edges(edges.drop_last());
        lemma_insert_pc_sorted(sort_by_pc(edges.drop_last()), edges.last());
        assert(edges == edges.drop_last().push(edges.last()));
    }
}

/// The setting that asks for the execution trace of a message of this kind to be
/// saved: the interesting, solution or timeout one; a string saves none.
pub open spec fn trace_configured(s: Tsffs, kind: FuzzerMessageKind) -> bool {
    match kind {
        FuzzerMessageKind::String => false,
        FuzzerMessageKind::Interesting => s.save_interesting_execution_traces,
        FuzzerMessageKind::Crash => s.save_solution_execution_traces,
        FuzzerMessageKind::Timeout => s.save_timeout_execution_traces,
    }
}

proof fn lemma_contains_concat(a: Seq<LogStep>, b: Seq<LogStep>, x: LogStep)
    ensures
        (a + b).contains(x) <==> (a.contains(x) || b.contains(x)),
{
    if a.contains(x) {
        let i = choose|i: int| 0 <= i < a.len() && a[i] == x;
        assert((a + b)[i] == x);
    }
    if b.contains(x) {
        let i = choose|i: int| 0 <= i < b.len() && b[i] == x;
        assert((a + b)[a.len() + i] == x);
    }
    if (a + b).contains(x) {
        let i = choose|i: int| 0 <= i < (a + b).len() && (a + b)[i] == x;
        if i < a.len() {
            assert(a[i] == x);
        } else {
            assert(b[i - a.len()] == x);
        }
    }
}

/// A message's execution trace is saved exactly when the setting for its kind
/// asks for it: a solution's under `save_solution_execution_traces`, a timeout's
/// under `save_timeout_execution_traces`, an interesting input's under
/// `save_interesting_execution_traces`, and never a string's.
pub proof fn lemma_trace_saved_as_configured(s: Tsffs, pending: bool, i: usize, kind: FuzzerMessageKind)
    ensures
        message_steps(s, pending, i, kind).0.contains(LogStep::SaveExecutionTrace) == trace_configured(s, kind),
{
    let steps = message_steps(s, pending, i, kind).0;
    match kind {
        FuzzerMessageKind::String => {
            assert forall|t: int| 0 <= t < steps.len() implies steps[t] != LogStep::SaveExecutionTrace by {}
        },
        _ => {
            let edges = if pending {
                if kind == FuzzerMessageKind::Interesting {
                    seq![LogStep::ReportEdgeCounts(i), LogStep::RecordEdges(i), LogStep::ClearEdges]
                } else {
                    seq![LogStep::RecordEdges(i)]
                }
            } else {
                seq![]
            };
            let trace = if trace_configured(s, kind) { seq![LogStep::SaveExecutionTrace] } else { Seq::<LogStep>::empty() };
            let cov = if s.symbolic_coverage { seq![LogStep::SaveSymbolicCoverage] } else { Seq::<LogStep>::empty() };
            let head = seq![LogStep::Info(i)] + edges;
            assert(steps == head + trace + cov);
            assert(!head.contains(LogStep::SaveExecutionTrace)) by {
                assert forall|t: int| 0 <= t < head.len() implies head[t] != LogStep::SaveExecutionTrace by {
                    if t > 0 {
                        assert(head[t] == edges[t - 1]);
                    }
                }
            }
            assert(!cov.contains(LogStep::SaveExecutionTrace)) by {
                assert forall|t: int| 0 <= t < cov.len() implies cov[t] != LogStep::SaveExecutionTrace by {}
            }
            if trace_configured(s, kind) {
                assert(trace[0] == LogStep::SaveExecutionTrace);
            } else {
                assert(!trace.contains(LogStep::SaveExecutionTrace));
            }
            lemma_contains_concat(head, trace, LogStep::SaveExecutionTrace);
            lemma_contains_concat(head + trace, cov, LogStep::SaveExecutionTrace);
        },
    }
}

/// Logging a batch saves an execution trace exactly when some message of the
/// batch is of a kind whose trace the settings ask to save.
pub proof fn lemma_traces_saved(s: Tsffs, kinds: Seq<FuzzerMessageKind>, n: int)
    requires
        0 <= n <= kinds.len(),
    ensures
        messages_steps(s, kinds, n).0.contains(LogStep::SaveExecutionTrace)
            <==> exists|k: int| 0 <= k < n && trace_configured(s, #[trigger] kinds[k]),
    decreases n,
{
    if n > 0 {
        lemma_traces_saved(s, kinds, n - 1);
        let (before, pending) = messages_steps(s, kinds, n - 1);
        lemma_trace_saved_as_configured(s, pending, (n - 1) as usize, kinds[n - 1]);
        lemma_contains_concat(before, message_steps(s, pending, (n - 1) as usize, kinds[n - 1]).0, LogStep::SaveExecutionTrace);
        if exists|k: int| 0 <= k < n && trace_configured(s, #[trigger] kinds[k]) {
            let k = choose|k: int| 0 <= k < n && trace_configured(s, #[trigger] kinds[k]);
            if k < n - 1 {
                assert(exists|k: int| 0 <= k < n - 1 && trace_configured(s, #[trigger] kinds[k]));
            }
        }
    } else {
        assert(messages_steps(s, kinds, n).0.len() == 0);
    }
}

/// A heartbeat is logged exactly when heartbeats are on and at least the interval
/// has elapsed on the heartbeat clock, and the clock is started exactly when
/// heartbeats are on and it is not running.
pub proof fn lemma_heartbeat_steps(s: Tsffs, elapsed_secs: u64)
    ensures
        heartbeat_steps(s, elapsed_secs).contains(LogStep::Heartbeat) <==> (s.heartbeat && elapsed_secs >= s.heartbeat_interval),
        heartbeat_steps(s, elapsed_secs).contains(LogStep::StartHeartbeatClock) <==> (s.heartbeat && !s.heartbeat_clock_started),
{
    let h = heartbeat_steps(s, elapsed_secs);
    if s.heartbeat && elapsed_secs >= s.heartbeat_interval {
        assert(h[h.len() - 1] == LogStep::Heartbeat);
    }
    if s.heartbeat && !s.heartbeat_clock_started {
        assert(h[0] == LogStep::StartHeartbeatClock);
    }
    assert forall|t: int| 0 <= t < h.len() implies {
        &&& (h[t] == LogStep::Heartbeat ==> s.heartbeat && elapsed_secs >= s.heartbeat_interval)
        &&& (h[t] == LogStep::StartHeartbeatClock ==> s.heartbeat && !s.heartbeat_clock_started)
    } by {}
}

/// A message saves the symbolic coverage exactly when symbolic coverage is on and
/// the message reports an input (not a string).
pub proof fn lemma_message_saves_coverage(s: Tsffs, pending: bool, i: usize, kind: FuzzerMessageKind)
    ensures
        message_steps(s, pending, i, kind).0.contains(LogStep::SaveSymbolicCoverage)
            == (s.symbolic_coverage && kind != FuzzerMessageKind::String),
{
    let steps = message_steps(s, pending, i, kind).0;
    if s.symbolic_coverage && kind != FuzzerMessageKind::String {
        assert(steps[steps.len() - 1] == LogStep::SaveSymbolicCoverage);
    } else {
        assert forall|t: int| 0 <= t < steps.len() implies steps[t] != LogStep::SaveSymbolicCoverage by {}
    }
}

} // verus!

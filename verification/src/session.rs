use vstd::prelude::*;

use crate::app::{ensure_default_jvm_selected, ensured_selection, FocusPane};
use crate::event::{KeyCode, KeyEvent, KeyEventKind};
use crate::model::{JvmTarget, LogLevel, OperationLog, ThreadInfo, ViewId};
use crate::text::{chars_of, string_of};

verus! {

/// Log entries kept at most.
pub const MAX_LOGS: usize = 100;

/// The local time of day as `HH:MM:SS`.
///
/// Calls `chrono::Local::now()` and formats it with `%H:%M:%S`; chrono documents each field as
/// two zero-padded digits, so the text has eight characters. Which time it shows is not stated.
#[verifier::external_body]
fn clock_time_text() -> (r: String)
    ensures
        r@.len() == 8,
{
    chrono::Local::now().format("%H:%M:%S").to_string()
}

/// The log after a new entry: it comes first, and only the newest `MAX_LOGS` entries stay.
pub open spec fn logged(logs: Seq<OperationLog>, entry: OperationLog) -> Seq<OperationLog> {
    let all = seq![entry] + logs;
    if all.len() > MAX_LOGS {
        all.take(MAX_LOGS as int)
    } else {
        all
    }
}

/// Records an operation in the log, stamped with the time of day.
pub fn push_log(logs: &mut Vec<OperationLog>, level: LogLevel, action: &str, message: &str)
    ensures
        final(logs)@.len() <= MAX_LOGS || final(logs)@.len() <= old(logs)@.len(),
        final(logs)@.len() > 0,
        final(logs)@[0].level == level,
        final(logs)@[0].action@ == action@,
        final(logs)@[0].message@ == message@,
        final(logs)@[0].at@.len() == 8,
        final(logs)@ == logged(old(logs)@, final(logs)@[0]),
{
    let entry = OperationLog {
        at: clock_time_text(),
        level,
        action: string_of(chars_of(action).as_slice()),
        message: string_of(chars_of(message).as_slice()),
    };
    let ghost e = entry;
    let ghost before = logs@;
    logs.insert(0, entry);
    assert(logs@ =~= seq![e] + before);
    logs.truncate(MAX_LOGS);
    proof {
        let all = seq![e] + before;
        if all.len() <= MAX_LOGS {
            assert(logs@ =~= all);
        } else {
            assert(logs@ =~= all.take(MAX_LOGS as int));
        }
    }
}

/// `v` with `x` added at the end and its oldest entries dropped until at most `cap` remain.
pub open spec fn pushed_capped<T>(v: Seq<T>, x: T, cap: nat) -> Seq<T> {
    let all = v.push(x);
    if all.len() > cap {
        all.skip(all.len() - cap)
    } else {
        all
    }
}

/// Adds `x` at the end and drops the oldest entries until at most `cap` remain.
pub fn push_capped<T>(v: &mut Vec<T>, x: T, cap: usize)
    ensures
        final(v)@ == pushed_capped(old(v)@, x, cap as nat),
{
    let ghost all = old(v)@.push(x);
    v.push(x);
    let ghost mut dropped: int = 0;
    while v.len() > cap
        invariant
            0 <= dropped <= all.len(),
            v@ == all.skip(dropped),
            v@.len() > cap ==> true,
            dropped > 0 ==> all.len() - dropped >= cap,
        decreases v@.len(),
    {
        v.remove(0);
        proof {
            dropped = dropped + 1;
        }
        assert(v@ =~= all.skip(dropped));
    }
    proof {
        if all.len() > cap {
            assert(dropped == all.len() - cap);
        } else {
            assert(dropped == 0);
            assert(all.skip(0) =~= all);
        }
    }
}

/// Keeping a list capped never lets it grow past the cap, and the newest entry is kept.
pub proof fn lemma_pushed_capped<T>(v: Seq<T>, x: T, cap: nat)
    requires
        cap > 0,
    ensures
        pushed_capped(v, x, cap).len() <= cap || pushed_capped(v, x, cap).len() == v.len() + 1,
        pushed_capped(v, x, cap).len() == if v.len() + 1 > cap {
            cap
        } else {
            v.len() + 1
        },
        pushed_capped(v, x, cap).last() == x,
{
}

/// How many threads are in each state.
#[derive(Clone, Copy, PartialEq, Eq, Structural, Debug)]
pub struct ThreadCounts {
    pub runnable: usize,
    pub waiting: usize,
    pub timed_waiting: usize,
    pub blocked: usize,
    pub other: usize,
}

/// How many of the first `n` threads are in `state`.
pub open spec fn count_state(threads: Seq<ThreadInfo>, state: Seq<char>, n: int) -> nat
    decreases n,
{
    if n <= 0 {
        0
    } else {
        count_state(threads, state, n - 1) + if threads[n - 1].state@ == state {
            1nat
        } else {
            0nat
        }
    }
}

/// How many of the first `n` threads are in none of the four named states.
pub open spec fn count_other(threads: Seq<ThreadInfo>, n: int) -> nat
    decreases n,
{
    if n <= 0 {
        0
    } else {
        count_other(threads, n - 1) + if threads[n - 1].state@ == "RUNNABLE"@
            || threads[n - 1].state@ == "WAITING"@ || threads[n - 1].state@ == "TIMED_WAITING"@
            || threads[n - 1].state@ == "BLOCKED"@ {
            0nat
        } else {
            1nat
        }
    }
}

/// Counts the threads of a dump by state.
pub fn thread_state_counts(threads: &[ThreadInfo]) -> (c: ThreadCounts)
    ensures
        c.runnable == count_state(threads@, "RUNNABLE"@, threads@.len() as int),
        c.waiting == count_state(threads@, "WAITING"@, threads@.len() as int),
        c.timed_waiting == count_state(threads@, "TIMED_WAITING"@, threads@.len() as int),
        c.blocked == count_state(threads@, "BLOCKED"@, threads@.len() as int),
        c.other == count_other(threads@, threads@.len() as int),
{
    let r = chars_of("RUNNABLE");
    let w = chars_of("WAITING");
    let t = chars_of("TIMED_WAITING");
    let b = chars_of("BLOCKED");
    let mut c = ThreadCounts { runnable: 0, waiting: 0, timed_waiting: 0, blocked: 0, other: 0 };
    proof {
        lemma_state_names_distinct();
    }
    let mut i: usize = 0;
    while i < threads.len()
        invariant
            i <= threads@.len(),
            r@ == "RUNNABLE"@,
            w@ == "WAITING"@,
            t@ == "TIMED_WAITING"@,
            b@ == "BLOCKED"@,
            c.runnable == count_state(threads@, "RUNNABLE"@, i as int),
            c.waiting == count_state(threads@, "WAITING"@, i as int),
            c.timed_waiting == count_state(threads@, "TIMED_WAITING"@, i as int),
            c.blocked == count_state(threads@, "BLOCKED"@, i as int),
            c.other == count_other(threads@, i as int),
            c.runnable + c.waiting + c.timed_waiting + c.blocked + c.other == i,
            "RUNNABLE"@ != "WAITING"@,
            "RUNNABLE"@ != "TIMED_WAITING"@,
            "RUNNABLE"@ != "BLOCKED"@,
            "WAITING"@ != "TIMED_WAITING"@,
            "WAITING"@ != "BLOCKED"@,
            "TIMED_WAITING"@ != "BLOCKED"@,
        decreases threads@.len() - i,
    {
        let s = chars_of(threads[i].state.as_str());
        if crate::jvm::same_chars(s.as_slice(), r.as_slice()) {
            c.runnable = c.runnable + 1;
        } else if crate::jvm::same_chars(s.as_slice(), w.as_slice()) {
            c.waiting = c.waiting + 1;
        } else if crate::jvm::same_chars(s.as_slice(), t.as_slice()) {
            c.timed_waiting = c.timed_waiting + 1;
        } else if crate::jvm::same_chars(s.as_slice(), b.as_slice()) {
            c.blocked = c.blocked + 1;
        } else {
            c.other = c.other + 1;
        }
        i = i + 1;
    }
    c
}

/// Every thread lands in exactly one count.
pub proof fn lemma_thread_counts_total(threads: Seq<ThreadInfo>, n: int)
    requires
        0 <= n <= threads.len(),
    ensures
        count_state(threads, "RUNNABLE"@, n) + count_state(threads, "WAITING"@, n) + count_state(
            threads,
            "TIMED_WAITING"@,
            n,
        ) + count_state(threads, "BLOCKED"@, n) + count_other(threads, n) == n,
    decreases n,
{
    if n > 0 {
        lemma_thread_counts_total(threads, n - 1);
        lemma_state_names_distinct();
    }
}

/// The four named thread states differ from each other.
pub proof fn lemma_state_names_distinct()
    ensures
        "RUNNABLE"@ != "WAITING"@,
        "RUNNABLE"@ != "TIMED_WAITING"@,
        "RUNNABLE"@ != "BLOCKED"@,
        "WAITING"@ != "TIMED_WAITING"@,
        "WAITING"@ != "BLOCKED"@,
        "TIMED_WAITING"@ != "BLOCKED"@,
{
    reveal_strlit("RUNNABLE");
    reveal_strlit("WAITING");
    reveal_strlit("TIMED_WAITING");
    reveal_strlit("BLOCKED");
    assert("RUNNABLE"@.len() != "WAITING"@.len());
    assert("RUNNABLE"@.len() != "TIMED_WAITING"@.len());
    assert("RUNNABLE"@.len() != "BLOCKED"@.len());
    assert("WAITING"@.len() != "TIMED_WAITING"@.len());
    assert("WAITING"@[0] != "BLOCKED"@[0]);
    assert("TIMED_WAITING"@.len() != "BLOCKED"@.len());
}

/// Thread `i` of a dump becomes a CPU sample: it has frames, and when only runnable threads
/// are sampled it is runnable.
pub open spec fn sampled_thread(threads: Seq<ThreadInfo>, thread_status: Seq<char>, i: int) -> bool {
    threads[i].frames.len() > 0 && (thread_status != "Runnable"@ || threads[i].state@
        == "RUNNABLE"@)
}

/// The positions of the threads of a dump that become CPU samples, in order.
pub fn sampled_threads(threads: &[ThreadInfo], thread_status: &str) -> (out: Vec<usize>)
    ensures
        out@.map_values(|x: usize| x as int) == crate::app::positions_where(
            |i: int| sampled_thread(threads@, thread_status@, i),
            threads@.len() as int,
        ),
{
    let ghost pick = |i: int| sampled_thread(threads@, thread_status@, i);
    let runnable_only = crate::jvm::same_chars(
        chars_of(thread_status).as_slice(),
        chars_of("Runnable").as_slice(),
    );
    let r = chars_of("RUNNABLE");
    let mut out: Vec<usize> = Vec::new();
    let mut n: usize = 0;
    while n < threads.len()
        invariant
            n <= threads@.len(),
            runnable_only == (thread_status@ == "Runnable"@),
            r@ == "RUNNABLE"@,
            pick == (|i: int| sampled_thread(threads@, thread_status@, i)),
            out@.map_values(|x: usize| x as int) == crate::app::positions_where(pick, n as int),
        decreases threads@.len() - n,
    {
        let keep = threads[n].frames.len() > 0 && (!runnable_only || crate::jvm::same_chars(
            chars_of(threads[n].state.as_str()).as_slice(),
            r.as_slice(),
        ));
        assert(keep == pick(n as int));
        if keep {
            out.push(n);
        }
        n = n + 1;
        proof {
            assert(out@.map_values(|x: usize| x as int) =~= crate::app::positions_where(
                pick,
                n as int,
            ));
        }
    }
    out
}

/// The views that show the live memory.
pub open spec fn is_memory_view_spec(view: ViewId) -> bool {
    view == ViewId::LiveAllObjects || view == ViewId::LiveRecordedObjects || view
        == ViewId::LiveAllocationCallTree || view == ViewId::LiveAllocationHotSpots || view
        == ViewId::LiveClassTracker || view == ViewId::HeapClasses
}

/// Whether a view shows the live memory.
pub fn is_memory_view(view: ViewId) -> (b: bool)
    ensures
        b == is_memory_view_spec(view),
{
    match view {
        ViewId::LiveAllObjects | ViewId::LiveRecordedObjects | ViewId::LiveAllocationCallTree
        | ViewId::LiveAllocationHotSpots | ViewId::LiveClassTracker | ViewId::HeapClasses => true,
        _ => false,
    }
}

/// The views that show threads.
pub open spec fn is_thread_view_spec(view: ViewId) -> bool {
    view == ViewId::ThreadsHistory || view == ViewId::ThreadsMonitor || view
        == ViewId::ThreadsDumps
}

/// Whether a view shows threads.
pub fn is_thread_view(view: ViewId) -> (b: bool)
    ensures
        b == is_thread_view_spec(view),
{
    match view {
        ViewId::ThreadsHistory | ViewId::ThreadsMonitor | ViewId::ThreadsDumps => true,
        _ => false,
    }
}

/// What the navigation keys act on.
#[derive(Clone, Copy, PartialEq, Eq, Structural, Debug)]
pub enum PaneTarget {
    /// The JVM list of the start center.
    Jvms,
    /// The rows of the CPU hot spots.
    CpuHotspots,
    /// The rows of the allocation hot spots.
    AllocationHotspots,
    /// The class rows of a memory view.
    MemoryRows,
    /// The rows of the database view.
    DatabaseRows,
    /// The sidebar.
    Sidebar,
}

/// What the navigation keys act on: the JVM list on the start center; with the main pane in
/// focus, the rows of the view shown (the CPU hot spots only once there are rows); else the
/// sidebar.
pub open spec fn pane_target_spec(view: ViewId, focus: FocusPane, cpu_has_rows: bool) -> PaneTarget {
    if view == ViewId::StartCenter {
        PaneTarget::Jvms
    } else if focus == FocusPane::Main && view == ViewId::CpuHotSpots && cpu_has_rows {
        PaneTarget::CpuHotspots
    } else if focus == FocusPane::Main && view == ViewId::LiveAllocationHotSpots {
        PaneTarget::AllocationHotspots
    } else if focus == FocusPane::Main && is_memory_view_spec(view) {
        PaneTarget::MemoryRows
    } else if focus == FocusPane::Main && view == ViewId::DatabasesJdbc {
        PaneTarget::DatabaseRows
    } else {
        PaneTarget::Sidebar
    }
}

/// What the navigation keys act on.
pub fn pane_target(view: ViewId, focus: FocusPane, cpu_has_rows: bool) -> (t: PaneTarget)
    ensures
        t == pane_target_spec(view, focus, cpu_has_rows),
{
    if view == ViewId::StartCenter {
        PaneTarget::Jvms
    } else if focus == FocusPane::Main && view == ViewId::CpuHotSpots && cpu_has_rows {
        PaneTarget::CpuHotspots
    } else if focus == FocusPane::Main && view == ViewId::LiveAllocationHotSpots {
        PaneTarget::AllocationHotspots
    } else if focus == FocusPane::Main && is_memory_view(view) {
        PaneTarget::MemoryRows
    } else if focus == FocusPane::Main && view == ViewId::DatabasesJdbc {
        PaneTarget::DatabaseRows
    } else {
        PaneTarget::Sidebar
    }
}

/// How a move of `delta` rows steps through the JVM list: forward when `delta` is not negative,
/// and at least one step.
pub fn jvm_steps(delta: isize) -> (r: (bool, usize))
    requires
        delta != isize::MIN,
    ensures
        r.0 == (delta >= 0),
        r.1 == (if delta == 0 {
            1
        } else if delta > 0 {
            delta as int
        } else {
            -delta
        }),
{
    if delta >= 0 {
        if delta == 0 {
            (true, 1)
        } else {
            (true, delta as usize)
        }
    } else {
        (false, (-delta) as usize)
    }
}

/// What a refresh fetches besides the JVM list.
#[derive(Clone, Copy, PartialEq, Eq, Structural, Debug)]
pub struct RefreshPlan {
    /// The telemetry of the selected JVM.
    pub telemetry: bool,
    /// The live memory.
    pub live_memory: bool,
    /// A thread dump.
    pub thread_dump: bool,
}

/// What a refresh fetches: telemetry once a JVM is selected, the live memory on a memory view,
/// and a thread dump on a thread view.
pub fn refresh_plan(view: ViewId, has_selected_jvm: bool) -> (p: RefreshPlan)
    ensures
        p.telemetry == has_selected_jvm,
        p.live_memory == is_memory_view_spec(view),
        p.thread_dump == is_thread_view_spec(view),
{
    RefreshPlan {
        telemetry: has_selected_jvm,
        live_memory: is_memory_view(view),
        thread_dump: is_thread_view(view),
    }
}

/// A phase of the overhead benchmark.
#[derive(Clone, Copy, PartialEq, Eq, Structural, Debug)]
pub enum BenchmarkPhase {
    /// The baseline, without recording.
    Idle,
    /// With the agent recording.
    Profiling,
    /// Without recording again, after it.
    IdleAfter,
}

/// The benchmark phase that follows a finished one: the baseline, profiling and the idle run
/// after it, in that order; none after the last.
pub fn next_benchmark_phase(phase: BenchmarkPhase) -> (r: Option<BenchmarkPhase>)
    ensures
        r == match phase {
            BenchmarkPhase::Idle => Some(BenchmarkPhase::Profiling),
            BenchmarkPhase::Profiling => Some(BenchmarkPhase::IdleAfter),
            BenchmarkPhase::IdleAfter => None::<BenchmarkPhase>,
        },
{
    match phase {
        BenchmarkPhase::Idle => Some(BenchmarkPhase::Profiling),
        BenchmarkPhase::Profiling => Some(BenchmarkPhase::IdleAfter),
        BenchmarkPhase::IdleAfter => None,
    }
}

/// What starting a session on the selected JVM does.
#[derive(Clone, Copy, PartialEq, Eq, Structural, Debug)]
pub enum SessionStart {
    /// No JVM is selected and none is known: warn.
    NoJvm,
    /// Select `pid`, show the telemetry overview and refresh it, and queue the first CPU
    /// recording on `pid` when `start_cpu`.
    Start { pid: u32, start_cpu: bool },
}

/// What starting a session does: keep the selected JVM, else pick the default one (the first
/// likely demo server, else the first JVM); with none, warn; else show the telemetry overview
/// and queue one CPU recording start unless a recording runs or a start is already queued.
pub fn session_start(
    jvms: &[JvmTarget],
    selected: Option<u32>,
    cpu_recording: bool,
    start_pending: bool,
) -> (r: SessionStart)
    ensures
        r == (match ensured_selection(jvms@, selected) {
            None => SessionStart::NoJvm,
            Some(pid) => SessionStart::Start { pid, start_cpu: !cpu_recording && !start_pending },
        }),
{
    match ensure_default_jvm_selected(jvms, selected) {
        None => SessionStart::NoJvm,
        Some(pid) => SessionStart::Start { pid, start_cpu: !cpu_recording && !start_pending },
    }
}

/// What a key does while the benchmark waits between phases.
#[derive(Clone, Copy, PartialEq, Eq, Structural, Debug)]
pub enum BenchmarkKey {
    /// Leave the benchmark.
    Quit,
    /// Drop the results and start again from the baseline.
    Reset,
    /// Run the current phase.
    Run,
    /// Nothing.
    Ignore,
}

/// What a key does while the benchmark waits: on a press or a repeat, `q` and Esc quit, `r`
/// resets and Enter runs the current phase; any other key, and any release, does nothing.
pub fn benchmark_key(key: KeyEvent) -> (r: BenchmarkKey)
    ensures
        r == (if key.kind == KeyEventKind::Release {
            BenchmarkKey::Ignore
        } else {
            match key.code {
                KeyCode::Char('q') | KeyCode::Esc => BenchmarkKey::Quit,
                KeyCode::Char('r') => BenchmarkKey::Reset,
                KeyCode::Enter => BenchmarkKey::Run,
                _ => BenchmarkKey::Ignore,
            }
        }),
{
    match key.kind {
        KeyEventKind::Release => BenchmarkKey::Ignore,
        _ => match key.code {
            KeyCode::Char('q') | KeyCode::Esc => BenchmarkKey::Quit,
            KeyCode::Char('r') => BenchmarkKey::Reset,
            KeyCode::Enter => BenchmarkKey::Run,
            _ => BenchmarkKey::Ignore,
        },
    }
}

/// Whether a fresh JVM list leaves the first CPU recording to start on the next tick: away from
/// the start center, with a JVM selected and no recording running.
pub fn wants_initial_cpu_start(view: ViewId, jvm_selected: bool, cpu_recording: bool) -> (b: bool)
    ensures
        b == (view != ViewId::StartCenter && jvm_selected && !cpu_recording),
{
    view != ViewId::StartCenter && jvm_selected && !cpu_recording
}

/// What the first CPU recording of a session does.
#[derive(Clone, Copy, PartialEq, Eq, Structural, Debug)]
pub enum InitialCpuStart {
    /// A recording already runs: nothing.
    AlreadyRecording,
    /// No JVM is selected yet: wait for the JVM list.
    WaitForJvm,
    /// Start recording on the selected JVM.
    Start,
}

/// What the first CPU recording of a session does: nothing while one runs, wait while no JVM is
/// selected, else start.
pub fn initial_cpu_start(cpu_recording: bool, jvm_selected: bool) -> (r: InitialCpuStart)
    ensures
        r == (if cpu_recording {
            InitialCpuStart::AlreadyRecording
        } else if !jvm_selected {
            InitialCpuStart::WaitForJvm
        } else {
            InitialCpuStart::Start
        }),
{
    if cpu_recording {
        InitialCpuStart::AlreadyRecording
    } else if !jvm_selected {
        InitialCpuStart::WaitForJvm
    } else {
        InitialCpuStart::Start
    }
}

/// How many recordings run.
pub fn active_recording_count(cpu: bool, memory: bool, database: bool) -> (n: usize)
    ensures
        n == (if cpu {
            1nat
        } else {
            0nat
        }) + (if memory {
            1nat
        } else {
            0nat
        }) + (if database {
            1nat
        } else {
            0nat
        }),
{
    (if cpu {
        1
    } else {
        0
    }) + (if memory {
        1
    } else {
        0
    }) + (if database {
        1
    } else {
        0
    })
}

/// Where the CPU recording stands.
#[derive(Clone, Copy, PartialEq, Eq, Structural, Debug)]
pub struct CpuRecordingFlags {
    pub recording: bool,
    pub start_pending: bool,
    pub stop_pending: bool,
    pub agent_enabled: bool,
}

/// What the recording key asks for.
#[derive(Clone, Copy, PartialEq, Eq, Structural, Debug)]
pub enum RecordingRequest {
    StartSession,
    AlreadyStopping,
    Stop,
    AlreadyStarting,
    Start,
}

/// What the recording key asks for: on the start center a session; else stopping a running
/// recording and starting one that is off, unless that is already under way.
pub open spec fn recording_request_spec(on_start_center: bool, f: CpuRecordingFlags) -> RecordingRequest {
    if on_start_center {
        RecordingRequest::StartSession
    } else if f.recording {
        if f.stop_pending {
            RecordingRequest::AlreadyStopping
        } else {
            RecordingRequest::Stop
        }
    } else if f.start_pending {
        RecordingRequest::AlreadyStarting
    } else {
        RecordingRequest::Start
    }
}

/// What the recording key asks for.
pub fn recording_request(on_start_center: bool, f: CpuRecordingFlags) -> (r: RecordingRequest)
    ensures
        r == recording_request_spec(on_start_center, f),
{
    if on_start_center {
        RecordingRequest::StartSession
    } else if f.recording {
        if f.stop_pending {
            RecordingRequest::AlreadyStopping
        } else {
            RecordingRequest::Stop
        }
    } else if f.start_pending {
        RecordingRequest::AlreadyStarting
    } else {
        RecordingRequest::Start
    }
}

/// The recording flags once a start or stop request has come back, and how to log it: a stop
/// clears its pending mark and, when it worked, the recording; a start clears its pending mark
/// and sets the recording (and the agent) when it worked, else clears the recording.
pub open spec fn after_recording_result(f: CpuRecordingFlags, stop: bool, success: bool) -> (
    CpuRecordingFlags,
    LogLevel,
) {
    if stop {
        (
            CpuRecordingFlags {
                stop_pending: false,
                recording: if success {
                    false
                } else {
                    f.recording
                },
                ..f
            },
            if success {
                LogLevel::Success
            } else {
                LogLevel::Error
            },
        )
    } else {
        (
            CpuRecordingFlags {
                start_pending: false,
                recording: success,
                agent_enabled: if success {
                    true
                } else {
                    f.agent_enabled
                },
                ..f
            },
            if success {
                LogLevel::Success
            } else {
                LogLevel::Error
            },
        )
    }
}

/// Applies the answer to a start or stop request to the recording flags, and gives the level
/// to log it with.
pub fn apply_recording_result(f: &mut CpuRecordingFlags, stop: bool, success: bool) -> (l: LogLevel)
    ensures
        (*final(f), l) == after_recording_result(*old(f), stop, success),
{
    if stop {
        f.stop_pending = false;
        if success {
            f.recording = false;
            LogLevel::Success
        } else {
            LogLevel::Error
        }
    } else {
        f.start_pending = false;
        if success {
            f.agent_enabled = true;
            f.recording = true;
            LogLevel::Success
        } else {
            f.recording = false;
            LogLevel::Error
        }
    }
}

/// What is known at a tick of the automatic refresh.
#[derive(Clone, Copy, PartialEq, Eq, Structural, Debug)]
pub struct TickState {
    pub jvm_selected: bool,
    pub cpu_recording: bool,
    pub pending_initial_cpu_start: bool,
    pub view: ViewId,
    pub update_due: bool,
    pub telemetry_idle: bool,
    pub thread_idle: bool,
    pub memory_idle: bool,
    pub memory_loaded_once: bool,
    pub thread_refresh_due: bool,
}

/// What a tick of the automatic refresh does.
#[derive(Clone, Copy, PartialEq, Eq, Structural, Debug)]
pub struct TickPlan {
    pub start_initial_cpu: bool,
    pub restart_tick: bool,
    pub refresh_telemetry: bool,
    pub fetch_cpu: bool,
    pub mark_memory_loaded: bool,
    pub refresh_memory: bool,
    pub restart_thread_refresh: bool,
    pub capture_thread_dump: bool,
}

/// What a tick does: nothing without a selected JVM and a recording; else the deferred first
/// CPU recording outside the start center, telemetry and CPU data when an update is due and
/// their queries are idle, the live memory once on a memory view, and a thread dump every few
/// seconds on a thread view.
pub open spec fn tick_plan_spec(s: TickState) -> TickPlan {
    if !s.jvm_selected && !s.cpu_recording {
        TickPlan {
            start_initial_cpu: false,
            restart_tick: false,
            refresh_telemetry: false,
            fetch_cpu: false,
            mark_memory_loaded: false,
            refresh_memory: false,
            restart_thread_refresh: false,
            capture_thread_dump: false,
        }
    } else {
        let memory_first = !s.memory_loaded_once && s.jvm_selected && is_memory_view_spec(s.view);
        let threads_due = is_thread_view_spec(s.view) && s.thread_refresh_due;
        TickPlan {
            start_initial_cpu: s.pending_initial_cpu_start && s.view != ViewId::StartCenter,
            restart_tick: s.update_due,
            refresh_telemetry: s.update_due && s.jvm_selected && s.telemetry_idle,
            fetch_cpu: s.update_due && s.cpu_recording && s.thread_idle,
            mark_memory_loaded: memory_first,
            refresh_memory: memory_first && s.memory_idle,
            restart_thread_refresh: threads_due,
            capture_thread_dump: threads_due && s.thread_idle,
        }
    }
}

/// What a tick of the automatic refresh does.
pub fn tick_plan(s: TickState) -> (p: TickPlan)
    ensures
        p == tick_plan_spec(s),
{
    if !s.jvm_selected && !s.cpu_recording {
        return TickPlan {
            start_initial_cpu: false,
            restart_tick: false,
            refresh_telemetry: false,
            fetch_cpu: false,
            mark_memory_loaded: false,
            refresh_memory: false,
            restart_thread_refresh: false,
            capture_thread_dump: false,
        };
    }
    let memory_first = !s.memory_loaded_once && s.jvm_selected && is_memory_view(s.view);
    let threads_due = is_thread_view(s.view) && s.thread_refresh_due;
    TickPlan {
        start_initial_cpu: s.pending_initial_cpu_start && s.view != ViewId::StartCenter,
        restart_tick: s.update_due,
        refresh_telemetry: s.update_due && s.jvm_selected && s.telemetry_idle,
        fetch_cpu: s.update_due && s.cpu_recording && s.thread_idle,
        mark_memory_loaded: memory_first,
        refresh_memory: memory_first && s.memory_idle,
        restart_thread_refresh: threads_due,
        capture_thread_dump: threads_due && s.thread_idle,
    }
}


/// The log never holds more than `MAX_LOGS` entries, and the newest comes first.
pub proof fn lemma_logged_cap(logs: Seq<OperationLog>, entry: OperationLog)
    ensures
        logged(logs, entry).len() <= MAX_LOGS,
        logs.len() < MAX_LOGS ==> logged(logs, entry).len() == logs.len() + 1,
        logged(logs, entry)[0] == entry,
        forall|i: int|
            0 <= i < logged(logs, entry).len() - 1 ==> logged(logs, entry)[i + 1] == logs[i],
{
}

} // verus!

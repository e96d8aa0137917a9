use vstd::prelude::*;

verus! {

/// A group of views in the sidebar.
#[derive(Clone, Copy, PartialEq, Eq, Structural, PartialOrd, Ord, Debug)]
pub enum Category {
    Telemetries,
    CpuViews,
    LiveMemory,
    Databases,
}

/// Every view the profiler can show.
#[derive(Clone, Copy, PartialEq, Eq, Structural, Debug)]
pub enum ViewId {
    StartCenter,
    TeleOverview,
    TeleMemory,
    TeleGc,
    TeleClasses,
    TeleThreads,
    TeleCpuLoad,
    LiveAllObjects,
    LiveRecordedObjects,
    LiveAllocationCallTree,
    LiveAllocationHotSpots,
    LiveClassTracker,
    HeapStart,
    HeapClasses,
    HeapBiggestObjects,
    HeapReferences,
    CpuCallTree,
    CpuHotSpots,
    CpuCallGraph,
    CpuTracer,
    CpuComplexity,
    CpuOutliers,
    ThreadsHistory,
    ThreadsMonitor,
    ThreadsDumps,
    DatabasesJdbc,
    DatabasesJpa,
    DatabasesMongo,
    DatabasesCassandra,
}

/// The number of sidebar categories.
pub const CATEGORY_COUNT: usize = 4;

/// The category at sidebar position `i`.
pub open spec fn category_at(i: int) -> Category {
    if i == 0 {
        Category::Telemetries
    } else if i == 1 {
        Category::CpuViews
    } else if i == 2 {
        Category::LiveMemory
    } else {
        Category::Databases
    }
}

/// The views listed under the category at sidebar position `i`.
pub open spec fn category_views(i: int) -> Seq<ViewId> {
    if i == 0 {
        seq![ViewId::TeleOverview]
    } else if i == 1 {
        seq![ViewId::CpuHotSpots]
    } else if i == 2 {
        seq![ViewId::LiveAllocationHotSpots]
    } else {
        seq![ViewId::DatabasesJdbc]
    }
}

/// The sidebar title of the category at position `i`.
pub open spec fn category_title(i: int) -> Seq<char> {
    if i == 0 {
        "Telemetries"@
    } else if i == 1 {
        "CPU"@
    } else if i == 2 {
        "Memory"@
    } else {
        "Databases"@
    }
}

/// The category at sidebar position `i`.
pub fn category_at_exec(i: usize) -> (c: Category)
    requires
        i < CATEGORY_COUNT,
    ensures
        c == category_at(i as int),
{
    if i == 0 {
        Category::Telemetries
    } else if i == 1 {
        Category::CpuViews
    } else if i == 2 {
        Category::LiveMemory
    } else {
        Category::Databases
    }
}

/// The sidebar title of the category at position `i`.
pub fn category_title_exec(i: usize) -> (t: &'static str)
    requires
        i < CATEGORY_COUNT,
    ensures
        t@ == category_title(i as int),
{
    if i == 0 {
        "Telemetries"
    } else if i == 1 {
        "CPU"
    } else if i == 2 {
        "Memory"
    } else {
        "Databases"
    }
}

/// The views listed under the category at sidebar position `i`.
pub fn category_views_exec(i: usize) -> (v: Vec<ViewId>)
    requires
        i < CATEGORY_COUNT,
    ensures
        v@ == category_views(i as int),
{
    let view = if i == 0 {
        ViewId::TeleOverview
    } else if i == 1 {
        ViewId::CpuHotSpots
    } else if i == 2 {
        ViewId::LiveAllocationHotSpots
    } else {
        ViewId::DatabasesJdbc
    };
    let mut v: Vec<ViewId> = Vec::new();
    v.push(view);
    v
}

/// The title shown for a view.
pub open spec fn view_label(v: ViewId) -> Seq<char> {
    match v {
        ViewId::StartCenter => "Start Center"@,
        ViewId::TeleOverview => "Overview"@,
        ViewId::TeleMemory => "Memory"@,
        ViewId::TeleGc => "GC Activity"@,
        ViewId::TeleClasses => "Classes"@,
        ViewId::TeleThreads => "Threads"@,
        ViewId::TeleCpuLoad => "CPU Load"@,
        ViewId::LiveAllObjects => "All Objects"@,
        ViewId::LiveRecordedObjects => "Recorded Objects"@,
        ViewId::LiveAllocationCallTree => "Alloc Call Tree"@,
        ViewId::LiveAllocationHotSpots => "Alloc Hot Spots"@,
        ViewId::LiveClassTracker => "Class Tracker"@,
        ViewId::HeapStart => "Start"@,
        ViewId::HeapClasses => "Classes"@,
        ViewId::HeapBiggestObjects => "Biggest Objects"@,
        ViewId::HeapReferences => "References"@,
        ViewId::CpuCallTree => "Call Tree"@,
        ViewId::CpuHotSpots => "Hot Spots"@,
        ViewId::CpuCallGraph => "Call Graph"@,
        ViewId::CpuOutliers => "Outliers"@,
        ViewId::CpuComplexity => "Complexity"@,
        ViewId::CpuTracer => "Call Tracer"@,
        ViewId::ThreadsHistory => "Thread History"@,
        ViewId::ThreadsMonitor => "Thread Monitor"@,
        ViewId::ThreadsDumps => "Thread Dumps"@,
        ViewId::DatabasesJdbc => "JDBC"@,
        ViewId::DatabasesJpa => "JPA"@,
        ViewId::DatabasesMongo => "MongoDB"@,
        ViewId::DatabasesCassandra => "Cassandra"@,
    }
}

impl ViewId {
    /// The title shown for this view.
    pub fn label(&self) -> (l: &'static str)
        ensures
            l@ == view_label(*self),
    {
        match self {
            ViewId::StartCenter => "Start Center",
            ViewId::TeleOverview => "Overview",
            ViewId::TeleMemory => "Memory",
            ViewId::TeleGc => "GC Activity",
            ViewId::TeleClasses => "Classes",
            ViewId::TeleThreads => "Threads",
            ViewId::TeleCpuLoad => "CPU Load",
            ViewId::LiveAllObjects => "All Objects",
            ViewId::LiveRecordedObjects => "Recorded Objects",
            ViewId::LiveAllocationCallTree => "Alloc Call Tree",
            ViewId::LiveAllocationHotSpots => "Alloc Hot Spots",
            ViewId::LiveClassTracker => "Class Tracker",
            ViewId::HeapStart => "Start",
            ViewId::HeapClasses => "Classes",
            ViewId::HeapBiggestObjects => "Biggest Objects",
            ViewId::HeapReferences => "References",
            ViewId::CpuCallTree => "Call Tree",
            ViewId::CpuHotSpots => "Hot Spots",
            ViewId::CpuCallGraph => "Call Graph",
            ViewId::CpuOutliers => "Outliers",
            ViewId::CpuComplexity => "Complexity",
            ViewId::CpuTracer => "Call Tracer",
            ViewId::ThreadsHistory => "Thread History",
            ViewId::ThreadsMonitor => "Thread Monitor",
            ViewId::ThreadsDumps => "Thread Dumps",
            ViewId::DatabasesJdbc => "JDBC",
            ViewId::DatabasesJpa => "JPA",
            ViewId::DatabasesMongo => "MongoDB",
            ViewId::DatabasesCassandra => "Cassandra",
        }
    }
}

/// A local JVM found by `jps`.
#[derive(Clone, Debug)]
pub struct JvmTarget {
    pub pid: u32,
    pub display_name: String,
    pub main_class: String,
    pub arguments: String,
    pub profiled: bool,
}

/// One entry of the operation log.
#[derive(Clone, Debug)]
pub struct OperationLog {
    pub at: String,
    pub level: LogLevel,
    pub action: String,
    pub message: String,
}

/// Severity of an operation log entry.
#[derive(Clone, Copy, PartialEq, Eq, Structural, Debug)]
pub enum LogLevel {
    Info,
    Success,
    Warn,
    Error,
}

/// Garbage-collector counters of a JVM.
#[derive(Clone, Copy, PartialEq, Eq, Structural, Debug)]
pub struct GcSnapshot {
    pub count: u64,
    pub time_ms: u64,
}

/// One row of a class histogram.
#[derive(Clone, Debug)]
pub struct MemoryClassRow {
    pub rank: usize,
    pub name: String,
    pub instances: u64,
    pub bytes: u64,
    pub delta_instances: i64,
    pub delta_bytes: i64,
}

/// One allocation site of the allocation tree.
#[derive(Clone, Debug)]
pub struct AllocationHotSpotRow {
    pub node_id: i32,
    pub parent_id: Option<i32>,
    pub depth: usize,
    pub name: String,
    pub allocated_type: String,
    pub bytes: u64,
    pub allocations: u64,
}

/// A class histogram together with the allocation tree.
#[derive(Clone, Debug)]
pub struct LiveMemorySnapshot {
    pub rows: Vec<MemoryClassRow>,
    pub allocation_hotspots: Vec<AllocationHotSpotRow>,
}

/// A heap snapshot that was taken.
#[derive(Clone, Debug)]
pub struct HeapSnapshotInfo {
    pub id: usize,
    pub created_at: String,
    pub path: Option<String>,
    pub classes: Vec<MemoryClassRow>,
    pub total_instances: u64,
    pub total_bytes: u64,
}

/// One frame of a Java stack trace.
#[derive(Clone, Debug)]
pub struct StackTraceElement {
    pub class_name: String,
    pub method_name: String,
    pub descriptor: String,
    pub file_name: Option<String>,
    pub line_number: Option<u32>,
    pub native_method: bool,
    pub raw: String,
}

/// One thread of a thread dump.
#[derive(Clone, Debug)]
pub struct ThreadInfo {
    pub name: String,
    pub state: String,
    pub nid: String,
    pub top_frame: String,
    pub frames: Vec<String>,
    pub stack_trace: Vec<StackTraceElement>,
    pub lock_info: Option<LockInfo>,
}

/// The first monitor line seen for a thread.
#[derive(Clone, Debug)]
pub struct LockInfo {
    pub lock_class: String,
    pub lock_identity: u64,
    pub waiting_on: Option<String>,
    pub owning: Option<String>,
}

/// A captured thread dump.
#[derive(Clone, Debug)]
pub struct ThreadDump {
    pub captured_at: String,
    pub raw: String,
    pub threads: Vec<ThreadInfo>,
}

/// A caller-to-callee edge of the instrumented method graph.
#[derive(Clone, Copy, PartialEq, Eq, Structural, Debug)]
pub struct CpuMethodEdgeRow {
    pub from_method_id: i32,
    pub to_method_id: i32,
    pub call_count: u64,
    pub total_duration_nano: u64,
}

/// State of a JFR recording.
#[derive(Clone, Copy, PartialEq, Eq, Structural, Debug)]
pub enum JfrRecordingState {
    Idle,
    Running,
    Stopped,
}

} // verus!

verus! {

use crate::text::{chars_of, decimal, decimal_chars, push_all, push_str, string_of};

/// `class.method` followed by the descriptor.
pub open spec fn qualified_name(class_name: Seq<char>, method_name: Seq<char>, descriptor: Seq<char>) -> Seq<char> {
    class_name + "."@ + method_name + descriptor
}

/// The source location of a frame, as a stack trace prints it.
pub open spec fn frame_location(file: Option<Seq<char>>, line: Option<u32>, native: bool) -> Seq<char> {
    match (file, line) {
        (Some(f), Some(l)) => "("@ + f + ":"@ + decimal(l as nat) + ")"@,
        (Some(f), None) => "("@ + f + ")"@,
        (None, Some(l)) => "Unknown:"@ + decimal(l as nat),
        (None, None) => if native {
            "(Native Method)"@
        } else {
            "(Unknown Source)"@
        },
    }
}

/// The file name of an optional string, as a sequence.
pub open spec fn opt_view(o: Option<String>) -> Option<Seq<char>> {
    match o {
        Some(s) => Some(s@),
        None => None,
    }
}

impl StackTraceElement {
    /// `class.method` followed by the descriptor.
    pub fn full_name(&self) -> (r: String)
        ensures
            r@ == qualified_name(self.class_name@, self.method_name@, self.descriptor@),
    {
        let mut out: Vec<char> = chars_of(self.class_name.as_str());
        push_str(&mut out, ".");
        push_str(&mut out, self.method_name.as_str());
        if !self.descriptor.as_str().is_empty() {
            push_str(&mut out, self.descriptor.as_str());
        } else {
            assert(self.descriptor@.len() == 0);
            assert(out@ + self.descriptor@ == out@);
        }
        string_of(out.as_slice())
    }

    /// The source location, as a stack trace prints it.
    pub fn location(&self) -> (r: String)
        ensures
            r@ == frame_location(opt_view(self.file_name), self.line_number, self.native_method),
    {
        let mut out: Vec<char> = Vec::new();
        match (&self.file_name, self.line_number) {
            (Some(file), Some(line)) => {
                push_str(&mut out, "(");
                push_str(&mut out, file.as_str());
                push_str(&mut out, ":");
                let d = decimal_chars(line as u64);
                push_all(&mut out, d.as_slice());
                push_str(&mut out, ")");
            },
            (Some(file), None) => {
                push_str(&mut out, "(");
                push_str(&mut out, file.as_str());
                push_str(&mut out, ")");
            },
            (None, Some(line)) => {
                push_str(&mut out, "Unknown:");
                let d = decimal_chars(line as u64);
                push_all(&mut out, d.as_slice());
            },
            (None, None) => {
                if self.native_method {
                    push_str(&mut out, "(Native Method)");
                } else {
                    push_str(&mut out, "(Unknown Source)");
                }
            },
        }
        string_of(out.as_slice())
    }
}

} // verus!

verus! {

/// The mathematical content of a stack frame.
pub struct FrameModel {
    pub class_name: Seq<char>,
    pub method_name: Seq<char>,
    pub descriptor: Seq<char>,
    pub file_name: Option<Seq<char>>,
    pub line_number: Option<u32>,
    pub native_method: bool,
    pub raw: Seq<char>,
}

impl View for StackTraceElement {
    type V = FrameModel;

    open spec fn view(&self) -> FrameModel {
        FrameModel {
            class_name: self.class_name@,
            method_name: self.method_name@,
            descriptor: self.descriptor@,
            file_name: opt_view(self.file_name),
            line_number: self.line_number,
            native_method: self.native_method,
            raw: self.raw@,
        }
    }
}

/// The mathematical content of a monitor line.
pub struct LockModel {
    pub lock_class: Seq<char>,
    pub lock_identity: u64,
    pub waiting_on: Option<Seq<char>>,
    pub owning: Option<Seq<char>>,
}

impl View for LockInfo {
    type V = LockModel;

    open spec fn view(&self) -> LockModel {
        LockModel {
            lock_class: self.lock_class@,
            lock_identity: self.lock_identity,
            waiting_on: opt_view(self.waiting_on),
            owning: opt_view(self.owning),
        }
    }
}

/// The mathematical content of a thread of a dump.
pub struct ThreadModel {
    pub name: Seq<char>,
    pub state: Seq<char>,
    pub nid: Seq<char>,
    pub top_frame: Seq<char>,
    pub frames: Seq<Seq<char>>,
    pub stack_trace: Seq<FrameModel>,
    pub lock_info: Option<LockModel>,
}

/// The views of a vector of strings.
pub open spec fn strings_view(v: Seq<String>) -> Seq<Seq<char>> {
    v.map_values(|s: String| s@)
}

/// The views of a vector of frames.
pub open spec fn frames_view(v: Seq<StackTraceElement>) -> Seq<FrameModel> {
    v.map_values(|s: StackTraceElement| s@)
}

/// The view of an optional lock.
pub open spec fn lock_view(o: Option<LockInfo>) -> Option<LockModel> {
    match o {
        Some(l) => Some(l@),
        None => None,
    }
}

impl View for ThreadInfo {
    type V = ThreadModel;

    open spec fn view(&self) -> ThreadModel {
        ThreadModel {
            name: self.name@,
            state: self.state@,
            nid: self.nid@,
            top_frame: self.top_frame@,
            frames: strings_view(self.frames@),
            stack_trace: frames_view(self.stack_trace@),
            lock_info: lock_view(self.lock_info),
        }
    }
}

} // verus!

verus! {

/// The mathematical content of a class histogram row.
pub struct ClassRowModel {
    pub rank: usize,
    pub name: Seq<char>,
    pub instances: u64,
    pub bytes: u64,
    pub delta_instances: i64,
    pub delta_bytes: i64,
}

impl View for MemoryClassRow {
    type V = ClassRowModel;

    open spec fn view(&self) -> ClassRowModel {
        ClassRowModel {
            rank: self.rank,
            name: self.name@,
            instances: self.instances,
            bytes: self.bytes,
            delta_instances: self.delta_instances,
            delta_bytes: self.delta_bytes,
        }
    }
}

} // verus!

verus! {

/// The mathematical content of an allocation hot spot row.
pub struct AllocRowModel {
    pub node_id: i32,
    pub parent_id: Option<i32>,
    pub depth: usize,
    pub name: Seq<char>,
    pub allocated_type: Seq<char>,
    pub bytes: u64,
    pub allocations: u64,
}

impl View for AllocationHotSpotRow {
    type V = AllocRowModel;

    open spec fn view(&self) -> AllocRowModel {
        AllocRowModel {
            node_id: self.node_id,
            parent_id: self.parent_id,
            depth: self.depth,
            name: self.name@,
            allocated_type: self.allocated_type@,
            bytes: self.bytes,
            allocations: self.allocations,
        }
    }
}

/// The views of a sequence of allocation rows.
pub open spec fn alloc_rows_view(v: Seq<AllocationHotSpotRow>) -> Seq<AllocRowModel> {
    v.map_values(|r: AllocationHotSpotRow| r@)
}

} // verus!

use openprofiler::attach::{default_instrument_include, native_library_file_name, TargetOs};
use openprofiler::event::{arg_value, handle_key, is_navigation_key, Command, InputMode, KeyCode, KeyEvent, KeyEventKind};
use openprofiler::model::{LogLevel, OperationLog, ThreadInfo, ViewId};
use openprofiler::session::{
    active_recording_count, apply_recording_result, benchmark_key, BenchmarkKey, is_memory_view, is_thread_view, push_capped,
    push_log, recording_request, sampled_threads, thread_state_counts, tick_plan,
    CpuRecordingFlags, RecordingRequest, TickState, MAX_LOGS,
};

fn thread(state: &str, frames: usize) -> ThreadInfo {
    ThreadInfo {
        name: "t".to_string(),
        state: state.to_string(),
        nid: String::new(),
        top_frame: String::new(),
        frames: vec!["at a.B.c()".to_string(); frames],
        stack_trace: Vec::new(),
        lock_info: None,
    }
}

#[test]
fn logs_keep_newest_first_and_cap() {
    let mut logs: Vec<OperationLog> = Vec::new();
    for i in 0..105 {
        push_log(&mut logs, LogLevel::Info, "Act", &format!("m{i}"));
    }
    assert_eq!(logs.len(), MAX_LOGS);
    assert_eq!(logs[0].message, "m104");
    assert_eq!(logs[0].at.len(), 8);
    assert_eq!(logs[99].message, "m5");
}

#[test]
fn capped_lists_drop_the_oldest() {
    let mut v = vec![1, 2, 3];
    push_capped(&mut v, 4, 3);
    assert_eq!(v, vec![2, 3, 4]);
    push_capped(&mut v, 5, 10);
    assert_eq!(v, vec![2, 3, 4, 5]);
}

#[test]
fn thread_states_are_counted() {
    let threads = vec![thread("RUNNABLE", 1), thread("WAITING", 0), thread("BLOCKED", 2), thread("NEW", 1), thread("TIMED_WAITING", 1)];
    let c = thread_state_counts(&threads);
    assert_eq!((c.runnable, c.waiting, c.timed_waiting, c.blocked, c.other), (1, 1, 1, 1, 1));
    assert_eq!(sampled_threads(&threads, "Runnable"), vec![0]);
    assert_eq!(sampled_threads(&threads, "All"), vec![0, 2, 3, 4]);
}

#[test]
fn recording_requests_and_results() {
    let idle = CpuRecordingFlags { recording: false, start_pending: false, stop_pending: false, agent_enabled: false };
    assert_eq!(recording_request(true, idle), RecordingRequest::StartSession);
    assert_eq!(recording_request(false, idle), RecordingRequest::Start);
    let starting = CpuRecordingFlags { start_pending: true, ..idle };
    assert_eq!(recording_request(false, starting), RecordingRequest::AlreadyStarting);
    let mut f = starting;
    assert_eq!(apply_recording_result(&mut f, false, true), LogLevel::Success);
    assert!(f.recording && f.agent_enabled && !f.start_pending);
    let mut g = CpuRecordingFlags { stop_pending: true, ..f };
    assert_eq!(recording_request(false, g), RecordingRequest::AlreadyStopping);
    assert_eq!(apply_recording_result(&mut g, true, false), LogLevel::Error);
    assert!(g.recording && !g.stop_pending);
    assert_eq!(active_recording_count(true, false, true), 2);
}

#[test]
fn tick_plans() {
    let s = TickState {
        jvm_selected: true,
        cpu_recording: true,
        pending_initial_cpu_start: true,
        view: ViewId::ThreadsDumps,
        update_due: true,
        telemetry_idle: true,
        thread_idle: false,
        memory_idle: true,
        memory_loaded_once: false,
        thread_refresh_due: true,
    };
    let p = tick_plan(s);
    assert!(p.start_initial_cpu && p.restart_tick && p.refresh_telemetry);
    assert!(!p.fetch_cpu && !p.refresh_memory && p.restart_thread_refresh && !p.capture_thread_dump);
    let none = tick_plan(TickState { jvm_selected: false, cpu_recording: false, ..s });
    assert!(!none.restart_tick && !none.start_initial_cpu);
    assert!(is_memory_view(ViewId::HeapClasses));
    assert!(is_thread_view(ViewId::ThreadsMonitor));
    assert!(!is_thread_view(ViewId::CpuHotSpots));
}

#[test]
fn keys_map_to_commands() {
    let mut filter = String::from("ab");
    let press = |code| KeyEvent { code, kind: KeyEventKind::Press, modifiers: 0 };
    let (r, c) = handle_key(InputMode::Normal, &mut filter, press(KeyCode::Char('q')));
    assert!(r.should_quit());
    assert_eq!(c, Command::Quit);
    let (r, c) = handle_key(InputMode::Normal, &mut filter, press(KeyCode::Char('/')));
    assert_eq!(c, Command::EnterFilter);
    assert_eq!(r.input_mode, InputMode::Filter);
    assert_eq!(filter, "");
    handle_key(InputMode::Filter, &mut filter, press(KeyCode::Char('x')));
    handle_key(InputMode::Filter, &mut filter, press(KeyCode::Char('y')));
    handle_key(InputMode::Filter, &mut filter, press(KeyCode::Backspace));
    assert_eq!(filter, "x");
    let (r, _) = handle_key(InputMode::Filter, &mut filter, press(KeyCode::Esc));
    assert_eq!(r.input_mode, InputMode::Normal);
    let (_, c) = handle_key(InputMode::Normal, &mut filter, press(KeyCode::Char('3')));
    assert_eq!(c, Command::GoTo(ViewId::LiveAllocationHotSpots));
    let (r, c) = handle_key(InputMode::Normal, &mut filter, KeyEvent { code: KeyCode::Char('q'), kind: KeyEventKind::Release, modifiers: 0 });
    assert!(!r.should_quit());
    assert_eq!(c, Command::Nothing);
    assert!(is_navigation_key(KeyCode::Char('j')));
    assert!(!is_navigation_key(KeyCode::Enter));
}

#[test]
fn arguments_and_instrumentation_defaults() {
    let args: Vec<String> = ["prog", "--port", "9000", "--limit"].iter().map(|s| s.to_string()).collect();
    assert_eq!(arg_value(&args, "--port"), Some("9000".to_string()));
    assert_eq!(arg_value(&args, "--limit"), None);
    assert_eq!(default_instrument_include("com.example.shop.Main"), Some("com.example.shop".to_string()));
    assert_eq!(default_instrument_include(" app.jar "), None);
    assert_eq!(default_instrument_include("C:\\tools\\java"), None);
    assert_eq!(default_instrument_include("org.springframework.boot.Loader"), None);
    assert_eq!(default_instrument_include("Main"), None);
    assert_eq!(default_instrument_include("<unknown>"), None);
    assert_eq!(default_instrument_include("lib/com.acme.App.jar"), Some("com.acme".to_string()));
    assert_eq!(native_library_file_name(TargetOs::Windows), "jvmti_agent_rust.dll");
    assert_eq!(native_library_file_name(TargetOs::Other), "libjvmti_agent_rust.so");
}

#[test]
fn benchmark_keys_quit_reset_and_run() {
    let press = |code| KeyEvent { code, kind: KeyEventKind::Press, modifiers: 0 };
    assert_eq!(benchmark_key(press(KeyCode::Char('q'))), BenchmarkKey::Quit);
    assert_eq!(benchmark_key(press(KeyCode::Esc)), BenchmarkKey::Quit);
    assert_eq!(benchmark_key(press(KeyCode::Char('r'))), BenchmarkKey::Reset);
    assert_eq!(benchmark_key(press(KeyCode::Enter)), BenchmarkKey::Run);
    assert_eq!(benchmark_key(press(KeyCode::Char('x'))), BenchmarkKey::Ignore);
    let repeat = KeyEvent { code: KeyCode::Enter, kind: KeyEventKind::Repeat, modifiers: 0 };
    assert_eq!(benchmark_key(repeat), BenchmarkKey::Run);
    let release = KeyEvent { code: KeyCode::Char('q'), kind: KeyEventKind::Release, modifiers: 0 };
    assert_eq!(benchmark_key(release), BenchmarkKey::Ignore);
}

use openprofiler::app::{clamp_selection, FocusPane, DEFAULT_PAGE_ROWS};
use openprofiler::attach::{
    attach_port_order, owner_pids_from_output, ports_from_output, AGENT_PORT_MAX, ATTACH_PORT_MIN,
};
use openprofiler::memory::allocation_hotspots_copy_text;
use openprofiler::model::{AllocationHotSpotRow, JvmTarget, ViewId};
use openprofiler::protocol::{once_listing_order, HotSpot};
use openprofiler::jvm::{jfr_start_step, CommandOutput, JfrStartStep};
use openprofiler::session::{
    initial_cpu_start, jvm_steps, next_benchmark_phase, pane_target, refresh_plan, session_start,
    wants_initial_cpu_start, BenchmarkPhase, InitialCpuStart, PaneTarget, SessionStart,
};
use openprofiler::text::parse_u16;

fn alloc_row(node_id: i32, depth: usize, name: &str, bytes: u64, allocations: u64) -> AllocationHotSpotRow {
    AllocationHotSpotRow {
        node_id,
        parent_id: None,
        depth,
        name: name.to_string(),
        allocated_type: "byte[]".to_string(),
        bytes,
        allocations,
    }
}

fn hot(class_name: &str, method_name: &str, self_nanos: u64) -> HotSpot {
    HotSpot {
        class_name: class_name.to_string(),
        method_name: method_name.to_string(),
        method_descriptor: "()V".to_string(),
        self_samples: 0,
        total_samples: 0,
        self_duration_nano: self_nanos,
        total_duration_nano: self_nanos,
        invocations: 1,
    }
}

#[test]
fn pane_target_follows_view_and_focus() {
    assert_eq!(pane_target(ViewId::StartCenter, FocusPane::Main, true), PaneTarget::Jvms);
    assert_eq!(pane_target(ViewId::StartCenter, FocusPane::Sidebar, false), PaneTarget::Jvms);
    assert_eq!(pane_target(ViewId::CpuHotSpots, FocusPane::Main, true), PaneTarget::CpuHotspots);
    assert_eq!(pane_target(ViewId::CpuHotSpots, FocusPane::Main, false), PaneTarget::Sidebar);
    assert_eq!(pane_target(ViewId::CpuHotSpots, FocusPane::Sidebar, true), PaneTarget::Sidebar);
    assert_eq!(
        pane_target(ViewId::LiveAllocationHotSpots, FocusPane::Main, false),
        PaneTarget::AllocationHotspots
    );
    assert_eq!(pane_target(ViewId::HeapClasses, FocusPane::Main, false), PaneTarget::MemoryRows);
    assert_eq!(pane_target(ViewId::DatabasesJdbc, FocusPane::Main, false), PaneTarget::DatabaseRows);
    assert_eq!(pane_target(ViewId::TeleOverview, FocusPane::Main, true), PaneTarget::Sidebar);
}

#[test]
fn jvm_steps_take_at_least_one_step() {
    assert_eq!(jvm_steps(0), (true, 1));
    assert_eq!(jvm_steps(1), (true, 1));
    assert_eq!(jvm_steps(20), (true, 20));
    assert_eq!(jvm_steps(-1), (false, 1));
    assert_eq!(jvm_steps(-20), (false, 20));
}

#[test]
fn refresh_plan_depends_on_view_and_selection() {
    let p = refresh_plan(ViewId::ThreadsDumps, true);
    assert!(p.telemetry && !p.live_memory && p.thread_dump);
    let p = refresh_plan(ViewId::LiveAllObjects, false);
    assert!(!p.telemetry && p.live_memory && !p.thread_dump);
    let p = refresh_plan(ViewId::CpuHotSpots, true);
    assert!(p.telemetry && !p.live_memory && !p.thread_dump);
}

#[test]
fn clamp_selection_keeps_selection_in_range() {
    let mut selected = 30usize;
    let mut offset = 0usize;
    clamp_selection(&mut selected, &mut offset, 25);
    assert_eq!(selected, 24);
    assert_eq!(offset, 24 - (DEFAULT_PAGE_ROWS - 1));

    let mut selected = 5usize;
    let mut offset = 9usize;
    clamp_selection(&mut selected, &mut offset, 0);
    assert_eq!(selected, 0);
    assert_eq!(offset, 0);

    let mut selected = 3usize;
    let mut offset = 0usize;
    clamp_selection(&mut selected, &mut offset, 10);
    assert_eq!(selected, 3);
    assert_eq!(offset, 0);
}

#[test]
fn allocation_copy_text_indents_children() {
    assert_eq!(allocation_hotspots_copy_text(&[]), None);
    let rows = vec![
        alloc_row(1, 0, "app.Main.run", 2048, 3),
        alloc_row(2, 1, "app.Main.child", 512, 1),
        alloc_row(3, 10, "deep", 1048576, 12),
    ];
    let text = allocation_hotspots_copy_text(&rows).unwrap();
    assert_eq!(
        text,
        "Hot Spot\tSelf Allocated Memory\tAllocations\n\
         app.Main.run\t2 kB\t3\n\
         \x20\x20- app.Main.child\t512 bytes\t1\n\
         \x20\x20\x20\x20\x20\x20\x20\x20\x20\x20\x20\x20\x20\x20\x20\x20- deep\t1.0 MB\t12"
    );
}

#[test]
fn owner_pids_skip_lines_that_are_no_number() {
    assert_eq!(owner_pids_from_output("  1234 \r\nabc\n\n5678\n"), vec![1234u32, 5678]);
    assert_eq!(owner_pids_from_output(""), Vec::<u32>::new());
    assert_eq!(owner_pids_from_output("99999999999\n7"), vec![7u32]);
}

#[test]
fn ports_skip_values_beyond_u16() {
    assert_eq!(ports_from_output("8849\n70000\n 8850 \n"), vec![8849u16, 8850]);
    assert_eq!(parse_u16(&['6', '5', '5', '3', '5']), Some(65535));
    assert_eq!(parse_u16(&['6', '5', '5', '3', '6']), None);
}

#[test]
fn attach_port_order_starts_with_preferred() {
    let order = attach_port_order(9100);
    assert_eq!(order[0], 9100);
    assert_eq!(order[1], ATTACH_PORT_MIN);
    assert_eq!(*order.last().unwrap(), AGENT_PORT_MAX);
    assert_eq!(order.len(), 1 + (AGENT_PORT_MAX - ATTACH_PORT_MIN + 1) as usize);
}

#[test]
fn once_listing_separates_sql_and_sorts() {
    let spots = vec![
        hot("a.A", "f", 10),
        hot("SQL", "select 1", 50),
        hot("b.B", "g", 30),
        hot("c.C", "h", 30),
        hot("SQL", "select 2", 70),
    ];
    assert_eq!(once_listing_order(&spots, false, 20), vec![2usize, 3, 0]);
    assert_eq!(once_listing_order(&spots, true, 20), vec![4usize, 1]);
    assert_eq!(once_listing_order(&spots, false, 1), vec![2usize]);
    assert_eq!(once_listing_order(&spots, true, 0), Vec::<usize>::new());
}

#[test]
fn benchmark_phases_run_in_order() {
    assert_eq!(next_benchmark_phase(BenchmarkPhase::Idle), Some(BenchmarkPhase::Profiling));
    assert_eq!(next_benchmark_phase(BenchmarkPhase::Profiling), Some(BenchmarkPhase::IdleAfter));
    assert_eq!(next_benchmark_phase(BenchmarkPhase::IdleAfter), None);
}

#[test]
fn jfr_start_is_retried_once() {
    let failed = CommandOutput {
        success: false,
        status: "exit code: 1".to_string(),
        stdout: "no".to_string(),
        stderr: String::new(),
    };
    let ok = CommandOutput {
        success: true,
        status: "exit code: 0".to_string(),
        stdout: "  Started recording 1.\n".to_string(),
        stderr: String::new(),
    };
    assert!(matches!(jfr_start_step(1, &failed), JfrStartStep::Retry));
    assert!(matches!(jfr_start_step(2, &failed), JfrStartStep::Done(Err(_))));
    match jfr_start_step(1, &ok) {
        JfrStartStep::Done(Ok(text)) => assert_eq!(text, "Started recording 1."),
        other => panic!("unexpected {:?}", other),
    }
}

#[test]
fn initial_cpu_start_decisions() {
    assert!(wants_initial_cpu_start(ViewId::TeleOverview, true, false));
    assert!(!wants_initial_cpu_start(ViewId::StartCenter, true, false));
    assert!(!wants_initial_cpu_start(ViewId::TeleOverview, false, false));
    assert!(!wants_initial_cpu_start(ViewId::TeleOverview, true, true));
    assert_eq!(initial_cpu_start(true, true), InitialCpuStart::AlreadyRecording);
    assert_eq!(initial_cpu_start(false, false), InitialCpuStart::WaitForJvm);
    assert_eq!(initial_cpu_start(false, true), InitialCpuStart::Start);
}

fn jvm(pid: u32, main_class: &str) -> JvmTarget {
    JvmTarget {
        pid,
        display_name: main_class.to_string(),
        main_class: main_class.to_string(),
        arguments: String::new(),
        profiled: false,
    }
}

#[test]
fn session_start_picks_the_demo_server_and_queues_one_cpu_start() {
    let jvms = vec![jvm(10, "org.gradle.Daemon"), jvm(20, "com.acme.DemoServer")];
    assert_eq!(
        session_start(&jvms, None, false, false),
        SessionStart::Start { pid: 20, start_cpu: true }
    );
    assert_eq!(
        session_start(&jvms, Some(10), false, false),
        SessionStart::Start { pid: 10, start_cpu: true }
    );
    assert_eq!(
        session_start(&jvms, None, true, false),
        SessionStart::Start { pid: 20, start_cpu: false }
    );
    assert_eq!(
        session_start(&jvms, None, false, true),
        SessionStart::Start { pid: 20, start_cpu: false }
    );
    let plain = vec![jvm(7, "org.gradle.Daemon"), jvm(8, "com.acme.Main")];
    assert_eq!(
        session_start(&plain, None, false, false),
        SessionStart::Start { pid: 7, start_cpu: true }
    );
    assert_eq!(session_start(&[], None, false, false), SessionStart::NoJvm);
}

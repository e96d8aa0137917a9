use openprofiler::jvm::{
    command_output_message, extract_lock_class, extract_lock_identity, is_likely_demo_server,
    is_profiler_ui_process, parse_class_histogram, parse_gc_counters, parse_jps_line,
    jfr_method_samples, parse_stack_trace_element, parse_thread_dump, CommandOutput,
};
use openprofiler::model::JvmTarget;

#[test]
fn parse_jps_line_excludes_profiler_ui_and_tools() {
    assert!(parse_jps_line(
        r#"10640 D:\Work\jpro_base2\example\OProfiler14.0.6\bin\OProfiler.exe -Dexe4j.moduleName=D:\Work\jpro_base2\example\OProfiler14.0.6\bin\OProfiler.exe"#
    )
    .is_none());
    assert!(parse_jps_line(
        r#"16720 jdk.jcmd/sun.tools.jps.Jps -Dapplication.home=C:\Program Files\Amazon Corretto\jdk17.0.19_10"#
    )
    .is_none());

    let target = parse_jps_line(
        r#"9996 com.ejt.demo.server.gui.GuiDemoServer -agentpath:D:\x\oprofilerti.dll=port=63881"#,
    )
    .expect("demo server should be retained");
    assert_eq!(target.pid, 9996);
    assert_eq!(target.display_name, "GuiDemoServer");
}

#[test]
fn jps_line_marks_profiled_jvm_and_keeps_arguments() {
    let target =
        parse_jps_line("9996 com.ejt.demo.server.gui.GuiDemoServer -agentpath:D:\\x\\oprofilerti.dll=port=63881")
            .unwrap();
    assert!(target.profiled);
    assert_eq!(target.main_class, "com.ejt.demo.server.gui.GuiDemoServer");
    assert!(target.arguments.contains("-agentpath"));
}

#[test]
fn jps_line_without_pid_is_rejected() {
    assert!(parse_jps_line("").is_none());
    assert!(parse_jps_line("abc com.example.Main").is_none());
}

#[test]
fn profiler_ui_detection() {
    assert!(is_profiler_ui_process("D:\\bin\\OProfiler.exe", ""));
    assert!(!is_profiler_ui_process("com.example.Main", "-Xmx1g"));
}

#[test]
fn demo_server_detection() {
    let jvm = JvmTarget {
        pid: 1,
        display_name: "x".to_string(),
        main_class: "com.example.DemoApp".to_string(),
        arguments: String::new(),
        profiled: false,
    };
    assert!(is_likely_demo_server(&jvm));
    let other = JvmTarget {
        pid: 2,
        display_name: "y".to_string(),
        main_class: "com.example.Tool".to_string(),
        arguments: "-Xmx1g".to_string(),
        profiled: false,
    };
    assert!(!is_likely_demo_server(&other));
}

#[test]
fn stack_frame_parts() {
    let f = parse_stack_trace_element("java.lang.Thread.run(Thread.java:833)");
    assert_eq!(f.class_name, "java.lang.Thread");
    assert_eq!(f.method_name, "run");
    assert_eq!(f.file_name.as_deref(), Some("Thread.java"));
    assert_eq!(f.line_number, Some(833));
    assert_eq!(f.full_name(), "java.lang.Thread.run");
    assert_eq!(f.location(), "(Thread.java:833)");
    let n = parse_stack_trace_element("sun.nio.ch.Net.poll(Native Method)");
    assert!(n.native_method);
    assert_eq!(n.location(), "(Native Method)");
}

#[test]
fn lock_line_parts() {
    let line: Vec<char> = "- waiting on <0x000000076ab62208> (a java.lang.Object)".chars().collect();
    let class: String = extract_lock_class(&line).unwrap().into_iter().collect();
    assert_eq!(class, "java.lang.Object");
    assert_eq!(extract_lock_identity(&line), Some(0x76ab62208));
}

#[test]
fn thread_dump_threads_and_states() {
    let raw = "\"main\" #1 prio=5 os_prio=0 tid=0x1 nid=0x2a03 runnable\n   java.lang.Thread.State: RUNNABLE\n\tat com.example.App.main(App.java:10)\n\n\"worker\" #2 daemon prio=5 nid=0x10 waiting on condition\n   java.lang.Thread.State: WAITING (parking)\n\tat java.lang.Object.wait(Native Method)\n";
    let threads = parse_thread_dump(raw);
    assert_eq!(threads.len(), 2);
    assert_eq!(threads[0].name, "main");
    assert_eq!(threads[0].state, "RUNNABLE");
    assert_eq!(threads[0].nid, "0x2a03");
    assert_eq!(threads[0].frames.len(), 1);
    assert_eq!(threads[1].name, "worker");
    assert_eq!(threads[1].state, "WAITING");
}

#[test]
fn class_histogram_rows_and_error() {
    let text = " num     #instances         #bytes  class name (module)\n-------------------------------------------------------\n   1:         12345         987654  [B (java.base@17)\n   2:           100           2400  java.lang.String (java.base@17)\nTotal         12445         990054\n";
    let rows = parse_class_histogram(text).unwrap();
    assert_eq!(rows.len(), 2);
    assert_eq!(rows[0].rank, 1);
    assert_eq!(rows[0].instances, 12345);
    assert_eq!(rows[0].bytes, 987654);
    assert_eq!(rows[1].name, "java.lang.String (java.base@17)");
    assert_eq!(
        parse_class_histogram("nothing here").unwrap_err(),
        "class histogram returned no rows"
    );
}

#[test]
fn gc_counters_are_summed() {
    let text = "sun.gc.collector.0.invocations 12\nsun.gc.collector.0.time 3000000000\nsun.gc.collector.1.invocations 3\nsun.gc.collector.1.time 1500000\nsun.gc.collector.2.invocations=4\n";
    let g = parse_gc_counters(text);
    assert_eq!(g.count, 15);
    assert_eq!(g.time_ms, 3001);
}

#[test]
fn command_failure_message_mentions_streams() {
    let out = CommandOutput {
        success: false,
        status: "exit code: 1".to_string(),
        stdout: String::new(),
        stderr: "boom".to_string(),
    };
    let m = command_output_message("jcmd", &out);
    assert!(m.contains("jcmd"));
    assert!(m.contains("boom"));
}

#[test]
fn thread_dump_blocks_take_first_lock_and_last_state() {
    let raw = "preamble line\n\
\"worker-1\" #12 prio=5 nid=0x2a runnable\n\
   java.lang.Thread.State: BLOCKED (on object monitor)\n\
\tat app.Service.run(Service.java:10)\n\
\t- waiting to lock <0x00000000cafe> (a java.lang.Object)\n\
\tat app.Main.main(Main.java:3)\n\
\t- locked <0x00000000beef> (a app.Lock)\n\
   java.lang.Thread.State: RUNNABLE\n\
\"idle\" #13 nid=0x2b waiting\n";
    let threads = parse_thread_dump(raw);
    assert_eq!(threads.len(), 2);
    let w = &threads[0];
    assert_eq!(w.name, "worker-1");
    assert_eq!(w.state, "RUNNABLE");
    assert_eq!(w.frames, vec!["app.Service.run(Service.java:10)".to_string(), "app.Main.main(Main.java:3)".to_string()]);
    assert_eq!(w.top_frame, "app.Service.run(Service.java:10)");
    let lock = w.lock_info.as_ref().unwrap();
    assert_eq!(lock.lock_class, "java.lang.Object");
    assert_eq!(lock.lock_identity, 0xcafe);
    assert!(lock.waiting_on.is_some());
    assert!(lock.owning.is_none());
    let idle = &threads[1];
    assert_eq!(idle.name, "idle");
    assert_eq!(idle.state, "UNKNOWN");
    assert!(idle.frames.is_empty());
    assert_eq!(idle.top_frame, "");
    assert!(idle.lock_info.is_none());
}

fn jfr_event(top: &str) -> String {
    format!(
        "jdk.ExecutionSample {{\n  startTime = 10:00:00\n  stackTrace = [\n    {top}\n    app.Main.main(String[]) line: 3\n  ]\n}}\n"
    )
}

#[test]
fn jfr_samples_count_top_frames_per_method() {
    let mut text = String::new();
    text.push_str(&jfr_event("app.Work.a() line: 1"));
    text.push_str(&jfr_event("app.Work.b() line: 2"));
    text.push_str(&jfr_event("app.Work.a() line: 5"));
    text.push_str("jdk.ExecutionSample {\n  stackTrace = [\n  ]\n}\n");
    let rows = jfr_method_samples(&text);
    assert_eq!(rows.len(), 2);
    assert_eq!(rows[0].samples, 2);
    assert_eq!(rows[1].samples, 1);
    assert_ne!(rows[0].method, rows[1].method);
    assert!(rows[0].method.contains("app.Work.a"));
}

#[test]
fn jps_line_for_a_jar_shows_the_jar_file_name() {
    let bare = parse_jps_line("4242 server.jar -Xmx1g").unwrap();
    assert_eq!(bare.display_name, "server.jar");
    let nested = parse_jps_line("4243 /opt/app/lib/server.jar").unwrap();
    assert_eq!(nested.display_name, "server.jar");
    assert_eq!(nested.main_class, "/opt/app/lib/server.jar");
}

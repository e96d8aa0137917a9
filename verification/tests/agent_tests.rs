use openprofiler::agent::{
    allocation_export_tsv, allocation_path_key, class_name_from_signature,
    is_valid_jdbc_probe_id, record_allocation, should_skip_allocation_top_frame,
    top_hot_spot_entries, tsv_clean, JdbcProbes, NativeAllocationStats, NativeMethodMeta,
    SampleCounts,
};

fn meta(c: &str, m: &str) -> Option<NativeMethodMeta> {
    Some(NativeMethodMeta {
        class_name: c.to_string(),
        method_name: m.to_string(),
        method_descriptor: "()V".to_string(),
    })
}

#[test]
fn signatures_become_java_names() {
    assert_eq!(class_name_from_signature("Ljava/lang/String;"), "java.lang.String");
    assert_eq!(class_name_from_signature("[I"), "int[]");
    assert_eq!(class_name_from_signature("[[Ljava/util/Map;"), "java.util.Map[][]");
    assert_eq!(class_name_from_signature("Z"), "boolean");
    assert_eq!(class_name_from_signature("a/b"), "a.b");
    assert_eq!(class_name_from_signature(""), "");
}

#[test]
fn agent_frames_are_skipped() {
    assert!(should_skip_allocation_top_frame("com.openprofiler.agent.Agent"));
    assert!(should_skip_allocation_top_frame("org.objectweb.asm.ClassWriter"));
    assert!(!should_skip_allocation_top_frame("com.example.App"));
}

#[test]
fn path_keys_and_tsv_text() {
    assert_eq!(allocation_path_key(&[]), "");
    assert_eq!(allocation_path_key(&[12, 0, 345]), "12>0>345");
    assert_eq!(tsv_clean("a\tb\r\nc"), "a b  c");
    assert!(is_valid_jdbc_probe_id(0));
    assert!(is_valid_jdbc_probe_id(11));
    assert!(!is_valid_jdbc_probe_id(12));
    assert!(!is_valid_jdbc_probe_id(-1));
}

#[test]
fn jdbc_probe_enter_and_exit() {
    let mut probes = JdbcProbes::new();
    probes.enter(true, 3, 100);
    probes.exit(true, 3, 250);
    assert_eq!(probes.stats[3].invocations, 1);
    assert_eq!(probes.stats[3].self_duration_nano, 150);
    assert_eq!(probes.average_duration_nanos(3), 150);
    probes.enter(true, 4, 100);
    probes.exit(true, 5, 300);
    assert_eq!(probes.stats[5].invocations, 0);
    assert!(probes.stack.is_empty());
    probes.enter(false, 4, 100);
    assert!(probes.stack.is_empty());
    assert_eq!(
        probes.hot_spots_json(),
        "[{\"id\":3,\"self_duration_nano\":150,\"total_duration_nano\":150,\"invocations\":1}]"
    );
    probes.reset();
    assert_eq!(probes.hot_spots_json(), "[]");
    assert_eq!(probes.average_duration_nanos(99), 0);
}

#[test]
fn allocations_count_along_every_prefix_and_export() {
    let mut stats: Vec<NativeAllocationStats> = Vec::new();
    let frames = vec![(10usize, meta("app.Leaf", "make")), (11usize, None), (12usize, meta("app.Root", "run"))];
    record_allocation(&mut stats, &frames, "java.lang.String", 64);
    record_allocation(&mut stats, &frames, "java.lang.String", 16);
    assert_eq!(stats.len(), 2);
    assert_eq!(stats[0].path, vec![10]);
    assert_eq!(stats[0].allocated_size, 80);
    assert_eq!(stats[0].instance_count, 2);
    assert_eq!(stats[1].path, vec![10, 12]);
    record_allocation(&mut stats, &frames, "x", 0);
    assert_eq!(stats[0].instance_count, 2);
    let skipped = vec![(1usize, meta("com.openprofiler.agent.Agent", "x"))];
    record_allocation(&mut stats, &skipped, "x", 8);
    assert_eq!(stats.len(), 2);
    let tsv = allocation_export_tsv(&stats);
    assert_eq!(
        tsv,
        "0\t-1\tapp.Leaf\tmake\t()V\tjava.lang.String\t80\t2\n1\t0\tapp.Root\trun\t()V\tjava.lang.String\t80\t2"
    );
}

#[test]
fn samples_are_counted_per_method() {
    let mut counts = SampleCounts::new();
    counts.record_sample(true, "a.A", "run", "()V", true);
    counts.record_sample(true, "a.A", "run", "()V", false);
    counts.record_sample(true, "a.B", "go", "()V", true);
    counts.record_sample(false, "a.C", "no", "()V", true);
    assert_eq!(counts.total_samples, 3);
    assert_eq!(counts.entries.len(), 2);
    assert_eq!(counts.entries[0].total_samples, 2);
    assert_eq!(counts.entries[0].self_samples, 1);
    let top = top_hot_spot_entries(&counts.entries, 1);
    assert_eq!(top, vec![0]);
}

#[test]
fn jdbc_probe_duration_saturates_at_i64_max() {
    let mut probes = JdbcProbes::new();
    probes.enter(true, 2, i64::MIN);
    probes.exit(true, 2, i64::MAX);
    assert_eq!(probes.stats[2].self_duration_nano, i64::MAX as u64);
    assert_eq!(probes.stats[2].total_duration_nano, i64::MAX as u64);
    assert_eq!(probes.stats[2].invocations, 1);
}

use openprofiler::call_tree::{
    build_call_tree, build_hot_spots, children_of, root_nodes, top_sampled_methods, StackSample,
};
use openprofiler::model::StackTraceElement;

fn frame(class_name: &str, method_name: &str) -> StackTraceElement {
    StackTraceElement {
        class_name: class_name.to_string(),
        method_name: method_name.to_string(),
        descriptor: String::new(),
        file_name: Some("X.java".to_string()),
        line_number: Some(1),
        native_method: false,
        raw: String::new(),
    }
}

fn sample(state: &str, frames: Vec<StackTraceElement>) -> StackSample {
    StackSample {
        thread: "main".to_string(),
        state: state.to_string(),
        frames: Vec::new(),
        stack_trace: frames,
        captured_at: String::new(),
        elapsed_ms: 0,
    }
}

#[test]
fn call_tree_counts_frames_outermost_first() {
    let samples = vec![
        sample("RUNNABLE", vec![frame("a.Leaf", "work"), frame("a.Main", "main")]),
        sample("RUNNABLE", vec![frame("a.Leaf", "work"), frame("a.Main", "main")]),
        sample("WAITING", vec![frame("a.Other", "wait"), frame("a.Main", "main")]),
    ];
    let tree = build_call_tree(&samples, "Runnable");
    assert_eq!(tree.nodes.len(), 4);
    assert_eq!(tree.nodes[1].class_name, "a.Main");
    assert_eq!(tree.nodes[1].call_count, 3);
    assert_eq!(tree.nodes[1].self_count, 0);
    assert_eq!(tree.nodes[2].class_name, "a.Leaf");
    assert_eq!(tree.nodes[2].self_count, 2);
    assert_eq!(tree.nodes[2].parent_id, Some(1));
    assert_eq!(children_of(&tree, 1), vec![2, 3]);
    assert_eq!(root_nodes(&tree), vec![0]);
    assert_eq!(tree.edges.len(), 2);
    assert_eq!(tree.edges[0].from_id, 1);
    assert_eq!(tree.edges[0].to_id, 2);
    assert_eq!(tree.edges[0].call_count, 2);

    let filtered = build_call_tree(&samples, "Blocked");
    assert_eq!(filtered.nodes[1].call_count, 2);
    assert_eq!(filtered.nodes.len(), 3);
}

#[test]
fn thread_state_frames_are_not_counted() {
    let samples = vec![sample(
        "RUNNABLE",
        vec![frame("java.lang.Thread.State: RUNNABLE", ""), frame("a.Main", "main")],
    )];
    let tree = build_call_tree(&samples, "");
    assert_eq!(tree.nodes.len(), 2);
    assert_eq!(tree.nodes[1].self_count, 1);
    assert_eq!(tree.nodes[0].full_name(), "root.all");
    assert_eq!(tree.nodes[1].location(), "(X.java:1)");
}

#[test]
fn hot_spots_rank_by_samples() {
    let samples = vec![
        sample("RUNNABLE", vec![frame("a.Leaf", "work"), frame("a.Main", "main")]),
        sample("RUNNABLE", vec![frame("a.Main", "main")]),
    ];
    let tree = build_call_tree(&samples, "");
    let rows = build_hot_spots(&tree, 10);
    assert_eq!(rows.len(), 2);
    assert_eq!(rows[0].method, "a.Main.main");
    assert_eq!(rows[0].total_samples, 2);
    assert_eq!(rows[0].self_samples, 1);
    let top = top_sampled_methods(&rows, 1);
    assert_eq!(top.len(), 1);
    assert_eq!(top[0].method, "a.Main.main");
}

#[test]
fn call_tree_shape_one_node_per_method() {
    let samples = vec![
        sample("RUNNABLE", vec![frame("a.Leaf", "work"), frame("a.Mid", "step"), frame("a.Main", "main")]),
        sample("BLOCKED", vec![frame("a.Mid", "step"), frame("a.Main", "main")]),
        sample("RUNNABLE", vec![frame("java.lang.Thread.State", "x"), frame("a.Main", "main")]),
        sample("RUNNABLE", vec![frame("a.Main", "main"), frame("a.Main", "main")]),
    ];
    let tree = build_call_tree(&samples, "");
    assert_eq!(tree.nodes[0].class_name, "root");
    assert_eq!(tree.nodes[0].method_name, "all");
    assert_eq!(tree.nodes.len(), 4);
    let counted: u64 = 3 + 2 + 1 + 2;
    let sum: u64 = tree.nodes[1..].iter().map(|n| n.call_count).sum();
    assert_eq!(sum, counted);
    for (i, n) in tree.nodes.iter().enumerate().skip(1) {
        let p = n.parent_id.unwrap();
        assert!(p < i);
        assert!(tree.nodes[p].children.contains(&i));
    }
    for e in &tree.edges {
        assert!(e.from_id != 0 && e.from_id != e.to_id);
    }
}

#[test]
fn hot_spot_self_samples_follow_the_sampling_interval() {
    let samples = vec![
        sample("RUNNABLE", vec![frame("a.Leaf", "work"), frame("a.Main", "main")]),
        sample("RUNNABLE", vec![frame("a.Leaf", "work"), frame("a.Main", "main")]),
        sample("RUNNABLE", vec![frame("a.Leaf", "work"), frame("a.Main", "main")]),
    ];
    let tree = build_call_tree(&samples, "");
    let rows = build_hot_spots(&tree, 25);
    assert_eq!(rows[1].method, "a.Leaf.work");
    assert_eq!(rows[1].self_samples, 7);
    assert_eq!(rows[1].self_count, 3);
    assert_eq!(rows[0].self_samples, 0);
    assert_eq!(rows[0].self_count, 0);
    let rows = build_hot_spots(&tree, 10);
    assert_eq!(rows[1].self_samples, 3);
}

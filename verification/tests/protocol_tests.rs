use openprofiler::protocol::{
    allocation_depth, allocation_hotspots_from_agent_data, decode_frame_header,
    encode_frame_header, frame_message, graph_method_id, hot_spot_order, is_timeout_error,
    message_length, method_edge_rows, AllocationTree, AllocationTreeNode, HotSpot, IoErrorKind,
    MemoryData, MethodGraph, MethodGraphEdge, MethodNode,
};

fn node(id: i32, parent_id: i32, class_name: &str, method_name: &str, allocated_type: &str, size: u64, count: u64) -> AllocationTreeNode {
    AllocationTreeNode {
        id,
        parent_id,
        class_name: class_name.to_string(),
        method_name: method_name.to_string(),
        method_descriptor: "()V".to_string(),
        file_name: String::new(),
        line_number: 0,
        allocated_type: allocated_type.to_string(),
        allocated_size: size,
        instance_count: count,
    }
}

#[test]
fn allocation_rows_preserve_parent_depth() {
    let memory = MemoryData {
        allocation_tree: Some(AllocationTree {
            nodes: vec![
                node(1, -1, "app.Service", "run", "java/lang/String", 64, 1),
                node(2, 1, "app.Repository", "load", "java/lang/Object", 32, 2),
            ],
        }),
        heap_used_bytes: 0,
        heap_committed_bytes: 0,
    };

    let rows = allocation_hotspots_from_agent_data(memory);

    assert_eq!(rows.len(), 2);
    assert_eq!(rows[0].depth, 0);
    assert_eq!(rows[1].parent_id, Some(1));
    assert_eq!(rows[1].depth, 1);
    assert_eq!(rows[1].allocated_type, "java.lang.Object");
}

#[test]
fn allocation_rows_names_and_missing_tree() {
    let memory = MemoryData {
        allocation_tree: Some(AllocationTree {
            nodes: vec![
                node(1, -1, "", "", "java/util/HashMap", 10, 1),
                node(2, 1, "a.B", "c", "x", 5, 1),
                node(3, 7, "a.D", "e", "y", 5, 1),
            ],
        }),
        heap_used_bytes: 0,
        heap_committed_bytes: 0,
    };
    let rows = allocation_hotspots_from_agent_data(memory);
    assert_eq!(rows[0].name, "java.util.HashMap");
    assert_eq!(rows[0].parent_id, None);
    assert_eq!(rows[1].name, "a.B.c()V");
    assert_eq!(rows[2].depth, 1);
    let empty = MemoryData { allocation_tree: None, heap_used_bytes: 1, heap_committed_bytes: 2 };
    assert!(allocation_hotspots_from_agent_data(empty).is_empty());
}

#[test]
fn allocation_depth_stops_at_sixteen_and_on_cycles() {
    let cyclic = vec![node(1, 2, "a", "b", "t", 1, 1), node(2, 1, "a", "b", "t", 1, 1)];
    assert_eq!(allocation_depth(1, &cyclic), 16);
    assert_eq!(allocation_depth(-1, &cyclic), 0);
    assert_eq!(allocation_depth(9, &cyclic), 1);
}

#[test]
fn cpu_rows_preserve_invocations_and_sql_marker() {
    let graph = Some(MethodGraph {
        nodes: vec![MethodNode {
            id: 7,
            class_name: "SQL".to_string(),
            method_name: "SELECT 1".to_string(),
            method_descriptor: String::new(),
            execution_count: 3,
            total_duration_nano: 9_000_000,
            self_duration_nano: 9_000_000,
        }],
        edges: Vec::new(),
    });
    let hot_spots = vec![HotSpot {
        class_name: "SQL".to_string(),
        method_name: "SELECT 1".to_string(),
        method_descriptor: String::new(),
        self_samples: 9,
        total_samples: 9,
        self_duration_nano: 9_000_000,
        total_duration_nano: 9_000_000,
        invocations: 3,
    }];

    let order = hot_spot_order(&hot_spots);
    let edges = method_edge_rows(&graph);

    assert!(edges.is_empty());
    assert_eq!(order.len(), 1);
    let hs = &hot_spots[order[0]];
    assert_eq!(graph_method_id(&graph, &hs.class_name, &hs.method_name, &hs.method_descriptor), Some(7));
    assert_eq!(hs.class_name, "SQL");
    assert_eq!(hs.invocations, 3);
    assert_eq!(hs.self_duration_nano as f64 / hs.invocations as f64, 3_000_000.0);
}

#[test]
fn hot_spot_order_is_stable_and_capped() {
    let mk = |n: u64| HotSpot {
        class_name: "c".to_string(),
        method_name: format!("m{n}"),
        method_descriptor: String::new(),
        self_samples: 0,
        total_samples: 0,
        self_duration_nano: n % 7,
        total_duration_nano: 0,
        invocations: 0,
    };
    let spots: Vec<HotSpot> = (0..300).map(mk).collect();
    let order = hot_spot_order(&spots);
    assert_eq!(order.len(), 250);
    for w in order.windows(2) {
        let a = spots[w[0]].self_duration_nano;
        let b = spots[w[1]].self_duration_nano;
        assert!(a > b || (a == b && w[0] < w[1]));
    }
    let graph = Some(MethodGraph {
        nodes: Vec::new(),
        edges: vec![MethodGraphEdge { from_node_id: 1, to_node_id: 2, call_count: 3, total_duration_nano: 4 }],
    });
    let rows = method_edge_rows(&graph);
    assert_eq!(rows[0].from_method_id, 1);
    assert_eq!(rows[0].total_duration_nano, 4);
    assert!(method_edge_rows(&None).is_empty());
}

#[test]
fn frame_header_round_trip() {
    for n in [0u32, 1, 255, 256, 65_535, 50_000_000, u32::MAX] {
        let h = encode_frame_header(n);
        assert_eq!(h, n.to_be_bytes());
        assert_eq!(decode_frame_header(h), n);
    }
    assert_eq!(message_length(50_000_000u32.to_be_bytes()), Ok(50_000_000));
    assert_eq!(message_length(50_000_001u32.to_be_bytes()), Err(50_000_001));
    let framed = frame_message(&[9, 8, 7]);
    assert_eq!(framed, vec![0, 0, 0, 3, 9, 8, 7]);
}

#[test]
fn timeouts_are_told_apart() {
    assert!(is_timeout_error(IoErrorKind::TimedOut));
    assert!(is_timeout_error(IoErrorKind::WouldBlock));
    assert!(!is_timeout_error(IoErrorKind::Other));
}

#[test]
fn allocation_rows_follow_nodes_and_cap_depth() {
    let mut nodes = Vec::new();
    for i in 0..20 {
        nodes.push(node(i, i - 1, "a.A", "m", "java/lang/String", 8, 1));
    }
    let rows = allocation_hotspots_from_agent_data(MemoryData {
        allocation_tree: Some(AllocationTree { nodes }),
        heap_used_bytes: 0,
        heap_committed_bytes: 0,
    });
    assert_eq!(rows.len(), 20);
    assert_eq!(rows[0].depth, 0);
    assert_eq!(rows[0].parent_id, None);
    assert_eq!(rows[5].depth, 5);
    assert_eq!(rows[5].parent_id, Some(4));
    assert_eq!(rows[19].depth, 16);
    assert_eq!(rows[19].allocated_type, "java.lang.String");
}

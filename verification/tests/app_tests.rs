use std::collections::HashSet;

use openprofiler::app::{
    collapse_selected_hotspot, database_row_count, ensure_default_jvm_selected,
    filtered_cpu_rows, hotspot_children, keep_visible, move_index, move_selection_in, next_jvm_pid, prev_jvm_pid,
    selected_hotspot_method_id, set_contains, toggle_focus_pane, toggle_member,
    toggle_selected_hotspot_expanded, visible_hotspot_row_count, FocusPane, MethodKey,
    Navigation, DEFAULT_PAGE_ROWS,
};
use openprofiler::event::{handle_key, Command, InputMode, KeyCode, KeyDebounce, KeyEvent, KeyEventKind};
use openprofiler::memory::{
    allocation_hotspot_has_children, allocation_hotspot_rows, allocation_tree_is_finite,
    filtered_memory_rows,
    toggle_selected_allocation_hotspot_expanded, visible_allocation_hotspot_rows,
};
use openprofiler::model::{AllocationHotSpotRow, CpuMethodEdgeRow, JvmTarget, MemoryClassRow, ViewId};

fn key(code: KeyCode) -> KeyEvent {
    KeyEvent { code, kind: KeyEventKind::Press, modifiers: 0 }
}

fn method(id: Option<i32>, method: &str, class_name: &str, method_name: &str) -> MethodKey {
    MethodKey {
        method_id: id,
        method: method.to_string(),
        class_name: class_name.to_string(),
        method_name: method_name.to_string(),
    }
}

fn jvm(pid: u32, name: &str, main: &str) -> JvmTarget {
    JvmTarget {
        pid,
        display_name: name.to_string(),
        main_class: main.to_string(),
        arguments: String::new(),
        profiled: false,
    }
}

#[test]
fn test_focus_navigation_model_for_cpu_hotspots() {
    let mut nav = Navigation::new();
    let mut focus = FocusPane::Sidebar;
    assert!(nav.selected_view == ViewId::StartCenter);
    assert!(matches!(focus, FocusPane::Sidebar));

    nav.go_to_view(ViewId::TeleOverview);
    nav.navigate_sidebar_down();
    assert!(nav.selected_view == ViewId::CpuHotSpots);
    nav.navigate_sidebar_down();
    assert!(nav.selected_view == ViewId::LiveAllocationHotSpots);
    nav.navigate_sidebar_down();
    assert!(nav.selected_view == ViewId::DatabasesJdbc);

    focus = toggle_focus_pane(focus);
    assert!(matches!(focus, FocusPane::Main));
    nav.go_to_view(ViewId::CpuHotSpots);
    let rows = vec![
        method(Some(1), "a.A.foo()V", "a.A", "foo"),
        method(Some(2), "a.B.bar()V", "a.B", "bar"),
    ];
    let edges = vec![CpuMethodEdgeRow {
        from_method_id: 1,
        to_method_id: 2,
        call_count: 1,
        total_duration_nano: 10_000_000,
    }];
    let mut expanded: HashSet<i32> = HashSet::new();
    let mut selected: usize = 0;
    let mut offset: usize = 0;

    let max_idx = visible_hotspot_row_count(&rows, &edges, &expanded, "").saturating_sub(1);
    selected = move_index(selected, 1, max_idx);
    keep_visible(&mut offset, selected, DEFAULT_PAGE_ROWS);
    assert_eq!(selected, 1);
    selected = move_index(selected, -1, max_idx);
    assert_eq!(selected, 0);
    toggle_selected_hotspot_expanded(&rows, &edges, &mut expanded, "", selected);
    assert!(set_contains(&expanded, 1));
    collapse_selected_hotspot(&rows, &edges, &mut expanded, "", selected);
    assert!(!set_contains(&expanded, 1));

    let jvms = vec![jvm(100, "first", "First"), jvm(200, "second", "Second")];
    nav.go_to_view(ViewId::StartCenter);
    assert_eq!(next_jvm_pid(&jvms, Some(100)), Some(200));
}

#[test]
fn test_enter_on_start_center_uses_initial_jvm_selection_once() {
    let jvms = vec![jvm(100, "first", "First")];
    let mut nav = Navigation::new();
    let mut filter = String::new();
    let (result, command) = handle_key(InputMode::Normal, &mut filter, key(KeyCode::Enter));
    assert!(!result.should_quit());
    assert_eq!(command, Command::Select);
    let selected = ensure_default_jvm_selected(&jvms, None);
    assert_eq!(selected, Some(100));
    nav.go_to_view(ViewId::TeleOverview);
    assert!(nav.selected_view == ViewId::TeleOverview);
}

#[test]
fn test_main_focus_navigation_for_memory_and_database() {
    let mut nav = Navigation::new();
    nav.go_to_view(ViewId::LiveAllocationHotSpots);
    let memory_rows = vec![
        MemoryClassRow {
            rank: 1,
            name: "a.A".to_string(),
            instances: 10,
            bytes: 100,
            delta_instances: 0,
            delta_bytes: 0,
        },
        MemoryClassRow {
            rank: 2,
            name: "b.B".to_string(),
            instances: 20,
            bytes: 200,
            delta_instances: 0,
            delta_bytes: 0,
        },
    ];
    let focus = toggle_focus_pane(FocusPane::Sidebar);
    assert!(matches!(focus, FocusPane::Main));
    let rows = allocation_hotspot_rows(&[], &memory_rows, None, "");
    let visible = visible_allocation_hotspot_rows(&rows, &HashSet::new(), false);
    let max_idx = visible.len().saturating_sub(1);
    let selected = move_index(0, 1, max_idx);
    assert!(nav.selected_view == ViewId::LiveAllocationHotSpots);
    assert_eq!(selected, 1);

    nav.go_to_view(ViewId::DatabasesJdbc);
    let methods = vec![
        method(None, "SQL.SELECT 1", "SQL", "SELECT 1"),
        method(None, "SQL.SELECT 2", "SQL", "SELECT 2"),
    ];
    let max_idx = database_row_count(0, &methods, "").saturating_sub(1);
    let selected = move_index(0, 1, max_idx);
    assert!(nav.selected_view == ViewId::DatabasesJdbc);
    assert_eq!(selected, 1);
}

#[test]
fn test_memory_hotspots_start_collapsed_and_page_scroll() {
    let mut hotspots: Vec<AllocationHotSpotRow> = (1..=25)
        .map(|id| AllocationHotSpotRow {
            node_id: id,
            parent_id: None,
            depth: 0,
            name: format!("root{id}"),
            allocated_type: "java.lang.Object".to_string(),
            bytes: 1_000 - id as u64,
            allocations: id as u64,
        })
        .collect();
    hotspots.push(AllocationHotSpotRow {
        node_id: 100,
        parent_id: Some(1),
        depth: 1,
        name: "child".to_string(),
        allocated_type: "java.lang.String".to_string(),
        bytes: 100,
        allocations: 1,
    });
    let rows = allocation_hotspot_rows(&hotspots, &[], None, "");
    let mut expanded: HashSet<i32> = HashSet::new();
    assert_eq!(visible_allocation_hotspot_rows(&rows, &expanded, false).len(), 25);
    assert!(allocation_hotspot_has_children(&rows, 1));

    let mut selected: usize = 0;
    toggle_selected_allocation_hotspot_expanded(&rows, &mut expanded, false, &mut selected);
    assert!(set_contains(&expanded, 1));
    assert_eq!(visible_allocation_hotspot_rows(&rows, &expanded, false).len(), 26);

    let mut offset: usize = 0;
    let max_idx = visible_allocation_hotspot_rows(&rows, &expanded, false).len() - 1;
    selected = move_index(selected, 20, max_idx);
    keep_visible(&mut offset, selected, DEFAULT_PAGE_ROWS);
    assert_eq!(selected, 20);
    assert_eq!(offset, 1);

    selected = move_index(selected, -20, max_idx);
    keep_visible(&mut offset, selected, DEFAULT_PAGE_ROWS);
    assert_eq!(selected, 0);
    assert_eq!(offset, 0);
}

#[test]
fn test_key_repeat_is_accepted_for_fast_navigation() {
    let mut debounce = KeyDebounce::new();
    let press = KeyEvent { code: KeyCode::Down, kind: KeyEventKind::Press, modifiers: 0 };
    let repeat = KeyEvent { code: KeyCode::Down, kind: KeyEventKind::Repeat, modifiers: 0 };
    assert!(debounce.should_accept(press, 1000));
    assert!(debounce.should_accept(press, 1001));
    assert!(debounce.should_accept(repeat, 1002));
}

#[test]
fn debounce_drops_quick_duplicate_presses() {
    let mut debounce = KeyDebounce::new();
    let press = KeyEvent { code: KeyCode::Char('s'), kind: KeyEventKind::Press, modifiers: 0 };
    assert!(debounce.should_accept(press, 1000));
    assert!(!debounce.should_accept(press, 1100));
    assert!(debounce.should_accept(press, 1180));
    let release = KeyEvent { code: KeyCode::Char('s'), kind: KeyEventKind::Release, modifiers: 0 };
    assert!(!debounce.should_accept(release, 5000));
}

#[test]
fn test_cpu_and_database_hotspots_are_separated() {
    let rows = vec![
        method(Some(1), "app.Service.run()V", "app.Service", "run"),
        method(Some(2), "SQL.SELECT * FROM inventory", "SQL", "SELECT * FROM inventory"),
        method(
            Some(3),
            "javax.persistence.Query.getResultList()Ljava/util/List;",
            "javax.persistence.Query",
            "getResultList",
        ),
    ];
    let edges = vec![CpuMethodEdgeRow {
        from_method_id: 1,
        to_method_id: 2,
        call_count: 1,
        total_duration_nano: 10_000_000,
    }];
    let cpu_rows = filtered_cpu_rows(&rows, "");
    assert_eq!(cpu_rows.len(), 2);
    assert!(cpu_rows.iter().all(|&i| rows[i].class_name != "SQL"));
    assert!(hotspot_children(&rows, &edges, 1).is_empty());
    assert_eq!(database_row_count(0, &rows, ""), 1);
}

#[test]
fn hotspot_children_sorted_by_duration() {
    let rows = vec![
        method(Some(1), "a.A.a()V", "a.A", "a"),
        method(Some(2), "a.B.b()V", "a.B", "b"),
        method(Some(3), "a.C.c()V", "a.C", "c"),
    ];
    let edges = vec![
        CpuMethodEdgeRow { from_method_id: 1, to_method_id: 2, call_count: 1, total_duration_nano: 5 },
        CpuMethodEdgeRow { from_method_id: 1, to_method_id: 3, call_count: 1, total_duration_nano: 9 },
        CpuMethodEdgeRow { from_method_id: 2, to_method_id: 3, call_count: 1, total_duration_nano: 7 },
    ];
    assert_eq!(hotspot_children(&rows, &edges, 1), vec![(1, 2), (0, 1)]);
    let expanded: HashSet<i32> = [1].into_iter().collect();
    assert_eq!(visible_hotspot_row_count(&rows, &edges, &expanded, ""), 5);
    assert_eq!(selected_hotspot_method_id(&rows, &edges, &expanded, "", 2), Some(1));
    assert_eq!(selected_hotspot_method_id(&rows, &edges, &expanded, "", 3), Some(2));
    assert_eq!(selected_hotspot_method_id(&rows, &edges, &expanded, "", 9), None);
    assert_eq!(filtered_cpu_rows(&rows, "B.B").len(), 1);
}

#[test]
fn jvm_cycle_wraps_and_steps_back() {
    let jvms = vec![jvm(1, "a", "A"), jvm(2, "b", "B"), jvm(3, "c", "C")];
    assert_eq!(next_jvm_pid(&jvms, Some(3)), Some(1));
    assert_eq!(prev_jvm_pid(&jvms, Some(1)), Some(3));
    assert_eq!(prev_jvm_pid(&jvms, next_jvm_pid(&jvms, Some(2))), Some(2));
    assert_eq!(next_jvm_pid(&jvms, Some(42)), Some(1));
    assert_eq!(next_jvm_pid(&[], Some(42)), Some(42));
    let demo = vec![jvm(1, "a", "A"), jvm(2, "b", "com.example.DemoServer")];
    assert_eq!(ensure_default_jvm_selected(&demo, None), Some(2));
    assert_eq!(ensure_default_jvm_selected(&demo, Some(1)), Some(1));
}

#[test]
fn focus_toggles_back() {
    assert_eq!(toggle_focus_pane(toggle_focus_pane(FocusPane::Main)), FocusPane::Main);
}

#[test]
fn categories_wrap_both_ways() {
    let mut nav = Navigation::new();
    nav.go_to_view(ViewId::DatabasesJdbc);
    nav.next_category();
    assert!(nav.selected_view == ViewId::TeleOverview);
    nav.prev_category();
    assert!(nav.selected_view == ViewId::DatabasesJdbc);
    nav.navigate_sidebar_up();
    assert!(nav.selected_view == ViewId::LiveAllocationHotSpots);
}

#[test]
fn set_toggle_and_memory_filter() {
    let mut set: HashSet<i32> = [3, 4].into_iter().collect();
    toggle_member(&mut set, 3);
    assert!(!set_contains(&set, 3));
    toggle_member(&mut set, 5);
    assert!(set_contains(&set, 5));
    let rows = vec![
        MemoryClassRow { rank: 1, name: "java.lang.String".to_string(), instances: 1, bytes: 2, delta_instances: 0, delta_bytes: 0 },
        MemoryClassRow { rank: 2, name: "a.B".to_string(), instances: 1, bytes: 2, delta_instances: 0, delta_bytes: 0 },
    ];
    assert_eq!(filtered_memory_rows(&rows, "STRING"), vec![0]);
}

fn alloc_row(node_id: i32, parent_id: Option<i32>, bytes: u64) -> AllocationHotSpotRow {
    AllocationHotSpotRow {
        node_id,
        parent_id,
        depth: 0,
        name: format!("n{node_id}"),
        allocated_type: "java.lang.Object".to_string(),
        bytes,
        allocations: 1,
    }
}

#[test]
fn allocation_tree_with_an_expanded_cycle_is_not_finite() {
    // 1 is a root; 2 and 3 point at each other below it.
    let rows = vec![
        alloc_row(1, None, 30),
        alloc_row(2, Some(1), 20),
        alloc_row(3, Some(2), 10),
        alloc_row(2, Some(3), 5),
    ];
    let mut expanded: HashSet<i32> = HashSet::new();
    assert!(allocation_tree_is_finite(&rows, &expanded, None));
    expanded.insert(1);
    expanded.insert(2);
    assert!(allocation_tree_is_finite(&rows, &expanded, None));
    assert_eq!(visible_allocation_hotspot_rows(&rows, &expanded, false).len(), 3);
    // Expanding 3 closes the cycle 2 -> 3 -> 2.
    assert!(!allocation_tree_is_finite(&rows, &expanded, Some(3)));
    expanded.insert(3);
    assert!(!allocation_tree_is_finite(&rows, &expanded, None));
    // Turning 2 back over breaks it again.
    assert!(allocation_tree_is_finite(&rows, &expanded, Some(2)));
    // While a filter is typed every row is shown, cycle or not.
    assert_eq!(visible_allocation_hotspot_rows(&rows, &expanded, true).len(), 4);
}

#[test]
fn move_selection_in_pages_and_clamps() {
    let mut selected: usize = 0;
    let mut offset: usize = 0;
    move_selection_in(&mut selected, &mut offset, 20, 30);
    assert_eq!((selected, offset), (20, 1));
    move_selection_in(&mut selected, &mut offset, 20, 30);
    assert_eq!((selected, offset), (29, 10));
    move_selection_in(&mut selected, &mut offset, -20, 30);
    assert_eq!((selected, offset), (9, 9));
    move_selection_in(&mut selected, &mut offset, 1, 0);
    assert_eq!((selected, offset), (0, 0));
}

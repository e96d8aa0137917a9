use std::collections::HashSet;
use vstd::prelude::*;

use crate::jvm::{demo_server_text, is_likely_demo_server, same_chars};
use crate::order::{desc_order_of, lemma_desc_order_congruent, lemma_desc_order_picked, stable_order_desc};
use crate::model::CpuMethodEdgeRow;
use crate::text::{chars_of, contains, contains_exec, string_of, to_lowercase};
use crate::model::{
    category_at, category_at_exec, category_views, category_views_exec, Category, JvmTarget,
    ViewId, CATEGORY_COUNT,
};
use crate::text::lowercase;

verus! {

/// Rows a page of a table shows.
pub const DEFAULT_PAGE_ROWS: usize = 20;

/// Thread dumps kept at most.
pub const MAX_THREAD_DUMPS: usize = 20;

/// Which pane keys act on.
#[derive(Clone, Copy, PartialEq, Eq, Structural, Debug)]
pub enum FocusPane {
    Sidebar,
    Main,
}

/// The other pane.
pub open spec fn other_pane(p: FocusPane) -> FocusPane {
    match p {
        FocusPane::Sidebar => FocusPane::Main,
        FocusPane::Main => FocusPane::Sidebar,
    }
}

/// The pane that focus moves to from `p`.
pub fn toggle_focus_pane(p: FocusPane) -> (q: FocusPane)
    ensures
        q == other_pane(p),
{
    match p {
        FocusPane::Sidebar => FocusPane::Main,
        FocusPane::Main => FocusPane::Sidebar,
    }
}

/// Toggling the focus twice leaves it where it was, and a toggle always changes it.
pub proof fn lemma_toggle_focus_twice(p: FocusPane)
    ensures
        other_pane(other_pane(p)) == p,
        other_pane(p) != p,
{
}

/// A selection moved by `delta`: down to 0 at the least going up, up to `max_idx` at the most
/// going down.
pub open spec fn moved_index(current: int, delta: int, max_idx: int) -> int {
    if delta < 0 {
        if current + delta < 0 {
            0
        } else {
            current + delta
        }
    } else if current + delta < max_idx {
        current + delta
    } else {
        max_idx
    }
}

/// The selection moved by `delta` rows.
pub fn move_index(current: usize, delta: isize, max_idx: usize) -> (r: usize)
    requires
        delta != isize::MIN,
    ensures
        r == moved_index(current as int, delta as int, max_idx as int),
{
    if delta < 0 {
        let d = (-delta) as usize;
        current.saturating_sub(d)
    } else {
        let d = delta as usize;
        let s = current.saturating_add(d);
        if s < max_idx {
            s
        } else {
            max_idx
        }
    }
}

/// Moving down never passes the last row, and moving up never passes the first.
pub proof fn lemma_move_index_bounds(current: int, delta: int, max_idx: int)
    requires
        0 <= current,
        0 <= max_idx,
    ensures
        0 <= moved_index(current, delta, max_idx),
        delta >= 0 ==> moved_index(current, delta, max_idx) <= max_idx,
        delta < 0 && current <= max_idx ==> moved_index(current, delta, max_idx) <= max_idx,
        delta < 0 ==> moved_index(current, delta, max_idx) <= current,
{
}

/// Moving down one page and up one page comes back to where it started when neither move hit
/// an end.
pub proof fn lemma_move_index_back(current: int, page: int, max_idx: int)
    requires
        0 < page,
        page <= current,
        current <= max_idx,
    ensures
        moved_index(moved_index(current, -page, max_idx), page, max_idx) == current,
{
}

/// The first visible row once the selected row is scrolled into a window of `page_rows` rows
/// (at least one) that starts at `offset` (its end counted with `usize` saturation).
pub open spec fn visible_offset(offset: int, selected: int, page_rows: int) -> int {
    let rows = if page_rows < 1 {
        1
    } else {
        page_rows
    };
    let end = if offset + rows > usize::MAX {
        usize::MAX as int
    } else {
        offset + rows
    };
    if selected < offset {
        selected
    } else if selected >= end {
        selected - (rows - 1)
    } else {
        offset
    }
}

/// Scrolls the window that starts at `offset` so that the selected row is in it.
pub fn keep_visible(offset: &mut usize, selected: usize, page_rows: usize)
    ensures
        *final(offset) == visible_offset(*old(offset) as int, selected as int, page_rows as int),
{
    let rows = if page_rows < 1 {
        1
    } else {
        page_rows
    };
    if selected < *offset {
        *offset = selected;
    } else if selected >= offset.saturating_add(rows) {
        *offset = selected.saturating_sub(rows - 1);
    }
}

/// Keeps a selection inside a list of `count` rows once the list has changed: the selected row
/// is clamped to the last row (the first when there are none) and the page window is scrolled
/// to show it.
pub fn clamp_selection(selected: &mut usize, offset: &mut usize, count: usize)
    ensures
        *final(selected) == (if *old(selected) as int <= count - 1 {
            *old(selected) as int
        } else if count == 0 {
            0
        } else {
            count - 1
        }),
        *final(offset) == visible_offset(
            *old(offset) as int,
            *final(selected) as int,
            DEFAULT_PAGE_ROWS as int,
        ),
{
    let max_idx = count.saturating_sub(1);
    if *selected > max_idx {
        *selected = max_idx;
    }
    keep_visible(offset, *selected, DEFAULT_PAGE_ROWS);
}

/// Moves a selection by `delta` rows inside a list of `count` rows (to the first row when there
/// are none) and scrolls the page window to show it.
pub fn move_selection_in(selected: &mut usize, offset: &mut usize, delta: isize, count: usize)
    requires
        delta != isize::MIN,
    ensures
        *final(selected) == moved_index(
            *old(selected) as int,
            delta as int,
            if count == 0 {
                0
            } else {
                count - 1
            },
        ),
        *final(offset) == visible_offset(
            *old(offset) as int,
            *final(selected) as int,
            DEFAULT_PAGE_ROWS as int,
        ),
{
    let max_idx = count.saturating_sub(1);
    *selected = move_index(*selected, delta, max_idx);
    keep_visible(offset, *selected, DEFAULT_PAGE_ROWS);
}

/// After scrolling, the selected row is inside the window; a window that already showed it
/// does not move.
pub proof fn lemma_keep_visible_shows_selection(offset: int, selected: int, page_rows: int)
    requires
        0 <= offset <= usize::MAX,
        0 <= selected <= usize::MAX,
        page_rows <= usize::MAX,
    ensures
        ({
            let rows = if page_rows < 1 {
                1
            } else {
                page_rows
            };
            let o = visible_offset(offset, selected, page_rows);
            0 <= o <= selected < o + rows
        }),
        offset <= selected < offset + (if page_rows < 1 {
            1
        } else {
            page_rows
        }) && selected < usize::MAX ==> visible_offset(offset, selected, page_rows) == offset,
{
}

/// Where the sidebar and the main view stand.
#[derive(Clone, Debug)]
pub struct Navigation {
    pub selected_view: ViewId,
    pub expanded: Vec<Category>,
    pub selected_category_idx: usize,
    pub selected_item_idx: usize,
    pub list_offset: usize,
}

impl Navigation {
    /// The selected category and item exist.
    pub open spec fn wf(&self) -> bool {
        &&& self.selected_category_idx < CATEGORY_COUNT
        &&& self.selected_item_idx < category_views(self.selected_category_idx as int).len()
    }

    /// The start center, with every category expanded and the first one selected.
    pub fn new() -> (n: Navigation)
        ensures
            n.wf(),
            n.selected_view == ViewId::StartCenter,
            n.expanded@ == seq![
                Category::Telemetries,
                Category::LiveMemory,
                Category::CpuViews,
                Category::Databases,
            ],
            n.selected_category_idx == 0,
            n.selected_item_idx == 0,
            n.list_offset == 0,
    {
        let mut expanded: Vec<Category> = Vec::new();
        expanded.push(Category::Telemetries);
        expanded.push(Category::LiveMemory);
        expanded.push(Category::CpuViews);
        expanded.push(Category::Databases);
        Navigation {
            selected_view: ViewId::StartCenter,
            expanded,
            selected_category_idx: 0,
            selected_item_idx: 0,
            list_offset: 0,
        }
    }

    /// The views of the selected category.
    pub fn current_category_views(&self) -> (v: Vec<ViewId>)
        ensures
            v@ == category_views(
                if self.selected_category_idx < CATEGORY_COUNT {
                    self.selected_category_idx as int
                } else {
                    CATEGORY_COUNT - 1
                },
            ),
    {
        let i = if self.selected_category_idx < CATEGORY_COUNT {
            self.selected_category_idx
        } else {
            CATEGORY_COUNT - 1
        };
        category_views_exec(i)
    }

    /// Selects the category at `idx` and its first view.
    fn select_category(&mut self, idx: usize)
        requires
            idx < CATEGORY_COUNT,
        ensures
            final(self).selected_category_idx == idx,
            final(self).selected_item_idx == 0,
            final(self).list_offset == 0,
            final(self).selected_view == category_views(idx as int)[0],
            final(self).expanded == old(self).expanded,
    {
        self.selected_category_idx = idx;
        self.selected_item_idx = 0;
        self.list_offset = 0;
        let views = category_views_exec(idx);
        self.selected_view = views[0];
    }

    /// Selects the next category (the first after the last) and its first view.
    pub fn next_category(&mut self)
        requires
            old(self).wf(),
        ensures
            final(self).wf(),
            final(self).selected_category_idx == (old(self).selected_category_idx + 1)
                % CATEGORY_COUNT as int,
            final(self).selected_item_idx == 0,
            final(self).list_offset == 0,
            final(self).selected_view == category_views(
                final(self).selected_category_idx as int,
            )[0],
            final(self).expanded == old(self).expanded,
    {
        let idx = (self.selected_category_idx + 1) % CATEGORY_COUNT;
        self.select_category(idx);
    }

    /// Selects the previous category (the last before the first) and its first view.
    pub fn prev_category(&mut self)
        requires
            old(self).wf(),
        ensures
            final(self).wf(),
            final(self).selected_category_idx == (old(self).selected_category_idx
                + CATEGORY_COUNT - 1) % CATEGORY_COUNT as int,
            final(self).selected_item_idx == 0,
            final(self).list_offset == 0,
            final(self).selected_view == category_views(
                final(self).selected_category_idx as int,
            )[0],
            final(self).expanded == old(self).expanded,
    {
        let idx = (self.selected_category_idx + CATEGORY_COUNT - 1) % CATEGORY_COUNT;
        self.select_category(idx);
    }

    /// Moves the sidebar selection one item down, into the next category after the last item.
    pub fn navigate_sidebar_down(&mut self)
        requires
            old(self).wf(),
        ensures
            final(self).wf(),
            old(self).selected_item_idx + 1 < category_views(
                old(self).selected_category_idx as int,
            ).len() ==> final(self).selected_category_idx == old(self).selected_category_idx
                && final(self).selected_item_idx == old(self).selected_item_idx + 1,
            old(self).selected_item_idx + 1 >= category_views(
                old(self).selected_category_idx as int,
            ).len() ==> final(self).selected_category_idx == (old(self).selected_category_idx
                + 1) % CATEGORY_COUNT as int && final(self).selected_item_idx == 0,
            final(self).selected_view == category_views(
                final(self).selected_category_idx as int,
            )[final(self).selected_item_idx as int],
            final(self).expanded == old(self).expanded,
    {
        let views = self.current_category_views();
        if self.selected_item_idx + 1 < views.len() {
            self.selected_item_idx = self.selected_item_idx + 1;
        } else {
            self.next_category();
        }
        let views = self.current_category_views();
        self.selected_view = views[self.selected_item_idx];
    }

    /// Moves the sidebar selection one item up, into the previous category before the first
    /// item.
    pub fn navigate_sidebar_up(&mut self)
        requires
            old(self).wf(),
        ensures
            final(self).wf(),
            old(self).selected_item_idx > 0 ==> final(self).selected_category_idx == old(
                self,
            ).selected_category_idx && final(self).selected_item_idx == old(
                self,
            ).selected_item_idx - 1,
            old(self).selected_item_idx == 0 ==> final(self).selected_category_idx == (old(
                self,
            ).selected_category_idx + CATEGORY_COUNT - 1) % CATEGORY_COUNT as int
                && final(self).selected_item_idx == 0,
            final(self).selected_view == category_views(
                final(self).selected_category_idx as int,
            )[final(self).selected_item_idx as int],
            final(self).expanded == old(self).expanded,
    {
        if self.selected_item_idx > 0 {
            self.selected_item_idx = self.selected_item_idx - 1;
        } else {
            self.prev_category();
        }
        let views = self.current_category_views();
        self.selected_view = views[self.selected_item_idx];
    }

    /// Shows the selected sidebar item.
    pub fn select_current_item(&mut self)
        requires
            old(self).wf(),
        ensures
            *final(self) == (Navigation {
                selected_view: category_views(old(self).selected_category_idx as int)[old(
                    self,
                ).selected_item_idx as int],
                ..*old(self)
            }),
    {
        let views = self.current_category_views();
        if views.len() > 0 {
            self.selected_view = views[self.selected_item_idx];
        }
    }

    /// Shows `view`; where a category lists it, selects that category and item and expands the
    /// category.
    pub fn go_to_view(&mut self, view: ViewId)
        requires
            old(self).wf(),
        ensures
            final(self).wf(),
            final(self).selected_view == view,
            final(self).list_offset == old(self).list_offset,
            match category_of_view(view) {
                None => final(self).selected_category_idx == old(self).selected_category_idx
                    && final(self).selected_item_idx == old(self).selected_item_idx
                    && final(self).expanded == old(self).expanded,
                Some(i) => {
                    &&& final(self).selected_category_idx == i
                    &&& category_views(i as int)[final(self).selected_item_idx as int] == view
                    &&& final(self).expanded@ == (if old(self).expanded@.contains(
                        category_at(i as int),
                    ) {
                        old(self).expanded@
                    } else {
                        old(self).expanded@.push(category_at(i as int))
                    })
                },
            },
    {
        self.selected_view = view;
        let mut i: usize = 0;
        while i < CATEGORY_COUNT
            invariant
                i <= CATEGORY_COUNT,
                forall|k: int| 0 <= k < i ==> !category_views(k).contains(view),
                self.wf(),
                self.selected_view == view,
                self.list_offset == old(self).list_offset,
                self.selected_category_idx == old(self).selected_category_idx,
                self.selected_item_idx == old(self).selected_item_idx,
                self.expanded == old(self).expanded,
            decreases CATEGORY_COUNT - i,
        {
            let views = category_views_exec(i);
            let mut j: usize = 0;
            while j < views.len()
                invariant
                    j <= views@.len(),
                    views@ == category_views(i as int),
                    forall|k: int| 0 <= k < j ==> views@[k] != view,
                ensures
                    j <= views@.len(),
                    views@ == category_views(i as int),
                    forall|k: int| 0 <= k < j ==> views@[k] != view,
                    j < views@.len() ==> views@[j as int] == view,
                decreases views@.len() - j,
            {
                if views[j] == view {
                    break;
                }
                j = j + 1;
            }
            if j < views.len() {
                self.selected_category_idx = i;
                self.selected_item_idx = j;
                let cat = category_at_exec(i);
                let mut found = false;
                let mut k: usize = 0;
                while k < self.expanded.len()
                    invariant
                        k <= self.expanded@.len(),
                        found == (exists|m: int| 0 <= m < k && self.expanded@[m] == cat),
                    decreases self.expanded@.len() - k,
                {
                    if self.expanded[k] == cat {
                        found = true;
                    }
                    k = k + 1;
                }
                if !found {
                    self.expanded.push(cat);
                }
                proof {
                    assert(views@[j as int] == view);
                    assert(category_views(i as int).contains(view));
                    lemma_category_of_view(view, i as int);
                }
                return;
            }
            i = i + 1;
        }
        proof {
            lemma_category_of_view_none(view);
        }
    }
}

/// The first category whose views list `view`.
pub open spec fn category_of_view(view: ViewId) -> Option<usize> {
    if category_views(0).contains(view) {
        Some(0)
    } else if category_views(1).contains(view) {
        Some(1)
    } else if category_views(2).contains(view) {
        Some(2)
    } else if category_views(3).contains(view) {
        Some(3)
    } else {
        None
    }
}

proof fn lemma_category_of_view(view: ViewId, i: int)
    requires
        0 <= i < CATEGORY_COUNT,
        category_views(i).contains(view),
        forall|k: int| 0 <= k < i ==> !category_views(k).contains(view),
    ensures
        category_of_view(view) == Some(i as usize),
{
}

proof fn lemma_category_of_view_none(view: ViewId)
    requires
        forall|k: int| 0 <= k < CATEGORY_COUNT ==> !category_views(k).contains(view),
    ensures
        category_of_view(view) is None,
{
    assert(!category_views(0).contains(view));
    assert(!category_views(1).contains(view));
    assert(!category_views(2).contains(view));
    assert(!category_views(3).contains(view));
}

/// Going to the next category and back selects the category that was selected.
pub proof fn lemma_next_prev_category(idx: int)
    requires
        0 <= idx < CATEGORY_COUNT,
    ensures
        ((idx + 1) % CATEGORY_COUNT as int + CATEGORY_COUNT - 1) % CATEGORY_COUNT as int == idx,
        ((idx + CATEGORY_COUNT - 1) % CATEGORY_COUNT as int + 1) % CATEGORY_COUNT as int == idx,
{
}

/// The position of the first JVM with process id `pid`, at or after `i`.
pub open spec fn jvm_index_from(jvms: Seq<JvmTarget>, pid: u32, i: int) -> Option<int>
    decreases jvms.len() - i,
{
    if i < 0 || i >= jvms.len() {
        None
    } else if jvms[i].pid == pid {
        Some(i)
    } else {
        jvm_index_from(jvms, pid, i + 1)
    }
}

pub proof fn lemma_jvm_index_from(jvms: Seq<JvmTarget>, pid: u32, i: int)
    requires
        0 <= i,
    ensures
        match jvm_index_from(jvms, pid, i) {
            None => forall|j: int| i <= j < jvms.len() ==> jvms[j].pid != pid,
            Some(k) => i <= k < jvms.len() && jvms[k].pid == pid && forall|j: int|
                i <= j < k ==> jvms[j].pid != pid,
        },
    decreases jvms.len() - i,
{
    if i < jvms.len() && jvms[i].pid != pid {
        lemma_jvm_index_from(jvms, pid, i + 1);
    }
}

/// The JVM selected after one step forward or back through the list, wrapping around: the
/// first JVM when the selected one (process id 0 when none is selected) is not listed, and the
/// selection unchanged when the list is empty.
pub open spec fn stepped_jvm(jvms: Seq<JvmTarget>, selected: Option<u32>, forward: bool) -> Option<
    u32,
> {
    if jvms.len() == 0 {
        selected
    } else {
        let current = match selected {
            Some(p) => p,
            None => 0u32,
        };
        match jvm_index_from(jvms, current, 0) {
            Some(i) => Some(
                jvms[if forward {
                    if i + 1 < jvms.len() {
                        i + 1
                    } else {
                        0
                    }
                } else if i > 0 {
                    i - 1
                } else {
                    jvms.len() - 1
                }].pid,
            ),
            None => Some(jvms[0].pid),
        }
    }
}

fn step_jvm(jvms: &[JvmTarget], selected: Option<u32>, forward: bool) -> (r: Option<u32>)
    ensures
        r == stepped_jvm(jvms@, selected, forward),
{
    if jvms.len() == 0 {
        return selected;
    }
    let current = match selected {
        Some(p) => p,
        None => 0u32,
    };
    let n = jvms.len();
    let mut i: usize = 0;
    while i < n
        invariant
            n == jvms@.len(),
            n > 0,
            i <= n,
            current == (match selected {
                Some(p) => p,
                None => 0u32,
            }),
            jvm_index_from(jvms@, current, 0) == jvm_index_from(jvms@, current, i as int),
        decreases n - i,
    {
        if jvms[i].pid == current {
            let k = if forward {
                if i + 1 < n {
                    i + 1
                } else {
                    0
                }
            } else if i > 0 {
                i - 1
            } else {
                n - 1
            };
            return Some(jvms[k].pid);
        }
        i = i + 1;
    }
    Some(jvms[0].pid)
}

/// The JVM that moving down through the list selects.
pub fn next_jvm_pid(jvms: &[JvmTarget], selected: Option<u32>) -> (r: Option<u32>)
    ensures
        r == stepped_jvm(jvms@, selected, true),
{
    step_jvm(jvms, selected, true)
}

/// The JVM that moving up through the list selects.
pub fn prev_jvm_pid(jvms: &[JvmTarget], selected: Option<u32>) -> (r: Option<u32>)
    ensures
        r == stepped_jvm(jvms@, selected, false),
{
    step_jvm(jvms, selected, false)
}

/// No two listed JVMs share a process id.
pub open spec fn distinct_pids(jvms: Seq<JvmTarget>) -> bool {
    forall|a: int, b: int| 0 <= a < b < jvms.len() ==> jvms[a].pid != jvms[b].pid
}

proof fn lemma_index_of_listed(jvms: Seq<JvmTarget>, k: int)
    requires
        distinct_pids(jvms),
        0 <= k < jvms.len(),
    ensures
        jvm_index_from(jvms, jvms[k].pid, 0) == Some(k),
{
    lemma_jvm_index_from(jvms, jvms[k].pid, 0);
}

/// With distinct process ids, a step down and a step up (or up and down) come back to a listed
/// selection.
pub proof fn lemma_next_prev_jvm(jvms: Seq<JvmTarget>, k: int)
    requires
        distinct_pids(jvms),
        0 <= k < jvms.len(),
    ensures
        stepped_jvm(jvms, stepped_jvm(jvms, Some(jvms[k].pid), true), false) == Some(jvms[k].pid),
        stepped_jvm(jvms, stepped_jvm(jvms, Some(jvms[k].pid), false), true) == Some(jvms[k].pid),
{
    let n = jvms.len() as int;
    lemma_index_of_listed(jvms, k);
    let a = if k + 1 < n {
        k + 1
    } else {
        0
    };
    let b = if k > 0 {
        k - 1
    } else {
        n - 1
    };
    lemma_index_of_listed(jvms, a);
    lemma_index_of_listed(jvms, b);
}

/// The JVM picked when none is selected: the first that looks like a demo or a server, else
/// the first.
pub open spec fn default_jvm(jvms: Seq<JvmTarget>, i: int) -> Option<u32>
    decreases jvms.len() - i,
{
    if i < 0 || i >= jvms.len() {
        if jvms.len() > 0 {
            Some(jvms[0].pid)
        } else {
            None
        }
    } else if demo_server_text(
        lowercase(jvms[i].main_class@ + " "@ + jvms[i].arguments@),
    ) {
        Some(jvms[i].pid)
    } else {
        default_jvm(jvms, i + 1)
    }
}

/// The selection kept when a JVM is selected or none is listed, else the default JVM.
pub open spec fn ensured_selection(jvms: Seq<JvmTarget>, selected: Option<u32>) -> Option<u32> {
    if selected is Some || jvms.len() == 0 {
        selected
    } else {
        default_jvm(jvms, 0)
    }
}

/// The selection once a default JVM has been picked where none was.
pub fn ensure_default_jvm_selected(jvms: &[JvmTarget], selected: Option<u32>) -> (r: Option<u32>)
    ensures
        r == ensured_selection(jvms@, selected),
{
    if selected.is_some() || jvms.len() == 0 {
        return selected;
    }
    let mut i: usize = 0;
    while i < jvms.len()
        invariant
            i <= jvms@.len(),
            jvms@.len() > 0,
            selected is None,
            default_jvm(jvms@, 0) == default_jvm(jvms@, i as int),
        decreases jvms@.len() - i,
    {
        if is_likely_demo_server(&jvms[i]) {
            assert(default_jvm(jvms@, i as int) == Some(jvms@[i as int].pid));
            return Some(jvms[i].pid);
        }
        i = i + 1;
    }
    Some(jvms[0].pid)
}

/// What the hot spot views read of a CPU method row.
#[derive(Clone, Debug)]
pub struct MethodKey {
    pub method_id: Option<i32>,
    pub method: String,
    pub class_name: String,
    pub method_name: String,
}

/// A row of the agent's SQL probe: its class is `SQL`.
pub open spec fn is_sql_class(class_name: Seq<char>) -> bool {
    class_name == "SQL"@
}

/// Whether a method row stands for an SQL statement.
pub fn is_database_method(row: &MethodKey) -> (b: bool)
    ensures
        b == is_sql_class(row.class_name@),
{
    let c = chars_of(row.class_name.as_str());
    let sql = chars_of("SQL");
    same_chars(c.as_slice(), sql.as_slice())
}

/// The label of a database row: the statement of an SQL row, else the method.
pub open spec fn database_label(row: MethodKey) -> Seq<char> {
    if is_sql_class(row.class_name@) {
        row.method_name@
    } else {
        row.method@
    }
}

/// The label of a database row.
pub fn database_method_label(row: &MethodKey) -> (r: String)
    ensures
        r@ == database_label(*row),
{
    if is_database_method(row) {
        row.method_name.clone()
    } else {
        row.method.clone()
    }
}

/// The positions `0..n` that `pick` admits, in increasing order.
pub open spec fn positions_where(pick: spec_fn(int) -> bool, n: int) -> Seq<int>
    decreases n,
{
    if n <= 0 {
        seq![]
    } else if pick(n - 1) {
        positions_where(pick, n - 1).push(n - 1)
    } else {
        positions_where(pick, n - 1)
    }
}

/// `positions_where` lists at most `n` positions.
pub proof fn lemma_positions_where_len(pick: spec_fn(int) -> bool, n: int)
    ensures
        positions_where(pick, n).len() <= if n < 0 {
            0
        } else {
            n
        },
    decreases n,
{
    if n > 0 {
        lemma_positions_where_len(pick, n - 1);
    }
}

/// Where `x` first stands among the positions that `pick` admits below `n`.
pub proof fn lemma_positions_where_first(pick: spec_fn(int) -> bool, n: int, x: int)
    requires
        n >= 1,
    ensures
        positions_where(pick, n).contains(x) <==> (0 <= x < n && pick(x)),
        positions_where(pick, n - 1).contains(x) ==> positions_where(pick, n).index_of_first(x)
            == positions_where(pick, n - 1).index_of_first(x),
        x == n - 1 && pick(x) ==> positions_where(pick, n).index_of_first(x) == Some(
            positions_where(pick, n - 1).len() as int,
        ),
        !(0 <= x < n && pick(x)) ==> positions_where(pick, n).index_of_first(x) is None,
    decreases n,
{
    lemma_positions_where_members(pick, n);
    lemma_positions_where_members(pick, n - 1);
    let a = positions_where(pick, n - 1);
    let b = positions_where(pick, n);
    a.index_of_first_ensures(x);
    b.index_of_first_ensures(x);
    if pick(n - 1) {
        assert(b == a.push(n - 1));
        if a.contains(x) {
            let i = a.index_of_first(x).unwrap();
            assert(b[i] == x);
            assert forall|j: int| 0 <= j < i implies b[j] != x by {
                assert(b[j] == a[j]);
            }
        }
        if x == n - 1 && !a.contains(x) {
            assert(b[a.len() as int] == x);
            assert forall|j: int| 0 <= j < a.len() implies b[j] != x by {
                assert(b[j] == a[j]);
                assert(!a.contains(x));
                if b[j] == x {
                    assert(a.contains(x));
                }
            }
        }
    }
    if !(0 <= x < n && pick(x)) {
        if b.contains(x) {
        }
    }
}

/// `positions_where` lists exactly the admitted positions below `n`, in increasing order.
pub proof fn lemma_positions_where_members(pick: spec_fn(int) -> bool, n: int)
    ensures
        forall|x: int| positions_where(pick, n).contains(x) <==> (0 <= x < n && pick(x)),
        forall|a: int, b: int|
            0 <= a < b < positions_where(pick, n).len() ==> positions_where(pick, n)[a]
                < positions_where(pick, n)[b],
        forall|a: int|
            0 <= a < positions_where(pick, n).len() ==> 0 <= #[trigger] positions_where(pick, n)[a]
                < n,
    decreases n,
{
    if n > 0 {
        lemma_positions_where_members(pick, n - 1);
        let a = positions_where(pick, n - 1);
        let b = positions_where(pick, n);
        assert forall|x: int| b.contains(x) <==> (0 <= x < n && pick(x)) by {
            if pick(n - 1) {
                assert(b == a.push(n - 1));
                if b.contains(x) {
                    let k = choose|k: int| 0 <= k < b.len() && b[k] == x;
                    if k < a.len() {
                        assert(a[k] == x);
                        assert(a.contains(x));
                    }
                }
                if 0 <= x < n && pick(x) {
                    if x < n - 1 {
                        assert(a.contains(x));
                        let k = choose|k: int| 0 <= k < a.len() && a[k] == x;
                        assert(b[k] == x);
                    } else {
                        assert(b[a.len() as int] == x);
                    }
                }
            }
        }
    }
}

/// The filter of the CPU hot spots keeps `text`: the filter is empty (as typed or lower-cased)
/// or the lower-cased text contains the lower-cased filter.
pub open spec fn cpu_filter_keeps(filter_input: Seq<char>, text: Seq<char>) -> bool {
    filter_input.len() == 0 || contains(
        lowercase(text),
        lowercase(filter_input),
    )
}

/// Row `i` is listed among the CPU hot spots: it is no SQL row and the filter keeps its method.
pub open spec fn cpu_row_listed(rows: Seq<MethodKey>, filter_input: Seq<char>, i: int) -> bool {
    !is_sql_class(rows[i].class_name@) && cpu_filter_keeps(filter_input, rows[i].method@)
}

/// The positions of the rows listed among the CPU hot spots, in order.
pub open spec fn listed_cpu_rows(rows: Seq<MethodKey>, filter_input: Seq<char>) -> Seq<int> {
    positions_where(|i: int| cpu_row_listed(rows, filter_input, i), rows.len() as int)
}

/// The positions of the rows listed among the CPU hot spots: no SQL rows, and only those whose
/// method contains the filter, case aside.
pub fn filtered_cpu_rows(rows: &[MethodKey], filter_input: &str) -> (out: Vec<usize>)
    ensures
        out@.map_values(|x: usize| x as int) == listed_cpu_rows(rows@, filter_input@),
{
    let ghost pick = |i: int| cpu_row_listed(rows@, filter_input@, i);
    let empty = filter_input.is_empty();
    let filter = to_lowercase(filter_input);
    let fc = chars_of(filter.as_str());
    let mut out: Vec<usize> = Vec::new();
    let mut n: usize = 0;
    while n < rows.len()
        invariant
            n <= rows@.len(),
            pick == (|i: int| cpu_row_listed(rows@, filter_input@, i)),
            empty == (filter_input@.len() == 0),
            fc@ == lowercase(filter_input@),
            (fc@.len() == 0) == (filter_input@.len() == 0),
            out@.map_values(|x: usize| x as int) == positions_where(pick, n as int),
        decreases rows@.len() - n,
    {
        let keep = if is_database_method(&rows[n]) {
            false
        } else if empty || fc.len() == 0 {
            true
        } else {
            let m = to_lowercase(rows[n].method.as_str());
            contains_exec(chars_of(m.as_str()).as_slice(), fc.as_slice())
        };
        assert(keep == pick(n as int));
        if keep {
            out.push(n);
        }
        n = n + 1;
        proof {
            assert(out@.map_values(|x: usize| x as int) =~= positions_where(pick, n as int));
        }
    }
    out
}

/// The last row that is no SQL row and has method id `id`, among the first `n`.
pub open spec fn method_row_with_id(rows: Seq<MethodKey>, id: i32, n: int) -> Option<int>
    decreases n,
{
    if n <= 0 {
        None
    } else if !is_sql_class(rows[n - 1].class_name@) && rows[n - 1].method_id == Some(id) {
        Some(n - 1)
    } else {
        method_row_with_id(rows, id, n - 1)
    }
}

pub proof fn lemma_method_row_with_id(rows: Seq<MethodKey>, id: i32, n: int)
    requires
        n <= rows.len(),
    ensures
        match method_row_with_id(rows, id, n) {
            None => true,
            Some(k) => 0 <= k < n && !is_sql_class(rows[k].class_name@) && rows[k].method_id
                == Some(id),
        },
    decreases n,
{
    if n > 0 {
        lemma_method_row_with_id(rows, id, n - 1);
    }
}

/// The edge at position `e` leaves `method_id` and reaches a listed method row.
pub open spec fn child_edge(
    rows: Seq<MethodKey>,
    edges: Seq<CpuMethodEdgeRow>,
    method_id: i32,
    e: int,
) -> bool {
    edges[e].from_method_id == method_id && method_row_with_id(
        rows,
        edges[e].to_method_id,
        rows.len() as int,
    ) is Some
}

/// The total durations of the edges.
pub open spec fn edge_durations(edges: Seq<CpuMethodEdgeRow>) -> Seq<u64> {
    edges.map_values(|e: CpuMethodEdgeRow| e.total_duration_nano)
}

/// The callees of `method_id`: each edge that leaves it and reaches a method row that is no SQL
/// row (the last such row with the edge's target id), with the position of that row, the
/// longest total duration first and edges of equal duration in their order.
pub open spec fn hotspot_child_list(
    rows: Seq<MethodKey>,
    edges: Seq<CpuMethodEdgeRow>,
    method_id: i32,
) -> Seq<(int, int)> {
    desc_order_of(
        edge_durations(edges),
        |e: int| child_edge(rows, edges, method_id, e),
        edges.len() as int,
    ).map_values(
        |e: int|
            (e, method_row_with_id(rows, edges[e].to_method_id, rows.len() as int).unwrap()),
    )
}

/// The last row that is no SQL row and has method id `id`.
fn find_method_row(rows: &[MethodKey], id: i32) -> (r: Option<usize>)
    ensures
        r is Some == method_row_with_id(rows@, id, rows@.len() as int) is Some,
        r is Some ==> r.unwrap() < rows@.len() && r.unwrap() as int == method_row_with_id(
            rows@,
            id,
            rows@.len() as int,
        ).unwrap(),
{
    proof {
        lemma_method_row_with_id(rows@, id, rows@.len() as int);
    }
    let mut n = rows.len();
    while n > 0
        invariant
            n <= rows@.len(),
            method_row_with_id(rows@, id, rows@.len() as int) == method_row_with_id(
                rows@,
                id,
                n as int,
            ),
        decreases n,
    {
        if !is_database_method(&rows[n - 1]) && rows[n - 1].method_id == Some(id) {
            assert(method_row_with_id(rows@, id, n as int) == Some(n - 1));
            return Some(n - 1);
        }
        n = n - 1;
    }
    None
}

/// The callees of a hot spot, as positions of an edge and of the callee's row.
pub fn hotspot_children(rows: &[MethodKey], edges: &[CpuMethodEdgeRow], method_id: i32) -> (out:
    Vec<(usize, usize)>)
    ensures
        out@.map_values(|p: (usize, usize)| (p.0 as int, p.1 as int)) == hotspot_child_list(
            rows@,
            edges@,
            method_id,
        ),
        forall|j: int|
            0 <= j < out@.len() ==> out@[j].0 < edges@.len() && out@[j].1 < rows@.len(),
{
    let ghost pick = |e: int| child_edge(rows@, edges@, method_id, e);
    let mut keys: Vec<u64> = Vec::new();
    let mut picks: Vec<bool> = Vec::new();
    let mut targets: Vec<usize> = Vec::new();
    let mut i: usize = 0;
    while i < edges.len()
        invariant
            i <= edges@.len(),
            keys@.len() == i && picks@.len() == i && targets@.len() == i,
            forall|k: int| 0 <= k < i ==> keys@[k] == edges@[k].total_duration_nano,
            forall|k: int| 0 <= k < i ==> picks@[k] == pick(k),
            pick == (|e: int| child_edge(rows@, edges@, method_id, e)),
            forall|k: int|
                0 <= k < i && picks@[k] ==> targets@[k] < rows@.len() && targets@[k] as int
                    == method_row_with_id(rows@, edges@[k].to_method_id, rows@.len() as int).unwrap(),
        decreases edges@.len() - i,
    {
        keys.push(edges[i].total_duration_nano);
        let found = if edges[i].from_method_id == method_id {
            find_method_row(rows, edges[i].to_method_id)
        } else {
            None
        };
        proof {
            lemma_method_row_with_id(rows@, edges@[i as int].to_method_id, rows@.len() as int);
        }
        match found {
            Some(k) => {
                assert(pick(i as int));
                assert(k as int == method_row_with_id(
                    rows@,
                    edges@[i as int].to_method_id,
                    rows@.len() as int,
                ).unwrap());
                picks.push(true);
                targets.push(k);
            },
            None => {
                picks.push(false);
                targets.push(0);
            },
        }
        i = i + 1;
    }
    assert(keys@ =~= edge_durations(edges@));
    let order = stable_order_desc(keys.as_slice(), picks.as_slice());
    proof {
        lemma_desc_order_congruent(keys@, |i: int| picks@[i], pick, edges@.len() as int);
    }
    let ghost ov = order@.map_values(|x: usize| x as int);
    proof {
        lemma_desc_order_picked(keys@, pick, edges@.len() as int);
    }
    let mut out: Vec<(usize, usize)> = Vec::new();
    let mut j: usize = 0;
    while j < order.len()
        invariant
            j <= order@.len(),
            ov == order@.map_values(|x: usize| x as int),
            ov == desc_order_of(keys@, pick, edges@.len() as int),
            keys@.len() == edges@.len() && picks@.len() == edges@.len() && targets@.len()
                == edges@.len(),
            forall|k: int| 0 <= k < ov.len() ==> 0 <= ov[k] < edges@.len() && pick(ov[k]),
            forall|k: int| 0 <= k < edges@.len() ==> picks@[k] == pick(k),
            forall|k: int|
                0 <= k < edges@.len() && picks@[k] ==> targets@[k] < rows@.len() && targets@[k] as int
                    == method_row_with_id(rows@, edges@[k].to_method_id, rows@.len() as int).unwrap(),
            out@.map_values(|p: (usize, usize)| (p.0 as int, p.1 as int)) == ov.take(
                j as int,
            ).map_values(
                |e: int|
                    (e, method_row_with_id(rows@, edges@[e].to_method_id, rows@.len() as int).unwrap()),
            ),
            forall|k: int|
                0 <= k < out@.len() ==> out@[k].0 < edges@.len() && out@[k].1 < rows@.len(),
        decreases order@.len() - j,
    {
        let e = order[j];
        assert(ov[j as int] == e as int);
        assert(pick(e as int));
        assert(picks@[e as int]);
        let t = targets[e];
        assert(t as int == method_row_with_id(rows@, edges@[e as int].to_method_id, rows@.len() as int).unwrap());
        let ghost before = out@;
        out.push((e, t));
        j = j + 1;
        proof {
            let f = |e: int|
                (e, method_row_with_id(rows@, edges@[e].to_method_id, rows@.len() as int).unwrap());
            let g = |p: (usize, usize)| (p.0 as int, p.1 as int);
            assert(ov.take(j as int) =~= ov.take(j - 1).push(e as int));
            assert(ov.take(j as int).map_values(f) =~= ov.take(j - 1).map_values(f).push(f(e as int)));
            assert(out@.map_values(g) =~= before.map_values(g).push(g((e, t))));
            assert(out@.map_values(|p: (usize, usize)| (p.0 as int, p.1 as int)) =~= ov.take(
                j as int,
            ).map_values(
                |e: int|
                    (e, method_row_with_id(rows@, edges@[e].to_method_id, rows@.len() as int).unwrap()),
            ));
        }
    }
    proof {
        assert(ov.take(ov.len() as int) =~= ov);
    }
    out
}

/// Whether `x` is in the set.
pub fn set_contains(set: &HashSet<i32>, x: i32) -> (b: bool)
    ensures
        b == set@.contains(x),
{
    broadcast use vstd::std_specs::hash::group_hash_axioms;

    set.contains(&x)
}

/// Takes `x` out of the set.
pub fn remove_member(set: &mut HashSet<i32>, x: i32)
    ensures
        final(set)@ == old(set)@.remove(x),
{
    broadcast use vstd::std_specs::hash::group_hash_axioms;

    set.remove(&x);
}

/// Takes `x` out of the set when it is in, and puts it in otherwise.
pub fn toggle_member(set: &mut HashSet<i32>, x: i32)
    ensures
        final(set)@ == toggled(old(set)@, x),
{
    broadcast use vstd::std_specs::hash::group_hash_axioms;

    if set.contains(&x) {
        set.remove(&x);
    } else {
        set.insert(x);
    }
}

/// The lines that the hot spot table shows for the first `n` rows: each listed row by its
/// method id, followed, when its method id is expanded, by one line per callee carrying the
/// caller's id.
pub open spec fn hotspot_lines_upto(
    rows: Seq<MethodKey>,
    edges: Seq<CpuMethodEdgeRow>,
    expanded: Set<i32>,
    filter_input: Seq<char>,
    n: int,
) -> Seq<Option<i32>>
    decreases n,
{
    if n <= 0 {
        seq![]
    } else {
        let prev = hotspot_lines_upto(rows, edges, expanded, filter_input, n - 1);
        if cpu_row_listed(rows, filter_input, n - 1) {
            let id = rows[n - 1].method_id;
            let extra = match id {
                Some(m) => if expanded.contains(m) {
                    Seq::new(
                        hotspot_child_list(rows, edges, m).len(),
                        |k: int| Some(m),
                    )
                } else {
                    seq![]
                },
                None => seq![],
            };
            prev.push(id) + extra
        } else {
            prev
        }
    }
}

/// The lines that the hot spot table shows.
pub open spec fn hotspot_lines(
    rows: Seq<MethodKey>,
    edges: Seq<CpuMethodEdgeRow>,
    expanded: Set<i32>,
    filter_input: Seq<char>,
) -> Seq<Option<i32>> {
    hotspot_lines_upto(rows, edges, expanded, filter_input, rows.len() as int)
}

/// Whether row `i` is listed among the CPU hot spots.
fn cpu_row_is_listed(rows: &[MethodKey], i: usize, filter_input: &str) -> (b: bool)
    requires
        i < rows@.len(),
    ensures
        b == cpu_row_listed(rows@, filter_input@, i as int),
{
    if is_database_method(&rows[i]) {
        return false;
    }
    if filter_input.is_empty() {
        return true;
    }
    let filter = to_lowercase(filter_input);
    let fc = chars_of(filter.as_str());
    if fc.len() == 0 {
        return true;
    }
    let m = to_lowercase(rows[i].method.as_str());
    contains_exec(chars_of(m.as_str()).as_slice(), fc.as_slice())
}

/// The lines that the hot spot table shows: each listed row, and under an expanded row one
/// line per callee.
pub fn hotspot_line_ids(
    rows: &[MethodKey],
    edges: &[CpuMethodEdgeRow],
    expanded: &HashSet<i32>,
    filter_input: &str,
) -> (out: Vec<Option<i32>>)
    ensures
        out@ == hotspot_lines(rows@, edges@, expanded@, filter_input@),
{
    let mut out: Vec<Option<i32>> = Vec::new();
    let mut n: usize = 0;
    while n < rows.len()
        invariant
            n <= rows@.len(),
            out@ == hotspot_lines_upto(rows@, edges@, expanded@, filter_input@, n as int),
        decreases rows@.len() - n,
    {
        if cpu_row_is_listed(rows, n, filter_input) {
            let id = rows[n].method_id;
            let ghost prev = out@;
            out.push(id);
            match id {
                Some(m) => {
                    if set_contains(expanded, m) {
                        let children = hotspot_children(rows, edges, m);
                        let ghost base = out@;
                        let mut k: usize = 0;
                        while k < children.len()
                            invariant
                                k <= children@.len(),
                                out@ == base + Seq::new(k as nat, |q: int| Some(m)),
                            decreases children@.len() - k,
                        {
                            out.push(Some(m));
                            k = k + 1;
                            assert(out@ =~= base + Seq::new(k as nat, |q: int| Some(m)));
                        }
                        proof {
                            assert(children@.len() == hotspot_child_list(rows@, edges@, m).len()) by {
                                assert(children@.map_values(|p: (usize, usize)| (p.0 as int, p.1 as int)).len()
                                    == children@.len());
                            }
                        }
                    } else {
                        assert(out@ =~= prev.push(id) + seq![]);
                    }
                },
                None => {
                    assert(out@ =~= prev.push(id) + seq![]);
                },
            }
        }
        n = n + 1;
    }
    out
}

/// How many lines the hot spot table shows.
pub fn visible_hotspot_row_count(
    rows: &[MethodKey],
    edges: &[CpuMethodEdgeRow],
    expanded: &HashSet<i32>,
    filter_input: &str,
) -> (n: usize)
    ensures
        n == hotspot_lines(rows@, edges@, expanded@, filter_input@).len(),
{
    hotspot_line_ids(rows, edges, expanded, filter_input).len()
}

/// The method of the selected hot spot line: a row's own id, the caller's id on a callee line,
/// none past the last line.
pub fn selected_hotspot_method_id(
    rows: &[MethodKey],
    edges: &[CpuMethodEdgeRow],
    expanded: &HashSet<i32>,
    filter_input: &str,
    selected_idx: usize,
) -> (r: Option<i32>)
    ensures
        r == (if selected_idx < hotspot_lines(rows@, edges@, expanded@, filter_input@).len() {
            hotspot_lines(rows@, edges@, expanded@, filter_input@)[selected_idx as int]
        } else {
            None
        }),
{
    let lines = hotspot_line_ids(rows, edges, expanded, filter_input);
    if selected_idx < lines.len() {
        lines[selected_idx]
    } else {
        None
    }
}

/// Expands or collapses the selected hot spot when its method has callees.
pub fn toggle_selected_hotspot_expanded(
    rows: &[MethodKey],
    edges: &[CpuMethodEdgeRow],
    expanded: &mut HashSet<i32>,
    filter_input: &str,
    selected_idx: usize,
)
    ensures
        ({
            let lines = hotspot_lines(rows@, edges@, old(expanded)@, filter_input@);
            let sel = if selected_idx < lines.len() {
                lines[selected_idx as int]
            } else {
                None
            };
            match sel {
                Some(m) => if hotspot_child_list(rows@, edges@, m).len() > 0 {
                    final(expanded)@ == toggled(old(expanded)@, m)
                } else {
                    final(expanded)@ == old(expanded)@
                },
                None => final(expanded)@ == old(expanded)@,
            }
        }),
{
    let sel = selected_hotspot_method_id(rows, edges, expanded, filter_input, selected_idx);
    if let Some(m) = sel {
        let children = hotspot_children(rows, edges, m);
        proof {
            assert(children@.map_values(|p: (usize, usize)| (p.0 as int, p.1 as int)).len()
                == children@.len());
        }
        if children.len() == 0 {
            return;
        }
        toggle_member(expanded, m);
    }
}

/// Collapses the selected hot spot.
pub fn collapse_selected_hotspot(
    rows: &[MethodKey],
    edges: &[CpuMethodEdgeRow],
    expanded: &mut HashSet<i32>,
    filter_input: &str,
    selected_idx: usize,
)
    ensures
        ({
            let lines = hotspot_lines(rows@, edges@, old(expanded)@, filter_input@);
            let sel = if selected_idx < lines.len() {
                lines[selected_idx as int]
            } else {
                None
            };
            match sel {
                Some(m) => final(expanded)@ == old(expanded)@.remove(m),
                None => final(expanded)@ == old(expanded)@,
            }
        }),
{
    let sel = selected_hotspot_method_id(rows, edges, expanded, filter_input, selected_idx);
    if let Some(m) = sel {
        remove_member(expanded, m);
    }
}

/// The filter of the database view keeps `label`: the lower-cased filter is empty or the
/// lower-cased label contains it.
pub open spec fn database_filter_keeps(filter_input: Seq<char>, label: Seq<char>) -> bool {
    filter_input.len() == 0 || contains(lowercase(label), lowercase(filter_input))
}

/// How many SQL method rows among the first `n` the database filter keeps.
pub open spec fn database_rows_upto(rows: Seq<MethodKey>, filter_input: Seq<char>, n: int) -> nat
    decreases n,
{
    if n <= 0 {
        0
    } else {
        database_rows_upto(rows, filter_input, n - 1) + (if is_sql_class(rows[n - 1].class_name@)
            && database_filter_keeps(filter_input, database_label(rows[n - 1])) {
            1nat
        } else {
            0nat
        })
    }
}

/// How many rows the database view lists: the SQL statements recorded as events when there are
/// any, else the SQL method rows that the filter keeps.
pub fn database_row_count(sql_event_rows: usize, rows: &[MethodKey], filter_input: &str) -> (n:
    usize)
    ensures
        n == (if sql_event_rows > 0 {
            sql_event_rows as nat
        } else {
            database_rows_upto(rows@, filter_input@, rows@.len() as int)
        }),
{
    if sql_event_rows > 0 {
        return sql_event_rows;
    }
    let filter = to_lowercase(filter_input);
    let fc = chars_of(filter.as_str());
    let mut count: usize = 0;
    let mut n: usize = 0;
    while n < rows.len()
        invariant
            n <= rows@.len(),
            fc@ == lowercase(filter_input@),
            (fc@.len() == 0) == (filter_input@.len() == 0),
            count == database_rows_upto(rows@, filter_input@, n as int),
            count <= n,
        decreases rows@.len() - n,
    {
        if is_database_method(&rows[n]) {
            let label = database_method_label(&rows[n]);
            let keep = if fc.len() == 0 {
                true
            } else {
                let l = to_lowercase(label.as_str());
                contains_exec(chars_of(l.as_str()).as_slice(), fc.as_slice())
            };
            if keep {
                count = count + 1;
            }
        }
        n = n + 1;
    }
    count
}


/// The set with `x` taken out when it is in, and put in otherwise.
pub open spec fn toggled(s: Set<i32>, x: i32) -> Set<i32> {
    if s.contains(x) {
        s.remove(x)
    } else {
        s.insert(x)
    }
}

/// Toggling a member twice gives back the set.
pub proof fn lemma_toggle_twice(s: Set<i32>, x: i32)
    ensures
        toggled(toggled(s, x), x) == s,
{
    assert(toggled(toggled(s, x), x) =~= s);
}

} // verus!

verus! {

/// JVM `i` looks like a demo or a server.
pub open spec fn looks_like_demo_server(jvms: Seq<JvmTarget>, i: int) -> bool {
    demo_server_text(lowercase(jvms[i].main_class@ + " "@ + jvms[i].arguments@))
}

proof fn lemma_default_jvm_from(jvms: Seq<JvmTarget>, i: int)
    requires
        0 <= i <= jvms.len(),
        jvms.len() > 0,
    ensures
        (exists|k: int| i <= k < jvms.len() && #[trigger] looks_like_demo_server(jvms, k)) ==> ({
            let k = choose|k: int| i <= k < jvms.len() && #[trigger] looks_like_demo_server(jvms, k)
                && forall|j: int| i <= j < k ==> !looks_like_demo_server(jvms, j);
            &&& i <= k < jvms.len()
            &&& looks_like_demo_server(jvms, k)
            &&& forall|j: int| i <= j < k ==> !looks_like_demo_server(jvms, j)
            &&& default_jvm(jvms, i) == Some(jvms[k].pid)
        }),
        (forall|k: int| i <= k < jvms.len() ==> !#[trigger] looks_like_demo_server(jvms, k))
            ==> default_jvm(jvms, i) == Some(jvms[0].pid),
    decreases jvms.len() - i,
{
    if i < jvms.len() {
        lemma_default_jvm_from(jvms, i + 1);
        if looks_like_demo_server(jvms, i) {
            assert(forall|j: int| i <= j < i ==> !looks_like_demo_server(jvms, j));
            let k = choose|k: int| i <= k < jvms.len() && #[trigger] looks_like_demo_server(jvms, k)
                && forall|j: int| i <= j < k ==> !looks_like_demo_server(jvms, j);
            if k != i {
                assert(!looks_like_demo_server(jvms, i));
            }
        } else if exists|k: int| i <= k < jvms.len() && #[trigger] looks_like_demo_server(jvms, k) {
            let k0 = choose|k: int| i <= k < jvms.len() && #[trigger] looks_like_demo_server(jvms, k);
            assert(k0 > i);
            assert(exists|k: int| i + 1 <= k < jvms.len() && #[trigger] looks_like_demo_server(jvms, k));
            let k1 = choose|k: int| i + 1 <= k < jvms.len() && #[trigger] looks_like_demo_server(
                jvms,
                k,
            ) && forall|j: int| i + 1 <= j < k ==> !looks_like_demo_server(jvms, j);
            assert(i <= k1 < jvms.len() && looks_like_demo_server(jvms, k1) && forall|j: int|
                i <= j < k1 ==> !looks_like_demo_server(jvms, j));
            let k = choose|k: int| i <= k < jvms.len() && #[trigger] looks_like_demo_server(jvms, k)
                && forall|j: int| i <= j < k ==> !looks_like_demo_server(jvms, j);
            if k < k1 {
                assert(!looks_like_demo_server(jvms, k));
            }
            if k1 < k {
                assert(!looks_like_demo_server(jvms, k1));
            }
        }
    }
}

/// Starting a session with no JVM selected picks one from a non-empty list: the first that looks
/// like a demo or a server, else the first listed.
pub proof fn lemma_default_session_jvm(jvms: Seq<JvmTarget>)
    requires
        jvms.len() > 0,
    ensures
        (exists|k: int| 0 <= k < jvms.len() && #[trigger] looks_like_demo_server(jvms, k)) ==> ({
            let k = choose|k: int| 0 <= k < jvms.len() && #[trigger] looks_like_demo_server(jvms, k)
                && forall|j: int| 0 <= j < k ==> !looks_like_demo_server(jvms, j);
            &&& looks_like_demo_server(jvms, k)
            &&& forall|j: int| 0 <= j < k ==> !looks_like_demo_server(jvms, j)
            &&& ensured_selection(jvms, None) == Some(jvms[k].pid)
        }),
        (forall|k: int| 0 <= k < jvms.len() ==> !#[trigger] looks_like_demo_server(jvms, k))
            ==> ensured_selection(jvms, None) == Some(jvms[0].pid),
{
    lemma_default_jvm_from(jvms, 0);
}

} // verus!

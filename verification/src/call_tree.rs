use vstd::prelude::*;

use crate::app::positions_where;
use crate::model::{frames_view, qualified_name, FrameModel, StackTraceElement};
use crate::text::{chars_of, contains, contains_str, push_str, string_of};

verus! {

/// A stack of one thread, captured as a CPU sample.
#[derive(Clone, Debug)]
pub struct StackSample {
    pub thread: String,
    pub state: String,
    pub frames: Vec<String>,
    pub stack_trace: Vec<StackTraceElement>,
    pub captured_at: String,
    pub elapsed_ms: u64,
}

/// A method of the sampled call tree, with how often samples passed through it
/// (`call_count`) and how often it was the innermost frame (`self_count`).
#[derive(Clone, Debug)]
pub struct CallTreeNode {
    pub id: usize,
    pub parent_id: Option<usize>,
    pub class_name: String,
    pub method_name: String,
    pub descriptor: String,
    pub file_name: Option<String>,
    pub line_number: Option<u32>,
    pub self_count: u64,
    pub call_count: u64,
    pub children: Vec<usize>,
}

/// A caller-to-callee edge of the sampled call tree, with how often samples passed along it.
#[derive(Clone, Copy, PartialEq, Eq, Structural, Debug)]
pub struct MethodEdge {
    pub from_id: usize,
    pub to_id: usize,
    pub call_count: u64,
}

/// The sampled call tree: node 0 is the root, each method appears once.
#[derive(Clone, Debug)]
pub struct CallTree {
    pub nodes: Vec<CallTreeNode>,
    pub edges: Vec<MethodEdge>,
}

/// The mathematical content of a call tree node.
pub struct NodeModel {
    pub id: usize,
    pub parent_id: Option<usize>,
    pub class_name: Seq<char>,
    pub method_name: Seq<char>,
    pub descriptor: Seq<char>,
    pub file_name: Option<Seq<char>>,
    pub line_number: Option<u32>,
    pub self_count: u64,
    pub call_count: u64,
    pub children: Seq<usize>,
}

impl View for CallTreeNode {
    type V = NodeModel;

    open spec fn view(&self) -> NodeModel {
        NodeModel {
            id: self.id,
            parent_id: self.parent_id,
            class_name: self.class_name@,
            method_name: self.method_name@,
            descriptor: self.descriptor@,
            file_name: crate::model::opt_view(self.file_name),
            line_number: self.line_number,
            self_count: self.self_count,
            call_count: self.call_count,
            children: self.children@,
        }
    }
}

/// The views of a sequence of nodes.
pub open spec fn nodes_view(v: Seq<CallTreeNode>) -> Seq<NodeModel> {
    v.map_values(|n: CallTreeNode| n@)
}

/// A call tree as it is built: its nodes and edges.
pub struct TreeModel {
    pub nodes: Seq<NodeModel>,
    pub edges: Seq<MethodEdge>,
}

/// The key that identifies a method: `class::method` followed by the descriptor.
pub open spec fn frame_key(class_name: Seq<char>, method_name: Seq<char>, descriptor: Seq<char>) -> Seq<char> {
    class_name + "::"@ + method_name + descriptor
}

/// The first node at or after `i` whose method has `key`.
pub open spec fn key_index(nodes: Seq<NodeModel>, key: Seq<char>, i: int) -> Option<int>
    decreases nodes.len() - i,
{
    if i < 0 || i >= nodes.len() {
        None
    } else if frame_key(nodes[i].class_name, nodes[i].method_name, nodes[i].descriptor) == key {
        Some(i)
    } else {
        key_index(nodes, key, i + 1)
    }
}

/// The first edge at or after `i` from `from` to `to`.
pub open spec fn edge_index(edges: Seq<MethodEdge>, from: int, to: int, i: int) -> Option<int>
    decreases edges.len() - i,
{
    if i < 0 || i >= edges.len() {
        None
    } else if edges[i].from_id == from && edges[i].to_id == to {
        Some(i)
    } else {
        edge_index(edges, from, to, i + 1)
    }
}

/// The tree with no samples: the root alone.
pub open spec fn empty_tree() -> TreeModel {
    TreeModel {
        nodes: seq![
            NodeModel {
                id: 0,
                parent_id: None,
                class_name: "root"@,
                method_name: "all"@,
                descriptor: seq![],
                file_name: None,
                line_number: None,
                self_count: 0,
                call_count: 0,
                children: seq![],
            },
        ],
        edges: seq![],
    }
}

/// The tree after one frame of a sample, reached from the node `parent`, and the frame's node:
/// an existing node of the same method counts one more pass (and one more innermost pass for
/// the innermost frame); a new method gets a node under `parent`; a pass from a node other than
/// the root to another node counts on their edge.
pub open spec fn step_frame(t: TreeModel, parent: int, f: FrameModel, leaf: bool) -> (TreeModel, int) {
    let (nodes, idx) = match key_index(
        t.nodes,
        frame_key(f.class_name, f.method_name, f.descriptor),
        1,
    ) {
        Some(k) => (
            t.nodes.update(
                k,
                NodeModel {
                    call_count: (t.nodes[k].call_count + 1) as u64,
                    self_count: if leaf {
                        (t.nodes[k].self_count + 1) as u64
                    } else {
                        t.nodes[k].self_count
                    },
                    ..t.nodes[k]
                },
            ),
            k,
        ),
        None => {
            let k = t.nodes.len() as int;
            let added = t.nodes.push(
                NodeModel {
                    id: k as usize,
                    parent_id: Some(parent as usize),
                    class_name: f.class_name,
                    method_name: f.method_name,
                    descriptor: f.descriptor,
                    file_name: f.file_name,
                    line_number: f.line_number,
                    self_count: if leaf {
                        1
                    } else {
                        0
                    },
                    call_count: 1,
                    children: seq![],
                },
            );
            (
                added.update(
                    parent,
                    NodeModel { children: added[parent].children.push(k as usize), ..added[parent] },
                ),
                k,
            )
        },
    };
    let edges = if parent != 0 && parent != idx {
        match edge_index(t.edges, parent, idx, 0) {
            Some(e) => t.edges.update(
                e,
                MethodEdge { call_count: (t.edges[e].call_count + 1) as u64, ..t.edges[e] },
            ),
            None => t.edges.push(
                MethodEdge { from_id: parent as usize, to_id: idx as usize, call_count: 1 },
            ),
        }
    } else {
        t.edges
    };
    (TreeModel { nodes, edges }, idx)
}

/// The tree after the frames `frames[j..]` of one sample, outermost first, starting below
/// `parent`.
pub open spec fn walk_frames(t: TreeModel, parent: int, frames: Seq<FrameModel>, j: int) -> TreeModel
    decreases frames.len() - j,
{
    if j < 0 || j >= frames.len() {
        t
    } else {
        let (t2, idx) = step_frame(t, parent, frames[j], j == frames.len() - 1);
        walk_frames(t2, idx, frames, j + 1)
    }
}

/// The frames of a stack that the tree counts: those whose class is not a thread-state line,
/// outermost first.
pub open spec fn counted_frames(stack: Seq<FrameModel>) -> Seq<FrameModel> {
    positions_where(
        |i: int| !contains(stack[i].class_name, "java.lang.Thread.State"@),
        stack.len() as int,
    ).map_values(|i: int| stack[i]).reverse()
}

/// A sample counts under a thread filter: an empty filter and `Runnable` count every sample,
/// another filter only runnable samples.
pub open spec fn sample_counts(thread_filter: Seq<char>, state: Seq<char>) -> bool {
    !(thread_filter.len() > 0 && thread_filter != "Runnable"@ && state != "RUNNABLE"@)
}

/// The tree after the first `n` samples.
pub open spec fn tree_of(samples: Seq<StackSample>, thread_filter: Seq<char>, n: int) -> TreeModel
    decreases n,
{
    if n <= 0 {
        empty_tree()
    } else {
        let t = tree_of(samples, thread_filter, n - 1);
        if sample_counts(thread_filter, samples[n - 1].state@) {
            walk_frames(t, 0, counted_frames(frames_view(samples[n - 1].stack_trace@)), 0)
        } else {
            t
        }
    }
}

/// How many frames the samples hold in all.
pub open spec fn total_frames(samples: Seq<StackSample>, n: int) -> nat
    decreases n,
{
    if n <= 0 {
        0
    } else {
        total_frames(samples, n - 1) + samples[n - 1].stack_trace@.len()
    }
}

/// The tree is well formed after `p` frames: node 0 is the root, node ids are positions,
/// parents and children are earlier and later nodes in range, and counts are at most `p`.
pub open spec fn tree_wf(t: TreeModel, p: nat) -> bool {
    &&& t.nodes.len() >= 1
    &&& forall|k: int| 0 <= k < t.nodes.len() ==> (#[trigger] t.nodes[k]).id == k
    &&& forall|k: int|
        1 <= k < t.nodes.len() ==> (#[trigger] t.nodes[k]).parent_id is Some
            && t.nodes[k].parent_id.unwrap() < k
    &&& forall|k: int, c: int|
        0 <= k < t.nodes.len() && 0 <= c < t.nodes[k].children.len() ==> k < #[trigger] t.nodes[k].children[c] < t.nodes.len()
    &&& forall|k: int|
        0 <= k < t.nodes.len() ==> (#[trigger] t.nodes[k]).call_count <= p
            && t.nodes[k].self_count <= p
    &&& forall|e: int|
        0 <= e < t.edges.len() ==> (#[trigger] t.edges[e]).call_count <= p && t.edges[e].from_id
            < t.nodes.len() && t.edges[e].to_id < t.nodes.len()
}

pub proof fn lemma_key_index(nodes: Seq<NodeModel>, key: Seq<char>, i: int)
    requires
        0 <= i,
    ensures
        match key_index(nodes, key, i) {
            None => forall|j: int|
                i <= j < nodes.len() ==> frame_key(
                    nodes[j].class_name,
                    nodes[j].method_name,
                    nodes[j].descriptor,
                ) != key,
            Some(k) => i <= k < nodes.len() && frame_key(
                nodes[k].class_name,
                nodes[k].method_name,
                nodes[k].descriptor,
            ) == key,
        },
    decreases nodes.len() - i,
{
    if i < nodes.len() && frame_key(nodes[i].class_name, nodes[i].method_name, nodes[i].descriptor)
        != key {
        lemma_key_index(nodes, key, i + 1);
    }
}

pub proof fn lemma_edge_index(edges: Seq<MethodEdge>, from: int, to: int, i: int)
    requires
        0 <= i,
    ensures
        match edge_index(edges, from, to, i) {
            None => true,
            Some(e) => i <= e < edges.len() && edges[e].from_id == from && edges[e].to_id == to,
        },
    decreases edges.len() - i,
{
    if i < edges.len() && !(edges[i].from_id == from && edges[i].to_id == to) {
        lemma_edge_index(edges, from, to, i + 1);
    }
}

/// A frame step keeps the tree well formed, with counts at most one higher, and gives a node
/// in range.
pub proof fn lemma_step_frame_wf(t: TreeModel, p: nat, parent: int, f: FrameModel, leaf: bool)
    requires
        tree_wf(t, p),
        0 <= parent < t.nodes.len(),
        t.nodes.len() <= usize::MAX,
    ensures
        tree_wf(step_frame(t, parent, f, leaf).0, p + 1),
        0 <= step_frame(t, parent, f, leaf).1 < step_frame(t, parent, f, leaf).0.nodes.len(),
        step_frame(t, parent, f, leaf).0.nodes.len() >= t.nodes.len(),
{
    let key = frame_key(f.class_name, f.method_name, f.descriptor);
    lemma_key_index(t.nodes, key, 1);
    let (t2, idx) = step_frame(t, parent, f, leaf);
    let n2 = t2.nodes;
    match key_index(t.nodes, key, 1) {
        Some(k) => {
            assert forall|q: int| 0 <= q < n2.len() implies (#[trigger] n2[q]).id == q by {
                if q != k {
                    assert(n2[q] == t.nodes[q]);
                }
            }
            assert forall|q: int| 1 <= q < n2.len() implies (#[trigger] n2[q]).parent_id is Some
                && n2[q].parent_id.unwrap() < q by {
                if q != k {
                    assert(n2[q] == t.nodes[q]);
                }
            }
            assert forall|q: int, c: int|
                0 <= q < n2.len() && 0 <= c < n2[q].children.len() implies q
                < #[trigger] n2[q].children[c] < n2.len() by {
                if q == k {
                    assert(n2[q].children == t.nodes[q].children);
                } else {
                    assert(n2[q] == t.nodes[q]);
                }
            }
            assert forall|q: int| 0 <= q < n2.len() implies (#[trigger] n2[q]).call_count <= p + 1
                && n2[q].self_count <= p + 1 by {
                if q != k {
                    assert(n2[q] == t.nodes[q]);
                }
            }
        },
        None => {
            let k = t.nodes.len() as int;
            assert(n2.len() == k + 1);
            assert forall|q: int| 0 <= q < n2.len() implies (#[trigger] n2[q]).id == q by {
                if q < k && q != parent {
                    assert(n2[q] == t.nodes[q]);
                }
            }
            assert forall|q: int| 1 <= q < n2.len() implies (#[trigger] n2[q]).parent_id is Some
                && n2[q].parent_id.unwrap() < q by {
                if q < k && q != parent {
                    assert(n2[q] == t.nodes[q]);
                }
            }
            assert forall|q: int, c: int|
                0 <= q < n2.len() && 0 <= c < n2[q].children.len() implies q
                < #[trigger] n2[q].children[c] < n2.len() by {
                if q == parent {
                    if c < t.nodes[q].children.len() {
                        assert(n2[q].children[c] == t.nodes[q].children[c]);
                    } else {
                        assert(n2[q].children[c] == k);
                    }
                } else if q < k {
                    assert(n2[q] == t.nodes[q]);
                }
            }
            assert forall|q: int| 0 <= q < n2.len() implies (#[trigger] n2[q]).call_count <= p + 1
                && n2[q].self_count <= p + 1 by {
                if q < k && q != parent {
                    assert(n2[q] == t.nodes[q]);
                }
            }
        },
    }
    lemma_edge_index(t.edges, parent, idx, 0);
    assert forall|e: int| 0 <= e < t2.edges.len() implies (#[trigger] t2.edges[e]).call_count <= p
        + 1 && t2.edges[e].from_id < n2.len() && t2.edges[e].to_id < n2.len() by {
        if e < t.edges.len() {
            assert(t.edges[e].call_count <= p);
        }
    }
}

/// The key of a method.
pub fn frame_key_exec(class_name: &str, method_name: &str, descriptor: &str) -> (k: Vec<char>)
    ensures
        k@ == frame_key(class_name@, method_name@, descriptor@),
{
    key_of(class_name, method_name, descriptor)
}

/// The key of a method.
fn key_of(class_name: &str, method_name: &str, descriptor: &str) -> (k: Vec<char>)
    ensures
        k@ == frame_key(class_name@, method_name@, descriptor@),
{
    let mut k = chars_of(class_name);
    push_str(&mut k, "::");
    push_str(&mut k, method_name);
    push_str(&mut k, descriptor);
    k
}

/// The keys of the nodes are in step with them.
pub open spec fn keys_match(keys: Seq<Vec<char>>, nodes: Seq<NodeModel>) -> bool {
    &&& keys.len() == nodes.len()
    &&& forall|k: int|
        0 <= k < keys.len() ==> (#[trigger] keys[k])@ == frame_key(
            nodes[k].class_name,
            nodes[k].method_name,
            nodes[k].descriptor,
        )
}

fn find_key(keys: &Vec<Vec<char>>, key: &[char], Ghost(nodes): Ghost<Seq<NodeModel>>) -> (r: Option<
    usize,
>)
    requires
        keys_match(keys@, nodes),
    ensures
        match key_index(nodes, key@, 1) {
            None => r is None,
            Some(k) => r == Some(k as usize),
        },
{
    if keys.len() == 0 {
        return None;
    }
    let mut i: usize = 1;
    while i < keys.len()
        invariant
            1 <= i <= keys@.len(),
            keys_match(keys@, nodes),
            key_index(nodes, key@, 1) == key_index(nodes, key@, i as int),
        decreases keys@.len() - i,
    {
        if crate::jvm::same_chars(keys[i].as_slice(), key) {
            return Some(i);
        }
        i = i + 1;
    }
    None
}

fn find_edge(edges: &[MethodEdge], from: usize, to: usize) -> (r: Option<usize>)
    ensures
        r is Some == edge_index(edges@, from as int, to as int, 0) is Some,
        r is Some ==> edge_index(edges@, from as int, to as int, 0) == Some(r.unwrap() as int),
{
    proof {
        lemma_edge_index(edges@, from as int, to as int, 0);
    }
    let mut i: usize = 0;
    while i < edges.len()
        invariant
            i <= edges@.len(),
            edge_index(edges@, from as int, to as int, 0) == edge_index(
                edges@,
                from as int,
                to as int,
                i as int,
            ),
        decreases edges@.len() - i,
    {
        if edges[i].from_id == from && edges[i].to_id == to {
            assert(edge_index(edges@, from as int, to as int, i as int) == Some(i as int));
            return Some(i);
        }
        i = i + 1;
    }
    None
}

fn copy_indices(v: &Vec<usize>) -> (r: Vec<usize>)
    ensures
        r@ == v@,
{
    let mut r: Vec<usize> = Vec::new();
    let mut i: usize = 0;
    while i < v.len()
        invariant
            i <= v@.len(),
            r@ == v@.take(i as int),
        decreases v@.len() - i,
    {
        r.push(v[i]);
        i = i + 1;
        assert(r@ =~= v@.take(i as int));
    }
    assert(v@.take(v@.len() as int) =~= v@);
    r
}

fn clone_opt_string(o: &Option<String>) -> (r: Option<String>)
    ensures
        crate::model::opt_view(r) == crate::model::opt_view(*o),
{
    match o {
        Some(s) => Some(s.clone()),
        None => None,
    }
}

/// A copy of a node with other counts and children.
fn node_with(n: &CallTreeNode, self_count: u64, call_count: u64, children: Vec<usize>) -> (r:
    CallTreeNode)
    ensures
        r@ == (NodeModel { self_count, call_count, children: children@, ..n@ }),
{
    CallTreeNode {
        id: n.id,
        parent_id: n.parent_id,
        class_name: n.class_name.clone(),
        method_name: n.method_name.clone(),
        descriptor: n.descriptor.clone(),
        file_name: clone_opt_string(&n.file_name),
        line_number: n.line_number,
        self_count,
        call_count,
        children,
    }
}

/// Counts one frame of a sample into the tree, reached from node `parent`; gives the frame's
/// node.
fn step_frame_exec(
    nodes: &mut Vec<CallTreeNode>,
    keys: &mut Vec<Vec<char>>,
    edges: &mut Vec<MethodEdge>,
    parent: usize,
    f: &StackTraceElement,
    leaf: bool,
    Ghost(p): Ghost<nat>,
) -> (idx: usize)
    requires
        tree_wf(TreeModel { nodes: nodes_view(old(nodes)@), edges: old(edges)@ }, p),
        p < u64::MAX,
        parent < old(nodes)@.len(),
        keys_match(old(keys)@, nodes_view(old(nodes)@)),
    ensures
        (TreeModel { nodes: nodes_view(final(nodes)@), edges: final(edges)@ }, idx as int)
            == step_frame(
            TreeModel { nodes: nodes_view(old(nodes)@), edges: old(edges)@ },
            parent as int,
            f@,
            leaf,
        ),
        keys_match(final(keys)@, nodes_view(final(nodes)@)),
{
    let ghost t = TreeModel { nodes: nodes_view(nodes@), edges: edges@ };
    let key = key_of(f.class_name.as_str(), f.method_name.as_str(), f.descriptor.as_str());
    let found = find_key(keys, key.as_slice(), Ghost(nodes_view(nodes@)));
    let len0 = nodes.len();
    proof {
        assert(t.nodes.len() == len0);
        lemma_key_index(t.nodes, key@, 1);
        lemma_step_frame_wf(t, p, parent as int, f@, leaf);
    }
    let idx = match found {
        Some(k) => {
            assert(t.nodes[k as int] == nodes@[k as int]@);
            let old_node = &nodes[k];
            let call_count = old_node.call_count + 1;
            let self_count = if leaf {
                old_node.self_count + 1
            } else {
                old_node.self_count
            };
            let children = copy_indices(&old_node.children);
            let updated = node_with(old_node, self_count, call_count, children);
            let ghost before = nodes@;
            nodes.set(k, updated);
            proof {
                assert(nodes_view(nodes@) =~= nodes_view(before).update(k as int, updated@));
                assert forall|q: int| 0 <= q < keys@.len() implies (#[trigger] keys@[q])@
                    == frame_key(
                    nodes_view(nodes@)[q].class_name,
                    nodes_view(nodes@)[q].method_name,
                    nodes_view(nodes@)[q].descriptor,
                ) by {
                    if q != k {
                        assert(nodes_view(nodes@)[q] == t.nodes[q]);
                    }
                }
            }
            k
        },
        None => {
            let k = nodes.len();
            let node = CallTreeNode {
                id: k,
                parent_id: Some(parent),
                class_name: f.class_name.clone(),
                method_name: f.method_name.clone(),
                descriptor: f.descriptor.clone(),
                file_name: clone_opt_string(&f.file_name),
                line_number: f.line_number,
                self_count: if leaf {
                    1
                } else {
                    0
                },
                call_count: 1,
                children: Vec::new(),
            };
            let ghost before = nodes@;
            nodes.push(node);
            assert(nodes_view(nodes@) =~= nodes_view(before).push(node@));
            let ghost added = nodes@;
            let mut children = copy_indices(&nodes[parent].children);
            children.push(k);
            let pn = node_with(&nodes[parent], nodes[parent].self_count, nodes[parent].call_count, children);
            nodes.set(parent, pn);
            proof {
                assert(nodes_view(nodes@) =~= nodes_view(added).update(parent as int, pn@));
            }
            let ghost kb = keys@;
            keys.push(key);
            proof {
                assert forall|q: int| 0 <= q < keys@.len() implies (#[trigger] keys@[q])@
                    == frame_key(
                    nodes_view(nodes@)[q].class_name,
                    nodes_view(nodes@)[q].method_name,
                    nodes_view(nodes@)[q].descriptor,
                ) by {
                    if q < k && q != parent {
                        assert(nodes_view(nodes@)[q] == t.nodes[q]);
                        assert(keys@[q] == kb[q]);
                    } else if q == parent {
                        assert(keys@[q] == kb[q]);
                    }
                }
            }
            k
        },
    };
    let ghost sf = step_frame(t, parent as int, f@, leaf);
    assert(sf.1 == idx as int);
    if parent != 0 && parent != idx {
        match find_edge(edges.as_slice(), parent, idx) {
            Some(e) => {
                proof {
                    lemma_edge_index(t.edges, parent as int, idx as int, 0);
                }
                let old_edge = edges[e];
                let ne = MethodEdge {
                    from_id: old_edge.from_id,
                    to_id: old_edge.to_id,
                    call_count: old_edge.call_count + 1,
                };
                assert(ne == MethodEdge { call_count: (t.edges[e as int].call_count + 1) as u64, ..t.edges[e as int] });
                edges.set(e, ne);
                assert(edges@ == t.edges.update(e as int, ne));
                assert(edge_index(t.edges, parent as int, sf.1, 0) == Some(e as int));
                assert(sf.0.edges == t.edges.update(e as int, ne));
            },
            None => {
                edges.push(MethodEdge { from_id: parent, to_id: idx, call_count: 1 });
                assert(edges@ == t.edges.push(MethodEdge { from_id: parent, to_id: idx, call_count: 1 }));
                assert(sf.0.edges == t.edges.push(MethodEdge { from_id: parent, to_id: idx, call_count: 1 }));
            },
        }
    }
    assert(nodes_view(nodes@) == step_frame(t, parent as int, f@, leaf).0.nodes);
    assert(idx as int == step_frame(t, parent as int, f@, leaf).1);
    assert(edges@ == step_frame(t, parent as int, f@, leaf).0.edges);
    idx
}

pub proof fn lemma_total_frames_mono(samples: Seq<StackSample>, a: int, b: int)
    requires
        a <= b,
    ensures
        total_frames(samples, a) <= total_frames(samples, b),
    decreases b - a,
{
    if a < b {
        lemma_total_frames_mono(samples, a, b - 1);
    }
}

proof fn lemma_walk_frames_wf(t: TreeModel, p: nat, parent: int, frames: Seq<FrameModel>, j: int)
    requires
        tree_wf(t, p),
        0 <= parent < t.nodes.len(),
        0 <= j <= frames.len(),
        t.nodes.len() + (frames.len() - j) <= usize::MAX,
    ensures
        tree_wf(walk_frames(t, parent, frames, j), p + (frames.len() - j) as nat),
        walk_frames(t, parent, frames, j).nodes.len() <= t.nodes.len() + (frames.len() - j),
    decreases frames.len() - j,
{
    if j < frames.len() {
        lemma_step_frame_wf(t, p, parent, frames[j], j == frames.len() - 1);
        let (t2, idx) = step_frame(t, parent, frames[j], j == frames.len() - 1);
        lemma_step_frame_len(t, parent, frames[j], j == frames.len() - 1);
        lemma_walk_frames_wf(t2, p + 1, idx, frames, j + 1);
    }
}

proof fn lemma_step_frame_len(t: TreeModel, parent: int, f: FrameModel, leaf: bool)
    requires
        0 <= parent < t.nodes.len(),
    ensures
        step_frame(t, parent, f, leaf).0.nodes.len() <= t.nodes.len() + 1,
{
    let key = frame_key(f.class_name, f.method_name, f.descriptor);
    lemma_key_index(t.nodes, key, 1);
    match key_index(t.nodes, key, 1) {
        Some(k) => {},
        None => {},
    }
}

proof fn lemma_empty_tree_wf()
    ensures
        tree_wf(empty_tree(), 0),
{
}

/// Whether a sample counts under the thread filter.
fn sample_counts_exec(thread_filter: &str, state: &str) -> (b: bool)
    ensures
        b == sample_counts(thread_filter@, state@),
{
    let f = chars_of(thread_filter);
    if f.len() == 0 {
        return true;
    }
    if crate::jvm::same_chars(f.as_slice(), chars_of("Runnable").as_slice()) {
        return true;
    }
    crate::jvm::same_chars(chars_of(state).as_slice(), chars_of("RUNNABLE").as_slice())
}

/// The positions of the frames that the tree counts, in stack order.
fn counted_positions(stack: &[StackTraceElement]) -> (out: Vec<usize>)
    ensures
        out@.map_values(|x: usize| x as int) == positions_where(
            |i: int| !contains(frames_view(stack@)[i].class_name, "java.lang.Thread.State"@),
            stack@.len() as int,
        ),
        forall|q: int| 0 <= q < out@.len() ==> out@[q] < stack@.len(),
{
    let ghost fv = frames_view(stack@);
    let ghost pick = |i: int| !contains(fv[i].class_name, "java.lang.Thread.State"@);
    let mut out: Vec<usize> = Vec::new();
    let mut n: usize = 0;
    while n < stack.len()
        invariant
            n <= stack@.len(),
            fv == frames_view(stack@),
            pick == (|i: int| !contains(fv[i].class_name, "java.lang.Thread.State"@)),
            out@.map_values(|x: usize| x as int) == positions_where(pick, n as int),
            forall|q: int| 0 <= q < out@.len() ==> out@[q] < n,
        decreases stack@.len() - n,
    {
        let c = chars_of(stack[n].class_name.as_str());
        let skip = contains_str(c.as_slice(), "java.lang.Thread.State");
        assert(fv[n as int].class_name == stack@[n as int].class_name@);
        if !skip {
            out.push(n);
        }
        n = n + 1;
        proof {
            assert(out@.map_values(|x: usize| x as int) =~= positions_where(pick, n as int));
        }
    }
    out
}

/// Builds the call tree of the samples that count under the thread filter: every frame of a
/// counted sample, outermost first, under the frame before it.
pub fn build_call_tree(samples: &[StackSample], thread_filter: &str) -> (tree: CallTree)
    requires
        total_frames(samples@, samples@.len() as int) < u64::MAX,
        total_frames(samples@, samples@.len() as int) < usize::MAX,
    ensures
        (TreeModel { nodes: nodes_view(tree.nodes@), edges: tree.edges@ }) == tree_of(
            samples@,
            thread_filter@,
            samples@.len() as int,
        ),
        tree_wf(
            TreeModel { nodes: nodes_view(tree.nodes@), edges: tree.edges@ },
            total_frames(samples@, samples@.len() as int),
        ),
{
    proof {
        reveal_strlit("root");
        reveal_strlit("all");
    }
    let mut nodes: Vec<CallTreeNode> = Vec::new();
    nodes.push(
        CallTreeNode {
            id: 0,
            parent_id: None,
            class_name: string_of(chars_of("root").as_slice()),
            method_name: string_of(chars_of("all").as_slice()),
            descriptor: String::new(),
            file_name: None,
            line_number: None,
            self_count: 0,
            call_count: 0,
            children: Vec::new(),
        },
    );
    let mut keys: Vec<Vec<char>> = Vec::new();
    let empty = String::new();
    keys.push(key_of("root", "all", empty.as_str()));
    let mut edges: Vec<MethodEdge> = Vec::new();
    proof {
        assert(nodes_view(nodes@) =~= empty_tree().nodes);
        assert(edges@ =~= empty_tree().edges);
        lemma_empty_tree_wf();
    }
    let total = samples.len();
    let mut n: usize = 0;
    while n < total
        invariant
            total == samples@.len(),
            n <= total,
            total_frames(samples@, total as int) < u64::MAX,
            total_frames(samples@, total as int) < usize::MAX,
            (TreeModel { nodes: nodes_view(nodes@), edges: edges@ }) == tree_of(
                samples@,
                thread_filter@,
                n as int,
            ),
            tree_wf(TreeModel { nodes: nodes_view(nodes@), edges: edges@ }, total_frames(samples@, n as int)),
            nodes@.len() <= 1 + total_frames(samples@, n as int),
            keys_match(keys@, nodes_view(nodes@)),
        decreases total - n,
    {
        let ghost t0 = TreeModel { nodes: nodes_view(nodes@), edges: edges@ };
        let ghost p0 = total_frames(samples@, n as int);
        proof {
            lemma_total_frames_mono(samples@, n + 1, total as int);
        }
        if sample_counts_exec(thread_filter, samples[n].state.as_str()) {
            let stack = samples[n].stack_trace.as_slice();
            let kept = counted_positions(stack);
            let ghost fv = frames_view(stack@);
            let ghost rev = counted_frames(fv);
            let ghost kv = kept@.map_values(|x: usize| x as int);
            proof {
                let p1 = |i: int| !contains(fv[i].class_name, "java.lang.Thread.State"@);
                assert(fv.len() == stack@.len());
                assert(kv == positions_where(p1, stack@.len() as int));
                assert(rev == positions_where(p1, fv.len() as int).map_values(|i: int| fv[i]).reverse());
                assert(rev == kv.map_values(|i: int| fv[i]).reverse());
                assert(kv.map_values(|i: int| fv[i]).len() == kept@.len());
                assert(rev.len() == kept@.len());
                assert(kept@.len() <= stack@.len()) by {
                    crate::app::lemma_positions_where_len(
                        |i: int| !contains(fv[i].class_name, "java.lang.Thread.State"@),
                        stack@.len() as int,
                    );
                }
            }
            let m = kept.len();
            let mut parent: usize = 0;
            let mut j: usize = 0;
            while j < m
                invariant
                    m == kept@.len() == rev.len(),
                    j <= m,
                    m <= stack@.len(),
                    stack@.len() == samples@[n as int].stack_trace@.len(),
                    fv == frames_view(stack@),
                    rev == counted_frames(fv),
                    kv == kept@.map_values(|x: usize| x as int),
                    rev == kv.map_values(|i: int| fv[i]).reverse(),
                    forall|q: int| 0 <= q < kept@.len() ==> kept@[q] < stack@.len(),
                    p0 + m <= total_frames(samples@, n + 1),
                    total_frames(samples@, n + 1) <= total_frames(samples@, total as int),
                    total_frames(samples@, total as int) < u64::MAX,
                    total_frames(samples@, total as int) < usize::MAX,
                    parent < nodes@.len(),
                    nodes@.len() <= 1 + p0 + j,
                    tree_wf(TreeModel { nodes: nodes_view(nodes@), edges: edges@ }, (p0 + j) as nat),
                    keys_match(keys@, nodes_view(nodes@)),
                    walk_frames(t0, 0, rev, 0) == walk_frames(
                        TreeModel { nodes: nodes_view(nodes@), edges: edges@ },
                        parent as int,
                        rev,
                        j as int,
                    ),
                decreases m - j,
            {
                let ghost tj = TreeModel { nodes: nodes_view(nodes@), edges: edges@ };
                let pos = kept[m - 1 - j];
                proof {
                    assert(kv[m - 1 - j] == pos as int);
                    let mapped = kv.map_values(|i: int| fv[i]);
                    assert(rev == mapped.reverse());
                    assert(mapped.len() == m);
                    assert(rev[j as int] == mapped[m - 1 - j]);
                    assert(rev[j as int] == fv[pos as int]);
                    assert(fv[pos as int] == stack@[pos as int]@);
                    lemma_step_frame_wf(tj, (p0 + j) as nat, parent as int, rev[j as int], j == m - 1);
                    lemma_step_frame_len(tj, parent as int, rev[j as int], j == m - 1);
                }
                let leaf = j == m - 1;
                let idx = step_frame_exec(
                    &mut nodes,
                    &mut keys,
                    &mut edges,
                    parent,
                    &stack[pos],
                    leaf,
                    Ghost((p0 + j) as nat),
                );
                parent = idx;
                j = j + 1;
            }
        }
        proof {
            let s = samples@[n as int];
            assert(total_frames(samples@, n + 1) == p0 + s.stack_trace@.len());
        }
        n = n + 1;
    }
    CallTree { nodes, edges }
}

/// A method of the sampled call tree as a hot spot: how many samples passed through it and
/// how many ended in it.
#[derive(Clone, Debug)]
pub struct SampledMethod {
    pub method: String,
    pub class_name: String,
    pub method_name: String,
    pub descriptor: String,
    pub total_samples: u64,
    pub self_samples: u64,
    /// The samples whose innermost frame is this method.
    pub self_count: u64,
    pub invocations: u64,
}

/// The mathematical content of a sampled hot spot.
pub struct SampledModel {
    pub method: Seq<char>,
    pub class_name: Seq<char>,
    pub method_name: Seq<char>,
    pub descriptor: Seq<char>,
    pub total_samples: u64,
    pub self_samples: u64,
    pub self_count: u64,
    pub invocations: u64,
}

impl View for SampledMethod {
    type V = SampledModel;

    open spec fn view(&self) -> SampledModel {
        SampledModel {
            method: self.method@,
            class_name: self.class_name@,
            method_name: self.method_name@,
            descriptor: self.descriptor@,
            total_samples: self.total_samples,
            self_samples: self.self_samples,
            self_count: self.self_count,
            invocations: self.invocations,
        }
    }
}

/// The views of a sequence of sampled hot spots.
pub open spec fn sampled_view(v: Seq<SampledMethod>) -> Seq<SampledModel> {
    v.map_values(|m: SampledMethod| m@)
}

/// The self samples a hot spot reports: the node's innermost time in milliseconds (its
/// innermost passes times the sampling interval) divided by 10 and rounded down, at most
/// `u64::MAX`.
pub open spec fn self_samples_of(self_count: u64, interval_ms: u64) -> u64 {
    if self_count * interval_ms / 10 > u64::MAX {
        u64::MAX
    } else {
        (self_count * interval_ms / 10) as u64
    }
}

/// The hot spot of a call tree node sampled every `interval_ms` milliseconds.
pub open spec fn sampled_of(n: NodeModel, interval_ms: u64) -> SampledModel {
    SampledModel {
        method: qualified_name(n.class_name, n.method_name, n.descriptor),
        class_name: n.class_name,
        method_name: n.method_name,
        descriptor: n.descriptor,
        total_samples: n.call_count,
        self_samples: self_samples_of(n.self_count, interval_ms),
        self_count: n.self_count,
        invocations: n.call_count,
    }
}

/// The hot spots of a call tree: every node but the root that samples passed through, in node
/// order.
pub open spec fn hot_spots_of(nodes: Seq<NodeModel>, interval_ms: u64) -> Seq<SampledModel> {
    positions_where(|i: int| i >= 1 && nodes[i].call_count > 0, nodes.len() as int).map_values(
        |i: int| sampled_of(nodes[i], interval_ms),
    )
}

impl CallTreeNode {
    /// `class.method` followed by the descriptor.
    pub fn full_name(&self) -> (r: String)
        ensures
            r@ == qualified_name(self.class_name@, self.method_name@, self.descriptor@),
    {
        let mut out = chars_of(self.class_name.as_str());
        push_str(&mut out, ".");
        push_str(&mut out, self.method_name.as_str());
        push_str(&mut out, self.descriptor.as_str());
        string_of(out.as_slice())
    }

    /// The source location, as a stack trace prints it (never as a native method).
    pub fn location(&self) -> (r: String)
        ensures
            r@ == crate::model::frame_location(
                crate::model::opt_view(self.file_name),
                self.line_number,
                false,
            ),
    {
        let e = StackTraceElement {
            class_name: String::new(),
            method_name: String::new(),
            descriptor: String::new(),
            file_name: clone_opt_string(&self.file_name),
            line_number: self.line_number,
            native_method: false,
            raw: String::new(),
        };
        e.location()
    }
}

/// The hot spots of a call tree whose samples were taken every `sampling_interval_ms`
/// milliseconds.
pub fn build_hot_spots(tree: &CallTree, sampling_interval_ms: u64) -> (rows: Vec<SampledMethod>)
    ensures
        sampled_view(rows@) == hot_spots_of(nodes_view(tree.nodes@), sampling_interval_ms),
{
    let ghost nv = nodes_view(tree.nodes@);
    let ghost pick = |i: int| i >= 1 && nv[i].call_count > 0;
    let mut rows: Vec<SampledMethod> = Vec::new();
    let mut i: usize = 0;
    while i < tree.nodes.len()
        invariant
            i <= tree.nodes@.len(),
            nv == nodes_view(tree.nodes@),
            pick == (|i: int| i >= 1 && nv[i].call_count > 0),
            sampled_view(rows@) == positions_where(pick, i as int).map_values(
                |i: int| sampled_of(nv[i], sampling_interval_ms),
            ),
        decreases tree.nodes@.len() - i,
    {
        let n = &tree.nodes[i];
        let ghost before = rows@;
        if i >= 1 && n.call_count > 0 {
            let a: u128 = n.self_count as u128;
            let b: u128 = sampling_interval_ms as u128;
            assert(a * b <= 0xffff_ffff_ffff_ffff * 0xffff_ffff_ffff_ffff) by (nonlinear_arith)
                requires
                    a <= 0xffff_ffff_ffff_ffff,
                    b <= 0xffff_ffff_ffff_ffff,
            ;
            let scaled: u128 = a * b / 10;
            let self_samples: u64 = if scaled > u64::MAX as u128 {
                u64::MAX
            } else {
                scaled as u64
            };
            let row = SampledMethod {
                method: n.full_name(),
                class_name: n.class_name.clone(),
                method_name: n.method_name.clone(),
                descriptor: n.descriptor.clone(),
                total_samples: n.call_count,
                self_samples,
                self_count: n.self_count,
                invocations: n.call_count,
            };
            rows.push(row);
            proof {
                assert(nv[i as int] == n@);
                assert(sampled_view(rows@) =~= sampled_view(before).push(row@));
            }
        }
        i = i + 1;
        proof {
            let f = |i: int| sampled_of(nv[i], sampling_interval_ms);
            if pick((i - 1) as int) {
                assert(positions_where(pick, i as int) == positions_where(pick, i - 1).push(i - 1));
                assert(positions_where(pick, i as int).map_values(f) =~= positions_where(
                    pick,
                    i - 1,
                ).map_values(f).push(f(i - 1)));
            }
        }
    }
    rows
}

/// The `limit` hot spots with the most samples, the most first (equal counts in their order).
pub open spec fn top_hot_spots(rows: Seq<SampledModel>, limit: nat) -> Seq<SampledModel> {
    let order = crate::order::desc_order_of(
        rows.map_values(|r: SampledModel| r.total_samples),
        |i: int| true,
        rows.len() as int,
    );
    let kept = if order.len() > limit {
        order.take(limit as int)
    } else {
        order
    };
    kept.map_values(|i: int| rows[i])
}

/// The top hot spots are the rows with the most total samples: as many as the limit allows
/// (all of them under it), with non-increasing total samples, each one of the rows (no row
/// listed more often than it occurs), and every row left out has no more total samples than
/// any listed row.
pub proof fn lemma_top_hot_spots(rows: Seq<SampledModel>, limit: nat)
    ensures
        top_hot_spots(rows, limit).len() == (if rows.len() < limit {
            rows.len()
        } else {
            limit
        }),
        forall|a: int, b: int|
            0 <= a < b < top_hot_spots(rows, limit).len() ==> (#[trigger] top_hot_spots(
                rows,
                limit,
            )[a]).total_samples >= (#[trigger] top_hot_spots(rows, limit)[b]).total_samples,
        top_hot_spots(rows, limit).to_multiset().subset_of(rows.to_multiset()),
        forall|x: SampledModel|
            rows.to_multiset().count(x) > top_hot_spots(rows, limit).to_multiset().count(x)
                ==> forall|j: int|
                0 <= j < top_hot_spots(rows, limit).len() ==> x.total_samples <= (
                #[trigger] top_hot_spots(rows, limit)[j]).total_samples,
{
    broadcast use vstd::seq_lib::group_to_multiset_ensures;

    let n = rows.len() as int;
    let keys = rows.map_values(|r: SampledModel| r.total_samples);
    let p = crate::order::desc_order_of(keys, |i: int| true, n);
    let f = |i: int| rows[i];
    crate::order::lemma_desc_order_all_len(keys, n);
    crate::order::lemma_desc_order_sorted(keys, |i: int| true, n);
    crate::order::lemma_desc_order_picked(keys, |i: int| true, n);
    crate::order::lemma_desc_order_all_multiset(keys, f, n);
    let q = p.map_values(f);
    assert(Seq::new(n as nat, f) =~= rows);
    let l: int = if n < limit {
        n
    } else {
        limit as int
    };
    let out = top_hot_spots(rows, limit);
    assert(out =~= q.take(l));
    assert(q =~= q.take(l) + q.skip(l));
    vstd::seq_lib::lemma_multiset_commutative(q.take(l), q.skip(l));
    assert(rows.to_multiset() =~= out.to_multiset().add(q.skip(l).to_multiset()));
    assert forall|a: int, b: int| 0 <= a < b < out.len() implies (#[trigger] out[a]).total_samples
        >= (#[trigger] out[b]).total_samples by {
        assert(keys[p[a]] >= keys[p[b]]);
    }
    assert forall|x: SampledModel|
        rows.to_multiset().count(x) > out.to_multiset().count(x) implies forall|j: int|
        0 <= j < out.len() ==> x.total_samples <= (#[trigger] out[j]).total_samples by {
        let rest = q.skip(l);
        assert(rest.to_multiset().count(x) > 0);
        assert(rest.contains(x));
        let b = choose|b: int| 0 <= b < rest.len() && rest[b] == x;
        assert(rest[b] == q[l + b]);
        assert forall|j: int| 0 <= j < out.len() implies x.total_samples <= (
        #[trigger] out[j]).total_samples by {
            assert(keys[p[j]] >= keys[p[l + b]]);
        }
    }
}

fn clone_sampled(m: &SampledMethod) -> (c: SampledMethod)
    ensures
        c@ == m@,
{
    SampledMethod {
        method: m.method.clone(),
        class_name: m.class_name.clone(),
        method_name: m.method_name.clone(),
        descriptor: m.descriptor.clone(),
        total_samples: m.total_samples,
        self_samples: m.self_samples,
        self_count: m.self_count,
        invocations: m.invocations,
    }
}

/// The `limit` hot spots with the most samples, the most first.
pub fn top_sampled_methods(rows: &[SampledMethod], limit: usize) -> (out: Vec<SampledMethod>)
    ensures
        sampled_view(out@) == top_hot_spots(sampled_view(rows@), limit as nat),
{
    let ghost rv = sampled_view(rows@);
    let mut keys: Vec<u64> = Vec::new();
    let mut picks: Vec<bool> = Vec::new();
    let mut i: usize = 0;
    while i < rows.len()
        invariant
            i <= rows@.len(),
            rv == sampled_view(rows@),
            keys@ == rv.map_values(|r: SampledModel| r.total_samples).take(i as int),
            picks@.len() == i,
            forall|k: int| 0 <= k < i ==> picks@[k],
        decreases rows@.len() - i,
    {
        keys.push(rows[i].total_samples);
        picks.push(true);
        i = i + 1;
        assert(keys@ =~= rv.map_values(|r: SampledModel| r.total_samples).take(i as int));
    }
    let ghost ks = rv.map_values(|r: SampledModel| r.total_samples);
    assert(keys@ =~= ks);
    let order = crate::order::stable_order_desc(keys.as_slice(), picks.as_slice());
    proof {
        crate::order::lemma_desc_order_congruent(ks, |i: int| picks@[i], |i: int| true, rows@.len() as int);
    }
    let ghost ov = order@.map_values(|x: usize| x as int);
    let ghost kept = if ov.len() > limit {
        ov.take(limit as int)
    } else {
        ov
    };
    let mut out: Vec<SampledMethod> = Vec::new();
    let mut j: usize = 0;
    while j < order.len() && j < limit
        invariant
            j <= order@.len(),
            j <= limit,
            ov == order@.map_values(|x: usize| x as int),
            kept == (if ov.len() > limit {
                ov.take(limit as int)
            } else {
                ov
            }),
            forall|q: int| 0 <= q < order@.len() ==> order@[q] < rows@.len(),
            rv == sampled_view(rows@),
            sampled_view(out@) == kept.take(j as int).map_values(|i: int| rv[i]),
        decreases order@.len() - j,
    {
        let k = order[j];
        let ghost before = out@;
        out.push(clone_sampled(&rows[k]));
        j = j + 1;
        proof {
            assert(kept[j - 1] == k as int);
            assert(kept.take(j as int) =~= kept.take(j - 1).push(k as int));
            assert(kept.take(j as int).map_values(|i: int| rv[i]) =~= kept.take(j - 1).map_values(
                |i: int| rv[i],
            ).push(rv[k as int]));
            assert(sampled_view(out@) =~= sampled_view(before).push(rows@[k as int]@));
        }
    }
    assert(kept.take(kept.len() as int) =~= kept);
    out
}

/// The nodes without a parent: the root.
pub fn root_nodes(tree: &CallTree) -> (out: Vec<usize>)
    ensures
        out@.map_values(|x: usize| x as int) == positions_where(
            |i: int| tree.nodes@[i].parent_id is None,
            tree.nodes@.len() as int,
        ),
{
    let ghost pick = |i: int| tree.nodes@[i].parent_id is None;
    let mut out: Vec<usize> = Vec::new();
    let mut i: usize = 0;
    while i < tree.nodes.len()
        invariant
            i <= tree.nodes@.len(),
            pick == (|i: int| tree.nodes@[i].parent_id is None),
            out@.map_values(|x: usize| x as int) == positions_where(pick, i as int),
        decreases tree.nodes@.len() - i,
    {
        if tree.nodes[i].parent_id.is_none() {
            out.push(i);
        }
        i = i + 1;
        assert(out@.map_values(|x: usize| x as int) =~= positions_where(pick, i as int));
    }
    out
}

/// The children of a node, in the order they were added.
pub fn children_of(tree: &CallTree, node_id: usize) -> (out: Vec<usize>)
    requires
        node_id < tree.nodes@.len(),
    ensures
        out@ == tree.nodes@[node_id as int].children@,
{
    copy_indices(&tree.nodes[node_id].children)
}

/// Whether the samples hold few enough frames for a call tree to count them.
pub fn call_tree_fits(samples: &[StackSample]) -> (b: bool)
    ensures
        b == (total_frames(samples@, samples@.len() as int) < u64::MAX && total_frames(
            samples@,
            samples@.len() as int,
        ) < usize::MAX),
{
    let mut total: u64 = 0;
    let mut i: usize = 0;
    while i < samples.len()
        invariant
            i <= samples@.len(),
            total == total_frames(samples@, i as int),
            total < u64::MAX,
            total < usize::MAX,
        decreases samples@.len() - i,
    {
        let n = samples[i].stack_trace.len() as u64;
        proof {
            lemma_total_frames_mono(samples@, i + 1, samples@.len() as int);
        }
        if n >= u64::MAX - total || n + total >= usize::MAX as u64 {
            return false;
        }
        total = total + n;
        i = i + 1;
    }
    true
}

} // verus!


verus! {

/// The key of a node's method.
pub open spec fn node_key(n: NodeModel) -> Seq<char> {
    frame_key(n.class_name, n.method_name, n.descriptor)
}

/// Some node other than the root has this key.
pub open spec fn has_key(nodes: Seq<NodeModel>, key: Seq<char>) -> bool {
    exists|j: int| 1 <= j < nodes.len() && node_key(#[trigger] nodes[j]) == key
}

/// The calls counted on the nodes `1..n`.
pub open spec fn calls_upto(nodes: Seq<NodeModel>, n: int) -> nat
    decreases n,
{
    if n <= 1 {
        0
    } else {
        calls_upto(nodes, n - 1) + nodes[n - 1].call_count as nat
    }
}

/// Node ids are positions, and every node but the root has an earlier parent that lists it
/// among its children.
#[verifier::opaque]
pub open spec fn law_parents(nodes: Seq<NodeModel>) -> bool {
    &&& forall|k: int| 0 <= k < nodes.len() ==> (#[trigger] nodes[k]).id == k
    &&& forall|k: int|
        1 <= k < nodes.len() ==> (#[trigger] nodes[k]).parent_id is Some
            && nodes[k].parent_id.unwrap() < k
            && nodes[nodes[k].parent_id.unwrap() as int].children.contains(k as usize)
}

/// Every child of a node lists that node as its parent.
#[verifier::opaque]
pub open spec fn law_children(nodes: Seq<NodeModel>) -> bool {
    forall|k: int, c: int|
        0 <= k < nodes.len() && 0 <= c < nodes[k].children.len() ==> #[trigger] nodes[k].children[c]
            < nodes.len() && nodes[nodes[k].children[c] as int].parent_id == Some(k as usize)
}

/// No two nodes besides the root share a method key.
#[verifier::opaque]
pub open spec fn law_keys(nodes: Seq<NodeModel>) -> bool {
    forall|a: int, b: int|
        1 <= a < b < nodes.len() ==> node_key(#[trigger] nodes[a]) != node_key(#[trigger] nodes[b])
}

/// Every node besides the root was passed at least once and at most `p` times, and their
/// passes add up to `p`.
#[verifier::opaque]
pub open spec fn law_calls(nodes: Seq<NodeModel>, p: nat) -> bool {
    &&& forall|k: int| 1 <= k < nodes.len() ==> 1 <= (#[trigger] nodes[k]).call_count <= p
    &&& calls_upto(nodes, nodes.len() as int) == p
}

/// No edge starts at the root or loops on one node.
#[verifier::opaque]
pub open spec fn law_edges(edges: Seq<MethodEdge>) -> bool {
    forall|e: int|
        0 <= e < edges.len() ==> (#[trigger] edges[e]).from_id != 0 && edges[e].from_id
            != edges[e].to_id
}

/// The shape of a call tree after `p` counted frames: node 0 is the root `root.all` without a
/// parent, and the parent, child, key, pass-count and edge laws above hold.
pub open spec fn tree_law(t: TreeModel, p: nat) -> bool {
    &&& t.nodes.len() >= 1
    &&& t.nodes[0].class_name == "root"@
    &&& t.nodes[0].method_name == "all"@
    &&& t.nodes[0].parent_id is None
    &&& law_parents(t.nodes)
    &&& law_children(t.nodes)
    &&& law_keys(t.nodes)
    &&& law_calls(t.nodes, p)
    &&& law_edges(t.edges)
}

proof fn lemma_calls_agree(a: Seq<NodeModel>, b: Seq<NodeModel>, m: int)
    requires
        m <= a.len(),
        m <= b.len(),
        forall|j: int| 1 <= j < m ==> a[j].call_count == b[j].call_count,
    ensures
        calls_upto(a, m) == calls_upto(b, m),
    decreases m,
{
    if m > 1 {
        lemma_calls_agree(a, b, m - 1);
    }
}

proof fn lemma_calls_bump(a: Seq<NodeModel>, b: Seq<NodeModel>, k: int, m: int)
    requires
        1 <= k < m <= a.len(),
        a.len() == b.len(),
        forall|j: int| 1 <= j < a.len() && j != k ==> a[j].call_count == b[j].call_count,
        b[k].call_count == a[k].call_count + 1,
    ensures
        calls_upto(b, m) == calls_upto(a, m) + 1,
    decreases m,
{
    if m - 1 == k {
        lemma_calls_agree(a, b, k);
    } else {
        lemma_calls_bump(a, b, k, m - 1);
    }
}

/// A node found again: only its counts change.
proof fn lemma_law_bumped(n: Seq<NodeModel>, n2: Seq<NodeModel>, k: int, p: nat)
    requires
        1 <= k < n.len(),
        n2.len() == n.len(),
        forall|j: int| 0 <= j < n.len() && j != k ==> n2[j] == n[j],
        n2[k].children == n[k].children,
        n2[k].parent_id == n[k].parent_id,
        n2[k].id == n[k].id,
        node_key(n2[k]) == node_key(n[k]),
        n2[k].call_count == n[k].call_count + 1,
        p < u64::MAX,
        law_parents(n),
        law_children(n),
        law_keys(n),
        law_calls(n, p),
    ensures
        law_parents(n2),
        law_children(n2),
        law_keys(n2),
        law_calls(n2, p + 1),
        forall|key: Seq<char>| has_key(n, key) ==> #[trigger] has_key(n2, key),
{
    reveal(law_parents);
    reveal(law_children);
    reveal(law_keys);
    reveal(law_calls);
    assert forall|j: int| 0 <= j < n.len() implies n2[j].children == n[j].children
        && n2[j].parent_id == n[j].parent_id && n2[j].id == n[j].id && node_key(n2[j])
        == node_key(n[j]) by {
        if j != k {
            assert(n2[j] == n[j]);
        }
    }
    lemma_calls_bump(n, n2, k, n.len() as int);
    assert forall|j: int| 1 <= j < n2.len() implies 1 <= (#[trigger] n2[j]).call_count <= p + 1 by {
        if j != k {
            assert(n2[j] == n[j]);
        }
    }
    assert forall|key2: Seq<char>| has_key(n, key2) implies #[trigger] has_key(n2, key2) by {
        let j = choose|j: int| 1 <= j < n.len() && node_key(#[trigger] n[j]) == key2;
        assert(node_key(n2[j]) == key2);
    }
}

/// The facts of a node added at the end under `parent`.
pub open spec fn added_under(n: Seq<NodeModel>, n2: Seq<NodeModel>, parent: int) -> bool {
    &&& 0 <= parent < n.len()
    &&& n.len() < usize::MAX
    &&& n2.len() == n.len() + 1
    &&& forall|j: int| 0 <= j < n.len() && j != parent ==> #[trigger] n2[j] == n[j]
    &&& n2[parent].parent_id == n[parent].parent_id
    &&& n2[parent].id == n[parent].id
    &&& node_key(n2[parent]) == node_key(n[parent])
    &&& n2[parent].call_count == n[parent].call_count
    &&& n2[parent].children == n[parent].children.push(n.len() as usize)
    &&& n2[n.len() as int].id == n.len()
    &&& n2[n.len() as int].parent_id == Some(parent as usize)
    &&& n2[n.len() as int].children.len() == 0
    &&& n2[n.len() as int].call_count == 1
}

proof fn lemma_added_same(n: Seq<NodeModel>, n2: Seq<NodeModel>, parent: int)
    requires
        added_under(n, n2, parent),
    ensures
        forall|j: int|
            0 <= j < n.len() ==> (#[trigger] n2[j]).parent_id == n[j].parent_id && n2[j].id
                == n[j].id && node_key(n2[j]) == node_key(n[j]) && n2[j].call_count
                == n[j].call_count,
{
    assert forall|j: int| 0 <= j < n.len() implies (#[trigger] n2[j]).parent_id == n[j].parent_id
        && n2[j].id == n[j].id && node_key(n2[j]) == node_key(n[j]) && n2[j].call_count
        == n[j].call_count by {
        if j != parent {
            assert(n2[j] == n[j]);
        }
    }
}

proof fn lemma_added_parents(n: Seq<NodeModel>, n2: Seq<NodeModel>, parent: int)
    requires
        added_under(n, n2, parent),
        law_parents(n),
    ensures
        law_parents(n2),
{
    reveal(law_parents);
    lemma_added_same(n, n2, parent);
    let k = n.len() as int;
    assert forall|j: int| 1 <= j < n2.len() implies (#[trigger] n2[j]).parent_id is Some
        && n2[j].parent_id.unwrap() < j && n2[n2[j].parent_id.unwrap() as int].children.contains(
        j as usize,
    ) by {
        if j < k {
            let q = n[j].parent_id.unwrap() as int;
            assert(n[q].children.contains(j as usize));
            let c = choose|c: int| 0 <= c < n[q].children.len() && n[q].children[c] == j as usize;
            if q == parent {
                assert(n2[q].children[c] == j as usize);
            } else {
                assert(n2[q] == n[q]);
            }
        } else {
            assert(n2[parent].children[n[parent].children.len() as int] == k as usize);
        }
    }
}

proof fn lemma_added_children(n: Seq<NodeModel>, n2: Seq<NodeModel>, parent: int)
    requires
        added_under(n, n2, parent),
        law_children(n),
    ensures
        law_children(n2),
{
    reveal(law_children);
    lemma_added_same(n, n2, parent);
    let k = n.len() as int;
    assert forall|q: int, c: int|
        0 <= q < n2.len() && 0 <= c < n2[q].children.len() implies #[trigger] n2[q].children[c]
        < n2.len() && n2[n2[q].children[c] as int].parent_id == Some(q as usize) by {
        if q == k {
        } else if q == parent {
            if c < n[q].children.len() {
                assert(n2[q].children[c] == n[q].children[c]);
            } else {
                assert(n2[q].children[c] == k as usize);
            }
        } else {
            assert(n2[q] == n[q]);
        }
    }
}

proof fn lemma_added_keys_calls(
    n: Seq<NodeModel>,
    n2: Seq<NodeModel>,
    parent: int,
    key: Seq<char>,
    p: nat,
)
    requires
        added_under(n, n2, parent),
        node_key(n2[n.len() as int]) == key,
        forall|j: int| 1 <= j < n.len() ==> node_key(#[trigger] n[j]) != key,
        law_keys(n),
        law_calls(n, p),
    ensures
        law_keys(n2),
        law_calls(n2, p + 1),
        forall|key2: Seq<char>| has_key(n, key2) ==> #[trigger] has_key(n2, key2),
        has_key(n2, key),
{
    reveal(law_keys);
    reveal(law_calls);
    lemma_added_same(n, n2, parent);
    let k = n.len() as int;
    lemma_calls_agree(n, n2, k);
    assert forall|a: int, b: int| 1 <= a < b < n2.len() implies node_key(#[trigger] n2[a])
        != node_key(#[trigger] n2[b]) by {
        if b == k {
            assert(node_key(n2[a]) == node_key(n[a]));
        }
    }
    assert forall|j: int| 1 <= j < n2.len() implies 1 <= (#[trigger] n2[j]).call_count <= p + 1 by {}
    assert forall|key2: Seq<char>| has_key(n, key2) implies #[trigger] has_key(n2, key2) by {
        let j = choose|j: int| 1 <= j < n.len() && node_key(#[trigger] n[j]) == key2;
        assert(node_key(n2[j]) == key2);
    }
    assert(node_key(n2[k]) == key);
}

proof fn lemma_step_frame_law(t: TreeModel, p: nat, parent: int, f: FrameModel, leaf: bool)
    requires
        tree_law(t, p),
        p < u64::MAX,
        0 <= parent < t.nodes.len(),
        t.nodes.len() < usize::MAX,
    ensures
        tree_law(step_frame(t, parent, f, leaf).0, p + 1),
        0 <= step_frame(t, parent, f, leaf).1 < step_frame(t, parent, f, leaf).0.nodes.len(),
        step_frame(t, parent, f, leaf).0.nodes.len() <= t.nodes.len() + 1,
        has_key(
            step_frame(t, parent, f, leaf).0.nodes,
            frame_key(f.class_name, f.method_name, f.descriptor),
        ),
        forall|key: Seq<char>|
            has_key(t.nodes, key) ==> #[trigger] has_key(step_frame(t, parent, f, leaf).0.nodes, key),
{
    let key = frame_key(f.class_name, f.method_name, f.descriptor);
    lemma_key_index(t.nodes, key, 1);
    let (t2, idx) = step_frame(t, parent, f, leaf);
    let n = t.nodes;
    let n2 = t2.nodes;
    match key_index(n, key, 1) {
        Some(k) => {
            assert(n2 == n.update(
                k,
                NodeModel {
                    call_count: (n[k].call_count + 1) as u64,
                    self_count: if leaf {
                        (n[k].self_count + 1) as u64
                    } else {
                        n[k].self_count
                    },
                    ..n[k]
                },
            ));
            assert(n[k].call_count <= p) by {
                reveal(law_calls);
            }
            lemma_law_bumped(n, n2, k, p);
            assert(node_key(n2[k]) == key);
        },
        None => {
            let k = n.len() as int;
            let added = n.push(
                NodeModel {
                    id: k as usize,
                    parent_id: Some(parent as usize),
                    class_name: f.class_name,
                    method_name: f.method_name,
                    descriptor: f.descriptor,
                    file_name: f.file_name,
                    line_number: f.line_number,
                    self_count: if leaf {
                        1
                    } else {
                        0
                    },
                    call_count: 1,
                    children: seq![],
                },
            );
            assert(n2 == added.update(
                parent,
                NodeModel { children: added[parent].children.push(k as usize), ..added[parent] },
            ));
            assert(added[parent] == n[parent]);
            assert(node_key(n2[k]) == key);
            assert(added_under(n, n2, parent));
            lemma_added_parents(n, n2, parent);
            lemma_added_children(n, n2, parent);
            lemma_added_keys_calls(n, n2, parent, key, p);
        },
    }
    assert(t2.nodes[0].class_name == "root"@ && t2.nodes[0].method_name == "all"@
        && t2.nodes[0].parent_id is None);
    lemma_edge_index(t.edges, parent, idx, 0);
    assert(law_edges(t2.edges)) by {
        reveal(law_edges);
        if parent != 0 && parent != idx {
            match edge_index(t.edges, parent, idx, 0) {
                Some(e0) => {
                    let up = t.edges.update(
                        e0,
                        MethodEdge { call_count: (t.edges[e0].call_count + 1) as u64, ..t.edges[e0] },
                    );
                    assert(t2.edges == up);
                    assert forall|e: int| 0 <= e < up.len() implies (#[trigger] up[e]).from_id != 0
                        && up[e].from_id != up[e].to_id by {
                        if e != e0 {
                            assert(up[e] == t.edges[e]);
                        }
                    }
                },
                None => {
                    let pu = t.edges.push(
                        MethodEdge { from_id: parent as usize, to_id: idx as usize, call_count: 1 },
                    );
                    assert(t2.edges == pu);
                    assert forall|e: int| 0 <= e < pu.len() implies (#[trigger] pu[e]).from_id != 0
                        && pu[e].from_id != pu[e].to_id by {
                        if e < t.edges.len() {
                            assert(pu[e] == t.edges[e]);
                        }
                    }
                },
            }
        } else {
            assert(t2.edges == t.edges);
        }
    }
}


proof fn lemma_walk_frames_law(t: TreeModel, p: nat, parent: int, frames: Seq<FrameModel>, j: int)
    requires
        tree_law(t, p),
        0 <= parent < t.nodes.len(),
        0 <= j <= frames.len(),
        p + (frames.len() - j) < u64::MAX,
        t.nodes.len() + (frames.len() - j) < usize::MAX,
    ensures
        tree_law(walk_frames(t, parent, frames, j), p + (frames.len() - j) as nat),
        walk_frames(t, parent, frames, j).nodes.len() <= t.nodes.len() + (frames.len() - j),
        forall|key: Seq<char>|
            has_key(t.nodes, key) ==> #[trigger] has_key(walk_frames(t, parent, frames, j).nodes, key),
        forall|q: int|
            j <= q < frames.len() ==> has_key(
                walk_frames(t, parent, frames, j).nodes,
                frame_key(
                    (#[trigger] frames[q]).class_name,
                    frames[q].method_name,
                    frames[q].descriptor,
                ),
            ),
    decreases frames.len() - j,
{
    if j < frames.len() {
        let (t2, idx) = step_frame(t, parent, frames[j], j == frames.len() - 1);
        lemma_step_frame_law(t, p, parent, frames[j], j == frames.len() - 1);
        lemma_walk_frames_law(t2, p + 1, idx, frames, j + 1);
        let w = walk_frames(t, parent, frames, j);
        assert(w == walk_frames(t2, idx, frames, j + 1));
        assert(has_key(
            w.nodes,
            frame_key(frames[j].class_name, frames[j].method_name, frames[j].descriptor),
        ));
    }
}

/// The frames that the first `n` samples add to the tree: the counted frames of the samples
/// that the thread filter keeps.
pub open spec fn counted_total(samples: Seq<StackSample>, thread_filter: Seq<char>, n: int) -> nat
    decreases n,
{
    if n <= 0 {
        0
    } else {
        counted_total(samples, thread_filter, n - 1) + if sample_counts(
            thread_filter,
            samples[n - 1].state@,
        ) {
            counted_frames(frames_view(samples[n - 1].stack_trace@)).len()
        } else {
            0
        }
    }
}

proof fn lemma_counted_total_bound(samples: Seq<StackSample>, thread_filter: Seq<char>, n: int)
    requires
        0 <= n <= samples.len(),
    ensures
        counted_total(samples, thread_filter, n) <= total_frames(samples, n),
    decreases n,
{
    if n > 0 {
        lemma_counted_total_bound(samples, thread_filter, n - 1);
        let st = frames_view(samples[n - 1].stack_trace@);
        crate::app::lemma_positions_where_len(
            |i: int| !contains(st[i].class_name, "java.lang.Thread.State"@),
            st.len() as int,
        );
    }
}

proof fn lemma_tree_of_law(samples: Seq<StackSample>, thread_filter: Seq<char>, n: int)
    requires
        0 <= n <= samples.len(),
        total_frames(samples, n) < u64::MAX,
        total_frames(samples, n) + 1 < usize::MAX,
    ensures
        tree_law(tree_of(samples, thread_filter, n), counted_total(samples, thread_filter, n)),
        tree_of(samples, thread_filter, n).nodes.len() <= 1 + counted_total(
            samples,
            thread_filter,
            n,
        ),
        forall|m: int, q: int|
            0 <= m < n && sample_counts(thread_filter, samples[m].state@) && 0 <= q
                < counted_frames(frames_view(samples[m].stack_trace@)).len() ==> has_key(
                tree_of(samples, thread_filter, n).nodes,
                frame_key(
                    (#[trigger] counted_frames(frames_view(samples[m].stack_trace@))[q]).class_name,
                    counted_frames(frames_view(samples[m].stack_trace@))[q].method_name,
                    counted_frames(frames_view(samples[m].stack_trace@))[q].descriptor,
                ),
            ),
    decreases n,
{
    lemma_counted_total_bound(samples, thread_filter, n);
    if n == 0 {
        reveal(law_parents);
        reveal(law_children);
        reveal(law_keys);
        reveal(law_calls);
        reveal(law_edges);
        assert(tree_of(samples, thread_filter, 0) == empty_tree());
        reveal_strlit("root");
        reveal_strlit("all");
    } else {
        lemma_total_frames_mono(samples, n - 1, n);
        lemma_tree_of_law(samples, thread_filter, n - 1);
        let t = tree_of(samples, thread_filter, n - 1);
        if sample_counts(thread_filter, samples[n - 1].state@) {
            let fr = counted_frames(frames_view(samples[n - 1].stack_trace@));
            lemma_counted_total_bound(samples, thread_filter, n - 1);
            lemma_walk_frames_law(t, counted_total(samples, thread_filter, n - 1), 0, fr, 0);
            assert(fr.skip(0) =~= fr);
        }
    }
}

/// The method key of a frame.
pub open spec fn key_of_frame(f: FrameModel) -> Seq<char> {
    frame_key(f.class_name, f.method_name, f.descriptor)
}

/// The frames of the `m`-th sample that the tree counts: its counted frames when the thread
/// filter keeps the sample, else none.
pub open spec fn kept_frames(samples: Seq<StackSample>, thread_filter: Seq<char>, m: int) -> Seq<
    FrameModel,
> {
    if sample_counts(thread_filter, samples[m].state@) {
        counted_frames(frames_view(samples[m].stack_trace@))
    } else {
        seq![]
    }
}

/// Some counted frame of a kept sample among the first `n` has this method key.
pub open spec fn key_from_samples(
    samples: Seq<StackSample>,
    thread_filter: Seq<char>,
    n: int,
    key: Seq<char>,
) -> bool {
    exists|m: int, q: int|
        0 <= m < n && 0 <= q < kept_frames(samples, thread_filter, m).len() && #[trigger] key_of_frame(
            kept_frames(samples, thread_filter, m)[q],
        ) == key
}

/// One frame adds no key but its own.
proof fn lemma_step_frame_keys(t: TreeModel, parent: int, f: FrameModel, leaf: bool)
    requires
        0 <= parent < t.nodes.len(),
    ensures
        0 <= step_frame(t, parent, f, leaf).1 < step_frame(t, parent, f, leaf).0.nodes.len(),
        step_frame(t, parent, f, leaf).0.nodes.len() >= t.nodes.len(),
        forall|i: int|
            1 <= i < step_frame(t, parent, f, leaf).0.nodes.len() ==> has_key(
                t.nodes,
                node_key(#[trigger] step_frame(t, parent, f, leaf).0.nodes[i]),
            ) || node_key(step_frame(t, parent, f, leaf).0.nodes[i]) == key_of_frame(f),
{
    let key = key_of_frame(f);
    lemma_key_index(t.nodes, key, 1);
    let (t2, idx) = step_frame(t, parent, f, leaf);
    let n = t.nodes;
    match key_index(n, key, 1) {
        Some(k) => {
            assert forall|i: int| 1 <= i < t2.nodes.len() implies has_key(
                n,
                node_key(#[trigger] t2.nodes[i]),
            ) || node_key(t2.nodes[i]) == key by {
                assert(node_key(t2.nodes[i]) == node_key(n[i]));
            }
        },
        None => {
            assert forall|i: int| 1 <= i < t2.nodes.len() implies has_key(
                n,
                node_key(#[trigger] t2.nodes[i]),
            ) || node_key(t2.nodes[i]) == key by {
                if i < n.len() {
                    assert(node_key(t2.nodes[i]) == node_key(n[i]));
                } else {
                    assert(node_key(t2.nodes[i]) == key);
                }
            }
        },
    }
}

/// The frames `frames[j..]` add no keys but theirs.
proof fn lemma_walk_frames_keys(t: TreeModel, parent: int, frames: Seq<FrameModel>, j: int)
    requires
        0 <= parent < t.nodes.len(),
        0 <= j <= frames.len(),
    ensures
        walk_frames(t, parent, frames, j).nodes.len() >= t.nodes.len(),
        forall|i: int|
            1 <= i < walk_frames(t, parent, frames, j).nodes.len() ==> has_key(
                t.nodes,
                node_key(#[trigger] walk_frames(t, parent, frames, j).nodes[i]),
            ) || exists|q: int|
                j <= q < frames.len() && key_of_frame(#[trigger] frames[q]) == node_key(
                    walk_frames(t, parent, frames, j).nodes[i],
                ),
    decreases frames.len() - j,
{
    if j < frames.len() {
        let (t2, idx) = step_frame(t, parent, frames[j], j == frames.len() - 1);
        lemma_step_frame_keys(t, parent, frames[j], j == frames.len() - 1);
        lemma_walk_frames_keys(t2, idx, frames, j + 1);
        let w = walk_frames(t, parent, frames, j);
        assert(w == walk_frames(t2, idx, frames, j + 1));
        assert forall|i: int| 1 <= i < w.nodes.len() implies has_key(
            t.nodes,
            node_key(#[trigger] w.nodes[i]),
        ) || exists|q: int|
            j <= q < frames.len() && key_of_frame(#[trigger] frames[q]) == node_key(w.nodes[i]) by {
            let key = node_key(w.nodes[i]);
            if has_key(t2.nodes, key) {
                let g = choose|g: int| 1 <= g < t2.nodes.len() && node_key(#[trigger] t2.nodes[g]) == key;
                assert(has_key(t.nodes, node_key(t2.nodes[g])) || node_key(t2.nodes[g]) == key_of_frame(
                    frames[j],
                ));
            } else {
                let q = choose|q: int|
                    j + 1 <= q < frames.len() && key_of_frame(#[trigger] frames[q]) == key;
                assert(j <= q < frames.len() && key_of_frame(frames[q]) == key);
            }
        }
    }
}

/// Every node of the tree after the first `n` samples, besides the root, has the key of a
/// counted frame of a kept sample.
proof fn lemma_tree_of_keys(samples: Seq<StackSample>, thread_filter: Seq<char>, n: int)
    requires
        0 <= n <= samples.len(),
    ensures
        tree_of(samples, thread_filter, n).nodes.len() >= 1,
        forall|i: int|
            1 <= i < tree_of(samples, thread_filter, n).nodes.len() ==> key_from_samples(
                samples,
                thread_filter,
                n,
                node_key(#[trigger] tree_of(samples, thread_filter, n).nodes[i]),
            ),
    decreases n,
{
    if n > 0 {
        lemma_tree_of_keys(samples, thread_filter, n - 1);
        let t = tree_of(samples, thread_filter, n - 1);
        let tn = tree_of(samples, thread_filter, n);
        if sample_counts(thread_filter, samples[n - 1].state@) {
            let fr = counted_frames(frames_view(samples[n - 1].stack_trace@));
            assert(kept_frames(samples, thread_filter, n - 1) == fr);
            lemma_walk_frames_keys(t, 0, fr, 0);
            assert forall|i: int| 1 <= i < tn.nodes.len() implies key_from_samples(
                samples,
                thread_filter,
                n,
                node_key(#[trigger] tn.nodes[i]),
            ) by {
                let key = node_key(tn.nodes[i]);
                if has_key(t.nodes, key) {
                    let g = choose|g: int| 1 <= g < t.nodes.len() && node_key(#[trigger] t.nodes[g]) == key;
                    assert(key_from_samples(samples, thread_filter, n - 1, node_key(t.nodes[g])));
                    let (m, q) = choose|m: int, q: int|
                        0 <= m < n - 1 && 0 <= q < kept_frames(samples, thread_filter, m).len()
                            && #[trigger] key_of_frame(kept_frames(samples, thread_filter, m)[q]) == key;
                    assert(key_of_frame(kept_frames(samples, thread_filter, m)[q]) == key);
                } else {
                    let q = choose|q: int| 0 <= q < fr.len() && key_of_frame(#[trigger] fr[q]) == key;
                    assert(key_of_frame(kept_frames(samples, thread_filter, n - 1)[q]) == key);
                }
            }
        } else {
            assert forall|i: int| 1 <= i < tn.nodes.len() implies key_from_samples(
                samples,
                thread_filter,
                n,
                node_key(#[trigger] tn.nodes[i]),
            ) by {
                let key = node_key(tn.nodes[i]);
                assert(key_from_samples(samples, thread_filter, n - 1, key));
                let (m, q) = choose|m: int, q: int|
                    0 <= m < n - 1 && 0 <= q < kept_frames(samples, thread_filter, m).len()
                        && #[trigger] key_of_frame(kept_frames(samples, thread_filter, m)[q]) == key;
                assert(key_of_frame(kept_frames(samples, thread_filter, m)[q]) == key);
            }
        }
    }
}

/// The call tree of the samples that the thread filter keeps (all of them for an empty filter
/// or `Runnable`, else the runnable ones), counting their frames without thread-state lines:
/// node 0 is the root `root.all` without a parent; node ids are positions; every other node has
/// an earlier parent that lists it as a child, and children list their parent; no two nodes
/// besides the root share a method key, every counted frame's method has such a node, and every
/// such node's method is that of a counted frame (one node per counted method); each of them
/// was passed at least once, and their passes add up to the counted frames; no edge starts at
/// the root or loops on one node.
pub proof fn lemma_call_tree_shape(samples: Seq<StackSample>, thread_filter: Seq<char>)
    requires
        total_frames(samples, samples.len() as int) < u64::MAX,
        total_frames(samples, samples.len() as int) + 1 < usize::MAX,
    ensures
        tree_law(
            tree_of(samples, thread_filter, samples.len() as int),
            counted_total(samples, thread_filter, samples.len() as int),
        ),
        forall|m: int, q: int|
            0 <= m < samples.len() && sample_counts(thread_filter, samples[m].state@) && 0 <= q
                < counted_frames(frames_view(samples[m].stack_trace@)).len() ==> has_key(
                tree_of(samples, thread_filter, samples.len() as int).nodes,
                frame_key(
                    (#[trigger] counted_frames(frames_view(samples[m].stack_trace@))[q]).class_name,
                    counted_frames(frames_view(samples[m].stack_trace@))[q].method_name,
                    counted_frames(frames_view(samples[m].stack_trace@))[q].descriptor,
                ),
            ),
        forall|i: int|
            1 <= i < tree_of(samples, thread_filter, samples.len() as int).nodes.len()
                ==> key_from_samples(
                samples,
                thread_filter,
                samples.len() as int,
                node_key(#[trigger] tree_of(samples, thread_filter, samples.len() as int).nodes[i]),
            ),
{
    lemma_tree_of_law(samples, thread_filter, samples.len() as int);
    lemma_tree_of_keys(samples, thread_filter, samples.len() as int);
}

} // verus!

use vstd::prelude::*;

use crate::model::{alloc_rows_view, qualified_name, AllocRowModel, AllocationHotSpotRow, CpuMethodEdgeRow};
use crate::text::{chars_of, push_all, push_str, replace_char, replace_char_exec, string_of};

verus! {

/// One node of the allocation tree that the agent reports.
#[derive(Clone, Debug)]
pub struct AllocationTreeNode {
    pub id: i32,
    pub parent_id: i32,
    pub class_name: String,
    pub method_name: String,
    pub method_descriptor: String,
    pub file_name: String,
    pub line_number: i32,
    pub allocated_type: String,
    pub allocated_size: u64,
    pub instance_count: u64,
}

/// The allocation tree that the agent reports, as a flat list of nodes.
#[derive(Clone, Debug)]
pub struct AllocationTree {
    pub nodes: Vec<AllocationTreeNode>,
}

/// The memory data that the agent reports.
#[derive(Clone, Debug)]
pub struct MemoryData {
    pub allocation_tree: Option<AllocationTree>,
    pub heap_used_bytes: u64,
    pub heap_committed_bytes: u64,
}

/// The mathematical content of an allocation tree node.
pub struct AllocNodeModel {
    pub id: i32,
    pub parent_id: i32,
    pub class_name: Seq<char>,
    pub method_name: Seq<char>,
    pub method_descriptor: Seq<char>,
    pub allocated_type: Seq<char>,
    pub allocated_size: u64,
    pub instance_count: u64,
}

impl View for AllocationTreeNode {
    type V = AllocNodeModel;

    open spec fn view(&self) -> AllocNodeModel {
        AllocNodeModel {
            id: self.id,
            parent_id: self.parent_id,
            class_name: self.class_name@,
            method_name: self.method_name@,
            method_descriptor: self.method_descriptor@,
            allocated_type: self.allocated_type@,
            allocated_size: self.allocated_size,
            instance_count: self.instance_count,
        }
    }
}

/// The views of a sequence of allocation tree nodes.
pub open spec fn nodes_view(v: Seq<AllocationTreeNode>) -> Seq<AllocNodeModel> {
    v.map_values(|n: AllocationTreeNode| n@)
}

/// The index of the first node at or after `i` whose id is `id`.
pub open spec fn node_index_from(nodes: Seq<AllocNodeModel>, id: i32, i: int) -> Option<int>
    decreases nodes.len() - i,
{
    if i < 0 || i >= nodes.len() {
        None
    } else if nodes[i].id == id {
        Some(i)
    } else {
        node_index_from(nodes, id, i + 1)
    }
}

pub proof fn lemma_node_index_from(nodes: Seq<AllocNodeModel>, id: i32, i: int)
    requires
        0 <= i,
    ensures
        match node_index_from(nodes, id, i) {
            None => forall|j: int| i <= j < nodes.len() ==> nodes[j].id != id,
            Some(k) => 0 <= i <= k < nodes.len() && nodes[k].id == id && forall|j: int|
                i <= j < k ==> nodes[j].id != id,
        },
    decreases nodes.len() - i,
{
    if i < nodes.len() && nodes[i].id != id {
        lemma_node_index_from(nodes, id, i + 1);
    }
}

/// The depth reached by following parent links from `parent`, one level per link, through
/// the first node with each id, stopping at a negative id, a missing node or depth 16.
pub open spec fn depth_walk(nodes: Seq<AllocNodeModel>, parent: i32, depth: nat) -> nat
    decreases 16 - depth,
{
    if parent >= 0 && depth < 16 {
        match node_index_from(nodes, parent, 0) {
            None => depth + 1,
            Some(k) => depth_walk(nodes, nodes[k].parent_id, depth + 1),
        }
    } else {
        depth
    }
}

/// The display name of an allocation node: the allocated type with `/` as `.` for a node
/// without a method, else `class.method` followed by the descriptor.
pub open spec fn alloc_node_name(n: AllocNodeModel) -> Seq<char> {
    if n.class_name.len() == 0 && n.method_name.len() == 0 {
        replace_char(n.allocated_type, '/', '.')
    } else {
        qualified_name(n.class_name, n.method_name, n.method_descriptor)
    }
}

/// The hot spot row of node `i`.
pub open spec fn alloc_row(nodes: Seq<AllocNodeModel>, i: int) -> AllocRowModel {
    let n = nodes[i];
    AllocRowModel {
        node_id: n.id,
        parent_id: if n.parent_id >= 0 {
            Some(n.parent_id)
        } else {
            None
        },
        depth: depth_walk(nodes, n.parent_id, 0) as usize,
        name: alloc_node_name(n),
        allocated_type: replace_char(n.allocated_type, '/', '.'),
        bytes: n.allocated_size,
        allocations: n.instance_count,
    }
}

/// The index of the first node with id `id`.
fn find_node(nodes: &[AllocationTreeNode], id: i32) -> (r: Option<usize>)
    ensures
        match node_index_from(nodes_view(nodes@), id, 0) {
            None => r is None,
            Some(k) => r == Some(k as usize),
        },
{
    let ghost nv = nodes_view(nodes@);
    let mut i: usize = 0;
    while i < nodes.len()
        invariant
            i <= nodes@.len(),
            nv == nodes_view(nodes@),
            node_index_from(nv, id, 0) == node_index_from(nv, id, i as int),
        decreases nodes@.len() - i,
    {
        if nodes[i].id == id {
            return Some(i);
        }
        i = i + 1;
    }
    None
}

/// How many parent links lead up from `parent_id`, at most 16.
pub fn allocation_depth(parent_id: i32, nodes: &[AllocationTreeNode]) -> (d: usize)
    ensures
        d == depth_walk(nodes_view(nodes@), parent_id, 0),
        d <= 16,
{
    let ghost nv = nodes_view(nodes@);
    let mut parent = parent_id;
    let mut depth: usize = 0;
    loop
        invariant
            depth <= 16,
            nv == nodes_view(nodes@),
            depth_walk(nv, parent_id, 0) == depth_walk(nv, parent, depth as nat),
        decreases 16 - depth,
    {
        if !(parent >= 0 && depth < 16) {
            return depth;
        }
        depth = depth + 1;
        proof {
            lemma_node_index_from(nv, parent, 0);
        }
        match find_node(nodes, parent) {
            None => {
                return depth;
            },
            Some(k) => {
                parent = nodes[k].parent_id;
            },
        }
    }
}

/// The hot spot row of one node.
fn allocation_row(node: &AllocationTreeNode, nodes: &[AllocationTreeNode], i: Ghost<int>) -> (r:
    AllocationHotSpotRow)
    requires
        0 <= i@ < nodes@.len(),
        nodes@[i@] == *node,
    ensures
        r@ == alloc_row(nodes_view(nodes@), i@),
{
    proof {
        reveal_strlit(".");
    }
    let allocated = replace_char_exec(chars_of(node.allocated_type.as_str()).as_slice(), '/', '.');
    let class_name = chars_of(node.class_name.as_str());
    let method_name = chars_of(node.method_name.as_str());
    let name = if class_name.len() == 0 && method_name.len() == 0 {
        string_of(allocated.as_slice())
    } else {
        let mut out = class_name;
        push_str(&mut out, ".");
        push_all(&mut out, method_name.as_slice());
        push_str(&mut out, node.method_descriptor.as_str());
        string_of(out.as_slice())
    };
    let parent = if node.parent_id >= 0 {
        Some(node.parent_id)
    } else {
        None
    };
    AllocationHotSpotRow {
        node_id: node.id,
        parent_id: parent,
        depth: allocation_depth(node.parent_id, nodes),
        name,
        allocated_type: string_of(allocated.as_slice()),
        bytes: node.allocated_size,
        allocations: node.instance_count,
    }
}

/// The allocation hot spot rows of the agent's allocation tree, one per node in the order
/// of the nodes; none when the agent sent no tree.
pub fn allocation_hotspots_from_agent_data(memory_data: MemoryData) -> (rows: Vec<
    AllocationHotSpotRow,
>)
    ensures
        match memory_data.allocation_tree {
            None => rows@.len() == 0,
            Some(tree) => {
                &&& rows@.len() == tree.nodes@.len()
                &&& forall|i: int|
                    0 <= i < rows@.len() ==> #[trigger] alloc_rows_view(rows@)[i] == alloc_row(
                        nodes_view(tree.nodes@),
                        i,
                    )
            },
        },
{
    let tree = match memory_data.allocation_tree {
        None => {
            return Vec::new();
        },
        Some(t) => t,
    };
    let nodes = tree.nodes;
    let mut rows: Vec<AllocationHotSpotRow> = Vec::new();
    let mut i: usize = 0;
    while i < nodes.len()
        invariant
            i <= nodes@.len(),
            rows@.len() == i,
            forall|j: int|
                0 <= j < i ==> #[trigger] alloc_rows_view(rows@)[j] == alloc_row(
                    nodes_view(nodes@),
                    j,
                ),
        decreases nodes@.len() - i,
    {
        let row = allocation_row(&nodes[i], nodes.as_slice(), Ghost(i as int));
        let ghost before = rows@;
        rows.push(row);
        proof {
            assert(alloc_rows_view(rows@) =~= alloc_rows_view(before).push(row@));
        }
        i = i + 1;
    }
    rows
}

} // verus!

verus! {

/// The largest message body, in bytes, that a reader accepts.
pub const MAX_MESSAGE_LEN: u32 = 50_000_000;

/// The value of four bytes read as a big-endian unsigned integer.
pub open spec fn be_value(b: Seq<u8>) -> nat {
    b[0] as nat * 16777216 + b[1] as nat * 65536 + b[2] as nat * 256 + b[3] as nat
}

/// The four big-endian bytes of `n`.
pub open spec fn be_bytes(n: u32) -> Seq<u8> {
    seq![(n / 16777216) as u8, ((n / 65536) % 256) as u8, ((n / 256) % 256) as u8, (n % 256) as u8]
}

/// A message on the wire: its length as four big-endian bytes, then its bytes.
pub open spec fn framed(payload: Seq<u8>) -> Seq<u8> {
    be_bytes(payload.len() as u32) + payload
}

/// The length prefix that goes before a message body.
pub fn encode_frame_header(len: u32) -> (h: [u8; 4])
    ensures
        h@ == be_bytes(len),
{
    let h = [
        (len / 16777216) as u8,
        ((len / 65536) % 256) as u8,
        ((len / 256) % 256) as u8,
        (len % 256) as u8,
    ];
    assert(h@ =~= be_bytes(len));
    h
}

/// The body length that a length prefix announces.
pub fn decode_frame_header(h: [u8; 4]) -> (n: u32)
    ensures
        n as nat == be_value(h@),
{
    (h[0] as u32) * 16777216 + (h[1] as u32) * 65536 + (h[2] as u32) * 256 + (h[3] as u32)
}

/// The body length that a length prefix announces, or the announced length as the error when
/// it is over `MAX_MESSAGE_LEN`.
pub fn message_length(h: [u8; 4]) -> (r: Result<u32, u32>)
    ensures
        be_value(h@) <= MAX_MESSAGE_LEN ==> r == Ok::<u32, u32>(be_value(h@) as u32),
        be_value(h@) > MAX_MESSAGE_LEN ==> r == Err::<u32, u32>(be_value(h@) as u32),
{
    let len = decode_frame_header(h);
    if len > MAX_MESSAGE_LEN {
        Err(len)
    } else {
        Ok(len)
    }
}

/// A message body with its length prefix in front.
pub fn frame_message(payload: &[u8]) -> (out: Vec<u8>)
    requires
        payload@.len() <= u32::MAX,
    ensures
        out@ == framed(payload@),
{
    let h = encode_frame_header(payload.len() as u32);
    let mut out: Vec<u8> = Vec::new();
    let mut i: usize = 0;
    while i < 4
        invariant
            i <= 4,
            out@ == h@.take(i as int),
        decreases 4 - i,
    {
        out.push(h[i]);
        i = i + 1;
    }
    let mut j: usize = 0;
    while j < payload.len()
        invariant
            j <= payload@.len(),
            out@ == h@ + payload@.take(j as int),
        decreases payload@.len() - j,
    {
        out.push(payload[j]);
        j = j + 1;
        assert(out@ =~= h@ + payload@.take(j as int));
    }
    assert(payload@.take(payload@.len() as int) =~= payload@);
    out
}

/// The length prefix gives back the length it was made from.
pub proof fn lemma_frame_header_roundtrip(n: u32)
    ensures
        be_value(be_bytes(n)) == n,
{
    let b = be_bytes(n);
    assert(b[0] as nat == n / 16777216);
    assert(b[1] as nat == (n / 65536) % 256);
    assert(b[2] as nat == (n / 256) % 256);
    assert(b[3] as nat == n % 256);
}

proof fn lemma_base256(a: int, b: int, c: int, d: int)
    requires
        0 <= a < 256,
        0 <= b < 256,
        0 <= c < 256,
        0 <= d < 256,
    ensures
        (a * 16777216 + b * 65536 + c * 256 + d) / 16777216 == a,
        ((a * 16777216 + b * 65536 + c * 256 + d) / 65536) % 256 == b,
        ((a * 16777216 + b * 65536 + c * 256 + d) / 256) % 256 == c,
        (a * 16777216 + b * 65536 + c * 256 + d) % 256 == d,
{
    let n = a * 16777216 + b * 65536 + c * 256 + d;
    assert(n / 65536 == a * 256 + b);
    assert(n / 256 == a * 65536 + b * 256 + c);
}

/// Four bytes read as a length and written again are the same four bytes.
pub proof fn lemma_frame_bytes_roundtrip(b: Seq<u8>)
    requires
        b.len() == 4,
    ensures
        be_value(b) <= u32::MAX,
        be_bytes(be_value(b) as u32) == b,
{
    lemma_base256(b[0] as int, b[1] as int, b[2] as int, b[3] as int);
    let n = be_value(b);
    assert(be_bytes(n as u32) =~= b);
}

/// A reader of a framed message gets back its length, and the bytes after the prefix are the
/// message; it accepts every message of at most `MAX_MESSAGE_LEN` bytes.
pub proof fn lemma_framed_message_reads_back(payload: Seq<u8>)
    requires
        payload.len() <= u32::MAX,
    ensures
        framed(payload).len() == payload.len() + 4,
        be_value(framed(payload).take(4)) == payload.len(),
        framed(payload).skip(4) == payload,
        payload.len() <= MAX_MESSAGE_LEN ==> be_value(framed(payload).take(4)) <= MAX_MESSAGE_LEN,
{
    let n = payload.len() as u32;
    lemma_frame_header_roundtrip(n);
    assert(framed(payload).take(4) =~= be_bytes(n));
    assert(framed(payload).skip(4) =~= payload);
}

/// What an I/O operation failed with, as far as the client tells failures apart.
#[derive(Clone, Copy, PartialEq, Eq, Structural, Debug)]
pub enum IoErrorKind {
    TimedOut,
    WouldBlock,
    Other,
}

/// Whether a failed read only ran out of time.
pub fn is_timeout_error(kind: IoErrorKind) -> (b: bool)
    ensures
        b == (kind == IoErrorKind::TimedOut || kind == IoErrorKind::WouldBlock),
{
    match kind {
        IoErrorKind::TimedOut => true,
        IoErrorKind::WouldBlock => true,
        IoErrorKind::Other => false,
    }
}

/// A method of the agent's instrumented method graph.
#[derive(Clone, Debug)]
pub struct MethodNode {
    pub id: i32,
    pub class_name: String,
    pub method_name: String,
    pub method_descriptor: String,
    pub execution_count: u64,
    pub total_duration_nano: u64,
    pub self_duration_nano: u64,
}

/// A caller-to-callee edge of the agent's method graph.
#[derive(Clone, Copy, PartialEq, Eq, Structural, Debug)]
pub struct MethodGraphEdge {
    pub from_node_id: i32,
    pub to_node_id: i32,
    pub call_count: u64,
    pub total_duration_nano: u64,
}

/// The agent's instrumented method graph.
#[derive(Clone, Debug)]
pub struct MethodGraph {
    pub nodes: Vec<MethodNode>,
    pub edges: Vec<MethodGraphEdge>,
}

/// An instrumented hot spot as the agent reports it (its share of samples aside).
#[derive(Clone, Debug)]
pub struct HotSpot {
    pub class_name: String,
    pub method_name: String,
    pub method_descriptor: String,
    pub self_samples: u64,
    pub total_samples: u64,
    pub self_duration_nano: u64,
    pub total_duration_nano: u64,
    pub invocations: u64,
}

/// The first node at or after `i` with these names.
pub open spec fn graph_node_index(
    nodes: Seq<MethodNode>,
    class_name: Seq<char>,
    method_name: Seq<char>,
    descriptor: Seq<char>,
    i: int,
) -> Option<int>
    decreases nodes.len() - i,
{
    if i < 0 || i >= nodes.len() {
        None
    } else if nodes[i].class_name@ == class_name && nodes[i].method_name@ == method_name
        && nodes[i].method_descriptor@ == descriptor {
        Some(i)
    } else {
        graph_node_index(nodes, class_name, method_name, descriptor, i + 1)
    }
}

/// The id of the first graph node with these names, when there is a graph and such a node.
pub open spec fn graph_method_id_spec(
    graph: Option<MethodGraph>,
    class_name: Seq<char>,
    method_name: Seq<char>,
    descriptor: Seq<char>,
) -> Option<i32> {
    match graph {
        None => None,
        Some(g) => match graph_node_index(g.nodes@, class_name, method_name, descriptor, 0) {
            None => None,
            Some(k) => Some(g.nodes@[k].id),
        },
    }
}

/// The id of the graph node of a hot spot's method.
pub fn graph_method_id(
    graph: &Option<MethodGraph>,
    class_name: &str,
    method_name: &str,
    descriptor: &str,
) -> (r: Option<i32>)
    ensures
        r == graph_method_id_spec(*graph, class_name@, method_name@, descriptor@),
{
    match graph {
        None => None,
        Some(g) => {
            let c = chars_of(class_name);
            let m = chars_of(method_name);
            let d = chars_of(descriptor);
            let mut i: usize = 0;
            while i < g.nodes.len()
                invariant
                    i <= g.nodes@.len(),
                    *graph == Some(*g),
                    c@ == class_name@ && m@ == method_name@ && d@ == descriptor@,
                    graph_node_index(g.nodes@, class_name@, method_name@, descriptor@, 0)
                        == graph_node_index(
                        g.nodes@,
                        class_name@,
                        method_name@,
                        descriptor@,
                        i as int,
                    ),
                decreases g.nodes@.len() - i,
            {
                let n = &g.nodes[i];
                if crate::jvm::same_chars(chars_of(n.class_name.as_str()).as_slice(), c.as_slice())
                    && crate::jvm::same_chars(chars_of(n.method_name.as_str()).as_slice(), m.as_slice())
                    && crate::jvm::same_chars(
                    chars_of(n.method_descriptor.as_str()).as_slice(),
                    d.as_slice(),
                ) {
                    assert(graph_node_index(
                        g.nodes@,
                        class_name@,
                        method_name@,
                        descriptor@,
                        i as int,
                    ) == Some(i as int));
                    return Some(n.id);
                }
                i = i + 1;
            }
            None
        },
    }
}

/// The edge row of a graph edge.
pub open spec fn edge_row(e: MethodGraphEdge) -> CpuMethodEdgeRow {
    CpuMethodEdgeRow {
        from_method_id: e.from_node_id,
        to_method_id: e.to_node_id,
        call_count: e.call_count,
        total_duration_nano: e.total_duration_nano,
    }
}

/// The edge rows of the method graph, in its order; none without a graph.
pub fn method_edge_rows(graph: &Option<MethodGraph>) -> (rows: Vec<CpuMethodEdgeRow>)
    ensures
        rows@ == match *graph {
            None => Seq::<CpuMethodEdgeRow>::empty(),
            Some(g) => g.edges@.map_values(|e: MethodGraphEdge| edge_row(e)),
        },
{
    let mut rows: Vec<CpuMethodEdgeRow> = Vec::new();
    match graph {
        None => {},
        Some(g) => {
            let mut i: usize = 0;
            while i < g.edges.len()
                invariant
                    i <= g.edges@.len(),
                    rows@ == g.edges@.map_values(|e: MethodGraphEdge| edge_row(e)).take(i as int),
                decreases g.edges@.len() - i,
            {
                let e = g.edges[i];
                rows.push(
                    CpuMethodEdgeRow {
                        from_method_id: e.from_node_id,
                        to_method_id: e.to_node_id,
                        call_count: e.call_count,
                        total_duration_nano: e.total_duration_nano,
                    },
                );
                i = i + 1;
                assert(rows@ =~= g.edges@.map_values(|e: MethodGraphEdge| edge_row(e)).take(
                    i as int,
                ));
            }
            assert(g.edges@.map_values(|e: MethodGraphEdge| edge_row(e)).take(
                g.edges@.len() as int,
            ) =~= g.edges@.map_values(|e: MethodGraphEdge| edge_row(e)));
        },
    }
    rows
}

/// Hot spot rows shown at most.
pub const MAX_HOT_SPOT_ROWS: usize = 250;

/// The hot spots in the order the table lists them: the longest self time first (equal times
/// in the agent's order), at most `MAX_HOT_SPOT_ROWS`.
pub open spec fn hot_spot_listing(hot_spots: Seq<HotSpot>) -> Seq<int> {
    let order = crate::order::desc_order_of(
        hot_spots.map_values(|h: HotSpot| h.self_duration_nano),
        |i: int| true,
        hot_spots.len() as int,
    );
    if order.len() > MAX_HOT_SPOT_ROWS {
        order.take(MAX_HOT_SPOT_ROWS as int)
    } else {
        order
    }
}

/// The positions of the hot spots in the order the table lists them.
pub fn hot_spot_order(hot_spots: &[HotSpot]) -> (out: Vec<usize>)
    ensures
        out@.map_values(|x: usize| x as int) == hot_spot_listing(hot_spots@),
        forall|q: int| 0 <= q < out@.len() ==> out@[q] < hot_spots@.len(),
{
    let mut keys: Vec<u64> = Vec::new();
    let mut picks: Vec<bool> = Vec::new();
    let mut i: usize = 0;
    while i < hot_spots.len()
        invariant
            i <= hot_spots@.len(),
            keys@ == hot_spots@.map_values(|h: HotSpot| h.self_duration_nano).take(i as int),
            picks@.len() == i,
            forall|q: int| 0 <= q < i ==> picks@[q],
        decreases hot_spots@.len() - i,
    {
        keys.push(hot_spots[i].self_duration_nano);
        picks.push(true);
        i = i + 1;
        assert(keys@ =~= hot_spots@.map_values(|h: HotSpot| h.self_duration_nano).take(i as int));
    }
    let ghost ks = hot_spots@.map_values(|h: HotSpot| h.self_duration_nano);
    assert(keys@ =~= ks);
    let order = crate::order::stable_order_desc(keys.as_slice(), picks.as_slice());
    proof {
        crate::order::lemma_desc_order_congruent(
            ks,
            |q: int| picks@[q],
            |q: int| true,
            hot_spots@.len() as int,
        );
    }
    let mut out: Vec<usize> = Vec::new();
    let mut j: usize = 0;
    while j < order.len() && j < MAX_HOT_SPOT_ROWS
        invariant
            j <= order@.len(),
            j <= MAX_HOT_SPOT_ROWS,
            forall|q: int| 0 <= q < order@.len() ==> order@[q] < hot_spots@.len(),
            out@ == order@.take(j as int),
        decreases order@.len() - j,
    {
        out.push(order[j]);
        j = j + 1;
        assert(out@ =~= order@.take(j as int));
    }
    proof {
        let ov = order@.map_values(|x: usize| x as int);
        if ov.len() > MAX_HOT_SPOT_ROWS {
            assert(out@.map_values(|x: usize| x as int) =~= ov.take(MAX_HOT_SPOT_ROWS as int));
        } else {
            assert(out@.map_values(|x: usize| x as int) =~= ov);
        }
    }
    out
}


/// The hot spot table lists at most `MAX_HOT_SPOT_ROWS` rows, with non-increasing self times.
pub proof fn lemma_hot_spot_listing_sorted(hot_spots: Seq<HotSpot>)
    ensures
        hot_spot_listing(hot_spots).len() <= MAX_HOT_SPOT_ROWS,
        forall|a: int, b: int|
            0 <= a < b < hot_spot_listing(hot_spots).len() ==> hot_spots[hot_spot_listing(
                hot_spots,
            )[a]].self_duration_nano >= hot_spots[hot_spot_listing(hot_spots)[b]].self_duration_nano,
{
    let keys = hot_spots.map_values(|h: HotSpot| h.self_duration_nano);
    let order = crate::order::desc_order_of(keys, |i: int| true, hot_spots.len() as int);
    crate::order::lemma_desc_order_sorted(keys, |i: int| true, hot_spots.len() as int);
    crate::order::lemma_desc_order_picked(keys, |i: int| true, hot_spots.len() as int);
    let l = hot_spot_listing(hot_spots);
    assert forall|a: int, b: int| 0 <= a < b < l.len() implies hot_spots[l[a]].self_duration_nano
        >= hot_spots[l[b]].self_duration_nano by {
        assert(l[a] == order[a] && l[b] == order[b]);
        assert(keys[order[a]] >= keys[order[b]]);
    }
}


/// The hot spots that a one-shot listing prints: those of SQL statements (class `SQL`) or
/// those of methods, the longest self time first (equal times in the agent's order), at most
/// `limit`.
pub open spec fn once_listing(hot_spots: Seq<HotSpot>, sql: bool, limit: nat) -> Seq<int> {
    let order = crate::order::desc_order_of(
        hot_spots.map_values(|h: HotSpot| h.self_duration_nano),
        |i: int| (hot_spots[i].class_name@ == "SQL"@) == sql,
        hot_spots.len() as int,
    );
    if order.len() > limit {
        order.take(limit as int)
    } else {
        order
    }
}

/// The positions of the hot spots that a one-shot listing prints, in its order.
pub fn once_listing_order(hot_spots: &[HotSpot], sql: bool, limit: usize) -> (out: Vec<usize>)
    ensures
        out@.map_values(|x: usize| x as int) == once_listing(hot_spots@, sql, limit as nat),
        forall|q: int| 0 <= q < out@.len() ==> out@[q] < hot_spots@.len(),
{
    let sql_name = chars_of("SQL");
    let ghost pick = |i: int| (hot_spots@[i].class_name@ == "SQL"@) == sql;
    let mut keys: Vec<u64> = Vec::new();
    let mut picks: Vec<bool> = Vec::new();
    let mut i: usize = 0;
    while i < hot_spots.len()
        invariant
            i <= hot_spots@.len(),
            sql_name@ == "SQL"@,
            pick == (|i: int| (hot_spots@[i].class_name@ == "SQL"@) == sql),
            keys@ == hot_spots@.map_values(|h: HotSpot| h.self_duration_nano).take(i as int),
            picks@.len() == i,
            forall|q: int| 0 <= q < i ==> picks@[q] == pick(q),
        decreases hot_spots@.len() - i,
    {
        let name = chars_of(hot_spots[i].class_name.as_str());
        let is_sql = crate::jvm::same_chars(name.as_slice(), sql_name.as_slice());
        keys.push(hot_spots[i].self_duration_nano);
        picks.push(is_sql == sql);
        i = i + 1;
        assert(keys@ =~= hot_spots@.map_values(|h: HotSpot| h.self_duration_nano).take(i as int));
    }
    let ghost ks = hot_spots@.map_values(|h: HotSpot| h.self_duration_nano);
    assert(keys@ =~= ks);
    let order = crate::order::stable_order_desc(keys.as_slice(), picks.as_slice());
    proof {
        crate::order::lemma_desc_order_congruent(
            ks,
            |q: int| picks@[q],
            pick,
            hot_spots@.len() as int,
        );
    }
    let mut out: Vec<usize> = Vec::new();
    let mut j: usize = 0;
    while j < order.len() && j < limit
        invariant
            j <= order@.len(),
            j <= limit,
            forall|q: int| 0 <= q < order@.len() ==> order@[q] < hot_spots@.len(),
            out@ == order@.take(j as int),
        decreases order@.len() - j,
    {
        out.push(order[j]);
        j = j + 1;
        assert(out@ =~= order@.take(j as int));
    }
    proof {
        let ov = order@.map_values(|x: usize| x as int);
        if ov.len() > limit {
            assert(out@.map_values(|x: usize| x as int) =~= ov.take(limit as int));
        } else {
            assert(out@.map_values(|x: usize| x as int) =~= ov);
        }
    }
    out
}


/// A one-shot listing prints at most `limit` hot spots, each of the kind asked for, with
/// non-increasing self times.
pub proof fn lemma_once_listing_sorted(hot_spots: Seq<HotSpot>, sql: bool, limit: nat)
    ensures
        once_listing(hot_spots, sql, limit).len() <= limit,
        forall|a: int|
            0 <= a < once_listing(hot_spots, sql, limit).len() ==> (
            hot_spots[#[trigger] once_listing(hot_spots, sql, limit)[a]].class_name@ == "SQL"@)
                == sql,
        forall|a: int, b: int|
            0 <= a < b < once_listing(hot_spots, sql, limit).len() ==> hot_spots[once_listing(
                hot_spots,
                sql,
                limit,
            )[a]].self_duration_nano >= hot_spots[once_listing(
                hot_spots,
                sql,
                limit,
            )[b]].self_duration_nano,
{
    let keys = hot_spots.map_values(|h: HotSpot| h.self_duration_nano);
    let pick = |i: int| (hot_spots[i].class_name@ == "SQL"@) == sql;
    let order = crate::order::desc_order_of(keys, pick, hot_spots.len() as int);
    crate::order::lemma_desc_order_sorted(keys, pick, hot_spots.len() as int);
    crate::order::lemma_desc_order_picked(keys, pick, hot_spots.len() as int);
    let l = once_listing(hot_spots, sql, limit);
    assert forall|a: int| 0 <= a < l.len() implies (hot_spots[#[trigger] l[a]].class_name@
        == "SQL"@) == sql by {
        assert(l[a] == order[a]);
        assert(pick(order[a]));
    }
    assert forall|a: int, b: int| 0 <= a < b < l.len() implies hot_spots[l[a]].self_duration_nano
        >= hot_spots[l[b]].self_duration_nano by {
        assert(l[a] == order[a] && l[b] == order[b]);
        assert(keys[order[a]] >= keys[order[b]]);
    }
}

} // verus!

verus! {

proof fn lemma_depth_walk_bounds(nodes: Seq<AllocNodeModel>, parent: i32, depth: nat)
    requires
        depth <= 16,
    ensures
        depth <= depth_walk(nodes, parent, depth) <= 16,
        (parent >= 0 && depth < 16) ==> depth_walk(nodes, parent, depth) > depth,
    decreases 16 - depth,
{
    if parent >= 0 && depth < 16 {
        match node_index_from(nodes, parent, 0) {
            None => {},
            Some(k) => lemma_depth_walk_bounds(nodes, nodes[k].parent_id, depth + 1),
        }
    }
}

/// Each allocation row is its node, one for one: the node's id, its parent when the parent id
/// is not negative, its size and count, its type with `/` as `.`, and a depth of at most 16
/// that is zero exactly for a node without a parent.
pub proof fn lemma_alloc_row_of_node(nodes: Seq<AllocNodeModel>, i: int)
    requires
        0 <= i < nodes.len(),
    ensures
        alloc_row(nodes, i).node_id == nodes[i].id,
        alloc_row(nodes, i).parent_id == (if nodes[i].parent_id >= 0 {
            Some(nodes[i].parent_id)
        } else {
            None::<i32>
        }),
        alloc_row(nodes, i).bytes == nodes[i].allocated_size,
        alloc_row(nodes, i).allocations == nodes[i].instance_count,
        alloc_row(nodes, i).allocated_type == replace_char(nodes[i].allocated_type, '/', '.'),
        alloc_row(nodes, i).name == alloc_node_name(nodes[i]),
        alloc_row(nodes, i).depth <= 16,
        (alloc_row(nodes, i).depth == 0) == (nodes[i].parent_id < 0),
{
    lemma_depth_walk_bounds(nodes, nodes[i].parent_id, 0);
}

} // verus!

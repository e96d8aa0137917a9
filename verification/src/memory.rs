use std::collections::HashSet;
use vstd::prelude::*;

use crate::app::set_contains;
use crate::model::{alloc_rows_view, AllocRowModel, AllocationHotSpotRow, MemoryClassRow};
use crate::order::{desc_order_of, lemma_desc_order_congruent, lemma_desc_order_len, lemma_desc_order_picked, stable_order_desc};
use crate::format::{bytes_text, format_bytes};
use crate::text::{
    chars_of, contains, contains_exec, decimal, decimal_chars, join, join_from, lowercase, push_all,
    push_str, string_of, to_lowercase,
};

verus! {

/// The counts of one class at some moment of a class histogram.
#[derive(Clone, Debug)]
pub struct HistogramEntry {
    pub name: String,
    pub instances: u64,
    pub bytes: u64,
}

/// The counts recorded for `name`: those of its last entry.
pub open spec fn histogram_lookup(h: Seq<HistogramEntry>, name: Seq<char>, n: int) -> Option<(u64, u64)>
    decreases n,
{
    if n <= 0 {
        None
    } else if h[n - 1].name@ == name {
        Some((h[n - 1].instances, h[n - 1].bytes))
    } else {
        histogram_lookup(h, name, n - 1)
    }
}

/// The counts recorded for `name`, if any.
pub fn histogram_get(h: &[HistogramEntry], name: &str) -> (r: Option<(u64, u64)>)
    ensures
        r == histogram_lookup(h@, name@, h@.len() as int),
{
    let nc = chars_of(name);
    let mut n = h.len();
    while n > 0
        invariant
            n <= h@.len(),
            nc@ == name@,
            histogram_lookup(h@, name@, h@.len() as int) == histogram_lookup(h@, name@, n as int),
        decreases n,
    {
        let ec = chars_of(h[n - 1].name.as_str());
        if crate::jvm::same_chars(ec.as_slice(), nc.as_slice()) {
            return Some((h[n - 1].instances, h[n - 1].bytes));
        }
        n = n - 1;
    }
    None
}

/// The counts of a class histogram, one entry per row in the order of the rows.
pub fn histogram_of(rows: &[MemoryClassRow]) -> (h: Vec<HistogramEntry>)
    ensures
        h@.len() == rows@.len(),
        forall|i: int|
            0 <= i < rows@.len() ==> (#[trigger] h@[i]).name@ == rows@[i].name@ && h@[i].instances
                == rows@[i].instances && h@[i].bytes == rows@[i].bytes,
{
    let mut h: Vec<HistogramEntry> = Vec::new();
    let mut i: usize = 0;
    while i < rows.len()
        invariant
            i <= rows@.len(),
            h@.len() == i,
            forall|k: int|
                0 <= k < i ==> (#[trigger] h@[k]).name@ == rows@[k].name@ && h@[k].instances
                    == rows@[k].instances && h@[k].bytes == rows@[k].bytes,
        decreases rows@.len() - i,
    {
        h.push(
            HistogramEntry {
                name: rows[i].name.clone(),
                instances: rows[i].instances,
                bytes: rows[i].bytes,
            },
        );
        i = i + 1;
    }
    h
}

/// `v` wrapped into the range of `i64`, as two's complement arithmetic wraps it.
pub open spec fn wrap_i64(v: int) -> int {
    let m = v % 0x1_0000_0000_0000_0000;
    if m >= 0x8000_0000_0000_0000 {
        m - 0x1_0000_0000_0000_0000
    } else {
        m
    }
}

/// `a - b` in wrapping `i64` arithmetic, both taken as `i64`.
fn wrapping_delta(a: u64, b: u64) -> (d: i64)
    ensures
        d == wrap_i64(a - b),
{
    let x: i128 = a as i128 - b as i128;
    if x > 0x7fff_ffff_ffff_ffff {
        (x - 0x1_0000_0000_0000_0000) as i64
    } else if x < -0x8000_0000_0000_0000 {
        (x + 0x1_0000_0000_0000_0000) as i64
    } else {
        x as i64
    }
}

/// Sets each row's change since the previous histogram: instances and bytes now minus then,
/// for the rows whose class the previous histogram has.
pub fn apply_histogram_deltas(rows: &mut Vec<MemoryClassRow>, previous: &[HistogramEntry])
    ensures
        final(rows)@.len() == old(rows)@.len(),
        forall|i: int|
            0 <= i < old(rows)@.len() ==> {
                let r = old(rows)@[i];
                let f = #[trigger] final(rows)@[i];
                &&& f.rank == r.rank && f.name@ == r.name@ && f.instances == r.instances
                    && f.bytes == r.bytes
                &&& match histogram_lookup(previous@, r.name@, previous@.len() as int) {
                    Some((oi, ob)) => f.delta_instances == wrap_i64(r.instances - oi)
                        && f.delta_bytes == wrap_i64(r.bytes - ob),
                    None => f.delta_instances == r.delta_instances && f.delta_bytes
                        == r.delta_bytes,
                }
            },
{
    let ghost orig = rows@;
    let mut i: usize = 0;
    while i < rows.len()
        invariant
            i <= rows@.len(),
            rows@.len() == orig.len(),
            forall|k: int| i <= k < orig.len() ==> #[trigger] rows@[k] == orig[k],
            forall|k: int|
                0 <= k < i ==> {
                    let r = orig[k];
                    let f = #[trigger] rows@[k];
                    &&& f.rank == r.rank && f.name@ == r.name@ && f.instances == r.instances
                        && f.bytes == r.bytes
                    &&& match histogram_lookup(previous@, r.name@, previous@.len() as int) {
                        Some((oi, ob)) => f.delta_instances == wrap_i64(r.instances - oi)
                            && f.delta_bytes == wrap_i64(r.bytes - ob),
                        None => f.delta_instances == r.delta_instances && f.delta_bytes
                            == r.delta_bytes,
                    }
                },
        decreases rows@.len() - i,
    {
        let found = histogram_get(previous, rows[i].name.as_str());
        if let Some((oi, ob)) = found {
            let di = wrapping_delta(rows[i].instances, oi);
            let db = wrapping_delta(rows[i].bytes, ob);
            let row = MemoryClassRow {
                rank: rows[i].rank,
                name: rows[i].name.clone(),
                instances: rows[i].instances,
                bytes: rows[i].bytes,
                delta_instances: di,
                delta_bytes: db,
            };
            rows.set(i, row);
        }
        i = i + 1;
    }
}

/// The filter of the memory views keeps `text`: the lower-cased filter is empty or the
/// lower-cased text contains it.
pub open spec fn memory_filter_keeps(filter_input: Seq<char>, text: Seq<char>) -> bool {
    filter_input.len() == 0 || contains(lowercase(text), lowercase(filter_input))
}

/// Whether the lower-cased filter is empty or the lower-cased text contains it.
fn filter_keeps(lowered_filter: &[char], text: &str) -> (b: bool)
    ensures
        b == (lowered_filter@.len() == 0 || contains(lowercase(text@), lowered_filter@)),
{
    if lowered_filter.len() == 0 {
        return true;
    }
    let t = to_lowercase(text);
    contains_exec(chars_of(t.as_str()).as_slice(), lowered_filter)
}

/// The positions of the class rows whose name the filter keeps, in order.
pub fn filtered_memory_rows(rows: &[MemoryClassRow], filter_input: &str) -> (out: Vec<usize>)
    ensures
        out@.map_values(|x: usize| x as int) == crate::app::positions_where(
            |i: int| memory_filter_keeps(filter_input@, rows@[i].name@),
            rows@.len() as int,
        ),
{
    let ghost pick = |i: int| memory_filter_keeps(filter_input@, rows@[i].name@);
    let f = to_lowercase(filter_input);
    let fc = chars_of(f.as_str());
    let mut out: Vec<usize> = Vec::new();
    let mut n: usize = 0;
    while n < rows.len()
        invariant
            n <= rows@.len(),
            fc@ == lowercase(filter_input@),
            (fc@.len() == 0) == (filter_input@.len() == 0),
            pick == (|i: int| memory_filter_keeps(filter_input@, rows@[i].name@)),
            out@.map_values(|x: usize| x as int) == crate::app::positions_where(pick, n as int),
        decreases rows@.len() - n,
    {
        if filter_keeps(fc.as_slice(), rows[n].name.as_str()) {
            out.push(n);
        }
        n = n + 1;
        proof {
            assert(out@.map_values(|x: usize| x as int) =~= crate::app::positions_where(
                pick,
                n as int,
            ));
        }
    }
    out
}

/// A copy of an allocation row.
pub fn clone_alloc_row(r: &AllocationHotSpotRow) -> (c: AllocationHotSpotRow)
    ensures
        c@ == r@,
{
    AllocationHotSpotRow {
        node_id: r.node_id,
        parent_id: r.parent_id,
        depth: r.depth,
        name: r.name.clone(),
        allocated_type: r.allocated_type.clone(),
        bytes: r.bytes,
        allocations: r.allocations,
    }
}

/// The size and count that a class row shows as an allocation hot spot: growth since the
/// marked heap when one is marked (counting a class missing from it from zero), else its
/// positive change since the last histogram when it grew, else its totals.
pub open spec fn class_allocation(row: MemoryClassRow, marked: Option<Seq<HistogramEntry>>) -> (u64, u64) {
    match marked {
        Some(m) => {
            let (oi, ob) = match histogram_lookup(m, row.name@, m.len() as int) {
                Some(p) => p,
                None => (0u64, 0u64),
            };
            (
                if row.bytes >= ob {
                    (row.bytes - ob) as u64
                } else {
                    0u64
                },
                if row.instances >= oi {
                    (row.instances - oi) as u64
                } else {
                    0u64
                },
            )
        },
        None => if row.delta_bytes > 0 || row.delta_instances > 0 {
            (
                if row.delta_bytes > 0 {
                    row.delta_bytes as u64
                } else {
                    0u64
                },
                if row.delta_instances > 0 {
                    row.delta_instances as u64
                } else {
                    0u64
                },
            )
        } else {
            (row.bytes, row.instances)
        },
    }
}

proof fn lemma_histogram_lookup_last(h: Seq<HistogramEntry>, name: Seq<char>, n: int, k: int)
    requires
        0 <= k < n <= h.len(),
        h[k].name@ == name,
        forall|j: int| k < j < n ==> h[j].name@ != name,
    ensures
        histogram_lookup(h, name, n) == Some((h[k].instances, h[k].bytes)),
    decreases n,
{
    if n - 1 != k {
        lemma_histogram_lookup_last(h, name, n - 1, k);
    }
}

proof fn lemma_histogram_lookup_missing(h: Seq<HistogramEntry>, name: Seq<char>, n: int)
    requires
        n <= h.len(),
        forall|j: int| 0 <= j < n ==> h[j].name@ != name,
    ensures
        histogram_lookup(h, name, n) is None,
    decreases n,
{
    if n > 0 {
        lemma_histogram_lookup_missing(h, name, n - 1);
    }
}

/// With a heap marked, a class row counts its growth since the mark: its bytes less the bytes
/// that the marked heap recorded for the same class name (the last entry of that name), and
/// its instances less the instances recorded there, each stopping at zero; a class that the
/// marked heap does not hold counts from zero.
pub proof fn lemma_marked_growth(row: MemoryClassRow, marked: Seq<HistogramEntry>)
    ensures
        forall|k: int|
            0 <= k < marked.len() && (#[trigger] marked[k]).name@ == row.name@ && (forall|j: int|
                k < j < marked.len() ==> marked[j].name@ != row.name@) ==> {
                &&& class_allocation(row, Some(marked)).0 == (if row.bytes >= marked[k].bytes {
                    row.bytes - marked[k].bytes
                } else {
                    0
                })
                &&& class_allocation(row, Some(marked)).1 == (if row.instances >= marked[k].instances {
                    row.instances - marked[k].instances
                } else {
                    0
                })
            },
        (forall|j: int| 0 <= j < marked.len() ==> marked[j].name@ != row.name@) ==> class_allocation(
            row,
            Some(marked),
        ) == (row.bytes, row.instances),
{
    assert forall|k: int|
        0 <= k < marked.len() && (#[trigger] marked[k]).name@ == row.name@ && (forall|j: int|
            k < j < marked.len() ==> marked[j].name@ != row.name@) implies {
        &&& class_allocation(row, Some(marked)).0 == (if row.bytes >= marked[k].bytes {
            row.bytes - marked[k].bytes
        } else {
            0
        })
        &&& class_allocation(row, Some(marked)).1 == (if row.instances >= marked[k].instances {
            row.instances - marked[k].instances
        } else {
            0
        })
    } by {
        lemma_histogram_lookup_last(marked, row.name@, marked.len() as int, k);
    }
    if forall|j: int| 0 <= j < marked.len() ==> marked[j].name@ != row.name@ {
        lemma_histogram_lookup_missing(marked, row.name@, marked.len() as int);
    }
}

/// With no heap marked, a class row that grew since the last histogram counts what grew (a
/// shrinking count as zero), and one that did not grow counts its totals.
pub proof fn lemma_unmarked_allocation(row: MemoryClassRow)
    ensures
        row.delta_bytes > 0 || row.delta_instances > 0 ==> {
            &&& class_allocation(row, None).0 == (if row.delta_bytes > 0 {
                row.delta_bytes as int
            } else {
                0
            })
            &&& class_allocation(row, None).1 == (if row.delta_instances > 0 {
                row.delta_instances as int
            } else {
                0
            })
        },
        row.delta_bytes <= 0 && row.delta_instances <= 0 ==> class_allocation(row, None) == (
            row.bytes,
            row.instances,
        ),
{
}

/// The allocation hot spot row that a class row stands for.
pub open spec fn class_hotspot(row: MemoryClassRow, marked: Option<Seq<HistogramEntry>>) -> AllocRowModel {
    AllocRowModel {
        node_id: row.rank as i32,
        parent_id: None,
        depth: 0,
        name: row.name@,
        allocated_type: seq![],
        bytes: class_allocation(row, marked).0,
        allocations: class_allocation(row, marked).1,
    }
}

/// The class rows that stand in for allocation hot spots when the agent sent none: those the
/// filter keeps with a size or count above zero, the largest size first (equal sizes in their
/// order).
pub open spec fn class_hotspot_rows(
    rows: Seq<MemoryClassRow>,
    marked: Option<Seq<HistogramEntry>>,
    filter_input: Seq<char>,
) -> Seq<AllocRowModel> {
    let sizes = rows.map_values(|r: MemoryClassRow| class_allocation(r, marked).0);
    desc_order_of(
        sizes,
        |i: int|
            memory_filter_keeps(filter_input, rows[i].name@) && !(class_allocation(rows[i], marked).0
                == 0 && class_allocation(rows[i], marked).1 == 0),
        rows.len() as int,
    ).map_values(|i: int| class_hotspot(rows[i], marked))
}

/// The agent's allocation rows that the filter keeps: by name or by allocated type, case aside.
pub open spec fn agent_hotspot_rows(rows: Seq<AllocationHotSpotRow>, filter_input: Seq<char>) -> Seq<
    AllocRowModel,
> {
    crate::app::positions_where(
        |i: int|
            memory_filter_keeps(filter_input, rows[i].name@) || (filter_input.len() > 0
                && contains(lowercase(rows[i].allocated_type@), lowercase(filter_input))),
        rows.len() as int,
    ).map_values(|i: int| rows[i]@)
}

/// The allocation hot spots: the agent's rows when it sent any, else class rows standing in
/// for them.
pub open spec fn allocation_rows(
    hotspots: Seq<AllocationHotSpotRow>,
    rows: Seq<MemoryClassRow>,
    marked: Option<Seq<HistogramEntry>>,
    filter_input: Seq<char>,
) -> Seq<AllocRowModel> {
    if hotspots.len() > 0 {
        agent_hotspot_rows(hotspots, filter_input)
    } else {
        class_hotspot_rows(rows, marked, filter_input)
    }
}

fn class_allocation_exec(row: &MemoryClassRow, marked: Option<&[HistogramEntry]>) -> (r: (u64, u64))
    ensures
        r == class_allocation(
            *row,
            match marked {
                Some(m) => Some(m@),
                None => None,
            },
        ),
{
    match marked {
        Some(m) => {
            let (oi, ob) = match histogram_get(m, row.name.as_str()) {
                Some(p) => p,
                None => (0u64, 0u64),
            };
            (row.bytes.saturating_sub(ob), row.instances.saturating_sub(oi))
        },
        None => {
            if row.delta_bytes > 0 || row.delta_instances > 0 {
                (
                    if row.delta_bytes > 0 {
                        row.delta_bytes as u64
                    } else {
                        0u64
                    },
                    if row.delta_instances > 0 {
                        row.delta_instances as u64
                    } else {
                        0u64
                    },
                )
            } else {
                (row.bytes, row.instances)
            }
        },
    }
}

/// The allocation hot spots that the memory views list.
pub fn allocation_hotspot_rows(
    hotspots: &[AllocationHotSpotRow],
    rows: &[MemoryClassRow],
    marked: Option<&[HistogramEntry]>,
    filter_input: &str,
) -> (out: Vec<AllocationHotSpotRow>)
    ensures
        alloc_rows_view(out@) == allocation_rows(
            hotspots@,
            rows@,
            match marked {
                Some(m) => Some(m@),
                None => None,
            },
            filter_input@,
        ),
{
    let ghost mk = match marked {
        Some(m) => Some(m@),
        None => None,
    };
    let f = to_lowercase(filter_input);
    let fc = chars_of(f.as_str());
    let mut out: Vec<AllocationHotSpotRow> = Vec::new();
    if hotspots.len() > 0 {
        let ghost pick = |i: int|
            memory_filter_keeps(filter_input@, hotspots@[i].name@) || (filter_input@.len() > 0 && contains(lowercase(hotspots@[i].allocated_type@), lowercase(filter_input@)));
        let mut n: usize = 0;
        while n < hotspots.len()
            invariant
                n <= hotspots@.len(),
                fc@ == lowercase(filter_input@),
                (fc@.len() == 0) == (filter_input@.len() == 0),
                pick == (|i: int|
                    memory_filter_keeps(filter_input@, hotspots@[i].name@) || (filter_input@.len() > 0 && contains(
                        lowercase(hotspots@[i].allocated_type@),
                        lowercase(filter_input@),
                    ))),
                alloc_rows_view(out@) == crate::app::positions_where(pick, n as int).map_values(
                    |i: int| hotspots@[i]@,
                ),
            decreases hotspots@.len() - n,
        {
            let keep = filter_keeps(fc.as_slice(), hotspots[n].name.as_str()) || (fc.len() > 0
                && filter_keeps(fc.as_slice(), hotspots[n].allocated_type.as_str()));
            let ghost before = out@;
            if keep {
                out.push(clone_alloc_row(&hotspots[n]));
            }
            n = n + 1;
            proof {
                let ps = crate::app::positions_where(pick, n as int);
                let pp = crate::app::positions_where(pick, n - 1);
                if keep {
                    assert(ps == pp.push(n - 1));
                    assert(ps.map_values(|i: int| hotspots@[i]@) =~= pp.map_values(
                        |i: int| hotspots@[i]@,
                    ).push(hotspots@[n - 1]@));
                    assert(alloc_rows_view(out@) =~= alloc_rows_view(before).push(
                        hotspots@[n - 1]@,
                    ));
                } else {
                    assert(ps == pp);
                }
            }
        }
        return out;
    }
    let mut sizes: Vec<u64> = Vec::new();
    let mut counts: Vec<u64> = Vec::new();
    let mut picks: Vec<bool> = Vec::new();
    let mut i: usize = 0;
    let ghost pick = |i: int|
        memory_filter_keeps(filter_input@, rows@[i].name@) && !(class_allocation(rows@[i], mk).0
            == 0 && class_allocation(rows@[i], mk).1 == 0);
    while i < rows.len()
        invariant
            i <= rows@.len(),
            fc@ == lowercase(filter_input@),
            (fc@.len() == 0) == (filter_input@.len() == 0),
            mk == (match marked {
                Some(m) => Some(m@),
                None => None,
            }),
            sizes@.len() == i && counts@.len() == i && picks@.len() == i,
            forall|k: int|
                0 <= k < i ==> sizes@[k] == class_allocation(rows@[k], mk).0 && counts@[k]
                    == class_allocation(rows@[k], mk).1 && picks@[k] == pick(k),
            pick == (|i: int|
                memory_filter_keeps(filter_input@, rows@[i].name@) && !(class_allocation(
                    rows@[i],
                    mk,
                ).0 == 0 && class_allocation(rows@[i], mk).1 == 0)),
        decreases rows@.len() - i,
    {
        let (b, c) = class_allocation_exec(&rows[i], marked);
        sizes.push(b);
        counts.push(c);
        let keep = filter_keeps(fc.as_slice(), rows[i].name.as_str()) && !(b == 0 && c == 0);
        picks.push(keep);
        i = i + 1;
    }
    let ghost sz = rows@.map_values(|r: MemoryClassRow| class_allocation(r, mk).0);
    assert(sizes@ =~= sz);
    let order = stable_order_desc(sizes.as_slice(), picks.as_slice());
    proof {
        lemma_desc_order_congruent(sizes@, |i: int| picks@[i], pick, rows@.len() as int);
        lemma_desc_order_picked(sizes@, pick, rows@.len() as int);
    }
    let ghost ov = order@.map_values(|x: usize| x as int);
    let mut j: usize = 0;
    while j < order.len()
        invariant
            j <= order@.len(),
            ov == order@.map_values(|x: usize| x as int),
            ov == desc_order_of(sz, pick, rows@.len() as int),
            sizes@.len() == rows@.len() && counts@.len() == rows@.len(),
            forall|k: int| 0 <= k < ov.len() ==> 0 <= #[trigger] ov[k] < rows@.len(),
            forall|k: int|
                0 <= k < rows@.len() ==> sizes@[k] == class_allocation(rows@[k], mk).0 && counts@[k]
                    == class_allocation(rows@[k], mk).1,
            alloc_rows_view(out@) == ov.take(j as int).map_values(
                |i: int| class_hotspot(rows@[i], mk),
            ),
        decreases order@.len() - j,
    {
        let k = order[j];
        assert(ov[j as int] == k as int);
        let row = AllocationHotSpotRow {
            node_id: rows[k].rank as i32,
            parent_id: None,
            depth: 0,
            name: rows[k].name.clone(),
            allocated_type: String::new(),
            bytes: sizes[k],
            allocations: counts[k],
        };
        let ghost before = out@;
        out.push(row);
        j = j + 1;
        proof {
            let f = |i: int| class_hotspot(rows@[i], mk);
            assert(ov.take(j as int) =~= ov.take(j - 1).push(k as int));
            assert(ov.take(j as int).map_values(f) =~= ov.take(j - 1).map_values(f).push(
                f(k as int),
            ));
            assert(row@ == f(k as int)) by {
                assert(row.allocated_type@ =~= seq![]);
            }
            assert(alloc_rows_view(out@) =~= alloc_rows_view(before).push(row@));
        }
    }
    proof {
        assert(ov.take(ov.len() as int) =~= ov);
    }
    out
}

/// The sizes of the rows.
pub open spec fn row_sizes(rows: Seq<AllocRowModel>) -> Seq<u64> {
    rows.map_values(|r: AllocRowModel| r.bytes)
}

/// The positions of the rows under `parent`, the largest size first (equal sizes in their
/// order).
pub open spec fn child_group(rows: Seq<AllocRowModel>, parent: Option<i32>) -> Seq<int> {
    desc_order_of(row_sizes(rows), |i: int| rows[i].parent_id == parent, rows.len() as int)
}

/// The rows that the allocation tree shows under `parent`, in display order, going at most
/// `depth` levels further down: each child, followed by what it shows when it is expanded.
pub open spec fn shown_under(
    rows: Seq<AllocRowModel>,
    expanded: Set<i32>,
    parent: Option<i32>,
    depth: nat,
) -> Seq<int>
    decreases depth, rows.len() + 1,
{
    proof {
        lemma_desc_order_len(row_sizes(rows), |i: int| rows[i].parent_id == parent, rows.len() as int);
    }
    shown_from(rows, expanded, child_group(rows, parent), 0, depth)
}

/// What `shown_under` lists for the children `group[k..]`.
pub open spec fn shown_from(
    rows: Seq<AllocRowModel>,
    expanded: Set<i32>,
    group: Seq<int>,
    k: int,
    depth: nat,
) -> Seq<int>
    decreases depth, group.len() - k,
{
    if k < 0 || k >= group.len() {
        seq![]
    } else {
        let i = group[k];
        let below = if depth > 0 && 0 <= i < rows.len() && expanded.contains(rows[i].node_id) {
            shown_under(rows, expanded, Some(rows[i].node_id), (depth - 1) as nat)
        } else {
            seq![]
        };
        seq![i] + below + shown_from(rows, expanded, group, k + 1, depth)
    }
}

/// The rows that the allocation hot spot table shows: all of them while a filter is typed,
/// else the tree from its roots down through expanded rows, as deep as there are rows (all
/// the way down for a tree that ends, see `tree_finite`).
pub open spec fn shown_rows(rows: Seq<AllocRowModel>, expanded: Set<i32>, filtering: bool) -> Seq<int> {
    if filtering {
        Seq::new(rows.len(), |i: int| i)
    } else {
        shown_under(rows, expanded, None, rows.len())
    }
}

/// Appends what the tree shows under `parent`.
fn append_shown(
    rows: &[AllocationHotSpotRow],
    sizes: &[u64],
    expanded: &HashSet<i32>,
    parent: Option<i32>,
    depth: usize,
    out: &mut Vec<usize>,
)
    requires
        sizes@ == row_sizes(alloc_rows_view(rows@)),
        alloc_rows_view(rows@).len() == rows@.len(),
    ensures
        final(out)@.map_values(|x: usize| x as int) == old(out)@.map_values(|x: usize| x as int)
            + shown_under(alloc_rows_view(rows@), expanded@, parent, depth as nat),
    decreases depth, rows@.len() + 1,
{
    let ghost rv = alloc_rows_view(rows@);
    let mut picks: Vec<bool> = Vec::new();
    let mut i: usize = 0;
    while i < rows.len()
        invariant
            i <= rows@.len(),
            rv == alloc_rows_view(rows@),
            picks@.len() == i,
            forall|k: int| 0 <= k < i ==> picks@[k] == (rv[k].parent_id == parent),
        decreases rows@.len() - i,
    {
        picks.push(rows[i].parent_id == parent);
        i = i + 1;
    }
    let group = stable_order_desc(sizes, picks.as_slice());
    let ghost gv = group@.map_values(|x: usize| x as int);
    proof {
        lemma_desc_order_congruent(
            sizes@,
            |i: int| picks@[i],
            |i: int| rv[i].parent_id == parent,
            rows@.len() as int,
        );
        assert(gv == child_group(rv, parent));
        lemma_desc_order_len(sizes@, |i: int| rv[i].parent_id == parent, rows@.len() as int);
    }
    let ghost start = out@.map_values(|x: usize| x as int);
    let mut k: usize = 0;
    while k < group.len()
        invariant
            k <= group@.len(),
            gv == group@.map_values(|x: usize| x as int),
            gv == child_group(rv, parent),
            gv.len() <= rows@.len(),
            rv == alloc_rows_view(rows@),
            sizes@ == row_sizes(rv),
            rv.len() == rows@.len(),
            forall|q: int| 0 <= q < group@.len() ==> group@[q] < rows@.len(),
            start + shown_under(rv, expanded@, parent, depth as nat) == out@.map_values(
                |x: usize| x as int,
            ) + shown_from(rv, expanded@, gv, k as int, depth as nat),
        decreases group@.len() - k,
    {
        let r = group[k];
        assert(gv[k as int] == r as int);
        let ghost before = out@.map_values(|x: usize| x as int);
        out.push(r);
        assert(out@.map_values(|x: usize| x as int) =~= before.push(r as int));
        let open = depth > 0 && set_contains(expanded, rows[r].node_id);
        let ghost mid = out@.map_values(|x: usize| x as int);
        if open {
            append_shown(rows, sizes, expanded, Some(rows[r].node_id), depth - 1, out);
        }
        proof {
            let below = if depth > 0 && expanded@.contains(rv[r as int].node_id) {
                shown_under(rv, expanded@, Some(rv[r as int].node_id), (depth - 1) as nat)
            } else {
                seq![]
            };
            assert(shown_from(rv, expanded@, gv, k as int, depth as nat) == seq![r as int] + below
                + shown_from(rv, expanded@, gv, k + 1, depth as nat));
            assert(out@.map_values(|x: usize| x as int) =~= before + seq![r as int] + below);
            assert(before + (seq![r as int] + below + shown_from(rv, expanded@, gv, k + 1, depth as nat))
                =~= before + seq![r as int] + below + shown_from(rv, expanded@, gv, k + 1, depth as nat));
        }
        k = k + 1;
    }
    proof {
        assert(shown_from(rv, expanded@, gv, k as int, depth as nat) =~= seq![]);
        assert(out@.map_values(|x: usize| x as int) + seq![] =~= out@.map_values(|x: usize| x as int));
        assert(shown_under(rv, expanded@, parent, depth as nat) == shown_from(rv, expanded@, gv, 0, depth as nat));
        assert(start + shown_from(rv, expanded@, gv, 0, depth as nat) == out@.map_values(|x: usize| x as int) + seq![]) ;
    }
}

/// The expanded set with the membership of `flip` turned over, when there is one.
pub open spec fn flipped(expanded: Set<i32>, flip: Option<i32>) -> Set<i32> {
    match flip {
        Some(x) => crate::app::toggled(expanded, x),
        None => expanded,
    }
}

/// Whether listing the tree under `parent` comes to an end within `depth` levels: below each
/// child that is expanded and has children of its own, the listing ends one level sooner.
pub open spec fn ends_within(
    rows: Seq<AllocRowModel>,
    expanded: Set<i32>,
    parent: Option<i32>,
    depth: nat,
) -> bool
    decreases depth,
{
    forall|i: int|
        #![trigger rows[i]]
        0 <= i < rows.len() && rows[i].parent_id == parent && expanded.contains(rows[i].node_id)
            && has_children(rows, rows[i].node_id) ==> depth > 0 && ends_within(
            rows,
            expanded,
            Some(rows[i].node_id),
            (depth - 1) as nat,
        )
}

/// Whether listing the allocation tree from its roots comes to an end. A chain of expanded
/// rows with children that is longer than the number of rows holds some row twice, and then
/// the listing goes round that cycle for ever.
pub open spec fn tree_finite(rows: Seq<AllocRowModel>, expanded: Set<i32>) -> bool {
    ends_within(rows, expanded, None, rows.len())
}

/// Under a node without children the tree shows nothing, however deep it may go.
proof fn lemma_shown_under_childless(rows: Seq<AllocRowModel>, expanded: Set<i32>, id: i32, depth: nat)
    requires
        !has_children(rows, id),
    ensures
        shown_under(rows, expanded, Some(id), depth) == Seq::<int>::empty(),
{
    let g = child_group(rows, Some(id));
    lemma_desc_order_picked(row_sizes(rows), |i: int| rows[i].parent_id == Some(id), rows.len() as int);
    if g.len() > 0 {
        assert(rows[g[0]].parent_id == Some(id));
    }
    assert(shown_from(rows, expanded, g, 0, depth) =~= Seq::<int>::empty());
}

/// Where the tree under `parent` ends within `depth` levels, letting it go deeper shows the
/// same rows.
proof fn lemma_shown_under_deeper(
    rows: Seq<AllocRowModel>,
    expanded: Set<i32>,
    parent: Option<i32>,
    depth: nat,
    deeper: nat,
)
    requires
        ends_within(rows, expanded, parent, depth),
        depth <= deeper,
    ensures
        shown_under(rows, expanded, parent, depth) == shown_under(rows, expanded, parent, deeper),
    decreases depth, rows.len() + 1,
{
    let g = child_group(rows, parent);
    lemma_desc_order_picked(row_sizes(rows), |i: int| rows[i].parent_id == parent, rows.len() as int);
    lemma_desc_order_len(row_sizes(rows), |i: int| rows[i].parent_id == parent, rows.len() as int);
    lemma_shown_from_deeper(rows, expanded, parent, g, 0, depth, deeper);
}

/// `lemma_shown_under_deeper` for the children `group[k..]`.
proof fn lemma_shown_from_deeper(
    rows: Seq<AllocRowModel>,
    expanded: Set<i32>,
    parent: Option<i32>,
    group: Seq<int>,
    k: int,
    depth: nat,
    deeper: nat,
)
    requires
        ends_within(rows, expanded, parent, depth),
        depth <= deeper,
        group.len() <= rows.len(),
        forall|q: int|
            0 <= q < group.len() ==> 0 <= #[trigger] group[q] < rows.len() && rows[group[q]].parent_id
                == parent,
    ensures
        shown_from(rows, expanded, group, k, depth) == shown_from(rows, expanded, group, k, deeper),
    decreases depth, group.len() - k,
{
    if 0 <= k < group.len() {
        let i = group[k];
        let id = rows[i].node_id;
        lemma_shown_from_deeper(rows, expanded, parent, group, k + 1, depth, deeper);
        if expanded.contains(id) {
            if has_children(rows, id) {
                assert(depth > 0 && ends_within(rows, expanded, Some(id), (depth - 1) as nat));
                lemma_shown_under_deeper(
                    rows,
                    expanded,
                    Some(id),
                    (depth - 1) as nat,
                    (deeper - 1) as nat,
                );
            } else {
                if depth > 0 {
                    lemma_shown_under_childless(rows, expanded, id, (depth - 1) as nat);
                }
                if deeper > 0 {
                    lemma_shown_under_childless(rows, expanded, id, (deeper - 1) as nat);
                }
            }
        }
    }
}

/// On a tree whose listing ends, the rows shown are the whole listing: letting it go deeper
/// than there are rows shows the same rows.
pub proof fn lemma_finite_tree_shown_whole(rows: Seq<AllocRowModel>, expanded: Set<i32>, deeper: nat)
    requires
        tree_finite(rows, expanded),
        rows.len() <= deeper,
    ensures
        shown_rows(rows, expanded, false) == shown_under(rows, expanded, None, deeper),
{
    lemma_shown_under_deeper(rows, expanded, None, rows.len(), deeper);
}

/// Whether the tree under `parent` ends within `depth` levels, with `flip` turned over in
/// `expanded`.
fn ends_within_exec(
    rows: &[AllocationHotSpotRow],
    expanded: &HashSet<i32>,
    flip: Option<i32>,
    parent: Option<i32>,
    depth: usize,
) -> (b: bool)
    ensures
        b == ends_within(alloc_rows_view(rows@), flipped(expanded@, flip), parent, depth as nat),
    decreases depth,
{
    let ghost rv = alloc_rows_view(rows@);
    let ghost ex = flipped(expanded@, flip);
    let mut i: usize = 0;
    while i < rows.len()
        invariant
            i <= rows@.len(),
            rv == alloc_rows_view(rows@),
            ex == flipped(expanded@, flip),
            forall|k: int|
                #![trigger rv[k]]
                0 <= k < i && rv[k].parent_id == parent && ex.contains(rv[k].node_id) && has_children(
                    rv,
                    rv[k].node_id,
                ) ==> depth > 0 && ends_within(rv, ex, Some(rv[k].node_id), (depth - 1) as nat),
        decreases rows@.len() - i,
    {
        let id = rows[i].node_id;
        assert(rv[i as int] == rows@[i as int]@);
        if rows[i].parent_id == parent {
            let member = set_contains(expanded, id);
            let open = match flip {
                Some(x) => if x == id {
                    !member
                } else {
                    member
                },
                None => member,
            };
            assert(open == ex.contains(id));
            if open && allocation_hotspot_has_children(rows, id) {
                if depth == 0 {
                    return false;
                }
                if !ends_within_exec(rows, expanded, flip, Some(id), depth - 1) {
                    return false;
                }
            }
        }
        i = i + 1;
    }
    true
}

/// Whether the allocation tree, with the membership of `flip` in `expanded` turned over, can be
/// listed from its roots: no cycle of expanded parent links is reached.
pub fn allocation_tree_is_finite(
    rows: &[AllocationHotSpotRow],
    expanded: &HashSet<i32>,
    flip: Option<i32>,
) -> (b: bool)
    ensures
        b == tree_finite(alloc_rows_view(rows@), flipped(expanded@, flip)),
{
    ends_within_exec(rows, expanded, flip, None, rows.len())
}

/// The allocation hot spot rows that the table shows, in display order.
pub open spec fn visible_rows(rows: Seq<AllocRowModel>, expanded: Set<i32>, filtering: bool) -> Seq<
    AllocRowModel,
> {
    shown_rows(rows, expanded, filtering).map_values(|i: int| rows[i])
}

/// The allocation hot spot rows that the table shows: every row while a filter is typed, else
/// the roots and, below each expanded row, its children, the largest first.
pub fn visible_allocation_hotspot_rows(
    rows: &[AllocationHotSpotRow],
    expanded: &HashSet<i32>,
    filtering: bool,
) -> (out: Vec<AllocationHotSpotRow>)
    requires
        filtering || tree_finite(alloc_rows_view(rows@), expanded@),
    ensures
        alloc_rows_view(out@) == visible_rows(alloc_rows_view(rows@), expanded@, filtering),
{
    let ghost rv = alloc_rows_view(rows@);
    let mut order: Vec<usize> = Vec::new();
    if filtering {
        let mut i: usize = 0;
        while i < rows.len()
            invariant
                i <= rows@.len(),
                order@.map_values(|x: usize| x as int) == Seq::new(i as nat, |q: int| q),
            decreases rows@.len() - i,
        {
            let ghost before = order@.map_values(|x: usize| x as int);
            order.push(i);
            assert(order@.map_values(|x: usize| x as int) =~= before.push(i as int));
            i = i + 1;
            assert(order@.map_values(|x: usize| x as int) =~= Seq::new(i as nat, |q: int| q));
        }
    } else {
        let mut sizes: Vec<u64> = Vec::new();
        let mut i: usize = 0;
        while i < rows.len()
            invariant
                i <= rows@.len(),
                sizes@ == row_sizes(rv).take(i as int),
                rv == alloc_rows_view(rows@),
            decreases rows@.len() - i,
        {
            sizes.push(rows[i].bytes);
            i = i + 1;
            assert(sizes@ =~= row_sizes(rv).take(i as int));
        }
        assert(sizes@ =~= row_sizes(rv));
        append_shown(rows, sizes.as_slice(), expanded, None, rows.len(), &mut order);
        assert(order@.map_values(|x: usize| x as int) =~= seq![] + shown_under(
            rv,
            expanded@,
            None,
            rows@.len() as nat,
        ));
    }
    let ghost ov = order@.map_values(|x: usize| x as int);
    proof {
        lemma_shown_in_range(rv, expanded@, filtering);
    }
    let mut out: Vec<AllocationHotSpotRow> = Vec::new();
    let mut j: usize = 0;
    while j < order.len()
        invariant
            j <= order@.len(),
            rv == alloc_rows_view(rows@),
            ov == order@.map_values(|x: usize| x as int),
            ov == shown_rows(rv, expanded@, filtering),
            forall|q: int| 0 <= q < ov.len() ==> 0 <= #[trigger] ov[q] < rows@.len(),
            alloc_rows_view(out@) == ov.take(j as int).map_values(|i: int| rv[i]),
        decreases order@.len() - j,
    {
        let k = order[j];
        assert(ov[j as int] == k as int);
        let ghost before = out@;
        out.push(clone_alloc_row(&rows[k]));
        j = j + 1;
        proof {
            assert(ov.take(j as int) =~= ov.take(j - 1).push(k as int));
            assert(ov.take(j as int).map_values(|i: int| rv[i]) =~= ov.take(j - 1).map_values(
                |i: int| rv[i],
            ).push(rv[k as int]));
            assert(alloc_rows_view(out@) =~= alloc_rows_view(before).push(rows@[k as int]@));
        }
    }
    assert(ov.take(ov.len() as int) =~= ov);
    out
}

proof fn lemma_shown_under_in_range(
    rows: Seq<AllocRowModel>,
    expanded: Set<i32>,
    parent: Option<i32>,
    depth: nat,
)
    ensures
        forall|q: int|
            0 <= q < shown_under(rows, expanded, parent, depth).len() ==> 0
                <= #[trigger] shown_under(rows, expanded, parent, depth)[q] < rows.len(),
    decreases depth, rows.len() + 1,
{
    let g = child_group(rows, parent);
    lemma_desc_order_picked(row_sizes(rows), |i: int| rows[i].parent_id == parent, rows.len() as int);
    lemma_desc_order_len(row_sizes(rows), |i: int| rows[i].parent_id == parent, rows.len() as int);
    lemma_shown_from_in_range(rows, expanded, g, 0, depth);
    assert(shown_under(rows, expanded, parent, depth) == shown_from(rows, expanded, g, 0, depth));
}

proof fn lemma_shown_from_in_range(
    rows: Seq<AllocRowModel>,
    expanded: Set<i32>,
    group: Seq<int>,
    k: int,
    depth: nat,
)
    requires
        forall|q: int| 0 <= q < group.len() ==> 0 <= #[trigger] group[q] < rows.len(),
        group.len() <= rows.len(),
    ensures
        forall|q: int|
            0 <= q < shown_from(rows, expanded, group, k, depth).len() ==> 0
                <= #[trigger] shown_from(rows, expanded, group, k, depth)[q] < rows.len(),
    decreases depth, group.len() - k,
{
    if 0 <= k < group.len() {
        let i = group[k];
        lemma_shown_from_in_range(rows, expanded, group, k + 1, depth);
        if depth > 0 && expanded.contains(rows[i].node_id) {
            lemma_shown_under_in_range(rows, expanded, Some(rows[i].node_id), (depth - 1) as nat);
        }
        let below = if depth > 0 && 0 <= i < rows.len() && expanded.contains(rows[i].node_id) {
            shown_under(rows, expanded, Some(rows[i].node_id), (depth - 1) as nat)
        } else {
            seq![]
        };
        let rest = shown_from(rows, expanded, group, k + 1, depth);
        let all = seq![i] + below + rest;
        assert(shown_from(rows, expanded, group, k, depth) == all);
        assert forall|q: int| 0 <= q < all.len() implies 0 <= #[trigger] all[q] < rows.len() by {
            if q == 0 {
            } else if q < 1 + below.len() {
                assert(all[q] == below[q - 1]);
            } else {
                assert(all[q] == rest[q - 1 - below.len()]);
            }
        }
    }
}

proof fn lemma_shown_in_range(rows: Seq<AllocRowModel>, expanded: Set<i32>, filtering: bool)
    ensures
        forall|q: int|
            0 <= q < shown_rows(rows, expanded, filtering).len() ==> 0
                <= #[trigger] shown_rows(rows, expanded, filtering)[q] < rows.len(),
{
    if !filtering {
        lemma_shown_under_in_range(rows, expanded, None, rows.len());
    }
}

/// Some row has the node as its parent.
pub open spec fn has_children(rows: Seq<AllocRowModel>, node_id: i32) -> bool {
    exists|i: int| 0 <= i < rows.len() && rows[i].parent_id == Some(node_id)
}

/// Whether some row has the node as its parent.
pub fn allocation_hotspot_has_children(rows: &[AllocationHotSpotRow], node_id: i32) -> (b: bool)
    ensures
        b == has_children(alloc_rows_view(rows@), node_id),
{
    let ghost rv = alloc_rows_view(rows@);
    let mut i: usize = 0;
    while i < rows.len()
        invariant
            i <= rows@.len(),
            rv == alloc_rows_view(rows@),
            forall|k: int| 0 <= k < i ==> rv[k].parent_id != Some(node_id),
        decreases rows@.len() - i,
    {
        if rows[i].parent_id == Some(node_id) {
            assert(rv[i as int].parent_id == Some(node_id));
            return true;
        }
        i = i + 1;
    }
    false
}

/// The node of the selected visible row, if there is one.
pub fn selected_allocation_hotspot_node_id(visible: &[AllocationHotSpotRow], selected_idx: usize) -> (r:
    Option<i32>)
    ensures
        r == (if selected_idx < visible@.len() {
            Some(visible@[selected_idx as int].node_id)
        } else {
            None
        }),
{
    if selected_idx < visible.len() {
        Some(visible[selected_idx].node_id)
    } else {
        None
    }
}

/// The node whose expansion a toggle turns over: the selected shown row's, when it has
/// children.
pub open spec fn toggle_target(
    rows: Seq<AllocRowModel>,
    expanded: Set<i32>,
    filtering: bool,
    selected_row_idx: int,
) -> Option<i32> {
    let shown = visible_rows(rows, expanded, filtering);
    if 0 <= selected_row_idx < shown.len() && has_children(rows, shown[selected_row_idx].node_id) {
        Some(shown[selected_row_idx].node_id)
    } else {
        None
    }
}

/// Expands or collapses the selected row of the allocation tree when it has children, then
/// keeps the selection on a shown row.
pub fn toggle_selected_allocation_hotspot_expanded(
    rows: &[AllocationHotSpotRow],
    expanded: &mut HashSet<i32>,
    filtering: bool,
    selected_row_idx: &mut usize,
)
    requires
        filtering || tree_finite(alloc_rows_view(rows@), old(expanded)@),
        filtering || tree_finite(
            alloc_rows_view(rows@),
            flipped(
                old(expanded)@,
                toggle_target(alloc_rows_view(rows@), old(expanded)@, false, *old(selected_row_idx) as int),
            ),
        ),
    ensures
        ({
            let rv = alloc_rows_view(rows@);
            let shown = visible_rows(rv, old(expanded)@, filtering);
            if *old(selected_row_idx) < shown.len() && has_children(
                rv,
                shown[*old(selected_row_idx) as int].node_id,
            ) {
                let id = shown[*old(selected_row_idx) as int].node_id;
                let now = visible_rows(rv, final(expanded)@, filtering);
                &&& final(expanded)@ == crate::app::toggled(old(expanded)@, id)
                &&& *final(selected_row_idx) == (if *old(selected_row_idx) < now.len() {
                    *old(selected_row_idx) as int
                } else if now.len() == 0 {
                    0
                } else {
                    now.len() - 1
                })
            } else {
                final(expanded)@ == old(expanded)@ && *final(selected_row_idx) == *old(
                    selected_row_idx,
                )
            }
        }),
{
    let visible = visible_allocation_hotspot_rows(rows, expanded, filtering);
    let sel = selected_allocation_hotspot_node_id(visible.as_slice(), *selected_row_idx);
    proof {
        if *selected_row_idx < visible@.len() {
            assert(alloc_rows_view(visible@)[*selected_row_idx as int] == visible@[*selected_row_idx as int]@);
        }
    }
    if let Some(node_id) = sel {
        if !allocation_hotspot_has_children(rows, node_id) {
            return;
        }
        crate::app::toggle_member(expanded, node_id);
        let now = visible_allocation_hotspot_rows(rows, expanded, filtering);
        proof {
            assert(alloc_rows_view(now@).len() == now@.len());
        }
        let max_idx = if now.len() == 0 {
            0
        } else {
            now.len() - 1
        };
        if *selected_row_idx > max_idx {
            *selected_row_idx = max_idx;
        }
    }
}


/// `n` pairs of spaces.
pub open spec fn two_spaces(n: nat) -> Seq<char>
    decreases n,
{
    if n == 0 {
        Seq::empty()
    } else {
        two_spaces((n - 1) as nat) + "  "@
    }
}

/// The indentation of a row in the copied allocation table: none at the top, else two spaces
/// per level (at most eight levels) and a dash.
pub open spec fn depth_prefix(depth: nat) -> Seq<char> {
    if depth == 0 {
        Seq::empty()
    } else {
        two_spaces(if depth < 8 {
            depth
        } else {
            8
        }) + "- "@
    }
}

/// One row of the copied allocation table: the indented name, the allocated memory and the
/// number of allocations, separated by tabs.
pub open spec fn allocation_copy_line(r: AllocRowModel) -> Seq<char> {
    depth_prefix(r.depth as nat) + r.name + "\t"@ + bytes_text(r.bytes as nat) + "\t"@ + decimal(
        r.allocations as nat,
    )
}

/// The header of the copied allocation table.
pub open spec fn allocation_copy_header() -> Seq<char> {
    "Hot Spot\tSelf Allocated Memory\tAllocations"@
}

/// The shown allocation rows as tab-separated text with a header, one row per line; nothing
/// when there are no rows.
pub fn allocation_hotspots_copy_text(rows: &[AllocationHotSpotRow]) -> (r: Option<String>)
    ensures
        rows@.len() == 0 ==> r is None,
        rows@.len() > 0 ==> r is Some && r->0@ == join(
            seq![allocation_copy_header()] + alloc_rows_view(rows@).map_values(
                |x: AllocRowModel| allocation_copy_line(x),
            ),
            "\n"@,
        ),
{
    if rows.len() == 0 {
        return None;
    }
    let mut parts: Vec<Vec<char>> = Vec::new();
    parts.push(chars_of("Hot Spot\tSelf Allocated Memory\tAllocations"));
    let ghost lines = alloc_rows_view(rows@).map_values(|x: AllocRowModel| allocation_copy_line(x));
    let mut i: usize = 0;
    while i < rows.len()
        invariant
            i <= rows@.len(),
            lines == alloc_rows_view(rows@).map_values(|x: AllocRowModel| allocation_copy_line(x)),
            parts@.len() == i + 1,
            parts@[0]@ == allocation_copy_header(),
            forall|k: int| 0 <= k < i ==> #[trigger] parts@[k + 1]@ == lines[k],
        decreases rows@.len() - i,
    {
        let row = &rows[i];
        let mut line: Vec<char> = Vec::new();
        if row.depth > 0 {
            let levels: usize = if row.depth < 8 {
                row.depth
            } else {
                8
            };
            let mut k: usize = 0;
            while k < levels
                invariant
                    k <= levels,
                    line@ == two_spaces(k as nat),
                decreases levels - k,
            {
                push_str(&mut line, "  ");
                k = k + 1;
            }
            push_str(&mut line, "- ");
        }
        assert(line@ == depth_prefix(row.depth as nat));
        push_str(&mut line, row.name.as_str());
        push_str(&mut line, "\t");
        let bytes = format_bytes(row.bytes);
        push_str(&mut line, bytes.as_str());
        push_str(&mut line, "\t");
        let count = decimal_chars(row.allocations);
        push_all(&mut line, count.as_slice());
        assert(line@ == allocation_copy_line(rows@[i as int]@));
        parts.push(line);
        i = i + 1;
    }
    let out = join_from(&parts, 0, "\n");
    proof {
        let whole = seq![allocation_copy_header()] + lines;
        assert(parts@.skip(0).map_values(|v: Vec<char>| v@) =~= whole) by {
            assert forall|k: int| 0 <= k < whole.len() implies parts@.skip(0).map_values(
                |v: Vec<char>| v@,
            )[k] == whole[k] by {
                if k > 0 {
                    assert(parts@[(k - 1) + 1]@ == lines[k - 1]);
                }
            }
        }
    }
    Some(string_of(out.as_slice()))
}

} // verus!

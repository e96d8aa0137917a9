use vstd::prelude::*;

verus! {

/// `g` with position `i` put after every entry whose key is at least `keys[i]` that stands at
/// its end: an insertion step of a stable sort by descending key.
pub open spec fn insert_desc(keys: Seq<u64>, g: Seq<int>, i: int) -> Seq<int>
    decreases g.len(),
{
    if g.len() == 0 {
        seq![i]
    } else if keys[g.last()] >= keys[i] {
        g.push(i)
    } else {
        insert_desc(keys, g.drop_last(), i).push(g.last())
    }
}

/// The positions `0..n` of `keys` that `pick` admits, in a stable order by descending key.
pub open spec fn desc_order_of(keys: Seq<u64>, pick: spec_fn(int) -> bool, n: int) -> Seq<int>
    decreases n,
{
    if n <= 0 {
        seq![]
    } else if pick(n - 1) {
        insert_desc(keys, desc_order_of(keys, pick, n - 1), n - 1)
    } else {
        desc_order_of(keys, pick, n - 1)
    }
}

/// All positions of `keys`, in a stable order by descending key.
pub open spec fn desc_order(keys: Seq<u64>) -> Seq<int> {
    desc_order_of(keys, |i: int| true, keys.len() as int)
}

proof fn lemma_insert_desc_at(keys: Seq<u64>, g: Seq<int>, i: int, p: int)
    requires
        0 <= p <= g.len(),
        forall|j: int| p <= j < g.len() ==> keys[g[j]] < keys[i],
        p == 0 || keys[g[p - 1]] >= keys[i],
    ensures
        insert_desc(keys, g, i) == g.take(p).push(i) + g.skip(p),
    decreases g.len(),
{
    if g.len() == 0 {
        assert(g.take(p).push(i) + g.skip(p) =~= seq![i]);
    } else if p == g.len() {
        assert(g.take(p) =~= g);
        assert(g.take(p).push(i) + g.skip(p) =~= g.push(i));
    } else {
        let h = g.drop_last();
        assert(keys[g.last()] < keys[i]);
        lemma_insert_desc_at(keys, h, i, p);
        assert(h.take(p) =~= g.take(p));
        assert((h.take(p).push(i) + h.skip(p)).push(g.last()) =~= g.take(p).push(i) + g.skip(p));
    }
}

/// `g` with position `i` inserted as `insert_desc` inserts it.
fn insert_desc_exec(keys: &[u64], g: &mut Vec<usize>, i: usize)
    requires
        i < keys@.len(),
        forall|j: int| 0 <= j < old(g)@.len() ==> old(g)@[j] < keys@.len(),
    ensures
        final(g)@.map_values(|x: usize| x as int) == insert_desc(
            keys@,
            old(g)@.map_values(|x: usize| x as int),
            i as int,
        ),
        forall|j: int| 0 <= j < final(g)@.len() ==> final(g)@[j] < keys@.len(),
{
    let ghost gv = g@.map_values(|x: usize| x as int);
    let mut p = g.len();
    while p > 0 && keys[g[p - 1]] < keys[i]
        invariant
            i < keys@.len(),
            p <= g@.len(),
            gv == g@.map_values(|x: usize| x as int),
            forall|j: int| 0 <= j < g@.len() ==> g@[j] < keys@.len(),
            forall|j: int| p <= j < g@.len() ==> keys@[g@[j] as int] < keys@[i as int],
        decreases p,
    {
        p = p - 1;
    }
    proof {
        lemma_insert_desc_at(keys@, gv, i as int, p as int);
    }
    let ghost before = g@;
    g.insert(p, i);
    proof {
        assert(g@.map_values(|x: usize| x as int) =~= gv.take(p as int).push(i as int) + gv.skip(
            p as int,
        ));
    }
}

/// The positions of `keys` that `pick` admits, in a stable order by descending key.
pub fn stable_order_desc(keys: &[u64], pick: &[bool]) -> (out: Vec<usize>)
    requires
        pick@.len() == keys@.len(),
    ensures
        out@.map_values(|x: usize| x as int) == desc_order_of(
            keys@,
            |i: int| pick@[i],
            keys@.len() as int,
        ),
        forall|j: int| 0 <= j < out@.len() ==> out@[j] < keys@.len(),
{
    let ghost f = |i: int| pick@[i];
    let mut out: Vec<usize> = Vec::new();
    let mut n: usize = 0;
    while n < keys.len()
        invariant
            n <= keys@.len() == pick@.len(),
            f == (|i: int| pick@[i]),
            out@.map_values(|x: usize| x as int) == desc_order_of(keys@, f, n as int),
            forall|j: int| 0 <= j < out@.len() ==> out@[j] < keys@.len(),
        decreases keys@.len() - n,
    {
        if pick[n] {
            insert_desc_exec(keys, &mut out, n);
        }
        n = n + 1;
    }
    out
}

/// Every position that an insertion step or the whole order lists is in range and admitted.
pub proof fn lemma_insert_desc_members(keys: Seq<u64>, g: Seq<int>, i: int, x: int)
    ensures
        insert_desc(keys, g, i).contains(x) ==> (g.contains(x) || x == i),
    decreases g.len(),
{
    if g.len() > 0 && keys[g.last()] < keys[i] {
        lemma_insert_desc_members(keys, g.drop_last(), i, x);
        if insert_desc(keys, g, i).contains(x) {
            let r = insert_desc(keys, g.drop_last(), i);
            if x != g.last() {
                let k = choose|k: int| 0 <= k < r.push(g.last()).len() && r.push(g.last())[k] == x;
                assert(r[k] == x);
                assert(r.contains(x));
                if g.drop_last().contains(x) {
                    let m = choose|m: int| 0 <= m < g.drop_last().len() && g.drop_last()[m] == x;
                    assert(g[m] == x);
                }
            } else {
                assert(g[g.len() - 1] == x);
            }
        }
    } else if g.len() > 0 {
        if g.push(i).contains(x) && x != i {
            let k = choose|k: int| 0 <= k < g.push(i).len() && g.push(i)[k] == x;
            assert(g[k] == x);
        }
    }
}

/// Every position that `desc_order_of` lists is below `n` and admitted by `pick`.
pub proof fn lemma_desc_order_picked(keys: Seq<u64>, pick: spec_fn(int) -> bool, n: int)
    ensures
        forall|k: int|
            0 <= k < desc_order_of(keys, pick, n).len() ==> 0 <= #[trigger] desc_order_of(
                keys,
                pick,
                n,
            )[k] < n && pick(desc_order_of(keys, pick, n)[k]),
    decreases n,
{
    if n > 0 {
        lemma_desc_order_picked(keys, pick, n - 1);
        let g = desc_order_of(keys, pick, n - 1);
        if pick(n - 1) {
            assert forall|k: int|
                0 <= k < desc_order_of(keys, pick, n).len() implies 0 <= #[trigger] desc_order_of(
                keys,
                pick,
                n,
            )[k] < n && pick(desc_order_of(keys, pick, n)[k]) by {
                let r = desc_order_of(keys, pick, n);
                let x = r[k];
                assert(r.contains(x));
                lemma_insert_desc_members(keys, g, n - 1, x);
                if x != n - 1 {
                    let m = choose|m: int| 0 <= m < g.len() && g[m] == x;
                    assert(g[m] == x);
                }
            }
        }
    }
}

/// The order depends on `pick` only below `n`.
pub proof fn lemma_desc_order_congruent(
    keys: Seq<u64>,
    p1: spec_fn(int) -> bool,
    p2: spec_fn(int) -> bool,
    n: int,
)
    requires
        forall|i: int| 0 <= i < n ==> #[trigger] p1(i) == p2(i),
    ensures
        desc_order_of(keys, p1, n) == desc_order_of(keys, p2, n),
    decreases n,
{
    if n > 0 {
        lemma_desc_order_congruent(keys, p1, p2, n - 1);
    }
}

/// An insertion step adds one position.
pub proof fn lemma_insert_desc_len(keys: Seq<u64>, g: Seq<int>, i: int)
    ensures
        insert_desc(keys, g, i).len() == g.len() + 1,
    decreases g.len(),
{
    if g.len() > 0 && keys[g.last()] < keys[i] {
        lemma_insert_desc_len(keys, g.drop_last(), i);
    }
}

/// The order lists at most `n` positions.
pub proof fn lemma_desc_order_len(keys: Seq<u64>, pick: spec_fn(int) -> bool, n: int)
    ensures
        desc_order_of(keys, pick, n).len() <= if n < 0 {
            0
        } else {
            n
        },
    decreases n,
{
    if n > 0 {
        lemma_desc_order_len(keys, pick, n - 1);
        if pick(n - 1) {
            lemma_insert_desc_len(keys, desc_order_of(keys, pick, n - 1), n - 1);
        }
    }
}

/// Admitting every position, the order lists `n` of them.
pub proof fn lemma_desc_order_all_len(keys: Seq<u64>, n: int)
    requires
        n >= 0,
    ensures
        desc_order_of(keys, |i: int| true, n).len() == n,
    decreases n,
{
    if n > 0 {
        lemma_desc_order_all_len(keys, n - 1);
        lemma_insert_desc_len(keys, desc_order_of(keys, |i: int| true, n - 1), n - 1);
    }
}

/// The positions of `g` come with non-increasing keys.
pub open spec fn sorted_desc(keys: Seq<u64>, g: Seq<int>) -> bool {
    forall|a: int, b: int| 0 <= a < b < g.len() ==> keys[g[a]] >= keys[g[b]]
}

proof fn lemma_insert_desc_sorted(keys: Seq<u64>, g: Seq<int>, i: int)
    requires
        sorted_desc(keys, g),
    ensures
        sorted_desc(keys, insert_desc(keys, g, i)),
    decreases g.len(),
{
    if g.len() == 0 {
    } else if keys[g.last()] >= keys[i] {
        let r = g.push(i);
        assert forall|a: int, b: int| 0 <= a < b < r.len() implies keys[r[a]] >= keys[r[b]] by {
            if b == g.len() {
                if a < g.len() - 1 {
                    assert(keys[g[a]] >= keys[g[g.len() - 1]]);
                }
            }
        }
    } else {
        let h = g.drop_last();
        assert(sorted_desc(keys, h));
        lemma_insert_desc_sorted(keys, h, i);
        let r0 = insert_desc(keys, h, i);
        lemma_insert_desc_members(keys, h, i, 0);
        let r = r0.push(g.last());
        assert forall|a: int, b: int| 0 <= a < b < r.len() implies keys[r[a]] >= keys[r[b]] by {
            if b == r0.len() {
                let x = r0[a];
                assert(r0.contains(x));
                lemma_insert_desc_members(keys, h, i, x);
                if x != i {
                    let m = choose|m: int| 0 <= m < h.len() && h[m] == x;
                    assert(keys[g[m]] >= keys[g[g.len() - 1]]);
                }
            } else {
                assert(r[a] == r0[a] && r[b] == r0[b]);
            }
        }
    }
}

/// A stable order by descending key lists its positions with non-increasing keys.
pub proof fn lemma_desc_order_sorted(keys: Seq<u64>, pick: spec_fn(int) -> bool, n: int)
    ensures
        sorted_desc(keys, desc_order_of(keys, pick, n)),
    decreases n,
{
    if n > 0 {
        lemma_desc_order_sorted(keys, pick, n - 1);
        if pick(n - 1) {
            lemma_insert_desc_sorted(keys, desc_order_of(keys, pick, n - 1), n - 1);
        }
    }
}

/// An insertion step adds position `i`: mapped through `f`, the multiset gains `f(i)`.
pub proof fn lemma_insert_desc_multiset<A>(keys: Seq<u64>, g: Seq<int>, i: int, f: spec_fn(int) -> A)
    ensures
        insert_desc(keys, g, i).map_values(f).to_multiset() == g.map_values(f).to_multiset().insert(
            f(i),
        ),
    decreases g.len(),
{
    broadcast use vstd::seq_lib::group_to_multiset_ensures;

    if g.len() == 0 {
        assert(insert_desc(keys, g, i).map_values(f) =~= g.map_values(f).push(f(i)));
    } else if keys[g.last()] >= keys[i] {
        assert(insert_desc(keys, g, i).map_values(f) =~= g.map_values(f).push(f(i)));
    } else {
        let h = g.drop_last();
        lemma_insert_desc_multiset(keys, h, i, f);
        assert(insert_desc(keys, g, i).map_values(f) =~= insert_desc(keys, h, i).map_values(f).push(
            f(g.last()),
        ));
        assert(g.map_values(f) =~= h.map_values(f).push(f(g.last())));
        assert(h.map_values(f).to_multiset().insert(f(i)).insert(f(g.last())) =~= h.map_values(
            f,
        ).to_multiset().insert(f(g.last())).insert(f(i)));
    }
}

/// Admitting every position, the order lists each of `0..n` once: mapped through `f`, it has
/// the multiset of `f(0), ..., f(n - 1)`.
pub proof fn lemma_desc_order_all_multiset<A>(keys: Seq<u64>, f: spec_fn(int) -> A, n: int)
    requires
        n >= 0,
    ensures
        desc_order_of(keys, |i: int| true, n).map_values(f).to_multiset() == Seq::new(
            n as nat,
            f,
        ).to_multiset(),
    decreases n,
{
    broadcast use vstd::seq_lib::group_to_multiset_ensures;

    if n == 0 {
        assert(desc_order_of(keys, |i: int| true, n).map_values(f) =~= Seq::<A>::empty());
        assert(Seq::new(0nat, f) =~= Seq::<A>::empty());
    } else {
        lemma_desc_order_all_multiset(keys, f, n - 1);
        lemma_insert_desc_multiset(keys, desc_order_of(keys, |i: int| true, n - 1), n - 1, f);
        assert(Seq::new(n as nat, f) =~= Seq::new((n - 1) as nat, f).push(f(n - 1)));
    }
}

} // verus!

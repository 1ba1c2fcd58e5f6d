//! What the collector guarantees, stated over the heap model and proved.
use vstd::prelude::*;
use crate::graph::{
    AllocationId, points_to, inbound_in, inbound, all_of, edge, is_path, reaches,
    lemma_inbound_split, lemma_inbound_none, lemma_reach_self,
};
use crate::collect::{
    Dumpster, traced, traced_marks, discovered, is_root, rescued, doomed, counts_honest,
    lemma_points_live, lemma_no_survivor_points_doomed,
};

verus! {

/// No field dangles: every `Gc` field of every box points at a live box.
pub proof fn lemma_no_dangling(d: Dumpster, x: int, k: int)
    requires
        d.well_formed(),
        0 <= x < d.len(),
        0 <= k < d.fields@[x]@.len(),
        d.fields@[x]@[k].is_some(),
    ensures
        d.live@[d.fields@[x]@[k].unwrap().0 as int],
{
    let c = d.fields@[x]@[k].unwrap().0 as int;
    assert(counts_honest(d.fields@, d.ref_counts@, d.live@));
    lemma_points_live(d.fields@, d.ref_counts@, d.live@, x, k, c);
}

/// Each payload destructor runs at most once, and exactly the freed boxes have
/// had theirs run.
pub proof fn lemma_destructor_once(d: Dumpster, x: int)
    requires
        d.well_formed(),
        0 <= x < d.len(),
    ensures
        d.destroyed@.no_duplicates(),
        !d.live@[x] <==> d.destroyed@.contains(AllocationId(x as usize)),
{
}

/// The inbound count that the first pass discovers never exceeds the strong
/// count; where the two are equal, no handle outside the heap and no field of
/// an untraced box points at the box.
pub proof fn lemma_discovered_bounded(d: Dumpster, t: int)
    requires
        d.well_formed(),
        0 <= t < d.len(),
    ensures
        discovered(d.fields@, d.to_collect@, t) <= d.ref_counts@[t],
        discovered(d.fields@, d.to_collect@, t) == d.ref_counts@[t] ==> d.handles@[t] == 0 && inbound_in(
            d.fields@,
            Seq::new(d.len(), |v: int| !traced(d.fields@, d.to_collect@, v)),
            t,
            d.len() as int,
        ) == 0,
{
    let fs = d.fields@;
    let n = d.len() as int;
    let tm = traced_marks(fs, d.to_collect@);
    let un = Seq::new(d.len(), |v: int| !traced(fs, d.to_collect@, v));
    lemma_inbound_split(fs, tm, un, all_of(n), t, n);
    assert(d.ref_counts@[t] == inbound(fs, t) + d.handles@[t]);
}

proof fn lemma_walk_survives(d: Dumpster, p: Seq<int>, i: int)
    requires
        d.well_formed(),
        is_path(d.fields@, p),
        0 <= p[0] < d.len(),
        !doomed(d.fields@, d.ref_counts@, d.to_collect@, p[0]),
        0 <= i < p.len(),
    ensures
        0 <= p[i] < d.len(),
        !doomed(d.fields@, d.ref_counts@, d.to_collect@, p[i]),
    decreases i,
{
    let fs = d.fields@;
    if i > 0 {
        lemma_walk_survives(d, p, i - 1);
        assert(edge(fs, p[i - 1], p[i]));
        let k = choose|k: int| 0 <= k < fs[p[i - 1]]@.len() && points_to(#[trigger] fs[p[i - 1]]@[k], p[i]);
        assert(fs[p[i - 1]]@[k].is_some());
        if doomed(fs, d.ref_counts@, d.to_collect@, p[i]) {
            assert(counts_honest(fs, d.ref_counts@, d.live@));
            lemma_no_survivor_points_doomed(fs, d.ref_counts@, d.live@, d.to_collect@, p[i - 1], k, p[i]);
        }
    }
}

/// External liveness: a box that a handle outside the heap holds, and every
/// box it reaches (the rest of its cycle included), survives a collection.
pub proof fn lemma_external_liveness(d: Dumpster, x: int, y: int)
    requires
        d.well_formed(),
        0 <= x < d.len(),
        d.handles@[x] > 0,
        reaches(d.fields@, x, y),
    ensures
        !doomed(d.fields@, d.ref_counts@, d.to_collect@, y),
{
    let fs = d.fields@;
    let reg = d.to_collect@;
    let n = d.len() as int;
    if traced(fs, reg, x) {
        lemma_discovered_bounded(d, x);
        assert(d.ref_counts@[x] == inbound(fs, x) + d.handles@[x]);
        assert(is_root(fs, d.ref_counts@, reg, x));
        lemma_reach_self(fs, x);
        assert(rescued(fs, d.ref_counts@, reg, x));
    }
    let p = choose|p: Seq<int>| #[trigger] is_path(fs, p) && p[0] == x && p.last() == y;
    lemma_walk_survives(d, p, p.len() - 1);
}

proof fn lemma_walk_stays_in(d: Dumpster, c: Seq<bool>, p: Seq<int>, i: int)
    requires
        d.well_formed(),
        c.len() == d.len(),
        forall|x: int, k: int, t: int|
            0 <= x < d.len() && !c[x] && 0 <= t < d.len() && c[t] && 0 <= k < d.fields@[x]@.len() ==> !#[trigger] points_to(
                d.fields@[x]@[k],
                t,
            ),
        is_path(d.fields@, p),
        0 <= i < p.len(),
        0 <= p[i] < d.len(),
        c[p[i]],
    ensures
        c[p[0]],
    decreases i,
{
    let fs = d.fields@;
    if i > 0 {
        assert(edge(fs, p[i - 1], p[i]));
        let k = choose|k: int| 0 <= k < fs[p[i - 1]]@.len() && points_to(#[trigger] fs[p[i - 1]]@[k], p[i]);
        lemma_walk_stays_in(d, c, p, i - 1);
    }
}

/// Cycle reclamation: a strongly connected group of boxes with one member
/// registered, held by no handle outside the heap and by no field of a box
/// outside the group, is freed entirely by one collection.
pub proof fn lemma_cycle_reclaimed(d: Dumpster, c: Seq<bool>, j: int, v: int)
    requires
        d.well_formed(),
        c.len() == d.len(),
        0 <= j < d.to_collect@.len(),
        c[d.to_collect@[j].0 as int],
        forall|a: int, b: int| 0 <= a < d.len() && 0 <= b < d.len() && c[a] && c[b] ==> #[trigger] reaches(d.fields@, a, b),
        forall|a: int| 0 <= a < d.len() && c[a] ==> #[trigger] d.handles@[a] == 0,
        forall|x: int, k: int, t: int|
            0 <= x < d.len() && !c[x] && 0 <= t < d.len() && c[t] && 0 <= k < d.fields@[x]@.len() ==> !#[trigger] points_to(
                d.fields@[x]@[k],
                t,
            ),
        0 <= v < d.len(),
        c[v],
    ensures
        doomed(d.fields@, d.ref_counts@, d.to_collect@, v),
{
    let fs = d.fields@;
    let reg = d.to_collect@;
    let rc = d.ref_counts@;
    let n = d.len() as int;
    let r0 = reg[j].0 as int;
    assert(reaches(fs, r0, v));
    assert(traced(fs, reg, v));
    if rescued(fs, rc, reg, v) {
        let r = choose|r: int| 0 <= r < n && is_root(fs, rc, reg, r) && #[trigger] reaches(fs, r, v);
        let p = choose|p: Seq<int>| #[trigger] is_path(fs, p) && p[0] == r && p.last() == v;
        lemma_walk_stays_in(d, c, p, p.len() - 1);
        assert(c[r]);
        let tm = traced_marks(fs, reg);
        let un = Seq::new(d.len(), |u: int| !traced(fs, reg, u));
        lemma_inbound_split(fs, tm, un, all_of(n), r, n);
        assert forall|x: int, k: int| 0 <= x < n && un[x] && 0 <= k < fs[x]@.len() implies !points_to(
            #[trigger] fs[x]@[k],
            r,
        ) by {
            if c[x] {
                assert(reaches(fs, r0, x));
                assert(traced(fs, reg, x));
            }
        }
        lemma_inbound_none(fs, un, r, n);
        assert(rc[r] == inbound(fs, r) + d.handles@[r]);
        assert(d.handles@[r] == 0);
        assert(rc[r] as int == discovered(fs, reg, r));
    }
}

/// A collection with an empty registry frees nothing, so a second collection
/// right after a first one frees nothing.
pub proof fn lemma_collect_idempotent(d: Dumpster, v: int)
    requires
        d.to_collect@.len() == 0,
    ensures
        !doomed(d.fields@, d.ref_counts@, d.to_collect@, v),
{
}

/// Reference counting alone frees unreferenced boxes: in every well-formed
/// state (after any `drop_gc`, with no collection), a box is allocated exactly
/// when a handle outside the heap or a field holds it.
pub proof fn lemma_unreferenced_freed(d: Dumpster, x: int)
    requires
        d.well_formed(),
        0 <= x < d.len(),
    ensures
        d.live@[x] <==> (d.handles@[x] > 0 || inbound(d.fields@, x) > 0),
{
    assert(d.ref_counts@[x] == inbound(d.fields@, x) + d.handles@[x]);
}

} // verus!

//! The dumpster: a thread's managed heap, its registry of boxes that may be
//! part of a dead cycle, and the three-pass collector.
use vstd::prelude::*;
use crate::graph::{
    AllocationId, Fields, points_to, count_in, inbound_in, inbound, all_of, edge, is_path, reaches,
    fields_in_range, closed, num_marked, sat, lemma_num_marked_bound, lemma_num_marked_set,
    lemma_count_pos, lemma_count_take, lemma_inbound_ext, lemma_inbound_split,
    lemma_inbound_prefix, lemma_inbound_has, lemma_inbound_update, lemma_reach_step,
    lemma_reach_self, lemma_closed_reaches, lemma_count_take_le, lemma_inbound_none,
    lemma_walk_prefix, lemma_count_push, lemma_num_marked_clear, lemma_inbound_push,
    lemma_count_concat,
};

verus! {

/// All managed boxes of one thread, with the registry of possibly-dead boxes.
///
/// Slot `x` of the parallel vectors describes the box with `AllocationId(x)`:
/// its strong count, its payload's plain value, its payload's `Gc` fields, and
/// whether it is still allocated. Slots are never reused.
pub struct Dumpster {
    pub ref_counts: Vec<usize>,
    pub values: Vec<u64>,
    pub fields: Vec<Vec<Option<AllocationId>>>,
    pub live: Vec<bool>,
    /// Boxes that may need to be swept: a strong reference to them was dropped
    /// while the count stayed positive.
    pub to_collect: Vec<AllocationId>,
    /// The boxes whose payload destructor has run, in the order it ran.
    pub destroyed: Vec<AllocationId>,
    /// References dropped since the last collection.
    pub n_ref_drops: usize,
    /// Strong references that currently exist.
    pub n_refs_living: usize,
    /// For each box, how many `Gc` handles outside the heap point at it.
    pub handles: Ghost<Seq<nat>>,
}

/// Box `v` is reached from a registered box: the collector's first pass visits it.
pub open spec fn traced(fs: Fields, reg: Seq<AllocationId>, v: int) -> bool {
    exists|j: int| 0 <= j < reg.len() && #[trigger] reaches(fs, reg[j].0 as int, v)
}

/// The boxes that the first pass visits.
pub open spec fn traced_marks(fs: Fields, reg: Seq<AllocationId>) -> Seq<bool> {
    Seq::new(fs.len(), |v: int| traced(fs, reg, v))
}

/// The inbound edge count of `t` that the first pass discovers: the fields of
/// the visited boxes that point at `t`, saturated at the largest `usize`.
pub open spec fn discovered(fs: Fields, reg: Seq<AllocationId>, t: int) -> int {
    sat(inbound_in(fs, traced_marks(fs, reg), t, fs.len() as int))
}

/// A visited box whose strong count differs from its discovered inbound count:
/// something outside the traced boxes holds it.
pub open spec fn is_root(fs: Fields, rc: Seq<usize>, reg: Seq<AllocationId>, r: int) -> bool {
    traced(fs, reg, r) && rc[r] as int != discovered(fs, reg, r)
}

/// Box `v` is reachable from a root: the second pass keeps it.
pub open spec fn rescued(fs: Fields, rc: Seq<usize>, reg: Seq<AllocationId>, v: int) -> bool {
    exists|r: int| 0 <= r < fs.len() && is_root(fs, rc, reg, r) && #[trigger] reaches(fs, r, v)
}

/// Box `v` belongs to garbage that only dead cycles hold: the third pass frees it.
pub open spec fn doomed(fs: Fields, rc: Seq<usize>, reg: Seq<AllocationId>, v: int) -> bool {
    traced(fs, reg, v) && !rescued(fs, rc, reg, v)
}

/// The boxes that the third pass frees.
pub open spec fn doomed_marks(fs: Fields, rc: Seq<usize>, reg: Seq<AllocationId>) -> Seq<bool> {
    Seq::new(fs.len(), |v: int| doomed(fs, rc, reg, v))
}

/// A strong handle held outside the heap (on the stack, say) to a managed box.
pub struct Gc {
    pub id: AllocationId,
}

impl Dumpster {
    /// Number of slots ever allocated.
    pub open spec fn len(&self) -> nat {
        self.ref_counts@.len()
    }

    pub open spec fn well_formed(&self) -> bool {
        let n = self.ref_counts@.len();
        &&& self.values@.len() == n
        &&& self.fields@.len() == n
        &&& self.live@.len() == n
        &&& fields_in_range(self.fields@)
        &&& forall|x: int|
            0 <= x < n && !#[trigger] self.live@[x] ==> self.ref_counts@[x] == 0 && self.fields@[x]@.len() == 0
        &&& forall|x: int| 0 <= x < n && #[trigger] self.live@[x] ==> self.ref_counts@[x] > 0
        &&& self.handles@.len() == n
        &&& forall|t: int|
            0 <= t < n ==> self.ref_counts@[t] == #[trigger] inbound(self.fields@, t) + self.handles@[t]
        &&& forall|j: int|
            0 <= j < self.to_collect@.len() ==> (#[trigger] self.to_collect@[j]).0 < n
                && self.live@[self.to_collect@[j].0 as int]
        &&& self.to_collect@.no_duplicates()
        &&& self.destroyed@.no_duplicates()
        &&& forall|j: int| 0 <= j < self.destroyed@.len() ==> (#[trigger] self.destroyed@[j]).0 < n
        &&& forall|x: int|
            0 <= x < n ==> (!#[trigger] self.live@[x] <==> self.destroyed@.contains(AllocationId(x as usize)))
    }
}

/// Marks everything reachable from `start`, keeping a closed marking closed.
#[verifier::rlimit(60)]
fn mark_from(fields: &Vec<Vec<Option<AllocationId>>>, marks: &mut Vec<bool>, start: usize)
    requires
        fields_in_range(fields@),
        old(marks)@.len() == fields@.len(),
        start < fields@.len(),
        closed(fields@, old(marks)@),
    ensures
        final(marks)@.len() == fields@.len(),
        closed(fields@, final(marks)@),
        final(marks)@[start as int],
        forall|v: int|
            0 <= v < fields@.len() && #[trigger] final(marks)@[v] ==> old(marks)@[v] || reaches(
                fields@,
                start as int,
                v,
            ),
        forall|v: int| 0 <= v < fields@.len() && old(marks)@[v] ==> #[trigger] final(marks)@[v],
{
    let total = fields.len();
    let ghost fs = fields@;
    let ghost n = total as int;
    let ghost m0 = marks@;
    if marks[start] {
        return;
    }
    proof {
        lemma_num_marked_set(marks@, start as int);
        lemma_reach_self(fs, start as int);
    }
    marks.set(start, true);
    let mut stack: Vec<usize> = Vec::new();
    stack.push(start);
    proof {
        assert(stack@ =~= seq![start]);
        assert forall|x: int, k: int|
            0 <= x < n && marks@[x] && !stack@.contains(x as usize) && 0 <= k < fs[x]@.len()
                && (#[trigger] fs[x]@[k]).is_some() implies marks@[fs[x]@[k].unwrap().0 as int] by {
            assert(stack@[0] == start);
            assert(x != start);
            assert(m0[x]);
        }
    }
    while stack.len() > 0
        invariant
            fs == fields@,
            n == fs.len(),
            n <= usize::MAX,
            fields_in_range(fs),
            marks@.len() == n,
            marks@[start as int],
            forall|i: int| 0 <= i < stack@.len() ==> #[trigger] stack@[i] < n && marks@[stack@[i] as int],
            forall|x: int, k: int|
                0 <= x < n && marks@[x] && !stack@.contains(x as usize) && 0 <= k < fs[x]@.len()
                    && (#[trigger] fs[x]@[k]).is_some() ==> marks@[fs[x]@[k].unwrap().0 as int],
            forall|v: int| 0 <= v < n && #[trigger] marks@[v] ==> m0[v] || reaches(fs, start as int, v),
            forall|v: int| 0 <= v < n && m0[v] ==> #[trigger] marks@[v],
            closed(fs, m0),
            m0.len() == n,
        decreases 2 * (n - num_marked(marks@)) + stack@.len(),
    {
        proof {
            lemma_num_marked_bound(marks@);
        }
        let ghost before = 2 * (n - num_marked(marks@)) + stack@.len();
        let ghost s_old = stack@;
        let x = stack.pop().unwrap();
        proof {
            assert(s_old =~= stack@.push(x));
            assert forall|y: int| 0 <= y < n && y != x && !stack@.contains(y as usize) implies !#[trigger] s_old.contains(
                y as usize,
            ) by {
                if s_old.contains(y as usize) {
                    let i = choose|i: int| 0 <= i < s_old.len() && s_old[i] == y as usize;
                    if i < stack@.len() {
                        assert(stack@[i] == y as usize);
                        assert(stack@.contains(y as usize));
                    } else {
                        assert(i == stack@.len());
                        assert(s_old[i] == x);
                        assert(y == x as int);
                    }
                }
            }
        }
        let len = fields[x].len();
        let mut k: usize = 0;
        while k < len
            invariant
                fs == fields@,
                n == fs.len(),
                n <= usize::MAX,
                fields_in_range(fs),
                0 <= x < n,
                len == fs[x as int]@.len(),
                0 <= k <= len,
                marks@.len() == n,
                marks@[start as int],
                marks@[x as int],
                reaches(fs, start as int, x as int) || m0[x as int],
                forall|i: int| 0 <= i < stack@.len() ==> #[trigger] stack@[i] < n && marks@[stack@[i] as int],
                forall|y: int, j: int|
                    0 <= y < n && y != x && marks@[y] && !stack@.contains(y as usize) && 0 <= j < fs[y]@.len()
                        && (#[trigger] fs[y]@[j]).is_some() ==> marks@[fs[y]@[j].unwrap().0 as int],
                forall|j: int|
                    0 <= j < k && (#[trigger] fs[x as int]@[j]).is_some() ==> marks@[fs[x as int]@[j].unwrap().0 as int],
                forall|v: int| 0 <= v < n && #[trigger] marks@[v] ==> m0[v] || reaches(fs, start as int, v),
                forall|v: int| 0 <= v < n && m0[v] ==> #[trigger] marks@[v],
                num_marked(marks@) <= n,
                closed(fs, m0),
                m0.len() == n,
                2 * (n - num_marked(marks@)) + stack@.len() < before,
            decreases len - k,
        {
            if let Some(c) = fields[x][k] {
                if !marks[c.0] {
                    proof {
                        lemma_num_marked_set(marks@, c.0 as int);
                        lemma_num_marked_bound(marks@.update(c.0 as int, true));
                        if m0[x as int] {
                            assert(closed(fs, m0));
                            assert(fs[x as int]@[k as int].is_some());
                            assert(m0[c.0 as int]);
                        } else {
                            lemma_reach_step(fs, start as int, x as int, c.0 as int, k as int);
                        }
                    }
                    let ghost mk_old = marks@;
                    let ghost st_old = stack@;
                    marks.set(c.0, true);
                    stack.push(c.0);
                    proof {
                        assert(stack@ =~= st_old.push(c.0));
                        assert forall|y: int, j: int|
                            0 <= y < n && y != x && marks@[y] && !stack@.contains(y as usize) && 0 <= j < fs[y]@.len()
                                && (#[trigger] fs[y]@[j]).is_some() implies marks@[fs[y]@[j].unwrap().0 as int] by {
                            if y != c.0 {
                                assert(!st_old.contains(y as usize)) by {
                                    if st_old.contains(y as usize) {
                                        let i = choose|i: int| 0 <= i < st_old.len() && st_old[i] == y as usize;
                                        assert(stack@[i] == y as usize);
                                    }
                                };
                                assert(mk_old[y]);
                                assert(mk_old[fs[y]@[j].unwrap().0 as int]);
                            } else {
                                assert(stack@[stack@.len() - 1] == y as usize);
                            }
                        }
                    }
                }
            }
            k = k + 1;
        }
        proof {
            assert forall|y: int, j: int|
                0 <= y < n && marks@[y] && !stack@.contains(y as usize) && 0 <= j < fs[y]@.len()
                    && (#[trigger] fs[y]@[j]).is_some() implies marks@[fs[y]@[j].unwrap().0 as int] by {
            }
        }
    }
    proof {
        assert forall|y: int, j: int|
            0 <= y < n && marks@[y] && 0 <= j < fs[y]@.len() && (#[trigger] fs[y]@[j]).is_some()
                implies marks@[fs[y]@[j].unwrap().0 as int] by {
            assert(!stack@.contains(y as usize));
        }
    }
}

/// First pass: visits every box reachable from the registry and counts, for
/// every box, the fields of the visited boxes that point at it.
fn build_ref_graph(fields: &Vec<Vec<Option<AllocationId>>>, registry: &Vec<AllocationId>) -> (r: (
    Vec<bool>,
    Vec<usize>,
))
    requires
        fields_in_range(fields@),
        forall|j: int| 0 <= j < registry@.len() ==> (#[trigger] registry@[j]).0 < fields@.len(),
    ensures
        r.0@ == traced_marks(fields@, registry@),
        r.1@.len() == fields@.len(),
        forall|t: int| 0 <= t < fields@.len() ==> r.1@[t] as int == discovered(fields@, registry@, t),
{
    let n = fields.len();
    let ghost fs = fields@;
    let ghost reg = registry@;
    let mut visited: Vec<bool> = Vec::new();
    let mut i: usize = 0;
    while i < n
        invariant
            i <= n,
            visited@.len() == i,
            forall|v: int| 0 <= v < i ==> !#[trigger] visited@[v],
        decreases n - i,
    {
        visited.push(false);
        i = i + 1;
    }
    let mut j: usize = 0;
    while j < registry.len()
        invariant
            fs == fields@,
            reg == registry@,
            n == fs.len(),
            fields_in_range(fs),
            forall|j: int| 0 <= j < reg.len() ==> (#[trigger] reg[j]).0 < n,
            j <= reg.len(),
            visited@.len() == n,
            closed(fs, visited@),
            forall|jj: int| 0 <= jj < j ==> visited@[(#[trigger] reg[jj]).0 as int],
            forall|v: int| 0 <= v < n && #[trigger] visited@[v] ==> traced(fs, reg, v),
        decreases reg.len() - j,
    {
        let ghost before = visited@;
        let r = registry[j].0;
        mark_from(fields, &mut visited, r);
        proof {
            assert forall|v: int| 0 <= v < n && #[trigger] visited@[v] implies traced(fs, reg, v) by {
                if !before[v] {
                    assert(reaches(fs, reg[j as int].0 as int, v));
                }
            }
        }
        j = j + 1;
    }
    proof {
        assert forall|v: int| 0 <= v < n implies visited@[v] == traced(fs, reg, v) by {
            if traced(fs, reg, v) {
                let jj = choose|jj: int| 0 <= jj < reg.len() && #[trigger] reaches(fs, reg[jj].0 as int, v);
                assert(visited@[reg[jj].0 as int]);
                lemma_closed_reaches(fs, visited@, reg[jj].0 as int, v);
            }
        }
        assert(visited@ =~= traced_marks(fs, reg));
    }
    let mut ref_state: Vec<usize> = Vec::new();
    let mut i: usize = 0;
    while i < n
        invariant
            i <= n,
            ref_state@.len() == i,
            forall|v: int| 0 <= v < i ==> #[trigger] ref_state@[v] == 0,
        decreases n - i,
    {
        ref_state.push(0);
        i = i + 1;
    }
    let ghost vis = visited@;
    let mut x: usize = 0;
    while x < n
        invariant
            fs == fields@,
            vis == visited@,
            n == fs.len(),
            vis.len() == n,
            fields_in_range(fs),
            x <= n,
            ref_state@.len() == n,
            forall|t: int| 0 <= t < n ==> #[trigger] ref_state@[t] as int == sat(inbound_in(fs, vis, t, x as int)),
        decreases n - x,
    {
        if visited[x] {
            let len = fields[x].len();
            let mut k: usize = 0;
            while k < len
                invariant
                    fs == fields@,
                    n == fs.len(),
                    vis.len() == n,
                    fields_in_range(fs),
                    x < n,
                    vis[x as int],
                    len == fs[x as int]@.len(),
                    k <= len,
                    ref_state@.len() == n,
                    forall|t: int|
                        0 <= t < n ==> #[trigger] ref_state@[t] as int == sat(
                            inbound_in(fs, vis, t, x as int) + count_in(fs[x as int]@.take(k as int), t),
                        ),
                decreases len - k,
            {
                proof {
                    assert forall|t: int| 0 <= t < n implies count_in(fs[x as int]@.take(k + 1), t)
                        == count_in(fs[x as int]@.take(k as int), t) + if points_to(fs[x as int]@[k as int], t) {
                        1nat
                    } else {
                        0nat
                    } by {
                        lemma_count_take(fs[x as int]@, k as int, t);
                    }
                }
                if let Some(c) = fields[x][k] {
                    let v = ref_state[c.0].saturating_add(1);
                    ref_state.set(c.0, v);
                }
                k = k + 1;
            }
            proof {
                assert(fs[x as int]@.take(len as int) =~= fs[x as int]@);
            }
        }
        x = x + 1;
    }
    (visited, ref_state)
}

/// Second pass: marks every box reachable from a root.
fn sweep(
    fields: &Vec<Vec<Option<AllocationId>>>,
    ref_counts: &Vec<usize>,
    visited: &Vec<bool>,
    ref_state: &Vec<usize>,
    registry: Ghost<Seq<AllocationId>>,
) -> (reachable: Vec<bool>)
    requires
        fields_in_range(fields@),
        ref_counts@.len() == fields@.len(),
        visited@ == traced_marks(fields@, registry@),
        ref_state@.len() == fields@.len(),
        forall|t: int| 0 <= t < fields@.len() ==> ref_state@[t] as int == discovered(fields@, registry@, t),
    ensures
        reachable@.len() == fields@.len(),
        forall|v: int|
            0 <= v < fields@.len() ==> #[trigger] reachable@[v] == rescued(fields@, ref_counts@, registry@, v),
{
    let n = fields.len();
    let ghost fs = fields@;
    let ghost rc = ref_counts@;
    let ghost reg = registry@;
    let mut reachable: Vec<bool> = Vec::new();
    let mut i: usize = 0;
    while i < n
        invariant
            i <= n,
            reachable@.len() == i,
            forall|v: int| 0 <= v < i ==> !#[trigger] reachable@[v],
        decreases n - i,
    {
        reachable.push(false);
        i = i + 1;
    }
    let mut r: usize = 0;
    while r < n
        invariant
            fs == fields@,
            rc == ref_counts@,
            n == fs.len(),
            rc.len() == n,
            fields_in_range(fs),
            visited@ == traced_marks(fs, reg),
            ref_state@.len() == n,
            forall|t: int| 0 <= t < n ==> ref_state@[t] as int == discovered(fs, reg, t),
            r <= n,
            reachable@.len() == n,
            closed(fs, reachable@),
            forall|q: int| 0 <= q < r && is_root(fs, rc, reg, q) ==> #[trigger] reachable@[q],
            forall|v: int| 0 <= v < n && #[trigger] reachable@[v] ==> rescued(fs, rc, reg, v),
        decreases n - r,
    {
        if visited[r] && ref_counts[r] != ref_state[r] {
            let ghost before = reachable@;
            mark_from(fields, &mut reachable, r);
            proof {
                assert(is_root(fs, rc, reg, r as int));
                assert forall|v: int| 0 <= v < n && #[trigger] reachable@[v] implies rescued(fs, rc, reg, v) by {
                    if !before[v] {
                        assert(reaches(fs, r as int, v));
                    }
                }
            }
        }
        r = r + 1;
    }
    proof {
        assert forall|v: int| 0 <= v < n implies #[trigger] reachable@[v] == rescued(fs, rc, reg, v) by {
            if rescued(fs, rc, reg, v) {
                let q = choose|q: int| 0 <= q < n && is_root(fs, rc, reg, q) && #[trigger] reaches(fs, q, v);
                lemma_closed_reaches(fs, reachable@, q, v);
            }
        }
    }
    reachable
}

impl Dumpster {
    /// Third pass: frees every box marked in `doomed`. The count of each
    /// surviving box drops by the fields of freed boxes that pointed at it.
    fn destroy_unreachable(&mut self, doomed: &Vec<bool>)
        requires
            old(self).values@.len() == old(self).len(),
            old(self).fields@.len() == old(self).len(),
            old(self).live@.len() == old(self).len(),
            doomed@.len() == old(self).len(),
            forall|x: int| 0 <= x < old(self).len() && #[trigger] doomed@[x] ==> old(self).live@[x],
            forall|x: int|
                0 <= x < old(self).len() && !#[trigger] old(self).live@[x] ==> old(self).destroyed@.contains(
                    AllocationId(x as usize),
                ),
            forall|x: int|
                0 <= x < old(self).len() && old(self).destroyed@.contains(AllocationId(x as usize))
                    ==> !#[trigger] old(self).live@[x],
            old(self).destroyed@.no_duplicates(),
            forall|s: int|
                0 <= s < old(self).len() && !doomed@[s] ==> #[trigger] old(self).ref_counts@[s] >= inbound_in(
                    old(self).fields@,
                    doomed@,
                    s,
                    old(self).len() as int,
                ),
            fields_in_range(old(self).fields@),
        ensures
            final(self).len() == old(self).len(),
            final(self).values@ == old(self).values@,
            final(self).handles@ == old(self).handles@,
            final(self).fields@.len() == old(self).len(),
            final(self).live@.len() == old(self).len(),
            final(self).to_collect@ == old(self).to_collect@,
            final(self).n_ref_drops == old(self).n_ref_drops,
            final(self).n_refs_living == old(self).n_refs_living,
            forall|x: int|
                0 <= x < old(self).len() && #[trigger] doomed@[x] ==> !final(self).live@[x]
                    && final(self).ref_counts@[x] == 0 && final(self).fields@[x]@.len() == 0,
            forall|x: int|
                0 <= x < old(self).len() && !#[trigger] doomed@[x] ==> final(self).live@[x] == old(self).live@[x]
                    && final(self).fields@[x] == old(self).fields@[x] && final(self).ref_counts@[x]
                    == old(self).ref_counts@[x] - inbound_in(old(self).fields@, doomed@, x, old(self).len() as int),
            final(self).destroyed@.no_duplicates(),
            forall|x: int|
                0 <= x < old(self).len() ==> (#[trigger] final(self).destroyed@.contains(AllocationId(x as usize))
                    <==> old(self).destroyed@.contains(AllocationId(x as usize)) || doomed@[x]),
            forall|j: int|
                0 <= j < final(self).destroyed@.len() ==> (#[trigger] final(self).destroyed@[j]).0
                    < old(self).len() || j < old(self).destroyed@.len() && final(self).destroyed@[j]
                    == old(self).destroyed@[j],
    {
        let n = self.ref_counts.len();
        let ghost o = *self;
        let ghost fs = self.fields@;
        let ghost d = doomed@;
        let mut x: usize = 0;
        while x < n
            invariant
                n == o.len(),
                fs == o.fields@,
                fs.len() == n,
                d == doomed@,
                fields_in_range(fs),
                x <= n,
                self.ref_counts@.len() == n,
                self.values@ == o.values@,
                self.handles@ == o.handles@,
                self.fields@.len() == n,
                self.live@.len() == n,
                self.to_collect@ == o.to_collect@,
                self.n_ref_drops == o.n_ref_drops,
                self.n_refs_living == o.n_refs_living,
                o.live@.len() == n,
                d.len() == n,
                forall|y: int| 0 <= y < n && #[trigger] d[y] ==> o.live@[y],
                forall|y: int|
                    0 <= y < n && !#[trigger] o.live@[y] ==> o.destroyed@.contains(AllocationId(y as usize)),
                forall|y: int|
                    0 <= y < n && o.destroyed@.contains(AllocationId(y as usize)) ==> !#[trigger] o.live@[y],
                forall|s: int|
                    0 <= s < n && !d[s] ==> #[trigger] o.ref_counts@[s] >= inbound_in(fs, d, s, n as int),
                forall|y: int|
                    0 <= y < x && #[trigger] d[y] ==> !self.live@[y] && self.ref_counts@[y] == 0
                        && self.fields@[y]@.len() == 0,
                forall|y: int| 0 <= y < n && !(y < x && d[y]) ==> #[trigger] self.live@[y] == o.live@[y],
                forall|y: int| 0 <= y < n && !(y < x && d[y]) ==> #[trigger] self.fields@[y] == fs[y],
                forall|y: int| 0 <= y < n && !(y < x) && #[trigger] d[y] ==> self.ref_counts@[y] == o.ref_counts@[y],
                forall|s: int|
                    0 <= s < n && !#[trigger] d[s] ==> self.ref_counts@[s] == o.ref_counts@[s] - inbound_in(
                        fs,
                        d,
                        s,
                        x as int,
                    ),
                self.destroyed@.no_duplicates(),
                forall|y: int|
                    0 <= y < n ==> (#[trigger] self.destroyed@.contains(AllocationId(y as usize))
                        <==> o.destroyed@.contains(AllocationId(y as usize)) || (y < x && d[y])),
                forall|j: int|
                    0 <= j < self.destroyed@.len() ==> (#[trigger] self.destroyed@[j]).0 < n || j
                        < o.destroyed@.len() && self.destroyed@[j] == o.destroyed@[j],
            decreases n - x,
        {
            if doomed[x] {
                let len = self.fields[x].len();
                let mut k: usize = 0;
                let ghost pre_fields = self.fields@;
                let ghost pre_live = self.live@;
                let ghost pre_destroyed = self.destroyed@;
                while k < len
                    invariant
                        self.fields@ == pre_fields,
                        self.live@ == pre_live,
                        self.destroyed@ == pre_destroyed,
                        self.values@ == o.values@,
                        self.handles@ == o.handles@,
                        self.to_collect@ == o.to_collect@,
                        self.n_ref_drops == o.n_ref_drops,
                        self.n_refs_living == o.n_refs_living,
                        self.fields@.len() == n,
                        fs.len() == n,
                        d.len() == n,
                        n == o.len(),
                        fs == o.fields@,
                        d == doomed@,
                        fields_in_range(fs),
                        x < n,
                        d[x as int],
                        len == fs[x as int]@.len(),
                        k <= len,
                        self.ref_counts@.len() == n,
                        self.fields@[x as int] == fs[x as int],
                        forall|s: int|
                            0 <= s < n && !d[s] ==> #[trigger] o.ref_counts@[s] >= inbound_in(fs, d, s, n as int),
                        forall|y: int|
                            0 <= y < n && !(y < x) && #[trigger] d[y] ==> self.ref_counts@[y] == o.ref_counts@[y],
                        forall|y: int|
                            0 <= y < x && #[trigger] d[y] ==> self.ref_counts@[y] == 0,
                        forall|s: int|
                            0 <= s < n && !#[trigger] d[s] ==> self.ref_counts@[s] == o.ref_counts@[s] - (inbound_in(
                                fs,
                                d,
                                s,
                                x as int,
                            ) + count_in(fs[x as int]@.take(k as int), s)),
                    decreases len - k,
                {
                    if let Some(c) = self.fields[x][k] {
                        proof {
                            assert(self.fields@[x as int]@ == fs[x as int]@);
                            assert(fs[x as int]@[k as int] == Some(c));
                            assert(fs[x as int]@[k as int].is_some());
                            assert(c.0 < n);
                            assert(doomed@.len() == n);
                        }
                        if !doomed[c.0] {
                            proof {
                                let ci = c.0 as int;
                                lemma_count_take(fs[x as int]@, k as int, ci);
                                lemma_count_take_le(fs[x as int]@, k + 1, ci);
                                lemma_inbound_prefix(fs, d, ci, x + 1, n as int);
                            }
                            let v = self.ref_counts[c.0] - 1;
                            self.ref_counts.set(c.0, v);
                        }
                    }
                    proof {
                        assert forall|s: int| 0 <= s < n && !#[trigger] d[s] implies self.ref_counts@[s]
                            == o.ref_counts@[s] - (inbound_in(fs, d, s, x as int) + count_in(
                            fs[x as int]@.take(k + 1),
                            s,
                        )) by {
                            lemma_count_take(fs[x as int]@, k as int, s);
                        }
                    }
                    k = k + 1;
                }
                proof {
                    assert(fs[x as int]@.take(len as int) =~= fs[x as int]@);
                    assert(o.live@[x as int]);
                    assert(!o.destroyed@.contains(AllocationId(x)));
                    assert(self.destroyed@.contains(AllocationId(x)) <==> o.destroyed@.contains(AllocationId(x)) || (x < x && d[x as int]));
                    assert(!self.destroyed@.contains(AllocationId(x)));
                }
                let ghost f1 = self.fields@;
                let ghost l1 = self.live@;
                self.ref_counts.set(x, 0);
                self.fields.set(x, Vec::new());
                self.live.set(x, false);
                proof {
                    assert forall|y: int| 0 <= y < n && !(y < x + 1 && d[y]) implies #[trigger] self.live@[y] == o.live@[y] by {
                        assert(self.live@[y] == l1[y]);
                    }
                    assert forall|y: int| 0 <= y < n && !(y < x + 1 && d[y]) implies #[trigger] self.fields@[y] == fs[y] by {
                        assert(self.fields@[y] == f1[y]);
                    }
                }
                let ghost dold = self.destroyed@;
                self.destroyed.push(AllocationId(x));
                proof {
                    assert forall|y: int|
                        0 <= y < n implies (#[trigger] self.destroyed@.contains(AllocationId(y as usize))
                            <==> o.destroyed@.contains(AllocationId(y as usize)) || (y < x + 1 && d[y])) by {
                        if y == x {
                            assert(self.destroyed@[dold.len() as int] == AllocationId(x));
                        } else if dold.contains(AllocationId(y as usize)) {
                            let j = choose|j: int| 0 <= j < dold.len() && dold[j] == AllocationId(y as usize);
                            assert(self.destroyed@[j] == AllocationId(y as usize));
                        } else if self.destroyed@.contains(AllocationId(y as usize)) {
                            let j = choose|j: int|
                                0 <= j < self.destroyed@.len() && self.destroyed@[j] == AllocationId(y as usize);
                            if j < dold.len() {
                                assert(dold[j] == AllocationId(y as usize));
                            }
                        }
                    }
                }
            }
            x = x + 1;
        }
    }
}

/// The counts are honest: no box has more fields pointing at it than its
/// strong count, and a freed box has a count of zero.
pub open spec fn counts_honest(fs: Fields, rc: Seq<usize>, live: Seq<bool>) -> bool {
    &&& rc.len() == fs.len()
    &&& live.len() == fs.len()
    &&& forall|t: int| 0 <= t < fs.len() ==> rc[t] >= #[trigger] inbound(fs, t)
    &&& forall|x: int| 0 <= x < fs.len() && !#[trigger] live[x] ==> rc[x] == 0
}

/// A field of any box points at a live box whose count is positive.
pub proof fn lemma_points_live(fs: Fields, rc: Seq<usize>, live: Seq<bool>, x: int, k: int, c: int)
    requires
        counts_honest(fs, rc, live),
        0 <= x < fs.len(),
        0 <= k < fs[x]@.len(),
        0 <= c < fs.len(),
        points_to(fs[x]@[k], c),
    ensures
        live[c],
        rc[c] >= 1,
{
    lemma_count_pos(fs[x]@, k, c);
    lemma_inbound_has(fs, all_of(fs.len() as int), c, x, fs.len() as int);
    assert(inbound(fs, c) >= 1);
}

proof fn lemma_walk_live(fs: Fields, rc: Seq<usize>, live: Seq<bool>, p: Seq<int>, i: int)
    requires
        counts_honest(fs, rc, live),
        fields_in_range(fs),
        is_path(fs, p),
        0 <= p[0] < fs.len(),
        live[p[0]],
        0 <= i < p.len(),
    ensures
        0 <= p[i] < fs.len(),
        live[p[i]],
    decreases i,
{
    if i > 0 {
        lemma_walk_live(fs, rc, live, p, i - 1);
        assert(edge(fs, p[i - 1], p[i]));
        let k = choose|k: int| 0 <= k < fs[p[i - 1]]@.len() && points_to(#[trigger] fs[p[i - 1]]@[k], p[i]);
        assert(fs[p[i - 1]]@[k].is_some());
        lemma_points_live(fs, rc, live, p[i - 1], k, p[i]);
    }
}

/// A box reached from a live box is live.
pub proof fn lemma_reach_live(fs: Fields, rc: Seq<usize>, live: Seq<bool>, a: int, v: int)
    requires
        counts_honest(fs, rc, live),
        fields_in_range(fs),
        0 <= a < fs.len(),
        live[a],
        reaches(fs, a, v),
    ensures
        0 <= v < fs.len(),
        live[v],
{
    let p = choose|p: Seq<int>| #[trigger] is_path(fs, p) && p[0] == a && p.last() == v;
    lemma_walk_live(fs, rc, live, p, p.len() - 1);
}

/// After a collection no survivor points at a freed box: every field pointing
/// at a doomed box lies in a doomed box.
pub proof fn lemma_no_survivor_points_doomed(
    fs: Fields,
    rc: Seq<usize>,
    live: Seq<bool>,
    reg: Seq<AllocationId>,
    x: int,
    k: int,
    t: int,
)
    requires
        counts_honest(fs, rc, live),
        fields_in_range(fs),
        0 <= x < fs.len(),
        0 <= t < fs.len(),
        0 <= k < fs[x]@.len(),
        points_to(fs[x]@[k], t),
        doomed(fs, rc, reg, t),
    ensures
        doomed(fs, rc, reg, x),
{
    let n = fs.len() as int;
    let tm = traced_marks(fs, reg);
    if traced(fs, reg, x) {
        if rescued(fs, rc, reg, x) {
            let r = choose|r: int| 0 <= r < n && is_root(fs, rc, reg, r) && #[trigger] reaches(fs, r, x);
            lemma_reach_step(fs, r, x, t, k);
            assert(rescued(fs, rc, reg, t));
        }
    } else {
        let un = Seq::new(n as nat, |v: int| !traced(fs, reg, v));
        lemma_inbound_split(fs, tm, un, all_of(n), t, n);
        lemma_count_pos(fs[x]@, k, t);
        lemma_inbound_has(fs, un, t, x, n);
        assert(inbound(fs, t) > inbound_in(fs, tm, t, n));
        assert(rc[t] as int != discovered(fs, reg, t));
        assert(is_root(fs, rc, reg, t));
        lemma_reach_self(fs, t);
        assert(rescued(fs, rc, reg, t));
    }
}

impl Dumpster {
    /// Collects every registered allocation that is not reachable from outside
    /// the boxes traced from the registry, and every box that only such
    /// allocations hold.
    pub fn collect_all(&mut self)
        requires
            old(self).well_formed(),
        ensures
            final(self).well_formed(),
            final(self).len() == old(self).len(),
            final(self).to_collect@.len() == 0,
            final(self).n_ref_drops == 0,
            final(self).n_refs_living == old(self).n_refs_living,
            final(self).values@ == old(self).values@,
            final(self).handles@ == old(self).handles@,
            forall|x: int|
                0 <= x < old(self).len() ==> #[trigger] final(self).live@[x] == (old(self).live@[x] && !doomed(
                    old(self).fields@,
                    old(self).ref_counts@,
                    old(self).to_collect@,
                    x,
                )),
            forall|x: int|
                0 <= x < old(self).len() && !doomed(old(self).fields@, old(self).ref_counts@, old(self).to_collect@, x)
                    ==> #[trigger] final(self).fields@[x] == old(self).fields@[x] && final(self).ref_counts@[x]
                    == old(self).ref_counts@[x] - inbound_in(
                    old(self).fields@,
                    doomed_marks(old(self).fields@, old(self).ref_counts@, old(self).to_collect@),
                    x,
                    old(self).len() as int,
                ),
    {
        let ghost o = *self;
        let ghost fs = self.fields@;
        let ghost rc = self.ref_counts@;
        let ghost reg = self.to_collect@;
        let ghost n = self.len() as int;
        self.n_ref_drops = 0;
        let (visited, ref_state) = build_ref_graph(&self.fields, &self.to_collect);
        let reachable = sweep(&self.fields, &self.ref_counts, &visited, &ref_state, Ghost(self.to_collect@));
        let total = self.ref_counts.len();
        let mut condemned: Vec<bool> = Vec::new();
        let mut x: usize = 0;
        while x < total
            invariant
                total == n,
                fs.len() == n,
                visited@ == traced_marks(fs, reg),
                reachable@.len() == n,
                forall|v: int| 0 <= v < n ==> #[trigger] reachable@[v] == rescued(fs, rc, reg, v),
                x <= n,
                condemned@.len() == x,
                forall|v: int| 0 <= v < x ==> #[trigger] condemned@[v] == doomed(fs, rc, reg, v),
            decreases total - x,
        {
            condemned.push(visited[x] && !reachable[x]);
            x = x + 1;
        }
        let ghost dm = doomed_marks(fs, rc, reg);
        proof {
            assert(condemned@ =~= dm);
            assert(counts_honest(fs, rc, o.live@));
            assert forall|v: int| 0 <= v < n && #[trigger] dm[v] implies o.live@[v] by {
                let j = choose|j: int| 0 <= j < reg.len() && #[trigger] reaches(fs, reg[j].0 as int, v);
                lemma_reach_live(fs, rc, o.live@, reg[j].0 as int, v);
            }
            let sv = Seq::new(n as nat, |v: int| !dm[v]);
            assert forall|s: int| 0 <= s < n && !dm[s] implies #[trigger] rc[s] >= inbound_in(fs, dm, s, n) by {
                lemma_inbound_split(fs, dm, sv, all_of(n), s, n);
                assert(rc[s] >= inbound(fs, s));
            }
            assert forall|v: int| 0 <= v < n && o.destroyed@.contains(AllocationId(v as usize))
                implies !#[trigger] o.live@[v] by {}
        }
        self.destroy_unreachable(&condemned);
        self.to_collect = Vec::new();
        proof {
            lemma_collect_keeps_counts(o, *self, dm);
            assert forall|x: int| 0 <= x < n && !doomed(fs, rc, reg, x) implies #[trigger] self.fields@[x] == fs[x]
                && self.ref_counts@[x] == rc[x] - inbound_in(fs, dm, x, n) by {
                assert(!dm[x]);
            }
            assert forall|x: int| 0 <= x < n implies #[trigger] self.live@[x] == (o.live@[x] && !doomed(fs, rc, reg, x)) by {
                if dm[x] {} else {}
            }
        }
    }
}

/// What the third pass leaves behind is well formed again: the counts stay
/// honest and every survivor keeps a positive count.
#[verifier::rlimit(80)]
proof fn lemma_collect_keeps_counts(o: Dumpster, f: Dumpster, dm: Seq<bool>)
    requires
        o.well_formed(),
        dm == doomed_marks(o.fields@, o.ref_counts@, o.to_collect@),
        f.len() == o.len(),
        f.values@ == o.values@,
        f.handles@ == o.handles@,
        f.fields@.len() == o.len(),
        f.live@.len() == o.len(),
        f.to_collect@.len() == 0,
        forall|x: int|
            0 <= x < o.len() && #[trigger] dm[x] ==> !f.live@[x] && f.ref_counts@[x] == 0 && f.fields@[x]@.len()
                == 0,
        forall|x: int|
            0 <= x < o.len() && !#[trigger] dm[x] ==> f.live@[x] == o.live@[x] && f.fields@[x] == o.fields@[x]
                && f.ref_counts@[x] == o.ref_counts@[x] - inbound_in(o.fields@, dm, x, o.len() as int),
        f.destroyed@.no_duplicates(),
        forall|x: int|
            0 <= x < o.len() ==> (#[trigger] f.destroyed@.contains(AllocationId(x as usize))
                <==> o.destroyed@.contains(AllocationId(x as usize)) || dm[x]),
        forall|j: int|
            0 <= j < f.destroyed@.len() ==> (#[trigger] f.destroyed@[j]).0 < o.len() || j < o.destroyed@.len()
                && f.destroyed@[j] == o.destroyed@[j],
    ensures
        f.well_formed(),
{
    let fs = o.fields@;
    let rc = o.ref_counts@;
    let reg = o.to_collect@;
    let n = o.len() as int;
    let sv = Seq::new(n as nat, |v: int| !dm[v]);
    assert(counts_honest(fs, rc, o.live@));
    assert forall|x: int, k: int|
        0 <= x < n && 0 <= k < f.fields@[x]@.len() && (#[trigger] f.fields@[x]@[k]).is_some()
            implies f.fields@[x]@[k].unwrap().0 < n by {
        if !dm[x] {
            assert(f.fields@[x] == fs[x]);
            assert(fs[x]@[k].is_some());
        }
    }
    assert(fields_in_range(f.fields@));
    // The new inbound count of each box is what the survivors' fields held.
    assert forall|t: int| 0 <= t < n implies #[trigger] inbound(f.fields@, t) == inbound_in(fs, sv, t, n) by {
        lemma_inbound_split(f.fields@, dm, sv, all_of(n), t, n);
        assert forall|x: int, k: int|
            0 <= x < n && dm[x] && 0 <= k < f.fields@[x]@.len() implies !points_to(#[trigger] f.fields@[x]@[k], t) by {}
        lemma_inbound_none(f.fields@, dm, t, n);
        lemma_inbound_ext(f.fields@, sv, fs, sv, t, n);
    }
    assert forall|t: int| 0 <= t < n implies f.ref_counts@[t] == #[trigger] inbound(f.fields@, t) + f.handles@[t] by {
        lemma_inbound_split(fs, dm, sv, all_of(n), t, n);
        assert(rc[t] == inbound(fs, t) + o.handles@[t]);
        if dm[t] {
            lemma_doomed_unheld(o, t);
            assert forall|x: int, k: int|
                0 <= x < n && sv[x] && 0 <= k < fs[x]@.len() implies !points_to(#[trigger] fs[x]@[k], t) by {
                if points_to(fs[x]@[k], t) {
                    lemma_no_survivor_points_doomed(fs, rc, o.live@, reg, x, k, t);
                }
            }
            lemma_inbound_none(fs, sv, t, n);
        }
    }
    assert forall|t: int| 0 <= t < n implies f.ref_counts@[t] >= #[trigger] inbound(f.fields@, t) by {
        assert(f.ref_counts@[t] == inbound(f.fields@, t) + f.handles@[t]);
    }
    assert forall|s: int| 0 <= s < n && #[trigger] f.live@[s] implies f.ref_counts@[s] > 0 by {
        lemma_survivor_count_positive(o, f, dm, s);
    }
    assert forall|x: int| 0 <= x < n && !#[trigger] f.live@[x] implies f.ref_counts@[x] == 0
        && f.fields@[x]@.len() == 0 by {
        if !dm[x] {
            assert(!o.live@[x]);
            assert(o.ref_counts@[x] == 0);
            lemma_inbound_split(fs, dm, sv, all_of(n), x, n);
            assert(o.ref_counts@[x] >= inbound(fs, x));
        }
    }
    assert forall|x: int| 0 <= x < n implies (!#[trigger] f.live@[x] <==> f.destroyed@.contains(
        AllocationId(x as usize),
    )) by {
        if !dm[x] {
            assert(!o.live@[x] <==> o.destroyed@.contains(AllocationId(x as usize)));
        }
    }
    assert forall|j: int| 0 <= j < f.destroyed@.len() implies (#[trigger] f.destroyed@[j]).0 < n by {
        if j < o.destroyed@.len() && f.destroyed@[j] == o.destroyed@[j] {
            assert(o.destroyed@[j].0 < n);
        }
    }
    assert(f.to_collect@.no_duplicates());
}

/// A box that survives a collection keeps a positive count.
proof fn lemma_doomed_unheld(o: Dumpster, t: int)
    requires
        o.well_formed(),
        0 <= t < o.len(),
        doomed(o.fields@, o.ref_counts@, o.to_collect@, t),
    ensures
        o.handles@[t] == 0,
{
    let fs = o.fields@;
    let n = o.len() as int;
    let tm = traced_marks(fs, o.to_collect@);
    if o.handles@[t] > 0 {
        let un = Seq::new(n as nat, |v: int| !tm[v]);
        lemma_inbound_split(fs, tm, un, all_of(n), t, n);
        assert(o.ref_counts@[t] == inbound(fs, t) + o.handles@[t]);
        assert(inbound_in(fs, tm, t, n) < o.ref_counts@[t]);
        assert(o.ref_counts@[t] as int != discovered(fs, o.to_collect@, t));
        lemma_reach_self(fs, t);
        assert(rescued(fs, o.ref_counts@, o.to_collect@, t));
    }
}

proof fn lemma_survivor_count_positive(o: Dumpster, f: Dumpster, dm: Seq<bool>, s: int)
    requires
        o.well_formed(),
        dm == doomed_marks(o.fields@, o.ref_counts@, o.to_collect@),
        f.fields@.len() == o.len(),
        f.ref_counts@.len() == o.len(),
        f.live@.len() == o.len(),
        0 <= s < o.len(),
        f.live@[s],
        forall|x: int|
            0 <= x < o.len() && #[trigger] dm[x] ==> !f.live@[x],
        forall|x: int|
            0 <= x < o.len() && !#[trigger] dm[x] ==> f.live@[x] == o.live@[x] && f.fields@[x] == o.fields@[x]
                && f.ref_counts@[x] == o.ref_counts@[x] - inbound_in(o.fields@, dm, x, o.len() as int),
        forall|t: int| 0 <= t < o.len() ==> f.ref_counts@[t] >= #[trigger] inbound(f.fields@, t),
    ensures
        f.ref_counts@[s] > 0,
{
    let fs = o.fields@;
    let rc = o.ref_counts@;
    let reg = o.to_collect@;
    let n = o.len() as int;
    let tm = traced_marks(fs, reg);
    assert(!dm[s]);
    assert(o.live@[s]);
    if !traced(fs, reg, s) {
        assert forall|x: int, k: int|
            0 <= x < n && dm[x] && 0 <= k < fs[x]@.len() implies !points_to(#[trigger] fs[x]@[k], s) by {
            if points_to(fs[x]@[k], s) {
                let j = choose|j: int| 0 <= j < reg.len() && #[trigger] reaches(fs, reg[j].0 as int, x);
                lemma_reach_step(fs, reg[j].0 as int, x, s, k);
            }
        }
        lemma_inbound_none(fs, dm, s, n);
    } else {
        assert(rescued(fs, rc, reg, s));
        let r = choose|r: int| 0 <= r < n && is_root(fs, rc, reg, r) && #[trigger] reaches(fs, r, s);
        let p = choose|p: Seq<int>| #[trigger] is_path(fs, p) && p[0] == r && p.last() == s;
        if p.len() == 1 {
            let rest = Seq::new(n as nat, |v: int| tm[v] && !dm[v]);
            lemma_inbound_split(fs, dm, rest, tm, s, n);
            let un = Seq::new(n as nat, |v: int| !tm[v]);
            lemma_inbound_split(fs, tm, un, all_of(n), s, n);
            assert(rc[s] >= inbound(fs, s));
        } else {
            let m = p[p.len() - 2];
            lemma_walk_prefix(fs, p, p.len() - 1);
            assert(p.take(p.len() - 1).last() == m);
            assert(reaches(fs, r, m));
            assert(rescued(fs, rc, reg, m));
            assert(edge(fs, m, s));
            let k = choose|k: int| 0 <= k < fs[m]@.len() && points_to(#[trigger] fs[m]@[k], s);
            assert(!dm[m]);
            assert(f.fields@[m] == fs[m]);
            lemma_count_pos(f.fields@[m]@, k, s);
            lemma_inbound_has(f.fields@, all_of(n), s, m, n);
            assert(inbound(f.fields@, s) >= 1);
        }
    }
}

impl Gc {
    /// The allocation this handle points at.
    pub fn id(&self) -> (r: AllocationId)
        ensures
            r == self.id,
    {
        self.id
    }
}

impl Dumpster {
    /// An empty heap with an empty registry.
    pub fn new() -> (r: Dumpster)
        ensures
            r.well_formed(),
            r.len() == 0,
            r.to_collect@.len() == 0,
            r.destroyed@.len() == 0,
            r.n_ref_drops == 0,
            r.n_refs_living == 0,
    {
        let r = Dumpster {
            ref_counts: Vec::new(),
            values: Vec::new(),
            fields: Vec::new(),
            live: Vec::new(),
            to_collect: Vec::new(),
            destroyed: Vec::new(),
            n_ref_drops: 0,
            n_refs_living: 0,
            handles: Ghost(Seq::empty()),
        };
        proof {
            assert(r.destroyed@.no_duplicates());
        }
        r
    }

    /// Allocates a box holding `value` and no `Gc` fields, with a count of one.
    pub fn allocate(&mut self, value: u64) -> (gc: Gc)
        requires
            old(self).well_formed(),
        ensures
            final(self).well_formed(),
            gc.id.0 == old(self).len(),
            final(self).len() == old(self).len() + 1,
            final(self).ref_counts@ == old(self).ref_counts@.push(1),
            final(self).values@ == old(self).values@.push(value),
            final(self).live@ == old(self).live@.push(true),
            final(self).handles@ == old(self).handles@.push(1),
            final(self).fields@.len() == old(self).len() + 1,
            final(self).fields@[gc.id.0 as int]@.len() == 0,
            forall|x: int| 0 <= x < old(self).len() ==> #[trigger] final(self).fields@[x] == old(self).fields@[x],
            final(self).to_collect@ == old(self).to_collect@,
            final(self).destroyed@ == old(self).destroyed@,
            final(self).n_ref_drops == old(self).n_ref_drops,
            final(self).n_refs_living == old(self).n_refs_living.saturating_add(1),
    {
        let ghost o = *self;
        let id = self.ref_counts.len();
        let empty: Vec<Option<AllocationId>> = Vec::new();
        proof {
            let fs = o.fields@;
            assert forall|t: int| 0 <= t <= id implies #[trigger] inbound(fs.push(empty), t) == inbound(fs, t) by {
                lemma_inbound_push(fs, empty, t);
            }
            assert forall|x: int, k: int|
                0 <= x < id && 0 <= k < fs[x]@.len() implies !points_to(#[trigger] fs[x]@[k], id as int) by {
                if fs[x]@[k].is_some() {
                    assert(fs[x]@[k].unwrap().0 < id);
                }
            }
            lemma_inbound_none(fs, all_of(id as int), id as int, id as int);
        }
        self.ref_counts.push(1);
        self.values.push(value);
        self.fields.push(empty);
        self.live.push(true);
        self.handles = Ghost(self.handles@.push(1));
        self.n_refs_living = self.n_refs_living.saturating_add(1);
        proof {
            let f = *self;
            assert(f.fields@ == o.fields@.push(empty));
            assert forall|x: int, k: int|
                0 <= x < f.len() && 0 <= k < f.fields@[x]@.len() && (#[trigger] f.fields@[x]@[k]).is_some()
                    implies f.fields@[x]@[k].unwrap().0 < f.len() by {
                assert(x < id);
                assert(o.fields@[x]@[k].is_some());
            }
            assert forall|t: int| 0 <= t < f.len() implies f.ref_counts@[t] == #[trigger] inbound(f.fields@, t) + f.handles@[t] by {
                if t < id {
                    assert(o.ref_counts@[t] == inbound(o.fields@, t) + o.handles@[t]);
                }
            }
            assert forall|x: int|
                0 <= x < f.len() implies (!#[trigger] f.live@[x] <==> f.destroyed@.contains(AllocationId(x as usize))) by {
                if x == id {
                    if f.destroyed@.contains(AllocationId(x as usize)) {
                        let j = choose|j: int| 0 <= j < f.destroyed@.len() && f.destroyed@[j] == AllocationId(x as usize);
                        assert(o.destroyed@[j].0 < id);
                    }
                }
            }
        }
        Gc { id: AllocationId(id) }
    }

    /// Another strong handle to the box of `gc`: its count goes up by one.
    pub fn clone_gc(&mut self, gc: &Gc) -> (r: Gc)
        requires
            old(self).well_formed(),
            gc.id.0 < old(self).len(),
            old(self).live@[gc.id.0 as int],
            old(self).ref_counts@[gc.id.0 as int] < usize::MAX,
        ensures
            final(self).well_formed(),
            r.id == gc.id,
            final(self).handles@ == old(self).handles@.update(gc.id.0 as int, old(self).handles@[gc.id.0 as int] + 1),
            final(self).ref_counts@ == old(self).ref_counts@.update(
                gc.id.0 as int,
                (old(self).ref_counts@[gc.id.0 as int] + 1) as usize,
            ),
            final(self).fields@ == old(self).fields@,
            final(self).live@ == old(self).live@,
            final(self).values@ == old(self).values@,
            final(self).to_collect@ == old(self).to_collect@,
            final(self).destroyed@ == old(self).destroyed@,
            final(self).n_ref_drops == old(self).n_ref_drops,
            final(self).n_refs_living == old(self).n_refs_living.saturating_add(1),
    {
        let i = gc.id.0;
        let v = self.ref_counts[i] + 1;
        self.ref_counts.set(i, v);
        self.handles = Ghost(self.handles@.update(i as int, self.handles@[i as int] + 1));
        self.n_refs_living = self.n_refs_living.saturating_add(1);
        Gc { id: gc.id }
    }

    /// Stores a clone of `child` in a new `Gc` field of the box of `owner`.
    pub fn push_field(&mut self, owner: &Gc, child: &Gc)
        requires
            old(self).well_formed(),
            owner.id.0 < old(self).len(),
            old(self).live@[owner.id.0 as int],
            child.id.0 < old(self).len(),
            old(self).live@[child.id.0 as int],
            old(self).ref_counts@[child.id.0 as int] < usize::MAX,
        ensures
            final(self).well_formed(),
            final(self).len() == old(self).len(),
            final(self).ref_counts@ == old(self).ref_counts@.update(
                child.id.0 as int,
                (old(self).ref_counts@[child.id.0 as int] + 1) as usize,
            ),
            final(self).fields@.len() == old(self).len(),
            final(self).fields@[owner.id.0 as int]@ == old(self).fields@[owner.id.0 as int]@.push(Some(child.id)),
            forall|x: int|
                0 <= x < old(self).len() && x != owner.id.0 ==> #[trigger] final(self).fields@[x] == old(self).fields@[x],
            final(self).live@ == old(self).live@,
            final(self).handles@ == old(self).handles@,
            final(self).values@ == old(self).values@,
            final(self).to_collect@ == old(self).to_collect@,
            final(self).destroyed@ == old(self).destroyed@,
            final(self).n_ref_drops == old(self).n_ref_drops,
            final(self).n_refs_living == old(self).n_refs_living.saturating_add(1),
    {
        let ghost o = *self;
        let o_id = owner.id.0;
        let c = child.id.0;
        let mut fv: Vec<Option<AllocationId>> = Vec::new();
        let len = self.fields[o_id].len();
        let mut k: usize = 0;
        while k < len
            invariant
                len == o.fields@[o_id as int]@.len(),
                self.fields@ == o.fields@,
                o_id < o.fields@.len(),
                k <= len,
                fv@ == o.fields@[o_id as int]@.take(k as int),
            decreases len - k,
        {
            fv.push(self.fields[o_id][k]);
            k = k + 1;
            proof {
                assert(fv@ =~= o.fields@[o_id as int]@.take(k as int));
            }
        }
        proof {
            assert(fv@ =~= o.fields@[o_id as int]@);
        }
        let ghost fv0 = fv;
        fv.push(Some(AllocationId(c)));
        let v = self.ref_counts[c] + 1;
        self.ref_counts.set(c, v);
        self.fields.set(o_id, fv);
        self.n_refs_living = self.n_refs_living.saturating_add(1);
        proof {
            let f = *self;
            let n = o.len() as int;
            assert forall|x: int, k: int|
                0 <= x < n && 0 <= k < f.fields@[x]@.len() && (#[trigger] f.fields@[x]@[k]).is_some()
                    implies f.fields@[x]@[k].unwrap().0 < n by {
                if x != o_id {
                    assert(o.fields@[x]@[k].is_some());
                } else if k < fv0@.len() {
                    assert(f.fields@[x]@[k] == o.fields@[x]@[k]);
                    assert(o.fields@[x]@[k].is_some());
                }
            }
            assert forall|t: int| 0 <= t < n implies f.ref_counts@[t] == #[trigger] inbound(f.fields@, t) + f.handles@[t] by {
                lemma_inbound_update(o.fields@, all_of(n), t, n, o_id as int, fv);
                lemma_count_push(fv0@, Some(AllocationId(c)), t);
                assert(o.ref_counts@[t] == inbound(o.fields@, t) + o.handles@[t]);
                assert(f.fields@ == o.fields@.update(o_id as int, fv));
            }
        }
    }
}

impl Dumpster {
    /// The registry holds distinct, live boxes.
    pub open spec fn registry_ok(&self) -> bool {
        &&& forall|j: int|
            0 <= j < self.to_collect@.len() ==> (#[trigger] self.to_collect@[j]).0 < self.live@.len()
                && self.live@[self.to_collect@[j].0 as int]
        &&& self.to_collect@.no_duplicates()
    }

    /// The heap is well formed but for the references in `pending`, which have
    /// been taken out of their fields or handles and not yet released.
    pub open spec fn cascade_ok(&self, pending: Seq<Option<AllocationId>>) -> bool {
        let n = self.ref_counts@.len();
        &&& self.values@.len() == n
        &&& self.fields@.len() == n
        &&& self.live@.len() == n
        &&& self.handles@.len() == n
        &&& fields_in_range(self.fields@)
        &&& forall|x: int|
            0 <= x < n && !#[trigger] self.live@[x] ==> self.ref_counts@[x] == 0 && self.fields@[x]@.len() == 0
        &&& forall|x: int| 0 <= x < n && #[trigger] self.live@[x] ==> self.ref_counts@[x] > 0
        &&& forall|t: int|
            0 <= t < n ==> self.ref_counts@[t] == #[trigger] inbound(self.fields@, t) + self.handles@[t]
                + count_in(pending, t)
        &&& forall|j: int| 0 <= j < pending.len() && (#[trigger] pending[j]).is_some() ==> pending[j].unwrap().0 < n
        &&& self.registry_ok()
        &&& self.destroyed@.no_duplicates()
        &&& forall|j: int| 0 <= j < self.destroyed@.len() ==> (#[trigger] self.destroyed@[j]).0 < n
        &&& forall|x: int|
            0 <= x < n ==> (!#[trigger] self.live@[x] <==> self.destroyed@.contains(AllocationId(x as usize)))
    }

    /// Registers `id` as possibly part of a dead cycle; registering twice is
    /// the same as once.
    #[verifier::loop_isolation(false)]
    pub fn mark_dirty(&mut self, id: AllocationId)
        requires
            old(self).registry_ok(),
            id.0 < old(self).live@.len(),
            old(self).live@[id.0 as int],
        ensures
            final(self).registry_ok(),
            forall|a: AllocationId|
                #[trigger] final(self).to_collect@.contains(a) <==> old(self).to_collect@.contains(a) || a == id,
            final(self).ref_counts@ == old(self).ref_counts@,
            final(self).values@ == old(self).values@,
            final(self).fields@ == old(self).fields@,
            final(self).live@ == old(self).live@,
            final(self).handles@ == old(self).handles@,
            final(self).destroyed@ == old(self).destroyed@,
            final(self).n_ref_drops == old(self).n_ref_drops,
            final(self).n_refs_living == old(self).n_refs_living,
    {
        let mut j: usize = 0;
        let len = self.to_collect.len();
        while j < len
            invariant
                len == self.to_collect@.len(),
                j <= len,
                forall|jj: int| 0 <= jj < j ==> self.to_collect@[jj] != id,
            decreases len - j,
        {
            if self.to_collect[j] == id {
                proof {
                    assert(self.to_collect@[j as int] == id);
                }
                return;
            }
            j = j + 1;
        }
        let ghost before = self.to_collect@;
        self.to_collect.push(id);
        proof {
            assert(!before.contains(id));
            assert forall|a: AllocationId| #[trigger] self.to_collect@.contains(a) <==> before.contains(a) || a == id by {
                if self.to_collect@.contains(a) && a != id {
                    let k = choose|k: int| 0 <= k < self.to_collect@.len() && self.to_collect@[k] == a;
                    assert(before[k] == a);
                }
                if before.contains(a) {
                    let k = choose|k: int| 0 <= k < before.len() && before[k] == a;
                    assert(self.to_collect@[k] == a);
                }
                if a == id {
                    assert(self.to_collect@[before.len() as int] == a);
                }
            }
        }
    }

    /// Removes `id` from the registry: its box is about to be freed.
    pub fn mark_cleaned(&mut self, id: AllocationId)
        requires
            old(self).registry_ok(),
        ensures
            final(self).registry_ok(),
            forall|a: AllocationId|
                #[trigger] final(self).to_collect@.contains(a) <==> old(self).to_collect@.contains(a) && a != id,
            final(self).ref_counts@ == old(self).ref_counts@,
            final(self).values@ == old(self).values@,
            final(self).fields@ == old(self).fields@,
            final(self).live@ == old(self).live@,
            final(self).handles@ == old(self).handles@,
            final(self).destroyed@ == old(self).destroyed@,
            final(self).n_ref_drops == old(self).n_ref_drops,
            final(self).n_refs_living == old(self).n_refs_living,
    {
        let len = self.to_collect.len();
        let mut j: usize = 0;
        while j < len && self.to_collect[j] != id
            invariant
                len == self.to_collect@.len(),
                j <= len,
                forall|jj: int| 0 <= jj < j ==> self.to_collect@[jj] != id,
            decreases len - j,
        {
            j = j + 1;
        }
        if j < len {
            let ghost before = self.to_collect@;
            self.to_collect.remove(j);
            proof {
                let after = self.to_collect@;
                assert(before[j as int] == id);
                assert forall|k: int| 0 <= k < after.len() implies #[trigger] after[k] == before[if k < j {
                    k
                } else {
                    k + 1
                }] by {}
                assert forall|a: AllocationId| #[trigger] after.contains(a) <==> before.contains(a) && a != id by {
                    if after.contains(a) {
                        let k = choose|k: int| 0 <= k < after.len() && after[k] == a;
                        let kk = if k < j { k } else { k + 1 };
                        assert(after[k] == before[kk]);
                        assert(before[kk] == a);
                        assert(kk != j);
                        assert(before[kk] != before[j as int]);
                    }
                    if before.contains(a) && a != id {
                        let k = choose|k: int| 0 <= k < before.len() && before[k] == a;
                        assert(k != j);
                        if k < j {
                            assert(after[k] == a);
                        } else {
                            assert(after[k - 1] == before[k]);
                            assert(after[k - 1] == a);
                        }
                    }
                }
                assert forall|k1: int, k2: int| 0 <= k1 < after.len() && 0 <= k2 < after.len() && k1 != k2
                    implies after[k1] != after[k2] by {
                    let a1 = if k1 < j { k1 } else { k1 + 1 };
                    let a2 = if k2 < j { k2 } else { k2 + 1 };
                    assert(after[k1] == before[a1]);
                    assert(after[k2] == before[a2]);
                }
                assert forall|k: int| 0 <= k < after.len() implies (#[trigger] after[k]).0 < self.live@.len()
                    && self.live@[after[k].0 as int] by {
                    let kk = if k < j { k } else { k + 1 };
                    assert(after[k] == before[kk]);
                }
            }
        } else {
            proof {
                assert forall|a: AllocationId| #[trigger] self.to_collect@.contains(a) implies a != id by {
                    let k = choose|k: int| 0 <= k < self.to_collect@.len() && self.to_collect@[k] == a;
                    assert(self.to_collect@[k] != id);
                }
            }
        }
    }
}

impl Dumpster {
    /// Frees box `c`, whose last reference was just released: its payload is
    /// destroyed and the references its fields held join `pending`.
    fn free_box(&mut self, c: usize, pending: &mut Vec<Option<AllocationId>>)
        requires
            old(self).cascade_ok(old(pending)@.push(Some(AllocationId(c)))),
            c < old(self).len(),
            old(self).ref_counts@[c as int] == 1,
        ensures
            final(self).cascade_ok(final(pending)@),
            final(self).len() == old(self).len(),
            !final(self).live@[c as int],
            final(self).values@ == old(self).values@,
            final(self).handles@ == old(self).handles@,
            final(self).n_ref_drops == old(self).n_ref_drops,
            final(self).n_refs_living == old(self).n_refs_living,
            num_marked(final(self).live@) < num_marked(old(self).live@),
            forall|x: int| 0 <= x < old(self).len() && !old(self).live@[x] ==> !#[trigger] final(self).live@[x],
            forall|x: int|
                0 <= x < old(self).len() && #[trigger] final(self).live@[x] ==> final(self).fields@[x]
                    == old(self).fields@[x] && old(self).live@[x],
    {
        let ghost o = *self;
        let ghost queued = pending@;
        let ghost n = o.len() as int;
        let ghost fs = o.fields@;
        let ghost ci = c as int;
        let total = self.ref_counts.len();
        proof {
            assert(n == total);
            assert(o.live@[ci]);
            lemma_count_push(queued, Some(AllocationId(c)), ci);
            lemma_inbound_has(fs, all_of(n), ci, ci, n);
        }
        self.mark_cleaned(AllocationId(c));
        proof {
            assert forall|j: int| 0 <= j < queued.len() && (#[trigger] queued[j]).is_some() implies queued[j].unwrap().0 < n by {
                assert(queued.push(Some(AllocationId(c)))[j] == queued[j]);
            }
        }
        let len = self.fields[c].len();
        let mut k: usize = 0;
        while k < len
            invariant
                self.fields@ == fs,
                fs.len() == n,
                fields_in_range(fs),
                0 <= ci < n,
                ci == c as int,
                len == fs[ci]@.len(),
                k <= len,
                pending@ == queued + fs[ci]@.take(k as int),
                forall|j: int| 0 <= j < queued.len() && (#[trigger] queued[j]).is_some() ==> queued[j].unwrap().0 < n,
            decreases len - k,
        {
            let ghost pb = pending@;
            pending.push(self.fields[c][k]);
            proof {
                assert(fs[ci]@.take(k + 1) =~= fs[ci]@.take(k as int).push(fs[ci]@[k as int]));
                assert(pending@ =~= queued + fs[ci]@.take(k + 1));
            }
            k = k + 1;
        }
        proof {
            assert(fs[ci]@.take(len as int) =~= fs[ci]@);
        }
        let ghost dold = self.destroyed@;
        let ghost lold = self.live@;
        self.ref_counts.set(c, 0);
        self.fields.set(c, Vec::new());
        self.live.set(c, false);
        self.destroyed.push(AllocationId(c));
        proof {
            let f = *self;
            let pf = pending@;
            lemma_num_marked_clear(lold, ci);
            assert(!dold.contains(AllocationId(c)));
            assert forall|t: int| 0 <= t < n implies f.ref_counts@[t] == #[trigger] inbound(f.fields@, t)
                + f.handles@[t] + count_in(pf, t) by {
                lemma_count_push(queued, Some(AllocationId(c)), t);
                lemma_inbound_update(fs, all_of(n), t, n, ci, f.fields@[ci]);
                assert(f.fields@ =~= fs.update(ci, f.fields@[ci]));
                lemma_count_concat(queued, fs[ci]@, t);
                assert(o.ref_counts@[t] == inbound(fs, t) + o.handles@[t] + count_in(queued.push(Some(AllocationId(c))), t));
            }
            assert forall|j: int| 0 <= j < pf.len() && (#[trigger] pf[j]).is_some() implies pf[j].unwrap().0 < n by {
                if j >= queued.len() {
                    assert(pf[j] == fs[ci]@[j - queued.len()]);
                }
            }
            assert forall|x: int, kk: int|
                0 <= x < n && 0 <= kk < f.fields@[x]@.len() && (#[trigger] f.fields@[x]@[kk]).is_some()
                    implies f.fields@[x]@[kk].unwrap().0 < n by {
                assert(x != ci);
                assert(fs[x]@[kk].is_some());
            }
            assert forall|j: int| 0 <= j < f.destroyed@.len() implies (#[trigger] f.destroyed@[j]).0 < n by {
                if j < dold.len() {
                    assert(f.destroyed@[j] == dold[j]);
                }
            }
            assert forall|x: int| 0 <= x < n implies (!#[trigger] f.live@[x] <==> f.destroyed@.contains(
                AllocationId(x as usize),
            )) by {
                if x == ci {
                    assert(f.destroyed@[dold.len() as int] == AllocationId(c));
                } else {
                    assert(f.live@[x] == lold[x]);
                    assert(lold[x] == o.live@[x]);
                    assert(dold == o.destroyed@);
                    assert(!o.live@[x] <==> o.destroyed@.contains(AllocationId(x as usize)));
                    if dold.contains(AllocationId(x as usize)) {
                        let j = choose|j: int| 0 <= j < dold.len() && dold[j] == AllocationId(x as usize);
                        assert(f.destroyed@[j] == dold[j]);
                    }
                    if f.destroyed@.contains(AllocationId(x as usize)) {
                        let j = choose|j: int| 0 <= j < f.destroyed@.len() && f.destroyed@[j] == AllocationId(x as usize);
                        if j < dold.len() {
                            assert(dold[j] == AllocationId(x as usize));
                        } else {
                            assert(f.destroyed@[j] == AllocationId(c));
                            assert(x as usize == c);
                            assert(false);
                        }
                    }
                }
            }
            assert forall|j: int| 0 <= j < f.to_collect@.len() implies (#[trigger] f.to_collect@[j]).0 < f.live@.len()
                && f.live@[f.to_collect@[j].0 as int] by {
                assert(f.to_collect@.contains(f.to_collect@[j]));
                assert(f.to_collect@[j] != AllocationId(c));
            }
        }
    }

    /// Drops the strong handle `gc`. If other references remain, the box is
    /// registered as possibly part of a dead cycle; if none remain, it is
    /// freed at once, and so is every box that only it held.
    pub fn drop_gc(&mut self, gc: Gc)
        requires
            old(self).well_formed(),
            gc.id.0 < old(self).len(),
            old(self).handles@[gc.id.0 as int] > 0,
        ensures
            final(self).well_formed(),
            final(self).len() == old(self).len(),
            final(self).values@ == old(self).values@,
            final(self).handles@ == old(self).handles@.update(
                gc.id.0 as int,
                (old(self).handles@[gc.id.0 as int] - 1) as nat,
            ),
            final(self).n_ref_drops == old(self).n_ref_drops.saturating_add(1),
            final(self).n_refs_living == old(self).n_refs_living.saturating_sub(1),
            old(self).ref_counts@[gc.id.0 as int] > 1 ==> {
                &&& final(self).ref_counts@ == old(self).ref_counts@.update(
                    gc.id.0 as int,
                    (old(self).ref_counts@[gc.id.0 as int] - 1) as usize,
                )
                &&& final(self).fields@ == old(self).fields@
                &&& final(self).live@ == old(self).live@
                &&& final(self).destroyed@ == old(self).destroyed@
                &&& forall|a: AllocationId|
                    #[trigger] final(self).to_collect@.contains(a) <==> old(self).to_collect@.contains(a) || a
                        == gc.id
            },
            old(self).ref_counts@[gc.id.0 as int] == 1 ==> !final(self).live@[gc.id.0 as int]
                && !final(self).to_collect@.contains(gc.id),
            forall|x: int| 0 <= x < old(self).len() && !old(self).live@[x] ==> !#[trigger] final(self).live@[x],
            forall|x: int|
                0 <= x < old(self).len() && #[trigger] final(self).live@[x] ==> final(self).fields@[x]
                    == old(self).fields@[x],
    {
        let ghost o = *self;
        let i = gc.id.0;
        proof {
            assert(o.ref_counts@[i as int] == inbound(o.fields@, i as int) + o.handles@[i as int]);
        }
        self.n_ref_drops = self.n_ref_drops.saturating_add(1);
        self.n_refs_living = self.n_refs_living.saturating_sub(1);
        self.handles = Ghost(self.handles@.update(i as int, (self.handles@[i as int] - 1) as nat));
        if self.ref_counts[i] > 1 {
            let v = self.ref_counts[i] - 1;
            self.ref_counts.set(i, v);
            self.mark_dirty(gc.id);
            proof {
                let f = *self;
                assert forall|t: int| 0 <= t < f.len() implies f.ref_counts@[t] == #[trigger] inbound(f.fields@, t)
                    + f.handles@[t] by {
                    assert(o.ref_counts@[t] == inbound(o.fields@, t) + o.handles@[t]);
                }
                assert forall|j: int|
                    0 <= j < f.to_collect@.len() implies (#[trigger] f.to_collect@[j]).0 < f.len()
                        && f.live@[f.to_collect@[j].0 as int] by {}
            }
        } else {
            let mut pending: Vec<Option<AllocationId>> = Vec::new();
            proof {
                assert(pending@.push(Some(gc.id)) =~= seq![Some(gc.id)]);
                assert forall|t: int| 0 <= t < o.len() implies self.ref_counts@[t] == #[trigger] inbound(
                    self.fields@,
                    t,
                ) + self.handles@[t] + count_in(seq![Some(gc.id)], t) by {
                    assert(seq![Some(gc.id)] =~= Seq::<Option<AllocationId>>::empty().push(Some(gc.id)));
                    lemma_count_push(Seq::<Option<AllocationId>>::empty(), Some(gc.id), t);
                    assert(o.ref_counts@[t] == inbound(o.fields@, t) + o.handles@[t]);
                }
                assert(self.cascade_ok(pending@.push(Some(gc.id))));
            }
            self.free_box(i, &mut pending);
            while pending.len() > 0
                invariant
                    self.cascade_ok(pending@),
                    self.len() == o.len(),
                    self.values@ == o.values@,
                    self.handles@ == o.handles@.update(i as int, (o.handles@[i as int] - 1) as nat),
                    self.n_ref_drops == o.n_ref_drops.saturating_add(1),
                    self.n_refs_living == o.n_refs_living.saturating_sub(1),
                    i < o.len(),
                    !self.live@[i as int],
                    forall|x: int| 0 <= x < o.len() && !o.live@[x] ==> !#[trigger] self.live@[x],
                    forall|x: int|
                        0 <= x < o.len() && #[trigger] self.live@[x] ==> self.fields@[x] == o.fields@[x],
                decreases num_marked(self.live@), pending@.len(),
            {
                let ghost pb = pending@;
                let next = pending.pop().unwrap();
                proof {
                    assert(pb =~= pending@.push(next));
                }
                if let Some(c) = next {
                    if self.ref_counts[c.0] > 1 {
                        let v = self.ref_counts[c.0] - 1;
                        let ghost before = *self;
                        self.ref_counts.set(c.0, v);
                        proof {
                            assert(before.live@[c.0 as int]);
                        }
                        self.mark_dirty(c);
                        proof {
                            let f = *self;
                            assert forall|t: int| 0 <= t < f.len() implies f.ref_counts@[t] == #[trigger] inbound(
                                f.fields@,
                                t,
                            ) + f.handles@[t] + count_in(pending@, t) by {
                                lemma_count_push(pending@, next, t);
                                assert(before.ref_counts@[t] == inbound(before.fields@, t) + before.handles@[t]
                                    + count_in(pb, t));
                            }
                            assert forall|j: int|
                                0 <= j < f.to_collect@.len() implies (#[trigger] f.to_collect@[j]).0 < f.len()
                                    && f.live@[f.to_collect@[j].0 as int] by {}
                            assert forall|j: int| 0 <= j < pending@.len() && (#[trigger] pending@[j]).is_some()
                                implies pending@[j].unwrap().0 < f.len() by {
                                assert(pb[j] == pending@[j]);
                            }
                        }
                    } else {
                        proof {
                            let t = c.0 as int;
                            assert(pb[pb.len() - 1] == next);
                            lemma_count_push(pending@, next, t);
                            assert(self.ref_counts@[t] == inbound(self.fields@, t) + self.handles@[t]
                                + count_in(pb, t));
                            assert forall|j: int| 0 <= j < pending@.len() && (#[trigger] pending@[j]).is_some()
                                implies pending@[j].unwrap().0 < self.len() by {
                                assert(pb[j] == pending@[j]);
                            }
                        }
                        self.free_box(c.0, &mut pending);
                    }
                } else {
                    proof {
                        let f = *self;
                        assert forall|t: int| 0 <= t < f.len() implies f.ref_counts@[t] == #[trigger] inbound(
                            f.fields@,
                            t,
                        ) + f.handles@[t] + count_in(pending@, t) by {
                            lemma_count_push(pending@, next, t);
                        }
                        assert forall|j: int| 0 <= j < pending@.len() && (#[trigger] pending@[j]).is_some()
                            implies pending@[j].unwrap().0 < f.len() by {
                            assert(pb[j] == pending@[j]);
                        }
                    }
                }
            }
            proof {
                let f = *self;
                assert forall|t: int| 0 <= t < f.len() implies f.ref_counts@[t] == #[trigger] inbound(f.fields@, t)
                    + f.handles@[t] by {
                    assert(pending@ =~= Seq::<Option<AllocationId>>::empty());
                }
                assert(!f.to_collect@.contains(gc.id)) by {
                    if f.to_collect@.contains(gc.id) {
                        let j = choose|j: int| 0 <= j < f.to_collect@.len() && f.to_collect@[j] == gc.id;
                        assert(f.live@[i as int]);
                    }
                }
            }
        }
    }
}

/// Fewest drops that can trigger an automatic collection.
pub const MIN_DROPS_BEFORE_COLLECT: usize = 16;

impl Dumpster {
    /// Whether the box `id` is still allocated.
    pub fn is_live(&self, id: AllocationId) -> (r: bool)
        requires
            self.well_formed(),
        ensures
            r == (id.0 < self.len() && self.live@[id.0 as int]),
    {
        id.0 < self.live.len() && self.live[id.0]
    }

    /// The strong count of box `id` (zero for a freed or unknown box).
    pub fn ref_count(&self, id: AllocationId) -> (r: usize)
        requires
            self.well_formed(),
        ensures
            r == if id.0 < self.len() { self.ref_counts@[id.0 as int] } else { 0 },
    {
        if id.0 < self.ref_counts.len() {
            self.ref_counts[id.0]
        } else {
            0
        }
    }

    /// The payload value of box `id`, while it is allocated.
    pub fn value(&self, id: AllocationId) -> (r: Option<u64>)
        requires
            self.well_formed(),
        ensures
            r == if id.0 < self.len() && self.live@[id.0 as int] {
                Some(self.values@[id.0 as int])
            } else {
                None::<u64>
            },
    {
        if id.0 < self.live.len() && self.live[id.0] {
            Some(self.values[id.0])
        } else {
            None
        }
    }

    /// How many `Gc` fields box `id` holds (zero once it is freed).
    pub fn field_count(&self, id: AllocationId) -> (r: usize)
        requires
            self.well_formed(),
        ensures
            r == if id.0 < self.len() { self.fields@[id.0 as int]@.len() } else { 0 },
    {
        if id.0 < self.fields.len() {
            self.fields[id.0].len()
        } else {
            0
        }
    }

    /// Whether box `id` is in the registry.
    pub fn is_registered(&self, id: AllocationId) -> (r: bool)
        ensures
            r == self.to_collect@.contains(id),
    {
        let len = self.to_collect.len();
        let mut j: usize = 0;
        while j < len
            invariant
                len == self.to_collect@.len(),
                j <= len,
                forall|jj: int| 0 <= jj < j ==> self.to_collect@[jj] != id,
            decreases len - j,
        {
            if self.to_collect[j] == id {
                return true;
            }
            j = j + 1;
        }
        false
    }

    /// Number of registered boxes.
    pub fn registry_len(&self) -> (r: usize)
        ensures
            r == self.to_collect@.len(),
    {
        self.to_collect.len()
    }

    /// Number of payload destructors that have run.
    pub fn destroyed_count(&self) -> (r: usize)
        ensures
            r == self.destroyed@.len(),
    {
        self.destroyed.len()
    }

    /// The collection trigger: enough references were dropped since the last
    /// collection, at least the fixed minimum and at least half of the
    /// references alive.
    pub fn should_collect(&self) -> (r: bool)
        ensures
            r == (self.n_ref_drops >= MIN_DROPS_BEFORE_COLLECT && self.n_ref_drops >= self.n_refs_living / 2),
    {
        self.n_ref_drops >= MIN_DROPS_BEFORE_COLLECT && self.n_ref_drops >= self.n_refs_living / 2
    }

    /// Collects when the trigger says so; tells whether it did.
    pub fn maybe_collect(&mut self) -> (r: bool)
        requires
            old(self).well_formed(),
        ensures
            final(self).well_formed(),
            r == old(self).should_collect_spec(),
            !r ==> *final(self) == *old(self),
            r ==> final(self).to_collect@.len() == 0 && forall|x: int|
                0 <= x < old(self).len() ==> #[trigger] final(self).live@[x] == (old(self).live@[x] && !doomed(
                    old(self).fields@,
                    old(self).ref_counts@,
                    old(self).to_collect@,
                    x,
                )),
    {
        if self.should_collect() {
            self.collect_all();
            true
        } else {
            false
        }
    }

    pub open spec fn should_collect_spec(&self) -> bool {
        self.n_ref_drops >= MIN_DROPS_BEFORE_COLLECT && self.n_ref_drops >= self.n_refs_living / 2
    }
}

} // verus!

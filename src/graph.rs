//! The heap model: each box's `Gc` fields, and the edge counts and paths over
//! them that the collector's contracts speak of.
use vstd::prelude::*;

verus! {

/// A unique identifier for a managed allocation: its slot in the heap.
#[derive(Clone, Copy, Debug, PartialEq, Eq, Structural, Hash)]
pub struct AllocationId(pub usize);

/// The `Gc` fields of every box, indexed by allocation slot.
pub type Fields = Seq<Vec<Option<AllocationId>>>;

/// Whether a `Gc` field points at box `t`.
pub open spec fn points_to(o: Option<AllocationId>, t: int) -> bool {
    o.is_some() && o.unwrap().0 as int == t
}

/// How many fields of `s` point at box `t`.
pub open spec fn count_in(s: Seq<Option<AllocationId>>, t: int) -> nat
    decreases s.len(),
{
    if s.len() == 0 {
        0
    } else {
        count_in(s.drop_last(), t) + if points_to(s.last(), t) { 1nat } else { 0nat }
    }
}

/// Number of fields that point at `t` among the boxes `x < n` with `sel[x]`.
pub open spec fn inbound_in(fs: Fields, sel: Seq<bool>, t: int, n: int) -> nat
    decreases n,
{
    if n <= 0 {
        0
    } else {
        inbound_in(fs, sel, t, n - 1) + if sel[n - 1] { count_in(fs[n - 1]@, t) } else { 0nat }
    }
}

/// Every slot selected.
pub open spec fn all_of(n: int) -> Seq<bool> {
    Seq::new(n as nat, |i: int| true)
}

/// Number of fields anywhere in the heap that point at `t`.
pub open spec fn inbound(fs: Fields, t: int) -> nat {
    inbound_in(fs, all_of(fs.len() as int), t, fs.len() as int)
}

/// There is a field of box `a` that points at box `b`.
pub open spec fn edge(fs: Fields, a: int, b: int) -> bool {
    0 <= a < fs.len() && exists|k: int| 0 <= k < fs[a]@.len() && points_to(#[trigger] fs[a]@[k], b)
}

/// `p` is a walk along fields: each box in it points at the next.
pub open spec fn is_path(fs: Fields, p: Seq<int>) -> bool {
    p.len() > 0 && forall|i: int| 0 <= i < p.len() - 1 ==> edge(fs, #[trigger] p[i], p[i + 1])
}

/// Box `b` can be reached from box `a` by following fields.
pub open spec fn reaches(fs: Fields, a: int, b: int) -> bool {
    exists|p: Seq<int>| #[trigger] is_path(fs, p) && p[0] == a && p.last() == b
}

/// Every field of the heap points at a slot of the heap.
pub open spec fn fields_in_range(fs: Fields) -> bool {
    forall|x: int, k: int|
        0 <= x < fs.len() && 0 <= k < fs[x]@.len() && (#[trigger] fs[x]@[k]).is_some()
            ==> fs[x]@[k].unwrap().0 < fs.len()
}

/// The marked boxes are closed under edges: whatever a marked box points at is marked.
pub open spec fn closed(fs: Fields, marks: Seq<bool>) -> bool {
    forall|x: int, k: int|
        0 <= x < fs.len() && marks[x] && 0 <= k < fs[x]@.len() && (#[trigger] fs[x]@[k]).is_some()
            ==> marks[fs[x]@[k].unwrap().0 as int]
}

/// How many entries of `s` are set.
pub open spec fn num_marked(s: Seq<bool>) -> nat
    decreases s.len(),
{
    if s.len() == 0 {
        0
    } else {
        num_marked(s.drop_last()) + if s.last() { 1nat } else { 0nat }
    }
}

/// `v` clamped to the largest `usize`.
pub open spec fn sat(v: nat) -> int {
    if v > usize::MAX { usize::MAX as int } else { v as int }
}

pub proof fn lemma_num_marked_bound(s: Seq<bool>)
    ensures
        num_marked(s) <= s.len(),
    decreases s.len(),
{
    if s.len() > 0 {
        lemma_num_marked_bound(s.drop_last());
    }
}

pub proof fn lemma_num_marked_set(s: Seq<bool>, i: int)
    requires
        0 <= i < s.len(),
        !s[i],
    ensures
        num_marked(s.update(i, true)) == num_marked(s) + 1,
    decreases s.len(),
{
    let u = s.update(i, true);
    if i == s.len() - 1 {
        assert(u.drop_last() =~= s.drop_last());
    } else {
        assert(u.drop_last() =~= s.drop_last().update(i, true));
        lemma_num_marked_set(s.drop_last(), i);
    }
}

pub proof fn lemma_count_pos(s: Seq<Option<AllocationId>>, k: int, t: int)
    requires
        0 <= k < s.len(),
        points_to(s[k], t),
    ensures
        count_in(s, t) >= 1,
    decreases s.len(),
{
    if k < s.len() - 1 {
        lemma_count_pos(s.drop_last(), k, t);
    }
}

/// Counting over a prefix one field longer adds that field.
pub proof fn lemma_count_take(s: Seq<Option<AllocationId>>, k: int, t: int)
    requires
        0 <= k < s.len(),
    ensures
        count_in(s.take(k + 1), t) == count_in(s.take(k), t) + if points_to(s[k], t) { 1nat } else { 0nat },
{
    assert(s.take(k + 1).drop_last() =~= s.take(k));
}

/// Two selections over two heaps that agree on the selected boxes' fields give the same count.
pub proof fn lemma_inbound_ext(fs1: Fields, s1: Seq<bool>, fs2: Fields, s2: Seq<bool>, t: int, n: int)
    requires
        forall|x: int| 0 <= x < n ==> s1[x] == s2[x],
        forall|x: int| 0 <= x < n && s1[x] ==> fs1[x]@ == fs2[x]@,
    ensures
        inbound_in(fs1, s1, t, n) == inbound_in(fs2, s2, t, n),
    decreases n,
{
    if n > 0 {
        lemma_inbound_ext(fs1, s1, fs2, s2, t, n - 1);
    }
}

/// Two disjoint selections count, together, what their union counts.
pub proof fn lemma_inbound_split(fs: Fields, s1: Seq<bool>, s2: Seq<bool>, s3: Seq<bool>, t: int, n: int)
    requires
        forall|x: int| 0 <= x < n ==> s3[x] == (s1[x] || s2[x]) && !(s1[x] && s2[x]),
    ensures
        inbound_in(fs, s1, t, n) + inbound_in(fs, s2, t, n) == inbound_in(fs, s3, t, n),
    decreases n,
{
    if n > 0 {
        lemma_inbound_split(fs, s1, s2, s3, t, n - 1);
    }
}

/// A count over a prefix is at most the count over a longer prefix.
pub proof fn lemma_inbound_prefix(fs: Fields, sel: Seq<bool>, t: int, m: int, n: int)
    requires
        m <= n,
    ensures
        inbound_in(fs, sel, t, m) <= inbound_in(fs, sel, t, n),
    decreases n - m,
{
    if m < n {
        lemma_inbound_prefix(fs, sel, t, m, n - 1);
    }
}

/// A selected box's fields are part of the count.
pub proof fn lemma_inbound_has(fs: Fields, sel: Seq<bool>, t: int, x: int, n: int)
    requires
        0 <= x < n,
        sel[x],
    ensures
        inbound_in(fs, sel, t, n) >= count_in(fs[x]@, t),
    decreases n,
{
    if x < n - 1 {
        lemma_inbound_has(fs, sel, t, x, n - 1);
    }
}

/// Replacing one box's fields changes the count by what the fields changed.
pub proof fn lemma_inbound_update(fs: Fields, sel: Seq<bool>, t: int, n: int, x: int, v: Vec<Option<AllocationId>>)
    requires
        0 <= x < n <= fs.len(),
        sel[x],
    ensures
        inbound_in(fs.update(x, v), sel, t, n) + count_in(fs[x]@, t)
            == inbound_in(fs, sel, t, n) + count_in(v@, t),
    decreases n,
{
    if x < n - 1 {
        lemma_inbound_update(fs, sel, t, n - 1, x, v);
    } else {
        lemma_inbound_ext(fs.update(x, v), sel, fs, sel, t, n - 1);
    }
}

/// One more edge extends reachability.
pub proof fn lemma_reach_step(fs: Fields, a: int, x: int, c: int, k: int)
    requires
        reaches(fs, a, x),
        0 <= x < fs.len(),
        0 <= k < fs[x]@.len(),
        points_to(fs[x]@[k], c),
    ensures
        reaches(fs, a, c),
{
    let p = choose|p: Seq<int>| #[trigger] is_path(fs, p) && p[0] == a && p.last() == x;
    assert(edge(fs, x, c));
    let q = p.push(c);
    assert forall|i: int| 0 <= i < q.len() - 1 implies edge(fs, #[trigger] q[i], q[i + 1]) by {
        if i < p.len() - 1 {
            assert(q[i] == p[i] && q[i + 1] == p[i + 1]);
        }
    }
    assert(is_path(fs, q));
}

pub proof fn lemma_reach_self(fs: Fields, a: int)
    ensures
        reaches(fs, a, a),
{
    assert(is_path(fs, seq![a]));
}

/// A closed marking that holds the `i`-th box of a walk holds every later one.
pub proof fn lemma_closed_walk(fs: Fields, marks: Seq<bool>, p: Seq<int>, i: int)
    requires
        closed(fs, marks),
        is_path(fs, p),
        0 <= i < p.len(),
        marks[p[i]],
    ensures
        marks[p.last()],
    decreases p.len() - i,
{
    if i < p.len() - 1 {
        assert(edge(fs, p[i], p[i + 1]));
        let k = choose|k: int| 0 <= k < fs[p[i]]@.len() && points_to(#[trigger] fs[p[i]]@[k], p[i + 1]);
        assert(fs[p[i]]@[k].is_some());
        lemma_closed_walk(fs, marks, p, i + 1);
    }
}

/// A closed marking that holds `a` holds everything that `a` reaches.
pub proof fn lemma_closed_reaches(fs: Fields, marks: Seq<bool>, a: int, b: int)
    requires
        closed(fs, marks),
        marks[a],
        reaches(fs, a, b),
    ensures
        marks[b],
{
    let p = choose|p: Seq<int>| #[trigger] is_path(fs, p) && p[0] == a && p.last() == b;
    lemma_closed_walk(fs, marks, p, 0);
}

/// Counting over a prefix counts no more than over the whole.
pub proof fn lemma_count_take_le(s: Seq<Option<AllocationId>>, k: int, t: int)
    requires
        0 <= k <= s.len(),
    ensures
        count_in(s.take(k), t) <= count_in(s, t),
    decreases s.len(),
{
    if k < s.len() {
        assert(s.take(k) =~= s.drop_last().take(k));
        lemma_count_take_le(s.drop_last(), k, t);
    } else {
        assert(s.take(k) =~= s);
    }
}

/// Where no selected box has a field pointing at `t`, nothing is counted.
pub proof fn lemma_inbound_none(fs: Fields, sel: Seq<bool>, t: int, n: int)
    requires
        forall|x: int, k: int|
            0 <= x < n && sel[x] && 0 <= k < fs[x]@.len() ==> !points_to(#[trigger] fs[x]@[k], t),
    ensures
        inbound_in(fs, sel, t, n) == 0,
    decreases n,
{
    if n > 0 {
        lemma_inbound_none(fs, sel, t, n - 1);
        if sel[n - 1] {
            lemma_count_none(fs[n - 1]@, t);
        }
    }
}

pub proof fn lemma_count_none(s: Seq<Option<AllocationId>>, t: int)
    requires
        forall|k: int| 0 <= k < s.len() ==> !points_to(#[trigger] s[k], t),
    ensures
        count_in(s, t) == 0,
    decreases s.len(),
{
    if s.len() > 0 {
        lemma_count_none(s.drop_last(), t);
    }
}

/// A prefix of a walk is a walk.
pub proof fn lemma_walk_prefix(fs: Fields, p: Seq<int>, m: int)
    requires
        is_path(fs, p),
        1 <= m <= p.len(),
    ensures
        is_path(fs, p.take(m)),
{
    let q = p.take(m);
    assert forall|i: int| 0 <= i < q.len() - 1 implies edge(fs, #[trigger] q[i], q[i + 1]) by {
        assert(q[i] == p[i] && q[i + 1] == p[i + 1]);
    }
}

pub proof fn lemma_count_push(s: Seq<Option<AllocationId>>, v: Option<AllocationId>, t: int)
    ensures
        count_in(s.push(v), t) == count_in(s, t) + if points_to(v, t) { 1nat } else { 0nat },
{
    assert(s.push(v).drop_last() =~= s);
}

pub proof fn lemma_num_marked_clear(s: Seq<bool>, i: int)
    requires
        0 <= i < s.len(),
        s[i],
    ensures
        num_marked(s.update(i, false)) + 1 == num_marked(s),
{
    lemma_num_marked_set(s.update(i, false), i);
    assert(s.update(i, false).update(i, true) =~= s);
}

/// Appending a box to the heap leaves every count over the old slots as it was.
pub proof fn lemma_inbound_push(fs: Fields, v: Vec<Option<AllocationId>>, t: int)
    requires
        v@.len() == 0,
    ensures
        inbound(fs.push(v), t) == inbound(fs, t),
{
    let n = fs.len() as int;
    lemma_inbound_ext(fs.push(v), all_of(n + 1), fs, all_of(n), t, n);
}

pub proof fn lemma_count_concat(a: Seq<Option<AllocationId>>, b: Seq<Option<AllocationId>>, t: int)
    ensures
        count_in(a + b, t) == count_in(a, t) + count_in(b, t),
    decreases b.len(),
{
    if b.len() > 0 {
        assert((a + b).drop_last() =~= a + b.drop_last());
        lemma_count_concat(a, b.drop_last(), t);
    } else {
        assert(a + b =~= a);
    }
}

} // verus!

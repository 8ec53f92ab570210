use vstd::prelude::*;

use crate::error::HybitError;
use crate::mask::{count_true, lemma_count_push, lemma_count_zero};
use crate::regions::views;

verus! {

/// Marker of a node that belongs to no aggregate yet.
pub const UNASSIGNED: usize = usize::MAX;

/// Every neighbour listed in the adjacency is a node of the graph.
pub open spec fn adjacency_ok(adj: Seq<Vec<usize>>) -> bool {
    forall|u: int, j: int| 0 <= u < adj.len() && 0 <= j < adj[u]@.len() ==> #[trigger] adj[u]@[j] < adj.len()
}

/// Which nodes carry label `x`.
pub open spec fn class_seq(a: Seq<usize>, x: int) -> Seq<bool> {
    Seq::new(a.len(), |w: int| a[w] == x)
}

/// Number of nodes that carry label `x`.
pub open spec fn class_size(a: Seq<usize>, x: int) -> nat {
    count_true(class_seq(a, x))
}

/// Every label is below `count`.
pub open spec fn labels_below(a: Seq<usize>, count: nat) -> bool {
    forall|i: int| 0 <= i < a.len() ==> #[trigger] a[i] < count
}

/// Labels are numbered in order of first appearance: whenever node `i`
/// carries label `k`, every smaller label already occurs before `i`.
pub open spec fn first_appearance_order(a: Seq<usize>) -> bool {
    forall|i: int, k: int| 0 <= i < a.len() && 0 <= k < a[i] ==> #[trigger] label_before(a, i, k)
}

/// Label `k` is carried by a node before node `i`.
pub open spec fn label_before(a: Seq<usize>, i: int, k: int) -> bool {
    exists|j: int| 0 <= j < i && #[trigger] a[j] == k
}

/// Every label below `count` is carried by some node.
pub open spec fn all_labels_used(a: Seq<usize>, count: nat) -> bool {
    forall|k: int| 0 <= k < count ==> #[trigger] label_before(a, a.len() as int, k)
}

/// A node whose aggregate has fewer than `floor` nodes has all its
/// neighbours inside that same aggregate.
pub open spec fn small_classes_isolated(adj: Seq<Vec<usize>>, a: Seq<usize>, floor: nat) -> bool {
    forall|u: int, j: int|
        0 <= u < adj.len() && 0 <= j < adj[u]@.len() && class_size(a, a[u] as int) < floor
            ==> a[#[trigger] adj[u]@[j] as int] == a[u]
}

/// `u` and `v` are coupled: one of them lists the other as a neighbour.
pub open spec fn linked(adj: Seq<Vec<usize>>, u: usize, v: usize) -> bool {
    ||| (u as int) < adj.len() && adj[u as int]@.contains(v)
    ||| (v as int) < adj.len() && adj[v as int]@.contains(u)
}

/// Step `k` of the walk `p` joins two coupled nodes.
pub open spec fn step_linked(adj: Seq<Vec<usize>>, p: Seq<usize>, k: int) -> bool {
    linked(adj, p[k - 1], p[k])
}

/// `p` walks from node `u` to node `v` through coupled nodes that all carry
/// label `x`.
pub open spec fn walk_in(adj: Seq<Vec<usize>>, a: Seq<usize>, x: usize, p: Seq<usize>, u: int, v: int) -> bool {
    &&& p.len() >= 1
    &&& p[0] as int == u
    &&& p[p.len() - 1] as int == v
    &&& forall|k: int| 0 <= k < p.len() ==> (#[trigger] p[k] as int) < a.len() && a[p[k] as int] == x
    &&& forall|k: int| 1 <= k < p.len() ==> #[trigger] step_linked(adj, p, k)
}

/// Some walk inside class `x` leads from node `u` to node `v`.
pub open spec fn walk_exists(adj: Seq<Vec<usize>>, a: Seq<usize>, x: usize, u: usize, v: usize) -> bool {
    exists|p: Seq<usize>| #[trigger] walk_in(adj, a, x, p, u as int, v as int)
}

/// Every aggregate is connected: two nodes with the same label are joined
/// by a walk that stays inside their aggregate.
pub open spec fn aggregates_connected(adj: Seq<Vec<usize>>, a: Seq<usize>) -> bool {
    forall|u: int, v: int|
        0 <= u < a.len() && 0 <= v < a.len() && #[trigger] a[u] == #[trigger] a[v] && a[u] != UNASSIGNED
            ==> exists|p: Seq<usize>| #[trigger] walk_in(adj, a, a[u], p, u, v)
}

/// A walk read backwards.
proof fn lemma_walk_reverse(adj: Seq<Vec<usize>>, a: Seq<usize>, x: usize, p: Seq<usize>, u: int, v: int)
    requires
        walk_in(adj, a, x, p, u, v),
    ensures
        walk_in(adj, a, x, Seq::new(p.len(), |k: int| p[p.len() - 1 - k]), v, u),
{
    let q = Seq::new(p.len(), |k: int| p[p.len() - 1 - k]);
    assert forall|k: int| 0 <= k < q.len() implies (#[trigger] q[k] as int) < a.len() && a[q[k] as int] == x by {
        assert(q[k] == p[p.len() - 1 - k]);
    }
    assert forall|k: int| 1 <= k < q.len() implies #[trigger] step_linked(adj, q, k) by {
        assert(step_linked(adj, p, p.len() - k));
    }
}

/// Two walks joined where the first ends on a node coupled to the start of
/// the second.
proof fn lemma_walk_join(
    adj: Seq<Vec<usize>>,
    a: Seq<usize>,
    x: usize,
    p: Seq<usize>,
    u: int,
    v: int,
    q: Seq<usize>,
    w: int,
    z: int,
)
    requires
        walk_in(adj, a, x, p, u, v),
        walk_in(adj, a, x, q, w, z),
        linked(adj, p[p.len() - 1], q[0]),
    ensures
        walk_in(adj, a, x, p + q, u, z),
{
    let r = p + q;
    assert forall|k: int| 0 <= k < r.len() implies (#[trigger] r[k] as int) < a.len() && a[r[k] as int] == x by {
        if k < p.len() {
            assert(r[k] == p[k]);
        } else {
            assert(r[k] == q[k - p.len()]);
        }
    }
    assert forall|k: int| 1 <= k < r.len() implies #[trigger] step_linked(adj, r, k) by {
        if k < p.len() {
            assert(step_linked(adj, p, k));
        } else if k > p.len() {
            assert(step_linked(adj, q, k - p.len()));
        }
    }
}

/// Two walks glued at the node where the first ends and the second starts.
proof fn lemma_walk_glue(adj: Seq<Vec<usize>>, a: Seq<usize>, x: usize, p: Seq<usize>, u: int, v: int, q: Seq<usize>, z: int)
    requires
        walk_in(adj, a, x, p, u, v),
        walk_in(adj, a, x, q, v, z),
    ensures
        walk_in(adj, a, x, p + q.drop_first(), u, z),
{
    let r = p + q.drop_first();
    if q.len() == 1 {
        assert(r =~= p);
    } else {
        assert forall|k: int| 0 <= k < r.len() implies (#[trigger] r[k] as int) < a.len() && a[r[k] as int] == x by {
            if k < p.len() {
                assert(r[k] == p[k]);
            } else {
                assert(r[k] == q[k - p.len() + 1]);
            }
        }
        assert forall|k: int| 1 <= k < r.len() implies #[trigger] step_linked(adj, r, k) by {
            if k < p.len() {
                assert(step_linked(adj, p, k));
            } else {
                assert(step_linked(adj, q, k - p.len() + 1));
                if k == p.len() {
                    assert(r[k - 1] == p[p.len() - 1]);
                    assert(p[p.len() - 1] == q[0]);
                }
            }
        }
    }
}

/// A walk inside class `x` of `a` is a walk inside class `y` of `b` when
/// every node of class `x` carries `y` in `b`.
proof fn lemma_walk_relabel(
    adj: Seq<Vec<usize>>,
    a: Seq<usize>,
    x: usize,
    p: Seq<usize>,
    u: int,
    v: int,
    b: Seq<usize>,
    y: usize,
)
    requires
        walk_in(adj, a, x, p, u, v),
        b.len() == a.len(),
        forall|i: int| 0 <= i < a.len() && a[i] == x ==> #[trigger] b[i] == y,
    ensures
        walk_in(adj, b, y, p, u, v),
{
    assert forall|k: int| 0 <= k < p.len() implies (#[trigger] p[k] as int) < b.len() && b[p[k] as int] == y by {
        assert(a[p[k] as int] == x);
    }
}

/// Changing one entry of a sequence changes its count by the difference of the two values.
pub proof fn lemma_count_update(s: Seq<bool>, i: int, v: bool)
    requires
        0 <= i < s.len(),
    ensures
        count_true(s.update(i, v)) + (if s[i] { 1int } else { 0int }) == count_true(s) + (if v {
            1int
        } else {
            0int
        }),
    decreases s.len(),
{
    let t = s.update(i, v);
    if i == s.len() - 1 {
        assert(t.drop_last() =~= s.drop_last());
    } else {
        assert(t.drop_last() =~= s.drop_last().update(i, v));
        lemma_count_update(s.drop_last(), i, v);
    }
}

/// A sequence with a `true` entry has a positive count.
pub proof fn lemma_count_positive(s: Seq<bool>, i: int)
    requires
        0 <= i < s.len(),
        s[i],
    ensures
        count_true(s) > 0,
{
    lemma_count_zero(s);
}

/// The count of the pointwise disjunction of two disjoint sequences is the sum of their counts.
pub proof fn lemma_count_disjoint_or(s1: Seq<bool>, s2: Seq<bool>, s3: Seq<bool>)
    requires
        s1.len() == s2.len(),
        s2.len() == s3.len(),
        forall|w: int| 0 <= w < s1.len() ==> !(s1[w] && s2[w]),
        forall|w: int| 0 <= w < s1.len() ==> s3[w] == (s1[w] || s2[w]),
    ensures
        count_true(s3) == count_true(s1) + count_true(s2),
    decreases s1.len(),
{
    if s1.len() > 0 {
        lemma_count_disjoint_or(s1.drop_last(), s2.drop_last(), s3.drop_last());
    }
}

/// A sequence whose `true` positions are exactly the distinct entries of
/// `m` has count `m.len()`.
pub proof fn lemma_count_members(s: Seq<bool>, m: Seq<usize>)
    requires
        s.len() <= usize::MAX,
        forall|k: int, l: int| 0 <= k < l < m.len() ==> m[k] != m[l],
        forall|k: int| 0 <= k < m.len() ==> #[trigger] m[k] < s.len(),
        forall|i: int| 0 <= i < s.len() ==> (s[i] <==> m.contains(i as usize)),
    ensures
        count_true(s) == m.len(),
    decreases s.len(),
{
    if s.len() == 0 {
        if m.len() > 0 {
            assert(m[0] < s.len());
        }
    } else {
        let last = s.len() - 1;
        let t = s.drop_last();
        if s[last] {
            assert(m.contains(last as usize));
            let p = choose|p: int| 0 <= p < m.len() && m[p] == last as usize;
            let r = m.remove(p);
            assert forall|k: int, l: int| 0 <= k < l < r.len() implies r[k] != r[l] by {
                let k2 = if k < p { k } else { k + 1 };
                let l2 = if l < p { l } else { l + 1 };
                assert(r[k] == m[k2]);
                assert(r[l] == m[l2]);
            }
            assert forall|k: int| 0 <= k < r.len() implies #[trigger] r[k] < t.len() by {
                let k2 = if k < p { k } else { k + 1 };
                assert(r[k] == m[k2]);
                assert(k2 != p);
            }
            assert forall|i: int| 0 <= i < t.len() implies (t[i] <==> r.contains(i as usize)) by {
                if t[i] {
                    assert(m.contains(i as usize));
                    let q = choose|q: int| 0 <= q < m.len() && m[q] == i as usize;
                    assert(i < last);
                    assert(i as usize != last as usize);
                    assert(q != p);
                    let q2 = if q < p { q } else { q - 1 };
                    assert(r[q2] == i as usize);
                }
                if r.contains(i as usize) {
                    let q = choose|q: int| 0 <= q < r.len() && r[q] == i as usize;
                    let q2 = if q < p { q } else { q + 1 };
                    assert(m[q2] == i as usize);
                }
            }
            lemma_count_members(t, r);
        } else {
            assert forall|k: int| 0 <= k < m.len() implies #[trigger] m[k] < t.len() by {
                assert(m.contains(m[k]));
                if m[k] == last {
                    assert(s[m[k] as int]);
                }
            }
            lemma_count_members(t, m);
        }
    }
}

/// A sequence that is `true` wherever `s` is has at least the count of `s`.
pub proof fn lemma_count_mono(s: Seq<bool>, t: Seq<bool>)
    requires
        s.len() == t.len(),
        forall|i: int| 0 <= i < s.len() && s[i] ==> t[i],
    ensures
        count_true(s) <= count_true(t),
    decreases s.len(),
{
    if s.len() > 0 {
        lemma_count_mono(s.drop_last(), t.drop_last());
    }
}

/// Nodes still without an aggregate.
pub open spec fn unassigned_seq(a: Seq<usize>) -> Seq<bool> {
    Seq::new(a.len(), |w: int| a[w] == UNASSIGNED)
}

/// The entries of `nbrs` still unassigned under `a`, in order.
pub open spec fn open_in(nbrs: Seq<usize>, a: Seq<usize>) -> Seq<usize>
    decreases nbrs.len(),
{
    if nbrs.len() == 0 {
        Seq::empty()
    } else {
        let rest = open_in(nbrs.drop_last(), a);
        let w = nbrs.last();
        if (w as int) < a.len() && a[w as int] == UNASSIGNED {
            rest.push(w)
        } else {
            rest
        }
    }
}

/// `a` with `label` on the nodes of `members`.
pub open spec fn relabel(a: Seq<usize>, members: Seq<usize>, label: usize) -> Seq<usize> {
    Seq::new(a.len(), |i: int| if members.contains(i as usize) { label } else { a[i] })
}

/// Breadth-first claiming: the queue is read from `head`; a node still
/// unassigned is given `label`, appended to `members`, and its unassigned
/// neighbours are queued, until `cap` nodes are claimed or the queue runs
/// out. The result is the full list of claimed nodes in claiming order.
pub open spec fn bfs_claims(
    adj: Seq<Seq<usize>>,
    a: Seq<usize>,
    queue: Seq<usize>,
    head: int,
    members: Seq<usize>,
    cap: nat,
    label: usize,
) -> Seq<usize>
    decreases count_true(unassigned_seq(a)), queue.len() - head,
{
    if members.len() >= cap || head < 0 || head >= queue.len() {
        members
    } else {
        let node = queue[head];
        if node as int >= a.len() || a[node as int] != UNASSIGNED || label == UNASSIGNED {
            bfs_claims(adj, a, queue, head + 1, members, cap, label)
        } else {
            let a2 = a.update(node as int, label);
            proof {
                assert(unassigned_seq(a2) =~= unassigned_seq(a).update(node as int, false));
                lemma_count_update(unassigned_seq(a), node as int, false);
            }
            bfs_claims(adj, a2, queue + open_in(adj[node as int], a2), head + 1, members.push(node), cap, label)
        }
    }
}

/// The nodes that `grow_region` claims from `seed`.
pub open spec fn bfs_region(adj: Seq<Seq<usize>>, a: Seq<usize>, seed: usize, cap: nat, label: usize) -> Seq<usize> {
    bfs_claims(adj, a, seq![seed], 0, Seq::empty(), cap, label)
}

/// Region growing from node `start` on: every node still unassigned, in
/// increasing order, gives the next label to the up to `cap` unassigned
/// nodes it claims breadth-first. The labelling and the number of labels
/// given.
pub open spec fn grow_from(adj: Seq<Seq<usize>>, labels: Seq<usize>, start: int, count: nat, cap: nat) -> (
    Seq<usize>,
    nat,
)
    decreases adj.len() - start,
{
    if start < 0 || start >= adj.len() {
        (labels, count)
    } else if start < labels.len() && labels[start] == UNASSIGNED {
        let m = bfs_region(adj, labels, start as usize, cap, count as usize);
        grow_from(adj, relabel(labels, m, count as usize), start + 1, count + 1, cap)
    } else {
        grow_from(adj, labels, start + 1, count, cap)
    }
}

/// A fresh label given to a region whose members all have a walk from the
/// seed keeps every aggregate connected.
proof fn lemma_new_region_connected(
    adj: Seq<Vec<usize>>,
    before: Seq<usize>,
    after: Seq<usize>,
    members: Seq<usize>,
    seed: usize,
    label: usize,
)
    requires
        aggregates_connected(adj, before),
        label != UNASSIGNED,
        after.len() == before.len(),
        before.len() <= usize::MAX,
        forall|i: int| 0 <= i < before.len() ==> #[trigger] before[i] != label,
        forall|i: int|
            0 <= i < before.len() ==> #[trigger] after[i] == (if members.contains(i as usize) {
                label
            } else {
                before[i]
            }),
        forall|k: int| 0 <= k < members.len() ==> before[#[trigger] members[k] as int] == UNASSIGNED,
        forall|k: int| 0 <= k < members.len() ==> #[trigger] walk_exists(adj, after, label, seed, members[k]),
    ensures
        aggregates_connected(adj, after),
{
    assert forall|u: int, v: int|
        0 <= u < after.len() && 0 <= v < after.len() && #[trigger] after[u] == #[trigger] after[v] && after[u]
            != UNASSIGNED implies exists|p: Seq<usize>| #[trigger] walk_in(adj, after, after[u], p, u, v) by {
        if after[u] == label {
            assert(members.contains(u as usize));
            assert(members.contains(v as usize));
            let ku = choose|k: int| 0 <= k < members.len() && members[k] == u as usize;
            let kv = choose|k: int| 0 <= k < members.len() && members[k] == v as usize;
            assert(walk_exists(adj, after, label, seed, members[ku]));
            assert(walk_exists(adj, after, label, seed, members[kv]));
            let pu = choose|p: Seq<usize>| #[trigger] walk_in(adj, after, label, p, seed as int, members[ku] as int);
            let pv = choose|p: Seq<usize>| #[trigger] walk_in(adj, after, label, p, seed as int, members[kv] as int);
            assert(members[ku] as int == u && members[kv] as int == v);
            lemma_walk_reverse(adj, after, label, pu, seed as int, u);
            let back = Seq::new(pu.len(), |k: int| pu[pu.len() - 1 - k]);
            lemma_walk_glue(adj, after, label, back, u, seed as int, pv, v);
            assert(walk_in(adj, after, after[u], back + pv.drop_first(), u, v));
        } else {
            if members.contains(u as usize) {
                let k = choose|k: int| 0 <= k < members.len() && members[k] == u as usize;
                assert(after[u] == label);
            }
            if members.contains(v as usize) {
                let k = choose|k: int| 0 <= k < members.len() && members[k] == v as usize;
                assert(after[v] == label);
            }
            let x = before[u];
            assert(before[v] == x);
            let p = choose|p: Seq<usize>| #[trigger] walk_in(adj, before, x, p, u, v);
            assert forall|i: int| 0 <= i < before.len() && before[i] == x implies #[trigger] after[i] == x by {
                if members.contains(i as usize) {
                    let k = choose|k: int| 0 <= k < members.len() && members[k] == i as usize;
                }
            }
            lemma_walk_relabel(adj, before, x, p, u, v, after, x);
        }
    }
}

/// Some node of class `s` lists a node of class `y` as a neighbour.
pub open spec fn edge_between(adj: Seq<Vec<usize>>, a: Seq<usize>, s: int, y: int) -> bool {
    exists|u: int, j: int|
        0 <= u < adj.len() && 0 <= u < a.len() && a[u] == s && 0 <= j < adj[u]@.len() && (adj[u]@[j] as int) < a.len()
            && a[#[trigger] adj[u]@[j] as int] == y
}

/// Moving class `s` into class `r`, along an edge between them, keeps every
/// aggregate connected.
proof fn lemma_move_connected(adj: Seq<Vec<usize>>, a: Seq<usize>, s: usize, r: usize)
    requires
        aggregates_connected(adj, a),
        edge_between(adj, a, s as int, r as int),
        s != r,
        s != UNASSIGNED,
        r != UNASSIGNED,
    ensures
        aggregates_connected(adj, move_class(a, s, r)),
{
    let b = move_class(a, s, r);
    let (eu, ej) = choose|u: int, j: int|
        0 <= u < adj.len() && 0 <= u < a.len() && a[u] == s && 0 <= j < adj[u]@.len() && (adj[u]@[j] as int) < a.len()
            && a[#[trigger] adj[u]@[j] as int] == r;
    let ew = adj[eu]@[ej] as int;
    assert(linked(adj, eu as usize, ew as usize)) by {
        assert(adj[eu]@[ej] == ew as usize);
    }
    assert forall|u: int, v: int|
        0 <= u < b.len() && 0 <= v < b.len() && #[trigger] b[u] == #[trigger] b[v] && b[u] != UNASSIGNED implies exists|
        p: Seq<usize>,
    | #[trigger] walk_in(adj, b, b[u], p, u, v) by {
        let x = b[u];
        if x != r {
            assert(a[u] == x && a[v] == x);
            let p = choose|p: Seq<usize>| #[trigger] walk_in(adj, a, x, p, u, v);
            lemma_walk_relabel(adj, a, x, p, u, v, b, x);
        } else {
            assert forall|i: int| 0 <= i < a.len() && a[i] == s implies #[trigger] b[i] == r by {}
            assert forall|i: int| 0 <= i < a.len() && a[i] == r implies #[trigger] b[i] == r by {}
            // Walks from `u` to the edge and from the edge to `v`, inside
            // the classes they start in.
            if a[u] == a[v] {
                let p = choose|p: Seq<usize>| #[trigger] walk_in(adj, a, a[u], p, u, v);
                lemma_walk_relabel(adj, a, a[u], p, u, v, b, r);
            } else {
                let (from, to) = if a[u] == s { (eu, ew) } else { (ew, eu) };
                assert(a[from] == a[u]);
                assert(a[to] == a[v]);
                let p = choose|p: Seq<usize>| #[trigger] walk_in(adj, a, a[u], p, u, from);
                let q = choose|q: Seq<usize>| #[trigger] walk_in(adj, a, a[v], q, to, v);
                lemma_walk_relabel(adj, a, a[u], p, u, from, b, r);
                lemma_walk_relabel(adj, a, a[v], q, to, v, b, r);
                assert(linked(adj, p[p.len() - 1], q[0]));
                lemma_walk_join(adj, b, r, p, u, from, q, to, v);
            }
        }
    }
}

/// Connected aggregates stay connected under any renaming of the labels.
proof fn lemma_partition_connected(adj: Seq<Vec<usize>>, a: Seq<usize>, b: Seq<usize>)
    requires
        aggregates_connected(adj, a),
        b.len() == a.len(),
        forall|i: int| 0 <= i < a.len() ==> #[trigger] a[i] != UNASSIGNED,
        forall|u: int, v: int| 0 <= u < a.len() && 0 <= v < a.len() ==> (#[trigger] b[u] == #[trigger] b[v] <==> a[u] == a[v]),
    ensures
        aggregates_connected(adj, b),
{
    assert forall|u: int, v: int|
        0 <= u < b.len() && 0 <= v < b.len() && #[trigger] b[u] == #[trigger] b[v] && b[u] != UNASSIGNED implies exists|
        p: Seq<usize>,
    | #[trigger] walk_in(adj, b, b[u], p, u, v) by {
        assert(a[u] == a[v]);
        assert(a[u] != UNASSIGNED);
        let p = choose|p: Seq<usize>| #[trigger] walk_in(adj, a, a[u], p, u, v);
        assert forall|i: int| 0 <= i < a.len() && a[i] == a[u] implies #[trigger] b[i] == b[u] by {}
        lemma_walk_relabel(adj, a, a[u], p, u, v, b, b[u]);
    }
}

/// Node `w` is listed as a neighbour by one of `members`.
pub open spec fn neighbour_of_some(adj: Seq<Vec<usize>>, members: Seq<usize>, w: usize) -> bool {
    exists|k: int| 0 <= k < members.len() && (members[k] as int) < adj.len() && #[trigger] adj[members[k] as int]@.contains(w)
}

/// The entries that `open_in` keeps are entries of the list it reads.
proof fn lemma_open_in_within(nbrs: Seq<usize>, a: Seq<usize>)
    ensures
        forall|i: int| 0 <= i < open_in(nbrs, a).len() ==> nbrs.contains(#[trigger] open_in(nbrs, a)[i]),
    decreases nbrs.len(),
{
    if nbrs.len() > 0 {
        let init = nbrs.drop_last();
        lemma_open_in_within(init, a);
        assert forall|i: int| 0 <= i < open_in(nbrs, a).len() implies nbrs.contains(#[trigger] open_in(nbrs, a)[i]) by {
            if i < open_in(init, a).len() {
                assert(open_in(nbrs, a)[i] == open_in(init, a)[i]);
                let k = choose|k: int| 0 <= k < init.len() && init[k] == open_in(init, a)[i];
                assert(nbrs[k] == init[k]);
            } else {
                assert(open_in(nbrs, a)[i] == nbrs.last());
                assert(nbrs[nbrs.len() - 1] == nbrs.last());
            }
        }
    }
}

/// Claiming `node` for `label` keeps a walk from `seed` to every member and
/// gives one to `node`: the seed itself when it is read from the head of the
/// queue, else a member that lists it as a neighbour.
proof fn lemma_claim_keeps_walks(
    adj: Seq<Vec<usize>>,
    before: Seq<usize>,
    after: Seq<usize>,
    members_before: Seq<usize>,
    members: Seq<usize>,
    seed: usize,
    node: usize,
    label: usize,
    at: int,
    queue: Seq<usize>,
)
    requires
        (node as int) < before.len(),
        after == before.update(node as int, label),
        members == members_before.push(node),
        0 <= at < queue.len(),
        queue[at] == node,
        queue[0] == seed,
        forall|q: int| 1 <= q < queue.len() ==> neighbour_of_some(adj, members_before, #[trigger] queue[q]),
        forall|k: int| 0 <= k < members_before.len() ==> #[trigger] walk_exists(adj, before, label, seed, members_before[k]),
    ensures
        forall|k: int| 0 <= k < members.len() ==> #[trigger] walk_exists(adj, after, label, seed, members[k]),
{
    assert forall|i: int| 0 <= i < before.len() && before[i] == label implies #[trigger] after[i] == label by {}
    assert forall|k: int| 0 <= k < members.len() implies #[trigger] walk_exists(adj, after, label, seed, members[k]) by {
        if k < members_before.len() {
            assert(members[k] == members_before[k]);
            assert(walk_exists(adj, before, label, seed, members_before[k]));
            let p = choose|p: Seq<usize>| #[trigger] walk_in(adj, before, label, p, seed as int, members_before[k] as int);
            lemma_walk_relabel(adj, before, label, p, seed as int, members_before[k] as int, after, label);
        } else {
            assert(members[k] == node);
            let single = seq![node];
            assert(walk_in(adj, after, label, single, node as int, node as int)) by {
                assert forall|j: int| 1 <= j < single.len() implies #[trigger] step_linked(adj, single, j) by {}
            }
            if at == 0 {
                assert(walk_in(adj, after, label, single, seed as int, members[k] as int));
            } else {
                assert(neighbour_of_some(adj, members_before, queue[at]));
                let m = choose|m: int|
                    0 <= m < members_before.len() && (members_before[m] as int) < adj.len()
                        && #[trigger] adj[members_before[m] as int]@.contains(node);
                assert(walk_exists(adj, before, label, seed, members_before[m]));
                let p = choose|p: Seq<usize>| #[trigger] walk_in(adj, before, label, p, seed as int, members_before[m] as int);
                lemma_walk_relabel(adj, before, label, p, seed as int, members_before[m] as int, after, label);
                assert(linked(adj, p[p.len() - 1], single[0]));
                lemma_walk_join(adj, after, label, p, seed as int, members_before[m] as int, single, node as int, node as int);
                assert(walk_in(adj, after, label, p + single, seed as int, members[k] as int));
            }
        }
    }
}

/// Assigns `label` to up to `cap` still-unassigned nodes, visiting them in
/// breadth-first order from `seed`, and returns them in the order visited.
pub(crate) fn grow_region(
    adjacency: &Vec<Vec<usize>>,
    assignment: &mut Vec<usize>,
    seed: usize,
    label: usize,
    cap: usize,
) -> (members: Vec<usize>)
    requires
        adjacency_ok(adjacency@),
        old(assignment)@.len() == adjacency@.len(),
        seed < adjacency@.len(),
        label != UNASSIGNED,
        cap >= 1,
        old(assignment)@[seed as int] == UNASSIGNED,
    ensures
        final(assignment)@.len() == old(assignment)@.len(),
        1 <= members@.len() <= cap,
        members@[0] == seed,
        forall|k: int| 0 <= k < members@.len() ==> #[trigger] members@[k] < adjacency@.len(),
        forall|k: int, l: int| 0 <= k < l < members@.len() ==> members@[k] != members@[l],
        forall|k: int| 0 <= k < members@.len() ==> old(assignment)@[#[trigger] members@[k] as int] == UNASSIGNED,
        forall|i: int|
            0 <= i < old(assignment)@.len() ==> #[trigger] final(assignment)@[i] == (if members@.contains(
                i as usize,
            ) {
                label
            } else {
                old(assignment)@[i]
            }),
        final(assignment)@ == relabel(old(assignment)@, members@, label),
        members@ == bfs_region(views(adjacency@), old(assignment)@, seed, cap as nat, label),
        forall|k: int| 0 <= k < members@.len() ==> #[trigger] walk_exists(adjacency@, final(assignment)@, label, seed, members@[k]),
{
    let n = adjacency.len();
    let ghost a0 = assignment@;
    let mut queue: Vec<usize> = Vec::new();
    queue.push(seed);
    let mut head: usize = 0;
    let mut members: Vec<usize> = Vec::new();
    while members.len() < cap && head < queue.len()
        invariant
            adjacency_ok(adjacency@),
            n == adjacency@.len(),
            a0 == old(assignment)@,
            assignment@.len() == n,
            label != UNASSIGNED,
            seed < n,
            a0[seed as int] == UNASSIGNED,
            head <= queue@.len(),
            queue@.len() >= 1,
            forall|k: int| 0 <= k < queue@.len() ==> #[trigger] queue@[k] < n,
            members@.len() <= cap,
            members@.len() == 0 ==> head == 0 && queue@[0] == seed,
            members@.len() > 0 ==> members@[0] == seed,
            forall|k: int| 0 <= k < members@.len() ==> #[trigger] members@[k] < n,
            forall|k: int, l: int| 0 <= k < l < members@.len() ==> members@[k] != members@[l],
            forall|k: int| 0 <= k < members@.len() ==> a0[#[trigger] members@[k] as int] == UNASSIGNED,
            forall|i: int|
                0 <= i < n ==> #[trigger] assignment@[i] == (if members@.contains(i as usize) {
                    label
                } else {
                    a0[i]
                }),
            bfs_region(views(adjacency@), a0, seed, cap as nat, label) == bfs_claims(
                views(adjacency@),
                assignment@,
                queue@,
                head as int,
                members@,
                cap as nat,
                label,
            ),
            queue@[0] == seed,
            forall|q: int| 1 <= q < queue@.len() ==> neighbour_of_some(adjacency@, members@, #[trigger] queue@[q]),
            forall|k: int| 0 <= k < members@.len() ==> #[trigger] walk_exists(adjacency@, assignment@, label, seed, members@[k]),
        decreases count_true(unassigned_seq(assignment@)), queue@.len() - head,
    {
        let node = queue[head];
        let ghost at = head as int;
        head = head + 1;
        if assignment[node] != UNASSIGNED {
            proof {
                if members@.len() == 0 {
                    assert(!members@.contains(seed));
                }
            }
            continue;
        }
        let ghost before = assignment@;
        let ghost members_before = members@;
        assignment.set(node, label);
        members.push(node);
        proof {
            assert(queue@[at] == node);
            assert(forall|q: int| 1 <= q < queue@.len() ==> neighbour_of_some(adjacency@, members_before, #[trigger] queue@[q]));
            lemma_claim_keeps_walks(adjacency@, before, assignment@, members_before, members@, seed, node, label, at, queue@);
        }
        proof {
            assert(!members_before.contains(node)) by {
                if members_before.contains(node) {
                    let k = choose|k: int| 0 <= k < members_before.len() && members_before[k] == node;
                    assert(before[node as int] == label);
                }
            }
            assert(unassigned_seq(assignment@) =~= unassigned_seq(before).update(node as int, false));
            lemma_count_update(unassigned_seq(before), node as int, false);
            assert forall|i: int| 0 <= i < n implies #[trigger] assignment@[i] == (if members@.contains(
                i as usize,
            ) {
                label
            } else {
                a0[i]
            }) by {
                if i == node as int {
                    assert(members@[members@.len() - 1] == node);
                } else {
                    assert(assignment@[i] == before[i]);
                    if members_before.contains(i as usize) {
                        let k = choose|k: int| 0 <= k < members_before.len() && members_before[k] == i as usize;
                        assert(members@[k] == i as usize);
                    }
                    if members@.contains(i as usize) {
                        let k = choose|k: int| 0 <= k < members@.len() && members@[k] == i as usize;
                        assert(k < members_before.len());
                        assert(members_before[k] == i as usize);
                    }
                }
            }
        }
        let neighbors = &adjacency[node];
        let ghost q0 = queue@;
        let mut j: usize = 0;
        while j < neighbors.len()
            invariant
                adjacency_ok(adjacency@),
                n == adjacency@.len(),
                node < n,
                neighbors@ == adjacency@[node as int]@,
                assignment@.len() == n,
                j <= neighbors@.len(),
                head <= queue@.len(),
                queue@.len() >= 1,
                forall|k: int| 0 <= k < queue@.len() ==> #[trigger] queue@[k] < n,
                queue@ == q0 + open_in(neighbors@.take(j as int), assignment@),
                members@.len() >= 1,
                members@[members@.len() - 1] == node,
            decreases neighbors@.len() - j,
        {
            let neighbor = neighbors[j];
            proof {
                assert(adjacency@[node as int]@[j as int] < n);
                assert(neighbors@.take(j + 1).drop_last() =~= neighbors@.take(j as int));
            }
            if assignment[neighbor] == UNASSIGNED {
                queue.push(neighbor);
            }
            j = j + 1;
        }
        proof {
            assert(neighbors@.take(j as int) =~= neighbors@);
            assert(assignment@ =~= before.update(node as int, label));
            lemma_open_in_within(neighbors@, assignment@);
            assert forall|q: int| 1 <= q < queue@.len() implies neighbour_of_some(adjacency@, members@, #[trigger] queue@[q]) by {
                if q < q0.len() {
                    assert(neighbour_of_some(adjacency@, members_before, q0[q]));
                    let k = choose|k: int|
                        0 <= k < members_before.len() && (members_before[k] as int) < adjacency@.len()
                            && #[trigger] adjacency@[members_before[k] as int]@.contains(q0[q]);
                    assert(members@[k] == members_before[k]);
                } else {
                    assert(queue@[q] == open_in(neighbors@, assignment@)[q - q0.len()]);
                    assert(adjacency@[members@[members@.len() - 1] as int]@.contains(queue@[q]));
                }
            }
        }
    }
    proof {
        assert(assignment@ =~= relabel(a0, members@, label));
    }
    members
}

} // verus!

verus! {

/// Sizes of the classes `0..count` of a labelling.
pub(crate) fn count_classes(assignment: &Vec<usize>, count: usize) -> (counts: Vec<usize>)
    requires
        labels_below(assignment@, count as nat),
    ensures
        counts@.len() == count,
        forall|x: int| 0 <= x < count ==> #[trigger] counts@[x] == class_size(assignment@, x),
{
    let n = assignment.len();
    let mut counts: Vec<usize> = vec![0usize; count];
    let mut i: usize = 0;
    proof {
        assert forall|x: int| 0 <= x < count implies #[trigger] counts@[x] == count_true(
            class_seq(assignment@, x).take(0),
        ) by {
            assert(class_seq(assignment@, x).take(0) =~= Seq::<bool>::empty());
        }
    }
    while i < n
        invariant
            n == assignment@.len(),
            labels_below(assignment@, count as nat),
            i <= n,
            counts@.len() == count,
            forall|x: int| 0 <= x < count ==> #[trigger] counts@[x] == count_true(
                class_seq(assignment@, x).take(i as int),
            ),
            forall|x: int| 0 <= x < count ==> #[trigger] counts@[x] <= i,
        decreases n - i,
    {
        let label = assignment[i];
        let ghost before = counts@;
        counts.set(label, counts[label] + 1);
        proof {
            assert forall|x: int| 0 <= x < count implies #[trigger] counts@[x] == count_true(
                class_seq(assignment@, x).take(i + 1),
            ) by {
                lemma_count_push(class_seq(assignment@, x), i as int);
            }
        }
        i = i + 1;
    }
    proof {
        assert forall|x: int| 0 <= x < count implies #[trigger] counts@[x] == class_size(
            assignment@,
            x,
        ) by {
            assert(class_seq(assignment@, x).take(n as int) =~= class_seq(assignment@, x));
        }
    }
    counts
}

/// Every node labelled `s` has all its neighbours labelled `s`.
pub open spec fn class_isolated(adj: Seq<Vec<usize>>, a: Seq<usize>, s: int) -> bool {
    forall|u: int, j: int|
        0 <= u < adj.len() && a[u] == s && 0 <= j < adj[u]@.len() ==> a[#[trigger] adj[u]@[j] as int] == s
}

/// Nodes with equal labels in `a` have equal labels in `b`.
pub open spec fn coarsens(a: Seq<usize>, b: Seq<usize>) -> bool {
    forall|u: int, v: int| 0 <= u < a.len() && 0 <= v < a.len() && a[u] == a[v] ==> #[trigger] b[u] == #[trigger] b[v]
}

/// Classes that are still nonempty.
pub open spec fn live_seq(counts: Seq<usize>) -> Seq<bool> {
    Seq::new(counts.len(), |x: int| counts[x] > 0)
}

/// Entries of `nbrs` whose node carries label `y` under `a`.
pub open spec fn hits(nbrs: Seq<usize>, a: Seq<usize>, y: int) -> nat
    decreases nbrs.len(),
{
    if nbrs.len() == 0 {
        0
    } else {
        hits(nbrs.drop_last(), a, y) + (if a[nbrs.last() as int] == y {
            1nat
        } else {
            0nat
        })
    }
}

/// Edges from the nodes below `u` that carry label `s` to nodes labelled `y`.
pub open spec fn edges_upto(adj: Seq<Seq<usize>>, a: Seq<usize>, s: int, y: int, u: int) -> nat
    decreases u,
{
    if u <= 0 {
        0
    } else {
        edges_upto(adj, a, s, y, u - 1) + (if a[u - 1] == s {
            hits(adj[u - 1], a, y)
        } else {
            0nat
        })
    }
}

/// `x`, or `usize::MAX` where it is larger.
pub open spec fn capped(x: nat) -> nat {
    if x > usize::MAX {
        usize::MAX as nat
    } else {
        x
    }
}

/// Edges from class `s` into class `y`, counted up to `usize::MAX`.
pub open spec fn class_edges(adj: Seq<Seq<usize>>, a: Seq<usize>, s: int, y: int) -> nat {
    capped(edges_upto(adj, a, s, y, adj.len() as int))
}

/// Class `y` could absorb class `small`: another nonempty class that an
/// edge of `small` reaches.
pub open spec fn merge_candidate(adj: Seq<Seq<usize>>, a: Seq<usize>, counts: Seq<usize>, small: int, y: int) -> bool {
    0 <= y < counts.len() && y != small && counts[y] > 0 && class_edges(adj, a, small, y) > 0
}

/// Class `y` is preferred to class `z` as the home of class `small`: more
/// edges from `small`, then fewer nodes, then the smaller label.
pub open spec fn preferred(adj: Seq<Seq<usize>>, a: Seq<usize>, counts: Seq<usize>, small: int, y: int, z: int) -> bool {
    let ey = class_edges(adj, a, small, y);
    let ez = class_edges(adj, a, small, z);
    ey > ez || (ey == ez && counts[y] < counts[z]) || (ey == ez && counts[y] == counts[z] && y < z)
}

/// Class `y` is the candidate preferred to every other one.
pub open spec fn best_home(adj: Seq<Seq<usize>>, a: Seq<usize>, counts: Seq<usize>, small: int, y: usize) -> bool {
    &&& merge_candidate(adj, a, counts, small, y as int)
    &&& forall|z: int| #[trigger] merge_candidate(adj, a, counts, small, z) && z != y ==> preferred(adj, a, counts, small, y as int, z)
}

/// The class that class `small` merges into, if it has a candidate.
pub open spec fn merge_target(adj: Seq<Seq<usize>>, a: Seq<usize>, counts: Seq<usize>, small: int) -> Option<usize> {
    if exists|y: usize| #[trigger] best_home(adj, a, counts, small, y) {
        Some(choose|y: usize| #[trigger] best_home(adj, a, counts, small, y))
    } else {
        None
    }
}

/// At most one class is the best home of a class.
proof fn lemma_best_home_unique(adj: Seq<Seq<usize>>, a: Seq<usize>, counts: Seq<usize>, small: int, y: usize)
    requires
        best_home(adj, a, counts, small, y),
    ensures
        merge_target(adj, a, counts, small) == Some(y),
{
    let c = choose|x: usize| #[trigger] best_home(adj, a, counts, small, x);
    if c != y {
        assert(preferred(adj, a, counts, small, y as int, c as int));
        assert(preferred(adj, a, counts, small, c as int, y as int));
    }
}

/// The neighbouring class with the most edges into class `small`, ties going
/// to the smaller class and then the smaller label; `None` when class
/// `small` has no edge to another nonempty class.
fn strongest_neighbor_class(
    adjacency: &Vec<Vec<usize>>,
    assignment: &Vec<usize>,
    counts: &Vec<usize>,
    small: usize,
) -> (best: Option<usize>)
    requires
        adjacency_ok(adjacency@),
        assignment@.len() == adjacency@.len(),
        labels_below(assignment@, counts@.len() as nat),
        small < counts@.len(),
        forall|x: int| 0 <= x < counts@.len() ==> #[trigger] counts@[x] == class_size(assignment@, x),
    ensures
        best matches Some(r) ==> r < counts@.len() && r != small && counts@[r as int] > 0,
        best is None ==> class_isolated(adjacency@, assignment@, small as int),
        best == merge_target(views(adjacency@), assignment@, counts@, small as int),
        best matches Some(r) ==> edge_between(adjacency@, assignment@, small as int, r as int),
{
    let ghost adj = views(adjacency@);
    let ghost a = assignment@;
    let n = adjacency.len();
    let count = counts.len();
    let mut edges: Vec<usize> = vec![0usize; count];
    let mut any = false;
    let mut node: usize = 0;
    while node < n
        invariant
            adjacency_ok(adjacency@),
            n == adjacency@.len(),
            assignment@.len() == n,
            labels_below(assignment@, count as nat),
            count == counts@.len(),
            small < count,
            forall|x: int| 0 <= x < count ==> #[trigger] counts@[x] == class_size(assignment@, x),
            edges@.len() == count,
            node <= n,
            any ==> exists|y: int| 0 <= y < count && #[trigger] edges@[y] > 0 && y != small && counts@[y] > 0,
            !any ==> forall|u: int, j: int|
                0 <= u < node && assignment@[u] == small && 0 <= j < adjacency@[u]@.len()
                    ==> assignment@[#[trigger] adjacency@[u]@[j] as int] == small,
            adj == views(adjacency@),
            a == assignment@,
            forall|y: int|
                0 <= y < count && y != small && counts@[y] > 0 ==> #[trigger] edges@[y] == capped(
                    edges_upto(adj, a, small as int, y, node as int),
                ),
            forall|y: int| 0 <= y < count && #[trigger] edges@[y] > 0 ==> edge_between(adjacency@, assignment@, small as int, y),
        decreases n - node,
    {
        if assignment[node] == small {
            let neighbors = &adjacency[node];
            assert(neighbors@ == adj[node as int]);
            let mut j: usize = 0;
            while j < neighbors.len()
                invariant
                    adjacency_ok(adjacency@),
                    n == adjacency@.len(),
                    assignment@.len() == n,
                    labels_below(assignment@, count as nat),
                    count == counts@.len(),
                    small < count,
                    forall|x: int| 0 <= x < count ==> #[trigger] counts@[x] == class_size(assignment@, x),
                    node < n,
                    assignment@[node as int] == small,
                    neighbors@ == adjacency@[node as int]@,
                    edges@.len() == count,
                    j <= neighbors@.len(),
                    any ==> exists|y: int| 0 <= y < count && #[trigger] edges@[y] > 0 && y != small && counts@[y] > 0,
                    !any ==> forall|u: int, j2: int|
                        0 <= u < node && assignment@[u] == small && 0 <= j2 < adjacency@[u]@.len()
                            ==> assignment@[#[trigger] adjacency@[u]@[j2] as int] == small,
                    !any ==> forall|j2: int| 0 <= j2 < j ==> assignment@[#[trigger] neighbors@[j2] as int] == small,
                    adj == views(adjacency@),
                    a == assignment@,
                    forall|y: int|
                        0 <= y < count && y != small && counts@[y] > 0 ==> #[trigger] edges@[y] == capped(
                            edges_upto(adj, a, small as int, y, node as int) + hits(neighbors@.take(j as int), a, y),
                        ),
                    forall|y: int| 0 <= y < count && #[trigger] edges@[y] > 0 ==> edge_between(adjacency@, assignment@, small as int, y),
                decreases neighbors@.len() - j,
            {
                let neighbor = neighbors[j];
                proof {
                    assert(adjacency@[node as int]@[j as int] < n);
                    assert(neighbors@.take(j + 1).drop_last() =~= neighbors@.take(j as int));
                }
                let other = assignment[neighbor];
                proof {
                    assert(other < count);
                    lemma_count_positive(class_seq(assignment@, other as int), neighbor as int);
                }
                if other != small && counts[other] > 0 {
                    let ghost before = edges@;
                    edges.set(other, edges[other].saturating_add(1));
                    any = true;
                    proof {
                        assert(edges@[other as int] > 0);
                        assert forall|y: int| 0 <= y < count && before[y] > 0 implies #[trigger] edges@[y] > 0 by {}
                        assert(adjacency@[node as int]@[j as int] == neighbor);
                        assert(edge_between(adjacency@, assignment@, small as int, other as int));
                        assert forall|y: int| 0 <= y < count && #[trigger] edges@[y] > 0 implies edge_between(
                            adjacency@,
                            assignment@,
                            small as int,
                            y,
                        ) by {
                            if y != other as int {
                                assert(before[y] == edges@[y]);
                            }
                        }
                    }
                }
                j = j + 1;
            }
            proof {
                assert(neighbors@.take(j as int) =~= neighbors@);
            }
        }
        node = node + 1;
    }
    let mut best: Option<usize> = None;
    let mut best_edges: usize = 0;
    let mut x: usize = 0;
    while x < count
        invariant
            count == counts@.len(),
            edges@.len() == count,
            small < count,
            x <= count,
            best matches Some(r) ==> r < count && r != small && counts@[r as int] > 0 && best_edges == edges@[r as int] && best_edges > 0,
            best is None ==> best_edges == 0,
            any ==> (best is Some || exists|y: int| x <= y < count && edges@[y] > 0 && y != small && counts@[y] > 0),
            forall|y: int|
                0 <= y < count && y != small && counts@[y] > 0 ==> #[trigger] edges@[y] == class_edges(
                    adj,
                    a,
                    small as int,
                    y,
                ),
            best matches Some(r) ==> r < x && merge_candidate(adj, a, counts@, small as int, r as int) && forall|z: int|
                0 <= z < x && #[trigger] merge_candidate(adj, a, counts@, small as int, z) && z != r ==> preferred(
                    adj,
                    a,
                    counts@,
                    small as int,
                    r as int,
                    z,
                ),
            best is None ==> forall|z: int| 0 <= z < x ==> !#[trigger] merge_candidate(adj, a, counts@, small as int, z),
        decreases count - x,
    {
        if x != small && counts[x] > 0 && edges[x] > 0 {
            let better = match best {
                None => true,
                Some(b) => edges[x] > best_edges || (edges[x] == best_edges && counts[x] < counts[b]),
            };
            if better {
                best = Some(x);
                best_edges = edges[x];
            }
        }
        x = x + 1;
    }
    proof {
        if best is None {
            assert(!any);
            assert forall|y: usize| !#[trigger] best_home(adj, a, counts@, small as int, y) by {
                if best_home(adj, a, counts@, small as int, y) {
                    assert(merge_candidate(adj, a, counts@, small as int, y as int));
                }
            }
        } else {
            let r = best->0;
            assert forall|z: int| #[trigger] merge_candidate(adj, a, counts@, small as int, z) && z != r implies preferred(
                adj,
                a,
                counts@,
                small as int,
                r as int,
                z,
            ) by {
                assert(0 <= z < x);
            }
            lemma_best_home_unique(adj, a, counts@, small as int, r);
        }
    }
    best
}

} // verus!

verus! {

/// `counts[x]` is the size of class `x` for every label below `counts.len()`.
pub open spec fn counts_match(a: Seq<usize>, counts: Seq<usize>) -> bool {
    forall|x: int| 0 <= x < counts.len() ==> #[trigger] counts[x] == class_size(a, x)
}

/// Moves every node of class `small` into class `rep`.
fn relabel_class(assignment: &mut Vec<usize>, counts: &mut Vec<usize>, small: usize, rep: usize)
    requires
        labels_below(old(assignment)@, old(counts)@.len() as nat),
        counts_match(old(assignment)@, old(counts)@),
        small < old(counts)@.len(),
        rep < old(counts)@.len(),
        small != rep,
    ensures
        final(assignment)@.len() == old(assignment)@.len(),
        final(counts)@.len() == old(counts)@.len(),
        labels_below(final(assignment)@, final(counts)@.len() as nat),
        counts_match(final(assignment)@, final(counts)@),
        forall|w: int|
            0 <= w < old(assignment)@.len() ==> #[trigger] final(assignment)@[w] == (if old(assignment)@[w]
                == small {
                rep
            } else {
                old(assignment)@[w]
            }),
        coarsens(old(assignment)@, final(assignment)@),
        final(counts)@[rep as int] == old(counts)@[rep as int] + old(counts)@[small as int],
        final(counts)@[small as int] == 0,
        forall|x: int| 0 <= x < old(counts)@.len() && x != rep && x != small ==> #[trigger] final(counts)@[x] == old(counts)@[x],
{
    let n = assignment.len();
    let ghost a0 = assignment@;
    let mut w: usize = 0;
    while w < n
        invariant
            n == assignment@.len(),
            n == a0.len(),
            w <= n,
            forall|v: int| 0 <= v < w ==> #[trigger] assignment@[v] == (if a0[v] == small { rep } else { a0[v] }),
            forall|v: int| w <= v < n ==> #[trigger] assignment@[v] == a0[v],
        decreases n - w,
    {
        if assignment[w] == small {
            assignment.set(w, rep);
        }
        w = w + 1;
    }
    let ghost a1 = assignment@;
    proof {
        assert(class_seq(a1, rep as int).len() == n);
        lemma_count_disjoint_or(class_seq(a0, rep as int), class_seq(a0, small as int), class_seq(a1, rep as int));
        crate::mask::lemma_count_bound(class_seq(a1, rep as int));
        assert(class_seq(a1, small as int) =~= Seq::new(n as nat, |v: int| false));
        lemma_count_zero(class_seq(a1, small as int));
    }
    let total = counts[rep] + counts[small];
    counts.set(rep, total);
    counts.set(small, 0);
    proof {
        assert forall|x: int| 0 <= x < counts@.len() implies #[trigger] counts@[x] == class_size(a1, x) by {
            if x != rep && x != small {
                assert(class_seq(a1, x) =~= class_seq(a0, x));
            }
        }
        assert forall|i: int| 0 <= i < a1.len() implies #[trigger] a1[i] < counts@.len() by {
            assert(a0[i] < counts@.len());
        }
    }
}

/// `a` with every node of class `s` moved to class `r`.
pub open spec fn move_class(a: Seq<usize>, s: usize, r: usize) -> Seq<usize> {
    Seq::new(a.len(), |w: int| if a[w] == s { r } else { a[w] })
}

/// The size of two classes joined, held in a `usize`.
pub open spec fn joined(x: usize, y: usize) -> usize {
    if x + y > usize::MAX {
        usize::MAX
    } else {
        (x + y) as usize
    }
}

/// One merging pass over the classes from `small` on: every nonempty class
/// with fewer than `floor` nodes that has a merge target moves into it. The
/// labelling, the class sizes, and whether any class moved.
pub open spec fn merge_pass(
    adj: Seq<Seq<usize>>,
    a: Seq<usize>,
    counts: Seq<usize>,
    small: int,
    floor: nat,
    merged: bool,
) -> (Seq<usize>, Seq<usize>, bool)
    decreases counts.len() - small,
{
    if small < 0 || small >= counts.len() {
        (a, counts, merged)
    } else if counts[small] == 0 || counts[small] >= floor {
        merge_pass(adj, a, counts, small + 1, floor, merged)
    } else {
        match merge_target(adj, a, counts, small) {
            None => merge_pass(adj, a, counts, small + 1, floor, merged),
            Some(rep) => merge_pass(
                adj,
                move_class(a, small as usize, rep),
                counts.update(rep as int, joined(counts[rep as int], counts[small])).update(small, 0),
                small + 1,
                floor,
                true,
            ),
        }
    }
}

/// A pass keeps the number of classes and never revives one; a pass that
/// moves a class empties one.
pub proof fn lemma_merge_pass_shrinks(
    adj: Seq<Seq<usize>>,
    a: Seq<usize>,
    counts: Seq<usize>,
    small: int,
    floor: nat,
    merged: bool,
)
    requires
        0 <= small,
    ensures
        merge_pass(adj, a, counts, small, floor, merged).1.len() == counts.len(),
        count_true(live_seq(merge_pass(adj, a, counts, small, floor, merged).1)) <= count_true(live_seq(counts)),
        merge_pass(adj, a, counts, small, floor, merged).2 && !merged ==> count_true(
            live_seq(merge_pass(adj, a, counts, small, floor, merged).1),
        ) < count_true(live_seq(counts)),
    decreases counts.len() - small,
{
    if small < counts.len() && !(counts[small] == 0 || counts[small] >= floor) {
        match merge_target(adj, a, counts, small) {
            None => {
                lemma_merge_pass_shrinks(adj, a, counts, small + 1, floor, merged);
            },
            Some(rep) => {
                let y = choose|y: usize| #[trigger] best_home(adj, a, counts, small, y);
                assert(best_home(adj, a, counts, small, y));
                assert(rep == y);
                let c2 = counts.update(rep as int, joined(counts[rep as int], counts[small])).update(small, 0);
                assert(live_seq(c2) =~= live_seq(counts).update(small, false));
                lemma_count_update(live_seq(counts), small, false);
                lemma_merge_pass_shrinks(adj, move_class(a, small as usize, rep), c2, small + 1, floor, true);
            },
        }
    } else if small < counts.len() {
        lemma_merge_pass_shrinks(adj, a, counts, small + 1, floor, merged);
    }
}

/// Merging passes repeated until one moves no class; the final labelling.
pub open spec fn merge_fix(adj: Seq<Seq<usize>>, a: Seq<usize>, counts: Seq<usize>, floor: nat) -> Seq<usize>
    decreases count_true(live_seq(counts)),
{
    let pass = merge_pass(adj, a, counts, 0, floor, false);
    if pass.2 {
        proof {
            lemma_merge_pass_shrinks(adj, a, counts, 0, floor, false);
        }
        merge_fix(adj, pass.0, pass.1, floor)
    } else {
        a
    }
}

/// Repeatedly merges every nonempty class with fewer than `floor` nodes
/// into its strongest neighbouring class, until no such class has a
/// neighbour outside itself.
fn merge_small_classes(
    adjacency: &Vec<Vec<usize>>,
    assignment: &mut Vec<usize>,
    counts: &mut Vec<usize>,
    floor: usize,
    Ghost(lo): Ghost<nat>,
)
    requires
        adjacency_ok(adjacency@),
        old(assignment)@.len() == adjacency@.len(),
        labels_below(old(assignment)@, old(counts)@.len() as nat),
        counts_match(old(assignment)@, old(counts)@),
        forall|x: int| 0 <= x < old(counts)@.len() ==> #[trigger] old(counts)@[x] == 0 || old(counts)@[x] >= lo,
    ensures
        final(assignment)@.len() == old(assignment)@.len(),
        final(counts)@.len() == old(counts)@.len(),
        labels_below(final(assignment)@, final(counts)@.len() as nat),
        counts_match(final(assignment)@, final(counts)@),
        coarsens(old(assignment)@, final(assignment)@),
        small_classes_isolated(adjacency@, final(assignment)@, floor as nat),
        forall|x: int| 0 <= x < final(counts)@.len() ==> #[trigger] final(counts)@[x] == 0 || final(counts)@[x] >= lo,
        final(assignment)@ == merge_fix(views(adjacency@), old(assignment)@, old(counts)@, floor as nat),
        aggregates_connected(adjacency@, old(assignment)@) ==> aggregates_connected(adjacency@, final(assignment)@),
{
    let count = counts.len();
    let n = assignment.len();
    let ghost a0 = assignment@;
    let ghost adj = views(adjacency@);
    let ghost outcome = merge_fix(adj, assignment@, counts@, floor as nat);
    loop
        invariant
            adjacency_ok(adjacency@),
            n == adjacency@.len(),
            assignment@.len() == n,
            a0.len() == n,
            counts@.len() == count,
            labels_below(assignment@, count as nat),
            counts_match(assignment@, counts@),
            coarsens(a0, assignment@),
            forall|x: int| 0 <= x < count ==> #[trigger] counts@[x] == 0 || counts@[x] >= lo,
            adj == views(adjacency@),
            outcome == merge_fix(adj, assignment@, counts@, floor as nat),
            aggregates_connected(adjacency@, a0) ==> aggregates_connected(adjacency@, assignment@),
        ensures
            small_classes_isolated(adjacency@, assignment@, floor as nat),
            outcome == assignment@,
        decreases count_true(live_seq(counts@)),
    {
        let ghost pass_a = assignment@;
        let ghost pass_counts = counts@;
        let mut merged_any = false;
        let mut small: usize = 0;
        while small < count
            invariant
                adjacency_ok(adjacency@),
                n == adjacency@.len(),
                assignment@.len() == n,
                a0.len() == n,
                counts@.len() == count,
                pass_counts.len() == count,
                labels_below(assignment@, count as nat),
                counts_match(assignment@, counts@),
                coarsens(a0, assignment@),
                forall|x: int| 0 <= x < count ==> #[trigger] counts@[x] == 0 || counts@[x] >= lo,
                small <= count,
                !merged_any ==> assignment@ == pass_a && counts@ == pass_counts,
                merged_any ==> count_true(live_seq(counts@)) < count_true(live_seq(pass_counts)),
                !merged_any ==> forall|s: int|
                    0 <= s < small && 0 < #[trigger] counts@[s] < floor ==> class_isolated(adjacency@, assignment@, s),
                adj == views(adjacency@),
                merge_pass(adj, pass_a, pass_counts, 0, floor as nat, false) == merge_pass(
                    adj,
                    assignment@,
                    counts@,
                    small as int,
                    floor as nat,
                    merged_any,
                ),
                aggregates_connected(adjacency@, a0) ==> aggregates_connected(adjacency@, assignment@),
            decreases count - small,
        {
            if counts[small] == 0 || counts[small] >= floor {
                small = small + 1;
                continue;
            }
            let best = strongest_neighbor_class(adjacency, assignment, counts, small);
            match best {
                None => {},
                Some(rep) => {
                    let ghost a_before = assignment@;
                    let ghost c_before = counts@;
                    relabel_class(assignment, counts, small, rep);
                    proof {
                        assert(assignment@ =~= move_class(a_before, small, rep));
                        if aggregates_connected(adjacency@, a0) {
                            lemma_move_connected(adjacency@, a_before, small, rep);
                        }
                        assert(counts@ =~= c_before.update(
                            rep as int,
                            joined(c_before[rep as int], c_before[small as int]),
                        ).update(small as int, 0));
                        assert forall|u: int, v: int|
                            0 <= u < n && 0 <= v < n && a0[u] == a0[v] implies #[trigger] assignment@[u]
                            == #[trigger] assignment@[v] by {
                            assert(a_before[u] == a_before[v]);
                        }
                        assert(live_seq(counts@) =~= live_seq(c_before).update(small as int, false));
                        lemma_count_update(live_seq(c_before), small as int, false);
                    }
                    merged_any = true;
                },
            }
            small = small + 1;
        }
        if !merged_any {
            proof {
                assert forall|u: int, j: int|
                    0 <= u < adjacency@.len() && 0 <= j < adjacency@[u]@.len() && class_size(
                        assignment@,
                        assignment@[u] as int,
                    ) < floor implies assignment@[#[trigger] adjacency@[u]@[j] as int]
                    == assignment@[u] by {
                    let s = assignment@[u] as int;
                    lemma_count_positive(class_seq(assignment@, s), u);
                    assert(0 < counts@[s] < floor);
                    assert(class_isolated(adjacency@, assignment@, s));
                }
            }
            break;
        }
    }
}

} // verus!

verus! {

/// Some node before `i` has a label whose number is `k`.
pub open spec fn number_taken(remap: Seq<usize>, a: Seq<usize>, i: int, k: int) -> bool {
    exists|j: int| 0 <= j < i && #[trigger] remap[a[j] as int] == k
}

/// Renumbers the labels `0..count` in order of first appearance.
fn compact_labels(assignment: &mut Vec<usize>, count: usize) -> (compact: usize)
    requires
        labels_below(old(assignment)@, count as nat),
    ensures
        final(assignment)@.len() == old(assignment)@.len(),
        compact <= count,
        old(assignment)@.len() > 0 ==> compact >= 1,
        labels_below(final(assignment)@, compact as nat),
        first_appearance_order(final(assignment)@),
        all_labels_used(final(assignment)@, compact as nat),
        forall|u: int, v: int|
            0 <= u < old(assignment)@.len() && 0 <= v < old(assignment)@.len() ==> (#[trigger] final(assignment)@[u]
                == #[trigger] final(assignment)@[v] <==> old(assignment)@[u] == old(assignment)@[v]),
{
    let n = assignment.len();
    let ghost a = assignment@;
    let mut remap: Vec<usize> = vec![usize::MAX; count];
    let mut compact: usize = 0;
    let mut i: usize = 0;
    while i < n
        invariant
            n == a.len(),
            a == assignment@,
            labels_below(a, count as nat),
            remap@.len() == count,
            i <= n,
            compact <= i,
            compact <= count,
            forall|j: int| 0 <= j < i ==> #[trigger] remap@[a[j] as int] != usize::MAX,
            forall|x: int| 0 <= x < count && #[trigger] remap@[x] != usize::MAX ==> remap@[x] < compact && label_before(a, i as int, x),
            forall|x: int, y: int|
                0 <= x < count && 0 <= y < count && #[trigger] remap@[x] != usize::MAX && remap@[x] == #[trigger] remap@[y] ==> x == y,
            forall|k: int| 0 <= k < compact ==> #[trigger] number_taken(remap@, a, i as int, k),
            forall|j: int, k: int| 0 <= j < i && 0 <= k < remap@[a[j] as int] ==> #[trigger] number_taken(remap@, a, j, k),
            i > 0 ==> compact >= 1,
        decreases n - i,
    {
        let label = assignment[i];
        if remap[label] == usize::MAX {
            let ghost before = remap@;
            proof {
                assert forall|j: int| 0 <= j < i implies a[j] != label by {
                    assert(before[a[j] as int] != usize::MAX);
                }
                assert(compact < count) by {
                    // every label that got a number is distinct from `label` and below `count`;
                    // `compact` of them exist, all different, so there is room for one more.
                    lemma_distinct_numbers_bound(before, a, i as int, compact as int, label as int);
                }
            }
            remap.set(label, compact);
            compact = compact + 1;
            proof {
                assert forall|x: int| 0 <= x < count && #[trigger] remap@[x] != usize::MAX implies remap@[x]
                    < compact && label_before(a, i + 1, x) by {
                    if x == label as int {
                        assert(a[i as int] == x);
                    } else {
                        assert(label_before(a, i as int, x));
                        let j = choose|j: int| 0 <= j < i && #[trigger] a[j] == x;
                        assert(0 <= j < i + 1 && a[j] == x);
                    }
                }
                assert forall|k: int| 0 <= k < compact implies #[trigger] number_taken(remap@, a, i + 1, k) by {
                    if k == compact - 1 {
                        assert(remap@[a[i as int] as int] == k);
                    } else {
                        assert(number_taken(before, a, i as int, k));
                        let j = choose|j: int| 0 <= j < i && #[trigger] before[a[j] as int] == k;
                        assert(a[j] != label);
                        assert(remap@[a[j] as int] == k);
                    }
                }
                assert forall|j: int, k: int| 0 <= j < i + 1 && 0 <= k < remap@[a[j] as int] implies #[trigger] number_taken(remap@, a, j, k) by {
                    if j == i {
                        assert(number_taken(before, a, i as int, k));
                        let j2 = choose|j2: int| 0 <= j2 < i && #[trigger] before[a[j2] as int] == k;
                        assert(a[j2] != label);
                        assert(remap@[a[j2] as int] == k);
                    } else {
                        assert(a[j] != label);
                        assert(number_taken(before, a, j, k));
                        let j2 = choose|j2: int| 0 <= j2 < j && #[trigger] before[a[j2] as int] == k;
                        assert(a[j2] != label);
                        assert(remap@[a[j2] as int] == k);
                    }
                }
            }
        } else {
            proof {
                assert forall|x: int| 0 <= x < count && #[trigger] remap@[x] != usize::MAX implies remap@[x]
                    < compact && label_before(a, i + 1, x) by {
                    let j = choose|j: int| 0 <= j < i && #[trigger] a[j] == x;
                    assert(0 <= j < i + 1 && a[j] == x);
                }
                assert forall|k: int| 0 <= k < compact implies #[trigger] number_taken(remap@, a, i + 1, k) by {
                    assert(number_taken(remap@, a, i as int, k));
                    let j = choose|j: int| 0 <= j < i && #[trigger] remap@[a[j] as int] == k;
                    assert(0 <= j < i + 1);
                }
                assert forall|j: int, k: int| 0 <= j < i + 1 && 0 <= k < remap@[a[j] as int] implies #[trigger] number_taken(remap@, a, j, k) by {
                    if j == i {
                        assert(label_before(a, i as int, label as int));
                        let w = choose|w: int| 0 <= w < i && #[trigger] a[w] == label;
                        assert(remap@[a[w] as int] == remap@[label as int]);
                        assert(number_taken(remap@, a, w, k));
                        let j2 = choose|j2: int| 0 <= j2 < w && #[trigger] remap@[a[j2] as int] == k;
                        assert(0 <= j2 < j);
                    }
                }
            }
        }
        i = i + 1;
    }
    let mut w: usize = 0;
    while w < n
        invariant
            n == a.len(),
            assignment@.len() == n,
            labels_below(a, count as nat),
            remap@.len() == count,
            w <= n,
            forall|j: int| 0 <= j < n ==> #[trigger] remap@[a[j] as int] != usize::MAX,
            forall|j: int| 0 <= j < n ==> #[trigger] remap@[a[j] as int] < compact,
            forall|v: int| 0 <= v < w ==> #[trigger] assignment@[v] == remap@[a[v] as int],
            forall|v: int| w <= v < n ==> #[trigger] assignment@[v] == a[v],
        decreases n - w,
    {
        let label = assignment[w];
        assignment.set(w, remap[label]);
        w = w + 1;
    }
    proof {
        let b = assignment@;
        assert forall|j: int| 0 <= j < n implies #[trigger] remap@[a[j] as int] < compact by {
            assert(remap@[a[j] as int] != usize::MAX);
        }
        assert forall|i2: int, k: int| 0 <= i2 < b.len() && 0 <= k < b[i2] implies #[trigger] label_before(b, i2, k) by {
            assert(b[i2] == remap@[a[i2] as int]);
            assert(number_taken(remap@, a, i2, k));
            let j2 = choose|j2: int| 0 <= j2 < i2 && #[trigger] remap@[a[j2] as int] == k;
            assert(b[j2] == k);
        }
        assert forall|k: int| 0 <= k < compact implies #[trigger] label_before(b, b.len() as int, k) by {
            assert(number_taken(remap@, a, n as int, k));
            let j = choose|j: int| 0 <= j < n && #[trigger] remap@[a[j] as int] == k;
            assert(b[j] == k);
        }
        if n > 0 {
            assert(remap@[a[0] as int] != usize::MAX);
        }
    }
    compact
}

/// If each of the numbers `0..m` is the number of a label `a[j]`, `j < i`,
/// and the label `fresh` has no number yet, there are more than `m` labels.
proof fn lemma_distinct_numbers_bound(remap: Seq<usize>, a: Seq<usize>, i: int, m: int, fresh: int)
    requires
        0 <= fresh < remap.len(),
        remap[fresh] == usize::MAX,
        0 <= m <= usize::MAX,
        0 <= i <= a.len(),
        forall|j: int| 0 <= j < i ==> #[trigger] a[j] < remap.len(),
        forall|k: int| 0 <= k < m ==> #[trigger] number_taken(remap, a, i, k),
    ensures
        m < remap.len(),
{
    let f = |k: int| a[choose|j: int| 0 <= j < i && #[trigger] remap[a[j] as int] == k] as int;
    assert forall|k: int| 0 <= k < m implies 0 <= #[trigger] f(k) < remap.len() && f(k) != fresh && remap[f(k)] == k by {
        assert(number_taken(remap, a, i, k));
        let j = choose|j: int| 0 <= j < i && #[trigger] remap[a[j] as int] == k;
        assert(a[j] < remap.len());
        assert(f(k) == a[j] as int);
    }
    assert forall|k: int, l: int| 0 <= k < l < m implies #[trigger] f(k) != #[trigger] f(l) by {
        assert(remap[f(k)] == k);
        assert(remap[f(l)] == l);
    }
    lemma_injection_bound(f, m, remap.len() as int, fresh);
}

/// An injection from `0..m` into `0..size` that misses `fresh` forces `m < size`.
proof fn lemma_injection_bound(f: spec_fn(int) -> int, m: int, size: int, fresh: int)
    requires
        0 <= m,
        0 <= fresh < size,
        forall|k: int| 0 <= k < m ==> 0 <= #[trigger] f(k) < size && f(k) != fresh,
        forall|k: int, l: int| 0 <= k < l < m ==> #[trigger] f(k) != #[trigger] f(l),
    ensures
        m < size,
{
    let g = |k: int| if k == m { fresh } else { f(k) };
    assert forall|k: int| 0 <= k < m + 1 implies 0 <= #[trigger] g(k) < size by {}
    assert forall|k: int, l: int| 0 <= k < l < m + 1 implies #[trigger] g(k) != #[trigger] g(l) by {}
    lemma_injection_into(g, m + 1, size);
}

/// An injection from `0..m` into `0..size` forces `m <= size`.
pub proof fn lemma_injection_into(f: spec_fn(int) -> int, m: int, size: int)
    requires
        0 <= m,
        0 <= size,
        forall|k: int| 0 <= k < m ==> 0 <= #[trigger] f(k) < size,
        forall|k: int, l: int| 0 <= k < l < m ==> #[trigger] f(k) != #[trigger] f(l),
    ensures
        m <= size,
    decreases m,
{
    if m > 0 {
        let last = f(m - 1);
        let g = |k: int| if f(k) == size - 1 { last } else { f(k) };
        assert forall|k: int| 0 <= k < m - 1 implies 0 <= #[trigger] g(k) < size - 1 by {
            assert(f(k) != last);
        }
        assert forall|k: int, l: int| 0 <= k < l < m - 1 implies #[trigger] g(k) != #[trigger] g(l) by {}
        lemma_injection_into(g, m - 1, size - 1);
    }
}

} // verus!

verus! {

/// The labelling `a` with `count` labels covers all nodes, numbers its
/// labels `0..count` in order of first appearance, uses every label, and
/// leaves no aggregate smaller than `floor` with a neighbour outside itself.
pub open spec fn aggregation_ok(adj: Seq<Vec<usize>>, a: Seq<usize>, count: nat, floor: nat) -> bool {
    &&& a.len() == adj.len()
    &&& count >= 1
    &&& labels_below(a, count)
    &&& first_appearance_order(a)
    &&& all_labels_used(a, count)
    &&& small_classes_isolated(adj, a, floor)
}

/// Two labellings that induce the same partition have the same class sizes
/// and the same isolation property.
proof fn lemma_same_partition(adj: Seq<Vec<usize>>, a: Seq<usize>, b: Seq<usize>, floor: nat)
    requires
        adjacency_ok(adj),
        a.len() == adj.len(),
        b.len() == a.len(),
        forall|u: int, v: int| 0 <= u < a.len() && 0 <= v < a.len() ==> (#[trigger] b[u] == #[trigger] b[v] <==> a[u] == a[v]),
        small_classes_isolated(adj, a, floor),
    ensures
        small_classes_isolated(adj, b, floor),
{
    assert forall|u: int, j: int|
        0 <= u < adj.len() && 0 <= j < adj[u]@.len() && class_size(b, b[u] as int) < floor implies b[#[trigger] adj[u]@[j] as int] == b[u] by {
        assert(class_seq(b, b[u] as int) =~= class_seq(a, a[u] as int));
        let v = adj[u]@[j] as int;
        assert(a[v] == a[u]);
    }
}

/// Class sizes of a labelling with labels `0..count`.
pub open spec fn class_counts(a: Seq<usize>, count: nat) -> Seq<usize> {
    Seq::new(count, |x: int| class_size(a, x) as usize)
}

/// `b` renumbers the classes of `a` as `0..count` in order of first
/// appearance: it has the same classes, its labels appear in increasing
/// order, and every label is used.
pub open spec fn renumbered(b: Seq<usize>, count: nat, a: Seq<usize>) -> bool {
    &&& b.len() == a.len()
    &&& labels_below(b, count)
    &&& first_appearance_order(b)
    &&& all_labels_used(b, count)
    &&& forall|u: int, v: int|
        0 <= u < a.len() && 0 <= v < a.len() ==> (#[trigger] b[u] == #[trigger] b[v] <==> a[u] == a[v])
}

/// The classes of a piecewise-constant graph aggregation before they are
/// renumbered: regions of up to `target` nodes grown breadth-first from
/// every node still unassigned, in increasing order, then small classes
/// merged until none can move.
pub open spec fn piecewise_aggregates(adj: Seq<Seq<usize>>, target: nat) -> Seq<usize> {
    let grown = grow_from(adj, Seq::new(adj.len(), |i: int| UNASSIGNED), 0, 0, target);
    merge_fix(adj, grown.0, class_counts(grown.0, grown.1), merge_floor(target, 1))
}

/// Larger of `target / 4` and `least`.
pub open spec fn merge_floor(target: nat, least: nat) -> nat {
    if target / 4 > least { target / 4 } else { least }
}

/// Groups the nodes of a block graph into aggregates: breadth-first regions
/// of at most `target_size` nodes grown from the lowest unassigned node,
/// after which every region smaller than `max(target_size / 4, 1)` is merged
/// into the neighbouring region it shares most edges with. Returns the
/// aggregate of every node and the number of aggregates. Every aggregate is
/// connected in the graph (edges taken in either direction).
pub fn build_piecewise_constant_graph_aggregates(adjacency: &Vec<Vec<usize>>, target_size: usize) -> (result: Result<
    (Vec<usize>, usize),
    HybitError,
>)
    requires
        adjacency_ok(adjacency@),
    ensures
        target_size == 0 ==> result == Err::<(Vec<usize>, usize), HybitError>(
            HybitError::InvalidArgument("graph two-level target aggregate size must be > 0"),
        ),
        target_size > 0 && adjacency@.len() == 0 ==> result == Err::<(Vec<usize>, usize), HybitError>(
            HybitError::InvalidArgument("graph two-level aggregation requires at least one node"),
        ),
        target_size > 0 && adjacency@.len() > 0 ==> result.is_ok(),
        result matches Ok((a, count)) ==> aggregation_ok(
            adjacency@,
            a@,
            count as nat,
            merge_floor(target_size as nat, 1),
        ),
        result matches Ok((a, count)) ==> renumbered(
            a@,
            count as nat,
            piecewise_aggregates(views(adjacency@), target_size as nat),
        ),
        result matches Ok((a, count)) ==> aggregates_connected(adjacency@, a@),
{
    if target_size == 0 {
        return Err(HybitError::InvalidArgument("graph two-level target aggregate size must be > 0"));
    }
    let n = adjacency.len();
    if n == 0 {
        return Err(HybitError::InvalidArgument("graph two-level aggregation requires at least one node"));
    }
    let mut assignment: Vec<usize> = vec![UNASSIGNED; n];
    let ghost adj = views(adjacency@);
    let ghost grown = grow_from(adj, assignment@, 0, 0, target_size as nat);
    assert(assignment@ =~= Seq::new(adj.len(), |i: int| UNASSIGNED));
    assert(aggregates_connected(adjacency@, assignment@));
    let mut count: usize = 0;
    let mut seed: usize = 0;
    while seed < n
        invariant
            adjacency_ok(adjacency@),
            n == adjacency@.len(),
            assignment@.len() == n,
            target_size >= 1,
            seed <= n,
            count <= seed,
            forall|i: int| 0 <= i < seed ==> #[trigger] assignment@[i] != UNASSIGNED,
            forall|i: int| 0 <= i < n ==> #[trigger] assignment@[i] == UNASSIGNED || assignment@[i] < count,
            adj == views(adjacency@),
            grown == grow_from(adj, assignment@, seed as int, count as nat, target_size as nat),
            aggregates_connected(adjacency@, assignment@),
        decreases n - seed,
    {
        if assignment[seed] == UNASSIGNED {
            let ghost before = assignment@;
            let members = grow_region(adjacency, &mut assignment, seed, count, target_size);
            proof {
                lemma_new_region_connected(adjacency@, before, assignment@, members@, seed, count);
                assert(members@.contains(seed));
                assert forall|i: int| 0 <= i < n implies #[trigger] assignment@[i] == UNASSIGNED || assignment@[i] < count + 1 by {
                    assert(assignment@[i] == (if members@.contains(i as usize) { count } else { before[i] }));
                }
            }
            count = count + 1;
        }
        seed = seed + 1;
    }
    proof {
        assert forall|i: int| 0 <= i < n implies #[trigger] assignment@[i] < count by {}
    }
    let mut counts = count_classes(&assignment, count);
    assert(counts@ =~= class_counts(grown.0, grown.1));
    let quarter = target_size / 4;
    let floor = if quarter > 1 { quarter } else { 1 };
    merge_small_classes(adjacency, &mut assignment, &mut counts, floor, Ghost(0));
    let ghost merged = assignment@;
    let compact = compact_labels(&mut assignment, count);
    proof {
        lemma_same_partition(adjacency@, merged, assignment@, floor as nat);
        lemma_partition_connected(adjacency@, merged, assignment@);
    }
    Ok((assignment, compact))
}

/// The aggregate a node of a too-small region joins: that of its first
/// neighbour already in an earlier aggregate, or else the last aggregate
/// built (`count - 1`).
pub open spec fn first_settled(nbrs: Seq<usize>, a: Seq<usize>, count: usize) -> usize
    decreases nbrs.len(),
{
    if nbrs.len() == 0 {
        (count - 1) as usize
    } else {
        let l = a[nbrs[0] as int];
        if l != UNASSIGNED && l != count {
            l
        } else {
            first_settled(nbrs.drop_first(), a, count)
        }
    }
}

/// Moves the nodes `members[m..]` of a too-small region, one after the
/// other, to the aggregate each joins.
pub open spec fn dissolve(adj: Seq<Seq<usize>>, a: Seq<usize>, members: Seq<usize>, m: int, count: usize) -> Seq<
    usize,
>
    decreases members.len() - m,
{
    if m < 0 || m >= members.len() {
        a
    } else {
        let node = members[m];
        dissolve(adj, a.update(node as int, first_settled(adj[node as int], a, count)), members, m + 1, count)
    }
}

/// Neighbour `j` of member `k` already belongs to an aggregate other than
/// `count` under `a`.
pub open spec fn settled_at(adj: Seq<Seq<usize>>, a: Seq<usize>, members: Seq<usize>, k: int, j: int, count: usize) -> bool {
    &&& 0 <= k < members.len()
    &&& (members[k] as int) < adj.len()
    &&& 0 <= j < adj[members[k] as int].len()
    &&& (adj[members[k] as int][j] as int) < a.len()
    &&& a[adj[members[k] as int][j] as int] != UNASSIGNED
    &&& a[adj[members[k] as int][j] as int] != count
}

/// Some member of the region lists a neighbour that already belongs to an
/// earlier aggregate: the region is not a component of its own.
pub open spec fn touches_settled(adj: Seq<Seq<usize>>, a: Seq<usize>, members: Seq<usize>, count: usize) -> bool {
    exists|k: int, j: int| #[trigger] settled_at(adj, a, members, k, j, count)
}

/// Rigid-body region growing from node `start` on: every node still
/// unassigned, in increasing order, claims up to `cap` unassigned nodes
/// breadth-first; a region of three or more nodes becomes the next
/// aggregate, a smaller one that lists a neighbour in an earlier aggregate is
/// dissolved into earlier aggregates, and a smaller one with no such
/// neighbour (a component too small for six rigid-body modes) makes the
/// growing fail (`None`). The labelling and the number of aggregates.
pub open spec fn rigid_grow_from(adj: Seq<Seq<usize>>, a: Seq<usize>, start: int, count: nat, cap: nat) -> Option<
    (Seq<usize>, nat),
>
    decreases adj.len() - start,
{
    if start < 0 || start >= adj.len() {
        Some((a, count))
    } else if start < a.len() && a[start] == UNASSIGNED {
        let m = bfs_region(adj, a, start as usize, cap, count as usize);
        let a1 = relabel(a, m, count as usize);
        if m.len() >= 3 {
            rigid_grow_from(adj, a1, start + 1, count + 1, cap)
        } else if count == 0 || !touches_settled(adj, a1, m, count as usize) {
            None
        } else {
            rigid_grow_from(adj, dissolve(adj, a1, m, 0, count as usize), start + 1, count, cap)
        }
    } else {
        rigid_grow_from(adj, a, start + 1, count, cap)
    }
}

/// The classes of a rigid-body graph aggregation before they are
/// renumbered, or `None` where a region too small to stand alone has no
/// neighbour in an earlier aggregate to join.
pub open spec fn rigid_aggregates(adj: Seq<Seq<usize>>, target: nat) -> Option<Seq<usize>> {
    match rigid_grow_from(adj, Seq::new(adj.len(), |i: int| UNASSIGNED), 0, 0, target) {
        Some((g, c)) => Some(merge_fix(adj, g, class_counts(g, c), merge_floor(target, 3))),
        None => None,
    }
}

/// Whether some member of the region lists a neighbour that already belongs
/// to an aggregate other than `count`.
fn region_touches_settled(
    adjacency: &Vec<Vec<usize>>,
    assignment: &Vec<usize>,
    members: &Vec<usize>,
    count: usize,
) -> (touches: bool)
    requires
        adjacency_ok(adjacency@),
        assignment@.len() == adjacency@.len(),
        forall|k: int| 0 <= k < members@.len() ==> #[trigger] members@[k] < adjacency@.len(),
    ensures
        touches == touches_settled(views(adjacency@), assignment@, members@, count),
{
    let ghost adj = views(adjacency@);
    let n = adjacency.len();
    let mut k: usize = 0;
    while k < members.len()
        invariant
            adjacency_ok(adjacency@),
            n == adjacency@.len(),
            assignment@.len() == n,
            adj == views(adjacency@),
            forall|k2: int| 0 <= k2 < members@.len() ==> #[trigger] members@[k2] < n,
            k <= members@.len(),
            forall|k2: int, j2: int| 0 <= k2 < k ==> !#[trigger] settled_at(adj, assignment@, members@, k2, j2, count),
        decreases members@.len() - k,
    {
        let node = members[k];
        let neighbors = &adjacency[node];
        assert(neighbors@ == adj[node as int]);
        let mut j: usize = 0;
        while j < neighbors.len()
            invariant
                adjacency_ok(adjacency@),
                n == adjacency@.len(),
                assignment@.len() == n,
                adj == views(adjacency@),
                k < members@.len(),
                node == members@[k as int],
                node < n,
                neighbors@ == adj[node as int],
                neighbors@ == adjacency@[node as int]@,
                j <= neighbors@.len(),
                forall|j2: int| 0 <= j2 < j ==> !#[trigger] settled_at(adj, assignment@, members@, k as int, j2, count),
            decreases neighbors@.len() - j,
        {
            let w = neighbors[j];
            assert(adjacency@[node as int]@[j as int] < n);
            let label = assignment[w];
            if label != UNASSIGNED && label != count {
                assert(settled_at(adj, assignment@, members@, k as int, j as int, count));
                return true;
            }
            j = j + 1;
        }
        assert forall|k2: int, j2: int| 0 <= k2 < k + 1 implies !#[trigger] settled_at(adj, assignment@, members@, k2, j2, count) by {
            if k2 == k as int && settled_at(adj, assignment@, members@, k2, j2, count) {
                assert(0 <= j2 < j);
            }
        }
        k = k + 1;
    }
    false
}

/// Groups the nodes of a structural graph into rigid-body aggregates:
/// breadth-first regions of at most `target_size` nodes grown from the
/// lowest unassigned node; a region of one or two nodes that lists a
/// neighbour in an already built aggregate is dissolved into the built
/// aggregates (each node into that of its first such neighbour, or else the
/// last one built), while one with no such neighbour is a graph component
/// too small for a six-mode aggregate and is refused. Every aggregate smaller
/// than `max(target_size / 4, 3)` is then merged into the neighbouring
/// aggregate it shares most edges with. Returns the aggregate of every node
/// and the number of aggregates.
pub fn build_graph_aggregates(adjacency: &Vec<Vec<usize>>, target_size: usize) -> (result: Result<
    (Vec<usize>, usize),
    HybitError,
>)
    requires
        adjacency_ok(adjacency@),
    ensures
        adjacency@.len() < 3 <==> result == Err::<(Vec<usize>, usize), HybitError>(
            HybitError::InvalidArgument("graph rigid-body aggregation requires at least three nodes"),
        ),
        result matches Err(e) ==> e == HybitError::InvalidArgument(
            "graph rigid-body aggregation requires at least three nodes",
        ) || e == HybitError::InvalidArgument(
            "a structural graph component contains fewer than three nodes",
        ),
        target_size < 3 && adjacency@.len() >= 3 ==> result == Err::<(Vec<usize>, usize), HybitError>(
            HybitError::InvalidArgument("a structural graph component contains fewer than three nodes"),
        ),
        result matches Ok((a, count)) ==> aggregation_ok(
            adjacency@,
            a@,
            count as nat,
            merge_floor(target_size as nat, 3),
        ),
        result matches Ok((a, count)) ==> forall|k: int| 0 <= k < count ==> #[trigger] class_size(a@, k) >= 3,
        adjacency@.len() >= 3 ==> (result is Ok <==> rigid_aggregates(views(adjacency@), target_size as nat) is Some),
        result matches Ok((a, count)) ==> renumbered(
            a@,
            count as nat,
            rigid_aggregates(views(adjacency@), target_size as nat)->0,
        ),
{
    let n = adjacency.len();
    if n < 3 {
        return Err(HybitError::InvalidArgument("graph rigid-body aggregation requires at least three nodes"));
    }
    let mut assignment: Vec<usize> = vec![UNASSIGNED; n];
    let ghost adj = views(adjacency@);
    let ghost rigid_spec = rigid_grow_from(adj, assignment@, 0, 0, target_size as nat);
    assert(assignment@ =~= Seq::new(adj.len(), |i: int| UNASSIGNED));
    assert(aggregates_connected(adjacency@, assignment@));
    let mut count: usize = 0;
    let mut seed: usize = 0;
    while seed < n
        invariant
            adjacency_ok(adjacency@),
            n == adjacency@.len(),
            n >= 3,
            assignment@.len() == n,
            seed <= n,
            count <= seed,
            target_size < 3 ==> count == 0,
            adj == views(adjacency@),
            rigid_spec == rigid_grow_from(adj, assignment@, seed as int, count as nat, target_size as nat),
            rigid_spec == rigid_grow_from(adj, Seq::new(adj.len(), |i: int| UNASSIGNED), 0, 0, target_size as nat),
            forall|x: int| 0 <= x < count ==> #[trigger] class_size(assignment@, x) >= 3,
            forall|i: int| 0 <= i < seed ==> #[trigger] assignment@[i] != UNASSIGNED,
            forall|i: int| 0 <= i < n ==> #[trigger] assignment@[i] == UNASSIGNED || assignment@[i] < count,
        decreases n - seed,
    {
        if assignment[seed] != UNASSIGNED {
            seed = seed + 1;
            continue;
        }
        if target_size == 0 {
            assert(bfs_region(adj, assignment@, seed, 0, 0) =~= Seq::<usize>::empty());
            return Err(HybitError::InvalidArgument("a structural graph component contains fewer than three nodes"));
        }
        let ghost before = assignment@;
        proof {
            assert forall|x: int| 0 <= x < count implies #[trigger] class_size(before, x) >= 3 by {
                assert(class_size(assignment@, x) >= 3);
            }
        }
        let members = grow_region(adjacency, &mut assignment, seed, count, target_size);
        if members.len() >= 3 {
            proof {
                assert(members@.contains(seed));
                assert forall|i: int| 0 <= i < n implies (class_seq(assignment@, count as int)[i] <==> members@.contains(i as usize)) by {
                    assert(assignment@[i] == (if members@.contains(i as usize) { count } else { before[i] }));
                }
                lemma_count_members(class_seq(assignment@, count as int), members@);
                assert forall|x: int| 0 <= x < count + 1 implies #[trigger] class_size(assignment@, x) >= 3 by {
                    if x < count {
                        assert forall|i: int| 0 <= i < n implies class_seq(assignment@, x)[i] == class_seq(before, x)[i] by {
                            assert(assignment@[i] == (if members@.contains(i as usize) { count } else { before[i] }));
                            if members@.contains(i as usize) {
                                let k = choose|k: int| 0 <= k < members@.len() && members@[k] == i as usize;
                                assert(before[members@[k] as int] == UNASSIGNED);
                            }
                        }
                        assert(class_seq(assignment@, x) =~= class_seq(before, x));
                        assert(class_size(before, x) >= 3);
                    } else {
                        assert(x == count);
                        assert(class_size(assignment@, count as int) == members@.len());
                    }
                }
                assert forall|i: int| 0 <= i < n implies #[trigger] assignment@[i] == UNASSIGNED || assignment@[i] < count + 1 by {
                    assert(assignment@[i] == (if members@.contains(i as usize) { count } else { before[i] }));
                }
            }
            count = count + 1;
            seed = seed + 1;
            continue;
        }
        if count == 0 {
            assert(before[seed as int] == UNASSIGNED);
            assert(members@ == bfs_region(adj, before, seed, target_size as nat, count));
            assert(rigid_grow_from(adj, before, seed as int, count as nat, target_size as nat) is None);
            assert(rigid_spec is None);
            return Err(HybitError::InvalidArgument("a structural graph component contains fewer than three nodes"));
        }
        if !region_touches_settled(adjacency, &assignment, &members, count) {
            assert(before[seed as int] == UNASSIGNED);
            assert(members@ == bfs_region(adj, before, seed, target_size as nat, count));
            assert(assignment@ == relabel(before, members@, count));
            assert(rigid_grow_from(adj, before, seed as int, count as nat, target_size as nat) is None);
            assert(rigid_spec is None);
            return Err(HybitError::InvalidArgument("a structural graph component contains fewer than three nodes"));
        }
        let ghost grown = assignment@;
        let mut m: usize = 0;
        while m < members.len()
            invariant
                adjacency_ok(adjacency@),
                n == adjacency@.len(),
                assignment@.len() == n,
                count >= 1,
                m <= members@.len(),
                adj == views(adjacency@),
                dissolve(adj, grown, members@, 0, count) == dissolve(adj, assignment@, members@, m as int, count),
                forall|k: int| 0 <= k < members@.len() ==> #[trigger] members@[k] < n,
                forall|k: int, l: int| 0 <= k < l < members@.len() ==> members@[k] != members@[l],
                forall|k: int| 0 <= k < m ==> #[trigger] assignment@[members@[k] as int] < count,
                forall|k: int| m <= k < members@.len() ==> #[trigger] assignment@[members@[k] as int] == count,
                forall|i: int| 0 <= i < n && !members@.contains(i as usize) ==> #[trigger] assignment@[i] == grown[i],
                forall|i: int| 0 <= i < n && !members@.contains(i as usize) ==> #[trigger] grown[i] == UNASSIGNED || grown[i] < count,
            decreases members@.len() - m,
        {
            let node = members[m];
            let neighbors = &adjacency[node];
            let mut chosen: usize = count - 1;
            let mut j: usize = 0;
            assert(neighbors@.skip(0) =~= neighbors@);
            while j < neighbors.len()
                invariant_except_break
                    chosen == count - 1,
                invariant
                    adjacency_ok(adjacency@),
                    n == adjacency@.len(),
                    assignment@.len() == n,
                    node < n,
                    neighbors@ == adjacency@[node as int]@,
                    j <= neighbors@.len(),
                    count >= 1,
                    chosen < count,
                    forall|i: int| 0 <= i < n ==> #[trigger] assignment@[i] == UNASSIGNED || assignment@[i] <= count,
                    first_settled(neighbors@, assignment@, count) == first_settled(
                        neighbors@.skip(j as int),
                        assignment@,
                        count,
                    ),
                ensures
                    chosen == first_settled(neighbors@, assignment@, count),
                decreases neighbors@.len() - j,
            {
                let neighbor = neighbors[j];
                proof {
                    assert(adjacency@[node as int]@[j as int] < n);
                    assert(neighbors@.skip(j as int).drop_first() =~= neighbors@.skip(j + 1));
                    assert(neighbors@.skip(j as int)[0] == neighbor);
                }
                let label = assignment[neighbor];
                if label != UNASSIGNED && label != count {
                    chosen = label;
                    break;
                }
                j = j + 1;
            }
            proof {
                if j == neighbors@.len() {
                    assert(neighbors@.skip(j as int) =~= Seq::<usize>::empty());
                }
            }
            let ghost before_set = assignment@;
            assignment.set(node, chosen);
            proof {
                assert forall|k: int| m + 1 <= k < members@.len() implies #[trigger] assignment@[members@[k] as int] == count by {
                    assert(members@[k] != node);
                }
                assert forall|k: int| 0 <= k < m + 1 implies #[trigger] assignment@[members@[k] as int] < count by {
                    if k < m {
                        assert(members@[k] != node);
                    }
                }
                assert forall|i: int| 0 <= i < n && !members@.contains(i as usize) implies #[trigger] assignment@[i] == grown[i] by {
                    if i == node as int {
                        assert(members@[m as int] == node);
                    }
                }
            }
            m = m + 1;
        }
        proof {
            assert forall|x: int| 0 <= x < count implies #[trigger] class_size(assignment@, x) >= 3 by {
                assert forall|i: int| 0 <= i < n && class_seq(before, x)[i] implies class_seq(assignment@, x)[i] by {
                    assert(grown[i] == (if members@.contains(i as usize) { count } else { before[i] }));
                    if members@.contains(i as usize) {
                        let k = choose|k: int| 0 <= k < members@.len() && members@[k] == i as usize;
                        assert(before[members@[k] as int] == UNASSIGNED);
                    }
                }
                lemma_count_mono(class_seq(before, x), class_seq(assignment@, x));
                assert(class_size(before, x) >= 3);
            }
            assert forall|i: int| 0 <= i < n implies #[trigger] assignment@[i] == UNASSIGNED || assignment@[i] < count by {
                if members@.contains(i as usize) {
                    let k = choose|k: int| 0 <= k < members@.len() && members@[k] == i as usize;
                    assert(assignment@[members@[k] as int] < count);
                } else {
                    assert(grown[i] == (if members@.contains(i as usize) { count } else { before[i] }));
                }
            }
            assert(members@.contains(seed));
            assert(grown[seed as int] == count);
            let k = choose|k: int| 0 <= k < members@.len() && members@[k] == seed;
            assert(assignment@[seed as int] < count);
        }
        seed = seed + 1;
    }
    let mut i: usize = 0;
    while i < n
        invariant
            n == assignment@.len(),
            i <= n,
            forall|w: int| 0 <= w < n ==> #[trigger] assignment@[w] < count,
        decreases n - i,
    {
        if assignment[i] == UNASSIGNED || assignment[i] >= count {
            return Err(HybitError::InvalidArgument("graph aggregation left unassigned nodes"));
        }
        i = i + 1;
    }
    assert(rigid_spec == Some((assignment@, count as nat)));
    let ghost grown_final = assignment@;
    let mut counts = count_classes(&assignment, count);
    assert(counts@ =~= class_counts(grown_final, count as nat));
    let quarter = target_size / 4;
    let floor = if quarter > 3 { quarter } else { 3 };
    merge_small_classes(adjacency, &mut assignment, &mut counts, floor, Ghost(3));
    let ghost merged = assignment@;
    let compact = compact_labels(&mut assignment, count);
    proof {
        lemma_same_partition(adjacency@, merged, assignment@, floor as nat);
        let b = assignment@;
        assert forall|k: int| 0 <= k < compact implies #[trigger] class_size(b, k) >= 3 by {
            assert(label_before(b, b.len() as int, k));
            let u = choose|u: int| 0 <= u < b.len() && #[trigger] b[u] == k;
            assert(class_seq(b, k) =~= class_seq(merged, merged[u] as int));
            lemma_count_positive(class_seq(merged, merged[u] as int), u);
            assert(counts@[merged[u] as int] == class_size(merged, merged[u] as int));
        }
    }
    Ok((assignment, compact))
}

} // verus!

//! Sizing of coarse spaces: how many nodes go into one aggregate, which
//! coarse unknown a fine DOF maps to, and the index arithmetic of packed
//! lower-triangular factors.
use vstd::prelude::*;

use crate::aggregate::{class_seq, class_size, count_classes, labels_below, lemma_count_disjoint_or, lemma_count_mono};
use crate::mask::{count_true, lemma_count_bound, lemma_count_prefix_mono, lemma_count_push, lemma_count_zero};
use crate::error::HybitError;
use crate::policy::{resolved_coarse_policy, AlgebraicCoarseOptions, TwoLevelCoarseApplyPolicy};

verus! {

/// Ceiling division of naturals.
pub open spec fn ceil_div(a: nat, b: nat) -> nat
    recommends
        b > 0,
{
    ((a + b - 1) / (b as int)) as nat
}

/// The first power of two reached by doubling `p` until it is at least `m`.
pub open spec fn pow2_from(p: nat, m: nat) -> nat
    decreases (if p >= m { 0int } else { m - p }),
{
    if p == 0 || p >= m {
        p
    } else {
        pow2_from(p + p, m)
    }
}

/// The least power of two that is at least `m` (one for `m <= 1`).
pub open spec fn next_pow2(m: nat) -> nat {
    pow2_from(1, m)
}

proof fn lemma_pow2_from(p: nat, m: nat)
    requires
        p >= 1,
    ensures
        pow2_from(p, m) >= p,
        pow2_from(p, m) >= m,
        p < m ==> pow2_from(p, m) < 2 * m,
    decreases (if p >= m { 0int } else { m - p }),
{
    if p < m {
        lemma_pow2_from(p + p, m);
    }
}

/// `next_pow2(m)` when it fits in `usize`, `None` otherwise.
fn checked_next_pow2(m: usize) -> (result: Option<usize>)
    ensures
        result == (if next_pow2(m as nat) <= usize::MAX {
            Some(next_pow2(m as nat) as usize)
        } else {
            None::<usize>
        }),
{
    let mut p: usize = 1;
    while p < m
        invariant
            p >= 1,
            pow2_from(p as nat, m as nat) == next_pow2(m as nat),
        decreases (if p >= m { 0int } else { m - p }),
    {
        if p > usize::MAX / 2 {
            proof {
                lemma_pow2_from((p + p) as nat, m as nat);
            }
            return None;
        }
        p = p + p;
    }
    Some(p)
}

/// The aggregate size reached from `a` by growing it one node at a time
/// while the last aggregate of `n` nodes would keep only one or two nodes.
pub open spec fn grow_past_tiny_tail(n: nat, a: nat) -> nat
    decreases n - a,
{
    if a == 0 || a >= n || n % a == 0 || n % a >= 3 {
        a
    } else {
        grow_past_tiny_tail(n, a + 1)
    }
}

proof fn lemma_grow_past_tiny_tail(n: nat, a: nat)
    requires
        a >= 1,
    ensures
        grow_past_tiny_tail(n, a) >= a,
        a <= n ==> grow_past_tiny_tail(n, a) <= n,
        ({
            let r = grow_past_tiny_tail(n, a);
            r >= n || n % r == 0 || n % r >= 3
        }),
    decreases n - a,
{
    if !(a >= n || n % a == 0 || n % a >= 3) {
        lemma_grow_past_tiny_tail(n, a + 1);
    }
}

/// Number of aggregates the rigid-body recommendation aims at: one per six
/// coarse modes of the target, at least one, and at most one per three nodes.
pub open spec fn rigid_body_target_aggregates(node_count: nat, target_coarse_dimension: nat) -> nat {
    let max_aggregates = if node_count / 3 >= 1 { node_count / 3 } else { 1 };
    let wanted = if target_coarse_dimension / 6 >= 1 { target_coarse_dimension / 6 } else { 1 };
    if wanted <= max_aggregates { wanted } else { max_aggregates }
}

/// The recommended rigid-body aggregate size: the least number of nodes that
/// keeps the target number of aggregates, rounded up to a power of two
/// (or to the node count where that power does not fit in `usize`), held
/// between three and the node count, then grown until no aggregate of only
/// one or two nodes remains at the end.
pub open spec fn spec_rigid_body_aggregate_nodes(node_count: nat, target_coarse_dimension: nat) -> nat {
    let minimum = ceil_div(node_count, rigid_body_target_aggregates(node_count, target_coarse_dimension));
    let p = if next_pow2(minimum) <= usize::MAX { next_pow2(minimum) } else { node_count };
    let clamped = if p <= node_count { p } else { node_count };
    let start = if clamped >= 3 { clamped } else { 3 };
    grow_past_tiny_tail(node_count, start)
}

proof fn lemma_ceil_div_bound(n: nat, m: nat, r: nat)
    requires
        m >= 1,
        r >= 1,
        n <= r * m,
    ensures
        ceil_div(n, r) <= m,
{
    assert(((n + r - 1) as int) / (r as int) <= m as int) by (nonlinear_arith)
        requires
            m >= 1,
            r >= 1,
            n <= r * m,
    ;
}

proof fn lemma_ceil_div_cover(n: nat, t: nat, r: nat)
    requires
        t >= 1,
        r >= ceil_div(n, t),
    ensures
        n <= r * t,
{
    assert(n <= r * t) by (nonlinear_arith)
        requires
            t >= 1,
            r >= ((n + t - 1) as int) / (t as int),
    ;
}

/// Recommends how many consecutive nodes form one aggregate of the six-mode
/// rigid-body coarse space.
///
/// The result is at least three and at most the node count, it never leaves
/// a last aggregate of one or two nodes, and the number of aggregates times
/// six stays within `target_coarse_dimension`.
pub fn recommend_rigid_body_aggregate_nodes(node_count: usize, target_coarse_dimension: usize) -> (result:
    Result<usize, HybitError>)
    ensures
        node_count < 3 ==> result == Err::<usize, HybitError>(
            HybitError::InvalidArgument("rigid-body coarse space requires at least three nodes"),
        ),
        node_count >= 3 && target_coarse_dimension < 6 ==> result == Err::<usize, HybitError>(
            HybitError::InvalidArgument("target_coarse_dimension must be at least 6"),
        ),
        node_count >= 3 && target_coarse_dimension >= 6 ==> result == (if node_count
            + rigid_body_target_aggregates(node_count as nat, target_coarse_dimension as nat) - 1
            <= usize::MAX {
            Ok::<usize, HybitError>(
                spec_rigid_body_aggregate_nodes(
                    node_count as nat,
                    target_coarse_dimension as nat,
                ) as usize,
            )
        } else {
            Err(HybitError::SizeOverflow)
        }),
        result matches Ok(nodes) ==> {
            &&& 3 <= nodes <= node_count
            &&& nodes == node_count || node_count % nodes == 0 || node_count % nodes >= 3
            &&& ceil_div(node_count as nat, nodes as nat) * 6 <= target_coarse_dimension
        },
{
    if node_count < 3 {
        return Err(HybitError::InvalidArgument("rigid-body coarse space requires at least three nodes"));
    }
    if target_coarse_dimension < 6 {
        return Err(HybitError::InvalidArgument("target_coarse_dimension must be at least 6"));
    }
    let third = node_count / 3;
    let max_aggregates: usize = if third >= 1 { third } else { 1 };
    let sixth = target_coarse_dimension / 6;
    let wanted: usize = if sixth >= 1 { sixth } else { 1 };
    let target_aggregates: usize = if wanted <= max_aggregates { wanted } else { max_aggregates };
    let ghost ta = rigid_body_target_aggregates(node_count as nat, target_coarse_dimension as nat);
    assert(target_aggregates == ta);
    let sum = match node_count.checked_add(target_aggregates - 1) {
        Some(s) => s,
        None => return Err(HybitError::SizeOverflow),
    };
    let minimum = sum / target_aggregates;
    assert(minimum == ceil_div(node_count as nat, ta));
    assert(minimum <= node_count) by (nonlinear_arith)
        requires
            target_aggregates >= 1,
            minimum == (node_count + target_aggregates - 1) / (target_aggregates as int),
    ;
    let p = match checked_next_pow2(minimum) {
        Some(p) => p,
        None => node_count,
    };
    let clamped: usize = if p <= node_count { p } else { node_count };
    let mut aggregate_nodes: usize = if clamped >= 3 { clamped } else { 3 };
    let ghost start = aggregate_nodes as nat;
    proof {
        if minimum >= 1 {
            lemma_pow2_from(1, minimum as nat);
        } else {
            assert(next_pow2(minimum as nat) == 1);
        }
        lemma_grow_past_tiny_tail(node_count as nat, start);
        assert(start >= minimum);
    }
    while aggregate_nodes < node_count
        invariant
            start <= aggregate_nodes <= node_count,
            start >= 1,
            grow_past_tiny_tail(node_count as nat, aggregate_nodes as nat) == grow_past_tiny_tail(
                node_count as nat,
                start,
            ),
        ensures
            aggregate_nodes as nat == grow_past_tiny_tail(node_count as nat, start),
        decreases node_count - aggregate_nodes,
    {
        let tail = node_count % aggregate_nodes;
        if tail == 0 || tail >= 3 {
            break;
        }
        aggregate_nodes = aggregate_nodes + 1;
    }
    proof {
        let r = aggregate_nodes as nat;
        lemma_ceil_div_cover(node_count as nat, ta, r);
        lemma_ceil_div_bound(node_count as nat, ta, r);
        assert(ta * 6 <= target_coarse_dimension);
        assert(ceil_div(node_count as nat, r) * 6 <= ta * 6) by (nonlinear_arith)
            requires
                ceil_div(node_count as nat, r) <= ta,
        ;
    }
    Ok(aggregate_nodes)
}

/// Recommends the aggregate size of the algebraic two-level base: enough
/// nodes per aggregate that at most `target_coarse_dimension / dofs_per_node`
/// aggregates (and at least one) cover all `matrix_rows / dofs_per_node`
/// nodes.
pub fn recommend_algebraic_aggregate_nodes(matrix_rows: usize, options: AlgebraicCoarseOptions) -> (result:
    Result<usize, HybitError>)
    requires
        options.dofs_per_node > 0,
    ensures
        matrix_rows % options.dofs_per_node != 0 ==> result == Err::<usize, HybitError>(
            HybitError::InvalidArgument(
                "matrix dimension must be divisible by algebraic coarse dofs_per_node",
            ),
        ),
        matrix_rows % options.dofs_per_node == 0 ==> ({
            let nodes = matrix_rows as nat / options.dofs_per_node as nat;
            let per_target = options.target_coarse_dimension as nat / options.dofs_per_node as nat;
            let max_aggregates = if per_target >= 1 { per_target } else { 1 };
            let wanted = ceil_div(nodes, max_aggregates);
            result == Ok::<usize, HybitError>(if wanted >= 1 { wanted as usize } else { 1 })
        }),
        result matches Ok(nodes) ==> nodes >= 1 && (options.target_coarse_dimension
            >= options.dofs_per_node ==> ceil_div(
            matrix_rows as nat / options.dofs_per_node as nat,
            nodes as nat,
        ) * options.dofs_per_node <= options.target_coarse_dimension),
{
    let d = options.dofs_per_node;
    if matrix_rows % d != 0 {
        return Err(
            HybitError::InvalidArgument(
                "matrix dimension must be divisible by algebraic coarse dofs_per_node",
            ),
        );
    }
    let node_count = matrix_rows / d;
    let per_target = options.target_coarse_dimension / d;
    let max_aggregates: usize = if per_target >= 1 { per_target } else { 1 };
    let q = node_count / max_aggregates;
    assert(node_count % max_aggregates != 0 ==> q < usize::MAX) by (nonlinear_arith)
        requires
            max_aggregates >= 1,
            q == node_count / max_aggregates,
    {
        if max_aggregates == 1 {
            assert(node_count % max_aggregates == 0);
        }
    }
    let wanted: usize = if node_count % max_aggregates != 0 { q + 1 } else { q };
    assert(wanted == ceil_div(node_count as nat, max_aggregates as nat)) by (nonlinear_arith)
        requires
            max_aggregates >= 1,
            q == node_count / max_aggregates,
            wanted == (if node_count % max_aggregates != 0 { q + 1 } else { q as int }),
    ;
    let result: usize = if wanted >= 1 { wanted } else { 1 };
    proof {
        if options.target_coarse_dimension >= d {
            assert(per_target >= 1) by (nonlinear_arith)
                requires
                    options.target_coarse_dimension >= d,
                    d >= 1,
                    per_target == options.target_coarse_dimension / d,
            ;
            let r = result as nat;
            let m = max_aggregates as nat;
            if node_count > 0 {
                lemma_ceil_div_cover(node_count as nat, m, r);
            }
            lemma_ceil_div_bound(node_count as nat, m, r);
            assert(m * d <= options.target_coarse_dimension) by (nonlinear_arith)
                requires
                    d >= 1,
                    m == options.target_coarse_dimension / d,
            ;
            assert(ceil_div(node_count as nat, r) * d <= m * d) by (nonlinear_arith)
                requires
                    ceil_div(node_count as nat, r) <= m,
            ;
        }
    }
    Ok(result)
}

/// Coarse unknown of fine DOF `dof`: its node's aggregate (the explicit
/// assignment, or consecutive runs of `aggregate_nodes` nodes where the
/// assignment is empty) times the DOFs per node, plus its component.
pub open spec fn spec_piecewise_coarse_index(
    dof: nat,
    dofs_per_node: nat,
    aggregate_nodes: nat,
    aggregate_of_node: Seq<usize>,
) -> nat {
    let node = dof / dofs_per_node;
    let aggregate = if aggregate_of_node.len() == 0 {
        node / aggregate_nodes
    } else {
        aggregate_of_node[node as int] as nat
    };
    aggregate * dofs_per_node + dof % dofs_per_node
}

pub fn piecewise_coarse_index(
    dof: usize,
    dofs_per_node: usize,
    aggregate_nodes: usize,
    aggregate_of_node: &[usize],
) -> (index: usize)
    requires
        dofs_per_node > 0,
        aggregate_nodes > 0,
        aggregate_of_node@.len() > 0 ==> dof / dofs_per_node < aggregate_of_node@.len(),
        spec_piecewise_coarse_index(
            dof as nat,
            dofs_per_node as nat,
            aggregate_nodes as nat,
            aggregate_of_node@,
        ) <= usize::MAX,
    ensures
        index == spec_piecewise_coarse_index(
            dof as nat,
            dofs_per_node as nat,
            aggregate_nodes as nat,
            aggregate_of_node@,
        ),
{
    let node = dof / dofs_per_node;
    let component = dof % dofs_per_node;
    let aggregate = if aggregate_of_node.len() == 0 {
        node / aggregate_nodes
    } else {
        aggregate_of_node[node]
    };
    proof {
        assert(aggregate * dofs_per_node <= usize::MAX) by (nonlinear_arith)
            requires
                aggregate * dofs_per_node + component <= usize::MAX,
                component >= 0,
        ;
    }
    aggregate * dofs_per_node + component
}

/// Length of the packed lower triangle of an `n` by `n` matrix.
pub open spec fn packed_len(n: nat) -> nat {
    n * (n + 1) / 2
}

/// `n * (n + 1) / 2`, or `SizeOverflow` where `n * (n + 1)` does not fit in
/// `usize`.
pub fn packed_lower_len(n: usize) -> (result: Result<usize, HybitError>)
    ensures
        n * (n + 1) <= usize::MAX ==> result == Ok::<usize, HybitError>(packed_len(n as nat) as usize),
        n * (n + 1) > usize::MAX ==> result == Err::<usize, HybitError>(HybitError::SizeOverflow),
{
    if n == usize::MAX {
        assert(n * (n + 1) > usize::MAX) by (nonlinear_arith)
            requires
                n == usize::MAX,
        ;
        return Err(HybitError::SizeOverflow);
    }
    let np1 = n + 1;
    match n.checked_mul(np1) {
        Some(v) => Ok(v / 2),
        None => Err(HybitError::SizeOverflow),
    }
}

/// Position of entry (`row`, `col`), `col <= row`, in a row-major packed
/// lower triangle.
pub fn packed_lower_index(row: usize, col: usize) -> (index: usize)
    requires
        col <= row,
        row * (row + 1) <= usize::MAX,
    ensures
        index == packed_len(row as nat) + col,
{
    assert(row + 1 <= usize::MAX && row * (row + 1) / 2 + col <= usize::MAX) by (nonlinear_arith)
        requires
            row * (row + 1) <= usize::MAX,
            col <= row,
    ;
    row * (row + 1) / 2 + col
}

} // verus!

verus! {

/// Checks the arguments of a two-level block-Jacobi construction in order:
/// a square matrix, DOFs per node and nodes per aggregate above zero, and a
/// dimension that splits into whole nodes. Returns the node count.
pub fn check_two_level_arguments(nrows: usize, ncols: usize, dofs_per_node: usize, aggregate_nodes: usize) -> (result:
    Result<usize, HybitError>)
    ensures
        result == (if nrows != ncols {
            Err(HybitError::InvalidMatrix("two-level block Jacobi requires a square matrix"))
        } else if dofs_per_node == 0 {
            Err(HybitError::InvalidArgument("dofs_per_node must be > 0"))
        } else if aggregate_nodes == 0 {
            Err(HybitError::InvalidArgument("aggregate_nodes must be > 0"))
        } else if nrows % dofs_per_node != 0 {
            Err(
                HybitError::InvalidArgument(
                    "matrix dimension must be divisible by dofs_per_node for aggregation",
                ),
            )
        } else {
            Ok::<usize, HybitError>(nrows / dofs_per_node)
        }),
{
    if nrows != ncols {
        return Err(HybitError::InvalidMatrix("two-level block Jacobi requires a square matrix"));
    }
    if dofs_per_node == 0 {
        return Err(HybitError::InvalidArgument("dofs_per_node must be > 0"));
    }
    if aggregate_nodes == 0 {
        return Err(HybitError::InvalidArgument("aggregate_nodes must be > 0"));
    }
    if nrows % dofs_per_node != 0 {
        return Err(
            HybitError::InvalidArgument(
                "matrix dimension must be divisible by dofs_per_node for aggregation",
            ),
        );
    }
    Ok(nrows / dofs_per_node)
}

/// Number of runs of `aggregate_nodes` consecutive nodes that cover
/// `node_count` nodes, or `SizeOverflow` where `node_count + aggregate_nodes
/// - 1` does not fit in `usize`.
pub fn contiguous_aggregate_count(node_count: usize, aggregate_nodes: usize) -> (result: Result<usize, HybitError>)
    requires
        aggregate_nodes > 0,
    ensures
        node_count + aggregate_nodes - 1 <= usize::MAX ==> result == Ok::<usize, HybitError>(
            ceil_div(node_count as nat, aggregate_nodes as nat) as usize,
        ),
        node_count + aggregate_nodes - 1 > usize::MAX ==> result == Err::<usize, HybitError>(
            HybitError::SizeOverflow,
        ),
{
    match node_count.checked_add(aggregate_nodes - 1) {
        Some(s) => Ok(s / aggregate_nodes),
        None => Err(HybitError::SizeOverflow),
    }
}

/// Smallest and largest aggregate when `node_count` nodes are cut into runs
/// of `aggregate_nodes`: every run is full but the last, which holds what
/// remains; no nodes means no aggregates and `(0, 0)`.
pub fn contiguous_size_range(node_count: usize, aggregate_nodes: usize) -> (range: (usize, usize))
    requires
        aggregate_nodes > 0,
    ensures
        node_count == 0 ==> range == (0usize, 0usize),
        node_count > 0 ==> range.1 == (if node_count >= aggregate_nodes {
            aggregate_nodes
        } else {
            node_count
        }) && range.0 == node_count - (ceil_div(node_count as nat, aggregate_nodes as nat) - 1)
            * aggregate_nodes,
{
    if node_count == 0 {
        return (0, 0);
    }
    let full = (node_count - 1) / aggregate_nodes;
    assert(full == ceil_div(node_count as nat, aggregate_nodes as nat) - 1) by (nonlinear_arith)
        requires
            node_count >= 1,
            aggregate_nodes >= 1,
            full == (node_count - 1) / (aggregate_nodes as int),
    ;
    assert(full * aggregate_nodes <= node_count - 1) by (nonlinear_arith)
        requires
            aggregate_nodes >= 1,
            full == (node_count - 1) / (aggregate_nodes as int),
            node_count >= 1,
    ;
    let last = node_count - full * aggregate_nodes;
    let largest = if node_count >= aggregate_nodes { aggregate_nodes } else { node_count };
    (last, largest)
}

/// Smallest and largest aggregate of an explicit assignment of nodes to
/// `aggregate_count` aggregates (`(0, 0)` without aggregates).
pub fn assigned_size_range(aggregate_of_node: &Vec<usize>, aggregate_count: usize) -> (range: (usize, usize))
    requires
        labels_below(aggregate_of_node@, aggregate_count as nat),
    ensures
        aggregate_count == 0 ==> range == (0usize, 0usize),
        aggregate_count > 0 ==> {
            &&& forall|k: int|
                0 <= k < aggregate_count ==> range.0 <= #[trigger] class_size(aggregate_of_node@, k)
                    <= range.1
            &&& exists|k: int| 0 <= k < aggregate_count && #[trigger] class_size(aggregate_of_node@, k) == range.0
            &&& exists|k: int| 0 <= k < aggregate_count && #[trigger] class_size(aggregate_of_node@, k) == range.1
        },
{
    if aggregate_count == 0 {
        return (0, 0);
    }
    let counts = count_classes(aggregate_of_node, aggregate_count);
    let mut lo = counts[0];
    let mut hi = counts[0];
    let mut k: usize = 1;
    while k < aggregate_count
        invariant
            counts@.len() == aggregate_count,
            forall|x: int| 0 <= x < aggregate_count ==> #[trigger] counts@[x] == class_size(
                aggregate_of_node@,
                x,
            ),
            1 <= k <= aggregate_count,
            forall|x: int| 0 <= x < k ==> lo <= #[trigger] counts@[x] <= hi,
            exists|x: int| 0 <= x < k && #[trigger] counts@[x] == lo,
            exists|x: int| 0 <= x < k && #[trigger] counts@[x] == hi,
        decreases aggregate_count - k,
    {
        let c = counts[k];
        if c < lo {
            lo = c;
        }
        if c > hi {
            hi = c;
        }
        k = k + 1;
    }
    proof {
        let x0 = choose|x: int| 0 <= x < k && #[trigger] counts@[x] == lo;
        let x1 = choose|x: int| 0 <= x < k && #[trigger] counts@[x] == hi;
        assert(class_size(aggregate_of_node@, x0) == lo);
        assert(class_size(aggregate_of_node@, x1) == hi);
        assert forall|x: int| 0 <= x < aggregate_count implies lo <= #[trigger] class_size(
            aggregate_of_node@,
            x,
        ) <= hi by {
            assert(counts@[x] == class_size(aggregate_of_node@, x));
        }
    }
    (lo, hi)
}

/// Dimension of a coarse space with `dofs_per_node` modes per aggregate and
/// the coarse apply policy resolved for it; both the dimension and its
/// square (the dense coarse matrix) must fit in `usize`.
pub fn coarse_dimension_for(
    aggregate_count: usize,
    dofs_per_node: usize,
    policy: TwoLevelCoarseApplyPolicy,
) -> (result: Result<(usize, TwoLevelCoarseApplyPolicy), HybitError>)
    ensures
        aggregate_count * dofs_per_node > usize::MAX ==> result == Err::<
            (usize, TwoLevelCoarseApplyPolicy),
            HybitError,
        >(HybitError::SizeOverflow),
        aggregate_count * dofs_per_node <= usize::MAX ==> ({
            let d = aggregate_count * dofs_per_node;
            if d * d > usize::MAX {
                result == Err::<(usize, TwoLevelCoarseApplyPolicy), HybitError>(HybitError::SizeOverflow)
            } else {
                result == Ok::<(usize, TwoLevelCoarseApplyPolicy), HybitError>(
                    (d as usize, resolved_coarse_policy(policy, d as nat)),
                )
            }
        }),
{
    let d = match aggregate_count.checked_mul(dofs_per_node) {
        Some(d) => d,
        None => return Err(HybitError::SizeOverflow),
    };
    let resolved = policy.resolve(d);
    match d.checked_mul(d) {
        Some(_) => Ok((d, resolved)),
        None => Err(HybitError::SizeOverflow),
    }
}

} // verus!

verus! {

/// The contiguous assignment of nodes to aggregates: node `v` joins
/// aggregate `v / aggregate_nodes`. Returns the assignment and the number
/// of aggregates.
pub fn contiguous_assignment(node_count: usize, aggregate_nodes: usize) -> (result: Result<
    (Vec<usize>, usize),
    HybitError,
>)
    ensures
        aggregate_nodes == 0 ==> result == Err::<(Vec<usize>, usize), HybitError>(
            HybitError::InvalidArgument("aggregate_nodes must be > 0"),
        ),
        aggregate_nodes > 0 && node_count + aggregate_nodes - 1 > usize::MAX ==> result == Err::<
            (Vec<usize>, usize),
            HybitError,
        >(HybitError::SizeOverflow),
        aggregate_nodes > 0 && node_count + aggregate_nodes - 1 <= usize::MAX ==> (result matches Ok((a, count))
            && count == ceil_div(node_count as nat, aggregate_nodes as nat) && a@.len() == node_count
            && forall|v: int| 0 <= v < node_count ==> #[trigger] a@[v] == v / (aggregate_nodes as int)),
{
    if aggregate_nodes == 0 {
        return Err(HybitError::InvalidArgument("aggregate_nodes must be > 0"));
    }
    let count = contiguous_aggregate_count(node_count, aggregate_nodes)?;
    let mut a: Vec<usize> = Vec::new();
    let mut v: usize = 0;
    while v < node_count
        invariant
            aggregate_nodes > 0,
            v <= node_count,
            a@.len() == v,
            forall|u: int| 0 <= u < v ==> #[trigger] a@[u] == u / (aggregate_nodes as int),
        decreases node_count - v,
    {
        a.push(v / aggregate_nodes);
        v = v + 1;
    }
    Ok((a, count))
}

/// Checks an assignment of `node_count` nodes to `aggregate_count` rigid-body
/// aggregates, in order: one aggregate per node and at least one aggregate,
/// aggregate ids in range, and at least three nodes in every aggregate.
/// Returns the smallest and the largest aggregate size.
pub fn validate_rigid_body_assignment(
    node_count: usize,
    aggregate_of_node: &Vec<usize>,
    aggregate_count: usize,
) -> (result: Result<(usize, usize), HybitError>)
    ensures
        aggregate_of_node@.len() != node_count || aggregate_count == 0 ==> result == Err::<
            (usize, usize),
            HybitError,
        >(HybitError::InvalidArgument("invalid rigid-body aggregate assignment")),
        aggregate_of_node@.len() == node_count && aggregate_count > 0 && !labels_below(
            aggregate_of_node@,
            aggregate_count as nat,
        ) ==> result == Err::<(usize, usize), HybitError>(
            HybitError::InvalidArgument("rigid-body aggregate id is out of range"),
        ),
        aggregate_of_node@.len() == node_count && aggregate_count > 0 && labels_below(
            aggregate_of_node@,
            aggregate_count as nat,
        ) ==> (result is Ok <==> forall|k: int| 0 <= k < aggregate_count ==> #[trigger] class_size(aggregate_of_node@, k) >= 3),
        result is Err && aggregate_of_node@.len() == node_count && aggregate_count > 0 && labels_below(
            aggregate_of_node@,
            aggregate_count as nat,
        ) ==> result == Err::<(usize, usize), HybitError>(
            HybitError::InvalidArgument("every rigid-body aggregate must contain at least three nodes"),
        ),
        result matches Ok((lo, hi)) ==> {
            &&& forall|k: int|
                0 <= k < aggregate_count ==> lo <= #[trigger] class_size(aggregate_of_node@, k) <= hi
            &&& exists|k: int| 0 <= k < aggregate_count && #[trigger] class_size(aggregate_of_node@, k) == lo
            &&& exists|k: int| 0 <= k < aggregate_count && #[trigger] class_size(aggregate_of_node@, k) == hi
        },
{
    if aggregate_of_node.len() != node_count || aggregate_count == 0 {
        return Err(HybitError::InvalidArgument("invalid rigid-body aggregate assignment"));
    }
    let mut v: usize = 0;
    while v < aggregate_of_node.len()
        invariant
            aggregate_of_node@.len() == node_count,
            aggregate_count > 0,
            v <= aggregate_of_node@.len(),
            forall|u: int| 0 <= u < v ==> #[trigger] aggregate_of_node@[u] < aggregate_count,
        decreases aggregate_of_node@.len() - v,
    {
        if aggregate_of_node[v] >= aggregate_count {
            return Err(HybitError::InvalidArgument("rigid-body aggregate id is out of range"));
        }
        v = v + 1;
    }
    let counts = count_classes(aggregate_of_node, aggregate_count);
    let mut k: usize = 0;
    while k < aggregate_count
        invariant
            aggregate_of_node@.len() == node_count,
            aggregate_count > 0,
            labels_below(aggregate_of_node@, aggregate_count as nat),
            counts@.len() == aggregate_count,
            forall|x: int| 0 <= x < aggregate_count ==> #[trigger] counts@[x] == class_size(aggregate_of_node@, x),
            k <= aggregate_count,
            forall|x: int| 0 <= x < k ==> #[trigger] class_size(aggregate_of_node@, x) >= 3,
        decreases aggregate_count - k,
    {
        if counts[k] < 3 {
            return Err(
                HybitError::InvalidArgument(
                    "every rigid-body aggregate must contain at least three nodes",
                ),
            );
        }
        k = k + 1;
    }
    Ok(assigned_size_range(aggregate_of_node, aggregate_count))
}

} // verus!

verus! {

/// Which nodes carry a label below `k`.
pub open spec fn below_seq(a: Seq<usize>, k: int) -> Seq<bool> {
    Seq::new(a.len(), |v: int| (a[v] as int) < k)
}

proof fn lemma_below_step(a: Seq<usize>, k: int)
    ensures
        count_true(below_seq(a, k + 1)) == count_true(below_seq(a, k)) + class_size(a, k),
{
    lemma_count_disjoint_or(below_seq(a, k), class_seq(a, k), below_seq(a, k + 1));
}

proof fn lemma_below_mono(a: Seq<usize>, j: int, k: int)
    requires
        j <= k,
    ensures
        count_true(below_seq(a, j)) <= count_true(below_seq(a, k)),
{
    lemma_count_mono(below_seq(a, j), below_seq(a, k));
}

/// The nodes grouped by aggregate: `ptr[k]` is the number of nodes in
/// aggregates below `k`, and positions `ptr[k]` up to `ptr[k + 1]` of
/// `order` list the nodes of aggregate `k` in increasing order.
pub fn aggregate_node_index(aggregate_of_node: &Vec<usize>, aggregate_count: usize) -> (index: (Vec<usize>, Vec<usize>))
    requires
        labels_below(aggregate_of_node@, aggregate_count as nat),
    ensures
        index.0@.len() == aggregate_count + 1,
        forall|k: int| 0 <= k <= aggregate_count ==> #[trigger] index.0@[k] == count_true(below_seq(aggregate_of_node@, k)),
        index.1@.len() == aggregate_of_node@.len(),
        forall|k: int, p: int|
            #![trigger index.0@[k], index.1@[p]]
            0 <= k < aggregate_count && index.0@[k] <= p < index.0@[k + 1] ==> index.1@[p] < aggregate_of_node@.len()
                && aggregate_of_node@[index.1@[p] as int] == k,
        forall|k: int, p: int, q: int|
            #![trigger index.0@[k], index.1@[p], index.1@[q]]
            0 <= k < aggregate_count && index.0@[k] <= p < q < index.0@[k + 1] ==> index.1@[p] < index.1@[q],
{
    let n = aggregate_of_node.len();
    let ghost a = aggregate_of_node@;
    let counts = count_classes(aggregate_of_node, aggregate_count);
    let mut ptr: Vec<usize> = Vec::new();
    ptr.push(0);
    proof {
        assert(below_seq(a, 0) =~= Seq::new(n as nat, |v: int| false));
        lemma_count_zero(below_seq(a, 0));
    }
    let mut k: usize = 0;
    while k < aggregate_count
        invariant
            labels_below(a, aggregate_count as nat),
            a == aggregate_of_node@,
            n == a.len(),
            counts@.len() == aggregate_count,
            forall|x: int| 0 <= x < aggregate_count ==> #[trigger] counts@[x] == class_size(a, x),
            k <= aggregate_count,
            ptr@.len() == k + 1,
            forall|x: int| 0 <= x <= k ==> #[trigger] ptr@[x] == count_true(below_seq(a, x)),
        decreases aggregate_count - k,
    {
        proof {
            lemma_below_step(a, k as int);
            lemma_count_bound(below_seq(a, k + 1));
        }
        let next = ptr[k] + counts[k];
        ptr.push(next);
        k = k + 1;
    }
    let mut next: Vec<usize> = Vec::new();
    let mut j: usize = 0;
    while j < aggregate_count
        invariant
            ptr@.len() == aggregate_count + 1,
            j <= aggregate_count,
            next@.len() == j,
            forall|x: int| 0 <= x < j ==> #[trigger] next@[x] == ptr@[x],
        decreases aggregate_count - j,
    {
        next.push(ptr[j]);
        j = j + 1;
    }
    let mut order: Vec<usize> = vec![0usize; n];
    let mut v: usize = 0;
    proof {
        assert forall|x: int| 0 <= x < aggregate_count implies #[trigger] class_seq(a.take(0), x) =~= Seq::<bool>::empty() by {}
        assert forall|x: int| 0 <= x < aggregate_count implies next@[x] <= #[trigger] ptr@[x + 1] by {
            lemma_below_step(a, x);
        }
    }
    while v < n
        invariant
            labels_below(a, aggregate_count as nat),
            a == aggregate_of_node@,
            n == a.len(),
            v <= n,
            order@.len() == n,
            ptr@.len() == aggregate_count + 1,
            forall|x: int| 0 <= x <= aggregate_count ==> #[trigger] ptr@[x] == count_true(below_seq(a, x)),
            next@.len() == aggregate_count,
            forall|x: int| 0 <= x < aggregate_count ==> #[trigger] next@[x] == ptr@[x] + count_true(class_seq(a.take(v as int), x)),
            forall|x: int| 0 <= x < aggregate_count ==> next@[x] <= #[trigger] ptr@[x + 1],
            forall|x: int, p: int|
                #![trigger next@[x], order@[p]]
                0 <= x < aggregate_count && ptr@[x] <= p < next@[x] ==> order@[p] < v && a[order@[p] as int] == x,
            forall|x: int, p: int, q: int|
                #![trigger next@[x], order@[p], order@[q]]
                0 <= x < aggregate_count && ptr@[x] <= p < q < next@[x] ==> order@[p] < order@[q],
        decreases n - v,
    {
        let x = aggregate_of_node[v];
        proof {
            let cs = class_seq(a, x as int);
            assert(class_seq(a.take(v as int), x as int) =~= cs.take(v as int));
            lemma_count_push(cs, v as int);
            lemma_count_prefix_mono(cs, v + 1, n as int);
            assert(cs.take(n as int) =~= cs);
            lemma_below_step(a, x as int);
            lemma_below_mono(a, x + 1, aggregate_count as int);
            lemma_count_bound(below_seq(a, aggregate_count as int));
            assert(next@[x as int] < ptr@[x + 1]);
        }
        let slot = next[x];
        let ghost old_order = order@;
        let ghost old_next = next@;
        order.set(slot, v);
        next.set(x, slot + 1);
        proof {
            assert forall|y: int| 0 <= y < aggregate_count implies #[trigger] next@[y] == ptr@[y] + count_true(class_seq(a.take(v + 1), y)) by {
                assert(class_seq(a.take(v + 1), y).drop_last() =~= class_seq(a.take(v as int), y));
            }
            assert forall|y: int| 0 <= y < aggregate_count implies next@[y] <= #[trigger] ptr@[y + 1] by {}
            assert(order@ == old_order.update(slot as int, v));
            assert(next@ == old_next.update(x as int, (slot + 1) as usize));
            assert forall|y: int, p: int|
                #![trigger next@[y], order@[p]]
                0 <= y < aggregate_count && ptr@[y] <= p < next@[y] implies order@[p] < v + 1 && a[order@[p] as int] == y by {
                if y != x as int {
                    assert(next@[y] == old_next[y]);
                    lemma_below_mono(a, y + 1, aggregate_count as int);
                    lemma_count_bound(below_seq(a, aggregate_count as int));
                    assert(old_next[y] <= ptr@[y + 1]);
                    assert(ptr@[y + 1] <= ptr@[aggregate_count as int]);
                    assert(p < n);
                    if y < x as int {
                        lemma_below_mono(a, y + 1, x as int);
                        assert(old_next[y] <= ptr@[y + 1]);
                    } else {
                        lemma_below_mono(a, x + 1, y);
                    }
                    assert(p != slot as int);
                    assert(order@[p] == old_order[p]);
                    assert(old_order[p] < v && a[old_order[p] as int] == y);
                } else if p != slot as int {
                    assert(order@[p] == old_order[p]);
                    assert(p < old_next[y]);
                    assert(old_order[p] < v && a[old_order[p] as int] == y);
                } else {
                    assert(order@[p] == v);
                }
            }
            assert forall|y: int, p: int, q: int|
                #![trigger next@[y], order@[p], order@[q]]
                0 <= y < aggregate_count && ptr@[y] <= p < q < next@[y] implies order@[p] < order@[q] by {
                if y != x as int {
                    assert(next@[y] == old_next[y]);
                    lemma_below_mono(a, y + 1, aggregate_count as int);
                    lemma_count_bound(below_seq(a, aggregate_count as int));
                    assert(old_next[y] <= ptr@[y + 1]);
                    assert(ptr@[y + 1] <= ptr@[aggregate_count as int]);
                    assert(p < n);
                    if y < x as int {
                        lemma_below_mono(a, y + 1, x as int);
                        assert(old_next[y] <= ptr@[y + 1]);
                    } else {
                        lemma_below_mono(a, x + 1, y);
                    }
                    assert(order@[p] == old_order[p] && order@[q] == old_order[q]);
                    assert(old_order[p] < old_order[q]);
                } else if q == slot as int {
                    assert(order@[p] == old_order[p]);
                    assert(p < old_next[y]);
                    assert(old_order[p] < v);
                } else {
                    assert(order@[p] == old_order[p] && order@[q] == old_order[q]);
                    assert(q < old_next[y]);
                    assert(old_order[p] < old_order[q]);
                }
            }
        }
        v = v + 1;
    }
    proof {
        assert(a.take(n as int) =~= a);
        assert forall|x: int| 0 <= x < aggregate_count implies #[trigger] next@[x] == ptr@[x + 1] by {
            lemma_below_step(a, x);
        }
        assert forall|k: int, p: int|
            #![trigger ptr@[k], order@[p]]
            0 <= k < aggregate_count && ptr@[k] <= p < ptr@[k + 1] implies order@[p] < n && a[order@[p] as int] == k by {
            assert(next@[k] == ptr@[k + 1]);
        }
        assert forall|k: int, p: int, q: int|
            #![trigger ptr@[k], order@[p], order@[q]]
            0 <= k < aggregate_count && ptr@[k] <= p < q < ptr@[k + 1] implies order@[p] < order@[q] by {
            assert(next@[k] == ptr@[k + 1]);
        }
    }
    (ptr, order)
}

/// Padding a sequence with `false` entries keeps its count.
proof fn lemma_count_tail_false(s: Seq<bool>, pad: nat)
    ensures
        count_true(s.add(Seq::new(pad, |i: int| false))) == count_true(s),
    decreases pad,
{
    if pad > 0 {
        let t = s.add(Seq::new(pad, |i: int| false));
        assert(t.drop_last() =~= s.add(Seq::new((pad - 1) as nat, |i: int| false)));
        lemma_count_tail_false(s, (pad - 1) as nat);
    } else {
        assert(s.add(Seq::new(0, |i: int| false)) =~= s);
    }
}

} // verus!

//! Choosing the local-direct regions of a hybrid escalation: growing core
//! regions through the ABTM topology with a bounded halo, finding core
//! regions in the risk and residual masks, and fitting them into the
//! factor-memory budget.
//!
//! Residual magnitudes enter only through their order: `order` lists every
//! DOF once, strongest residual first (ties by increasing DOF).
use vstd::prelude::*;

use crate::abtm::AbtmTopology;
use crate::aggregate::{adjacency_ok, bfs_region, grow_from, grow_region, relabel, UNASSIGNED};
use crate::csr::{csr_structure_ok, lemma_row_ptr_monotone};
use crate::error::HybitError;
use crate::mask::{count_true, lemma_count_prefix_mono, lemma_count_push, DofMask};
use crate::regions::{canon, canonical_region, copy_dofs, lemma_canon, strictly_increasing, views};

verus! {

/// The DOFs of `0..len` that a core region lists.
pub open spec fn core_mask(len: nat, core: Seq<usize>) -> Seq<bool> {
    Seq::new(len, |i: int| core.contains(i as usize))
}

/// One halo layer: the mask plus every column that one of its rows reaches.
pub open spec fn hop(t: AbtmTopology, s: Seq<bool>) -> Seq<bool> {
    Seq::new(
        s.len(),
        |c: int| s[c] || exists|r: int| 0 <= r < s.len() && s[r] && #[trigger] t.row_has(r, c),
    )
}

/// `layers` halo layers around a mask.
pub open spec fn hops(t: AbtmTopology, s: Seq<bool>, layers: nat) -> Seq<bool>
    decreases layers,
{
    if layers == 0 {
        s
    } else {
        hop(t, hops(t, s, (layers - 1) as nat))
    }
}

/// Whether each DOF of `order`, in turn, belongs to `set`.
pub open spec fn in_order(order: Seq<usize>, set: Seq<bool>) -> Seq<bool> {
    Seq::new(order.len(), |k: int| (order[k] as int) < set.len() && set[order[k] as int])
}

/// `v` is among the first `room` members of `set` in priority order.
pub open spec fn among_first(order: Seq<usize>, set: Seq<bool>, room: nat, v: usize) -> bool {
    exists|k: int|
        0 <= k < order.len() && order[k] == v && #[trigger] in_order(order, set)[k] && count_true(
            in_order(order, set).take(k),
        ) < room
}

/// Whether DOF `v` ends up in the local region grown from `core`: with
/// `expanded` the core after its halo layers, the whole expansion when it
/// has at most `max` DOFs; otherwise the core alone, cut to its `max`
/// smallest DOFs when it is itself too large, or completed with the halo
/// DOFs of strongest residual until `max` DOFs are reached.
pub open spec fn kept_in_region(
    expanded: Seq<bool>,
    core: Seq<usize>,
    order: Seq<usize>,
    max: nat,
    v: usize,
) -> bool {
    let c = canon(core);
    if count_true(expanded) <= max {
        (v as int) < expanded.len() && expanded[v as int]
    } else if c.len() > max {
        c.take(max as int).contains(v)
    } else {
        c.contains(v) || among_first(
            order,
            Seq::new(expanded.len(), |i: int| expanded[i] && !core.contains(i as usize)),
            (max - c.len()) as nat,
            v,
        )
    }
}

/// `r` is the local region grown from `core`, as a sorted DOF list.
pub open spec fn grown_region(
    t: AbtmTopology,
    core: Seq<usize>,
    order: Seq<usize>,
    layers: nat,
    max: nat,
    r: Seq<usize>,
) -> bool {
    let expanded = hops(t, core_mask(t.spec_nrows(), core), layers);
    &&& strictly_increasing(r)
    &&& forall|v: usize| r.contains(v) <==> kept_in_region(expanded, core, order, max, v)
}

/// Each entry of `order` is a DOF below `n` and none occurs twice.
pub open spec fn distinct_dofs(order: Seq<usize>, n: nat) -> bool {
    &&& forall|k: int| 0 <= k < order.len() ==> #[trigger] order[k] < n
    &&& forall|a: int, b: int| 0 <= a < b < order.len() ==> order[a] != order[b]
}

/// The halo DOFs of `halo` taken in priority order, at most `room` of them.
fn pick_halo(order: &[usize], halo: &DofMask, room: usize) -> (picked: Vec<usize>)
    requires
        halo.wf(),
        distinct_dofs(order@, halo.spec_len()),
    ensures
        forall|v: usize| picked@.contains(v) <==> among_first(order@, halo@, room as nat, v),
{
    let mut picked: Vec<usize> = Vec::new();
    let mut k: usize = 0;
    let ghost s = in_order(order@, halo@);
    while k < order.len() && picked.len() < room
        invariant
            halo.wf(),
            distinct_dofs(order@, halo.spec_len()),
            s == in_order(order@, halo@),
            k <= order@.len(),
            picked@.len() == count_true(s.take(k as int)),
            forall|v: usize|
                picked@.contains(v) <==> exists|j: int|
                    0 <= j < k && order@[j] == v && #[trigger] s[j] && count_true(s.take(j)) < room,
        decreases order@.len() - k,
    {
        let v = order[k];
        let ghost before = picked@;
        proof {
            lemma_count_push(s, k as int);
        }
        if halo.contains(v) {
            picked.push(v);
        }
        proof {
            assert forall|w: usize|
                picked@.contains(w) <==> exists|j: int|
                    0 <= j < k + 1 && order@[j] == w && #[trigger] s[j] && count_true(s.take(j))
                        < room by {
                if picked@.contains(w) && !before.contains(w) {
                    assert(w == v && s[k as int]);
                }
                if before.contains(w) {
                    let q = choose|q: int| 0 <= q < before.len() && before[q] == w;
                    assert(picked@[q] == w);
                }
                if exists|j: int|
                    0 <= j < k + 1 && order@[j] == w && #[trigger] s[j] && count_true(s.take(j))
                        < room {
                    let j = choose|j: int|
                        0 <= j < k + 1 && order@[j] == w && #[trigger] s[j] && count_true(s.take(j))
                            < room;
                    if j == k {
                        assert(picked@[picked@.len() - 1] == w);
                    } else {
                        assert(before.contains(w));
                        let q = choose|q: int| 0 <= q < before.len() && before[q] == w;
                        assert(picked@[q] == w);
                    }
                }
            }
        }
        k = k + 1;
    }
    proof {
        assert forall|v: usize| picked@.contains(v) <==> among_first(order@, halo@, room as nat, v) by {
            if among_first(order@, halo@, room as nat, v) {
                let j = choose|j: int|
                    0 <= j < order@.len() && order@[j] == v && #[trigger] in_order(order@, halo@)[j]
                        && count_true(in_order(order@, halo@).take(j)) < room;
                if j >= k {
                    lemma_count_prefix_mono(s, k as int, j);
                }
            }
        }
    }
    picked
}

/// The halo layers around the mask of one core region.
fn expand_layers(topo: &AbtmTopology, core: &DofMask, layers: usize) -> (result: Result<DofMask, HybitError>)
    requires
        topo.wf(),
        core.wf(),
        core.spec_len() == topo.spec_nrows(),
    ensures
        layers > 0 && topo.spec_nrows() != topo.spec_ncols() ==> result == Err::<DofMask, HybitError>(
            HybitError::InvalidMatrix("mask expansion requires a square ABTM matrix"),
        ),
        layers == 0 || topo.spec_nrows() == topo.spec_ncols() ==> result is Ok,
        result matches Ok(m) ==> m.wf() && m.spec_len() == core.spec_len() && m@ == hops(
            *topo,
            core@,
            layers as nat,
        ),
{
    let mut mask = core.copy();
    let mut i: usize = 0;
    while i < layers
        invariant
            topo.wf(),
            mask.wf(),
            mask.spec_len() == core.spec_len(),
            core.spec_len() == topo.spec_nrows(),
            i <= layers,
            mask@ == hops(*topo, core@, i as nat),
            i > 0 ==> topo.spec_nrows() == topo.spec_ncols(),
        decreases layers - i,
    {
        let next = topo.expand_mask_one_hop(&mask)?;
        assert(next@ =~= hop(*topo, mask@));
        mask = next;
        i = i + 1;
    }
    Ok(mask)
}

/// Grows one core region: its DOFs, `layers` halo layers through the ABTM
/// topology, then at most `max` DOFs kept as `kept_in_region` says.
fn grow_core_region(
    topo: &AbtmTopology,
    core: &Vec<usize>,
    order: &[usize],
    layers: usize,
    max: usize,
) -> (result: Result<Vec<usize>, HybitError>)
    requires
        topo.wf(),
        distinct_dofs(order@, topo.spec_nrows()),
    ensures
        (exists|k: int| 0 <= k < core@.len() && core@[k] >= topo.spec_nrows()) ==> result
            == Err::<Vec<usize>, HybitError>(HybitError::InvalidArgument("DOF mask index out of range")),
        (forall|k: int| 0 <= k < core@.len() ==> core@[k] < topo.spec_nrows()) && layers > 0
            && topo.spec_nrows() != topo.spec_ncols() ==> result == Err::<Vec<usize>, HybitError>(
            HybitError::InvalidMatrix("mask expansion requires a square ABTM matrix"),
        ),
        (forall|k: int| 0 <= k < core@.len() ==> core@[k] < topo.spec_nrows()) && (layers == 0
            || topo.spec_nrows() == topo.spec_ncols()) ==> result is Ok,
        result matches Ok(r) ==> grown_region(*topo, core@, order@, layers as nat, max as nat, r@),
{
    let n = topo.nrows();
    let core_bits = DofMask::from_indices(n, core.as_slice())?;
    assert(core_bits@ =~= core_mask(n as nat, core@));
    let mask = expand_layers(topo, &core_bits, layers)?;
    let ghost expanded = mask@;
    let all = mask.indices();
    if all.len() <= max {
        proof {
            assert forall|v: usize| all@.contains(v) <==> kept_in_region(expanded, core@, order@, max as nat, v) by {
                if all@.contains(v) {
                    let q = choose|q: int| 0 <= q < all@.len() && all@[q] == v;
                }
            }
        }
        return Ok(all);
    }
    let mut keep = canonical_region(core);
    proof {
        lemma_canon(core@);
    }
    if keep.len() > max {
        keep.truncate(max);
        proof {
            assert(keep@ == canon(core@).take(max as int));
            assert(strictly_increasing(keep@));
        }
        return Ok(keep);
    }
    let mut halo = DofMask::new(n);
    let mut i: usize = 0;
    while i < n
        invariant
            mask.wf(),
            core_bits.wf(),
            halo.wf(),
            mask.spec_len() == n,
            core_bits.spec_len() == n,
            halo.spec_len() == n,
            i <= n,
            forall|j: int| 0 <= j < i ==> halo@[j] == (mask@[j] && !core_bits@[j]),
            forall|j: int| i <= j < n ==> !halo@[j],
        decreases n - i,
    {
        if mask.contains(i) && !core_bits.contains(i) {
            let _ = halo.set(i, true);
        }
        i = i + 1;
    }
    let ghost halo_seq = Seq::new(expanded.len(), |j: int| expanded[j] && !core@.contains(j as usize));
    assert(halo@ =~= halo_seq);
    let room = max - keep.len();
    let picked = pick_halo(order, &halo, room);
    let mut j: usize = 0;
    let ghost c = keep@;
    while j < picked.len()
        invariant
            j <= picked@.len(),
            keep@ == c + picked@.take(j as int),
        decreases picked@.len() - j,
    {
        keep.push(picked[j]);
        j = j + 1;
        assert(keep@ =~= c + picked@.take(j as int));
    }
    assert(picked@.take(j as int) =~= picked@);
    let region = canonical_region(&keep);
    proof {
        lemma_canon(keep@);
        assert forall|v: usize| region@.contains(v) <==> kept_in_region(expanded, core@, order@, max as nat, v) by {
            assert(region@.contains(v) <==> keep@.contains(v));
            if keep@.contains(v) {
                let q = choose|q: int| 0 <= q < keep@.len() && keep@[q] == v;
                if q < c.len() {
                    assert(c.contains(v));
                } else {
                    assert(picked@[q - c.len()] == v);
                    assert(picked@.contains(v));
                }
            }
            if c.contains(v) {
                let q = choose|q: int| 0 <= q < c.len() && c[q] == v;
                assert(keep@[q] == v);
            }
            if picked@.contains(v) {
                let q = choose|q: int| 0 <= q < picked@.len() && picked@[q] == v;
                assert(keep@[c.len() + q] == v);
            }
        }
    }
    Ok(region)
}

/// `regions` are the non-empty regions grown from the cores, in core
/// order: region `j` is grown from core `idx[j]`, and every core that `idx`
/// skips grows into an empty region.
pub open spec fn regions_follow_cores(
    t: AbtmTopology,
    cores: Seq<Vec<usize>>,
    order: Seq<usize>,
    layers: nat,
    max: nat,
    regions: Seq<Vec<usize>>,
    idx: Seq<int>,
) -> bool {
    &&& idx.len() == regions.len()
    &&& forall|a: int, b: int| 0 <= a < b < idx.len() ==> idx[a] < idx[b]
    &&& forall|j: int|
        0 <= j < idx.len() ==> 0 <= #[trigger] idx[j] < cores.len() && regions[j]@.len() > 0
            && grown_region(t, cores[idx[j]]@, order, layers, max, regions[j]@)
    &&& forall|k: int|
        0 <= k < cores.len() && !idx.contains(k) ==> grown_region(
            t,
            cores[k]@,
            order,
            layers,
            max,
            Seq::empty(),
        )
}

/// Every DOF of every core is below `n`.
pub open spec fn dofs_below(cores: Seq<Vec<usize>>, n: nat) -> bool {
    forall|k: int, q: int| 0 <= k < cores.len() && 0 <= q < cores[k]@.len() ==> #[trigger] cores[k]@[q] < n
}

/// The first core lies inside the matrix, but halo layers are asked for on
/// a topology that is not square.
pub open spec fn halo_refused(cores: Seq<Vec<usize>>, nrows: nat, ncols: nat, layers: nat) -> bool {
    &&& cores.len() > 0
    &&& forall|q: int| 0 <= q < cores[0]@.len() ==> #[trigger] cores[0]@[q] < nrows
    &&& layers > 0
    &&& nrows != ncols
}

/// Some choice of cores makes `regions` the regions grown from them.
pub open spec fn grown_from_cores(
    t: AbtmTopology,
    cores: Seq<Vec<usize>>,
    order: Seq<usize>,
    layers: nat,
    max: nat,
    regions: Seq<Vec<usize>>,
) -> bool {
    exists|idx: Seq<int>| #[trigger] regions_follow_cores(t, cores, order, layers, max, regions, idx)
}

/// Grows every core region by `overlap_layers` halo layers through the ABTM
/// topology and keeps at most `max_local_region_size` DOFs of each: the core
/// first, then the halo DOFs of strongest residual. A region left empty is
/// dropped. The first core with a DOF outside the matrix, or a halo on a
/// non-square topology, is refused.
pub fn expand_regions_with_overlap(
    topo: &AbtmTopology,
    core_regions: &[Vec<usize>],
    order: &[usize],
    overlap_layers: usize,
    max_local_region_size: usize,
) -> (result: Result<Vec<Vec<usize>>, HybitError>)
    requires
        topo.wf(),
        distinct_dofs(order@, topo.spec_nrows()),
    ensures
        result is Ok <==> (dofs_below(core_regions@, topo.spec_nrows()) && (overlap_layers == 0
            || topo.spec_nrows() == topo.spec_ncols() || core_regions@.len() == 0)),
        result is Err && halo_refused(core_regions@, topo.spec_nrows(), topo.spec_ncols(), overlap_layers as nat)
            ==> result == Err::<Vec<Vec<usize>>, HybitError>(
            HybitError::InvalidMatrix("mask expansion requires a square ABTM matrix"),
        ),
        result is Err && !halo_refused(core_regions@, topo.spec_nrows(), topo.spec_ncols(), overlap_layers as nat)
            ==> result == Err::<Vec<Vec<usize>>, HybitError>(
            HybitError::InvalidArgument("DOF mask index out of range"),
        ),
        result matches Ok(regions) ==> grown_from_cores(
            *topo,
            core_regions@,
            order@,
            overlap_layers as nat,
            max_local_region_size as nat,
            regions@,
        ),
{
    let mut result: Vec<Vec<usize>> = Vec::new();
    let ghost mut idx: Seq<int> = Seq::empty();
    let mut k: usize = 0;
    while k < core_regions.len()
        invariant
            topo.wf(),
            distinct_dofs(order@, topo.spec_nrows()),
            k <= core_regions@.len(),
            k > 0 ==> (overlap_layers == 0 || topo.spec_nrows() == topo.spec_ncols()),
            forall|k2: int, q: int|
                0 <= k2 < k && 0 <= q < core_regions@[k2]@.len() ==> #[trigger] core_regions@[k2]@[q]
                    < topo.spec_nrows(),
            idx.len() == result@.len(),
            forall|a: int, b: int| 0 <= a < b < idx.len() ==> idx[a] < idx[b],
            forall|j: int|
                0 <= j < idx.len() ==> 0 <= #[trigger] idx[j] < k && result@[j]@.len() > 0 && grown_region(
                    *topo,
                    core_regions@[idx[j]]@,
                    order@,
                    overlap_layers as nat,
                    max_local_region_size as nat,
                    result@[j]@,
                ),
            forall|k2: int|
                0 <= k2 < k && !idx.contains(k2) ==> grown_region(
                    *topo,
                    core_regions@[k2]@,
                    order@,
                    overlap_layers as nat,
                    max_local_region_size as nat,
                    Seq::empty(),
                ),
        decreases core_regions@.len() - k,
    {
        let region = match grow_core_region(topo, &core_regions[k], order, overlap_layers, max_local_region_size) {
            Ok(r) => r,
            Err(e) => {
                proof {
                    if exists|q: int| 0 <= q < core_regions@[k as int]@.len() && core_regions@[k as int]@[q] >= topo.spec_nrows() {
                        let q = choose|q: int| 0 <= q < core_regions@[k as int]@.len() && core_regions@[k as int]@[q] >= topo.spec_nrows();
                        assert(core_regions@[k as int]@[q] >= topo.spec_nrows());
                        assert(!dofs_below(core_regions@, topo.spec_nrows()));
                    }
                }
                return Err(e);
            },
        };
        let ghost old_idx = idx;
        let ghost old_result = result@;
        if region.len() > 0 {
            proof {
                idx = idx.push(k as int);
            }
            result.push(region);
            proof {
                assert(idx[idx.len() - 1] == k);
                assert(idx.contains(k as int));
                assert forall|k2: int| 0 <= k2 < k && old_idx.contains(k2) implies idx.contains(k2) by {
                    let j = choose|j: int| 0 <= j < old_idx.len() && old_idx[j] == k2;
                    assert(idx[j] == k2);
                }
                assert forall|j: int| 0 <= j < idx.len() implies 0 <= #[trigger] idx[j] < k + 1
                    && result@[j]@.len() > 0 && grown_region(
                    *topo,
                    core_regions@[idx[j]]@,
                    order@,
                    overlap_layers as nat,
                    max_local_region_size as nat,
                    result@[j]@,
                ) by {
                    if j < old_idx.len() {
                        assert(idx[j] == old_idx[j]);
                        assert(result@[j] == old_result[j]);
                    }
                }
            }
        } else {
            assert(region@ =~= Seq::<usize>::empty());
            assert forall|j: int| 0 <= j < idx.len() implies idx[j] != k by {}
        }
        k = k + 1;
    }
    assert forall|k2: int|
        0 <= k2 < core_regions@.len() && !idx.contains(k2) implies grown_region(
        *topo,
        core_regions@[k2]@,
        order@,
        overlap_layers as nat,
        max_local_region_size as nat,
        Seq::empty(),
    ) by {}
    assert(regions_follow_cores(
        *topo,
        core_regions@,
        order@,
        overlap_layers as nat,
        max_local_region_size as nat,
        result@,
        idx,
    ));
    assert(grown_from_cores(
        *topo,
        core_regions@,
        order@,
        overlap_layers as nat,
        max_local_region_size as nat,
        result@,
    ));
    Ok(result)
}

} // verus!

verus! {

/// Label of a DOF that may not join any region.
pub const BLOCKED: usize = usize::MAX - 1;

/// DOF `v` lies inside mask `m` and is set there.
pub open spec fn in_mask(m: Seq<bool>, v: int) -> bool {
    0 <= v < m.len() && m[v]
}

/// The columns below `n` among `cols`, in order.
pub open spec fn cols_below(cols: Seq<u32>, n: nat) -> Seq<usize>
    decreases cols.len(),
{
    if cols.len() == 0 {
        Seq::empty()
    } else {
        let rest = cols_below(cols.drop_last(), n);
        if (cols.last() as nat) < n {
            rest.push(cols.last() as usize)
        } else {
            rest
        }
    }
}

/// The row graph of a CSR pattern with `nrows` rows: the neighbours of row
/// `r` are its stored columns that are also rows, in stored order.
pub open spec fn csr_rows(nrows: nat, row_ptr: Seq<u32>, col_idx: Seq<u32>) -> Seq<Seq<usize>> {
    Seq::new(nrows, |r: int| cols_below(col_idx.subrange(row_ptr[r] as int, row_ptr[r + 1] as int), nrows))
}

/// The in-range columns of every row of a CSR pattern, in stored order.
fn row_neighbors(nrows: usize, ncols: usize, row_ptr: &[u32], col_idx: &[u32]) -> (adj: Vec<Vec<usize>>)
    requires
        csr_structure_ok(nrows as nat, ncols as nat, row_ptr@, col_idx@),
    ensures
        adj@.len() == nrows,
        adjacency_ok(adj@),
        views(adj@) == csr_rows(nrows as nat, row_ptr@, col_idx@),
{
    let mut adj: Vec<Vec<usize>> = Vec::new();
    let mut r: usize = 0;
    while r < nrows
        invariant
            csr_structure_ok(nrows as nat, ncols as nat, row_ptr@, col_idx@),
            r <= nrows,
            adj@.len() == r,
            forall|u: int, j: int| 0 <= u < r && 0 <= j < adj@[u]@.len() ==> #[trigger] adj@[u]@[j] < nrows,
            views(adj@) == csr_rows(nrows as nat, row_ptr@, col_idx@).take(r as int),
        decreases nrows - r,
    {
        proof {
            lemma_row_ptr_monotone(nrows as nat, ncols as nat, row_ptr@, col_idx@, r + 1, nrows as int);
        }
        let start = row_ptr[r] as usize;
        let end = row_ptr[r + 1] as usize;
        let mut row: Vec<usize> = Vec::new();
        let mut p = start;
        while p < end
            invariant
                end <= col_idx@.len(),
                start <= p <= end,
                forall|j: int| 0 <= j < row@.len() ==> #[trigger] row@[j] < nrows,
                row@ == cols_below(col_idx@.subrange(start as int, p as int), nrows as nat),
            decreases end - p,
        {
            proof {
                assert(col_idx@.subrange(start as int, p + 1).drop_last() =~= col_idx@.subrange(
                    start as int,
                    p as int,
                ));
            }
            let c = col_idx[p] as usize;
            if c < nrows {
                row.push(c);
            }
            p = p + 1;
        }
        let ghost before = adj@;
        adj.push(row);
        proof {
            assert(views(adj@) =~= views(before).push(row@));
            assert(views(adj@) =~= csr_rows(nrows as nat, row_ptr@, col_idx@).take(r + 1));
        }
        r = r + 1;
    }
    assert(views(adj@) =~= csr_rows(nrows as nat, row_ptr@, col_idx@));
    adj
}

/// `UNASSIGNED` for the DOFs of the mask, `BLOCKED` for every other DOF.
fn open_labels(allowed: &DofMask, n: usize) -> (labels: Vec<usize>)
    requires
        allowed.wf(),
    ensures
        labels@.len() == n,
        forall|v: int| 0 <= v < n ==> #[trigger] labels@[v] == (if in_mask(allowed@, v) {
            UNASSIGNED
        } else {
            BLOCKED
        }),
{
    let mut labels: Vec<usize> = Vec::new();
    let mut v: usize = 0;
    while v < n
        invariant
            allowed.wf(),
            v <= n,
            labels@.len() == v,
            forall|u: int| 0 <= u < v ==> #[trigger] labels@[u] == (if in_mask(allowed@, u) {
                UNASSIGNED
            } else {
                BLOCKED
            }),
        decreases n - v,
    {
        if allowed.contains(v) {
            labels.push(UNASSIGNED);
        } else {
            labels.push(BLOCKED);
        }
        v = v + 1;
    }
    labels
}

/// Component labelling from `start` on: every start still unassigned, in
/// increasing order, gives the next label to all it reaches breadth-first.
pub open spec fn components_from(adj: Seq<Seq<usize>>, labels: Seq<usize>, start: int, count: nat) -> Seq<usize> {
    grow_from(adj, labels, start, count, adj.len()).0
}

/// Labels the components reached breadth-first from every open DOF in
/// increasing order; `BLOCKED` DOFs stay blocked and are never crossed.
fn label_components(adj: &Vec<Vec<usize>>, labels: &mut Vec<usize>) -> (count: usize)
    requires
        adjacency_ok(adj@),
        old(labels)@.len() == adj@.len(),
        adj@.len() < BLOCKED,
        forall|v: int| 0 <= v < adj@.len() ==> #[trigger] old(labels)@[v] == UNASSIGNED || old(labels)@[v] == BLOCKED,
    ensures
        final(labels)@.len() == adj@.len(),
        count <= adj@.len(),
        forall|v: int|
            0 <= v < adj@.len() ==> (#[trigger] final(labels)@[v] == BLOCKED) == (old(labels)@[v] == BLOCKED),
        forall|v: int| 0 <= v < adj@.len() && final(labels)@[v] != BLOCKED ==> #[trigger] final(labels)@[v] < count,
        final(labels)@ == components_from(views(adj@), old(labels)@, 0, 0),
{
    let n = adj.len();
    let ghost l0 = labels@;
    let mut count: usize = 0;
    let mut start: usize = 0;
    while start < n
        invariant
            adjacency_ok(adj@),
            n == adj@.len(),
            n < BLOCKED,
            labels@.len() == n,
            start <= n,
            count <= start,
            forall|v: int| 0 <= v < n ==> (#[trigger] labels@[v] == BLOCKED) == (l0[v] == BLOCKED),
            forall|v: int| 0 <= v < n ==> #[trigger] labels@[v] == UNASSIGNED || labels@[v] == BLOCKED || labels@[v] < count,
            forall|v: int| 0 <= v < start ==> #[trigger] labels@[v] != UNASSIGNED,
            components_from(views(adj@), l0, 0, 0) == components_from(views(adj@), labels@, start as int, count as nat),
        decreases n - start,
    {
        if labels[start] == UNASSIGNED {
            let ghost before = labels@;
            let members = grow_region(adj, labels, start, count, n);
            proof {
                assert(members@.contains(start));
                assert forall|v: int| 0 <= v < n implies (#[trigger] labels@[v] == BLOCKED) == (l0[v] == BLOCKED) by {
                    if members@.contains(v as usize) {
                        let k = choose|k: int| 0 <= k < members@.len() && members@[k] == v as usize;
                        assert(before[members@[k] as int] == UNASSIGNED);
                    }
                }
                assert forall|v: int| 0 <= v < n implies #[trigger] labels@[v] == UNASSIGNED || labels@[v] == BLOCKED || labels@[v] < count + 1 by {}
            }
            count = count + 1;
        }
        start = start + 1;
    }
    count
}

} // verus!

verus! {

/// Candidate regions that are non-empty, increasing, at most `cap` long,
/// inside the mask `allowed`, and pairwise disjoint.
pub open spec fn region_pool(pool: Seq<Vec<usize>>, allowed: Seq<bool>, cap: nat) -> bool {
    &&& forall|j: int|
        0 <= j < pool.len() ==> #[trigger] pool[j]@.len() > 0 && pool[j]@.len() <= cap
            && strictly_increasing(pool[j]@)
    &&& forall|j: int, q: int|
        0 <= j < pool.len() && 0 <= q < pool[j]@.len() ==> in_mask(allowed, #[trigger] pool[j]@[q] as int)
    &&& forall|a: int, b: int, v: usize|
        0 <= a < pool.len() && 0 <= b < pool.len() && a != b && #[trigger] pool[a]@.contains(v)
            ==> !#[trigger] pool[b]@.contains(v)
}

/// Labels and regions agree: region `j` holds exactly the DOFs labelled `j`.
pub open spec fn labels_match(labels: Seq<usize>, regions: Seq<Vec<usize>>) -> bool {
    forall|j: int, v: usize|
        0 <= j < regions.len() ==> (#[trigger] regions[j]@.contains(v) <==> (v < labels.len()
            && labels[v as int] == j))
}

proof fn lemma_labels_pool(labels: Seq<usize>, regions: Seq<Vec<usize>>, allowed: Seq<bool>, cap: nat)
    requires
        labels_match(labels, regions),
        forall|v: int| 0 <= v < labels.len() ==> (#[trigger] labels[v] == BLOCKED) == !in_mask(allowed, v),
        forall|j: int|
            0 <= j < regions.len() ==> #[trigger] regions[j]@.len() > 0 && regions[j]@.len() <= cap
                && strictly_increasing(regions[j]@),
        regions.len() < BLOCKED,
    ensures
        region_pool(regions, allowed, cap),
{
    assert forall|j: int, q: int|
        0 <= j < regions.len() && 0 <= q < regions[j]@.len() implies in_mask(allowed, #[trigger] regions[j]@[q] as int) by {
        assert(regions[j]@.contains(regions[j]@[q]));
    }
}

/// `UNASSIGNED` on the DOFs of `allowed` and `BLOCKED` elsewhere.
pub open spec fn open_seq(allowed: Seq<bool>, n: nat) -> Seq<usize> {
    Seq::new(n, |v: int| if in_mask(allowed, v) { UNASSIGNED } else { BLOCKED })
}

/// Some seed DOF carries component label `c`.
pub open spec fn touched(comp: Seq<usize>, seeds: Seq<bool>, c: usize) -> bool {
    exists|v: int| 0 <= v < comp.len() && comp[v] == c && #[trigger] in_mask(seeds, v)
}

/// Region growth from the roots `order[k..]`: a root still unclaimed whose
/// component touches a seed claims, with the next region label, up to `cap`
/// unclaimed DOFs breadth-first; the claimed DOFs, sorted, form a region.
pub open spec fn risk_claims(
    adj: Seq<Seq<usize>>,
    claim: Seq<usize>,
    comp: Seq<usize>,
    seeds: Seq<bool>,
    order: Seq<usize>,
    k: int,
    regions: Seq<Seq<usize>>,
    cap: nat,
) -> Seq<Seq<usize>>
    decreases order.len() - k,
{
    if k < 0 || k >= order.len() {
        regions
    } else {
        let root = order[k];
        if (root as int) < claim.len() && claim[root as int] == UNASSIGNED && comp[root as int] != BLOCKED
            && touched(comp, seeds, comp[root as int]) {
            let m = bfs_region(adj, claim, root, cap, regions.len() as usize);
            risk_claims(
                adj,
                relabel(claim, m, regions.len() as usize),
                comp,
                seeds,
                order,
                k + 1,
                regions.push(canon(m)),
                cap,
            )
        } else {
            risk_claims(adj, claim, comp, seeds, order, k + 1, regions, cap)
        }
    }
}

/// The candidate regions of the risk mask: the components of the risk DOFs
/// are labelled, then regions are grown from the roots in priority order.
pub open spec fn risk_pool(
    adj: Seq<Seq<usize>>,
    risk: Seq<bool>,
    seeds: Seq<bool>,
    order: Seq<usize>,
    cap: nat,
) -> Seq<Seq<usize>> {
    let open = open_seq(risk, adj.len());
    risk_claims(adj, open, components_from(adj, open, 0, 0), seeds, order, 0, Seq::empty(), cap)
}

/// The regions grown from the roots that belong to risk components touched
/// by a seed: in priority order, every root not yet claimed claims up to
/// `cap` unclaimed risk DOFs breadth-first.
fn risk_regions(adj: &Vec<Vec<usize>>, risk: &DofMask, seeds: &DofMask, order: &[usize], cap: usize) -> (regions:
    Vec<Vec<usize>>)
    requires
        adjacency_ok(adj@),
        adj@.len() < BLOCKED,
        risk.wf(),
        seeds.wf(),
        distinct_dofs(order@, adj@.len() as nat),
        order@.len() == adj@.len(),
        cap >= 1,
    ensures
        region_pool(regions@, risk@, cap as nat),
        forall|j: int, q: int|
            0 <= j < regions@.len() && 0 <= q < regions@[j]@.len() ==> #[trigger] regions@[j]@[q] < adj@.len(),
        views(regions@) == risk_pool(views(adj@), risk@, seeds@, order@, cap as nat),
{
    let n = adj.len();
    let mut comp = open_labels(risk, n);
    assert(comp@ =~= open_seq(risk@, n as nat));
    let ncomp = label_components(adj, &mut comp);
    let mut touches: Vec<bool> = vec![false; ncomp];
    let mut v: usize = 0;
    while v < n
        invariant
            n == adj@.len(),
            comp@.len() == n,
            touches@.len() == ncomp,
            seeds.wf(),
            forall|u: int| 0 <= u < n && comp@[u] != BLOCKED ==> #[trigger] comp@[u] < ncomp,
            ncomp <= n,
            n < BLOCKED,
            v <= n,
            forall|c: int| 0 <= c < ncomp ==> #[trigger] touches@[c] == exists|u: int|
                0 <= u < v && comp@[u] == c && #[trigger] in_mask(seeds@, u),
        decreases n - v,
    {
        let ghost before = touches@;
        if comp[v] != BLOCKED && seeds.contains(v) {
            touches.set(comp[v], true);
        }
        proof {
            assert forall|c: int| 0 <= c < ncomp implies #[trigger] touches@[c] == exists|u: int|
                0 <= u < v + 1 && comp@[u] == c && #[trigger] in_mask(seeds@, u) by {
                if in_mask(seeds@, v as int) && comp@[v as int] == c {
                    assert(comp@[v as int] != BLOCKED);
                }
                if exists|u: int| 0 <= u < v + 1 && comp@[u] == c && #[trigger] in_mask(seeds@, u) {
                    let u = choose|u: int| 0 <= u < v + 1 && comp@[u] == c && #[trigger] in_mask(seeds@, u);
                    if u < v {
                        assert(before[c]);
                    }
                }
            }
        }
        v = v + 1;
    }
    proof {
        assert forall|c: int| 0 <= c < ncomp implies #[trigger] touches@[c] == touched(comp@, seeds@, c as usize) by {
            if touched(comp@, seeds@, c as usize) {
                let u = choose|u: int| 0 <= u < comp@.len() && comp@[u] == c as usize && #[trigger] in_mask(seeds@, u);
                assert(0 <= u < v && comp@[u] == c && in_mask(seeds@, u));
            }
        }
    }
    let mut claim = open_labels(risk, n);
    assert(claim@ =~= open_seq(risk@, n as nat));
    let ghost pool_spec = risk_pool(views(adj@), risk@, seeds@, order@, cap as nat);
    let mut regions: Vec<Vec<usize>> = Vec::new();
    assert(views(regions@) =~= Seq::<Seq<usize>>::empty());
    let mut k: usize = 0;
    while k < order.len()
        invariant
            adjacency_ok(adj@),
            n == adj@.len(),
            n < BLOCKED,
            risk.wf(),
            distinct_dofs(order@, n as nat),
            order@.len() == n,
            cap >= 1,
            comp@.len() == n,
            touches@.len() == ncomp,
            forall|u: int| 0 <= u < n && comp@[u] != BLOCKED ==> #[trigger] comp@[u] < ncomp,
            forall|c: int| 0 <= c < ncomp ==> #[trigger] touches@[c] == touched(comp@, seeds@, c as usize),
            pool_spec == risk_claims(views(adj@), claim@, comp@, seeds@, order@, k as int, views(regions@), cap as nat),
            claim@.len() == n,
            k <= order@.len(),
            regions@.len() <= k,
            forall|u: int| 0 <= u < n ==> (#[trigger] claim@[u] == BLOCKED) == !in_mask(risk@, u),
            forall|u: int|
                0 <= u < n ==> #[trigger] claim@[u] == UNASSIGNED || claim@[u] == BLOCKED || claim@[u]
                    < regions@.len(),
            labels_match(claim@, regions@),
            forall|j: int|
                0 <= j < regions@.len() ==> #[trigger] regions@[j]@.len() > 0 && regions@[j]@.len() <= cap
                    && strictly_increasing(regions@[j]@),
        decreases order@.len() - k,
    {
        let root = order[k];
        if claim[root] == UNASSIGNED && comp[root] != BLOCKED && touches[comp[root]] {
            let label = regions.len();
            let ghost before = claim@;
            let ghost old_regions = regions@;
            let members = grow_region(adj, &mut claim, root, label, cap);
            let region = canonical_region(&members);
            proof {
                lemma_canon(members@);
                assert(members@.contains(root));
                assert(region@.contains(root));
            }
            regions.push(region);
            proof {
                assert(views(regions@) =~= views(old_regions).push(canon(members@)));
                assert forall|u: int| 0 <= u < n implies (#[trigger] claim@[u] == BLOCKED) == !in_mask(risk@, u) by {
                    if members@.contains(u as usize) {
                        let q = choose|q: int| 0 <= q < members@.len() && members@[q] == u as usize;
                        assert(before[members@[q] as int] == UNASSIGNED);
                    }
                }
                assert forall|j: int, w: usize|
                    0 <= j < regions@.len() implies (#[trigger] regions@[j]@.contains(w) <==> (w < claim@.len()
                        && claim@[w as int] == j)) by {
                    if j < label {
                        assert(regions@[j] == old_regions[j]);
                        if w < n && members@.contains(w) {
                            let q = choose|q: int| 0 <= q < members@.len() && members@[q] == w;
                            assert(before[members@[q] as int] == UNASSIGNED);
                        }
                    } else {
                        assert(regions@[j]@ == canon(members@));
                        if members@.contains(w) {
                            let q = choose|q: int| 0 <= q < members@.len() && members@[q] == w;
                        }
                    }
                }
            }
        }
        k = k + 1;
    }
    proof {
        lemma_labels_pool(claim@, regions@, risk@, cap as nat);
        assert forall|j: int, q: int|
            0 <= j < regions@.len() && 0 <= q < regions@[j]@.len() implies #[trigger] regions@[j]@[q] < n by {
            assert(regions@[j]@.contains(regions@[j]@[q]));
        }
    }
    regions
}

} // verus!

verus! {

/// Every DOF below `n` occurs in `order`.
pub open spec fn covers_all(order: Seq<usize>, n: nat) -> bool {
    forall|v: int| 0 <= v < n ==> #[trigger] occurs_in(order, v)
}

/// DOF `v` occurs in `order`.
pub open spec fn occurs_in(order: Seq<usize>, v: int) -> bool {
    exists|k: int| 0 <= k < order.len() && #[trigger] order[k] == v
}

/// Chunking from `order[k..]` on: an unchunked seed DOF joins the open
/// chunk of its component, after a fresh chunk is opened for the component
/// when it has none or its open chunk already holds `cap` DOFs.
pub open spec fn chunk_claims(
    comp: Seq<usize>,
    order: Seq<usize>,
    k: int,
    owner: Seq<usize>,
    open: Seq<usize>,
    chunks: Seq<Seq<usize>>,
    cap: nat,
) -> Seq<Seq<usize>>
    decreases order.len() - k,
{
    if k < 0 || k >= order.len() {
        chunks
    } else {
        let v = order[k];
        if (v as int) < owner.len() && owner[v as int] == UNASSIGNED {
            let c = comp[v as int] as int;
            let fresh = open[c] == UNASSIGNED || chunks[open[c] as int].len() >= cap;
            let j = if fresh { chunks.len() as int } else { open[c] as int };
            let grown = if fresh { chunks.push(Seq::empty()) } else { chunks };
            chunk_claims(
                comp,
                order,
                k + 1,
                owner.update(v as int, j as usize),
                if fresh { open.update(c, chunks.len() as usize) } else { open },
                grown.update(j, grown[j].push(v)),
                cap,
            )
        } else {
            chunk_claims(comp, order, k + 1, owner, open, chunks, cap)
        }
    }
}

/// The candidate regions of the seed mask: its components labelled, then
/// cut into chunks in priority order, each chunk sorted.
pub open spec fn seed_pool(adj: Seq<Seq<usize>>, seeds: Seq<bool>, order: Seq<usize>, cap: nat) -> Seq<Seq<usize>> {
    let open = open_seq(seeds, adj.len());
    let chunks = chunk_claims(
        components_from(adj, open, 0, 0),
        order,
        0,
        open,
        Seq::new(adj.len(), |c: int| UNASSIGNED),
        Seq::empty(),
        cap,
    );
    Seq::new(chunks.len(), |i: int| canon(chunks[i]))
}

/// The seed components cut into chunks: in priority order, every seed DOF
/// joins the open chunk of its seed component, and a new chunk opens when
/// the component has none or its chunk already holds `cap` DOFs.
fn seed_chunks(adj: &Vec<Vec<usize>>, seeds: &DofMask, order: &[usize], cap: usize) -> (chunks: Vec<Vec<usize>>)
    requires
        adjacency_ok(adj@),
        adj@.len() < BLOCKED,
        seeds.wf(),
        distinct_dofs(order@, adj@.len() as nat),
        order@.len() == adj@.len(),
        cap >= 1,
    ensures
        region_pool(chunks@, seeds@, cap as nat),
        covers_all(order@, adj@.len() as nat) && (exists|v: int| 0 <= v < adj@.len() && #[trigger] in_mask(
            seeds@,
            v,
        )) ==> chunks@.len() > 0,
        forall|j: int, q: int|
            0 <= j < chunks@.len() && 0 <= q < chunks@[j]@.len() ==> #[trigger] chunks@[j]@[q] < adj@.len(),
        views(chunks@) == seed_pool(views(adj@), seeds@, order@, cap as nat),
{
    let n = adj.len();
    let mut comp = open_labels(seeds, n);
    assert(comp@ =~= open_seq(seeds@, n as nat));
    let ncomp = label_components(adj, &mut comp);
    let mut owner = open_labels(seeds, n);
    assert(owner@ =~= open_seq(seeds@, n as nat));
    let mut open: Vec<usize> = vec![UNASSIGNED; n];
    assert(open@ =~= Seq::new(n as nat, |c: int| UNASSIGNED));
    let mut chunks: Vec<Vec<usize>> = Vec::new();
    let ghost final_chunks = chunk_claims(comp@, order@, 0, owner@, open@, Seq::empty(), cap as nat);
    assert(views(chunks@) =~= Seq::<Seq<usize>>::empty());
    let mut k: usize = 0;
    while k < order.len()
        invariant
            n == adj@.len(),
            n < BLOCKED,
            seeds.wf(),
            distinct_dofs(order@, n as nat),
            order@.len() == n,
            cap >= 1,
            comp@.len() == n,
            open@.len() == n,
            ncomp <= n,
            forall|u: int| 0 <= u < n ==> (#[trigger] comp@[u] == BLOCKED) == !in_mask(seeds@, u),
            forall|u: int| 0 <= u < n && comp@[u] != BLOCKED ==> #[trigger] comp@[u] < ncomp,
            owner@.len() == n,
            k <= order@.len(),
            chunks@.len() <= k,
            forall|c: int| 0 <= c < n ==> #[trigger] open@[c] == UNASSIGNED || open@[c] < chunks@.len(),
            final_chunks == chunk_claims(comp@, order@, k as int, owner@, open@, views(chunks@), cap as nat),
            forall|u: int| 0 <= u < n ==> (#[trigger] owner@[u] == BLOCKED) == !in_mask(seeds@, u),
            forall|u: int|
                0 <= u < n ==> #[trigger] owner@[u] == UNASSIGNED || owner@[u] == BLOCKED || owner@[u]
                    < chunks@.len(),
            labels_match(owner@, chunks@),
            forall|j: int| 0 <= j < chunks@.len() ==> #[trigger] chunks@[j]@.len() > 0 && chunks@[j]@.len() <= cap,
            forall|q: int| 0 <= q < k && in_mask(seeds@, #[trigger] order@[q] as int) ==> owner@[order@[q] as int] != UNASSIGNED,
        decreases order@.len() - k,
    {
        let v = order[k];
        if owner[v] == UNASSIGNED {
            let c = comp[v];
            let ghost old_chunks = chunks@;
            let ghost old_owner = owner@;
            let ghost old_open = open@;
            let ghost old_views = views(chunks@);
            let ghost fresh_spec = open@[c as int] == UNASSIGNED || old_views[open@[c as int] as int].len() >= cap;
            let ghost grown = if fresh_spec { old_views.push(Seq::empty()) } else { old_views };
            if open[c] == UNASSIGNED || chunks[open[c]].len() >= cap {
                let fresh = chunks.len();
                open.set(c, fresh);
                chunks.push(Vec::new());
                assert(labels_match(owner@, chunks@)) by {
                    assert forall|j: int, w: usize|
                        0 <= j < chunks@.len() implies (#[trigger] chunks@[j]@.contains(w) <==> (w
                        < owner@.len() && owner@[w as int] == j)) by {
                        if j < fresh {
                            assert(chunks@[j] == old_chunks[j]);
                        }
                    }
                }
            }
            let j = open[c];
            let ghost mid_chunks = chunks@;
            chunks[j].push(v);
            owner.set(v, j);
            proof {
                assert forall|i: int, w: usize|
                    0 <= i < chunks@.len() implies (#[trigger] chunks@[i]@.contains(w) <==> (w
                    < owner@.len() && owner@[w as int] == i)) by {
                    if i != j {
                        assert(chunks@[i] == mid_chunks[i]);
                    } else {
                        assert(chunks@[i]@ == mid_chunks[i]@.push(v));
                        if mid_chunks[i]@.contains(w) {
                            assert(chunks@[i]@.contains(w)) by {
                                let q = choose|q: int| 0 <= q < mid_chunks[i]@.len() && mid_chunks[i]@[q] == w;
                                assert(chunks@[i]@[q] == w);
                            }
                        }
                        if w == v {
                            assert(chunks@[i]@[chunks@[i]@.len() - 1] == v);
                        }
                        if chunks@[i]@.contains(w) && w != v {
                            let q = choose|q: int| 0 <= q < chunks@[i]@.len() && chunks@[i]@[q] == w;
                            assert(mid_chunks[i]@[q] == w);
                        }
                    }
                }
                assert(views(mid_chunks) =~= grown);
                assert(views(chunks@) =~= grown.update(j as int, grown[j as int].push(v)));
                assert(owner@ =~= old_owner.update(v as int, j));
                assert(open@ =~= (if fresh_spec { old_open.update(c as int, old_views.len() as usize) } else { old_open }));
            }
        }
        k = k + 1;
    }
    let mut result: Vec<Vec<usize>> = Vec::new();
    let mut j: usize = 0;
    while j < chunks.len()
        invariant
            j <= chunks@.len(),
            result@.len() == j,
            labels_match(owner@, chunks@),
            forall|i: int| 0 <= i < chunks@.len() ==> #[trigger] chunks@[i]@.len() > 0 && chunks@[i]@.len() <= cap,
            forall|i: int|
                0 <= i < j ==> #[trigger] result@[i]@.len() > 0 && result@[i]@.len() <= cap
                    && strictly_increasing(result@[i]@),
            forall|i: int, w: usize| 0 <= i < j ==> (#[trigger] result@[i]@.contains(w) <==> chunks@[i]@.contains(w)),
            forall|i: int| 0 <= i < j ==> #[trigger] result@[i]@ == canon(chunks@[i]@),
        decreases chunks@.len() - j,
    {
        let c = canonical_region(&chunks[j]);
        proof {
            lemma_canon(chunks@[j as int]@);
            assert(chunks@[j as int]@.contains(chunks@[j as int]@[0]));
            assert(c@.contains(chunks@[j as int]@[0]));
        }
        result.push(c);
        j = j + 1;
    }
    proof {
        assert(labels_match(owner@, result@)) by {
            assert forall|i: int, w: usize|
                0 <= i < result@.len() implies (#[trigger] result@[i]@.contains(w) <==> (w < owner@.len()
                && owner@[w as int] == i)) by {
                assert(chunks@[i]@.contains(w) <==> (w < owner@.len() && owner@[w as int] == i));
            }
        }
        lemma_labels_pool(owner@, result@, seeds@, cap as nat);
        assert(views(result@) =~= seed_pool(views(adj@), seeds@, order@, cap as nat));
        assert forall|i: int, q: int|
            0 <= i < result@.len() && 0 <= q < result@[i]@.len() implies #[trigger] result@[i]@[q] < n by {
            assert(result@[i]@.contains(result@[i]@[q]));
        }
        if covers_all(order@, n as nat) && (exists|v: int| 0 <= v < n && #[trigger] in_mask(seeds@, v)) {
            let v = choose|v: int| 0 <= v < n && #[trigger] in_mask(seeds@, v);
            assert(occurs_in(order@, v));
            let q = choose|q: int| 0 <= q < order@.len() && #[trigger] order@[q] == v;
            assert(in_mask(seeds@, order@[q] as int));
            assert(owner@[v] != UNASSIGNED);
            assert(owner@[v] < result@.len());
        }
    }
    result
}

} // verus!

verus! {

/// The strongest residual level within a region (the smallest level).
pub open spec fn peak_level(level: Seq<usize>, r: Seq<usize>) -> int
    decreases r.len(),
{
    if r.len() <= 1 {
        level[r[0] as int] as int
    } else {
        let rest = peak_level(level, r.drop_last());
        let x = level[r.last() as int] as int;
        if x < rest {
            x
        } else {
            rest
        }
    }
}

/// Region `a` comes before region `b`: a stronger peak residual, or an equal
/// one and a smaller first DOF.
pub open spec fn stronger(level: Seq<usize>, a: Seq<usize>, b: Seq<usize>) -> bool {
    peak_level(level, a) < peak_level(level, b) || (peak_level(level, a) == peak_level(level, b) && a[0]
        < b[0])
}

/// `out` lists the regions of `pool` at positions `chosen`: as many as
/// `max` allows, strongest first, and none of the regions left out is
/// stronger than one taken.
pub open spec fn chosen_from(
    out: Seq<Vec<usize>>,
    pool: Seq<Vec<usize>>,
    level: Seq<usize>,
    max: nat,
    chosen: Seq<int>,
) -> bool {
    &&& chosen.len() == out.len()
    &&& out.len() == (if pool.len() < max { pool.len() } else { max })
    &&& forall|t: int| 0 <= t < chosen.len() ==> 0 <= #[trigger] chosen[t] < pool.len() && out[t]@ == pool[chosen[t]]@
    &&& forall|t1: int, t2: int|
        0 <= t1 < t2 < chosen.len() ==> chosen[t1] != chosen[t2] && stronger(level, #[trigger] out[t1]@, #[trigger] out[t2]@)
    &&& forall|t: int, j: int|
        0 <= t < chosen.len() && 0 <= j < pool.len() && !chosen.contains(j) ==> stronger(level, #[trigger] out[t]@, #[trigger] pool[j]@)
}

/// The strongest `max` regions of `pool`, strongest first.
pub open spec fn strongest_first(out: Seq<Vec<usize>>, pool: Seq<Vec<usize>>, level: Seq<usize>, max: nat) -> bool {
    exists|chosen: Seq<int>| #[trigger] chosen_from(out, pool, level, max, chosen)
}

fn peak_of(region: &Vec<usize>, level: &[usize]) -> (m: usize)
    requires
        region@.len() > 0,
        forall|q: int| 0 <= q < region@.len() ==> #[trigger] region@[q] < level@.len(),
    ensures
        m as int == peak_level(level@, region@),
{
    let mut m = level[region[0]];
    let mut i: usize = 1;
    assert(region@.take(1) =~= seq![region@[0]]);
    while i < region.len()
        invariant
            1 <= i <= region@.len(),
            forall|q: int| 0 <= q < region@.len() ==> #[trigger] region@[q] < level@.len(),
            m as int == peak_level(level@, region@.take(i as int)),
        decreases region@.len() - i,
    {
        proof {
            assert(region@.take(i + 1).drop_last() =~= region@.take(i as int));
            assert(region@.take(i + 1).last() == region@[i as int]);
        }
        let x = level[region[i]];
        if x < m {
            m = x;
        }
        i = i + 1;
    }
    assert(region@.take(i as int) =~= region@);
    m
}

/// Distinct members of a pool of disjoint non-empty regions differ in their
/// first DOF, so `stronger` orders them strictly.
proof fn lemma_first_differs(pool: Seq<Vec<usize>>, allowed: Seq<bool>, cap: nat, a: int, b: int)
    requires
        region_pool(pool, allowed, cap),
        0 <= a < pool.len(),
        0 <= b < pool.len(),
        a != b,
    ensures
        pool[a]@[0] != pool[b]@[0],
{
    assert(pool[a]@.len() > 0 && pool[b]@.len() > 0);
    assert(pool[a]@.contains(pool[a]@[0]));
    assert(pool[b]@.contains(pool[b]@[0]));
}

/// Takes the `max` strongest regions of the pool, strongest first.
fn select_strongest(pool: &Vec<Vec<usize>>, allowed: Ghost<Seq<bool>>, cap: Ghost<nat>, level: &[usize], max: usize) -> (out:
    Vec<Vec<usize>>)
    requires
        region_pool(pool@, allowed@, cap@),
        forall|j: int, q: int|
            0 <= j < pool@.len() && 0 <= q < pool@[j]@.len() ==> #[trigger] pool@[j]@[q] < level@.len(),
    ensures
        strongest_first(out@, pool@, level@, max as nat),
{
    let mut peaks: Vec<usize> = Vec::new();
    let mut j: usize = 0;
    while j < pool.len()
        invariant
            region_pool(pool@, allowed@, cap@),
            forall|a: int, q: int|
                0 <= a < pool@.len() && 0 <= q < pool@[a]@.len() ==> #[trigger] pool@[a]@[q] < level@.len(),
            j <= pool@.len(),
            peaks@.len() == j,
            forall|a: int| 0 <= a < j ==> #[trigger] peaks@[a] as int == peak_level(level@, pool@[a]@),
        decreases pool@.len() - j,
    {
        let p = peak_of(&pool[j], level);
        peaks.push(p);
        j = j + 1;
    }
    let limit = if pool.len() < max { pool.len() } else { max };
    let mut taken: Vec<bool> = vec![false; pool.len()];
    let mut out: Vec<Vec<usize>> = Vec::new();
    let ghost mut chosen: Seq<int> = Seq::empty();
    let mut t: usize = 0;
    while t < limit
        invariant
            region_pool(pool@, allowed@, cap@),
            peaks@.len() == pool@.len(),
            forall|a: int| 0 <= a < pool@.len() ==> #[trigger] peaks@[a] as int == peak_level(level@, pool@[a]@),
            limit <= pool@.len(),
            limit == (if pool@.len() < max { pool@.len() } else { max as nat }),
            t <= limit,
            taken@.len() == pool@.len(),
            chosen.len() == t,
            out@.len() == t,
            forall|a: int| 0 <= a < pool@.len() ==> (#[trigger] taken@[a] <==> chosen.contains(a)),
            forall|s: int| 0 <= s < t ==> 0 <= #[trigger] chosen[s] < pool@.len() && out@[s]@ == pool@[chosen[s]]@,
            forall|s1: int, s2: int|
                0 <= s1 < s2 < t ==> chosen[s1] != chosen[s2] && stronger(level@, #[trigger] out@[s1]@, #[trigger] out@[s2]@),
            forall|s: int, a: int|
                0 <= s < t && 0 <= a < pool@.len() && !chosen.contains(a) ==> stronger(level@, #[trigger] out@[s]@, #[trigger] pool@[a]@),
        decreases limit - t,
    {
        let mut best: usize = 0;
        let mut found = false;
        let mut a: usize = 0;
        while a < pool.len()
            invariant
                region_pool(pool@, allowed@, cap@),
                peaks@.len() == pool@.len(),
                forall|b: int| 0 <= b < pool@.len() ==> #[trigger] peaks@[b] as int == peak_level(level@, pool@[b]@),
                taken@.len() == pool@.len(),
                a <= pool@.len(),
                found ==> best < a && !taken@[best as int],
                found ==> forall|b: int| 0 <= b < a && !taken@[b] && b != best ==> stronger(level@, pool@[best as int]@, #[trigger] pool@[b]@),
                !found ==> forall|b: int| 0 <= b < a ==> #[trigger] taken@[b],
            decreases pool@.len() - a,
        {
            if !taken[a] {
                let better = if !found {
                    true
                } else {
                    peaks[a] < peaks[best] || (peaks[a] == peaks[best] && pool[a][0] < pool[best][0])
                };
                if better {
                    proof {
                        if found {
                            assert forall|b: int| 0 <= b < a + 1 && !taken@[b] && b != a implies stronger(level@, pool@[a as int]@, #[trigger] pool@[b]@) by {
                                if b != best {
                                    lemma_first_differs(pool@, allowed@, cap@, best as int, b);
                                }
                            }
                        }
                    }
                    best = a;
                    found = true;
                } else {
                    proof {
                        lemma_first_differs(pool@, allowed@, cap@, best as int, a as int);
                    }
                }
            }
            a = a + 1;
        }
        proof {
            if !found {
                assert(chosen.len() == t);
                assert forall|b: int| 0 <= b < pool@.len() implies chosen.contains(b) by {
                    assert(taken@[b]);
                }
                lemma_all_taken(chosen, pool@.len() as int);
                assert(false);
            }
        }
        let ghost old_chosen = chosen;
        let ghost old_out = out@;
        let copy = copy_dofs(&pool[best]);
        out.push(copy);
        taken.set(best, true);
        proof {
            chosen = chosen.push(best as int);
            assert forall|b: int| 0 <= b < pool@.len() implies (#[trigger] taken@[b] <==> chosen.contains(b)) by {
                if b == best {
                    assert(chosen[chosen.len() - 1] == b);
                } else if old_chosen.contains(b) {
                    let s = choose|s: int| 0 <= s < old_chosen.len() && old_chosen[s] == b;
                    assert(chosen[s] == b);
                } else if chosen.contains(b) {
                    let s = choose|s: int| 0 <= s < chosen.len() && chosen[s] == b;
                    assert(s < old_chosen.len());
                    assert(old_chosen[s] == b);
                }
            }
            assert forall|s: int| 0 <= s < t + 1 implies 0 <= #[trigger] chosen[s] < pool@.len() && out@[s]@ == pool@[chosen[s]]@ by {
                if s < t {
                    assert(out@[s] == old_out[s]);
                }
            }
            assert forall|s1: int, s2: int|
                0 <= s1 < s2 < t + 1 implies chosen[s1] != chosen[s2] && stronger(level@, #[trigger] out@[s1]@, #[trigger] out@[s2]@) by {
                assert(out@[s1] == old_out[s1]);
                if s2 < t {
                    assert(out@[s2] == old_out[s2]);
                } else {
                    assert(!old_chosen.contains(best as int));
                    assert(old_chosen[s1] != best as int) by {
                        assert(old_chosen.contains(old_chosen[s1]));
                    }
                }
            }
            assert forall|s: int, b: int|
                0 <= s < t + 1 && 0 <= b < pool@.len() && !chosen.contains(b) implies stronger(level@, #[trigger] out@[s]@, #[trigger] pool@[b]@) by {
                assert(!old_chosen.contains(b)) by {
                    if old_chosen.contains(b) {
                        let q = choose|q: int| 0 <= q < old_chosen.len() && old_chosen[q] == b;
                        assert(chosen[q] == b);
                    }
                }
                assert(b != best) by {
                    assert(chosen[chosen.len() - 1] == best as int);
                }
                if s < t {
                    assert(out@[s] == old_out[s]);
                } else {
                    assert(!taken@[b] || b == best);
                }
            }
        }
        t = t + 1;
    }
    assert(chosen_from(out@, pool@, level@, max as nat, chosen));
    out
}

/// A sequence that holds every position below `len` has at least `len`
/// entries.
proof fn lemma_all_taken(chosen: Seq<int>, len: int)
    requires
        0 <= len,
        forall|b: int| 0 <= b < len ==> chosen.contains(b),
    ensures
        chosen.len() >= len,
{
    let s = Set::new(|b: int| 0 <= b < len);
    let c = chosen.to_set();
    assert(s.subset_of(c));
    vstd::set_lib::lemma_int_range(0, len);
    assert(s =~= vstd::set_lib::set_int_range(0, len));
    chosen.lemma_cardinality_of_set();
    vstd::set_lib::lemma_len_subset(s, c);
}

} // verus!

verus! {

/// The candidate core regions: those grown in the risk components that a
/// seed touches, or the seed chunks where there are none.
pub open spec fn candidate_pool(
    adj: Seq<Seq<usize>>,
    risk: Seq<bool>,
    seeds: Seq<bool>,
    order: Seq<usize>,
    cap: nat,
) -> Seq<Seq<usize>> {
    let from_risk = risk_pool(adj, risk, seeds, order, cap);
    if from_risk.len() > 0 {
        from_risk
    } else {
        seed_pool(adj, seeds, order, cap)
    }
}

/// `regions` are the strongest `max` of the candidate regions of the graph
/// `adj`, strongest first. The candidates are disjoint, inside the risk mask
/// or else inside the seed mask, and there are some whenever a seed DOF
/// exists.
pub open spec fn discovered(
    regions: Seq<Vec<usize>>,
    adj: Seq<Seq<usize>>,
    risk: Seq<bool>,
    seeds: Seq<bool>,
    order: Seq<usize>,
    level: Seq<usize>,
    cap: nat,
    max: nat,
) -> bool {
    exists|pool: Seq<Vec<usize>>|
        #![trigger views(pool)]
        views(pool) == candidate_pool(adj, risk, seeds, order, cap) && pool_yields(
            pool,
            regions,
            risk,
            seeds,
            cap,
            level,
            max,
            adj.len(),
        )
}

/// A pool of disjoint candidate regions inside the risk mask, or else inside
/// the seed mask, of which `regions` are the strongest `max`; the pool is
/// empty only without seed DOFs.
pub open spec fn pool_yields(
    pool: Seq<Vec<usize>>,
    regions: Seq<Vec<usize>>,
    risk: Seq<bool>,
    seeds: Seq<bool>,
    cap: nat,
    level: Seq<usize>,
    max: nat,
    n: nat,
) -> bool {
    &&& region_pool(pool, risk, cap) || region_pool(pool, seeds, cap)
    &&& strongest_first(regions, pool, level, max)
    &&& (exists|v: int| 0 <= v < n && #[trigger] in_mask(seeds, v)) ==> pool.len() > 0
}

/// The size limit of a core region: the configured one, at least one.
pub open spec fn region_cap(max_local_region_size: usize) -> nat {
    if max_local_region_size >= 1 {
        max_local_region_size as nat
    } else {
        1
    }
}

/// DOF `v` belongs to one of the regions.
pub open spec fn in_some_region(regions: Seq<Vec<usize>>, v: usize) -> bool {
    exists|j: int| 0 <= j < regions.len() && #[trigger] regions[j]@.contains(v)
}

/// The core regions of a hybrid escalation and their union. `order` lists
/// the DOFs strongest residual first and `level` ranks the residual of each
/// DOF (0 for the largest magnitude, equal magnitudes sharing a level).
///
/// Every risk component reached from a seed DOF is cut into connected
/// regions of at most `max(max_local_region_size, 1)` risk DOFs, grown
/// breadth-first from the strongest unclaimed roots. Where no such region
/// exists, the seed components are cut in priority order into chunks of
/// that size instead. The `max_local_regions` regions of strongest peak
/// residual (ties to the smaller first DOF) are returned, strongest first,
/// each as a sorted DOF list, with the mask of their DOFs.
pub fn discover_core_regions(
    nrows: usize,
    ncols: usize,
    row_ptr: &[u32],
    col_idx: &[u32],
    risk: &DofMask,
    seeds: &DofMask,
    order: &[usize],
    level: &[usize],
    max_local_region_size: usize,
    max_local_regions: usize,
) -> (result: Result<(DofMask, Vec<Vec<usize>>), HybitError>)
    requires
        csr_structure_ok(nrows as nat, ncols as nat, row_ptr@, col_idx@),
        nrows < usize::MAX - 1,
        risk.wf(),
        seeds.wf(),
        order@.len() == nrows ==> distinct_dofs(order@, nrows as nat) && covers_all(order@, nrows as nat),
    ensures
        order@.len() != nrows ==> result == Err::<(DofMask, Vec<Vec<usize>>), HybitError>(
            HybitError::DimensionMismatch { expected: nrows, actual: order@.len() as usize },
        ),
        order@.len() == nrows && level@.len() != nrows ==> result == Err::<
            (DofMask, Vec<Vec<usize>>),
            HybitError,
        >(HybitError::DimensionMismatch { expected: nrows, actual: level@.len() as usize }),
        order@.len() == nrows && level@.len() == nrows ==> result is Ok,
        result matches Ok((selected, regions)) ==> {
            let cap = region_cap(max_local_region_size);
            &&& selected.wf()
            &&& selected.spec_len() == nrows
            &&& forall|v: int| 0 <= v < nrows ==> (#[trigger] selected@[v] <==> in_some_region(regions@, v as usize))
            &&& discovered(
                regions@,
                csr_rows(nrows as nat, row_ptr@, col_idx@),
                risk@,
                seeds@,
                order@,
                level@,
                cap,
                max_local_regions as nat,
            )
        },
{
    if order.len() != nrows {
        return Err(HybitError::DimensionMismatch { expected: nrows, actual: order.len() });
    }
    if level.len() != nrows {
        return Err(HybitError::DimensionMismatch { expected: nrows, actual: level.len() });
    }
    let cap: usize = if max_local_region_size >= 1 { max_local_region_size } else { 1 };
    let adj = row_neighbors(nrows, ncols, row_ptr, col_idx);
    let from_risk = risk_regions(&adj, risk, seeds, order, cap);
    let ghost graph = csr_rows(nrows as nat, row_ptr@, col_idx@);
    assert(views(from_risk@).len() == from_risk@.len());
    let ghost allowed: Seq<bool>;
    let pool = if from_risk.len() > 0 {
        proof {
            allowed = risk@;
        }
        from_risk
    } else {
        proof {
            allowed = seeds@;
        }
        seed_chunks(&adj, seeds, order, cap)
    };
    let regions = select_strongest(&pool, Ghost(allowed), Ghost(cap as nat), level, max_local_regions);
    proof {
        let chosen = choose|chosen: Seq<int>| #[trigger] chosen_from(regions@, pool@, level@, max_local_regions as nat, chosen);
        assert forall|a: int, q: int| 0 <= a < regions@.len() && 0 <= q < regions@[a]@.len() implies #[trigger] regions@[a]@[q] < nrows by {
            assert(regions@[a]@ == pool@[chosen[a]]@);
        }
    }
    let mut selected = DofMask::new(nrows);
    let mut j: usize = 0;
    while j < regions.len()
        invariant
            selected.wf(),
            selected.spec_len() == nrows,
            j <= regions@.len(),
            forall|a: int, q: int| 0 <= a < regions@.len() && 0 <= q < regions@[a]@.len() ==> #[trigger] regions@[a]@[q] < nrows,
            forall|v: int| 0 <= v < nrows ==> (#[trigger] selected@[v] <==> exists|a: int| 0 <= a < j && #[trigger] regions@[a]@.contains(v as usize)),
        decreases regions@.len() - j,
    {
        let region = &regions[j];
        let mut q: usize = 0;
        while q < region.len()
            invariant
                selected.wf(),
                selected.spec_len() == nrows,
                region@ == regions@[j as int]@,
                forall|p: int| 0 <= p < region@.len() ==> #[trigger] region@[p] < nrows,
                q <= region@.len(),
                forall|v: int| 0 <= v < nrows ==> (#[trigger] selected@[v] <==> (exists|a: int| 0 <= a < j && #[trigger] regions@[a]@.contains(v as usize)) || region@.take(q as int).contains(v as usize)),
            decreases region@.len() - q,
        {
            let ghost before = selected@;
            let _ = selected.set(region[q], true);
            proof {
                assert forall|v: int| 0 <= v < nrows implies (#[trigger] selected@[v] <==> (exists|a: int| 0 <= a < j && #[trigger] regions@[a]@.contains(v as usize)) || region@.take(q + 1).contains(v as usize)) by {
                    if v == region@[q as int] as int {
                        assert(region@.take(q + 1)[q as int] == v as usize);
                    } else {
                        if region@.take(q + 1).contains(v as usize) {
                            let p = choose|p: int| 0 <= p < q + 1 && #[trigger] region@.take(q + 1)[p] == v as usize;
                            assert(region@.take(q as int)[p] == v as usize);
                        }
                        if region@.take(q as int).contains(v as usize) {
                            let p = choose|p: int| 0 <= p < q && #[trigger] region@.take(q as int)[p] == v as usize;
                            assert(region@.take(q + 1)[p] == v as usize);
                        }
                    }
                }
            }
            q = q + 1;
        }
        proof {
            assert(region@.take(q as int) =~= region@);
            assert forall|v: int| 0 <= v < nrows implies (#[trigger] selected@[v] <==> exists|a: int| 0 <= a < j + 1 && #[trigger] regions@[a]@.contains(v as usize)) by {
                if region@.contains(v as usize) {
                    assert(regions@[j as int]@.contains(v as usize));
                }
                if exists|a: int| 0 <= a < j + 1 && #[trigger] regions@[a]@.contains(v as usize) {
                    let a = choose|a: int| 0 <= a < j + 1 && #[trigger] regions@[a]@.contains(v as usize);
                    if a < j {
                    }
                }
            }
        }
        j = j + 1;
    }
    proof {
        assert(pool_yields(
            pool@,
            regions@,
            risk@,
            seeds@,
            region_cap(max_local_region_size),
            level@,
            max_local_regions as nat,
            nrows as nat,
        ));
        assert(views(pool@) == candidate_pool(
            csr_rows(nrows as nat, row_ptr@, col_idx@),
            risk@,
            seeds@,
            order@,
            region_cap(max_local_region_size),
        ));
        assert forall|v: int| 0 <= v < nrows implies (#[trigger] selected@[v] <==> in_some_region(regions@, v as usize)) by {
            if in_some_region(regions@, v as usize) {
                let a = choose|a: int| 0 <= a < regions@.len() && #[trigger] regions@[a]@.contains(v as usize);
            }
        }
    }
    Ok((selected, regions))
}

} // verus!

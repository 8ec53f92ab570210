//! Local-direct regions: their canonical (sorted, duplicate-free) form,
//! the merge of newly discovered regions into the learned ones, and the
//! persistent bytes that the local factors of a set of regions occupy.
use vstd::prelude::*;

use crate::coarse::packed_len;
use crate::error::HybitError;

verus! {

pub open spec fn strictly_increasing(s: Seq<usize>) -> bool {
    forall|i: int, j: int| 0 <= i < j < s.len() ==> s[i] < s[j]
}

/// `s` with `x` put at its place; `s` itself where `x` already occurs.
pub open spec fn insert_sorted(s: Seq<usize>, x: usize) -> Seq<usize>
    decreases s.len(),
{
    if s.len() == 0 {
        seq![x]
    } else if x == s[0] {
        s
    } else if x < s[0] {
        seq![x] + s
    } else {
        seq![s[0]] + insert_sorted(s.drop_first(), x)
    }
}

/// The canonical form of a region: its DOFs in increasing order, each once.
pub open spec fn canon(r: Seq<usize>) -> Seq<usize>
    decreases r.len(),
{
    if r.len() == 0 {
        Seq::empty()
    } else {
        insert_sorted(canon(r.drop_last()), r.last())
    }
}

proof fn lemma_insert_sorted(s: Seq<usize>, x: usize)
    requires
        strictly_increasing(s),
    ensures
        strictly_increasing(insert_sorted(s, x)),
        forall|y: usize| #[trigger] insert_sorted(s, x).contains(y) <==> (s.contains(y) || y == x),
    decreases s.len(),
{
    if s.len() == 0 {
        assert(insert_sorted(s, x) =~= seq![x]);
        assert forall|y: usize| insert_sorted(s, x).contains(y) <==> (s.contains(y) || y == x) by {
            if insert_sorted(s, x).contains(y) {
                assert(insert_sorted(s, x)[0] == y);
            }
            if y == x {
                assert(insert_sorted(s, x)[0] == y);
            }
        }
    } else if x == s[0] {
        assert forall|y: usize| insert_sorted(s, x).contains(y) <==> (s.contains(y) || y == x) by {
            if y == x {
                assert(s[0] == y);
            }
        }
    } else if x < s[0] {
        let t = seq![x] + s;
        assert(insert_sorted(s, x) == t);
        assert forall|i: int, j: int| 0 <= i < j < t.len() implies t[i] < t[j] by {
            if i == 0 {
                assert(t[j] == s[j - 1]);
                assert(s[0] <= s[j - 1]);
            } else {
                assert(t[i] == s[i - 1] && t[j] == s[j - 1]);
            }
        }
        assert forall|y: usize| t.contains(y) <==> (s.contains(y) || y == x) by {
            if t.contains(y) {
                let k = choose|k: int| 0 <= k < t.len() && t[k] == y;
                if k > 0 {
                    assert(s[k - 1] == y);
                }
            }
            if s.contains(y) {
                let k = choose|k: int| 0 <= k < s.len() && s[k] == y;
                assert(t[k + 1] == y);
            }
            if y == x {
                assert(t[0] == y);
            }
        }
    } else {
        let rest = s.drop_first();
        assert(strictly_increasing(rest));
        lemma_insert_sorted(rest, x);
        let ir = insert_sorted(rest, x);
        let t = seq![s[0]] + ir;
        assert(insert_sorted(s, x) == t);
        assert forall|i: int, j: int| 0 <= i < j < t.len() implies t[i] < t[j] by {
            if i == 0 {
                assert(t[j] == ir[j - 1]);
                assert(ir.contains(ir[j - 1]));
                if rest.contains(ir[j - 1]) {
                    let k = choose|k: int| 0 <= k < rest.len() && rest[k] == ir[j - 1];
                    assert(rest[k] == s[k + 1]);
                }
            } else {
                assert(t[i] == ir[i - 1] && t[j] == ir[j - 1]);
            }
        }
        assert forall|y: usize| t.contains(y) <==> (s.contains(y) || y == x) by {
            if t.contains(y) {
                let k = choose|k: int| 0 <= k < t.len() && t[k] == y;
                if k > 0 {
                    assert(0 <= k - 1 < ir.len());
                    assert(ir[k - 1] == y);
                    assert(ir.contains(y));
                    if rest.contains(y) {
                        let m = choose|m: int| 0 <= m < rest.len() && rest[m] == y;
                        assert(s[m + 1] == y);
                    }
                }
            }
            if s.contains(y) {
                let k = choose|k: int| 0 <= k < s.len() && s[k] == y;
                if k == 0 {
                    assert(t[0] == y);
                } else {
                    assert(0 <= k - 1 < rest.len());
                    assert(rest[k - 1] == y);
                    assert(rest.contains(y));
                    assert(ir.contains(y));
                    let m = choose|m: int| 0 <= m < ir.len() && ir[m] == y;
                    assert(t[m + 1] == y);
                }
            }
            if y == x {
                assert(ir.contains(y));
                let m = choose|m: int| 0 <= m < ir.len() && ir[m] == y;
                assert(t[m + 1] == y);
            }
        }
    }
}

/// Inserting `x` at the first position whose entry is not below it.
proof fn lemma_insert_sorted_at(s: Seq<usize>, x: usize, p: int)
    requires
        strictly_increasing(s),
        0 <= p <= s.len(),
        forall|i: int| 0 <= i < p ==> s[i] < x,
        p < s.len() ==> s[p] >= x,
    ensures
        insert_sorted(s, x) == (if p < s.len() && s[p] == x {
            s
        } else {
            s.insert(p, x)
        }),
    decreases s.len(),
{
    if s.len() == 0 {
        assert(s.insert(p, x) =~= seq![x]);
    } else if x == s[0] {
        assert(p == 0);
    } else if x < s[0] {
        assert(p == 0);
        assert(s.insert(0, x) =~= seq![x] + s);
    } else {
        let rest = s.drop_first();
        assert(p >= 1);
        lemma_insert_sorted_at(rest, x, p - 1);
        if p < s.len() && s[p] == x {
            assert(rest[p - 1] == x);
            assert(seq![s[0]] + rest =~= s);
        } else {
            assert(seq![s[0]] + rest.insert(p - 1, x) =~= s.insert(p, x));
        }
    }
}

proof fn lemma_insert_sorted_len(s: Seq<usize>, x: usize)
    ensures
        insert_sorted(s, x).len() <= s.len() + 1,
    decreases s.len(),
{
    if s.len() > 0 && x > s[0] {
        lemma_insert_sorted_len(s.drop_first(), x);
    }
}

/// The canonical form is increasing, holds exactly the DOFs of the region,
/// and is no longer than the region.
pub proof fn lemma_canon(r: Seq<usize>)
    ensures
        strictly_increasing(canon(r)),
        forall|y: usize| #[trigger] canon(r).contains(y) <==> r.contains(y),
        canon(r).len() <= r.len(),
    decreases r.len(),
{
    if r.len() > 0 {
        lemma_insert_sorted_len(canon(r.drop_last()), r.last());
        let init = r.drop_last();
        lemma_canon(init);
        lemma_insert_sorted(canon(init), r.last());
        assert forall|y: usize| canon(r).contains(y) <==> r.contains(y) by {
            if r.contains(y) {
                let k = choose|k: int| 0 <= k < r.len() && r[k] == y;
                if k < r.len() - 1 {
                    assert(init[k] == y);
                }
            }
            if init.contains(y) {
                let k = choose|k: int| 0 <= k < init.len() && init[k] == y;
                assert(r[k] == y);
            }
        }
    }
}

/// The canonical form of a region.
pub fn canonical_region(region: &Vec<usize>) -> (c: Vec<usize>)
    ensures
        c@ == canon(region@),
{
    let mut out: Vec<usize> = Vec::new();
    let mut i: usize = 0;
    while i < region.len()
        invariant
            i <= region@.len(),
            out@ == canon(region@.take(i as int)),
            strictly_increasing(out@),
        decreases region@.len() - i,
    {
        let x = region[i];
        let mut p: usize = 0;
        while p < out.len() && out[p] < x
            invariant
                p <= out@.len(),
                forall|k: int| 0 <= k < p ==> out@[k] < x,
            decreases out@.len() - p,
        {
            p = p + 1;
        }
        proof {
            assert(region@.take(i + 1).drop_last() =~= region@.take(i as int));
            assert(region@.take(i + 1).last() == x);
            lemma_insert_sorted_at(out@, x, p as int);
            lemma_insert_sorted(out@, x);
        }
        if p < out.len() && out[p] == x {
        } else {
            out.insert(p, x);
        }
        i = i + 1;
    }
    proof {
        assert(region@.take(i as int) =~= region@);
    }
    out
}

/// Element-wise equality of two DOF lists.
pub fn same_dofs(a: &Vec<usize>, b: &Vec<usize>) -> (eq: bool)
    ensures
        eq == (a@ == b@),
{
    if a.len() != b.len() {
        return false;
    }
    let mut i: usize = 0;
    while i < a.len()
        invariant
            a@.len() == b@.len(),
            i <= a@.len(),
            forall|k: int| 0 <= k < i ==> a@[k] == b@[k],
        decreases a@.len() - i,
    {
        if a[i] != b[i] {
            return false;
        }
        i = i + 1;
    }
    assert(a@ =~= b@);
    true
}

/// A copy of a DOF list.
pub fn copy_dofs(a: &Vec<usize>) -> (c: Vec<usize>)
    ensures
        c@ == a@,
{
    let mut c: Vec<usize> = Vec::new();
    let mut i: usize = 0;
    while i < a.len()
        invariant
            i <= a@.len(),
            c@ == a@.take(i as int),
        decreases a@.len() - i,
    {
        c.push(a[i]);
        i = i + 1;
        assert(c@ =~= a@.take(i as int));
    }
    assert(a@.take(i as int) =~= a@);
    c
}

/// The DOF lists of a list of regions.
pub open spec fn views(regions: Seq<Vec<usize>>) -> Seq<Seq<usize>> {
    regions.map_values(|r: Vec<usize>| r@)
}

/// Appends to `acc`, in order, the canonical form of every candidate that is
/// non-empty and not already present.
pub open spec fn merge_spec(acc: Seq<Seq<usize>>, candidates: Seq<Seq<usize>>) -> Seq<Seq<usize>>
    decreases candidates.len(),
{
    if candidates.len() == 0 {
        acc
    } else {
        let k = canon(candidates[0]);
        let next = if k.len() == 0 || acc.contains(k) {
            acc
        } else {
            acc.push(k)
        };
        merge_spec(next, candidates.drop_first())
    }
}

/// The merge keeps the learned regions as a prefix; what it appends is
/// non-empty, canonical and found nowhere earlier in the result; and the
/// canonical form of every non-empty candidate ends up in the result.
pub proof fn lemma_merge_unique(acc: Seq<Seq<usize>>, candidates: Seq<Seq<usize>>)
    ensures
        ({
            let r = merge_spec(acc, candidates);
            &&& r.len() >= acc.len()
            &&& r.take(acc.len() as int) == acc
            &&& forall|i: int|
                acc.len() <= i < r.len() ==> (#[trigger] r[i]).len() > 0 && strictly_increasing(r[i])
            &&& forall|i: int, j: int| 0 <= j < i < r.len() && i >= acc.len() ==> r[j] != r[i]
            &&& forall|k: int|
                0 <= k < candidates.len() && canon(#[trigger] candidates[k]).len() > 0 ==> r.contains(
                    canon(candidates[k]),
                )
        }),
    decreases candidates.len(),
{
    if candidates.len() > 0 {
        let k = canon(candidates[0]);
        let next = if k.len() == 0 || acc.contains(k) {
            acc
        } else {
            acc.push(k)
        };
        let rest = candidates.drop_first();
        lemma_merge_unique(next, rest);
        lemma_canon(candidates[0]);
        let r = merge_spec(next, rest);
        assert(r == merge_spec(acc, candidates));
        assert(r.take(next.len() as int) == next);
        assert(r.take(acc.len() as int) =~= acc) by {
            assert forall|q: int| 0 <= q < acc.len() implies r[q] == acc[q] by {
                assert(r.take(next.len() as int)[q] == next[q]);
            }
        }
        if !(k.len() == 0 || acc.contains(k)) {
            assert(r[acc.len() as int] == k) by {
                assert(r.take(next.len() as int)[acc.len() as int] == next[acc.len() as int]);
            }
            assert forall|i: int, j: int| 0 <= j < i < r.len() && i >= acc.len() implies r[j] != r[i] by {
                if i == acc.len() {
                    assert(r[j] == acc[j]) by {
                        assert(r.take(next.len() as int)[j] == next[j]);
                    }
                }
            }
        } else {
            assert forall|i: int, j: int| 0 <= j < i < r.len() && i >= acc.len() implies r[j] != r[i] by {
            }
        }
        assert forall|q: int|
            0 <= q < candidates.len() && canon(#[trigger] candidates[q]).len() > 0 implies r.contains(
                canon(candidates[q]),
            ) by {
            if q == 0 {
                if acc.contains(k) {
                    let m = choose|m: int| 0 <= m < acc.len() && acc[m] == k;
                    assert(r.take(next.len() as int)[m] == next[m]);
                    assert(r[m] == k);
                } else {
                    assert(r.take(next.len() as int)[acc.len() as int] == next[acc.len() as int]);
                    assert(r[acc.len() as int] == k);
                }
            } else {
                assert(candidates[q] == rest[q - 1]);
            }
        }
    }
}

/// Whether `regions` already holds the DOF list `region`.
fn holds_region(regions: &Vec<Vec<usize>>, region: &Vec<usize>) -> (found: bool)
    ensures
        found == views(regions@).contains(region@),
{
    let mut i: usize = 0;
    while i < regions.len()
        invariant
            i <= regions@.len(),
            forall|k: int| 0 <= k < i ==> regions@[k]@ != region@,
        decreases regions@.len() - i,
    {
        if same_dofs(&regions[i], region) {
            assert(views(regions@)[i as int] == region@);
            return true;
        }
        i = i + 1;
    }
    proof {
        if views(regions@).contains(region@) {
            let k = choose|k: int| 0 <= k < views(regions@).len() && views(regions@)[k] == region@;
            assert(regions@[k]@ == region@);
        }
    }
    false
}

/// Keeps the learned regions as they are and appends every new candidate in
/// canonical form, skipping empty candidates and those already present.
pub fn merge_unique_regions(existing: &[Vec<usize>], candidate_regions: Vec<Vec<usize>>) -> (merged: Vec<
    Vec<usize>,
>)
    ensures
        views(merged@) == merge_spec(views(existing@), views(candidate_regions@)),
        merged@.len() >= existing@.len(),
        forall|i: int| 0 <= i < existing@.len() ==> merged@[i]@ == existing@[i]@,
        forall|i: int, j: int|
            0 <= j < i < merged@.len() && i >= existing@.len() ==> merged@[j]@ != merged@[i]@,
{
    let mut merged: Vec<Vec<usize>> = Vec::new();
    let mut i: usize = 0;
    while i < existing.len()
        invariant
            i <= existing@.len(),
            merged@.len() == i,
            views(merged@) == views(existing@).take(i as int),
        decreases existing@.len() - i,
    {
        let ghost before = merged@;
        let c = copy_dofs(&existing[i]);
        merged.push(c);
        proof {
            assert(merged@ == before.push(c));
            assert(views(merged@).len() == i + 1);
            assert forall|k: int| 0 <= k < i + 1 implies views(merged@)[k] == views(existing@).take(
                i + 1,
            )[k] by {
                if k < i {
                    assert(views(before)[k] == views(existing@).take(i as int)[k]);
                }
            }
        }
        i = i + 1;
        assert(views(merged@) =~= views(existing@).take(i as int));
    }
    assert(views(existing@).take(i as int) =~= views(existing@));
    assert(views(merged@) =~= views(existing@));
    assert(views(candidate_regions@).skip(0) =~= views(candidate_regions@));
    let mut j: usize = 0;
    while j < candidate_regions.len()
        invariant
            j <= candidate_regions@.len(),
            merge_spec(views(merged@), views(candidate_regions@).skip(j as int)) == merge_spec(
                views(existing@),
                views(candidate_regions@),
            ),
        decreases candidate_regions@.len() - j,
    {
        let region = canonical_region(&candidate_regions[j]);
        let ghost before = views(merged@);
        let ghost rest = views(candidate_regions@).skip(j as int);
        proof {
            assert(rest[0] == candidate_regions@[j as int]@);
            assert(rest.drop_first() =~= views(candidate_regions@).skip(j + 1));
        }
        if region.len() != 0 && !holds_region(&merged, &region) {
            merged.push(region);
            assert(views(merged@) =~= before.push(canon(rest[0])));
        }
        j = j + 1;
    }
    assert(views(candidate_regions@).skip(j as int) =~= Seq::<Seq<usize>>::empty());
    proof {
        lemma_merge_unique(views(existing@), views(candidate_regions@));
        let r = views(merged@);
        assert forall|i: int| 0 <= i < existing@.len() implies merged@[i]@ == existing@[i]@ by {
            assert(r.take(existing@.len() as int)[i] == views(existing@)[i]);
        }
        assert forall|i: int, j: int|
            0 <= j < i < merged@.len() && i >= existing@.len() implies merged@[j]@ != merged@[i]@ by {
            assert(r[j] != r[i]);
        }
    }
    merged
}

/// Persistent bytes of the local factor of a region of `n` DOFs on a machine
/// whose `usize` is `w` bytes: its indices, its packed Cholesky factor, its
/// weights and two scratch vectors.
pub open spec fn region_factor_bytes(n: nat, w: nat) -> nat {
    n * w + packed_len(n) * 8 + n * 8 + n * 16
}

/// Whether some DOF of the region lies outside a matrix of `rows` rows.
pub open spec fn out_of_range(r: Seq<usize>, rows: nat) -> bool {
    exists|k: int| 0 <= k < r.len() && r[k] >= rows
}

/// The factor-byte estimate over the regions, region by region: two bytes
/// per matrix row, then each non-empty region in turn; the first region with
/// a DOF out of range, or the first sum that does not fit in `usize`,
/// decides the error.
pub open spec fn factor_bytes_scan(rows: nat, regions: Seq<Seq<usize>>, w: nat) -> Result<nat, HybitError>
    decreases regions.len(),
{
    if regions.len() == 0 {
        if rows * 2 <= usize::MAX {
            Ok(rows * 2)
        } else {
            Err(HybitError::SizeOverflow)
        }
    } else {
        match factor_bytes_scan(rows, regions.drop_last(), w) {
            Err(e) => Err(e),
            Ok(before) => {
                let r = regions.last();
                if r.len() == 0 {
                    Ok(before)
                } else if out_of_range(r, rows) {
                    Err(HybitError::InvalidArgument("hybrid preconditioner DOF is out of range"))
                } else if before + region_factor_bytes(canon(r).len(), w) <= usize::MAX {
                    Ok(before + region_factor_bytes(canon(r).len(), w))
                } else {
                    Err(HybitError::SizeOverflow)
                }
            },
        }
    }
}

/// Bytes of the factor of one canonical region of `n` DOFs, or `None` where
/// they do not fit in `usize`.
fn checked_region_bytes(n: usize, w: usize) -> (result: Option<usize>)
    requires
        w == 4 || w == 8,
    ensures
        result == (if region_factor_bytes(n as nat, w as nat) <= usize::MAX {
            Some(region_factor_bytes(n as nat, w as nat) as usize)
        } else {
            None::<usize>
        }),
{
    let ghost total = region_factor_bytes(n as nat, w as nat);
    assert(n * w >= 0 && n * (n + 1) >= 0) by (nonlinear_arith);
    if n > usize::MAX / 16 {
        return None;
    }
    let nn = match n.checked_mul(n + 1) {
        Some(v) => v,
        None => {
            let ghost x = n * (n + 1);
            assert((x / 2) * 8 > usize::MAX);
            return None;
        },
    };
    let packed = nn / 2;
    assert(packed == packed_len(n as nat));
    let p8 = match packed.checked_mul(8) {
        Some(v) => v,
        None => return None,
    };
    let nw = match n.checked_mul(w) {
        Some(v) => v,
        None => return None,
    };
    let a = match nw.checked_add(p8) {
        Some(v) => v,
        None => return None,
    };
    let b = match a.checked_add(n * 8) {
        Some(v) => v,
        None => return None,
    };
    match b.checked_add(n * 16) {
        Some(v) => Some(v),
        None => None,
    }
}

/// Persistent bytes that the local-direct part of a hybrid preconditioner
/// owns for these regions: a two-byte overlap count per matrix row, and for
/// each non-empty region (taken in canonical form) its indices, packed
/// Cholesky factor, weights and two scratch vectors.
pub fn estimated_factor_bytes(matrix_rows: usize, regions: &[Vec<usize>]) -> (result: Result<usize, HybitError>)
    ensures
        result == (match factor_bytes_scan(
            matrix_rows as nat,
            views(regions@),
            vstd::layout::size_of::<usize>(),
        ) {
            Ok(b) => Ok::<usize, HybitError>(b as usize),
            Err(e) => Err(e),
        }),
{
    broadcast use vstd::layout::layout_of_primitives;

    let w = std::mem::size_of::<usize>();
    assert(w == 4 || w == 8);
    let mut bytes = match matrix_rows.checked_mul(2) {
        Some(b) => b,
        None => {
            assert(views(regions@).take(0) =~= Seq::<Seq<usize>>::empty());
            assert(factor_bytes_scan(matrix_rows as nat, views(regions@).take(0), w as nat) == Err::<
                nat,
                HybitError,
            >(HybitError::SizeOverflow));
            proof {
                lemma_scan_error_persists(matrix_rows as nat, views(regions@), w as nat, 0);
            }
            return Err(HybitError::SizeOverflow);
        },
    };
    let mut i: usize = 0;
    assert(views(regions@).take(0) =~= Seq::<Seq<usize>>::empty());
    while i < regions.len()
        invariant
            w == vstd::layout::size_of::<usize>(),
            w == 4 || w == 8,
            i <= regions@.len(),
            factor_bytes_scan(matrix_rows as nat, views(regions@).take(i as int), w as nat) == Ok::<
                nat,
                HybitError,
            >(bytes as nat),
        decreases regions@.len() - i,
    {
        let ghost prefix = views(regions@).take(i + 1);
        proof {
            assert(prefix.drop_last() =~= views(regions@).take(i as int));
            assert(prefix.last() == regions@[i as int]@);
        }
        let region = &regions[i];
        if region.len() != 0 {
            let canonical = canonical_region(region);
            if !all_below(&canonical, matrix_rows) {
                proof {
                    lemma_canon(region@);
                    let k = choose|k: int| 0 <= k < canonical@.len() && canonical@[k] >= matrix_rows;
                    assert(canon(region@)[k] == canonical@[k]);
                    assert(canon(region@).contains(canonical@[k]));
                    assert(region@.contains(canonical@[k]));
                    let m = choose|m: int| 0 <= m < region@.len() && region@[m] == canonical@[k];
                    assert(region@[m] >= matrix_rows);
                    assert(out_of_range(region@, matrix_rows as nat));
                    lemma_scan_error_persists(matrix_rows as nat, views(regions@), w as nat, i + 1);
                }
                return Err(HybitError::InvalidArgument("hybrid preconditioner DOF is out of range"));
            }
            proof {
                lemma_canon(region@);
                assert forall|m: int| 0 <= m < region@.len() implies region@[m] < matrix_rows by {
                    assert(region@.contains(region@[m]));
                    assert(canon(region@).contains(region@[m]));
                    let k = choose|k: int| 0 <= k < canonical@.len() && canonical@[k] == region@[m];
                }
            }
            let region_bytes = match checked_region_bytes(canonical.len(), w) {
                Some(b) => b,
                None => {
                    proof {
                        lemma_scan_error_persists(
                            matrix_rows as nat,
                            views(regions@),
                            w as nat,
                            i + 1,
                        );
                    }
                    return Err(HybitError::SizeOverflow);
                },
            };
            bytes = match bytes.checked_add(region_bytes) {
                Some(b) => b,
                None => {
                    proof {
                        lemma_scan_error_persists(
                            matrix_rows as nat,
                            views(regions@),
                            w as nat,
                            i + 1,
                        );
                    }
                    return Err(HybitError::SizeOverflow);
                },
            };
        }
        i = i + 1;
    }
    assert(views(regions@).take(i as int) =~= views(regions@));
    Ok(bytes)
}

/// Whether every entry of `v` is below `bound`.
fn all_below(v: &Vec<usize>, bound: usize) -> (ok: bool)
    ensures
        ok == (forall|k: int| 0 <= k < v@.len() ==> v@[k] < bound),
{
    let mut k: usize = 0;
    while k < v.len()
        invariant
            k <= v@.len(),
            forall|q: int| 0 <= q < k ==> v@[q] < bound,
        decreases v@.len() - k,
    {
        if v[k] >= bound {
            return false;
        }
        k = k + 1;
    }
    true
}

/// Once the scan of a prefix has failed, the scan of the whole list fails
/// with the same error.
proof fn lemma_scan_error_persists(rows: nat, regions: Seq<Seq<usize>>, w: nat, i: int)
    requires
        0 <= i <= regions.len(),
        factor_bytes_scan(rows, regions.take(i), w) is Err,
    ensures
        factor_bytes_scan(rows, regions, w) == factor_bytes_scan(rows, regions.take(i), w),
    decreases regions.len() - i,
{
    if i < regions.len() {
        let next = regions.take(i + 1);
        assert(next.drop_last() =~= regions.take(i));
        lemma_scan_error_persists(rows, regions, w, i + 1);
    } else {
        assert(regions.take(i) =~= regions);
    }
}

} // verus!

verus! {

/// Accepting regions in candidate order under a byte budget: each pending
/// region is accepted when the factor bytes of the accepted regions plus it
/// stay within `max`, and counted as skipped otherwise; the first estimate
/// that fails decides the error.
pub open spec fn budget_fold(
    rows: nat,
    accepted: Seq<Seq<usize>>,
    pending: Seq<Seq<usize>>,
    max: nat,
    w: nat,
    skipped: nat,
) -> Result<(Seq<Seq<usize>>, nat), HybitError>
    decreases pending.len(),
{
    if pending.len() == 0 {
        Ok((accepted, skipped))
    } else {
        match factor_bytes_scan(rows, accepted.push(pending[0]), w) {
            Err(e) => Err(e),
            Ok(b) => if b <= max {
                budget_fold(rows, accepted.push(pending[0]), pending.drop_first(), max, w, skipped)
            } else {
                budget_fold(rows, accepted, pending.drop_first(), max, w, skipped + 1)
            },
        }
    }
}

/// The outcome of choosing local regions in candidate order: the learned
/// regions (deduplicated) must fit the budget themselves; then the new
/// candidates, merged in after them, are accepted in order while the budget
/// allows.
pub open spec fn spec_candidate_order_selection(
    rows: nat,
    existing: Seq<Seq<usize>>,
    candidates: Seq<Seq<usize>>,
    max: nat,
    w: nat,
) -> Result<(Seq<Seq<usize>>, nat), HybitError> {
    let learned = merge_spec(Seq::empty(), existing);
    match factor_bytes_scan(rows, learned, w) {
        Err(e) => Err(e),
        Ok(b) => if b > max {
            Err(HybitError::InvalidArgument("existing local factors exceed configured memory budget"))
        } else {
            budget_fold(rows, learned, merge_spec(learned, candidates).skip(learned.len() as int), max, w, 0)
        },
    }
}

/// A successful scan never exceeds `usize::MAX`.
pub proof fn lemma_scan_fits(rows: nat, regions: Seq<Seq<usize>>, w: nat)
    ensures
        factor_bytes_scan(rows, regions, w) matches Ok(b) ==> b <= usize::MAX,
    decreases regions.len(),
{
    if regions.len() > 0 {
        lemma_scan_fits(rows, regions.drop_last(), w);
    }
}

/// The executable result agrees with the specified outcome.
pub open spec fn selection_agrees(
    result: Result<(Vec<Vec<usize>>, usize), HybitError>,
    outcome: Result<(Seq<Seq<usize>>, nat), HybitError>,
) -> bool {
    match outcome {
        Err(e) => result == Err::<(Vec<Vec<usize>>, usize), HybitError>(e),
        Ok((acc, skipped)) => match result {
            Ok((a, s)) => views(a@) == acc && s as nat == skipped,
            Err(_) => false,
        },
    }
}

/// A copy of a list of regions.
fn copy_regions(regions: &[Vec<usize>]) -> (c: Vec<Vec<usize>>)
    ensures
        views(c@) == views(regions@),
{
    let mut c: Vec<Vec<usize>> = Vec::new();
    let mut i: usize = 0;
    while i < regions.len()
        invariant
            i <= regions@.len(),
            c@.len() == i,
            views(c@) == views(regions@).take(i as int),
        decreases regions@.len() - i,
    {
        let ghost before = c@;
        c.push(copy_dofs(&regions[i]));
        assert(views(c@) =~= views(regions@).take(i + 1)) by {
            assert forall|k: int| 0 <= k < i implies views(c@)[k] == views(regions@).take(i + 1)[k] by {
                assert(c@[k] == before[k]);
                assert(views(before)[k] == views(regions@).take(i as int)[k]);
            }
        }
        i = i + 1;
    }
    assert(views(regions@).take(i as int) =~= views(regions@));
    c
}

/// Chooses the local-direct regions that fit a factor-memory budget when
/// candidates are taken in their diagnostic order. Returns the accepted
/// regions (learned ones first) and the number of candidates skipped for
/// the budget.
pub fn select_regions_in_candidate_order(
    matrix_rows: usize,
    existing_regions: &[Vec<usize>],
    candidate_regions: Vec<Vec<usize>>,
    max_factor_bytes: usize,
) -> (result: Result<(Vec<Vec<usize>>, usize), HybitError>)
    ensures
        selection_agrees(
            result,
            spec_candidate_order_selection(
                matrix_rows as nat,
                views(existing_regions@),
                views(candidate_regions@),
                max_factor_bytes as nat,
                vstd::layout::size_of::<usize>(),
            ),
        ),
{
    let ghost w = vstd::layout::size_of::<usize>();
    let ghost learned = merge_spec(Seq::empty(), views(existing_regions@));
    let existing_copy = copy_regions(existing_regions);
    let none: Vec<Vec<usize>> = Vec::new();
    let mut accepted = merge_unique_regions(none.as_slice(), existing_copy);
    assert(views(none@) =~= Seq::<Seq<usize>>::empty());
    assert(views(accepted@) == learned);
    proof {
        lemma_scan_fits(matrix_rows as nat, learned, w);
    }
    let current = match estimated_factor_bytes(matrix_rows, &accepted) {
        Ok(b) => b,
        Err(e) => return Err(e),
    };
    if current > max_factor_bytes {
        return Err(HybitError::InvalidArgument("existing local factors exceed configured memory budget"));
    }
    let base = accepted.len();
    let ghost cands = views(candidate_regions@);
    let merged = merge_unique_regions(&accepted, candidate_regions);
    proof {
        lemma_merge_unique(learned, cands);
        assert(views(merged@).take(base as int) == learned);
    }
    let ghost pending = views(merged@).skip(base as int);
    let mut skipped: usize = 0;
    let mut k: usize = base;
    proof {
        assert(views(merged@).skip(base as int) == pending);
        assert(spec_candidate_order_selection(
            matrix_rows as nat,
            views(existing_regions@),
            cands,
            max_factor_bytes as nat,
            w,
        ) == budget_fold(matrix_rows as nat, learned, pending, max_factor_bytes as nat, w, 0));
    }
    while k < merged.len()
        invariant
            base <= k <= merged@.len(),
            w == vstd::layout::size_of::<usize>(),
            pending == views(merged@).skip(base as int),
            skipped <= k - base,
            spec_candidate_order_selection(
                matrix_rows as nat,
                views(existing_regions@),
                cands,
                max_factor_bytes as nat,
                w,
            ) == budget_fold(matrix_rows as nat, learned, pending, max_factor_bytes as nat, w, 0),
            cands == views(candidate_regions@),
            budget_fold(
                matrix_rows as nat,
                views(accepted@),
                views(merged@).skip(k as int),
                max_factor_bytes as nat,
                w,
                skipped as nat,
            ) == budget_fold(matrix_rows as nat, learned, pending, max_factor_bytes as nat, w, 0),
        decreases merged@.len() - k,
    {
        let ghost rest = views(merged@).skip(k as int);
        let ghost before = views(accepted@);
        proof {
            assert(rest[0] == merged@[k as int]@);
            assert(rest.drop_first() =~= views(merged@).skip(k + 1));
        }
        let c = copy_dofs(&merged[k]);
        accepted.push(c);
        assert(views(accepted@) =~= before.push(rest[0]));
        proof {
            lemma_scan_fits(matrix_rows as nat, before.push(rest[0]), w);
        }
        match estimated_factor_bytes(matrix_rows, &accepted) {
            Ok(bytes) => {
                assert(factor_bytes_scan(matrix_rows as nat, before.push(rest[0]), w) == Ok::<nat, HybitError>(bytes as nat));
                if bytes > max_factor_bytes {
                    accepted.pop();
                    assert(views(accepted@) =~= before);
                    skipped = skipped + 1;
                }
            },
            Err(e) => {
                assert(factor_bytes_scan(matrix_rows as nat, before.push(rest[0]), w) == Err::<nat, HybitError>(e));
                assert(budget_fold(matrix_rows as nat, before, rest, max_factor_bytes as nat, w, skipped as nat) == Err::<(Seq<Seq<usize>>, nat), HybitError>(e));
                return Err(e);
            },
        }
        k = k + 1;
    }
    assert(views(merged@).skip(k as int) =~= Seq::<Seq<usize>>::empty());
    Ok((accepted, skipped))
}

} // verus!

verus! {

/// The overlap bookkeeping of a hybrid preconditioner, region by region:
/// the non-empty regions in canonical form, and for every DOF the number of
/// them that hold it. A count that would pass `u16::MAX` overflows; a region
/// with a DOF outside the matrix is refused.
pub open spec fn overlap_scan(rows: nat, regions: Seq<Seq<usize>>) -> Result<(Seq<Seq<usize>>, Seq<u16>), HybitError>
    decreases regions.len(),
{
    if regions.len() == 0 {
        Ok((Seq::empty(), Seq::new(rows, |i: int| 0u16)))
    } else {
        match overlap_scan(rows, regions.drop_last()) {
            Err(e) => Err(e),
            Ok((kept, m)) => {
                let r = regions.last();
                let c = canon(r);
                if r.len() == 0 {
                    Ok((kept, m))
                } else if exists|v: usize| #[trigger] c.contains(v) && v < rows && m[v as int] == 0xffff {
                    Err(HybitError::SizeOverflow)
                } else if exists|v: usize| #[trigger] c.contains(v) && v >= rows {
                    Err(HybitError::InvalidArgument("hybrid preconditioner DOF is out of range"))
                } else {
                    Ok(
                        (
                            kept.push(c),
                            Seq::new(
                                rows,
                                |i: int| if c.contains(i as usize) { (m[i] + 1) as u16 } else { m[i] },
                            ),
                        ),
                    )
                }
            },
        }
    }
}

/// The overlap bookkeeping of the regions: their canonical non-empty forms
/// and the multiplicity of every DOF. Without any non-empty region there is
/// nothing to build.
pub open spec fn spec_overlap_multiplicity(rows: nat, regions: Seq<Seq<usize>>) -> Result<
    (Seq<Seq<usize>>, Seq<u16>),
    HybitError,
> {
    match overlap_scan(rows, regions) {
        Err(e) => Err(e),
        Ok((kept, m)) => if kept.len() == 0 {
            Err(HybitError::InvalidArgument("hybrid preconditioner requires at least one local region"))
        } else {
            Ok((kept, m))
        },
    }
}

proof fn lemma_overlap_error_persists(rows: nat, regions: Seq<Seq<usize>>, i: int)
    requires
        0 <= i <= regions.len(),
        overlap_scan(rows, regions.take(i)) is Err,
    ensures
        overlap_scan(rows, regions) == overlap_scan(rows, regions.take(i)),
    decreases regions.len() - i,
{
    if i < regions.len() {
        assert(regions.take(i + 1).drop_last() =~= regions.take(i));
        lemma_overlap_error_persists(rows, regions, i + 1);
    } else {
        assert(regions.take(i) =~= regions);
    }
}

/// Canonical non-empty regions and the number of regions that hold each DOF,
/// as a hybrid preconditioner keeps them.
pub fn overlap_multiplicity(matrix_rows: usize, regions: &[Vec<usize>]) -> (result: Result<
    (Vec<Vec<usize>>, Vec<u16>),
    HybitError,
>)
    ensures
        match spec_overlap_multiplicity(matrix_rows as nat, views(regions@)) {
            Err(e) => result == Err::<(Vec<Vec<usize>>, Vec<u16>), HybitError>(e),
            Ok((kept, m)) => match result {
                Ok((k, mm)) => views(k@) == kept && mm@ == m,
                Err(_) => false,
            },
        },
{
    let mut kept: Vec<Vec<usize>> = Vec::new();
    let mut m: Vec<u16> = vec![0u16; matrix_rows];
    let mut i: usize = 0;
    assert(views(regions@).take(0) =~= Seq::<Seq<usize>>::empty());
    assert(m@ =~= Seq::new(matrix_rows as nat, |j: int| 0u16));
    assert(views(kept@) =~= Seq::<Seq<usize>>::empty());
    while i < regions.len()
        invariant
            i <= regions@.len(),
            m@.len() == matrix_rows,
            overlap_scan(matrix_rows as nat, views(regions@).take(i as int)) == Ok::<
                (Seq<Seq<usize>>, Seq<u16>),
                HybitError,
            >((views(kept@), m@)),
        decreases regions@.len() - i,
    {
        let ghost prefix = views(regions@).take(i + 1);
        let ghost m0 = m@;
        let ghost kept0 = views(kept@);
        proof {
            assert(prefix.drop_last() =~= views(regions@).take(i as int));
            assert(prefix.last() == regions@[i as int]@);
        }
        if regions[i].len() != 0 {
            let c = canonical_region(&regions[i]);
            proof {
                lemma_canon(regions@[i as int]@);
            }
            let mut q: usize = 0;
            while q < c.len()
                invariant
                    i < regions@.len(),
                    prefix == views(regions@).take(i + 1),
                    prefix.drop_last() == views(regions@).take(i as int),
                    prefix.last() == regions@[i as int]@,
                    regions@[i as int]@.len() > 0,
                    c@ == canon(regions@[i as int]@),
                    overlap_scan(matrix_rows as nat, views(regions@).take(i as int)) == Ok::<
                        (Seq<Seq<usize>>, Seq<u16>),
                        HybitError,
                    >((kept0, m0)),
                    m@.len() == matrix_rows,
                    m0.len() == matrix_rows,
                    strictly_increasing(c@),
                    q <= c@.len(),
                    forall|p: int| 0 <= p < q ==> #[trigger] c@[p] < matrix_rows && m0[c@[p] as int] != 0xffff,
                    forall|j: int| 0 <= j < matrix_rows ==> #[trigger] m@[j] == (if c@.take(q as int).contains(j as usize) {
                        (m0[j] + 1) as u16
                    } else {
                        m0[j]
                    }),
                decreases c@.len() - q,
            {
                let dof = c[q];
                if dof >= matrix_rows {
                    proof {
                        assert(c@.contains(dof));
                        assert(!exists|v: usize| #[trigger] c@.contains(v) && v < matrix_rows && m0[v as int] == 0xffff) by {
                            if exists|v: usize| #[trigger] c@.contains(v) && v < matrix_rows && m0[v as int] == 0xffff {
                                let v = choose|v: usize| #[trigger] c@.contains(v) && v < matrix_rows && m0[v as int] == 0xffff;
                                let p = choose|p: int| 0 <= p < c@.len() && c@[p] == v;
                                if p >= q {
                                    assert(c@[p] >= c@[q as int]);
                                }
                            }
                        }
                        assert(overlap_scan(matrix_rows as nat, prefix) is Err);
                        lemma_overlap_error_persists(matrix_rows as nat, views(regions@), i + 1);
                    }
                    return Err(HybitError::InvalidArgument("hybrid preconditioner DOF is out of range"));
                }
                proof {
                    assert(!c@.take(q as int).contains(dof)) by {
                        if c@.take(q as int).contains(dof) {
                            let p = choose|p: int| 0 <= p < q && #[trigger] c@.take(q as int)[p] == dof;
                            assert(c@[p] < c@[q as int]);
                        }
                    }
                }
                if m[dof] == 0xffff {
                    proof {
                        assert(c@.contains(dof) && dof < matrix_rows && m0[dof as int] == 0xffff);
                        assert(overlap_scan(matrix_rows as nat, prefix) is Err);
                        lemma_overlap_error_persists(matrix_rows as nat, views(regions@), i + 1);
                    }
                    return Err(HybitError::SizeOverflow);
                }
                let ghost before = m@;
                m.set(dof, m[dof] + 1);
                proof {
                    assert forall|j: int| 0 <= j < matrix_rows implies #[trigger] m@[j] == (if c@.take(q + 1).contains(j as usize) {
                        (m0[j] + 1) as u16
                    } else {
                        m0[j]
                    }) by {
                        if j == dof as int {
                            assert(c@.take(q + 1)[q as int] == dof);
                        } else {
                            if c@.take(q + 1).contains(j as usize) {
                                let p = choose|p: int| 0 <= p < q + 1 && #[trigger] c@.take(q + 1)[p] == j as usize;
                                assert(c@.take(q as int)[p] == j as usize);
                            }
                            if c@.take(q as int).contains(j as usize) {
                                let p = choose|p: int| 0 <= p < q && #[trigger] c@.take(q as int)[p] == j as usize;
                                assert(c@.take(q + 1)[p] == j as usize);
                            }
                        }
                    }
                }
                q = q + 1;
            }
            proof {
                assert(c@.take(q as int) =~= c@);
                assert(!exists|v: usize| #[trigger] c@.contains(v) && v < matrix_rows && m0[v as int] == 0xffff) by {
                    if exists|v: usize| #[trigger] c@.contains(v) && v < matrix_rows && m0[v as int] == 0xffff {
                        let v = choose|v: usize| #[trigger] c@.contains(v) && v < matrix_rows && m0[v as int] == 0xffff;
                        let p = choose|p: int| 0 <= p < c@.len() && c@[p] == v;
                    }
                }
                assert(!exists|v: usize| #[trigger] c@.contains(v) && v >= matrix_rows) by {
                    if exists|v: usize| #[trigger] c@.contains(v) && v >= matrix_rows {
                        let v = choose|v: usize| #[trigger] c@.contains(v) && v >= matrix_rows;
                        let p = choose|p: int| 0 <= p < c@.len() && c@[p] == v;
                    }
                }
                assert(m@ =~= Seq::new(
                    matrix_rows as nat,
                    |j: int| if c@.contains(j as usize) { (m0[j] + 1) as u16 } else { m0[j] },
                ));
            }
            kept.push(c);
            assert(views(kept@) =~= kept0.push(c@));
        }
        i = i + 1;
    }
    assert(views(regions@).take(i as int) =~= views(regions@));
    if kept.len() == 0 {
        return Err(HybitError::InvalidArgument("hybrid preconditioner requires at least one local region"));
    }
    Ok((kept, m))
}

} // verus!

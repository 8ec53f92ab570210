//! Structure of compressed-sparse-row matrices with 32-bit indices: the
//! checks that make a row-pointer / column-index pair valid, the block node
//! graph of a node-major matrix, and the FNV-1a signatures by which a
//! prepared system recognises the matrix it was built for.
use vstd::prelude::*;

use crate::aggregate::adjacency_ok;
use crate::error::HybitError;
use crate::regions::{canon, canonical_region, lemma_canon, strictly_increasing};

verus! {

/// Row pointers of length `nrows + 1` that start at zero, never decrease and
/// end at the number of stored entries, with every column below `ncols`.
pub open spec fn csr_structure_ok(nrows: nat, ncols: nat, row_ptr: Seq<u32>, col_idx: Seq<u32>) -> bool {
    &&& row_ptr.len() == nrows + 1
    &&& row_ptr[0] == 0
    &&& row_ptr[nrows as int] == col_idx.len()
    &&& forall|r: int| 0 <= r < nrows ==> #[trigger] row_ptr[r] <= row_ptr[r + 1]
    &&& forall|p: int| 0 <= p < col_idx.len() ==> #[trigger] col_idx[p] < ncols
}

/// Some pair of consecutive row pointers decreases.
pub open spec fn decreasing_pair(row_ptr: Seq<u32>) -> bool {
    exists|r: int| 0 <= r && r + 1 < row_ptr.len() && #[trigger] row_ptr[r] > row_ptr[r + 1]
}

/// Some column index is not below `ncols`.
pub open spec fn column_out_of_range(col_idx: Seq<u32>, ncols: nat) -> bool {
    exists|p: int| 0 <= p < col_idx.len() && #[trigger] col_idx[p] >= ncols
}

/// Checks the structure of a CSR matrix with `value_count` stored values.
/// The checks run in a fixed order and the first that fails decides the
/// error: row-pointer length, matching lengths of columns and values, a
/// zero first row pointer, a value count that fits in `u32`, a last row
/// pointer equal to that count, non-decreasing row pointers, and columns
/// below `ncols`.
pub fn validate_csr_structure(
    nrows: usize,
    ncols: usize,
    row_ptr: &[u32],
    col_idx: &[u32],
    value_count: usize,
) -> (result: Result<(), HybitError>)
    ensures
        result == (if row_ptr@.len() != nrows + 1 {
            Err(HybitError::InvalidMatrix("row_ptr length must equal nrows + 1"))
        } else if col_idx@.len() != value_count {
            Err(HybitError::InvalidMatrix("col_idx and values lengths differ"))
        } else if row_ptr@[0] != 0 {
            Err(HybitError::InvalidMatrix("row_ptr[0] must be zero"))
        } else if value_count > u32::MAX {
            Err(HybitError::SizeOverflow)
        } else if row_ptr@[nrows as int] != value_count {
            Err(HybitError::InvalidMatrix("row_ptr[nrows] must equal nnz"))
        } else if decreasing_pair(row_ptr@) {
            Err(HybitError::InvalidMatrix("row_ptr must be monotonically nondecreasing"))
        } else if column_out_of_range(col_idx@, ncols as nat) {
            Err(HybitError::InvalidMatrix("column index out of range"))
        } else {
            Ok::<(), HybitError>(())
        }),
        result is Ok <==> csr_structure_ok(nrows as nat, ncols as nat, row_ptr@, col_idx@)
            && value_count == col_idx@.len(),
{
    if row_ptr.len() == 0 || row_ptr.len() - 1 != nrows {
        return Err(HybitError::InvalidMatrix("row_ptr length must equal nrows + 1"));
    }
    if col_idx.len() != value_count {
        return Err(HybitError::InvalidMatrix("col_idx and values lengths differ"));
    }
    if row_ptr[0] != 0 {
        return Err(HybitError::InvalidMatrix("row_ptr[0] must be zero"));
    }
    if value_count > 0xffff_ffff {
        return Err(HybitError::SizeOverflow);
    }
    if row_ptr[nrows] as usize != value_count {
        return Err(HybitError::InvalidMatrix("row_ptr[nrows] must equal nnz"));
    }
    let mut r: usize = 0;
    while r < nrows
        invariant
            row_ptr@.len() == nrows + 1,
            col_idx@.len() == value_count,
            row_ptr@[0] == 0,
            value_count <= u32::MAX,
            row_ptr@[nrows as int] == value_count,
            r <= nrows,
            forall|q: int| 0 <= q < r ==> #[trigger] row_ptr@[q] <= row_ptr@[q + 1],
        decreases nrows - r,
    {
        if row_ptr[r] > row_ptr[r + 1] {
            assert(decreasing_pair(row_ptr@)) by {
                assert(row_ptr@[r as int] > row_ptr@[r + 1]);
            }
            return Err(HybitError::InvalidMatrix("row_ptr must be monotonically nondecreasing"));
        }
        r = r + 1;
    }
    assert(!decreasing_pair(row_ptr@));
    let mut p: usize = 0;
    while p < col_idx.len()
        invariant
            row_ptr@.len() == nrows + 1,
            col_idx@.len() == value_count,
            row_ptr@[0] == 0,
            value_count <= u32::MAX,
            row_ptr@[nrows as int] == value_count,
            !decreasing_pair(row_ptr@),
            p <= col_idx@.len(),
            forall|q: int| 0 <= q < p ==> #[trigger] col_idx@[q] < ncols,
        decreases col_idx@.len() - p,
    {
        if col_idx[p] as usize >= ncols {
            assert(column_out_of_range(col_idx@, ncols as nat)) by {
                assert(col_idx@[p as int] >= ncols);
            }
            return Err(HybitError::InvalidMatrix("column index out of range"));
        }
        p = p + 1;
    }
    assert(!column_out_of_range(col_idx@, ncols as nat));
    Ok(())
}

/// Row pointers are non-decreasing across any distance, not only between
/// neighbours.
pub proof fn lemma_row_ptr_monotone(nrows: nat, ncols: nat, row_ptr: Seq<u32>, col_idx: Seq<u32>, a: int, b: int)
    requires
        csr_structure_ok(nrows, ncols, row_ptr, col_idx),
        0 <= a <= b <= nrows,
    ensures
        row_ptr[a] <= row_ptr[b],
    decreases b - a,
{
    if a < b {
        lemma_row_ptr_monotone(nrows, ncols, row_ptr, col_idx, a, b - 1);
        assert(row_ptr[b - 1] <= row_ptr[b]);
    }
}

/// Whether row `r` stores an entry in column `r`.
pub open spec fn has_diagonal(row_ptr: Seq<u32>, col_idx: Seq<u32>, r: int) -> bool {
    exists|p: int| row_ptr[r] <= p < row_ptr[r + 1] && #[trigger] col_idx[p] == r
}

/// The first row without a stored diagonal entry, if any.
pub fn first_row_without_diagonal(nrows: usize, ncols: usize, row_ptr: &[u32], col_idx: &[u32]) -> (result:
    Option<usize>)
    requires
        csr_structure_ok(nrows as nat, ncols as nat, row_ptr@, col_idx@),
    ensures
        result matches Some(r) ==> r < nrows && !has_diagonal(row_ptr@, col_idx@, r as int) && forall|
            q: int,
        | 0 <= q < r ==> #[trigger] has_diagonal(row_ptr@, col_idx@, q),
        result is None ==> forall|q: int| 0 <= q < nrows ==> #[trigger] has_diagonal(row_ptr@, col_idx@, q),
{
    let mut r: usize = 0;
    while r < nrows
        invariant
            csr_structure_ok(nrows as nat, ncols as nat, row_ptr@, col_idx@),
            r <= nrows,
            forall|q: int| 0 <= q < r ==> #[trigger] has_diagonal(row_ptr@, col_idx@, q),
        decreases nrows - r,
    {
        proof {
            lemma_row_ptr_monotone(nrows as nat, ncols as nat, row_ptr@, col_idx@, r as int + 1, nrows as int);
        }
        let start = row_ptr[r] as usize;
        let end = row_ptr[r + 1] as usize;
        let mut p = start;
        let mut found = false;
        while p < end
            invariant
                start <= p <= end,
                end <= col_idx@.len(),
                start == row_ptr@[r as int],
                end == row_ptr@[r + 1],
                found ==> has_diagonal(row_ptr@, col_idx@, r as int),
                !found ==> forall|q: int| start <= q < p ==> #[trigger] col_idx@[q] != r,
            decreases end - p,
        {
            if col_idx[p] as usize == r {
                found = true;
            }
            p = p + 1;
        }
        if !found {
            return Some(r);
        }
        r = r + 1;
    }
    None
}

/// Largest number of entries stored in one row (zero without rows).
pub fn max_row_entries(nrows: usize, ncols: usize, row_ptr: &[u32], col_idx: &[u32]) -> (m: usize)
    requires
        csr_structure_ok(nrows as nat, ncols as nat, row_ptr@, col_idx@),
    ensures
        forall|r: int| 0 <= r < nrows ==> #[trigger] row_ptr@[r + 1] - row_ptr@[r] <= m,
        nrows == 0 ==> m == 0,
        nrows > 0 ==> exists|r: int| 0 <= r < nrows && #[trigger] row_ptr@[r + 1] - row_ptr@[r] == m,
{
    let mut m: usize = 0;
    let mut r: usize = 0;
    while r < nrows
        invariant
            csr_structure_ok(nrows as nat, ncols as nat, row_ptr@, col_idx@),
            r <= nrows,
            forall|q: int| 0 <= q < r ==> #[trigger] row_ptr@[q + 1] - row_ptr@[q] <= m,
            r == 0 ==> m == 0,
            r > 0 ==> exists|q: int| 0 <= q < r && #[trigger] row_ptr@[q + 1] - row_ptr@[q] == m,
        decreases nrows - r,
    {
        let len = (row_ptr[r + 1] - row_ptr[r]) as usize;
        if r == 0 || len > m {
            m = len;
        }
        r = r + 1;
    }
    m
}

/// The node of column `c` when every node has `d` consecutive DOFs.
pub open spec fn node_of(c: u32, d: nat) -> int {
    (c as int) / (d as int)
}

/// Node `u` of a node-major matrix with `d` DOFs per node couples with node
/// `y`: one of the entries stored in the rows of `u` (rows `u * d` up to
/// `u * d + d`) has its column in node `y`.
pub open spec fn block_coupled(row_ptr: Seq<u32>, col_idx: Seq<u32>, d: nat, u: int, y: int) -> bool {
    exists|p: int|
        row_ptr[u * d] <= p < row_ptr[u * d + d] && #[trigger] node_of(col_idx[p], d) == y
}

/// The node graph of a node-major matrix with `dofs_per_node` DOFs per node:
/// for every node, the other nodes it couples with, in increasing order.
/// The matrix must have exactly `node_count * dofs_per_node` rows and
/// columns.
pub fn build_block_node_adjacency(
    nrows: usize,
    ncols: usize,
    row_ptr: &[u32],
    col_idx: &[u32],
    node_count: usize,
    dofs_per_node: usize,
) -> (result: Result<Vec<Vec<usize>>, HybitError>)
    requires
        csr_structure_ok(nrows as nat, ncols as nat, row_ptr@, col_idx@),
    ensures
        node_count * dofs_per_node > usize::MAX ==> result == Err::<Vec<Vec<usize>>, HybitError>(
            HybitError::SizeOverflow,
        ),
        node_count * dofs_per_node <= usize::MAX && (nrows != node_count * dofs_per_node || ncols
            != node_count * dofs_per_node) ==> result == Err::<Vec<Vec<usize>>, HybitError>(
            HybitError::DimensionMismatch {
                expected: nrows,
                actual: (node_count * dofs_per_node) as usize,
            },
        ),
        node_count * dofs_per_node <= usize::MAX && nrows == node_count * dofs_per_node && ncols
            == node_count * dofs_per_node ==> result is Ok,
        result matches Ok(adj) ==> {
            &&& adj@.len() == node_count
            &&& adjacency_ok(adj@)
            &&& forall|u: int| 0 <= u < node_count ==> strictly_increasing(#[trigger] adj@[u]@)
            &&& forall|u: int, y: usize|
                0 <= u < node_count ==> (#[trigger] adj@[u]@.contains(y) <==> (y != u
                    && block_coupled(row_ptr@, col_idx@, dofs_per_node as nat, u, y as int)))
        },
{
    let expected = match node_count.checked_mul(dofs_per_node) {
        Some(e) => e,
        None => return Err(HybitError::SizeOverflow),
    };
    if nrows != expected || ncols != expected {
        return Err(HybitError::DimensionMismatch { expected: nrows, actual: expected });
    }
    let d = dofs_per_node;
    let mut adjacency: Vec<Vec<usize>> = Vec::new();
    let mut node: usize = 0;
    while node < node_count
        invariant
            csr_structure_ok(nrows as nat, ncols as nat, row_ptr@, col_idx@),
            nrows == node_count * d,
            ncols == nrows,
            node <= node_count,
            adjacency@.len() == node,
            forall|u: int, j: int|
                0 <= u < node && 0 <= j < adjacency@[u]@.len() ==> #[trigger] adjacency@[u]@[j]
                    < node_count,
            forall|u: int| 0 <= u < node ==> strictly_increasing(#[trigger] adjacency@[u]@),
            forall|u: int, y: usize|
                0 <= u < node ==> (#[trigger] adjacency@[u]@.contains(y) <==> (y != u
                    && block_coupled(row_ptr@, col_idx@, d as nat, u, y as int))),
        decreases node_count - node,
    {
        assert(node * d + d <= nrows) by (nonlinear_arith)
            requires
                node < node_count,
                nrows == node_count * d,
        ;
        proof {
            lemma_row_ptr_monotone(nrows as nat, ncols as nat, row_ptr@, col_idx@, node * d, node * d + d);
            lemma_row_ptr_monotone(nrows as nat, ncols as nat, row_ptr@, col_idx@, node * d + d, nrows as int);
        }
        let start = row_ptr[node * d] as usize;
        let end = row_ptr[node * d + d] as usize;
        let mut neighbors: Vec<usize> = Vec::new();
        let mut p = start;
        while p < end
            invariant
                csr_structure_ok(nrows as nat, ncols as nat, row_ptr@, col_idx@),
                nrows == node_count * d,
                ncols == nrows,
                node < node_count,
                start == row_ptr@[node * d],
                end == row_ptr@[node * d + d],
                end <= col_idx@.len(),
                start <= p <= end,
                forall|j: int| 0 <= j < neighbors@.len() ==> #[trigger] neighbors@[j] < node_count,
                forall|y: usize| #[trigger]
                    neighbors@.contains(y) <==> (y != node && exists|q: int|
                        start <= q < p && #[trigger] node_of(col_idx@[q], d as nat) == y),
            decreases end - p,
        {
            let other = col_idx[p] as usize / d;
            assert(other < node_count) by (nonlinear_arith)
                requires
                    col_idx@[p as int] < nrows,
                    nrows == node_count * d,
                    other == (col_idx@[p as int] as usize) / d,
                    d > 0,
            ;
            let ghost before = neighbors@;
            if other != node {
                neighbors.push(other);
            }
            proof {
                assert(node_of(col_idx@[p as int], d as nat) == other);
                assert forall|y: usize| #[trigger]
                    neighbors@.contains(y) <==> (y != node && exists|q: int|
                        start <= q < p + 1 && #[trigger] node_of(col_idx@[q], d as nat) == y) by {
                    if neighbors@.contains(y) && !before.contains(y) {
                        let k = choose|k: int| 0 <= k < neighbors@.len() && neighbors@[k] == y;
                        assert(y == other);
                    }
                    if before.contains(y) {
                        let k = choose|k: int| 0 <= k < before.len() && before[k] == y;
                        assert(neighbors@[k] == y);
                    }
                    if y != node && exists|q: int|
                        start <= q < p + 1 && #[trigger] node_of(col_idx@[q], d as nat) == y {
                        let q = choose|q: int|
                            start <= q < p + 1 && #[trigger] node_of(col_idx@[q], d as nat) == y;
                        if q == p {
                            assert(neighbors@[neighbors@.len() - 1] == y);
                        } else {
                            assert(before.contains(y));
                            let k = choose|k: int| 0 <= k < before.len() && before[k] == y;
                            assert(neighbors@[k] == y);
                        }
                    }
                }
            }
            p = p + 1;
        }
        let canonical = canonical_region(&neighbors);
        proof {
            lemma_canon(neighbors@);
            assert forall|j: int| 0 <= j < canonical@.len() implies #[trigger] canonical@[j] < node_count by {
                assert(canon(neighbors@).contains(canonical@[j]));
                assert(neighbors@.contains(canonical@[j]));
                let k = choose|k: int| 0 <= k < neighbors@.len() && neighbors@[k] == canonical@[j];
            }
            assert forall|y: usize| #[trigger] canonical@.contains(y) <==> (y != node && block_coupled(
                row_ptr@,
                col_idx@,
                d as nat,
                node as int,
                y as int,
            )) by {
                assert(canon(neighbors@).contains(y) <==> neighbors@.contains(y));
            }
        }
        adjacency.push(canonical);
        node = node + 1;
    }
    Ok(adjacency)
}

/// FNV-1a 64-bit prime.
pub const FNV_PRIME: u64 = 0x100000001b3;

/// FNV-1a 64-bit offset basis.
pub const FNV_OFFSET: u64 = 0xcbf29ce484222325;

/// One FNV-1a step: xor in a byte, multiply by the prime modulo 2^64.
pub open spec fn fnv_step(h: u64, byte: u64) -> u64 {
    ((h ^ byte) as nat * 0x100000001b3nat % 0x1_0000_0000_0000_0000nat) as u64
}

/// FNV-1a over the little-endian bytes of `value` from byte `k` on.
pub open spec fn fnv_bytes_from(h: u64, value: u64, k: nat) -> u64
    decreases 8 - k,
{
    if k >= 8 {
        h
    } else {
        fnv_bytes_from(fnv_step(h, (value >> (8 * k) as u64) & 0xff), value, k + 1)
    }
}

/// Mixes the eight little-endian bytes of `value` into the hash `h`.
pub open spec fn spec_fnv_mix(h: u64, value: u64) -> u64 {
    fnv_bytes_from(h, value, 0)
}

/// Multiplying by the odd FNV prime modulo 2^64 undoes to the identity
/// when followed by its inverse `0xce965057aff6957b`.
proof fn lemma_prime_mul_undone(z: u64)
    ensures
        (z as int * 0x100000001b3int % 0x1_0000_0000_0000_0000int) * 0xce965057aff6957bint % 0x1_0000_0000_0000_0000int
            == z as int,
{
    let m: int = 0x1_0000_0000_0000_0000;
    let p: int = 0x100000001b3;
    let q: int = 0xce965057aff6957b;
    let k: int = 0xce9650590f;
    assert(p * q == 1 + k * m);
    vstd::arithmetic::div_mod::lemma_mul_mod_noop_left(z as int * p, q, m);
    assert(z as int * p * q == m * (z as int * k) + z as int) by (nonlinear_arith)
        requires
            p * q == 1 + k * m,
    ;
    vstd::arithmetic::div_mod::lemma_mod_multiples_vanish(z as int * k, z as int, m);
    vstd::arithmetic::div_mod::lemma_small_mod(z as nat, m as nat);
}

/// One FNV step with the same byte sends different hashes to different
/// hashes.
pub proof fn lemma_fnv_step_injective(h1: u64, h2: u64, byte: u64)
    requires
        h1 != h2,
    ensures
        fnv_step(h1, byte) != fnv_step(h2, byte),
{
    let x = h1 ^ byte;
    let y = h2 ^ byte;
    assert(x != y) by (bit_vector)
        requires
            h1 != h2,
            x == h1 ^ byte,
            y == h2 ^ byte,
    ;
    lemma_prime_mul_undone(x);
    lemma_prime_mul_undone(y);
}

/// The remaining byte steps keep different hashes apart.
pub proof fn lemma_fnv_bytes_injective(h1: u64, h2: u64, value: u64, k: nat)
    requires
        h1 != h2,
    ensures
        fnv_bytes_from(h1, value, k) != fnv_bytes_from(h2, value, k),
    decreases 8 - k,
{
    if k < 8 {
        let byte = (value >> (8 * k) as u64) & 0xff;
        lemma_fnv_step_injective(h1, h2, byte);
        lemma_fnv_bytes_injective(fnv_step(h1, byte), fnv_step(h2, byte), value, k + 1);
    }
}

/// Mixes the eight little-endian bytes of `value` into the FNV-1a hash `h`.
pub fn fnv_mix(h: u64, value: u64) -> (mixed: u64)
    ensures
        mixed == spec_fnv_mix(h, value),
{
    let mut acc = h;
    let mut k: u64 = 0;
    while k < 8
        invariant
            k <= 8,
            fnv_bytes_from(acc, value, k as nat) == spec_fnv_mix(h, value),
        decreases 8 - k,
    {
        let byte = (value >> (8 * k)) & 0xff;
        acc = (acc ^ byte).wrapping_mul(FNV_PRIME);
        k = k + 1;
    }
    acc
}

/// FNV-1a over a sequence of words, each mixed in as eight bytes.
pub open spec fn fnv_fold(h: u64, words: Seq<u64>) -> u64
    decreases words.len(),
{
    if words.len() == 0 {
        h
    } else {
        spec_fnv_mix(fnv_fold(h, words.drop_last()), words.last())
    }
}

/// 32-bit indices widened to words.
pub open spec fn widen(s: Seq<u32>) -> Seq<u64> {
    s.map_values(|v: u32| v as u64)
}

/// Signature of the sparsity structure: the dimensions, the number of
/// stored entries, the row pointers and the column indices, in that order.
pub open spec fn spec_structure_signature(
    nrows: usize,
    ncols: usize,
    nnz: usize,
    row_ptr: Seq<u32>,
    col_idx: Seq<u32>,
) -> u64 {
    let head = fnv_fold(FNV_OFFSET, seq![nrows as u64, ncols as u64, nnz as u64]);
    fnv_fold(fnv_fold(head, widen(row_ptr)), widen(col_idx))
}

/// Signature of the values: the structure signature followed by the bit
/// pattern of every stored value.
pub open spec fn spec_value_signature(structure: u64, value_bits: Seq<u64>) -> u64 {
    fnv_fold(spec_fnv_mix(FNV_OFFSET, structure), value_bits)
}

proof fn lemma_fnv_fold_push(h: u64, s: Seq<u64>, w: u64)
    ensures
        fnv_fold(h, s.push(w)) == spec_fnv_mix(fnv_fold(h, s), w),
{
    assert(s.push(w).drop_last() =~= s);
}

fn fold_indices(h: u64, s: &[u32]) -> (r: u64)
    ensures
        r == fnv_fold(h, widen(s@)),
{
    let mut acc = h;
    let mut i: usize = 0;
    while i < s.len()
        invariant
            i <= s@.len(),
            acc == fnv_fold(h, widen(s@).take(i as int)),
        decreases s@.len() - i,
    {
        proof {
            assert(widen(s@).take(i + 1).drop_last() =~= widen(s@).take(i as int));
        }
        acc = fnv_mix(acc, s[i] as u64);
        i = i + 1;
    }
    assert(widen(s@).take(i as int) =~= widen(s@));
    acc
}

fn fold_words(h: u64, s: &[u64]) -> (r: u64)
    ensures
        r == fnv_fold(h, s@),
{
    let mut acc = h;
    let mut i: usize = 0;
    while i < s.len()
        invariant
            i <= s@.len(),
            acc == fnv_fold(h, s@.take(i as int)),
        decreases s@.len() - i,
    {
        proof {
            assert(s@.take(i + 1).drop_last() =~= s@.take(i as int));
        }
        acc = fnv_mix(acc, s[i]);
        i = i + 1;
    }
    assert(s@.take(i as int) =~= s@);
    acc
}

/// Structure and value signatures of a CSR matrix whose values have the
/// given IEEE-754 bit patterns.
pub fn matrix_signatures(nrows: usize, ncols: usize, row_ptr: &[u32], col_idx: &[u32], value_bits: &[u64]) -> (sigs: (
    u64,
    u64,
))
    ensures
        sigs.0 == spec_structure_signature(nrows, ncols, value_bits@.len() as usize, row_ptr@, col_idx@),
        sigs.1 == spec_value_signature(sigs.0, value_bits@),
{
    let mut h = fnv_mix(FNV_OFFSET, nrows as u64);
    h = fnv_mix(h, ncols as u64);
    h = fnv_mix(h, value_bits.len() as u64);
    proof {
        let e = Seq::<u64>::empty();
        lemma_fnv_fold_push(FNV_OFFSET, e, nrows as u64);
        lemma_fnv_fold_push(FNV_OFFSET, e.push(nrows as u64), ncols as u64);
        lemma_fnv_fold_push(FNV_OFFSET, e.push(nrows as u64).push(ncols as u64), value_bits.len() as u64);
        assert(e.push(nrows as u64).push(ncols as u64).push(value_bits.len() as u64) =~= seq![
            nrows as u64,
            ncols as u64,
            value_bits.len() as u64,
        ]);
    }
    let structure = fold_indices(fold_indices(h, row_ptr), col_idx);
    let values = fold_words(fnv_mix(FNV_OFFSET, structure), value_bits);
    (structure, values)
}

} // verus!

verus! {

/// The verdict on reusing a prepared context: a changed structure
/// signature is reported before a changed value signature.
pub open spec fn signature_verdict(
    prepared: (u64, u64),
    current: (u64, u64),
    structure_changed: &'static str,
    values_changed: &'static str,
) -> Result<(), HybitError> {
    if current.0 != prepared.0 {
        Err(HybitError::InvalidArgument(structure_changed))
    } else if current.1 != prepared.1 {
        Err(HybitError::InvalidArgument(values_changed))
    } else {
        Ok(())
    }
}

/// A prepared context accepts a matrix only when both signatures match the
/// ones it was prepared with; a changed structure is reported before
/// changed values.
pub fn check_prepared_signatures(
    prepared: (u64, u64),
    current: (u64, u64),
    structure_changed: &'static str,
    values_changed: &'static str,
) -> (result: Result<(), HybitError>)
    ensures
        result == signature_verdict(prepared, current, structure_changed, values_changed),
{
    if current.0 != prepared.0 {
        return Err(HybitError::InvalidArgument(structure_changed));
    }
    if current.1 != prepared.1 {
        return Err(HybitError::InvalidArgument(values_changed));
    }
    Ok(())
}

} // verus!

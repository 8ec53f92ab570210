use vstd::prelude::*;

use crate::error::HybitError;
use crate::mask::{
    bit_of, count_true, lemma_count_push, lemma_count_skip, lemma_bit_zero, word_count, DofMask,
};

verus! {

/// Number of columns covered by one ABTM tile.
pub const TILE_WIDTH: usize = 64;

const KIND_SHIFT: u32 = 30;

const BASE_WORD_MASK: u32 = 0x3fff_ffff;

/// Storage class of one 64-column tile of a matrix row.
#[derive(Clone, Copy, Debug, PartialEq, Eq)]
pub enum TileKind {
    Sparse,
    Bitmap,
    Dense,
}

/// A 16-byte tile descriptor: the column bitmap of the tile, the offset of
/// its first value, and the tile kind packed with the tile's column block.
#[derive(Clone, Copy, Debug)]
pub struct TileDesc {
    pub mask: u64,
    pub value_offset: u32,
    meta: u32,
}

proof fn lemma_pack_meta(word: u32, code: u32)
    by (bit_vector)
    requires
        word <= 0x3fff_ffffu32,
        code < 3,
    ensures
        (word | (code << 30u32)) >> 30u32 == code,
        (word | (code << 30u32)) & 0x3fff_ffffu32 == word,
{
}

/// The 64 bits of a tile mask, least significant first.
pub open spec fn mask_seq(mask: u64) -> Seq<bool> {
    Seq::new(64, |b: int| bit_of(mask, b as u64))
}

/// Number of set bits in a tile mask.
pub open spec fn mask_nnz(mask: u64) -> nat {
    count_true(mask_seq(mask))
}

/// Number of set bits of `mask` below bit `d`: the position of column
/// `base + d` among the stored values of a compact tile.
pub open spec fn mask_rank(mask: u64, d: int) -> nat {
    count_true(mask_seq(mask).take(d))
}

proof fn lemma_or_bit(w: u64, b: u64, c: u64)
    by (bit_vector)
    requires
        b < 64,
        c < 64,
    ensures
        bit_of(w | (1u64 << b), c) == (c == b || bit_of(w, c)),
{
}

/// Setting a bit above every set bit of `mask` adds one to the count and
/// leaves the rank of every lower position unchanged.
proof fn lemma_set_high_bit(mask: u64, b: u64)
    requires
        b < 64,
        forall|x: u64| b <= x < 64 ==> !bit_of(mask, x),
    ensures
        forall|x: u64| x < 64 ==> #[trigger] bit_of(mask | (1u64 << b), x) == (x == b || bit_of(mask, x)),
        mask_nnz(mask | (1u64 << b)) == mask_nnz(mask) + 1,
        mask_rank(mask | (1u64 << b), b as int) == mask_nnz(mask),
        forall|d: int| 0 <= d <= b ==> mask_rank(mask | (1u64 << b), d) == mask_rank(mask, d),
{
    let nm = mask | (1u64 << b);
    assert forall|x: u64| x < 64 implies bit_of(nm, x) == (x == b || bit_of(mask, x)) by {
        lemma_or_bit(mask, b, x);
    }
    let s = mask_seq(mask);
    let t = mask_seq(nm);
    assert forall|d: int| 0 <= d <= b implies mask_rank(nm, d) == mask_rank(mask, d) by {
        assert(t.take(d) =~= s.take(d));
    }
    assert(s.take(64) =~= s);
    assert(t.take(64) =~= t);
    assert forall|i: int| b <= i < 64 implies !s[i] by {
        assert(!bit_of(mask, i as u64));
    }
    assert forall|i: int| b + 1 <= i < 64 implies !t[i] by {
        assert(!bit_of(mask, i as u64));
        assert(bit_of(nm, i as u64) == (i as u64 == b || bit_of(mask, i as u64)));
    }
    assert(t[b as int]);
    assert(t.take(b as int) =~= s.take(b as int));
    lemma_count_skip(s, b as int, 64);
    lemma_count_push(t, b as int);
    lemma_count_skip(t, b + 1, 64);
}

/// Number of value slots a tile occupies.
pub open spec fn tile_slots(t: TileDesc) -> nat {
    if t.spec_kind() == TileKind::Dense {
        64
    } else {
        mask_nnz(t.spec_mask())
    }
}

/// Value slots occupied by a sequence of tiles.
pub open spec fn slots_total(ts: Seq<TileDesc>) -> nat
    decreases ts.len(),
{
    if ts.len() == 0 {
        0
    } else {
        slots_total(ts.drop_last()) + tile_slots(ts.last())
    }
}

/// Total number of entries of a list of rows.
pub open spec fn total_entries(rows: Seq<Vec<u32>>) -> nat
    decreases rows.len(),
{
    if rows.len() == 0 {
        0
    } else {
        total_entries(rows.drop_last()) + rows.last()@.len()
    }
}

/// Strictly increasing column indices below `ncols`.
pub open spec fn canonical_row(cols: Seq<u32>, ncols: nat) -> bool {
    &&& forall|j: int, l: int| 0 <= j < l < cols.len() ==> cols[j] < cols[l]
    &&& forall|j: int| 0 <= j < cols.len() ==> cols[j] < ncols
}

/// Each row lists strictly increasing column indices below `ncols`.
pub open spec fn canonical_rows(rows: Seq<Vec<u32>>, ncols: nat) -> bool {
    forall|r: int| 0 <= r < rows.len() ==> canonical_row(#[trigger] rows[r]@, ncols)
}

/// The value slot of column `c` when it is stored in tile `t`.
pub open spec fn slot_in_tile(t: TileDesc, c: int) -> nat {
    if t.spec_kind() == TileKind::Dense {
        t.spec_value_offset() + (c - t.spec_base_col()) as nat
    } else {
        t.spec_value_offset() + mask_rank(t.spec_mask(), c - t.spec_base_col())
    }
}

/// Whether column `c` is one of the columns recorded by tile `t`.
pub closed spec fn tile_has(t: TileDesc, c: int) -> bool {
    t.spec_base_col() <= c < t.spec_base_col() + 64 && bit_of(
        t.mask,
        (c - t.spec_base_col()) as u64,
    )
}

impl TileDesc {
    /// The descriptor holds a valid kind code and a base column that fits a `usize`.
    pub closed spec fn wf(&self) -> bool {
        &&& self.meta >> 30u32 < 3
        &&& (self.meta & 0x3fff_ffffu32) * 64 <= usize::MAX
    }

    /// The column bitmap of the tile.
    pub closed spec fn spec_mask(&self) -> u64 {
        self.mask
    }

    /// Index of the tile's first value slot.
    pub closed spec fn spec_value_offset(&self) -> nat {
        self.value_offset as nat
    }

    /// The kind recorded in the descriptor.
    pub closed spec fn spec_kind(&self) -> TileKind {
        let code = self.meta >> 30u32;
        if code == 0 {
            TileKind::Sparse
        } else if code == 1 {
            TileKind::Bitmap
        } else {
            TileKind::Dense
        }
    }

    /// The first column of the tile.
    pub closed spec fn spec_base_col(&self) -> nat {
        ((self.meta & 0x3fff_ffffu32) * 64) as nat
    }

    /// Packs a descriptor; fails when the column block does not fit in 30
    /// bits or the value offset does not fit in 32 bits.
    pub fn new(base_col: usize, value_offset: usize, mask: u64, kind: TileKind) -> (result: Result<
        Self,
        HybitError,
    >)
        ensures
            result.is_ok() <==> (base_col / 64 <= 0x3fff_ffff && value_offset <= u32::MAX),
            result matches Ok(t) ==> {
                &&& t.wf()
                &&& t.spec_mask() == mask
                &&& t.spec_value_offset() == value_offset
                &&& t.spec_kind() == kind
                &&& t.spec_base_col() == base_col / 64 * 64
            },
            result matches Err(e) ==> e == HybitError::SizeOverflow,
    {
        let word = base_col / TILE_WIDTH;
        if word > BASE_WORD_MASK as usize || value_offset > u32::MAX as usize {
            return Err(HybitError::SizeOverflow);
        }
        let code: u32 = match kind {
            TileKind::Sparse => 0,
            TileKind::Bitmap => 1,
            TileKind::Dense => 2,
        };
        let w = word as u32;
        proof {
            lemma_pack_meta(w, code);
        }
        Ok(TileDesc { mask, value_offset: value_offset as u32, meta: w | (code << KIND_SHIFT) })
    }

    /// The kind recorded in the descriptor.
    pub fn kind(&self) -> (kind: TileKind)
        requires
            self.wf(),
        ensures
            kind == self.spec_kind(),
    {
        match self.meta >> KIND_SHIFT {
            0 => TileKind::Sparse,
            1 => TileKind::Bitmap,
            _ => TileKind::Dense,
        }
    }

    /// The first column of the tile, a multiple of 64.
    pub fn base_col(&self) -> (col: usize)
        requires
            self.wf(),
        ensures
            col == self.spec_base_col(),
            col % 64 == 0,
    {
        ((self.meta & BASE_WORD_MASK) as usize) * TILE_WIDTH
    }
}

/// Whether some tile `ts[k]` with `from <= k < to` records column `c`.
pub open spec fn tiles_cover(ts: Seq<TileDesc>, from: int, to: int, c: int) -> bool {
    exists|k: int| from <= k < to && #[trigger] tile_has(ts[k], c)
}

/// Whether `c` is one of the first `to` columns of `cols`.
pub open spec fn cols_cover(cols: Seq<u32>, to: int, c: int) -> bool {
    exists|i: int| 0 <= i < to && #[trigger] cols[i] == c
}

/// `slot` is the value slot of column `c` in some tile `ts[k]`,
/// `from <= k < to`, that records `c`.
pub open spec fn slot_of_col(ts: Seq<TileDesc>, from: int, to: int, c: int, slot: nat) -> bool {
    exists|k: int| from <= k < to && #[trigger] tile_has(ts[k], c) && slot == slot_in_tile(ts[k], c)
}

/// Every tile is well formed, has the kind its entry count calls for, and
/// starts right after the value slots of the tiles before it.
pub open spec fn tiles_ok(ts: Seq<TileDesc>, config: AbtmConfig) -> bool {
    forall|k: int|
        0 <= k < ts.len() ==> {
            &&& (#[trigger] ts[k]).wf()
            &&& ts[k].spec_kind() == config.classify(mask_nnz(ts[k].spec_mask()))
            &&& ts[k].spec_value_offset() == slots_total(ts.take(k))
        }
}

proof fn lemma_slots_total_push(ts: Seq<TileDesc>, t: TileDesc)
    ensures
        slots_total(ts.push(t)) == slots_total(ts) + tile_slots(t),
        forall|k: int| 0 <= k <= ts.len() ==> #[trigger] ts.push(t).take(k) == ts.take(k),
{
    assert(ts.push(t).drop_last() =~= ts);
    assert forall|k: int| 0 <= k <= ts.len() implies #[trigger] ts.push(t).take(k) == ts.take(k) by {
        assert(ts.push(t).take(k) =~= ts.take(k));
    }
}

proof fn lemma_mask_nnz_bound(mask: u64)
    ensures
        mask_nnz(mask) <= 64,
{
    crate::mask::lemma_count_bound(mask_seq(mask));
}

/// Appends the tiles of one canonical row and returns the value slot of
/// each of its entries.
#[verifier::rlimit(60)]
fn append_row_tiles(
    cols: &Vec<u32>,
    config: AbtmConfig,
    tiles: &mut Vec<TileDesc>,
    value_slots: &mut usize,
) -> (result: Result<Vec<usize>, HybitError>)
    requires
        config.spec_valid(),
        forall|j: int, l: int| 0 <= j < l < cols@.len() ==> cols@[j] < cols@[l],
        tiles_ok(old(tiles)@, config),
        *old(value_slots) == slots_total(old(tiles)@),
    ensures
        result.is_err() ==> *old(value_slots) + 64 * cols@.len() > u32::MAX,
        result matches Err(e) ==> e == HybitError::SizeOverflow,
        result matches Ok(slots) ==> {
            let t0 = old(tiles)@.len() as int;
            let ts = final(tiles)@;
            &&& tiles_ok(ts, config)
            &&& *final(value_slots) == slots_total(ts)
            &&& t0 <= ts.len() <= t0 + cols@.len()
            &&& ts.take(t0) == old(tiles)@
            &&& *old(value_slots) <= *final(value_slots) <= *old(value_slots) + 64 * cols@.len()
            &&& forall|c: int| tiles_cover(ts, t0, ts.len() as int, c) <==> cols_cover(cols@, cols@.len() as int, c)
            &&& slots@.len() == cols@.len()
            &&& forall|i: int|
                0 <= i < cols@.len() ==> slot_of_col(ts, t0, ts.len() as int, cols@[i] as int, #[trigger] slots@[i] as nat)
            &&& forall|i: int, l: int| 0 <= i < l < slots@.len() ==> slots@[i] < slots@[l]
            &&& forall|i: int|
                0 <= i < slots@.len() ==> *old(value_slots) <= #[trigger] slots@[i] < *final(value_slots)
            &&& forall|k: int| t0 <= k < ts.len() ==> mask_nnz((#[trigger] ts[k]).spec_mask()) > 0
            &&& forall|k: int, l: int|
                t0 <= k < l < ts.len() ==> (#[trigger] ts[k]).spec_base_col() < (#[trigger] ts[l]).spec_base_col()
        },
{
    let n = cols.len();
    let ghost t0 = tiles@.len() as int;
    let ghost v0 = *value_slots as int;
    let ghost tiles0 = tiles@;
    let mut slots: Vec<usize> = Vec::with_capacity(n);
    let mut j: usize = 0;
    while j < n
        invariant
            n == cols@.len(),
            forall|a: int, b: int| 0 <= a < b < cols@.len() ==> cols@[a] < cols@[b],
            config.spec_valid(),
            j <= n,
            t0 == tiles0.len(),
            tiles0 == old(tiles)@,
            v0 == *old(value_slots),
            t0 <= tiles@.len() <= t0 + j,
            tiles@.take(t0) == tiles0,
            tiles_ok(tiles@, config),
            *value_slots == slots_total(tiles@),
            v0 <= *value_slots <= v0 + 64 * j,
            forall|c: int| tiles_cover(tiles@, t0, tiles@.len() as int, c) <==> cols_cover(cols@, j as int, c),
            slots@.len() == j,
            forall|i: int|
                0 <= i < j ==> slot_of_col(tiles@, t0, tiles@.len() as int, cols@[i] as int, #[trigger] slots@[i] as nat),
            forall|i: int, l: int| 0 <= i < l < j ==> slots@[i] < slots@[l],
            forall|i: int| 0 <= i < j ==> v0 <= #[trigger] slots@[i] < *value_slots,
            forall|k: int| t0 <= k < tiles@.len() ==> mask_nnz((#[trigger] tiles@[k]).spec_mask()) > 0,
            forall|k: int, l: int|
                t0 <= k < l < tiles@.len() ==> (#[trigger] tiles@[k]).spec_base_col() < (#[trigger] tiles@[l]).spec_base_col(),
            j < n ==> forall|k: int|
                t0 <= k < tiles@.len() ==> (#[trigger] tiles@[k]).spec_base_col() + 64 <= (cols@[j as int] / 64) * 64,
        decreases n - j,
    {
        let block = cols[j] / 64;
        let base = (block as usize) * 64;
        let start = j;
        let mut mask: u64 = 0;
        proof {
            assert forall|x: u64| x < 64 implies !bit_of(mask, x) by {
                lemma_bit_zero(x);
            }
            assert(mask_seq(0u64) =~= Seq::new(64, |b: int| false));
            crate::mask::lemma_count_zero(mask_seq(0u64));
        }
        while j < n && cols[j] / 64 == block
            invariant
                n == cols@.len(),
                forall|a: int, b: int| 0 <= a < b < cols@.len() ==> cols@[a] < cols@[b],
                start < n,
                cols@[start as int] / 64 == block,
                base == block * 64,
                start <= j <= n,
                forall|x: u64| x < 64 ==> (bit_of(mask, x) <==> exists|i: int|
                    start <= i < j && #[trigger] cols@[i] - base == x),
                mask_nnz(mask) == j - start,
                forall|i: int| start <= i < j ==> #[trigger] cols@[i] / 64 == block,
                forall|i: int| start <= i < j ==> mask_rank(mask, #[trigger] cols@[i] - base) == i - start,
                j > start ==> forall|x: u64| cols@[j - 1] - base < x < 64 ==> !bit_of(mask, x),
                j == start ==> forall|x: u64| x < 64 ==> !bit_of(mask, x),
            decreases n - j,
        {
            let bit = (cols[j] % 64) as u64;
            proof {
                assert(cols@[j as int] - base == bit);
                if j > start {
                    assert(cols@[j - 1] < cols@[j as int]);
                }
                lemma_set_high_bit(mask, bit);
                assert forall|x: u64| x < 64 implies (bit_of(mask | (1u64 << bit), x) <==> exists|i: int|
                    start <= i < j + 1 && #[trigger] cols@[i] - base == x) by {
                    assert(bit_of(mask | (1u64 << bit), x) == (x == bit || bit_of(mask, x)));
                    if x == bit {
                        assert(cols@[j as int] - base == x);
                    } else if bit_of(mask, x) {
                        let i = choose|i: int| start <= i < j && #[trigger] cols@[i] - base == x;
                        assert(start <= i < j + 1 && cols@[i] - base == x);
                    }
                    if exists|i: int| start <= i < j + 1 && #[trigger] cols@[i] - base == x {
                        let i = choose|i: int| start <= i < j + 1 && #[trigger] cols@[i] - base == x;
                        if i < j {
                            assert(bit_of(mask, x));
                        } else {
                            assert(x == bit);
                        }
                    }
                }
            }
            mask = mask | (1u64 << bit);
            j = j + 1;
        }
        let nnz = j - start;
        proof {
            lemma_mask_nnz_bound(mask);
            assert(j > start);
            assert(value_slots <= v0 + 64 * start);
            assert(u32::MAX <= usize::MAX);
        }
        let kind = if nnz <= config.sparse_max_nnz as usize {
            TileKind::Sparse
        } else if nnz >= config.dense_min_nnz as usize {
            TileKind::Dense
        } else {
            TileKind::Bitmap
        };
        let slot_count: usize = match kind {
            TileKind::Dense => 64,
            _ => nnz,
        };
        let value_offset = *value_slots;
        let new_total = match value_offset.checked_add(slot_count) {
            Some(t) => t,
            None => {
                proof {
                    assert(slot_count <= 64);
                    assert(value_offset + slot_count > usize::MAX);
                }
                return Err(HybitError::SizeOverflow);
            },
        };
        let tile = TileDesc::new(base, value_offset, mask, kind)?;
        let ghost slots_before = slots@;
        let mut e = start;
        while e < j
            invariant
                n == cols@.len(),
                forall|a: int, b: int| 0 <= a < b < cols@.len() ==> cols@[a] < cols@[b],
                start <= e <= j <= n,
                slots@.len() == e,
                slots@.take(start as int) == slots_before,
                forall|i: int| start <= i < j ==> #[trigger] cols@[i] / 64 == block,
                base == block * 64,
                value_offset + slot_count == new_total,
                slot_count == (if kind == TileKind::Dense { 64 } else { nnz }),
                nnz == j - start,
                forall|i: int|
                    start <= i < e ==> #[trigger] slots@[i] == (if kind == TileKind::Dense {
                        value_offset + (cols@[i] - base)
                    } else {
                        value_offset + (i - start)
                    }),
            decreases j - e,
        {
            let slot = match kind {
                TileKind::Dense => value_offset + (cols[e] % 64) as usize,
                _ => value_offset + (e - start),
            };
            slots.push(slot);
            proof {
                assert(slots@.take(start as int) =~= slots_before);
            }
            e = e + 1;
        }
        let ghost before = tiles@;
        tiles.push(tile);
        proof {
            lemma_slots_total_push(before, tile);
            let tl = before.len() as int;
            assert(tiles@[tl] == tile);
            assert(tile_slots(tile) == slot_count);
            assert forall|k: int| 0 <= k < tiles@.len() implies {
                &&& (#[trigger] tiles@[k]).wf()
                &&& tiles@[k].spec_kind() == config.classify(mask_nnz(tiles@[k].spec_mask()))
                &&& tiles@[k].spec_value_offset() == slots_total(tiles@.take(k))
            } by {
                if k < tl {
                    assert(tiles@[k] == before[k]);
                    assert(tiles@.take(k) == before.take(k));
                } else {
                    assert(tiles@.take(k) =~= before);
                }
            }
            assert(tiles@.take(t0) =~= tiles0) by {
                assert(tiles@.take(t0) =~= before.take(t0));
            }
            assert(tile.spec_base_col() == base) by {
                assert(base / 64 * 64 == base) by (nonlinear_arith)
                    requires
                        base == block * 64,
                ;
            }
            assert forall|c: int| tiles_cover(tiles@, t0, tiles@.len() as int, c) <==> cols_cover(
                cols@,
                j as int,
                c,
            ) by {
                if tiles_cover(tiles@, t0, tiles@.len() as int, c) {
                    let k = choose|k: int| t0 <= k < tiles@.len() && #[trigger] tile_has(tiles@[k], c);
                    if k < tl {
                        assert(tiles@[k] == before[k]);
                        assert(tile_has(before[k], c));
                        assert(tiles_cover(before, t0, tl, c));
                        assert(cols_cover(cols@, start as int, c));
                        let i = choose|i: int| 0 <= i < start && #[trigger] cols@[i] == c;
                        assert(0 <= i < j && cols@[i] == c);
                    } else {
                        assert(tiles@[k] == tile);
                        assert(base <= c < base + 64);
                        let x = (c - base) as u64;
                        assert(bit_of(mask, x));
                        let i = choose|i: int| start <= i < j && #[trigger] cols@[i] - base == x;
                        assert(cols@[i] == c);
                        assert(0 <= i < j && cols@[i] == c);
                    }
                }
                if cols_cover(cols@, j as int, c) {
                    let i = choose|i: int| 0 <= i < j && #[trigger] cols@[i] == c;
                    if i < start {
                        assert(cols_cover(cols@, start as int, c));
                        assert(tiles_cover(before, t0, tl, c));
                        let k = choose|k: int| t0 <= k < tl && #[trigger] tile_has(before[k], c);
                        assert(tiles@[k] == before[k]);
                        assert(tile_has(tiles@[k], c));
                    } else {
                        assert(cols@[i] / 64 == block);
                        let x = (c - base) as u64;
                        assert(cols@[i] - base == x);
                        assert(bit_of(mask, x));
                        assert(tile_has(tiles@[tl], c));
                    }
                }
            }
            assert forall|i: int|
                0 <= i < j implies slot_of_col(tiles@, t0, tiles@.len() as int, cols@[i] as int, #[trigger] slots@[i] as nat) by {
                if i < start {
                    assert(slots@[i] == slots_before[i]);
                    assert(slot_of_col(before, t0, before.len() as int, cols@[i] as int, slots_before[i] as nat));
                    let k = choose|k: int|
                        t0 <= k < before.len() && #[trigger] tile_has(before[k], cols@[i] as int) && slots_before[i]
                            == slot_in_tile(before[k], cols@[i] as int);
                    assert(tiles@[k] == before[k]);
                    assert(tile_has(tiles@[k], cols@[i] as int));
                } else {
                    assert(cols@[i] / 64 == block);
                    let x = (cols@[i] - base) as u64;
                    assert(bit_of(mask, x));
                    assert(tile_has(tiles@[tl], cols@[i] as int));
                    assert(mask_rank(mask, cols@[i] - base) == i - start);
                    assert(slots@[i] == slot_in_tile(tiles@[tl], cols@[i] as int));
                }
            }
            assert forall|i: int, l: int| 0 <= i < l < j implies slots@[i] < slots@[l] by {
                if l < start {
                    assert(slots@[i] == slots_before[i]);
                    assert(slots@[l] == slots_before[l]);
                } else if i < start {
                    assert(slots@[i] == slots_before[i]);
                } else {
                    assert(cols@[i] < cols@[l]);
                    assert(cols@[i] / 64 == block);
                    assert(cols@[l] / 64 == block);
                }
            }
            assert forall|i: int| 0 <= i < j implies v0 <= #[trigger] slots@[i] < new_total by {
                if i < start {
                    assert(slots@[i] == slots_before[i]);
                } else {
                    assert(cols@[i] / 64 == block);
                }
            }
        }
        proof {
            let tl = tiles@.len() - 1;
            assert(tiles@[tl].spec_base_col() == block * 64);
            assert forall|k: int| t0 <= k < tiles@.len() implies mask_nnz((#[trigger] tiles@[k]).spec_mask()) > 0 by {
                if k < tl {
                    assert(tiles@[k] == before[k]);
                }
            }
            assert forall|k: int, l: int|
                t0 <= k < l < tiles@.len() implies (#[trigger] tiles@[k]).spec_base_col() < (
                #[trigger] tiles@[l]).spec_base_col() by {
                assert(tiles@[k] == before[k]);
                if l < tl {
                    assert(tiles@[l] == before[l]);
                }
            }
            if j < n {
                assert(cols@[j - 1] < cols@[j as int]);
                assert(cols@[j - 1] / 64 == block);
                assert(cols@[j as int] / 64 != block);
                assert(block * 64 + 64 <= (cols@[j as int] / 64) * 64) by (nonlinear_arith)
                    requires
                        cols@[j - 1] < cols@[j as int],
                        cols@[j - 1] / 64 == block,
                        cols@[j as int] / 64 != block,
                ;
                assert forall|k: int| t0 <= k < tiles@.len() implies (#[trigger] tiles@[k]).spec_base_col() + 64
                    <= (cols@[j as int] / 64) * 64 by {
                    if k < tl {
                        assert(tiles@[k] == before[k]);
                    }
                }
            }
        }
        *value_slots = new_total;
    }
    Ok(slots)
}

/// Density thresholds that decide the kind of each tile.
#[derive(Clone, Copy, Debug)]
pub struct AbtmConfig {
    pub sparse_max_nnz: u8,
    pub dense_min_nnz: u8,
}

impl Default for AbtmConfig {
    fn default() -> (config: Self)
        ensures
            config.sparse_max_nnz == 8,
            config.dense_min_nnz == 40,
    {
        AbtmConfig { sparse_max_nnz: 8, dense_min_nnz: 40 }
    }
}

impl AbtmConfig {
    /// The thresholds are usable: `0 < sparse_max_nnz < dense_min_nnz <= 64`.
    pub open spec fn spec_valid(self) -> bool {
        self.sparse_max_nnz != 0 && self.dense_min_nnz <= 64 && self.sparse_max_nnz
            < self.dense_min_nnz
    }

    /// The kind a tile with `nnz` entries gets under these thresholds.
    pub open spec fn classify(self, nnz: nat) -> TileKind {
        if nnz <= self.sparse_max_nnz {
            TileKind::Sparse
        } else if nnz >= self.dense_min_nnz {
            TileKind::Dense
        } else {
            TileKind::Bitmap
        }
    }

    /// Returns the configuration unchanged when its thresholds are usable.
    pub fn validate(self) -> (result: Result<Self, HybitError>)
        ensures
            result.is_ok() <==> self.spec_valid(),
            result matches Ok(c) ==> c == self,
            result matches Err(e) ==> e == HybitError::InvalidArgument(
                "invalid ABTM density thresholds",
            ),
    {
        if self.sparse_max_nnz == 0 || self.dense_min_nnz as usize > TILE_WIDTH
            || self.sparse_max_nnz >= self.dense_min_nnz {
            return Err(HybitError::InvalidArgument("invalid ABTM density thresholds"));
        }
        Ok(self)
    }
}

/// Size and storage statistics of an ABTM matrix.
#[derive(Clone, Debug, Default)]
pub struct AbtmStats {
    pub nrows: usize,
    pub ncols: usize,
    pub matrix_nnz: usize,
    pub tiles: usize,
    pub sparse_tiles: usize,
    pub bitmap_tiles: usize,
    pub dense_tiles: usize,
    pub value_slots: usize,
    pub metadata_bytes: usize,
}

impl AbtmStats {
    /// Metadata bytes plus eight bytes per value slot.
    pub fn total_estimated_bytes(&self) -> (bytes: usize)
        requires
            self.metadata_bytes + self.value_slots * 8 <= usize::MAX,
        ensures
            bytes == self.metadata_bytes + self.value_slots * 8,
    {
        self.metadata_bytes + self.value_slots * 8
    }
}

} // verus!

verus! {

/// Number of tiles of each kind in a sequence of tiles.
pub open spec fn count_kind(ts: Seq<TileDesc>, kind: TileKind) -> nat
    decreases ts.len(),
{
    if ts.len() == 0 {
        0
    } else {
        count_kind(ts.drop_last(), kind) + if ts.last().spec_kind() == kind {
            1nat
        } else {
            0nat
        }
    }
}

/// The tile topology of an ABTM matrix: for every row, the range of its
/// tiles; for every tile, its column bitmap, kind and first value slot.
/// The numerical values live beside it, at the slots this topology assigns.
#[derive(Clone, Debug)]
pub struct AbtmTopology {
    nrows: usize,
    ncols: usize,
    row_tile_ptr: Vec<u32>,
    tiles: Vec<TileDesc>,
    value_slots: usize,
    matrix_nnz: usize,
}

impl AbtmTopology {
    pub closed spec fn spec_nrows(&self) -> nat {
        self.nrows as nat
    }

    pub closed spec fn spec_ncols(&self) -> nat {
        self.ncols as nat
    }

    pub closed spec fn spec_tiles(&self) -> Seq<TileDesc> {
        self.tiles@
    }

    pub closed spec fn spec_row_ptr(&self) -> Seq<u32> {
        self.row_tile_ptr@
    }

    pub closed spec fn spec_value_slots(&self) -> nat {
        self.value_slots as nat
    }

    pub closed spec fn spec_matrix_nnz(&self) -> nat {
        self.matrix_nnz as nat
    }

    /// Whether one of the tiles of row `r` records column `c`.
    pub closed spec fn row_has(&self, r: int, c: int) -> bool {
        tiles_cover(self.tiles@, self.row_tile_ptr@[r] as int, self.row_tile_ptr@[r + 1] as int, c)
    }

    /// Row ranges are consistent, every tile is well formed, every recorded
    /// column is below `ncols`, and the sizes fit in `usize`.
    pub closed spec fn wf(&self) -> bool {
        &&& self.row_tile_ptr@.len() == self.nrows + 1
        &&& self.row_tile_ptr@[0] == 0
        &&& forall|r: int| 0 <= r < self.nrows ==> #[trigger] self.row_tile_ptr@[r] <= self.row_tile_ptr@[r + 1]
        &&& self.row_tile_ptr@[self.nrows as int] == self.tiles@.len()
        &&& forall|k: int| 0 <= k < self.tiles@.len() ==> (#[trigger] self.tiles@[k]).wf()
        &&& forall|r: int, c: int| 0 <= r < self.nrows && #[trigger] self.row_has(r, c) ==> 0 <= c < self.ncols
        &&& self.value_slots == slots_total(self.tiles@)
        &&& (self.nrows + 1) * 4 + self.tiles@.len() * 16 <= usize::MAX
    }

    /// Builds the tiles of a matrix whose rows hold the given canonical
    /// (strictly increasing) column lists. Also returns, for every entry of
    /// every row, the slot its value occupies in the value array.
    #[verifier::rlimit(100)]
    pub fn from_canonical_rows(
        nrows: usize,
        ncols: usize,
        rows: &Vec<Vec<u32>>,
        config: AbtmConfig,
    ) -> (result: Result<(Self, Vec<Vec<usize>>), HybitError>)
        requires
            rows@.len() == nrows,
            canonical_rows(rows@, ncols as nat),
        ensures
            !config.spec_valid() ==> result == Err::<(Self, Vec<Vec<usize>>), HybitError>(
                HybitError::InvalidArgument("invalid ABTM density thresholds"),
            ),
            config.spec_valid() && result.is_err() ==> result == Err::<
                (Self, Vec<Vec<usize>>),
                HybitError,
            >(HybitError::SizeOverflow),
            config.spec_valid() && 64 * total_entries(rows@) <= u32::MAX && (nrows + 1) * 4 + 16
                * total_entries(rows@) <= usize::MAX ==> result.is_ok(),
            result matches Ok((topo, slots)) ==> {
                &&& topo.wf()
                &&& topo.spec_nrows() == nrows
                &&& topo.spec_ncols() == ncols
                &&& topo.spec_matrix_nnz() == total_entries(rows@)
                &&& tiles_ok(topo.spec_tiles(), config)
                &&& forall|r: int, c: int|
                    0 <= r < nrows ==> (#[trigger] topo.row_has(r, c) <==> cols_cover(
                        rows@[r]@,
                        rows@[r]@.len() as int,
                        c,
                    ))
                &&& slots@.len() == nrows
                &&& forall|r: int| 0 <= r < nrows ==> (#[trigger] slots@[r])@.len() == rows@[r]@.len()
                &&& forall|r: int, i: int|
                    0 <= r < nrows && 0 <= i < rows@[r]@.len() ==> slot_of_col(
                        topo.spec_tiles(),
                        topo.spec_row_ptr()[r] as int,
                        topo.spec_row_ptr()[r + 1] as int,
                        rows@[r]@[i] as int,
                        #[trigger] slots@[r]@[i] as nat,
                    )
                &&& forall|r: int, i: int, l: int|
                    0 <= r < nrows && 0 <= i < l < rows@[r]@.len() ==> #[trigger] slots@[r]@[i]
                        < #[trigger] slots@[r]@[l]
                &&& forall|r: int, i: int|
                    0 <= r < nrows && 0 <= i < rows@[r]@.len() ==> #[trigger] slots@[r]@[i]
                        < topo.spec_value_slots()
                &&& forall|r: int, k: int, l: int|
                    #![trigger topo.spec_row_ptr()[r], topo.spec_tiles()[k], topo.spec_tiles()[l]]
                    0 <= r < nrows && topo.spec_row_ptr()[r] <= k < l < topo.spec_row_ptr()[r + 1] ==> topo.spec_tiles()[k].spec_base_col()
                        < topo.spec_tiles()[l].spec_base_col()
                &&& forall|k: int|
                    0 <= k < topo.spec_tiles().len() ==> mask_nnz((#[trigger] topo.spec_tiles()[k]).spec_mask()) > 0
            },
    {
        config.validate()?;
        let mut row_tile_ptr: Vec<u32> = Vec::new();
        row_tile_ptr.push(0);
        let mut tiles: Vec<TileDesc> = Vec::new();
        let mut value_slots: usize = 0;
        let mut matrix_nnz: usize = 0;
        let mut all_slots: Vec<Vec<usize>> = Vec::new();
        let mut r: usize = 0;
        proof {
            assert(rows@.take(0) =~= Seq::<Vec<u32>>::empty());
        }
        while r < nrows
            invariant
                rows@.len() == nrows,
                canonical_rows(rows@, ncols as nat),
                config.spec_valid(),
                r <= nrows,
                row_tile_ptr@.len() == r + 1,
                row_tile_ptr@[0] == 0,
                forall|q: int| 0 <= q < r ==> #[trigger] row_tile_ptr@[q] <= row_tile_ptr@[q + 1],
                row_tile_ptr@[r as int] == tiles@.len(),
                tiles_ok(tiles@, config),
                value_slots == slots_total(tiles@),
                matrix_nnz == total_entries(rows@.take(r as int)),
                value_slots <= 64 * total_entries(rows@.take(r as int)),
                tiles@.len() <= total_entries(rows@.take(r as int)),
                rows_covered(tiles@, row_tile_ptr@, rows@, r as int),
                slots_placed(tiles@, row_tile_ptr@, rows@, all_slots@, r as int, value_slots as nat),
                rows_ordered(tiles@, row_tile_ptr@, r as int),
            decreases nrows - r,
        {
            let ghost tiles_before = tiles@;
            let ghost vs_before = value_slots;
            let ghost slots_before = all_slots@;
            let cols = &rows[r];
            proof {
                assert(canonical_row(rows@[r as int]@, ncols as nat));
                assert(rows@.take(r + 1).drop_last() =~= rows@.take(r as int));
            }
            let row_slots = match append_row_tiles(cols, config, &mut tiles, &mut value_slots) {
                Ok(s) => s,
                Err(e) => {
                    proof {
                        crate::abtm::lemma_total_entries_prefix(rows@, r + 1);
                        assert(rows@.take(r + 1).last() == rows@[r as int]);
                    }
                    return Err(e);
                },
            };
            matrix_nnz = match matrix_nnz.checked_add(cols.len()) {
                Some(m) => m,
                None => {
                    proof {
                        crate::abtm::lemma_total_entries_prefix(rows@, r + 1);
                    }
                    return Err(HybitError::SizeOverflow);
                },
            };
            if tiles.len() > u32::MAX as usize {
                proof {
                    crate::abtm::lemma_total_entries_prefix(rows@, r + 1);
                }
                return Err(HybitError::SizeOverflow);
            }
            let ghost ptr_before = row_tile_ptr@;
            row_tile_ptr.push(tiles.len() as u32);
            all_slots.push(row_slots);
            proof {
                lemma_extend_ordered(tiles_before, tiles@, ptr_before, row_tile_ptr@, r as int);
                assert(all_slots@.take(r as int) =~= slots_before);
                lemma_extend_rows(
                    tiles_before,
                    tiles@,
                    row_tile_ptr@,
                    rows@,
                    r as int,
                    slots_before,
                    row_slots@,
                    all_slots@,
                    vs_before as nat,
                    value_slots as nat,
                );
            }
            r = r + 1;
        }
        proof {
            assert(rows@.take(nrows as int) =~= rows@);
        }
        let metadata = (nrows as u128 + 1) * 4 + (tiles.len() as u128) * 16;
        if metadata > usize::MAX as u128 {
            return Err(HybitError::SizeOverflow);
        }
        let topo = AbtmTopology { nrows, ncols, row_tile_ptr, tiles, value_slots, matrix_nnz };
        proof {
            assert forall|k: int| 0 <= k < topo.tiles@.len() implies (#[trigger] topo.tiles@[k]).wf() by {}
            assert forall|q: int, c: int|
                0 <= q < nrows implies (#[trigger] topo.row_has(q, c) <==> cols_cover(
                    rows@[q]@,
                    rows@[q]@.len() as int,
                    c,
                )) by {
                assert(topo.row_has(q, c) == tiles_cover(topo.tiles@, topo.row_tile_ptr@[q] as int, topo.row_tile_ptr@[q + 1] as int, c));
            }
            assert forall|q: int, c: int|
                0 <= q < nrows && #[trigger] topo.row_has(q, c) implies 0 <= c < ncols by {
                assert(tiles_cover(topo.tiles@, topo.row_tile_ptr@[q] as int, topo.row_tile_ptr@[q + 1] as int, c));
                assert(cols_cover(rows@[q]@, rows@[q]@.len() as int, c));
                let i = choose|i: int| 0 <= i < rows@[q]@.len() && #[trigger] rows@[q]@[i] == c;
                assert(canonical_row(rows@[q]@, ncols as nat));
            }
        }
        Ok((topo, all_slots))
    }
}

impl AbtmTopology {
    /// Number of matrix rows.
    pub fn nrows(&self) -> (n: usize)
        ensures
            n == self.spec_nrows(),
    {
        self.nrows
    }

    /// Number of matrix columns.
    pub fn ncols(&self) -> (n: usize)
        ensures
            n == self.spec_ncols(),
    {
        self.ncols
    }

    /// The tile descriptors, row after row.
    pub fn tiles(&self) -> (t: &[TileDesc])
        ensures
            t@ == self.spec_tiles(),
    {
        self.tiles.as_slice()
    }

    /// Tile range of every row: the tiles of row `r` are `row_tile_ptr[r]..row_tile_ptr[r + 1]`.
    pub fn row_tile_ptr(&self) -> (p: &[u32])
        ensures
            p@ == self.spec_row_ptr(),
    {
        self.row_tile_ptr.as_slice()
    }

    /// Number of value slots the tiles occupy.
    pub fn value_slots(&self) -> (n: usize)
        ensures
            n == self.spec_value_slots(),
    {
        self.value_slots
    }

    /// Number of stored nonzero entries.
    pub fn matrix_nnz(&self) -> (n: usize)
        ensures
            n == self.spec_matrix_nnz(),
    {
        self.matrix_nnz
    }

    /// Adds to `mask` every column that a row of the mask reaches through one
    /// of its stored entries. The matrix must be square and the mask must
    /// have one bit per row.
    #[verifier::rlimit(100)]
    pub fn expand_mask_one_hop(&self, mask: &DofMask) -> (result: Result<DofMask, HybitError>)
        requires
            self.wf(),
            mask.wf(),
        ensures
            result.is_ok() <==> (self.spec_nrows() == self.spec_ncols() && mask.spec_len()
                == self.spec_nrows()),
            self.spec_nrows() != self.spec_ncols() ==> result == Err::<DofMask, HybitError>(
                HybitError::InvalidMatrix("mask expansion requires a square ABTM matrix"),
            ),
            self.spec_nrows() == self.spec_ncols() && mask.spec_len() != self.spec_nrows()
                ==> result == Err::<DofMask, HybitError>(
                HybitError::DimensionMismatch {
                    expected: self.spec_nrows() as usize,
                    actual: mask.spec_len() as usize,
                },
            ),
            result matches Ok(expanded) ==> {
                &&& expanded.wf()
                &&& expanded.spec_len() == mask.spec_len()
                &&& expanded@ == Seq::new(
                    mask.spec_len(),
                    |c: int|
                        mask@[c] || exists|r: int|
                            0 <= r < mask.spec_len() && mask@[r] && #[trigger] self.row_has(r, c),
                )
            },
    {
        if self.nrows != self.ncols {
            return Err(HybitError::InvalidMatrix("mask expansion requires a square ABTM matrix"));
        }
        if mask.len() != self.nrows {
            return Err(HybitError::DimensionMismatch { expected: self.nrows, actual: mask.len() });
        }
        let len = self.nrows;
        let mut expanded = mask.copy();
        let rows = mask.indices();
        let mut q: usize = 0;
        while q < rows.len()
            invariant
                self.wf(),
                len == self.nrows,
                len == self.ncols,
                mask.spec_len() == len,
                expanded.wf(),
                expanded.spec_len() == len,
                crate::mask::lists_true_positions(rows@, mask@),
                q <= rows@.len(),
                expanded@ == Seq::new(
                    len as nat,
                    |c: int|
                        mask@[c] || exists|p: int|
                            0 <= p < q && #[trigger] self.row_has(rows@[p] as int, c),
                ),
            decreases rows@.len() - q,
        {
            let row = rows[q];
            proof {
                lemma_ptr_monotone(self.row_tile_ptr@, row + 1, len as int);
            }
            let start = self.row_tile_ptr[row] as usize;
            let end = self.row_tile_ptr[row + 1] as usize;
            let mut k = start;
            let ghost before = expanded@;
            while k < end
                invariant
                    self.wf(),
                    len == self.nrows,
                    len == self.ncols,
                    row < len,
                    start == self.row_tile_ptr@[row as int],
                    end == self.row_tile_ptr@[row + 1],
                    start <= k <= end,
                    end <= self.tiles@.len(),
                    expanded.wf(),
                    expanded.spec_len() == len,
                    expanded@ == Seq::new(
                        len as nat,
                        |c: int| before[c] || tiles_cover(self.tiles@, start as int, k as int, c),
                    ),
                decreases end - k,
            {
                let tile = self.tiles[k];
                let w = tile.base_col() / TILE_WIDTH;
                let ghost prev = expanded@;
                expanded.or_word(w, tile.mask);
                proof {
                    assert forall|c: int| 0 <= c < len implies #[trigger] expanded@[c] == (before[c]
                        || tiles_cover(self.tiles@, start as int, k + 1, c)) by {
                        let added = c / 64 == w && w < word_count(len as nat) && bit_of(
                            tile.mask,
                            (c % 64) as u64,
                        );
                        assert(expanded@[c] == (prev[c] || added));
                        if tile_has(tile, c) {
                            assert(c / 64 == w);
                            assert(w < word_count(len as nat));
                            assert(added);
                            assert(tile_has(self.tiles@[k as int], c));
                        }
                        if added {
                            assert(tile_has(tile, c));
                            assert(tile_has(self.tiles@[k as int], c));
                        }
                        if tiles_cover(self.tiles@, start as int, k + 1, c) {
                            let k2 = choose|k2: int|
                                start <= k2 < k + 1 && #[trigger] tile_has(self.tiles@[k2], c);
                            if k2 < k {
                                assert(tiles_cover(self.tiles@, start as int, k as int, c));
                            }
                        }
                        if tiles_cover(self.tiles@, start as int, k as int, c) {
                            let k2 = choose|k2: int|
                                start <= k2 < k && #[trigger] tile_has(self.tiles@[k2], c);
                            assert(start <= k2 < k + 1);
                        }
                    }
                    assert(expanded@ =~= Seq::new(
                        len as nat,
                        |c: int| before[c] || tiles_cover(self.tiles@, start as int, k + 1, c),
                    ));
                }
                k = k + 1;
            }
            proof {
                assert forall|c: int| 0 <= c < len implies #[trigger] expanded@[c] == (mask@[c]
                    || exists|p: int| 0 <= p < q + 1 && #[trigger] self.row_has(rows@[p] as int, c)) by {
                    assert(self.row_has(row as int, c) == tiles_cover(self.tiles@, start as int, end as int, c));
                    if exists|p: int| 0 <= p < q + 1 && #[trigger] self.row_has(rows@[p] as int, c) {
                        let p = choose|p: int| 0 <= p < q + 1 && #[trigger] self.row_has(rows@[p] as int, c);
                        if p < q {
                            assert(before[c]);
                        }
                    }
                    if before[c] && !mask@[c] {
                        let p = choose|p: int| 0 <= p < q && #[trigger] self.row_has(rows@[p] as int, c);
                        assert(0 <= p < q + 1);
                    }
                    if self.row_has(row as int, c) {
                        assert(rows@[q as int] == row);
                    }
                }
                assert(expanded@ =~= Seq::new(
                    len as nat,
                    |c: int|
                        mask@[c] || exists|p: int|
                            0 <= p < q + 1 && #[trigger] self.row_has(rows@[p] as int, c),
                ));
            }
            q = q + 1;
        }
        proof {
            assert forall|c: int| 0 <= c < len implies #[trigger] expanded@[c] == (mask@[c]
                || exists|r: int| 0 <= r < mask.spec_len() && mask@[r] && #[trigger] self.row_has(r, c)) by {
                if exists|p: int| 0 <= p < rows@.len() && #[trigger] self.row_has(rows@[p] as int, c) {
                    let p = choose|p: int| 0 <= p < rows@.len() && #[trigger] self.row_has(rows@[p] as int, c);
                    let r = rows@[p] as int;
                    assert(0 <= r < mask.spec_len() && mask@[r]);
                }
                if exists|r: int| 0 <= r < mask.spec_len() && mask@[r] && #[trigger] self.row_has(r, c) {
                    let r = choose|r: int| 0 <= r < mask.spec_len() && mask@[r] && #[trigger] self.row_has(r, c);
                    assert(rows@.contains(r as usize));
                    let p = choose|p: int| 0 <= p < rows@.len() && rows@[p] == r as usize;
                    assert(self.row_has(rows@[p] as int, c));
                }
            }
            assert(expanded@ =~= Seq::new(
                mask.spec_len(),
                |c: int|
                    mask@[c] || exists|r: int|
                        0 <= r < mask.spec_len() && mask@[r] && #[trigger] self.row_has(r, c),
            ));
        }
        Ok(expanded)
    }

    /// Size and storage statistics: tile counts by kind, value slots and
    /// metadata bytes (4 per row pointer and 16 per tile).
    pub fn stats(&self) -> (stats: AbtmStats)
        requires
            self.wf(),
        ensures
            stats.nrows == self.spec_nrows(),
            stats.ncols == self.spec_ncols(),
            stats.matrix_nnz == self.spec_matrix_nnz(),
            stats.tiles == self.spec_tiles().len(),
            stats.sparse_tiles == count_kind(self.spec_tiles(), TileKind::Sparse),
            stats.bitmap_tiles == count_kind(self.spec_tiles(), TileKind::Bitmap),
            stats.dense_tiles == count_kind(self.spec_tiles(), TileKind::Dense),
            stats.value_slots == self.spec_value_slots(),
            stats.metadata_bytes == (self.spec_nrows() + 1) * 4 + self.spec_tiles().len() * 16,
    {
        let mut sparse: usize = 0;
        let mut bitmap: usize = 0;
        let mut dense: usize = 0;
        let mut k: usize = 0;
        while k < self.tiles.len()
            invariant
                self.wf(),
                k <= self.tiles@.len(),
                sparse == count_kind(self.tiles@.take(k as int), TileKind::Sparse),
                bitmap == count_kind(self.tiles@.take(k as int), TileKind::Bitmap),
                dense == count_kind(self.tiles@.take(k as int), TileKind::Dense),
                sparse + bitmap + dense == k,
            decreases self.tiles@.len() - k,
        {
            proof {
                assert(self.tiles@.take(k + 1).drop_last() =~= self.tiles@.take(k as int));
                assert(self.tiles@.take(k + 1).last() == self.tiles@[k as int]);
                assert(self.tiles@[k as int].wf());
            }
            match self.tiles[k].kind() {
                TileKind::Sparse => sparse = sparse + 1,
                TileKind::Bitmap => bitmap = bitmap + 1,
                TileKind::Dense => dense = dense + 1,
            }
            k = k + 1;
        }
        proof {
            assert(self.tiles@.take(k as int) =~= self.tiles@);
        }
        AbtmStats {
            nrows: self.nrows,
            ncols: self.ncols,
            matrix_nnz: self.matrix_nnz,
            tiles: self.tiles.len(),
            sparse_tiles: sparse,
            bitmap_tiles: bitmap,
            dense_tiles: dense,
            value_slots: self.value_slots,
            metadata_bytes: self.row_tile_ptr.len() * 4 + self.tiles.len() * 16,
        }
    }
}

/// The tiles of each of the first `r` rows record exactly that row's columns.
pub open spec fn rows_covered(tiles: Seq<TileDesc>, ptr: Seq<u32>, rows: Seq<Vec<u32>>, r: int) -> bool {
    forall|q: int, c: int|
        0 <= q < r ==> (#[trigger] tiles_cover(tiles, ptr[q] as int, ptr[q + 1] as int, c)
            <==> cols_cover(rows[q]@, rows[q]@.len() as int, c))
}

/// The tiles of each of the first `r` rows come in increasing column order
/// and hold at least one entry each.
pub open spec fn rows_ordered(tiles: Seq<TileDesc>, ptr: Seq<u32>, r: int) -> bool {
    &&& forall|q: int, k: int, l: int|
        0 <= q < r && ptr[q] <= k < l < ptr[q + 1] ==> (#[trigger] tiles[k]).spec_base_col() < (
        #[trigger] tiles[l]).spec_base_col() && #[trigger] ptr[q] >= 0
    &&& forall|k: int| 0 <= k < ptr[r] ==> mask_nnz((#[trigger] tiles[k]).spec_mask()) > 0
}

proof fn lemma_extend_ordered(tiles_before: Seq<TileDesc>, tiles: Seq<TileDesc>, ptr_before: Seq<u32>, ptr: Seq<u32>, r: int)
    requires
        0 <= r,
        ptr_before.len() == r + 1,
        ptr == ptr_before.push(tiles.len() as u32),
        ptr_before[r] == tiles_before.len(),
        forall|q: int| 0 <= q < r ==> #[trigger] ptr_before[q] <= ptr_before[q + 1],
        tiles_before.len() <= tiles.len() <= u32::MAX,
        tiles.take(tiles_before.len() as int) == tiles_before,
        rows_ordered(tiles_before, ptr_before, r),
        forall|k: int| tiles_before.len() <= k < tiles.len() ==> mask_nnz((#[trigger] tiles[k]).spec_mask()) > 0,
        forall|k: int, l: int|
            tiles_before.len() <= k < l < tiles.len() ==> (#[trigger] tiles[k]).spec_base_col() < (
            #[trigger] tiles[l]).spec_base_col(),
    ensures
        rows_ordered(tiles, ptr, r + 1),
{
    let t0 = tiles_before.len() as int;
    assert forall|q: int| 0 <= q <= r implies #[trigger] ptr_before[q] <= ptr_before[r] by {
        crate::abtm::lemma_ptr_mono(ptr_before, q, r);
    }
    assert forall|q: int, k: int, l: int|
        0 <= q < r + 1 && ptr[q] <= k < l < ptr[q + 1] implies (#[trigger] tiles[k]).spec_base_col() < (
        #[trigger] tiles[l]).spec_base_col() && #[trigger] ptr[q] >= 0 by {
        if q < r {
            assert(ptr[q] == ptr_before[q] && ptr[q + 1] == ptr_before[q + 1]);
            assert(ptr_before[q + 1] <= ptr_before[r]);
            assert(tiles[k] == tiles_before[k] && tiles[l] == tiles_before[l]);
        }
    }
    assert forall|k: int| 0 <= k < ptr[r + 1] implies mask_nnz((#[trigger] tiles[k]).spec_mask()) > 0 by {
        if k < t0 {
            assert(tiles[k] == tiles_before[k]);
        }
    }
}

proof fn lemma_ptr_mono(ptr: Seq<u32>, q: int, r: int)
    requires
        0 <= q <= r < ptr.len(),
        forall|i: int| 0 <= i < r ==> #[trigger] ptr[i] <= ptr[i + 1],
    ensures
        ptr[q] <= ptr[r],
    decreases r - q,
{
    if q < r {
        lemma_ptr_mono(ptr, q + 1, r);
    }
}

/// For each of the first `r` rows, every entry has a slot inside one of the
/// row's tiles; the slots of a row increase and stay below `total`.
pub open spec fn slots_placed(
    tiles: Seq<TileDesc>,
    ptr: Seq<u32>,
    rows: Seq<Vec<u32>>,
    slots: Seq<Vec<usize>>,
    r: int,
    total: nat,
) -> bool {
    &&& slots.len() == r
    &&& forall|q: int| 0 <= q < r ==> (#[trigger] slots[q])@.len() == rows[q]@.len()
    &&& forall|q: int, i: int|
        0 <= q < r && 0 <= i < rows[q]@.len() ==> slot_of_col(
            tiles,
            ptr[q] as int,
            ptr[q + 1] as int,
            rows[q]@[i] as int,
            #[trigger] slots[q]@[i] as nat,
        )
    &&& forall|q: int, i: int, l: int|
        0 <= q < r && 0 <= i < l < rows[q]@.len() ==> #[trigger] slots[q]@[i] < #[trigger] slots[q]@[l]
    &&& forall|q: int, i: int| 0 <= q < r && 0 <= i < rows[q]@.len() ==> #[trigger] slots[q]@[i] < total
}

/// Appending the tiles and slots of row `r` extends both row facts to `r + 1`.
proof fn lemma_extend_rows(
    tiles_before: Seq<TileDesc>,
    tiles: Seq<TileDesc>,
    ptr: Seq<u32>,
    rows: Seq<Vec<u32>>,
    r: int,
    slots_before: Seq<Vec<usize>>,
    row_slots: Seq<usize>,
    all_slots: Seq<Vec<usize>>,
    total_before: nat,
    total: nat,
)
    requires
        0 <= r < rows.len(),
        ptr.len() == r + 2,
        forall|q: int| 0 <= q < r + 1 ==> #[trigger] ptr[q] <= ptr[q + 1],
        ptr[r] == tiles_before.len(),
        ptr[r + 1] == tiles.len(),
        tiles.take(tiles_before.len() as int) == tiles_before,
        rows_covered(tiles_before, ptr, rows, r),
        forall|c: int| tiles_cover(tiles, ptr[r] as int, ptr[r + 1] as int, c) <==> cols_cover(rows[r]@, rows[r]@.len() as int, c),
        slots_placed(tiles_before, ptr, rows, slots_before, r, total_before),
        total_before <= total,
        row_slots.len() == rows[r]@.len(),
        forall|i: int|
            0 <= i < rows[r]@.len() ==> slot_of_col(tiles, ptr[r] as int, tiles.len() as int, rows[r]@[i] as int, #[trigger] row_slots[i] as nat),
        forall|i: int, l: int| 0 <= i < l < row_slots.len() ==> row_slots[i] < row_slots[l],
        forall|i: int| 0 <= i < row_slots.len() ==> #[trigger] row_slots[i] < total,
        all_slots.len() == r + 1,
        all_slots.take(r) == slots_before,
        all_slots[r]@ == row_slots,
    ensures
        rows_covered(tiles, ptr, rows, r + 1),
        slots_placed(tiles, ptr, rows, all_slots, r + 1, total),
{
    let t0 = tiles_before.len() as int;
    assert forall|k: int| 0 <= k < t0 implies tiles[k] == tiles_before[k] by {
        assert(tiles.take(t0)[k] == tiles_before[k]);
    }
    assert forall|q: int| 0 <= q < r implies all_slots[q] == slots_before[q] by {
        assert(all_slots.take(r)[q] == slots_before[q]);
    }
    assert forall|q: int, c: int|
        0 <= q < r + 1 implies (#[trigger] tiles_cover(tiles, ptr[q] as int, ptr[q + 1] as int, c)
        <==> cols_cover(rows[q]@, rows[q]@.len() as int, c)) by {
        if q < r {
            assert(ptr[q + 1] <= t0) by {
                lemma_ptr_monotone(ptr, q + 1, r);
            }
            if tiles_cover(tiles, ptr[q] as int, ptr[q + 1] as int, c) {
                let k = choose|k: int| ptr[q] <= k < ptr[q + 1] && #[trigger] tile_has(tiles[k], c);
                assert(tile_has(tiles_before[k], c));
                assert(tiles_cover(tiles_before, ptr[q] as int, ptr[q + 1] as int, c));
            }
            if tiles_cover(tiles_before, ptr[q] as int, ptr[q + 1] as int, c) {
                let k = choose|k: int| ptr[q] <= k < ptr[q + 1] && #[trigger] tile_has(tiles_before[k], c);
                assert(tile_has(tiles[k], c));
            }
        }
    }
    assert forall|q: int, i: int|
        0 <= q < r + 1 && 0 <= i < rows[q]@.len() implies slot_of_col(
        tiles,
        ptr[q] as int,
        ptr[q + 1] as int,
        rows[q]@[i] as int,
        #[trigger] all_slots[q]@[i] as nat,
    ) by {
        let c = rows[q]@[i] as int;
        if q < r {
            assert(ptr[q + 1] <= t0) by {
                lemma_ptr_monotone(ptr, q + 1, r);
            }
            let sl = all_slots[q]@[i] as nat;
            assert(sl == slots_before[q]@[i] as nat);
            assert(slot_of_col(tiles_before, ptr[q] as int, ptr[q + 1] as int, c, sl));
            let k = choose|k: int|
                ptr[q] <= k < ptr[q + 1] && #[trigger] tile_has(tiles_before[k], c) && sl == slot_in_tile(tiles_before[k], c);
            assert(tiles[k] == tiles_before[k]);
            assert(tile_has(tiles[k], c));
        } else {
            assert(all_slots[q]@[i] == row_slots[i]);
        }
    }
    assert forall|q: int, i: int| 0 <= q < r + 1 && 0 <= i < rows[q]@.len() implies #[trigger] all_slots[q]@[i] < total by {
        if q == r {
            assert(all_slots[q]@[i] == row_slots[i]);
        }
    }
    assert forall|q: int, i: int, l: int|
        0 <= q < r + 1 && 0 <= i < l < rows[q]@.len() implies #[trigger] all_slots[q]@[i] < #[trigger] all_slots[q]@[l] by {
        if q == r {
            assert(all_slots[q]@[i] == row_slots[i]);
            assert(all_slots[q]@[l] == row_slots[l]);
        }
    }
    assert forall|q: int| 0 <= q < r + 1 implies (#[trigger] all_slots[q])@.len() == rows[q]@.len() by {}
}

/// The row pointer of a well-formed prefix is monotone over any range.
proof fn lemma_ptr_monotone(ptr: Seq<u32>, a: int, b: int)
    requires
        0 <= a <= b < ptr.len(),
        forall|q: int| 0 <= q < b ==> #[trigger] ptr[q] <= ptr[q + 1],
    ensures
        ptr[a] <= ptr[b],
    decreases b - a,
{
    if a < b {
        lemma_ptr_monotone(ptr, a, b - 1);
    }
}

/// The entries of a prefix of the rows never exceed the entries of all rows.
proof fn lemma_total_entries_prefix(rows: Seq<Vec<u32>>, r: int)
    requires
        0 <= r <= rows.len(),
    ensures
        total_entries(rows.take(r)) <= total_entries(rows),
    decreases rows.len() - r,
{
    if r < rows.len() {
        lemma_total_entries_prefix(rows, r + 1);
        assert(rows.take(r + 1).drop_last() =~= rows.take(r));
    } else {
        assert(rows.take(r) =~= rows);
    }
}

} // verus!

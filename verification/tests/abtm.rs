use hybit::abtm::{AbtmConfig, AbtmStats, AbtmTopology, TileDesc, TileKind, TILE_WIDTH};
use hybit::mask::DofMask;
use hybit::HybitError;

#[test]
fn tile_descriptor_is_16_bytes() {
    assert_eq!(std::mem::size_of::<TileDesc>(), 16);
}

fn tridiagonal_rows() -> Vec<Vec<u32>> {
    vec![vec![0, 1], vec![0, 1, 2], vec![1, 2, 3], vec![2, 3]]
}

#[test]
fn bitmap_topology_expands_one_hop() {
    let (topology, _) =
        AbtmTopology::from_canonical_rows(4, 4, &tridiagonal_rows(), AbtmConfig::default()).unwrap();
    let seed = DofMask::from_indices(4, &[1]).unwrap();
    let expanded = topology.expand_mask_one_hop(&seed).unwrap();
    assert_eq!(expanded.indices(), vec![0, 1, 2]);
}

#[test]
fn tile_descriptor_round_trips_kind_and_base_column() {
    let tile = TileDesc::new(3 * TILE_WIDTH + 5, 17, 0b1011, TileKind::Dense).unwrap();
    assert_eq!(tile.kind(), TileKind::Dense);
    assert_eq!(tile.base_col(), 3 * TILE_WIDTH);
    assert_eq!(tile.value_offset, 17);
    assert_eq!(tile.mask, 0b1011);
    assert_eq!(
        TileDesc::new(0, (u32::MAX as usize) + 1, 1, TileKind::Sparse).unwrap_err(),
        HybitError::SizeOverflow
    );
}

#[test]
fn config_validation_rejects_inverted_thresholds() {
    assert!(AbtmConfig::default().validate().is_ok());
    let bad = AbtmConfig { sparse_max_nnz: 40, dense_min_nnz: 8 };
    assert_eq!(
        bad.validate().unwrap_err(),
        HybitError::InvalidArgument("invalid ABTM density thresholds")
    );
    let zero = AbtmConfig { sparse_max_nnz: 0, dense_min_nnz: 8 };
    assert!(zero.validate().is_err());
}

#[test]
fn topology_classifies_tiles_and_assigns_value_slots() {
    let mut dense_row = Vec::new();
    for c in 0..64u32 {
        dense_row.push(c);
    }
    let rows = vec![vec![0, 70], dense_row, (0..20u32).collect::<Vec<u32>>()];
    let (topology, slots) =
        AbtmTopology::from_canonical_rows(3, 128, &rows, AbtmConfig::default()).unwrap();
    let stats = topology.stats();
    assert_eq!(stats.nrows, 3);
    assert_eq!(stats.matrix_nnz, 2 + 64 + 20);
    assert_eq!(stats.tiles, 4);
    assert_eq!(stats.sparse_tiles, 2);
    assert_eq!(stats.dense_tiles, 1);
    assert_eq!(stats.bitmap_tiles, 1);
    assert_eq!(stats.value_slots, 2 + 64 + 20);
    assert_eq!(stats.metadata_bytes, 4 * 4 + 4 * 16);
    assert_eq!(slots[0], vec![0, 1]);
    assert_eq!(slots[1][63], 2 + 63);
    assert_eq!(slots[2][0], 66);
    assert_eq!(stats.total_estimated_bytes(), stats.metadata_bytes + 86 * 8);
}

#[test]
fn expansion_requires_square_topology_and_matching_mask() {
    let rows = vec![vec![0u32, 1], vec![1]];
    let (wide, _) = AbtmTopology::from_canonical_rows(2, 3, &rows, AbtmConfig::default()).unwrap();
    assert_eq!(
        wide.expand_mask_one_hop(&DofMask::new(2)).unwrap_err(),
        HybitError::InvalidMatrix("mask expansion requires a square ABTM matrix")
    );
    let (square, _) = AbtmTopology::from_canonical_rows(2, 2, &rows, AbtmConfig::default()).unwrap();
    assert_eq!(
        square.expand_mask_one_hop(&DofMask::new(3)).unwrap_err(),
        HybitError::DimensionMismatch { expected: 2, actual: 3 }
    );
}

#[test]
fn stats_total_adds_eight_bytes_per_slot() {
    let stats = AbtmStats { metadata_bytes: 40, value_slots: 3, ..AbtmStats::default() };
    assert_eq!(stats.total_estimated_bytes(), 64);
}

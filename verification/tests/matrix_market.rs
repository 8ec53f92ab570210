use hybit::matrix_market::{
    check_entry_count, csr_row_pointers, group_coordinates, is_blank_or_comment, parse_entry_line, parse_header,
    parse_size_line, parse_usize, MatrixMarketError, MatrixMarketSymmetry,
};
use hybit::HybitError;

fn format_message<T: std::fmt::Debug>(result: Result<T, MatrixMarketError>) -> String {
    match result {
        Err(MatrixMarketError::Format(message)) => message,
        other => panic!("expected a format error, got {other:?}"),
    }
}

#[test]
fn banner_declares_supported_symmetry() {
    assert_eq!(
        parse_header(Some("%%MatrixMarket matrix coordinate real symmetric")).unwrap(),
        MatrixMarketSymmetry::Symmetric
    );
    assert_eq!(
        parse_header(Some("%%matrixmarket MATRIX Coordinate Integer  GENERAL\r")).unwrap(),
        MatrixMarketSymmetry::General
    );
    assert_eq!(format_message(parse_header(None)), "missing header");
    assert_eq!(
        format_message(parse_header(Some("%%MatrixMarket matrix array real general"))),
        "expected '%%MatrixMarket matrix coordinate <field> <symmetry>'"
    );
    assert_eq!(
        format_message(parse_header(Some("%%MatrixMarket matrix coordinate complex general"))),
        "only real and integer coordinate matrices are supported"
    );
    assert_eq!(
        format_message(parse_header(Some("%%MatrixMarket matrix coordinate real hermitian"))),
        "only general and symmetric matrices are supported"
    );
}

#[test]
fn comments_and_blank_lines_are_skipped() {
    assert!(is_blank_or_comment("% demo"));
    assert!(is_blank_or_comment("   \t"));
    assert!(is_blank_or_comment(""));
    assert!(is_blank_or_comment("  % indented comment"));
    assert!(!is_blank_or_comment("3 3 5"));
    assert!(!is_blank_or_comment(" 1 % trailing"));
}

#[test]
fn unsigned_numbers_follow_usize_parsing() {
    assert_eq!(parse_usize("42", "nnz").unwrap(), 42);
    assert_eq!(parse_usize("+7", "nnz").unwrap(), 7);
    assert_eq!(parse_usize("007", "nnz").unwrap(), 7);
    assert_eq!(parse_usize("18446744073709551615", "nnz").unwrap(), usize::MAX);
    assert_eq!(format_message(parse_usize("18446744073709551616", "nnz")), "invalid nnz '18446744073709551616'");
    assert_eq!(format_message(parse_usize("-1", "row index")), "invalid row index '-1'");
    assert_eq!(format_message(parse_usize("+", "nrows")), "invalid nrows '+'");
    assert_eq!(format_message(parse_usize("", "nrows")), "invalid nrows ''");
    assert_eq!(format_message(parse_usize("1x", "ncols")), "invalid ncols '1x'");
}

#[test]
fn size_line_is_checked_in_order() {
    assert_eq!(parse_size_line(Some("3 3 5"), MatrixMarketSymmetry::Symmetric).unwrap(), (3, 3, 5));
    assert_eq!(format_message(parse_size_line(None, MatrixMarketSymmetry::General)), "missing matrix size line");
    assert_eq!(
        format_message(parse_size_line(Some("3 3"), MatrixMarketSymmetry::General)),
        "size line must contain nrows ncols nnz"
    );
    assert_eq!(
        format_message(parse_size_line(Some("3 x 5"), MatrixMarketSymmetry::General)),
        "invalid ncols 'x'"
    );
    assert_eq!(
        format_message(parse_size_line(Some("3 4 5"), MatrixMarketSymmetry::Symmetric)),
        "symmetric Matrix Market matrix must be square"
    );
    assert!(matches!(
        parse_size_line(Some("4294967296 1 0"), MatrixMarketSymmetry::General),
        Err(MatrixMarketError::Matrix(HybitError::SizeOverflow))
    ));
}

#[test]
fn reads_symmetric_coordinate_entries() {
    let lines = ["1 1 2", "2 1 -1", "2 2 2", "3 2 -1", "3 3 2"];
    let mut mirrored = 0;
    for (k, line) in lines.iter().enumerate() {
        let entry = parse_entry_line(line, 3, 3, MatrixMarketSymmetry::Symmetric, 5, k).unwrap();
        if entry.mirror {
            mirrored += 1;
        }
        if k == 1 {
            assert_eq!((entry.row, entry.col), (1, 0));
            assert_eq!(entry.value_text.iter().collect::<String>(), "-1");
        }
    }
    assert_eq!(lines.len() + mirrored, 7);
}

#[test]
fn entry_lines_are_checked_in_order() {
    let general = MatrixMarketSymmetry::General;
    assert_eq!(
        format_message(parse_entry_line("1 1 1", 2, 2, general, 4, 4)),
        "more data entries than declared in size line"
    );
    assert_eq!(
        format_message(parse_entry_line("1 1", 2, 2, general, 4, 0)),
        "coordinate entry must contain row column value"
    );
    assert_eq!(format_message(parse_entry_line("a 1 1", 2, 2, general, 4, 0)), "invalid row index 'a'");
    assert_eq!(format_message(parse_entry_line("1 b 1", 2, 2, general, 4, 0)), "invalid column index 'b'");
    assert_eq!(
        format_message(parse_entry_line("0 1 1", 2, 2, general, 4, 0)),
        "Matrix Market indices are 1-based and must lie inside matrix dimensions"
    );
    assert_eq!(
        format_message(parse_entry_line("1 3 1", 2, 2, general, 4, 0)),
        "Matrix Market indices are 1-based and must lie inside matrix dimensions"
    );
    let entry = parse_entry_line(" 2\t2  4 ", 2, 2, general, 4, 2).unwrap();
    assert_eq!((entry.row, entry.col, entry.mirror), (1, 1, false));
    assert_eq!(entry.value_text.iter().collect::<String>(), "4");
}

#[test]
fn declared_and_read_entry_counts_must_agree() {
    assert!(check_entry_count(4, 4).is_ok());
    assert_eq!(
        format_message(check_entry_count(4, 3)),
        "size line declares 4 entries but 3 were read"
    );
    assert_eq!(
        format_message(check_entry_count(120, 0)),
        "size line declares 120 entries but 0 were read"
    );
}

#[test]
fn row_pointers_of_sorted_entries() {
    assert_eq!(csr_row_pointers(3, &[0, 0, 2]).unwrap(), vec![0, 2, 2, 3]);
    assert_eq!(csr_row_pointers(2, &[]).unwrap(), vec![0, 0, 0]);
    assert_eq!(csr_row_pointers(0, &[]).unwrap(), vec![0]);
}

#[test]
fn duplicate_coordinates_are_grouped_in_row_major_order() {
    // The entries of "1 1 1 / 1 1 2 / 2 2 4 / 1 2 0", zero-based.
    let coords = vec![(0u32, 0u32), (0, 0), (1, 1), (0, 1)];
    let groups = group_coordinates(&coords);
    assert_eq!(groups, vec![(0, 0, vec![0, 1]), (0, 1, vec![3]), (1, 1, vec![2])]);
    let duplicates: usize = groups.iter().map(|g| g.2.len() - 1).sum();
    assert_eq!(duplicates, 1);
    assert!(group_coordinates(&Vec::new()).is_empty());
    let reversed = vec![(2u32, 1u32), (1, 2), (1, 0), (2, 1)];
    assert_eq!(group_coordinates(&reversed), vec![(1, 0, vec![2]), (1, 2, vec![1]), (2, 1, vec![0, 3])]);
}

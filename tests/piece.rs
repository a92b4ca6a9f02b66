use filler::grid::Size;
use filler::piece::Piece;
use filler::text::ParseError;

fn bare(width: usize, height: usize, cells: Vec<Vec<char>>) -> Piece {
    Piece {
        size: Size { width, height },
        cells,
        trimmed_size: Size { width: 0, height: 0 },
        trimmed_cells: vec![],
        symbol_count: 0,
        offset: (0, 0),
    }
}

#[test]
fn test_trim_cells_with_padding() {
    let mut piece = bare(
        5,
        5,
        vec![
            vec!['.', '.', '.', '.', '.'],
            vec!['.', 'O', 'O', '.', '.'],
            vec!['.', 'O', '.', '.', '.'],
            vec!['.', '.', '.', '.', '.'],
            vec!['.', '.', '.', '.', '.'],
        ],
    );

    piece.trim_cells();

    assert_eq!(piece.trimmed_size.width, 2);
    assert_eq!(piece.trimmed_size.height, 2);
    assert_eq!(piece.offset, (1, 1));
    assert_eq!(piece.trimmed_cells, vec![vec!['O', 'O'], vec!['O', '.'],]);
}

#[test]
fn test_trim_cells_no_trimming_needed() {
    let mut piece = bare(2, 2, vec![vec!['O', '.'], vec!['.', 'O']]);

    piece.trim_cells();

    assert_eq!(piece.trimmed_size.width, 2);
    assert_eq!(piece.trimmed_size.height, 2);
    assert_eq!(piece.offset, (0, 0));
    assert_eq!(piece.trimmed_cells, vec![vec!['O', '.'], vec!['.', 'O'],]);
}

#[test]
fn trimming_an_empty_piece_gives_an_empty_box() {
    let mut piece = bare(3, 2, vec![vec!['.'; 3]; 2]);
    piece.trim_cells();
    assert_eq!(piece.trimmed_size, Size { width: 0, height: 0 });
    assert!(piece.trimmed_cells.is_empty());
}

#[test]
fn trimming_keeps_inner_blank_rows() {
    let mut piece = bare(
        3,
        4,
        vec![vec!['.', 'O', '.'], vec!['.', '.', '.'], vec!['.', '.', 'O'], vec!['.', '.', '.']],
    );
    piece.trim_cells();
    assert_eq!(piece.offset, (0, 1));
    assert_eq!(piece.trimmed_size, Size { width: 2, height: 3 });
    assert_eq!(piece.trimmed_cells, vec![vec!['O', '.'], vec!['.', '.'], vec!['.', 'O']]);
}

#[test]
fn piece_update_reads_counts_and_trims() {
    let mut piece = Piece::new("Piece 4 3:").unwrap();
    let rows: Vec<String> = vec!["....".into(), ".OO.".into(), "..O.".into()];
    assert_eq!(piece.update(&rows), Ok(()));
    assert_eq!(piece.symbol_count, 3);
    assert_eq!(piece.offset, (1, 1));
    assert_eq!(piece.trimmed_size, Size { width: 2, height: 2 });
    assert_eq!(piece.trimmed_cells, vec![vec!['O', 'O'], vec!['.', 'O']]);
}

#[test]
fn piece_update_reports_short_row() {
    let mut piece = Piece::new("Piece 3 2:").unwrap();
    let rows: Vec<String> = vec!["O..".into(), "O".into()];
    assert_eq!(piece.update(&rows), Err(ParseError::ShortRow { row: 1 }));
}

#[test]
fn piece_header_errors() {
    assert_eq!(Piece::new("Piece x 2:").unwrap_err(), ParseError::InvalidHeader);
}

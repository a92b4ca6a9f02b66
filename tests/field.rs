use filler::field::Field;
use filler::grid::{Grid, Size};
use filler::text::ParseError;

fn lines(v: &[&str]) -> Vec<String> {
    v.iter().map(|s| s.to_string()).collect()
}

#[test]
fn test_field_header_parsing() {
    let header = "Field 10 15:";
    let field = Field::new(header).unwrap();

    assert_eq!(field.col_count(), 10);
    assert_eq!(field.row_count(), 15);

    assert_eq!(field.cells().len(), 15);
    assert_eq!(field.cells()[0].len(), 10);

    assert_eq!(field.cells()[0][0], '.');
    assert_eq!(field.cells()[14][9], '.');
}

#[test]
fn test_different_field_sizes() {
    let small_field = Field::new("Field 3 2:").unwrap();
    assert_eq!(small_field.col_count(), 3);
    assert_eq!(small_field.row_count(), 2);

    let big_field = Field::new("Field 20 25:").unwrap();
    assert_eq!(big_field.col_count(), 20);
    assert_eq!(big_field.row_count(), 25);

    let tiny_field = Field::new("Field 1 1:").unwrap();
    assert_eq!(tiny_field.col_count(), 1);
    assert_eq!(tiny_field.row_count(), 1);
    assert_eq!(tiny_field.cells()[0][0], '.');
}

#[test]
fn invalid_column_count_is_an_error() {
    assert_eq!(Field::new("Field abc 5:").unwrap_err(), ParseError::InvalidHeader);
}

#[test]
fn invalid_row_count_is_an_error() {
    assert_eq!(Field::new("Field 10 xyz:").unwrap_err(), ParseError::InvalidHeader);
}

#[test]
fn header_with_too_few_words_is_an_error() {
    assert_eq!(Field::new("Anfield 10:").unwrap_err(), ParseError::InvalidHeader);
    assert_eq!(Field::new("").unwrap_err(), ParseError::InvalidHeader);
}

#[test]
fn header_accepts_plus_sign_and_extra_spaces() {
    let f = Field::new("Anfield   +4\t3::").unwrap();
    assert_eq!(f.size, Size::new(4, 3));
}

#[test]
fn header_number_past_usize_is_an_error() {
    assert_eq!(
        Field::new("Anfield 99999999999999999999999 2:").unwrap_err(),
        ParseError::InvalidHeader
    );
}

#[test]
fn update_reads_rows_after_ruler_and_labels() {
    let mut f = Field::new("Anfield 4 2:").unwrap();
    let input = lines(&["    0123", "000 .a..", "001 ..s$  "]);
    assert_eq!(f.update(&input), Ok(()));
    assert_eq!(f.cells, vec![vec!['.', 'a', '.', '.'], vec!['.', '.', 's', '$']]);
}

#[test]
fn update_reports_short_row_and_keeps_board() {
    let mut f = Field::new("Anfield 4 2:").unwrap();
    let input = lines(&["    0123", "000 .a..", "001 ..  "]);
    assert_eq!(f.update(&input), Err(ParseError::ShortRow { row: 1 }));
    assert_eq!(f.cells, vec![vec!['.'; 4]; 2]);
}

#[test]
fn update_reports_missing_row() {
    let mut f = Field::new("Anfield 4 3:").unwrap();
    let input = lines(&["    0123", "000 .a.."]);
    assert_eq!(f.update(&input), Err(ParseError::MissingRow { row: 1 }));
}

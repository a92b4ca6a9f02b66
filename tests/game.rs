use filler::field::Field;
use filler::game::{Game, Pos};
use filler::grid::Size;
use filler::piece::Piece;
use filler::player::Player;

fn p1() -> Player {
    Player { _num: 1, symbol: ('a', '@'), score: 0 }
}

fn p2() -> Player {
    Player { _num: 2, symbol: ('s', '$'), score: 0 }
}

fn field_of(rows: &[&str]) -> Field {
    let cells: Vec<Vec<char>> = rows.iter().map(|r| r.chars().collect()).collect();
    Field { size: Size { width: cells[0].len(), height: cells.len() }, cells }
}

fn create_test_game() -> Game {
    let field = Field {
        size: Size { width: 4, height: 4 },
        cells: vec![
            vec!['.', 'a', '.', '.'],
            vec!['.', '.', '.', '.'],
            vec!['.', '.', 's', '.'],
            vec!['.', '.', '.', '.'],
        ],
    };
    Game::new(p1(), p2(), field)
}

fn create_test_piece() -> Piece {
    Piece {
        size: Size { width: 2, height: 2 },
        cells: vec![vec!['O', '.'], vec!['.', 'O']],
        trimmed_size: Size { width: 2, height: 2 },
        trimmed_cells: vec![vec!['O', '.'], vec!['.', 'O']],
        symbol_count: 2,
        offset: (0, 0),
    }
}

fn piece_from(rows: &[&str]) -> Piece {
    let cells: Vec<Vec<char>> = rows.iter().map(|r| r.chars().collect()).collect();
    let mut p = Piece {
        size: Size { width: cells[0].len(), height: cells.len() },
        cells,
        trimmed_size: Size { width: 0, height: 0 },
        trimmed_cells: vec![],
        symbol_count: 0,
        offset: (0, 0),
    };
    p.trim_cells();
    p
}

#[test]
fn test_check_placement_valid() {
    let game = create_test_game();
    let piece = create_test_piece();

    let pos = Pos { x: 1, y: 0 };
    let result = game.check_placement(&piece, pos);

    assert!(result.is_some());
    let placement = result.unwrap();
    assert_eq!(placement.pos.x, 1);
    assert_eq!(placement.pos.y, 0);
}

#[test]
fn test_check_placement_invalid() {
    let game = create_test_game();
    let piece = create_test_piece();

    let pos = Pos { x: 1, y: 1 };
    let result = game.check_placement(&piece, pos);

    assert!(result.is_none());
}

#[test]
fn placement_without_own_overlap_is_invalid() {
    let game = create_test_game();
    let piece = create_test_piece();
    assert!(game.check_placement(&piece, Pos { x: 2, y: 0 }).is_none());
}

#[test]
fn placement_with_two_own_overlaps_is_invalid() {
    let game = Game::new(p1(), p2(), field_of(&["aa..", "....", "....", "...."]));
    let piece = piece_from(&["OO"]);
    assert!(game.check_placement(&piece, Pos { x: 0, y: 0 }).is_none());
    assert!(game.check_placement(&piece, Pos { x: 1, y: 0 }).is_some());
}

#[test]
fn cell_scores() {
    let game = create_test_game();
    // An unfilled piece cell over a player cell, over an enemy cell, over a free one.
    assert_eq!(game.get_cell_score('.', Pos { x: 1, y: 0 }), 1);
    assert_eq!(game.get_cell_score('.', Pos { x: 2, y: 2 }), 2);
    assert_eq!(game.get_cell_score('.', Pos { x: 0, y: 0 }), 0);
    // A filled piece cell beside an enemy cell, and away from one.
    assert_eq!(game.get_cell_score('O', Pos { x: 2, y: 1 }), 4);
    assert_eq!(game.get_cell_score('O', Pos { x: 0, y: 0 }), 0);
}

#[test]
fn check_placement_scores_cells() {
    let game = create_test_game();
    let piece = create_test_piece();
    // Piece (0,0) on 'a' at (1,0): filled, no enemy beside: 0.
    // Piece (1,0) at (2,0): unfilled over free: 0. Piece (0,1) at (1,1): 0.
    // Piece (1,1) at (2,1): filled, enemy below: 4.
    let placement = game.check_placement(&piece, Pos { x: 1, y: 0 }).unwrap();
    assert_eq!(placement.score, 4);
}

#[test]
fn find_placements_lists_valid_positions_in_scan_order() {
    let game = create_test_game();
    let piece = create_test_piece();
    let found = game.find_placements(&piece);
    let positions: Vec<(usize, usize)> = found.iter().map(|p| (p.pos.x, p.pos.y)).collect();
    assert_eq!(positions, vec![(1, 0)]);
}

#[test]
fn oversized_piece_passes() {
    let mut game = create_test_game();
    let piece = piece_from(&["OOOOO"]);
    assert_eq!(game.place_piece(piece), (0, 0));
    assert_eq!(game.turns, 1);
    assert_eq!(game.player.score, 0);
    assert!(game.pieces.is_empty());
}

#[test]
fn empty_piece_passes() {
    let mut game = create_test_game();
    let piece = piece_from(&["..", ".."]);
    assert_eq!(game.place_piece(piece), (0, 0));
}

#[test]
fn piece_without_valid_position_passes() {
    let mut game = Game::new(p1(), p2(), field_of(&["....", "....", "....", "...."]));
    let piece = create_test_piece();
    assert_eq!(game.place_piece(piece), (0, 0));
    assert_eq!(game.player.score, 0);
}

#[test]
fn place_piece_without_offset_returns_winning_position() {
    let mut game = create_test_game();
    let piece = create_test_piece();
    // Candidates (0,0) and (1,0). The enemy-distance pass favours (1,0),
    // whose centre (2,1) is nearest the enemy at (2,2).
    assert_eq!(game.place_piece(piece), (1, 0));
    assert_eq!(game.turns, 1);
    assert_eq!(game.player.score, 1);
    assert_eq!(game.pieces.len(), 1);
    // The piece's filled cells now belong to the player.
    assert_eq!(game.field.cells[0][1], 'a');
    assert_eq!(game.field.cells[1][2], 'a');
    assert_eq!(game.field.cells[0][2], '.');
}

#[test]
fn place_piece_subtracts_offset() {
    let mut game = create_test_game();
    // The content box "O. / .O" sits one row down and one column right.
    let piece = piece_from(&["...", ".O.", "..O"]);
    assert_eq!(piece.offset, (1, 1));
    assert_eq!(game.place_piece(piece), (0, -1));
}

use filler::bonus::{decay_start, growth_start, tier_bonus};
use filler::cell::{is_enemy_cell, is_player_cell};
use filler::field::Field;
use filler::game::{Placement, Pos};
use filler::grid::Size;
use filler::piece::Piece;
use filler::scoring::{
    check_if_touching_enemy_cell, evaluate_placement_for_enclosing_cells,
    evaluate_placement_for_enemy_distance, evaluate_placement_for_perfect_fit,
    evaluate_placement_for_wall_distance, evaluate_placements, evaluate_position_phase,
    get_adjacent_cells, get_average_pos, get_center_of_piece, get_enclosing_positions,
};

fn create_test_field() -> Field {
    Field {
        size: Size { width: 4, height: 4 },
        cells: vec![
            vec!['.', 'a', '.', '.'],
            vec!['.', '.', '.', '.'],
            vec!['.', '.', 's', '.'],
            vec!['.', '.', '.', '.'],
        ],
    }
}

fn field_of(rows: &[&str]) -> Field {
    let cells: Vec<Vec<char>> = rows.iter().map(|r| r.chars().collect()).collect();
    Field { size: Size { width: cells[0].len(), height: cells.len() }, cells }
}

fn create_test_piece() -> Piece {
    Piece {
        size: Size { width: 2, height: 2 },
        cells: vec![vec!['O', '.'], vec!['.', 'O']],
        trimmed_size: Size { width: 2, height: 2 },
        trimmed_cells: vec![vec!['O', '.'], vec!['.', 'O']],
        symbol_count: 2,
        offset: (0, 0),
    }
}

fn piece_from(rows: &[&str]) -> Piece {
    let cells: Vec<Vec<char>> = rows.iter().map(|r| r.chars().collect()).collect();
    let mut p = Piece {
        size: Size { width: cells[0].len(), height: cells.len() },
        cells,
        trimmed_size: Size { width: 0, height: 0 },
        trimmed_cells: vec![],
        symbol_count: 0,
        offset: (0, 0),
    };
    p.trim_cells();
    p
}

fn create_test_placement(pos: Pos, score: i128) -> Placement {
    Placement { pos, piece: create_test_piece(), score }
}

#[test]
fn test_check_if_touching_enemy_cell() {
    let field = create_test_field();
    let player_symbol = ('a', '@');

    let result = check_if_touching_enemy_cell(&field, player_symbol);
    assert_eq!(result, false);

    let field_adjacent = Field {
        size: Size { width: 4, height: 4 },
        cells: vec![
            vec!['.', 'a', 's', '.'],
            vec!['.', '.', '.', '.'],
            vec!['.', '.', '.', '.'],
            vec!['.', '.', '.', '.'],
        ],
    };

    let result_adjacent = check_if_touching_enemy_cell(&field_adjacent, player_symbol);
    assert_eq!(result_adjacent, true);
}

#[test]
fn test_evaluate_placement_for_enemy_distance() {
    let field = create_test_field();
    let enemy_pos = Pos { x: 2, y: 2 };
    let current_turn = 1;

    let mut placements = vec![
        create_test_placement(Pos { x: 0, y: 0 }, 0),
        create_test_placement(Pos { x: 1, y: 1 }, 0),
    ];

    evaluate_placement_for_enemy_distance(&field, &mut placements, enemy_pos, current_turn);

    assert!(placements[1].score > placements[0].score);
    assert!(placements[0].score > 0);
    assert!(placements[1].score > 0);
}

#[test]
fn enemy_distance_bonus_values() {
    let field = create_test_field();
    let mut placements = vec![
        create_test_placement(Pos { x: 0, y: 0 }, 0),
        create_test_placement(Pos { x: 1, y: 1 }, 0),
    ];
    evaluate_placement_for_enemy_distance(&field, &mut placements, Pos { x: 2, y: 2 }, 1);
    // Turn 1 starts at floor(36 * 2^-0.15) = 32, then halves.
    assert_eq!(placements[1].score, 32);
    assert_eq!(placements[0].score, 16);
}

#[test]
fn enemy_distance_ties_keep_list_order() {
    let field = field_of(&[".....", ".....", ".....", ".....", "....."]);
    let piece_rows = ["O"];
    let mut placements: Vec<Placement> = [(1usize, 2usize), (3, 2), (2, 0)]
        .iter()
        .map(|&(x, y)| Placement { pos: Pos { x, y }, score: 0, piece: piece_from(&piece_rows) })
        .collect();
    evaluate_placement_for_enemy_distance(&field, &mut placements, Pos { x: 2, y: 2 }, 0);
    assert_eq!(placements[0].score, 36);
    assert_eq!(placements[1].score, 18);
    assert_eq!(placements[2].score, 9);
}

#[test]
fn far_candidates_get_no_distance_bonus() {
    let field = field_of(&["........"]);
    let mut placements: Vec<Placement> = (0..8)
        .map(|x| Placement { pos: Pos { x, y: 0 }, score: 0, piece: piece_from(&["O"]) })
        .collect();
    evaluate_placement_for_enemy_distance(&field, &mut placements, Pos { x: 0, y: 0 }, 0);
    let scores: Vec<i128> = placements.iter().map(|p| p.score).collect();
    assert_eq!(scores, vec![36, 18, 9, 4, 2, 0, 0, 0]);
}

#[test]
fn test_is_enemy_cell() {
    let player_symbol = ('a', '@');

    assert_eq!(is_enemy_cell(Some('s'), player_symbol), true);
    assert_eq!(is_enemy_cell(Some('$'), player_symbol), true);

    assert_eq!(is_enemy_cell(Some('a'), player_symbol), false);
    assert_eq!(is_enemy_cell(Some('@'), player_symbol), false);
    assert_eq!(is_enemy_cell(Some('.'), player_symbol), false);
    assert_eq!(is_enemy_cell(None, player_symbol), false);
}

#[test]
fn test_is_player_cell() {
    let player_symbol = ('a', '@');

    assert_eq!(is_player_cell(Some('a'), player_symbol), true);
    assert_eq!(is_player_cell(Some('@'), player_symbol), true);

    assert_eq!(is_player_cell(Some('s'), player_symbol), false);
    assert_eq!(is_player_cell(Some('$'), player_symbol), false);
    assert_eq!(is_player_cell(Some('.'), player_symbol), false);
    assert_eq!(is_player_cell(None, player_symbol), false);
}

#[test]
fn adjacent_cells_at_corner_and_middle() {
    let field = create_test_field();
    assert_eq!(get_adjacent_cells(&field, &Pos { x: 0, y: 0 }), (None, Some('.'), None, Some('a')));
    assert_eq!(
        get_adjacent_cells(&field, &Pos { x: 2, y: 1 }),
        (Some('.'), Some('s'), Some('.'), Some('.'))
    );
}

#[test]
fn average_position_of_enemy_cells() {
    let field = field_of(&["s..s", "....", "...s"]);
    assert_eq!(get_average_pos(&field, ('a', '@'), true), Some(Pos { x: 2, y: 0 }));
    assert_eq!(get_average_pos(&field, ('a', '@'), false), None);
}

#[test]
fn center_is_pulled_onto_the_board() {
    let field = create_test_field();
    let piece = piece_from(&["...", "...", ".OO", ".OO"]);
    assert_eq!(piece.offset, (2, 1));
    // x = 3 + (2 + 1) / 2 = 4 -> 3; y = 2 + (2 + 2) / 2 = 4 -> 3.
    assert_eq!(get_center_of_piece(&field, &Pos { x: 3, y: 2 }, &piece), Pos { x: 3, y: 3 });
}

#[test]
fn wall_distance_bonus_values() {
    let field = field_of(&[".....", ".....", ".....", ".....", "....."]);
    let mut placements: Vec<Placement> = [(0usize, 0usize), (1, 1), (2, 2)]
        .iter()
        .map(|&(x, y)| Placement { pos: Pos { x, y }, score: 5, piece: piece_from(&["O"]) })
        .collect();
    evaluate_placement_for_wall_distance(&field, &mut placements);
    let scores: Vec<i128> = placements.iter().map(|p| p.score).collect();
    assert_eq!(scores, vec![5 + 24, 5 + 12, 5 + 8]);
}

#[test]
fn contact_switches_to_wall_distance() {
    let touching = field_of(&[".as..", ".....", ".....", ".....", "....."]);
    let make = || -> Vec<Placement> {
        [(0usize, 4usize), (2, 2)]
            .iter()
            .map(|&(x, y)| Placement { pos: Pos { x, y }, score: 0, piece: piece_from(&["O"]) })
            .collect()
    };
    let mut placements = make();
    evaluate_position_phase(&touching, &mut placements, Some(Pos { x: 2, y: 0 }), 1, ('a', '@'));
    assert_eq!(placements[0].score, 24);
    assert_eq!(placements[1].score, 8);

    let apart = field_of(&[".a.s.", ".....", ".....", ".....", "....."]);
    let mut placements = make();
    evaluate_position_phase(&apart, &mut placements, Some(Pos { x: 3, y: 0 }), 1, ('a', '@'));
    assert_eq!(placements[1].score, 32);
    assert_eq!(placements[0].score, 16);
}

#[test]
fn no_enemy_means_no_distance_bonus() {
    let field = field_of(&[".a...", "....."]);
    let mut placements = vec![Placement { pos: Pos { x: 0, y: 0 }, score: 3, piece: piece_from(&["O"]) }];
    evaluate_position_phase(&field, &mut placements, None, 1, ('a', '@'));
    assert_eq!(placements[0].score, 3);
}

#[test]
fn enclosing_positions_listed_per_enemy_cell() {
    let field = field_of(&["....", ".s..", "...."]);
    let found = get_enclosing_positions(&field, ('a', '@'));
    let expected = vec![
        (Pos { x: 1, y: 0 }, 1),
        (Pos { x: 1, y: 2 }, 1),
        (Pos { x: 0, y: 1 }, 1),
        (Pos { x: 2, y: 1 }, 1),
        (Pos { x: 3, y: 1 }, 2),
    ];
    assert_eq!(found, expected);
}

#[test]
fn enclosing_bonus_and_flag() {
    let field = field_of(&["......", ".s....", "......"]);
    let mut placements = vec![
        Placement { pos: Pos { x: 2, y: 1 }, score: 0, piece: piece_from(&["OO"]) },
        Placement { pos: Pos { x: 4, y: 0 }, score: 0, piece: piece_from(&["O"]) },
    ];
    let found = evaluate_placement_for_enclosing_cells(&field, &mut placements, ('a', '@'));
    assert!(found);
    // (2,1) is one step from the enemy: 12; (3,1) is two steps: 6.
    assert_eq!(placements[0].score, 18);
    // (4,0) encloses nothing: 12 / 3.
    assert_eq!(placements[1].score, 4);

    let mut far = vec![Placement { pos: Pos { x: 4, y: 0 }, score: 0, piece: piece_from(&["O"]) }];
    assert!(!evaluate_placement_for_enclosing_cells(&field, &mut far, ('a', '@')));
}

#[test]
fn perfect_fit_earns_growth_bonus() {
    let field = field_of(&["aa..", "a...", "...."]);
    let history: Vec<Piece> = Vec::new();
    let mut placements = vec![
        Placement { pos: Pos { x: 0, y: 0 }, score: 0, piece: piece_from(&["OO", ".O"]) },
        Placement { pos: Pos { x: 1, y: 0 }, score: 0, piece: piece_from(&["OO", ".O"]) },
    ];
    evaluate_placement_for_perfect_fit(&field, &mut placements, 11, &history, ('a', '@'));
    // 1.07^11 = 2.10...
    assert_eq!(placements[0].score, 2);
    assert_eq!(placements[1].score, 0);
}

#[test]
fn bonus_schedules() {
    assert_eq!(decay_start(0), 36);
    assert_eq!(decay_start(1), 32);
    assert_eq!(decay_start(10), 12);
    assert_eq!(decay_start(18), 5);
    assert_eq!(decay_start(19), 4);
    assert_eq!(decay_start(1000), 4);
    assert_eq!(growth_start(0), 1);
    assert_eq!(growth_start(10), 1);
    assert_eq!(growth_start(11), 2);
    assert_eq!(growth_start(57), 47);
    assert_eq!(growth_start(58), 50);
    assert_eq!(growth_start(100000), 50);
    assert_eq!(tier_bonus(36, 0), 36);
    assert_eq!(tier_bonus(36, 3), 4);
    assert_eq!(tier_bonus(36, 5), 0);
    assert_eq!(tier_bonus(4, 1), 2);
    assert_eq!(tier_bonus(4, 2), 0);
}

#[test]
fn evaluate_placements_prefers_last_of_equal_best() {
    let field = field_of(&["......", "......", "......"]);
    let history: Vec<Piece> = Vec::new();
    let placements: Vec<Placement> = [(0usize, 0usize), (5, 0)]
        .iter()
        .map(|&(x, y)| Placement { pos: Pos { x, y }, score: 0, piece: piece_from(&["O"]) })
        .collect();
    let best = evaluate_placements(&field, placements, None, 1, ('a', '@'), &history);
    assert_eq!(best.pos, Pos { x: 5, y: 0 });
}

#[test]
fn evaluate_placements_adds_every_pass() {
    let field = field_of(&[".a.", "...", "..s"]);
    let history: Vec<Piece> = Vec::new();
    let placements = vec![
        Placement { pos: Pos { x: 1, y: 0 }, score: 1, piece: piece_from(&["O", "O"]) },
        Placement { pos: Pos { x: 0, y: 0 }, score: 0, piece: piece_from(&["O", "O"]) },
    ];
    let best = evaluate_placements(&field, placements, Some(Pos { x: 2, y: 2 }), 1, ('a', '@'), &history);
    // First candidate: centre (1,1), distance 2: rank 0, +32. Cells (1,0)
    // and (1,1) enclose nothing: +4 +4. Nothing is one step from the
    // enemy, so the gap-filling pass runs: a piece with no unfilled cell
    // fits perfectly, +1 on turn 1.
    assert_eq!(best.pos, Pos { x: 1, y: 0 });
    assert_eq!(best.score, 1 + 32 + 8 + 1);
}

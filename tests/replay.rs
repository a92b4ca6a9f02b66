use filler::replay::{cell_color, grid_cell_size, territory_counts, Player, Visualizer};
use filler::text::ParseError;

fn lines(v: &[&str]) -> Vec<String> {
    v.iter().map(|s| s.to_string()).collect()
}

#[test]
fn replay_player_reads_path() {
    let p = Player::new("$$$ exec p1 : [robots/bender]  ");
    assert_eq!(p._num, 1);
    assert_eq!(p._symbol, ('a', '@'));
    assert_eq!(p.path, "[robots/bender]");
    assert!(p._is_mine(&'@'));
    let q = Player::new("$$$ exec p2");
    assert_eq!(q._num, 2);
    assert_eq!(q.path, "");
}

fn record() -> Vec<String> {
    lines(&[
        "$$$ exec p1 : [a]",
        "$$$ exec p2 : [b]",
        "Anfield 3 2:",
        "    012",
        "000 @..",
        "001 ..$",
        "Piece 2 1:",
        "OO",
        "<got (O): [0, 0]",
        "Anfield 3 2:",
        "    012",
        "000 @@.",
        "001 ..$",
        "Piece 1 1:",
        "O",
        "<got (X): [2, 0]",
    ])
}

#[test]
fn replay_reads_record() {
    let v = Visualizer::new(&record()).unwrap();
    assert_eq!(v.players[0].path, "[a]");
    assert_eq!(v.players[1]._num, 2);
    assert_eq!(v.fields.len(), 2);
    assert_eq!(v.fields[1].cells[0], vec!['@', '@', '.']);
    assert_eq!(v.pieces.len(), 2);
    assert_eq!(v.pieces[0].0, 0);
    assert_eq!(v.pieces[0].1.trimmed_cells, vec![vec!['O', 'O']]);
    assert_eq!(v.turn, 0);
}

#[test]
fn replay_answer_symbol_names_player() {
    let mut r = record();
    r[8] = "<got (O): [@, 0]".to_string();
    r[15] = "<got (X): [$, 0]".to_string();
    let v = Visualizer::new(&r).unwrap();
    assert_eq!(v.pieces[0].0, 1);
    assert_eq!(v.pieces[1].0, 2);
}

#[test]
fn replay_errors() {
    assert_eq!(Visualizer::new(&lines(&["$$$ exec p1"])).unwrap_err(), ParseError::MissingPlayer);
    let mut r = record();
    r.truncate(15);
    assert_eq!(Visualizer::new(&r).unwrap_err(), ParseError::MissingAnswer);
}

#[test]
fn replay_navigation() {
    let mut v = Visualizer::new(&record()).unwrap();
    v.prev_turn();
    assert_eq!(v.turn, 0);
    v.next_turn();
    assert_eq!(v.turn, 1);
    v.next_turn();
    assert_eq!(v.turn, 1);
    v.first_turn();
    assert_eq!(v.turn, 0);
    v.last_turn();
    assert_eq!(v.turn, 1);
}

#[test]
fn viewer_drawing_values() {
    let v = Visualizer::new(&record()).unwrap();
    assert_eq!(territory_counts(&v.fields[1]), (2, 1));
    assert_eq!(cell_color('@'), (150, 60, 60));
    assert_eq!(cell_color('s'), (100, 100, 255));
    assert_eq!(cell_color('x'), (80, 80, 80));
    assert_eq!(grid_cell_size(800, 100, 40), 8);
    assert_eq!(grid_cell_size(150, 0, 0), 150);
}

use vstd::prelude::*;

verus! {

/// The marker of a free board cell, and of an unfilled piece cell.
pub const EMPTY: char = '.';

/// A character of the board that belongs to the player owning `symbol`.
pub open spec fn owned_by(c: char, symbol: (char, char)) -> bool {
    c == symbol.0 || c == symbol.1
}

/// A character of the board that belongs to the opponent of the player
/// owning `symbol`: neither free nor the player's.
pub open spec fn enemy_of(c: char, symbol: (char, char)) -> bool {
    c != EMPTY && !owned_by(c, symbol)
}

/// A piece cell that covers the board cell under it.
pub open spec fn filled(c: char) -> bool {
    c != EMPTY
}

/// Whether `cell` is present and belongs to the opponent.
pub fn is_enemy_cell(cell: Option<char>, player_symbol: (char, char)) -> (r: bool)
    ensures
        r == (cell is Some && enemy_of(cell->0, player_symbol)),
{
    match cell {
        None => false,
        Some(c) => c != EMPTY && c != player_symbol.0 && c != player_symbol.1,
    }
}

/// Whether `cell` is present and belongs to the player.
pub fn is_player_cell(cell: Option<char>, player_symbol: (char, char)) -> (r: bool)
    ensures
        r == (cell is Some && owned_by(cell->0, player_symbol)),
{
    match cell {
        None => false,
        Some(c) => c == player_symbol.0 || c == player_symbol.1,
    }
}

} // verus!

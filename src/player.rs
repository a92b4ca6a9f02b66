use vstd::prelude::*;

use crate::cell::owned_by;
use crate::text::{chars_of, has_prefix, starts_with};

verus! {

/// One side of the game: its number, the two board symbols it owns (the
/// second marks its latest piece), and how many pieces it has placed.
#[derive(Debug)]
pub struct Player {
    pub _num: usize,
    pub symbol: (char, char),
    pub score: usize,
}

pub open spec fn spec_first_player() -> Player {
    Player { _num: 1, symbol: ('a', '@'), score: 0 }
}

pub open spec fn spec_second_player() -> Player {
    Player { _num: 2, symbol: ('s', '$'), score: 0 }
}

/// The identity line's mark of the first player.
pub open spec fn first_player_mark() -> Seq<char> {
    "$$$ exec p1"@
}

impl Player {
    /// The engine's own player and its opponent, as the identity line
    /// assigns them.
    pub fn new(input: &str) -> (r: (Player, Player))
        ensures
            r == (if has_prefix(input@, first_player_mark()) {
                (spec_first_player(), spec_second_player())
            } else {
                (spec_second_player(), spec_first_player())
            }),
    {
        let p1 = Player { _num: 1, symbol: ('a', '@'), score: 0 };
        let p2 = Player { _num: 2, symbol: ('s', '$'), score: 0 };
        let line = chars_of(input);
        if starts_with(&line, "$$$ exec p1") {
            (p1, p2)
        } else {
            (p2, p1)
        }
    }

    /// Whether the board character `c` belongs to this player.
    pub fn is_mine(&self, c: &char) -> (r: bool)
        ensures
            r == owned_by(*c, self.symbol),
    {
        self.symbol.0 == *c || self.symbol.1 == *c
    }
}

} // verus!

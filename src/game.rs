use vstd::prelude::*;

use vstd::arithmetic::div_mod::lemma_fundamental_div_mod_converse;

use crate::cell::{filled, owned_by};
use crate::field::Field;
use crate::piece::{Piece, PieceModel};
use crate::player::Player;
use crate::scoring::{
    all_placed, average_pos, best_index, board_sum, bounded, evaluate_placements, final_scores,
    get_adjacent_cells, get_average_pos, models, placed, row_sum, some_neighbour, INPUT_LIMIT,
};

verus! {

/// A board position: `x` is the column, `y` the row, from the top left.
#[derive(Debug, Clone, Copy, PartialEq, Eq)]
pub struct Pos {
    pub x: usize,
    pub y: usize,
}

/// A candidate move: where the top left cell of the piece's content box
/// would go, the score it has earned so far, and the piece.
#[derive(Debug)]
pub struct Placement {
    pub pos: Pos,
    pub score: i128,
    pub piece: Piece,
}

/// The state that the engine keeps from turn to turn.
#[derive(Debug)]
pub struct Game {
    pub player: Player,
    pub enemy: Player,
    pub field: Field,
    pub pieces: Vec<Piece>,
    pub turns: usize,
}

/// The piece model's content box is a well-formed matrix.
pub open spec fn model_wf(pm: PieceModel) -> bool {
    &&& pm.trimmed.len() == pm.trimmed_size.height
    &&& forall|i: int| 0 <= i < pm.trimmed.len() ==> (#[trigger] pm.trimmed[i]).len() == pm.trimmed_size.width
}

/// The content box, put at `pos`, lies on the board.
pub open spec fn fits(field: Field, pm: PieceModel, pos: Pos) -> bool {
    &&& pos.x + pm.trimmed_size.width <= field.size.width
    &&& pos.y + pm.trimmed_size.height <= field.size.height
}

/// A filled cell of the content box, put at `pos`, lies on a cell owned
/// by `symbol`.
pub open spec fn lands_on(field: Field, symbol: (char, char), pm: PieceModel, pos: Pos, x: int, y: int) -> bool {
    filled(pm.trimmed[y][x]) && owned_by(field.at(pos.x + x, pos.y + y), symbol)
}

/// 1 on the filled cells that land on cells owned by `symbol`.
pub open spec fn landing_weight(field: Field, symbol: (char, char), pm: PieceModel, pos: Pos) -> spec_fn(
    int,
    int,
) -> int {
    |x: int, y: int| if lands_on(field, symbol, pm, pos, x, y) { 1int } else { 0int }
}

/// How many filled cells of the content box, put at `pos`, land on cells
/// owned by `symbol`.
pub open spec fn overlaps(field: Field, symbol: (char, char), pm: PieceModel, pos: Pos) -> int {
    board_sum(
        landing_weight(field, symbol, pm, pos),
        pm.trimmed_size.width as int,
        pm.trimmed_size.height as int,
    )
}

/// The placement rule: the box lies on the board, exactly one filled cell
/// lands on the player's territory, and none on the opponent's.
pub open spec fn valid_at(
    field: Field,
    own: (char, char),
    other: (char, char),
    pm: PieceModel,
    pos: Pos,
) -> bool {
    &&& fits(field, pm, pos)
    &&& overlaps(field, own, pm, pos) == 1
    &&& overlaps(field, other, pm, pos) == 0
}

/// The score that one cell of a placement earns: an unfilled piece cell
/// earns 1 over a player cell and 2 over an opponent cell; a filled one
/// earns 4 beside an opponent cell.
pub open spec fn cell_score(field: Field, own: (char, char), other: (char, char), c: char, x: int, y: int) -> int {
    if !filled(c) {
        if owned_by(field.at(x, y), own) {
            1
        } else if owned_by(field.at(x, y), other) {
            2
        } else {
            0
        }
    } else if some_neighbour(field, x, y, |n: char| owned_by(n, other)) {
        4
    } else {
        0
    }
}

pub open spec fn score_weight(
    field: Field,
    own: (char, char),
    other: (char, char),
    pm: PieceModel,
    pos: Pos,
) -> spec_fn(int, int) -> int {
    |x: int, y: int| cell_score(field, own, other, pm.trimmed[y][x], pos.x + x, pos.y + y)
}

/// The score that a valid placement starts with: the sum of its cells'.
pub open spec fn base_score(field: Field, own: (char, char), other: (char, char), pm: PieceModel, pos: Pos) -> int {
    board_sum(
        score_weight(field, own, other, pm, pos),
        pm.trimmed_size.width as int,
        pm.trimmed_size.height as int,
    )
}

/// The valid positions among the first `k` of the scan, which walks the
/// rows top to bottom and each row left to right.
pub open spec fn scan(
    field: Field,
    own: (char, char),
    other: (char, char),
    pm: PieceModel,
    k: int,
) -> Seq<Pos>
    decreases k,
{
    if k <= 0 {
        Seq::empty()
    } else {
        let nx = field.size.width - pm.trimmed_size.width + 1;
        let q = Pos { x: ((k - 1) % nx) as usize, y: ((k - 1) / nx) as usize };
        scan(field, own, other, pm, k - 1) + if valid_at(field, own, other, pm, q) {
            seq![q]
        } else {
            Seq::empty()
        }
    }
}

/// Every valid position of the piece, in scan order.
pub open spec fn candidates(field: Field, own: (char, char), other: (char, char), pm: PieceModel) -> Seq<Pos> {
    let nx = field.size.width - pm.trimmed_size.width + 1;
    let ny = field.size.height - pm.trimmed_size.height + 1;
    if nx >= 1 && ny >= 1 {
        scan(field, own, other, pm, nx * ny)
    } else {
        Seq::empty()
    }
}

pub open spec fn positions(ps: Seq<Placement>) -> Seq<Pos> {
    ps.map_values(|p: Placement| p.pos)
}

proof fn lemma_row_sum_grows(f: spec_fn(int, int) -> int, y: int, n: int, k: int)
    requires
        0 <= k <= n,
        forall|x: int| 0 <= x < n ==> #[trigger] f(x, y) >= 0,
    ensures
        row_sum(f, y, k) <= row_sum(f, y, n),
        row_sum(f, y, n) >= 0,
    decreases n,
{
    if n > 0 {
        if k < n {
            lemma_row_sum_grows(f, y, n - 1, k);
        } else {
            lemma_row_sum_grows(f, y, n - 1, n - 1);
        }
    }
}

/// A sum of non-negative weights over whole rows and a part of the next
/// one stays below the sum over the whole box.
proof fn lemma_board_sum_grows(f: spec_fn(int, int) -> int, width: int, m: int, y: int, k: int)
    requires
        0 <= y < m,
        0 <= k <= width,
        forall|a: int, b: int| 0 <= a < width && 0 <= b < m ==> #[trigger] f(a, b) >= 0,
    ensures
        board_sum(f, width, y) + row_sum(f, y, k) <= board_sum(f, width, m),
    decreases m,
{
    lemma_row_sum_grows(f, m - 1, width, width);
    if y < m - 1 {
        lemma_board_sum_grows(f, width, m - 1, y, k);
    } else {
        lemma_row_sum_grows(f, y, width, k);
    }
}

impl Game {
    /// The board is well formed and no board symbol belongs to both sides.
    pub open spec fn wf(&self) -> bool {
        &&& self.field.wf()
        &&& !owned_by(self.enemy.symbol.0, self.player.symbol)
        &&& !owned_by(self.enemy.symbol.1, self.player.symbol)
    }

    pub fn new(player: Player, enemy: Player, field: Field) -> (r: Game)
        ensures
            r.player == player,
            r.enemy == enemy,
            r.field == field,
            r.pieces@.len() == 0,
            r.turns == 0,
    {
        Game { player, enemy, field, pieces: Vec::new(), turns: 0 }
    }

    /// The placement of `piece` at `pos`, scored by its cells, if the
    /// placement rule allows it.
    pub fn check_placement(&self, piece: &Piece, pos: Pos) -> (r: Option<Placement>)
        requires
            self.wf(),
            piece.trimmed_wf(),
            fits(self.field, piece@, pos),
        ensures
            r is Some <==> valid_at(self.field, self.player.symbol, self.enemy.symbol, piece@, pos),
            r matches Some(pl) ==> pl.pos == pos && pl.piece@ == piece@ && pl.score == base_score(
                self.field,
                self.player.symbol,
                self.enemy.symbol,
                piece@,
                pos,
            ) && 0 <= pl.score <= 4 * (piece.trimmed_size.height * piece.trimmed_size.width),
    {
        let ghost pm = piece@;
        let ghost fo = landing_weight(self.field, self.player.symbol, pm, pos);
        let ghost fe = landing_weight(self.field, self.enemy.symbol, pm, pos);
        let tw = piece.trimmed_size.width;
        let th = piece.trimmed_size.height;
        assert forall|a: int, b: int| 0 <= a < tw && 0 <= b < th implies #[trigger] fo(a, b) >= 0
            && fe(a, b) >= 0 by {}
        let mut overlap: usize = 0;
        let mut dy: usize = 0;
        while dy < th
            invariant
                self.wf(),
                piece.trimmed_wf(),
                fits(self.field, pm, pos),
                pm == piece@,
                tw == pm.trimmed_size.width,
                th == pm.trimmed_size.height,
                fo == landing_weight(self.field, self.player.symbol, pm, pos),
                fe == landing_weight(self.field, self.enemy.symbol, pm, pos),
                forall|a: int, b: int| 0 <= a < tw && 0 <= b < th ==> #[trigger] fo(a, b) >= 0 && fe(a, b) >= 0,
                dy <= th,
                overlap == board_sum(fo, tw as int, dy as int),
                overlap <= 1,
                board_sum(fe, tw as int, dy as int) == 0,
            decreases th - dy,
        {
            let mut dx: usize = 0;
            while dx < tw
                invariant
                    self.wf(),
                    piece.trimmed_wf(),
                    fits(self.field, pm, pos),
                    pm == piece@,
                    tw == pm.trimmed_size.width,
                    th == pm.trimmed_size.height,
                    fo == landing_weight(self.field, self.player.symbol, pm, pos),
                    fe == landing_weight(self.field, self.enemy.symbol, pm, pos),
                    forall|a: int, b: int| 0 <= a < tw && 0 <= b < th ==> #[trigger] fo(a, b) >= 0 && fe(a, b) >= 0,
                    dy < th,
                    dx <= tw,
                    overlap == board_sum(fo, tw as int, dy as int) + row_sum(fo, dy as int, dx as int),
                    overlap <= 1,
                    board_sum(fe, tw as int, dy as int) == 0,
                    row_sum(fe, dy as int, dx as int) == 0,
                decreases tw - dx,
            {
                let c = piece.trimmed_cells[dy][dx];
                let cell = self.field.cells[dy + pos.y][dx + pos.x];
                assert(pm.trimmed[dy as int][dx as int] == c);
                if c != '.' && self.player.is_mine(&cell) {
                    overlap = overlap + 1;
                    if overlap > 1 {
                        proof {
                            lemma_board_sum_grows(fo, tw as int, th as int, dy as int, dx + 1);
                        }
                        return None;
                    }
                } else if c != '.' && self.enemy.is_mine(&cell) {
                    proof {
                        lemma_board_sum_grows(fe, tw as int, th as int, dy as int, dx + 1);
                    }
                    return None;
                }
                dx = dx + 1;
            }
            dy = dy + 1;
        }
        if overlap != 1 {
            return None;
        }
        let score = self.placement_score(piece, pos);
        Some(Placement { pos, score, piece: piece.duplicate() })
    }

    /// The sum of the cell scores of `piece` at `pos`.
    fn placement_score(&self, piece: &Piece, pos: Pos) -> (r: i128)
        requires
            self.wf(),
            piece.trimmed_wf(),
            fits(self.field, piece@, pos),
        ensures
            r == base_score(self.field, self.player.symbol, self.enemy.symbol, piece@, pos),
            0 <= r <= 4 * (piece.trimmed_size.height * piece.trimmed_size.width),
    {
        let ghost pm = piece@;
        let ghost f = score_weight(self.field, self.player.symbol, self.enemy.symbol, pm, pos);
        let tw = piece.trimmed_size.width;
        let th = piece.trimmed_size.height;
        let mut score: i128 = 0;
        let mut dy: usize = 0;
        while dy < th
            invariant
                self.wf(),
                piece.trimmed_wf(),
                fits(self.field, pm, pos),
                pm == piece@,
                tw == pm.trimmed_size.width,
                th == pm.trimmed_size.height,
                f == score_weight(self.field, self.player.symbol, self.enemy.symbol, pm, pos),
                dy <= th,
                score == board_sum(f, tw as int, dy as int),
                0 <= score <= 4 * dy * tw,
            decreases th - dy,
        {
            let mut dx: usize = 0;
            while dx < tw
                invariant
                    self.wf(),
                    piece.trimmed_wf(),
                    fits(self.field, pm, pos),
                    pm == piece@,
                    tw == pm.trimmed_size.width,
                    th == pm.trimmed_size.height,
                    f == score_weight(self.field, self.player.symbol, self.enemy.symbol, pm, pos),
                    dy < th,
                    dx <= tw,
                    score == board_sum(f, tw as int, dy as int) + row_sum(f, dy as int, dx as int),
                    0 <= score <= 4 * dy * tw + 4 * dx,
                decreases tw - dx,
            {
                proof {
                    assert(dy * tw + dx < th * tw) by (nonlinear_arith)
                        requires
                            dy < th,
                            dx < tw,
                    ;
                    assert(th * tw <= self.field.size.height * self.field.size.width) by (nonlinear_arith)
                        requires
                            th <= self.field.size.height,
                            tw <= self.field.size.width,
                    ;
                    assert(4 * dy * tw + 4 * dx == 4 * (dy * tw + dx)) by (nonlinear_arith);
                }
                let c = piece.trimmed_cells[dy][dx];
                assert(pm.trimmed[dy as int][dx as int] == c);
                let s = self.get_cell_score(c, Pos { y: pos.y + dy, x: pos.x + dx });
                score = score + s;
                dx = dx + 1;
            }
            proof {
                assert(4 * dy * tw + 4 * tw == 4 * (dy + 1) * tw) by (nonlinear_arith);
            }
            dy = dy + 1;
        }
        assert(4 * th * tw == 4 * (th * tw)) by (nonlinear_arith);
        score
    }

    /// What one cell of a placement earns: see `cell_score`.
    pub fn get_cell_score(&self, piece_cell: char, cell_pos: Pos) -> (r: i128)
        requires
            self.wf(),
            self.field.in_bounds(cell_pos.x as int, cell_pos.y as int),
        ensures
            r == cell_score(
                self.field,
                self.player.symbol,
                self.enemy.symbol,
                piece_cell,
                cell_pos.x as int,
                cell_pos.y as int,
            ),
            0 <= r <= 4,
    {
        let n = get_adjacent_cells(&self.field, &cell_pos);
        if piece_cell == '.' {
            let cur = self.field.cells[cell_pos.y][cell_pos.x];
            if self.player.is_mine(&cur) {
                1
            } else if self.enemy.is_mine(&cur) {
                2
            } else {
                0
            }
        } else if (n.0.is_some() && self.enemy.is_mine(&n.0.unwrap())) || (n.1.is_some()
            && self.enemy.is_mine(&n.1.unwrap())) || (n.2.is_some() && self.enemy.is_mine(
            &n.2.unwrap(),
        )) || (n.3.is_some() && self.enemy.is_mine(&n.3.unwrap())) {
            4
        } else {
            0
        }
    }

    /// Every valid placement of `p`, in scan order, each scored by its
    /// cells.
    pub fn find_placements(&self, p: &Piece) -> (r: Vec<Placement>)
        requires
            self.wf(),
            p.trimmed_wf(),
            1 <= p.trimmed_size.width <= self.field.size.width,
            1 <= p.trimmed_size.height,
            p.trimmed_size.height <= self.field.size.height,
        ensures
            positions(r@) == candidates(self.field, self.player.symbol, self.enemy.symbol, p@),
            forall|k: int|
                0 <= k < r@.len() ==> (#[trigger] r@[k]).piece@ == p@ && valid_at(
                    self.field,
                    self.player.symbol,
                    self.enemy.symbol,
                    p@,
                    r@[k].pos,
                ) && r@[k].score == base_score(
                    self.field,
                    self.player.symbol,
                    self.enemy.symbol,
                    p@,
                    r@[k].pos,
                ) && 0 <= r@[k].score <= 4 * (p.trimmed_size.height * p.trimmed_size.width),
    {
        let ghost pm = p@;
        let nx = self.field.size.width - p.trimmed_size.width + 1;
        let ny = self.field.size.height - p.trimmed_size.height + 1;
        let mut out: Vec<Placement> = Vec::new();
        let mut y: usize = 0;
        while y < ny
            invariant
                self.wf(),
                p.trimmed_wf(),
                pm == p@,
                nx == self.field.size.width - pm.trimmed_size.width + 1,
                ny == self.field.size.height - pm.trimmed_size.height + 1,
                y <= ny,
                positions(out@) == scan(self.field, self.player.symbol, self.enemy.symbol, pm, y * nx),
                forall|k: int|
                    0 <= k < out@.len() ==> (#[trigger] out@[k]).piece@ == pm && valid_at(
                        self.field,
                        self.player.symbol,
                        self.enemy.symbol,
                        pm,
                        out@[k].pos,
                    ) && out@[k].score == base_score(
                        self.field,
                        self.player.symbol,
                        self.enemy.symbol,
                        pm,
                        out@[k].pos,
                    ) && 0 <= out@[k].score <= 4 * (pm.trimmed_size.height * pm.trimmed_size.width),
            decreases ny - y,
        {
            let mut x: usize = 0;
            while x < nx
                invariant
                    self.wf(),
                    p.trimmed_wf(),
                    pm == p@,
                    nx == self.field.size.width - pm.trimmed_size.width + 1,
                    ny == self.field.size.height - pm.trimmed_size.height + 1,
                    y < ny,
                    x <= nx,
                    positions(out@) == scan(
                        self.field,
                        self.player.symbol,
                        self.enemy.symbol,
                        pm,
                        y * nx + x,
                    ),
                    forall|k: int|
                        0 <= k < out@.len() ==> (#[trigger] out@[k]).piece@ == pm && valid_at(
                            self.field,
                            self.player.symbol,
                            self.enemy.symbol,
                            pm,
                            out@[k].pos,
                        ) && out@[k].score == base_score(
                            self.field,
                            self.player.symbol,
                            self.enemy.symbol,
                            pm,
                            out@[k].pos,
                        ) && 0 <= out@[k].score <= 4 * (pm.trimmed_size.height * pm.trimmed_size.width),
                decreases nx - x,
            {
                let q = Pos { x, y };
                proof {
                    lemma_fundamental_div_mod_converse(y * nx + x, nx as int, y as int, x as int);
                }
                let ghost before = out@;
                match self.check_placement(p, q) {
                    Some(pl) => {
                        out.push(pl);
                        assert(positions(out@) =~= positions(before) + seq![q]);
                    },
                    None => {
                        assert(positions(out@) =~= positions(before) + Seq::<Pos>::empty());
                    },
                }
                x = x + 1;
            }
            proof {
                assert(y * nx + nx == (y + 1) * nx) by (nonlinear_arith);
            }
            y = y + 1;
        }
        assert(ny * nx == nx * ny) by (nonlinear_arith);
        out
    }

    /// Places `p` for the player: see `chosen_move`. When a move is found
    /// the piece joins the history, the player's count of placed pieces
    /// grows by one, and the piece's filled cells become the player's.
    pub fn place_piece(&mut self, p: Piece) -> (r: (i32, i32))
        requires
            old(self).wf(),
            p.trimmed_wf(),
            old(self).turns < usize::MAX,
            old(self).player.score < usize::MAX,
            old(self).field.size.width <= i32::MAX,
            old(self).field.size.height <= i32::MAX,
            p.offset.0 <= i32::MAX,
            p.offset.1 <= i32::MAX,
        ensures
            r == (chosen_move(*old(self), p).0 as i32, chosen_move(*old(self), p).1 as i32),
            final(self).wf(),
            final(self).turns == old(self).turns + 1,
            final(self).enemy == old(self).enemy,
            final(self).player.symbol == old(self).player.symbol,
            final(self).field.size == old(self).field.size,
            has_move(*old(self), p) ==> {
                let b = best_position(*old(self), p);
                &&& final(self).pieces@ == old(self).pieces@.push(p)
                &&& final(self).player.score == old(self).player.score + 1
                &&& forall|x: int, y: int|
                    #![trigger final(self).field.at(x, y)]
                    old(self).field.in_bounds(x, y) ==> final(self).field.at(x, y) == if covers(
                        p@,
                        b,
                        x,
                        y,
                    ) {
                        old(self).player.symbol.0
                    } else {
                        old(self).field.at(x, y)
                    }
            },
            !has_move(*old(self), p) ==> final(self).pieces == old(self).pieces && final(self).player
                == old(self).player && final(self).field == old(self).field,
    {
        self.turns = self.turns + 1;
        let tw = p.trimmed_size.width;
        let th = p.trimmed_size.height;
        if tw == 0 || th == 0 || th > self.field.size.height || tw > self.field.size.width {
            return (0, 0);
        }
        let enemy_pos = get_average_pos(&self.field, self.player.symbol, true);
        let placements = self.find_placements(&p);
        if placements.len() == 0 {
            return (0, 0);
        }
        let ghost ps = placements@;
        let ghost seeded = seed(*old(self), p);
        proof {
            assert(th * tw <= self.field.size.height * self.field.size.width) by (nonlinear_arith)
                requires
                    th <= self.field.size.height,
                    tw <= self.field.size.width,
            ;
            assert(self.field.size.height * self.field.size.width == self.field.size.width
                * self.field.size.height) by (nonlinear_arith);
            assert(4 * (th * tw) <= INPUT_LIMIT) by (nonlinear_arith)
                requires
                    th * tw <= self.field.size.height * self.field.size.width,
                    self.field.size.height * self.field.size.width <= 0xffff_ffff_ffff_ffff,
            ;
            assert forall|i: int| 0 <= i < ps.len() implies placed(self.field, #[trigger] ps[i]) by {
                assert(positions(ps)[i] == ps[i].pos);
            }
            assert(models(ps) =~= models(seeded)) by {
                assert forall|i: int| 0 <= i < ps.len() implies #[trigger] models(ps)[i] == models(seeded)[i] by {
                    assert(positions(ps)[i] == ps[i].pos);
                }
            }
            assert(final_scores(self.field, self.player.symbol, enemy_pos, self.turns as int, ps)
                =~= final_scores(self.field, self.player.symbol, enemy_pos, self.turns as int, seeded));
        }
        let best = evaluate_placements(
            &self.field,
            placements,
            enemy_pos,
            self.turns,
            self.player.symbol,
            &self.pieces,
        );
        let pos = best.pos;
        proof {
            let s = final_scores(self.field, self.player.symbol, enemy_pos, self.turns as int, ps);
            let k = best_index(s, s.len() as int);
            assert(positions(ps)[k] == ps[k].pos);
            assert(pos == best_position(*old(self), p));
        }
        self.commit(&p, pos);
        self.pieces.push(p);
        self.player.score = self.player.score + 1;
        (pos.x as i32 - best.piece.offset.1 as i32, pos.y as i32 - best.piece.offset.0 as i32)
    }

    /// Gives the player the cells under the filled cells of `p` at `pos`.
    fn commit(&mut self, p: &Piece, pos: Pos)
        requires
            old(self).wf(),
            p.trimmed_wf(),
            fits(old(self).field, p@, pos),
        ensures
            final(self).wf(),
            final(self).player == old(self).player,
            final(self).enemy == old(self).enemy,
            final(self).pieces == old(self).pieces,
            final(self).turns == old(self).turns,
            final(self).field.size == old(self).field.size,
            forall|x: int, y: int|
                #![trigger final(self).field.at(x, y)]
                old(self).field.in_bounds(x, y) ==> final(self).field.at(x, y) == if covers(
                    p@,
                    pos,
                    x,
                    y,
                ) {
                    old(self).player.symbol.0
                } else {
                    old(self).field.at(x, y)
                },
    {
        let ghost before = self.field;
        let mark = self.player.symbol.0;
        let tw = p.trimmed_size.width;
        let th = p.trimmed_size.height;
        let mut dy: usize = 0;
        while dy < th
            invariant
                self.wf(),
                p.trimmed_wf(),
                fits(before, p@, pos),
                self.player == old(self).player,
                self.enemy == old(self).enemy,
                self.pieces == old(self).pieces,
                self.turns == old(self).turns,
                self.field.size == before.size,
                before == old(self).field,
                mark == old(self).player.symbol.0,
                tw == p.trimmed_size.width,
                th == p.trimmed_size.height,
                dy <= th,
                forall|x: int, y: int|
                    #![trigger self.field.at(x, y)]
                    before.in_bounds(x, y) ==> self.field.at(x, y) == if covers(p@, pos, x, y) && y < pos.y + dy {
                        mark
                    } else {
                        before.at(x, y)
                    },
            decreases th - dy,
        {
            let mut dx: usize = 0;
            while dx < tw
                invariant
                    self.wf(),
                    p.trimmed_wf(),
                    fits(before, p@, pos),
                    self.player == old(self).player,
                    self.enemy == old(self).enemy,
                    self.pieces == old(self).pieces,
                    self.turns == old(self).turns,
                    self.field.size == before.size,
                    before == old(self).field,
                    mark == old(self).player.symbol.0,
                    tw == p.trimmed_size.width,
                    th == p.trimmed_size.height,
                    dy < th,
                    dx <= tw,
                    forall|x: int, y: int|
                        #![trigger self.field.at(x, y)]
                        before.in_bounds(x, y) ==> self.field.at(x, y) == if covers(p@, pos, x, y) && (y
                            < pos.y + dy || (y == pos.y + dy && x < pos.x + dx)) {
                            mark
                        } else {
                            before.at(x, y)
                        },
                decreases tw - dx,
            {
                assert(p@.trimmed[dy as int] == p.trimmed_cells@[dy as int]@);
                let y = pos.y + dy;
                let x = pos.x + dx;
                let ghost f0 = self.field;
                if p.trimmed_cells[dy][dx] != '.' {
                    self.field.cells[y][x] = mark;
                    assert(self.field.cells@[y as int]@ =~= f0.cells@[y as int]@.update(x as int, mark));
                    assert forall|r: int| 0 <= r < self.field.cells@.len() && r != y implies (#[trigger] self.field.cells@[r])@ == f0.cells@[r]@ by {}
                }
                assert forall|a: int, b: int|
                    #![trigger self.field.at(a, b)]
                    before.in_bounds(a, b) implies self.field.at(a, b) == if covers(p@, pos, a, b) && (b
                        < pos.y + dy || (b == pos.y + dy && a < pos.x + dx + 1)) {
                        mark
                    } else {
                        before.at(a, b)
                    } by {
                    if a == x && b == y {
                    } else {
                        assert(self.field.at(a, b) == f0.at(a, b));
                    }
                }
                dx = dx + 1;
            }
            dy = dy + 1;
        }
    }
}

/// A filled cell of the content box, put at `pos`, lies on `(x, y)`.
pub open spec fn covers(pm: PieceModel, pos: Pos, x: int, y: int) -> bool {
    &&& pos.x <= x < pos.x + pm.trimmed_size.width
    &&& pos.y <= y < pos.y + pm.trimmed_size.height
    &&& filled(pm.trimmed[y - pos.y][x - pos.x])
}

/// The candidates of `p`, each with the score of its cells.
pub open spec fn seed(g: Game, p: Piece) -> Seq<Placement> {
    let cands = candidates(g.field, g.player.symbol, g.enemy.symbol, p@);
    Seq::new(
        cands.len(),
        |i: int|
            Placement {
                pos: cands[i],
                score: base_score(g.field, g.player.symbol, g.enemy.symbol, p@, cands[i]) as i128,
                piece: p,
            },
    )
}

/// `p` has a non-empty content box that fits on the board, and a valid
/// position.
pub open spec fn has_move(g: Game, p: Piece) -> bool {
    &&& p.trimmed_size.width >= 1
    &&& p.trimmed_size.height >= 1
    &&& p.trimmed_size.width <= g.field.size.width
    &&& p.trimmed_size.height <= g.field.size.height
    &&& candidates(g.field, g.player.symbol, g.enemy.symbol, p@).len() > 0
}

/// The winning position of the content box: the last candidate with the
/// greatest total score on the turn that `g` starts.
pub open spec fn best_position(g: Game, p: Piece) -> Pos {
    let ps = seed(g, p);
    let s = final_scores(
        g.field,
        g.player.symbol,
        average_pos(g.field, g.player.symbol, true),
        g.turns + 1,
        ps,
    );
    ps[best_index(s, s.len() as int)].pos
}

/// The answer to `p`: the winning position moved back by the piece's
/// offset into the frame of the piece as read, or `(0, 0)` when the piece
/// has no move.
pub open spec fn chosen_move(g: Game, p: Piece) -> (int, int) {
    if has_move(g, p) {
        let b = best_position(g, p);
        (b.x - p.offset.1, b.y - p.offset.0)
    } else {
        (0, 0)
    }
}

} // verus!

//! Board queries and the heuristics that score candidate placements.
use vstd::prelude::*;

use vstd::arithmetic::div_mod::lemma_fundamental_div_mod_converse;

use crate::bonus::{decay_start, growth_bonus, growth_start, lemma_tier_vanishes, start_bonus, tier, tier_bonus};
use crate::cell::{enemy_of, filled, is_enemy_cell, is_player_cell, owned_by, EMPTY};
use crate::field::Field;
use crate::game::{fits, model_wf, Placement, Pos};
use crate::piece::{Piece, PieceModel};

verus! {

/// The cells above, below, left and right of `(x, y)`, where they exist.
pub open spec fn neighbours(field: Field, x: int, y: int) -> (
    Option<char>,
    Option<char>,
    Option<char>,
    Option<char>,
) {
    (
        if y > 0 { Some(field.at(x, y - 1)) } else { None },
        if y + 1 < field.size.height { Some(field.at(x, y + 1)) } else { None },
        if x > 0 { Some(field.at(x - 1, y)) } else { None },
        if x + 1 < field.size.width { Some(field.at(x + 1, y)) } else { None },
    )
}

/// One of the four neighbours of `(x, y)` is a cell that `pred` accepts.
pub open spec fn some_neighbour(field: Field, x: int, y: int, pred: spec_fn(char) -> bool) -> bool {
    let n = neighbours(field, x, y);
    (n.0 matches Some(c) && pred(c)) || (n.1 matches Some(c) && pred(c)) || (n.2 matches Some(c)
        && pred(c)) || (n.3 matches Some(c) && pred(c))
}

/// The cells around `placement`: above, below, left, right.
pub fn get_adjacent_cells(field: &Field, placement: &Pos) -> (r: (
    Option<char>,
    Option<char>,
    Option<char>,
    Option<char>,
))
    requires
        field.wf(),
        field.in_bounds(placement.x as int, placement.y as int),
    ensures
        r == neighbours(*field, placement.x as int, placement.y as int),
{
    let x = placement.x;
    let y = placement.y;
    let up = if y > 0 { Some(field.cells[y - 1][x]) } else { None };
    let down = if y + 1 < field.size.height { Some(field.cells[y + 1][x]) } else { None };
    let left = if x > 0 { Some(field.cells[y][x - 1]) } else { None };
    let right = if x + 1 < field.size.width { Some(field.cells[y][x + 1]) } else { None };
    (up, down, left, right)
}

/// An opponent cell of the board with a player cell beside it.
pub open spec fn contact_at(field: Field, symbol: (char, char), x: int, y: int) -> bool {
    &&& field.in_bounds(x, y)
    &&& enemy_of(field.at(x, y), symbol)
    &&& some_neighbour(field, x, y, |c: char| owned_by(c, symbol))
}

/// The player's territory touches the opponent's on some side.
pub open spec fn in_contact(field: Field, symbol: (char, char)) -> bool {
    exists|x: int, y: int| #[trigger] contact_at(field, symbol, x, y)
}

/// Whether some player cell is beside some opponent cell.
pub fn check_if_touching_enemy_cell(field: &Field, player_symbol: (char, char)) -> (r: bool)
    requires
        field.wf(),
    ensures
        r == in_contact(*field, player_symbol),
{
    let mut y: usize = 0;
    while y < field.size.height
        invariant
            field.wf(),
            y <= field.size.height,
            forall|a: int, b: int| 0 <= b < y ==> !#[trigger] contact_at(*field, player_symbol, a, b),
        decreases field.size.height - y,
    {
        let mut x: usize = 0;
        while x < field.size.width
            invariant
                field.wf(),
                y < field.size.height,
                x <= field.size.width,
                forall|a: int, b: int| 0 <= b < y ==> !#[trigger] contact_at(*field, player_symbol, a, b),
                forall|a: int| 0 <= a < x ==> !#[trigger] contact_at(*field, player_symbol, a, y as int),
            decreases field.size.width - x,
        {
            let cell = field.cells[y][x];
            if is_enemy_cell(Some(cell), player_symbol) {
                let n = get_adjacent_cells(field, &Pos { x, y });
                if is_player_cell(n.0, player_symbol) || is_player_cell(n.1, player_symbol)
                    || is_player_cell(n.2, player_symbol) || is_player_cell(n.3, player_symbol) {
                    assert(contact_at(*field, player_symbol, x as int, y as int));
                    return true;
                }
            }
            x = x + 1;
        }
        y = y + 1;
    }
    false
}

/// The cells of the player (`enemy` false) or of its opponent (`enemy` true).
pub open spec fn counted(field: Field, symbol: (char, char), enemy: bool, x: int, y: int) -> bool {
    if enemy {
        enemy_of(field.at(x, y), symbol)
    } else {
        owned_by(field.at(x, y), symbol)
    }
}

/// Sum of `f` over the first `n` cells of row `y`.
pub open spec fn row_sum(f: spec_fn(int, int) -> int, y: int, n: int) -> int
    decreases n,
{
    if n <= 0 {
        0
    } else {
        row_sum(f, y, n - 1) + f(n - 1, y)
    }
}

/// Sum of `f` over the first `m` rows of `width` cells.
pub open spec fn board_sum(f: spec_fn(int, int) -> int, width: int, m: int) -> int
    decreases m,
{
    if m <= 0 {
        0
    } else {
        board_sum(f, width, m - 1) + row_sum(f, m - 1, width)
    }
}

/// 1 on the counted cells.
pub open spec fn count_weight(field: Field, symbol: (char, char), enemy: bool) -> spec_fn(int, int) -> int {
    |x: int, y: int| if counted(field, symbol, enemy, x, y) { 1int } else { 0int }
}

/// The column on the counted cells.
pub open spec fn x_weight(field: Field, symbol: (char, char), enemy: bool) -> spec_fn(int, int) -> int {
    |x: int, y: int| if counted(field, symbol, enemy, x, y) { x } else { 0int }
}

/// The row on the counted cells.
pub open spec fn y_weight(field: Field, symbol: (char, char), enemy: bool) -> spec_fn(int, int) -> int {
    |x: int, y: int| if counted(field, symbol, enemy, x, y) { y } else { 0int }
}

/// The mean column and row, each rounded down, of the counted cells, if
/// there is any.
pub open spec fn average_pos(field: Field, symbol: (char, char), enemy: bool) -> Option<Pos> {
    let w = field.size.width as int;
    let h = field.size.height as int;
    let n = board_sum(count_weight(field, symbol, enemy), w, h);
    if n == 0 {
        None
    } else {
        Some(
            Pos {
                x: (board_sum(x_weight(field, symbol, enemy), w, h) / n) as usize,
                y: (board_sum(y_weight(field, symbol, enemy), w, h) / n) as usize,
            },
        )
    }
}

proof fn lemma_row_sum_scaled(
    f: spec_fn(int, int) -> int,
    g: spec_fn(int, int) -> int,
    c: int,
    y: int,
    n: int,
)
    requires
        forall|x: int| 0 <= x < n ==> #[trigger] f(x, y) <= c * g(x, y),
    ensures
        row_sum(f, y, n) <= c * row_sum(g, y, n),
    decreases n,
{
    if n > 0 {
        lemma_row_sum_scaled(f, g, c, y, n - 1);
        let a = row_sum(g, y, n - 1);
        let b = g(n - 1, y);
        assert(c * a + c * b == c * (a + b)) by (nonlinear_arith);
    }
}

proof fn lemma_board_sum_scaled(
    f: spec_fn(int, int) -> int,
    g: spec_fn(int, int) -> int,
    c: int,
    width: int,
    m: int,
)
    requires
        forall|x: int, y: int| 0 <= x < width && 0 <= y < m ==> #[trigger] f(x, y) <= c * g(x, y),
    ensures
        board_sum(f, width, m) <= c * board_sum(g, width, m),
    decreases m,
{
    if m > 0 {
        lemma_board_sum_scaled(f, g, c, width, m - 1);
        lemma_row_sum_scaled(f, g, c, m - 1, width);
        let a = board_sum(g, width, m - 1);
        let b = row_sum(g, m - 1, width);
        assert(c * a + c * b == c * (a + b)) by (nonlinear_arith);
    }
}

/// A mean of values below `bound` stays below it.
proof fn lemma_average_fits(
    f: spec_fn(int, int) -> int,
    g: spec_fn(int, int) -> int,
    width: int,
    height: int,
    bound: int,
    s: int,
    n: int,
)
    requires
        forall|x: int, y: int| 0 <= x < width && 0 <= y < height ==> #[trigger] f(x, y) <= bound * g(x, y),
        s == board_sum(f, width, height),
        n == board_sum(g, width, height),
        n >= 1,
        bound >= 0,
    ensures
        s / n <= bound,
{
    lemma_board_sum_scaled(f, g, bound, width, height);
    assert(s / n <= bound) by (nonlinear_arith)
        requires
            s <= bound * n,
            n >= 1,
    ;
}

/// The mean position of the opponent's cells (`looking_for_enemy`) or of
/// the player's, or `None` where there are none.
pub fn get_average_pos(field: &Field, player_symbol: (char, char), looking_for_enemy: bool) -> (r:
    Option<Pos>)
    requires
        field.wf(),
    ensures
        r == average_pos(*field, player_symbol, looking_for_enemy),
        r matches Some(t) ==> field.in_bounds(t.x as int, t.y as int),
{
    let ghost fc = count_weight(*field, player_symbol, looking_for_enemy);
    let ghost fx = x_weight(*field, player_symbol, looking_for_enemy);
    let ghost fy = y_weight(*field, player_symbol, looking_for_enemy);
    let w = field.size.width;
    let h = field.size.height;
    let mut count: u128 = 0;
    let mut sum_x: u128 = 0;
    let mut sum_y: u128 = 0;
    let mut y: usize = 0;
    while y < h
        invariant
            field.wf(),
            fc == count_weight(*field, player_symbol, looking_for_enemy),
            fx == x_weight(*field, player_symbol, looking_for_enemy),
            fy == y_weight(*field, player_symbol, looking_for_enemy),
            w == field.size.width,
            h == field.size.height,
            y <= h,
            count == board_sum(fc, w as int, y as int),
            sum_x == board_sum(fx, w as int, y as int),
            sum_y == board_sum(fy, w as int, y as int),
            count <= y * w,
            sum_x <= y * w * w,
            sum_y <= y * w * h,
        decreases h - y,
    {
        let mut x: usize = 0;
        while x < w
            invariant
                field.wf(),
                fc == count_weight(*field, player_symbol, looking_for_enemy),
                fx == x_weight(*field, player_symbol, looking_for_enemy),
                fy == y_weight(*field, player_symbol, looking_for_enemy),
                w == field.size.width,
                h == field.size.height,
                y < h,
                x <= w,
                count == board_sum(fc, w as int, y as int) + row_sum(fc, y as int, x as int),
                sum_x == board_sum(fx, w as int, y as int) + row_sum(fx, y as int, x as int),
                sum_y == board_sum(fy, w as int, y as int) + row_sum(fy, y as int, x as int),
                count <= y * w + x,
                sum_x <= y * w * w + x * w,
                sum_y <= y * w * h + x * h,
            decreases w - x,
        {
            proof {
                assert(y * w + x < w * h) by (nonlinear_arith)
                    requires
                        y < h,
                        x < w,
                ;
                assert(y * w * w + x * w < w * h * w) by (nonlinear_arith)
                    requires
                        y < h,
                        x < w,
                ;
                assert(y * w * h + x * h < w * h * h) by (nonlinear_arith)
                    requires
                        y < h,
                        x < w,
                ;
                assert(w * h * w <= 0xffff_ffff_ffff_ffff * 0xffff_ffff_ffff_ffff) by (nonlinear_arith)
                    requires
                        w * h <= 0xffff_ffff_ffff_ffff,
                        w <= 0xffff_ffff_ffff_ffff,
                ;
                assert(w * h * h <= 0xffff_ffff_ffff_ffff * 0xffff_ffff_ffff_ffff) by (nonlinear_arith)
                    requires
                        w * h <= 0xffff_ffff_ffff_ffff,
                        h <= 0xffff_ffff_ffff_ffff,
                ;
            }
            proof {
                assert((x + 1) * w == x * w + w) by (nonlinear_arith);
                assert((x + 1) * h == x * h + h) by (nonlinear_arith);
            }
            let cell = field.cells[y][x];
            let hit = if looking_for_enemy {
                is_enemy_cell(Some(cell), player_symbol)
            } else {
                is_player_cell(Some(cell), player_symbol)
            };
            if hit {
                count = count + 1;
                sum_x = sum_x + x as u128;
                sum_y = sum_y + y as u128;
            }
            x = x + 1;
        }
        y = y + 1;
        proof {
            assert((y - 1) * w + w == y * w) by (nonlinear_arith);
            assert((y - 1) * w * w + w * w == y * w * w) by (nonlinear_arith);
            assert((y - 1) * w * h + w * h == y * w * h) by (nonlinear_arith);
        }
    }
    if count == 0 {
        None
    } else {
        proof {
            assert(sum_x / count <= sum_x) by (nonlinear_arith)
                requires
                    count >= 1,
            ;
        }
        let ax = sum_x / count;
        let ay = sum_y / count;
        proof {
            assert(w >= 1 && h >= 1) by (nonlinear_arith)
                requires
                    1 <= count <= h * w,
            ;
            lemma_average_fits(fx, fc, w as int, h as int, w - 1, sum_x as int, count as int);
            lemma_average_fits(fy, fc, w as int, h as int, h - 1, sum_y as int, count as int);
        }
        Some(Pos { x: ax as usize, y: ay as usize })
    }
}

/// Scores handed to a heuristic stay within this bound, so that what the
/// heuristics add never overflows.
pub const SCORE_LIMIT: i128 = 21267647932558653966460912964485513216;

/// No heuristic adds more than this to a score.
pub const BONUS_CAP: i128 = 1180591620717411303424;

/// Scores handed to the whole pipeline stay within this bound.
pub const INPUT_LIMIT: i128 = 1329227995784915872903807060280344576;

/// No score of `after` is below its score in `before`, nor more than
/// `cap` above it.
pub open spec fn raised(before: Seq<Placement>, after: Seq<Placement>, cap: int) -> bool {
    forall|i: int|
        0 <= i < before.len() ==> before[i].score <= (#[trigger] after[i]).score <= before[i].score + cap
}

/// A candidate as the heuristics see it: its position and its piece.
pub open spec fn models(ps: Seq<Placement>) -> Seq<(Pos, PieceModel)> {
    ps.map_values(|p: Placement| (p.pos, p.piece@))
}

/// A candidate whose non-empty content box lies on the board.
pub open spec fn placed(field: Field, pl: Placement) -> bool {
    &&& model_wf(pl.piece@)
    &&& fits(field, pl.piece@, pl.pos)
    &&& pl.piece@.trimmed_size.width >= 1
    &&& pl.piece@.trimmed_size.height >= 1
}

pub open spec fn all_placed(field: Field, ps: Seq<Placement>) -> bool {
    forall|i: int| 0 <= i < ps.len() ==> placed(field, #[trigger] ps[i])
}

pub open spec fn bounded(ps: Seq<Placement>, limit: int) -> bool {
    forall|i: int| 0 <= i < ps.len() ==> -limit <= (#[trigger] ps[i]).score <= limit
}

/// `after` is `before` with `bonus(i)` added to the score of candidate `i`.
pub open spec fn rescored(before: Seq<Placement>, after: Seq<Placement>, bonus: spec_fn(int) -> int) -> bool {
    &&& after.len() == before.len()
    &&& forall|i: int|
        0 <= i < before.len() ==> (#[trigger] after[i]).pos == before[i].pos && after[i].piece
            == before[i].piece && after[i].score == before[i].score + bonus(i)
}

/// The centre of a placed piece: its position plus half of the content
/// box's size and offset, pulled back onto the board.
pub open spec fn center(field: Field, c: (Pos, PieceModel)) -> Pos {
    let cx = c.0.x + (c.1.trimmed_size.width + c.1.offset.1) / 2;
    let cy = c.0.y + (c.1.trimmed_size.height + c.1.offset.0) / 2;
    Pos {
        x: (if cx < field.size.width { cx } else { field.size.width - 1 }) as usize,
        y: (if cy < field.size.height { cy } else { field.size.height - 1 }) as usize,
    }
}

pub fn get_center_of_piece(field: &Field, placement: &Pos, piece: &Piece) -> (r: Pos)
    requires
        field.size.width >= 1,
        field.size.height >= 1,
    ensures
        r == center(*field, (*placement, piece@)),
        field.in_bounds(r.x as int, r.y as int),
{
    let hx = (piece.trimmed_size.width as u128 + piece.offset.1 as u128) / 2;
    let hy = (piece.trimmed_size.height as u128 + piece.offset.0 as u128) / 2;
    let cx = placement.x as u128 + hx;
    let cy = placement.y as u128 + hy;
    let x = if cx < field.size.width as u128 {
        cx as usize
    } else {
        field.size.width - 1
    };
    let y = if cy < field.size.height as u128 {
        cy as usize
    } else {
        field.size.height - 1
    };
    Pos { x, y }
}

/// Squared Euclidean distance.
pub open spec fn dist2(a: Pos, b: Pos) -> int {
    (a.x - b.x) * (a.x - b.x) + (a.y - b.y) * (a.y - b.y)
}

proof fn lemma_square_fits(d: int, w: int, h: int)
    requires
        0 <= d < w,
        h >= 2,
        w * h <= 0xffff_ffff_ffff_ffff,
    ensures
        d * d < 0x4000_0000_0000_0000_0000_0000_0000_0000,
{
    assert(w * 2 <= w * h) by (nonlinear_arith)
        requires
            h >= 2,
            w >= 0,
    ;
    assert(d * d < 0x4000_0000_0000_0000_0000_0000_0000_0000) by (nonlinear_arith)
        requires
            0 <= d < w,
            w * 2 <= 0xffff_ffff_ffff_ffff,
    ;
}

proof fn lemma_dist_fits(dx: int, dy: int, w: int, h: int)
    requires
        0 <= dx < w,
        0 <= dy < h,
        w * h <= 0xffff_ffff_ffff_ffff,
    ensures
        dx * dx + dy * dy <= u128::MAX,
{
    assert(dx * dx <= 0xffff_ffff_ffff_ffff * 0xffff_ffff_ffff_ffff) by (nonlinear_arith)
        requires
            0 <= dx < w,
            w * h <= 0xffff_ffff_ffff_ffff,
            h >= 1,
    ;
    assert(dy * dy <= 0xffff_ffff_ffff_ffff * 0xffff_ffff_ffff_ffff) by (nonlinear_arith)
        requires
            0 <= dy < h,
            w * h <= 0xffff_ffff_ffff_ffff,
            w >= 1,
    ;
    if w == 1 {
        assert(dx == 0);
    } else if h == 1 {
        assert(dy == 0);
    } else {
        lemma_square_fits(dx, w, h);
        assert(h * w == w * h) by (nonlinear_arith);
        lemma_square_fits(dy, h, w);
    }
}

fn distance_sq(field: &Field, a: Pos, b: Pos) -> (r: u128)
    requires
        field.wf(),
        field.in_bounds(a.x as int, a.y as int),
        field.in_bounds(b.x as int, b.y as int),
    ensures
        r == dist2(a, b),
{
    let dx: u128 = if a.x > b.x {
        (a.x - b.x) as u128
    } else {
        (b.x - a.x) as u128
    };
    let dy: u128 = if a.y > b.y {
        (a.y - b.y) as u128
    } else {
        (b.y - a.y) as u128
    };
    proof {
        lemma_dist_fits(dx as int, dy as int, field.size.width as int, field.size.height as int);
        assert(dx * dx == (a.x - b.x) * (a.x - b.x)) by (nonlinear_arith)
            requires
                dx == a.x - b.x || dx == b.x - a.x,
        ;
        assert(dy * dy == (a.y - b.y) * (a.y - b.y)) by (nonlinear_arith)
            requires
                dy == a.y - b.y || dy == b.y - a.y,
        ;
    }
    dx * dx + dy * dy
}

/// Candidate `j` ranks before candidate `i`: its centre is nearer the
/// target, or as near and earlier in the list.
pub open spec fn ranks_before(field: Field, cs: Seq<(Pos, PieceModel)>, target: Pos, j: int, i: int) -> bool {
    let dj = dist2(center(field, cs[j]), target);
    let di = dist2(center(field, cs[i]), target);
    dj < di || (dj == di && j < i)
}

/// How many of the first `m` candidates rank before candidate `i`.
pub open spec fn rank_among(field: Field, cs: Seq<(Pos, PieceModel)>, target: Pos, i: int, m: int) -> int
    decreases m,
{
    if m <= 0 {
        0
    } else {
        rank_among(field, cs, target, i, m - 1) + if ranks_before(field, cs, target, m - 1, i) {
            1int
        } else {
            0int
        }
    }
}

/// The place of candidate `i` when the candidates are ordered by the
/// distance of their centres to `target`, ties kept in list order.
pub open spec fn rank(field: Field, cs: Seq<(Pos, PieceModel)>, target: Pos, i: int) -> int {
    rank_among(field, cs, target, i, cs.len() as int)
}

pub proof fn lemma_rank_grows(field: Field, cs: Seq<(Pos, PieceModel)>, target: Pos, i: int, m: int, n: int)
    requires
        0 <= m <= n,
    ensures
        0 <= rank_among(field, cs, target, i, m) <= rank_among(field, cs, target, i, n),
    decreases n,
{
    if n > m {
        lemma_rank_grows(field, cs, target, i, m, n - 1);
    } else if m > 0 {
        lemma_rank_grows(field, cs, target, i, m - 1, m - 1);
    }
}

/// What the enemy-distance heuristic adds to candidate `i`: the bonus of
/// its rank, starting from `start_bonus(turn)` for the nearest.
pub open spec fn distance_bonus(
    field: Field,
    cs: Seq<(Pos, PieceModel)>,
    target: Pos,
    turn: int,
    i: int,
) -> int {
    tier(start_bonus(turn), rank(field, cs, target, i))
}

/// Ranks past this one earn no distance bonus.
const RANK_CAP: usize = 6;

/// Adds to each candidate the bonus of its rank by distance to the
/// opponent's mean position `enemy_pos`.
pub fn evaluate_placement_for_enemy_distance(
    field: &Field,
    placements: &mut Vec<Placement>,
    enemy_pos: Pos,
    current_turn: usize,
)
    requires
        field.wf(),
        field.in_bounds(enemy_pos.x as int, enemy_pos.y as int),
        all_placed(*field, old(placements)@),
        bounded(old(placements)@, SCORE_LIMIT as int),
    ensures
        rescored(
            old(placements)@,
            final(placements)@,
            |i: int| distance_bonus(*field, models(old(placements)@), enemy_pos, current_turn as int, i),
        ),
        raised(old(placements)@, final(placements)@, BONUS_CAP as int),
{
    let ghost before = placements@;
    let ghost cs = models(before);
    let n = placements.len();
    let b = decay_start(current_turn);
    let mut dists: Vec<u128> = Vec::new();
    let mut k: usize = 0;
    while k < n
        invariant
            field.wf(),
            field.in_bounds(enemy_pos.x as int, enemy_pos.y as int),
            placements@ == before,
            cs == models(before),
            n == before.len(),
            all_placed(*field, before),
            k <= n,
            dists@.len() == k,
            forall|j: int| 0 <= j < k ==> #[trigger] dists@[j] == dist2(center(*field, cs[j]), enemy_pos),
        decreases n - k,
    {
        assert(placed(*field, before[k as int]));
        let c = get_center_of_piece(field, &placements[k].pos, &placements[k].piece);
        let d = distance_sq(field, c, enemy_pos);
        dists.push(d);
        k = k + 1;
    }
    let mut i: usize = 0;
    while i < n
        invariant
            n == before.len(),
            cs == models(before),
            4 <= b <= 36,
            b == start_bonus(current_turn as int),
            bounded(before, SCORE_LIMIT as int),
            dists@.len() == n,
            forall|j: int| 0 <= j < n ==> #[trigger] dists@[j] == dist2(center(*field, cs[j]), enemy_pos),
            i <= n,
            placements@.len() == n,
            forall|j: int|
                0 <= j < n ==> (#[trigger] placements@[j]).pos == before[j].pos && placements@[j].piece
                    == before[j].piece,
            forall|j: int|
                0 <= j < i ==> (#[trigger] placements@[j]).score == before[j].score + distance_bonus(
                    *field,
                    cs,
                    enemy_pos,
                    current_turn as int,
                    j,
                ),
            forall|j: int| i <= j < n ==> (#[trigger] placements@[j]).score == before[j].score,
            forall|j: int|
                0 <= j < i ==> before[j].score <= (#[trigger] placements@[j]).score <= before[j].score
                    + BONUS_CAP,
        decreases n - i,
    {
        let mut cnt: usize = 0;
        let mut j: usize = 0;
        while j < n && cnt < RANK_CAP
            invariant
                n == before.len(),
                cs == models(before),
                dists@.len() == n,
                forall|j: int| 0 <= j < n ==> #[trigger] dists@[j] == dist2(center(*field, cs[j]), enemy_pos),
                i < n,
                j <= n,
                cnt <= RANK_CAP,
                cnt == rank_among(*field, cs, enemy_pos, i as int, j as int),
            decreases n - j,
        {
            if dists[j] < dists[i] || (dists[j] == dists[i] && j < i) {
                cnt = cnt + 1;
            }
            j = j + 1;
        }
        proof {
            lemma_rank_grows(*field, cs, enemy_pos, i as int, j as int, n as int);
            if cnt == RANK_CAP {
                assert(crate::bonus::power(2, 6) == 64) by {
                    reveal_with_fuel(crate::bonus::power, 7);
                }
                lemma_tier_vanishes(b as int, rank(*field, cs, enemy_pos, i as int), 6);
                lemma_tier_vanishes(b as int, cnt as int, 6);
            }
        }
        let bonus = tier_bonus(b, cnt);
        assert(before[i as int].score <= SCORE_LIMIT);
        placements[i].score = placements[i].score + bonus;
        i = i + 1;
    }
}

pub open spec fn min2(a: int, b: int) -> int {
    if a < b {
        a
    } else {
        b
    }
}

/// Manhattan distance from `p` to the nearest edge of the board.
pub open spec fn wall_distance(field: Field, p: Pos) -> int {
    min2(
        min2(p.x as int, field.size.width - 1 - p.x),
        min2(p.y as int, field.size.height - 1 - p.y),
    )
}

/// What the wall-distance heuristic adds to a candidate:
/// 24 / (distance of its centre to the nearest edge + 1).
pub open spec fn wall_bonus(field: Field, c: (Pos, PieceModel)) -> int {
    24int / (wall_distance(field, center(field, c)) + 1)
}

/// Adds to each candidate its wall-distance bonus.
pub fn evaluate_placement_for_wall_distance(field: &Field, placements: &mut Vec<Placement>)
    requires
        field.wf(),
        all_placed(*field, old(placements)@),
        bounded(old(placements)@, SCORE_LIMIT as int),
    ensures
        rescored(
            old(placements)@,
            final(placements)@,
            |i: int| wall_bonus(*field, models(old(placements)@)[i]),
        ),
        raised(old(placements)@, final(placements)@, BONUS_CAP as int),
{
    let ghost before = placements@;
    let n = placements.len();
    let mut i: usize = 0;
    while i < n
        invariant
            field.wf(),
            n == before.len(),
            all_placed(*field, before),
            bounded(before, SCORE_LIMIT as int),
            i <= n,
            placements@.len() == n,
            forall|j: int|
                0 <= j < n ==> (#[trigger] placements@[j]).pos == before[j].pos && placements@[j].piece
                    == before[j].piece,
            forall|j: int|
                0 <= j < i ==> (#[trigger] placements@[j]).score == before[j].score + wall_bonus(
                    *field,
                    models(before)[j],
                ),
            forall|j: int| i <= j < n ==> (#[trigger] placements@[j]).score == before[j].score,
            forall|j: int|
                0 <= j < i ==> before[j].score <= (#[trigger] placements@[j]).score <= before[j].score
                    + BONUS_CAP,
        decreases n - i,
    {
        assert(placed(*field, before[i as int]));
        let c = get_center_of_piece(field, &placements[i].pos, &placements[i].piece);
        let right = field.size.width - 1 - c.x;
        let bottom = field.size.height - 1 - c.y;
        let dx = if c.x < right {
            c.x
        } else {
            right
        };
        let dy = if c.y < bottom {
            c.y
        } else {
            bottom
        };
        let d = if dx < dy {
            dx
        } else {
            dy
        };
        let bonus = (24 / (d as u128 + 1)) as i128;
        assert(models(before)[i as int] == (before[i as int].pos, before[i as int].piece@));
        placements[i].score = placements[i].score + bonus;
        i = i + 1;
    }
}

/// An opponent cell at `(x, y)`, on the board.
pub open spec fn enemy_at(field: Field, symbol: (char, char), x: int, y: int) -> bool {
    field.in_bounds(x, y) && enemy_of(field.at(x, y), symbol)
}

/// `(x, y)` is a free cell with an opponent cell `k` steps from it in a
/// straight line along a row or a column.
pub open spec fn encloses(field: Field, symbol: (char, char), x: int, y: int, k: int) -> bool {
    &&& field.in_bounds(x, y)
    &&& field.at(x, y) == EMPTY
    &&& (enemy_at(field, symbol, x, y - k) || enemy_at(field, symbol, x, y + k) || enemy_at(
        field,
        symbol,
        x - k,
        y,
    ) || enemy_at(field, symbol, x + k, y))
}

/// The fewest steps, 1 to 3, from `(x, y)` to an opponent cell that it
/// encloses; 3 where there is none.
pub open spec fn step_divider(field: Field, symbol: (char, char), x: int, y: int) -> int {
    if encloses(field, symbol, x, y, 1) {
        1
    } else if encloses(field, symbol, x, y, 2) {
        2
    } else {
        3
    }
}

/// 12 / steps on each filled cell of a placed piece.
pub open spec fn enclosing_weight(field: Field, symbol: (char, char), c: (Pos, PieceModel)) -> spec_fn(
    int,
    int,
) -> int {
    |x: int, y: int|
        if filled(c.1.trimmed[y][x]) {
            12int / step_divider(field, symbol, c.0.x + x, c.0.y + y)
        } else {
            0int
        }
}

/// What the enclosing-cells heuristic adds to a candidate.
pub open spec fn enclosing_bonus(field: Field, symbol: (char, char), c: (Pos, PieceModel)) -> int {
    board_sum(
        enclosing_weight(field, symbol, c),
        c.1.trimmed_size.width as int,
        c.1.trimmed_size.height as int,
    )
}

/// A filled cell `(x, y)` of a placed piece lands right beside an opponent
/// cell, on a free cell.
pub open spec fn tight_at(field: Field, symbol: (char, char), c: (Pos, PieceModel), x: int, y: int) -> bool {
    &&& 0 <= x < c.1.trimmed_size.width
    &&& 0 <= y < c.1.trimmed_size.height
    &&& filled(c.1.trimmed[y][x])
    &&& encloses(field, symbol, c.0.x + x, c.0.y + y, 1)
}

pub open spec fn tight(field: Field, symbol: (char, char), c: (Pos, PieceModel)) -> bool {
    exists|x: int, y: int| #[trigger] tight_at(field, symbol, c, x, y)
}

fn enemy_cell_at(field: &Field, player_symbol: (char, char), x: i128, y: i128) -> (r: bool)
    requires
        field.wf(),
    ensures
        r == enemy_at(*field, player_symbol, x as int, y as int),
{
    if x < 0 || y < 0 || x >= field.size.width as i128 || y >= field.size.height as i128 {
        return false;
    }
    is_enemy_cell(Some(field.cells[y as usize][x as usize]), player_symbol)
}

fn steps_to_enemy(field: &Field, player_symbol: (char, char), x: usize, y: usize) -> (r: i128)
    requires
        field.wf(),
        field.in_bounds(x as int, y as int),
    ensures
        r == step_divider(*field, player_symbol, x as int, y as int),
        1 <= r <= 3,
{
    if field.cells[y][x] != EMPTY {
        return 3;
    }
    let mut k: usize = 1;
    while k < 3
        invariant
            field.wf(),
            field.in_bounds(x as int, y as int),
            field.at(x as int, y as int) == EMPTY,
            1 <= k <= 3,
            forall|j: int| 1 <= j < k ==> !#[trigger] encloses(*field, player_symbol, x as int, y as int, j),
        decreases 3 - k,
    {
        let (xi, yi, ki) = (x as i128, y as i128, k as i128);
        if enemy_cell_at(field, player_symbol, xi, yi - ki) || enemy_cell_at(field, player_symbol, xi, yi + ki)
            || enemy_cell_at(field, player_symbol, xi - ki, yi) || enemy_cell_at(field, player_symbol, xi + ki, yi) {
            assert(encloses(*field, player_symbol, x as int, y as int, k as int));
            return k as i128;
        }
        assert(!encloses(*field, player_symbol, x as int, y as int, k as int));
        k = k + 1;
    }
    3
}

/// Adds to each candidate its enclosing-cells bonus; tells whether some
/// candidate has a filled cell right beside an opponent cell.
pub fn evaluate_placement_for_enclosing_cells(
    field: &Field,
    placements: &mut Vec<Placement>,
    player_symbol: (char, char),
) -> (found: bool)
    requires
        field.wf(),
        all_placed(*field, old(placements)@),
        bounded(old(placements)@, SCORE_LIMIT as int),
    ensures
        rescored(
            old(placements)@,
            final(placements)@,
            |i: int| enclosing_bonus(*field, player_symbol, models(old(placements)@)[i]),
        ),
        raised(old(placements)@, final(placements)@, BONUS_CAP as int),
        found == exists|i: int|
            0 <= i < old(placements)@.len() && #[trigger] tight(
                *field,
                player_symbol,
                models(old(placements)@)[i],
            ),
{
    let ghost before = placements@;
    let ghost cs = models(before);
    let n = placements.len();
    let mut found = false;
    let mut i: usize = 0;
    while i < n
        invariant
            field.wf(),
            n == before.len(),
            cs == models(before),
            all_placed(*field, before),
            bounded(before, SCORE_LIMIT as int),
            i <= n,
            placements@.len() == n,
            forall|j: int|
                0 <= j < n ==> (#[trigger] placements@[j]).pos == before[j].pos && placements@[j].piece
                    == before[j].piece,
            forall|j: int|
                0 <= j < i ==> (#[trigger] placements@[j]).score == before[j].score + enclosing_bonus(
                    *field,
                    player_symbol,
                    cs[j],
                ),
            forall|j: int| i <= j < n ==> (#[trigger] placements@[j]).score == before[j].score,
            forall|j: int|
                0 <= j < i ==> before[j].score <= (#[trigger] placements@[j]).score <= before[j].score
                    + BONUS_CAP,
            found == exists|j: int| 0 <= j < i && #[trigger] tight(*field, player_symbol, cs[j]),
        decreases n - i,
    {
        assert(placed(*field, before[i as int]));
        let ghost c = cs[i as int];
        assert(c == (before[i as int].pos, before[i as int].piece@));
        let ghost f = enclosing_weight(*field, player_symbol, c);
        let pos = placements[i].pos;
        let tw = placements[i].piece.trimmed_size.width;
        let th = placements[i].piece.trimmed_size.height;
        let mut add: i128 = 0;
        let mut hit = false;
        let mut dy: usize = 0;
        while dy < th
            invariant
                field.wf(),
                i < n,
                placements@.len() == n,
                placements@[i as int].pos == pos,
                placements@[i as int].piece == before[i as int].piece,
                c == (pos, before[i as int].piece@),
                placed(*field, before[i as int]),
                tw == c.1.trimmed_size.width,
                th == c.1.trimmed_size.height,
                f == enclosing_weight(*field, player_symbol, c),
                dy <= th,
                add == board_sum(f, tw as int, dy as int),
                fits(*field, c.1, pos),
                0 <= add <= 12 * dy * tw,
                hit ==> tight(*field, player_symbol, c),
                !hit ==> forall|a: int, b: int| 0 <= b < dy ==> !#[trigger] tight_at(*field, player_symbol, c, a, b),
            decreases th - dy,
        {
            let mut dx: usize = 0;
            while dx < tw
                invariant
                    field.wf(),
                    i < n,
                    placements@.len() == n,
                    placements@[i as int].pos == pos,
                    placements@[i as int].piece == before[i as int].piece,
                    c == (pos, before[i as int].piece@),
                    placed(*field, before[i as int]),
                    tw == c.1.trimmed_size.width,
                    th == c.1.trimmed_size.height,
                    f == enclosing_weight(*field, player_symbol, c),
                    dy < th,
                    dx <= tw,
                    add == board_sum(f, tw as int, dy as int) + row_sum(f, dy as int, dx as int),
                    fits(*field, c.1, pos),
                    0 <= add <= 12 * dy * tw + 12 * dx,
                    hit ==> tight(*field, player_symbol, c),
                    !hit ==> forall|a: int, b: int|
                        (0 <= b < dy || (b == dy && a < dx)) ==> !#[trigger] tight_at(*field, player_symbol, c, a, b),
                decreases tw - dx,
            {
                proof {
                    assert(dy * tw + dx < th * tw) by (nonlinear_arith)
                        requires
                            dy < th,
                            dx < tw,
                    ;
                    assert(th * tw <= field.size.height * field.size.width) by (nonlinear_arith)
                        requires
                            th <= field.size.height,
                            tw <= field.size.width,
                    ;
                    assert(12 * dy * tw + 12 * dx == 12 * (dy * tw + dx)) by (nonlinear_arith);
                    assert(field.size.height * field.size.width == field.size.width * field.size.height)
                        by (nonlinear_arith);
                }
                let pc = placements[i].piece.trimmed_cells[dy][dx];
                assert(c.1.trimmed[dy as int][dx as int] == pc);
                if pc != EMPTY {
                    let steps = steps_to_enemy(field, player_symbol, pos.x + dx, pos.y + dy);
                    if steps == 1 {
                        assert(tight_at(*field, player_symbol, c, dx as int, dy as int));
                        hit = true;
                    }
                    add = add + 12 / steps;
                }
                dx = dx + 1;
            }
            proof {
                assert(12 * dy * tw + 12 * tw == 12 * (dy + 1) * tw) by (nonlinear_arith);
            }
            dy = dy + 1;
        }
        assert(before[i as int].score <= SCORE_LIMIT);
        proof {
            assert(th * tw <= field.size.height * field.size.width) by (nonlinear_arith)
                requires
                    th <= field.size.height,
                    tw <= field.size.width,
            ;
            assert(add <= 12 * (th * tw)) by (nonlinear_arith)
                requires
                    add <= 12 * th * tw,
            ;
            assert(field.size.height * field.size.width == field.size.width * field.size.height)
                by (nonlinear_arith);
        }
        placements[i].score = placements[i].score + add;
        proof {
            if !hit {
                assert forall|a: int, b: int| !#[trigger] tight_at(*field, player_symbol, c, a, b) by {
                    if 0 <= b < th {
                    }
                }
            }
            assert(hit == tight(*field, player_symbol, cs[i as int]));
        }
        if hit {
            found = true;
        }
        i = i + 1;
    }
    found
}

/// Every unfilled cell of the placed piece's content box lies on a cell
/// that is not free.
pub open spec fn perfect_fit(field: Field, c: (Pos, PieceModel)) -> bool {
    forall|x: int, y: int|
        0 <= x < c.1.trimmed_size.width && 0 <= y < c.1.trimmed_size.height && !filled(
            #[trigger] c.1.trimmed[y][x],
        ) ==> field.at(c.0.x + x, c.0.y + y) != EMPTY
}

/// What the gap-filling heuristic adds to a candidate.
pub open spec fn fit_bonus(field: Field, turn: int, c: (Pos, PieceModel)) -> int {
    if perfect_fit(field, c) {
        growth_bonus(turn as nat)
    } else {
        0
    }
}

/// Adds the turn's gap-filling bonus to each candidate that fits
/// perfectly.
pub fn evaluate_placement_for_perfect_fit(
    field: &Field,
    placements: &mut Vec<Placement>,
    current_turn: usize,
    _prev_pieces: &Vec<Piece>,
    _player_symbol: (char, char),
)
    requires
        field.wf(),
        all_placed(*field, old(placements)@),
        bounded(old(placements)@, SCORE_LIMIT as int),
    ensures
        rescored(
            old(placements)@,
            final(placements)@,
            |i: int| fit_bonus(*field, current_turn as int, models(old(placements)@)[i]),
        ),
        raised(old(placements)@, final(placements)@, BONUS_CAP as int),
{
    let ghost before = placements@;
    let ghost cs = models(before);
    let bonus = growth_start(current_turn);
    let n = placements.len();
    let mut i: usize = 0;
    while i < n
        invariant
            field.wf(),
            n == before.len(),
            cs == models(before),
            bonus == growth_bonus(current_turn as nat),
            1 <= bonus <= 50,
            all_placed(*field, before),
            bounded(before, SCORE_LIMIT as int),
            i <= n,
            placements@.len() == n,
            forall|j: int|
                0 <= j < n ==> (#[trigger] placements@[j]).pos == before[j].pos && placements@[j].piece
                    == before[j].piece,
            forall|j: int|
                0 <= j < i ==> (#[trigger] placements@[j]).score == before[j].score + fit_bonus(
                    *field,
                    current_turn as int,
                    cs[j],
                ),
            forall|j: int| i <= j < n ==> (#[trigger] placements@[j]).score == before[j].score,
            forall|j: int|
                0 <= j < i ==> before[j].score <= (#[trigger] placements@[j]).score <= before[j].score
                    + BONUS_CAP,
        decreases n - i,
    {
        assert(placed(*field, before[i as int]));
        let ghost c = cs[i as int];
        assert(c == (before[i as int].pos, before[i as int].piece@));
        let pos = placements[i].pos;
        let tw = placements[i].piece.trimmed_size.width;
        let th = placements[i].piece.trimmed_size.height;
        let mut perfect = true;
        let mut dy: usize = 0;
        while dy < th && perfect
            invariant
                field.wf(),
                i < n,
                placements@.len() == n,
                placements@[i as int].pos == pos,
                placements@[i as int].piece == before[i as int].piece,
                c == (pos, before[i as int].piece@),
                placed(*field, before[i as int]),
                tw == c.1.trimmed_size.width,
                th == c.1.trimmed_size.height,
                dy <= th,
                perfect ==> forall|x: int, y: int|
                    0 <= x < tw && 0 <= y < dy && !filled(#[trigger] c.1.trimmed[y][x]) ==> field.at(
                        pos.x + x,
                        pos.y + y,
                    ) != EMPTY,
                !perfect ==> !perfect_fit(*field, c),
                model_wf(c.1),
                fits(*field, c.1, pos),
            decreases th - dy,
        {
            let mut dx: usize = 0;
            while dx < tw && perfect
                invariant
                    field.wf(),
                    i < n,
                    placements@.len() == n,
                    placements@[i as int].pos == pos,
                    placements@[i as int].piece == before[i as int].piece,
                    c == (pos, before[i as int].piece@),
                    placed(*field, before[i as int]),
                    tw == c.1.trimmed_size.width,
                    th == c.1.trimmed_size.height,
                    dy < th,
                    dx <= tw,
                    perfect ==> forall|x: int, y: int|
                        0 <= x < tw && 0 <= y < dy && !filled(#[trigger] c.1.trimmed[y][x])
                            ==> field.at(pos.x + x, pos.y + y) != EMPTY,
                    perfect ==> forall|x: int|
                        0 <= x < dx && !filled(#[trigger] c.1.trimmed[dy as int][x]) ==> field.at(
                            pos.x + x,
                            pos.y + dy,
                        ) != EMPTY,
                    !perfect ==> !perfect_fit(*field, c),
                    model_wf(c.1),
                    fits(*field, c.1, pos),
                decreases tw - dx,
            {
                assert(c.1.trimmed[dy as int] == placements@[i as int].piece.trimmed_cells@[dy as int]@);
                let pc = placements[i].piece.trimmed_cells[dy][dx];
                assert(c.1.trimmed[dy as int][dx as int] == pc);
                if pc == EMPTY && field.cells[pos.y + dy][pos.x + dx] == EMPTY {
                    perfect = false;
                }
                dx = dx + 1;
            }
            dy = dy + 1;
        }
        assert(before[i as int].score <= SCORE_LIMIT);
        if perfect {
            placements[i].score = placements[i].score + bonus;
        }
        i = i + 1;
    }
}

/// What the first phase adds to candidate `i`: the wall-distance bonus once
/// the two territories touch; before that, the enemy-distance bonus
/// towards the opponent's mean position, where the opponent has cells.
pub open spec fn phase_bonus(
    field: Field,
    cs: Seq<(Pos, PieceModel)>,
    symbol: (char, char),
    enemy_pos: Option<Pos>,
    turn: int,
    i: int,
) -> int {
    if in_contact(field, symbol) {
        wall_bonus(field, cs[i])
    } else {
        match enemy_pos {
            Some(t) => distance_bonus(field, cs, t, turn, i),
            None => 0,
        }
    }
}

/// Runs the first phase: the wall-distance heuristic when the player's
/// territory touches the opponent's, else the enemy-distance one.
pub fn evaluate_position_phase(
    field: &Field,
    placements: &mut Vec<Placement>,
    enemy_pos: Option<Pos>,
    current_turn: usize,
    player_symbol: (char, char),
)
    requires
        field.wf(),
        all_placed(*field, old(placements)@),
        bounded(old(placements)@, SCORE_LIMIT as int),
        enemy_pos matches Some(t) ==> field.in_bounds(t.x as int, t.y as int),
    ensures
        rescored(
            old(placements)@,
            final(placements)@,
            |i: int|
                phase_bonus(
                    *field,
                    models(old(placements)@),
                    player_symbol,
                    enemy_pos,
                    current_turn as int,
                    i,
                ),
        ),
        raised(old(placements)@, final(placements)@, BONUS_CAP as int),
{
    if check_if_touching_enemy_cell(field, player_symbol) {
        evaluate_placement_for_wall_distance(field, placements);
    } else {
        match enemy_pos {
            Some(t) => evaluate_placement_for_enemy_distance(field, placements, t, current_turn),
            None => {},
        }
    }
}

/// Some candidate has a filled cell right beside an opponent cell.
pub open spec fn any_tight(field: Field, symbol: (char, char), cs: Seq<(Pos, PieceModel)>) -> bool {
    exists|i: int| 0 <= i < cs.len() && #[trigger] tight(field, symbol, cs[i])
}

/// The scores of the candidates after every heuristic has run.
pub open spec fn final_scores(
    field: Field,
    symbol: (char, char),
    enemy_pos: Option<Pos>,
    turn: int,
    ps: Seq<Placement>,
) -> Seq<int> {
    let cs = models(ps);
    Seq::new(
        ps.len(),
        |i: int|
            ps[i].score + phase_bonus(field, cs, symbol, enemy_pos, turn, i) + enclosing_bonus(
                field,
                symbol,
                cs[i],
            ) + if any_tight(field, symbol, cs) {
                0
            } else {
                fit_bonus(field, turn, cs[i])
            },
    )
}

/// The index of the last greatest of the first `n` scores.
pub open spec fn best_index(s: Seq<int>, n: int) -> int
    decreases n,
{
    if n <= 1 {
        0
    } else {
        let k = best_index(s, n - 1);
        if s[n - 1] >= s[k] {
            n - 1
        } else {
            k
        }
    }
}

proof fn lemma_best_index_range(s: Seq<int>, n: int)
    requires
        n >= 1,
    ensures
        0 <= best_index(s, n) < n,
    decreases n,
{
    if n > 1 {
        lemma_best_index_range(s, n - 1);
    }
}

/// Scores every candidate and returns the one with the greatest total,
/// the last of them where several share it.
pub fn evaluate_placements(
    field: &Field,
    valid_placements: Vec<Placement>,
    enemy_pos: Option<Pos>,
    current_turn: usize,
    player_symbol: (char, char),
    prev_pieces: &Vec<Piece>,
) -> (r: Placement)
    requires
        field.wf(),
        valid_placements@.len() > 0,
        all_placed(*field, valid_placements@),
        bounded(valid_placements@, INPUT_LIMIT as int),
        enemy_pos matches Some(t) ==> field.in_bounds(t.x as int, t.y as int),
    ensures
        ({
            let s = final_scores(*field, player_symbol, enemy_pos, current_turn as int, valid_placements@);
            let k = best_index(s, s.len() as int);
            &&& 0 <= k < valid_placements@.len()
            &&& r.pos == valid_placements@[k].pos
            &&& r.piece == valid_placements@[k].piece
            &&& r.score == s[k]
        }),
{
    let ghost p0 = valid_placements@;
    let ghost cs = models(p0);
    let mut ps = valid_placements;
    evaluate_position_phase(field, &mut ps, enemy_pos, current_turn, player_symbol);
    let ghost p1 = ps@;
    assert(models(p1) =~= cs);
    assert(all_placed(*field, p1));
    let found = evaluate_placement_for_enclosing_cells(field, &mut ps, player_symbol);
    let ghost p2 = ps@;
    assert(models(p2) =~= cs);
    assert(all_placed(*field, p2));
    if !found {
        evaluate_placement_for_perfect_fit(field, &mut ps, current_turn, prev_pieces, player_symbol);
    }
    let ghost p3 = ps@;
    let ghost s = final_scores(*field, player_symbol, enemy_pos, current_turn as int, p0);
    assert(found == any_tight(*field, player_symbol, cs));
    assert forall|i: int| 0 <= i < p0.len() implies (#[trigger] ps@[i]).score == s[i] && ps@[i].pos
        == p0[i].pos && ps@[i].piece == p0[i].piece by {}
    let n = ps.len();
    let mut best: usize = 0;
    let mut j: usize = 1;
    while j < n
        invariant
            n == p0.len(),
            ps@.len() == n,
            s.len() == n,
            forall|i: int| 0 <= i < n ==> (#[trigger] ps@[i]).score == s[i],
            1 <= j <= n,
            best == best_index(s, j as int),
            best < j,
        decreases n - j,
    {
        if ps[j].score >= ps[best].score {
            best = j;
        }
        j = j + 1;
    }
    let r = ps.swap_remove(best);
    r
}

/// `(x, y)` as an enclosing entry of step `k`, where it is a free cell of
/// the board.
pub open spec fn entry_if_free(field: Field, x: int, y: int, k: int) -> Seq<(Pos, usize)> {
    if field.in_bounds(x, y) && field.at(x, y) == EMPTY {
        seq![(Pos { x: x as usize, y: y as usize }, k as usize)]
    } else {
        Seq::empty()
    }
}

/// The free cells `k` steps above, below, left and right of `(x, y)`.
pub open spec fn step_entries(field: Field, x: int, y: int, k: int) -> Seq<(Pos, usize)> {
    entry_if_free(field, x, y - k, k) + entry_if_free(field, x, y + k, k) + entry_if_free(
        field,
        x - k,
        y,
        k,
    ) + entry_if_free(field, x + k, y, k)
}

/// The enclosing entries of the cell `(x, y)`: for an opponent cell, the
/// free cells 1, 2 and 3 steps from it.
pub open spec fn cell_entries(field: Field, symbol: (char, char), x: int, y: int) -> Seq<(Pos, usize)> {
    if enemy_of(field.at(x, y), symbol) {
        step_entries(field, x, y, 1) + step_entries(field, x, y, 2) + step_entries(field, x, y, 3)
    } else {
        Seq::empty()
    }
}

/// The enclosing entries of the first `k` cells of the board, row by row.
pub open spec fn entries_upto(field: Field, symbol: (char, char), k: int) -> Seq<(Pos, usize)>
    decreases k,
{
    if k <= 0 {
        Seq::empty()
    } else {
        let w = field.size.width as int;
        entries_upto(field, symbol, k - 1) + cell_entries(field, symbol, (k - 1) % w, (k - 1) / w)
    }
}

fn push_if_free(field: &Field, out: &mut Vec<(Pos, usize)>, x: i128, y: i128, k: usize)
    requires
        field.wf(),
    ensures
        final(out)@ == old(out)@ + entry_if_free(*field, x as int, y as int, k as int),
{
    if x >= 0 && y >= 0 && x < field.size.width as i128 && y < field.size.height as i128 {
        if field.cells[y as usize][x as usize] == EMPTY {
            out.push((Pos { x: x as usize, y: y as usize }, k));
            return;
        }
    }
    assert(old(out)@ + Seq::<(Pos, usize)>::empty() =~= old(out)@);
}

fn push_step_entries(field: &Field, out: &mut Vec<(Pos, usize)>, x: usize, y: usize, k: usize)
    requires
        field.wf(),
        1 <= k <= 3,
    ensures
        final(out)@ == old(out)@ + step_entries(*field, x as int, y as int, k as int),
{
    let (xi, yi, ki) = (x as i128, y as i128, k as i128);
    push_if_free(field, out, xi, yi - ki, k);
    push_if_free(field, out, xi, yi + ki, k);
    push_if_free(field, out, xi - ki, yi, k);
    push_if_free(field, out, xi + ki, yi, k);
    assert(final(out)@ =~= old(out)@ + step_entries(*field, x as int, y as int, k as int));
}

/// Every free cell 1 to 3 steps from an opponent cell along a row or a
/// column, with its number of steps, opponent cell by opponent cell in
/// board order.
pub fn get_enclosing_positions(field: &Field, player_symbol: (char, char)) -> (r: Vec<(Pos, usize)>)
    requires
        field.wf(),
    ensures
        r@ == entries_upto(*field, player_symbol, field.size.width * field.size.height),
{
    let w = field.size.width;
    let h = field.size.height;
    let mut out: Vec<(Pos, usize)> = Vec::new();
    let mut y: usize = 0;
    while y < h
        invariant
            field.wf(),
            w == field.size.width,
            h == field.size.height,
            y <= h,
            out@ == entries_upto(*field, player_symbol, y * w),
        decreases h - y,
    {
        let mut x: usize = 0;
        while x < w
            invariant
                field.wf(),
                w == field.size.width,
                h == field.size.height,
                y < h,
                x <= w,
                out@ == entries_upto(*field, player_symbol, y * w + x),
            decreases w - x,
        {
            proof {
                lemma_fundamental_div_mod_converse(y * w + x, w as int, y as int, x as int);
            }
            let ghost before = out@;
            if is_enemy_cell(Some(field.cells[y][x]), player_symbol) {
                push_step_entries(field, &mut out, x, y, 1);
                push_step_entries(field, &mut out, x, y, 2);
                push_step_entries(field, &mut out, x, y, 3);
                assert(out@ =~= before + cell_entries(*field, player_symbol, x as int, y as int));
            } else {
                assert(out@ =~= before + cell_entries(*field, player_symbol, x as int, y as int));
            }
            x = x + 1;
        }
        proof {
            assert(y * w + w == (y + 1) * w) by (nonlinear_arith);
        }
        y = y + 1;
    }
    assert(h * w == w * h) by (nonlinear_arith);
    out
}

} // verus!

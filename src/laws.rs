//! General facts about the engine, proved from the definitions that the
//! functions' contracts use.
use vstd::prelude::*;

use crate::bonus::{growth_bonus, lemma_growth_range, tier, GROWTH_SCALE};
use crate::cell::EMPTY;
use crate::field::Field;
use crate::game::{best_position, chosen_move, has_move, Game, Pos};
use crate::grid::{is_rect, Size};
use crate::piece::{
    bottom_edge, col_blank, left_edge, right_edge, row_blank, top_edge, trim_box, Piece, PieceModel,
};
use crate::scoring::{
    center, dist2, distance_bonus, fit_bonus, in_contact, perfect_fit, phase_bonus, rank,
    rank_among, ranks_before, wall_bonus,
};

verus! {

proof fn lemma_top(rows: Seq<Vec<char>>, k: int, h: int, t: int)
    requires
        0 <= k <= t < h,
        forall|i: int| k <= i < t ==> row_blank(#[trigger] rows[i]@),
        !row_blank(rows[t]@),
    ensures
        top_edge(rows, k, h) == t,
    decreases t - k,
{
    if k < t {
        lemma_top(rows, k + 1, h, t);
    }
}

proof fn lemma_bottom(rows: Seq<Vec<char>>, top: int, k: int, b: int)
    requires
        top < b <= k,
        forall|i: int| b <= i < k ==> row_blank(#[trigger] rows[i]@),
        !row_blank(rows[b - 1]@),
    ensures
        bottom_edge(rows, top, k) == b,
    decreases k - b,
{
    if k > b {
        lemma_bottom(rows, top, k - 1, b);
    }
}

proof fn lemma_left(rows: Seq<Vec<char>>, top: int, bottom: int, k: int, right: int, l: int)
    requires
        0 <= k <= l < right,
        forall|j: int| k <= j < l ==> #[trigger] col_blank(rows, j, top, bottom),
        !col_blank(rows, l, top, bottom),
    ensures
        left_edge(rows, top, bottom, k, right) == l,
    decreases l - k,
{
    if k < l {
        lemma_left(rows, top, bottom, k + 1, right, l);
    }
}

proof fn lemma_right(rows: Seq<Vec<char>>, top: int, bottom: int, left: int, k: int, r: int)
    requires
        left < r <= k,
        forall|j: int| r <= j < k ==> #[trigger] col_blank(rows, j, top, bottom),
        !col_blank(rows, r - 1, top, bottom),
    ensures
        right_edge(rows, top, bottom, left, k) == r,
    decreases k - r,
{
    if k > r {
        lemma_right(rows, top, bottom, left, k - 1, r);
    }
}

/// Trimming strips exactly the blank padding: when the filled cells of a
/// piece all lie in rows `t..b` and columns `l..r`, and the first and last
/// of those rows and columns each hold a filled cell, the trimmed piece is
/// that box and its offset is `(t, l)`.
pub proof fn lemma_trim_strips_padding(p: Piece, t: int, b: int, l: int, r: int)
    requires
        p.wf(),
        p.is_trimmed(),
        0 <= t < b <= p.size.height,
        0 <= l < r <= p.size.width,
        forall|i: int, j: int|
            0 <= i < p.size.height && 0 <= j < p.size.width && !(t <= i < b && l <= j < r)
                ==> #[trigger] p.cells@[i]@[j] == EMPTY,
        !row_blank(p.cells@[t]@),
        !row_blank(p.cells@[b - 1]@),
        !col_blank(p.cells@, l, t, b),
        !col_blank(p.cells@, r - 1, t, b),
    ensures
        p.offset == (t as usize, l as usize),
        p.trimmed_size == (Size { width: (r - l) as usize, height: (b - t) as usize }),
        forall|i: int| 0 <= i < b - t ==> (#[trigger] p.trimmed_cells@[i])@ == p.cells@[t + i]@.subrange(l, r),
{
    let rows = p.cells@;
    let w = p.size.width as int;
    let h = p.size.height as int;
    assert forall|i: int| (0 <= i < t || b <= i < h) implies row_blank(#[trigger] rows[i]@) by {
        assert forall|j: int| 0 <= j < rows[i]@.len() implies rows[i]@[j] == EMPTY by {
            assert(p.cells@[i]@[j] == EMPTY);
        }
    }
    lemma_top(rows, 0, h, t);
    lemma_bottom(rows, t, h, b);
    assert forall|j: int| (0 <= j < l || r <= j < w) implies #[trigger] col_blank(rows, j, t, b) by {
        assert forall|i: int| t <= i < b implies (#[trigger] rows[i])@[j] == EMPTY by {
            assert(p.cells@[i]@[j] == EMPTY);
        }
    }
    lemma_left(rows, t, b, 0, w, l);
    lemma_right(rows, t, b, l, w, r);
    assert(trim_box(rows, w, h) == (t, b, l, r));
}

/// With no offset, the answer is the winning position itself.
pub proof fn lemma_move_without_offset(g: Game, p: Piece)
    requires
        has_move(g, p),
        p.offset == (0usize, 0usize),
    ensures
        chosen_move(g, p) == (best_position(g, p).x as int, best_position(g, p).y as int),
{
}

/// A piece whose content box is wider or taller than the board gets the
/// answer `(0, 0)`, whatever the board holds.
pub proof fn lemma_oversized_piece_passes(g: Game, p: Piece)
    requires
        p.trimmed_size.width > g.field.size.width || p.trimmed_size.height > g.field.size.height,
    ensures
        chosen_move(g, p) == (0int, 0int),
{
}

proof fn lemma_tier_steps_down(b: int, r: int)
    requires
        r >= 0,
    ensures
        tier(b, r + 1) <= tier(b, r),
        tier(b, r) > 0 ==> tier(b, r + 1) < tier(b, r),
        tier(b, r) >= 0,
    decreases r,
{
    if b > 1 {
        assert(tier(b, r + 1) == tier(b / 2, r));
        if r > 0 {
            lemma_tier_steps_down(b / 2, r - 1);
        } else {
            assert(tier(b / 2, 0) == if b / 2 <= 1 { 0 } else { b / 2 });
        }
    }
}

proof fn lemma_tier_falls(b: int, r1: int, r2: int)
    requires
        0 <= r1 < r2,
        tier(b, r1) > 0,
    ensures
        tier(b, r2) < tier(b, r1),
    decreases r2 - r1,
{
    lemma_tier_steps_down(b, r1);
    if r2 > r1 + 1 {
        lemma_tier_steps_down(b, r2 - 1);
        if tier(b, r1 + 1) > 0 {
            lemma_tier_falls(b, r1 + 1, r2);
        } else {
            lemma_tier_steps_down(b, r1 + 1);
            lemma_tier_zero_stays(b, r1 + 1, r2);
        }
    }
}

proof fn lemma_tier_zero_stays(b: int, r1: int, r2: int)
    requires
        0 <= r1 <= r2,
        tier(b, r1) == 0,
    ensures
        tier(b, r2) == 0,
    decreases r2 - r1,
{
    if r2 > r1 {
        lemma_tier_steps_down(b, r1);
        lemma_tier_steps_down(b, r1 + 1);
        lemma_tier_zero_stays(b, r1 + 1, r2);
    }
}

proof fn lemma_rank_order(field: Field, cs: Seq<(Pos, PieceModel)>, target: Pos, i: int, j: int, m: int)
    requires
        0 <= i < cs.len(),
        0 <= j < cs.len(),
        0 <= m <= cs.len(),
        dist2(center(field, cs[i]), target) < dist2(center(field, cs[j]), target),
    ensures
        rank_among(field, cs, target, i, m) + (if i < m { 1int } else { 0int }) <= rank_among(
            field,
            cs,
            target,
            j,
            m,
        ),
    decreases m,
{
    if m > 0 {
        lemma_rank_order(field, cs, target, i, j, m - 1);
        assert(ranks_before(field, cs, target, m - 1, i) ==> ranks_before(field, cs, target, m - 1, j));
        assert(ranks_before(field, cs, target, i, j));
        assert(!ranks_before(field, cs, target, i, i));
    }
}

/// Before contact, of two candidates the one whose centre is nearer the
/// target earns the greater enemy-distance bonus, so long as the nearer
/// one earns any.
pub proof fn lemma_nearer_earns_more(
    field: Field,
    cs: Seq<(Pos, PieceModel)>,
    target: Pos,
    turn: int,
    i: int,
    j: int,
)
    requires
        0 <= i < cs.len(),
        0 <= j < cs.len(),
        dist2(center(field, cs[i]), target) < dist2(center(field, cs[j]), target),
        distance_bonus(field, cs, target, turn, i) > 0,
    ensures
        distance_bonus(field, cs, target, turn, i) > distance_bonus(field, cs, target, turn, j),
{
    lemma_rank_order(field, cs, target, i, j, cs.len() as int);
    crate::scoring::lemma_rank_grows(field, cs, target, i, 0, cs.len() as int);
    lemma_tier_falls(
        crate::bonus::start_bonus(turn),
        rank(field, cs, target, i),
        rank(field, cs, target, j),
    );
}

/// Once a player cell touches an opponent cell, the first phase adds the
/// wall-distance bonus and nothing of the enemy-distance one.
pub proof fn lemma_contact_selects_walls(
    field: Field,
    cs: Seq<(Pos, PieceModel)>,
    symbol: (char, char),
    enemy_pos: Option<Pos>,
    turn: int,
    i: int,
)
    requires
        in_contact(field, symbol),
    ensures
        phase_bonus(field, cs, symbol, enemy_pos, turn, i) == wall_bonus(field, cs[i]),
{
}

/// A perfect fit earns a positive gap-filling bonus on every turn.
pub proof fn lemma_perfect_fit_rewarded(field: Field, turn: int, c: (Pos, PieceModel))
    requires
        perfect_fit(field, c),
        turn >= 0,
    ensures
        fit_bonus(field, turn, c) >= 1,
{
    lemma_growth_range(turn as nat);
    assert(growth_bonus(turn as nat) >= 1);
}

} // verus!
